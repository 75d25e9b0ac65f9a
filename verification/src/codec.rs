//! The binary wire format of the envelopes.
//!
//! Every message is a sequence of fields; a field is a one-byte tag, an
//! eight-byte little-endian length, and that many payload bytes. Strings
//! travel as UTF-8; nested messages travel as a field whose payload is the
//! nested encoding; a snapshot's member list is a repeated field, one per
//! entry, in order. The encoders are pinned to the spec-level encoding
//! functions byte for byte, and each decoder is proved complete: fed the
//! encoding of any message, it returns exactly that message.

use vstd::prelude::*;
use vstd::utf8::{decode_utf8, encode_utf8, valid_utf8};

use crate::envelope::{
    ClientContent, ClientContentView, ClientMessage, ClientMessageView, Command, CommandView,
    GroupStateUpdate, MemberEntry, MemberState, ServerMessage, ServerMessageView,
};

verus! {

/// Why an inbound frame was rejected. Any of these is session-fatal.
#[derive(Debug, Clone, PartialEq, Eq)]
pub enum DecodeError {
    /// The bytes end inside a field header or payload.
    Truncated,
    /// A field tag that the schema does not place at this position.
    UnexpectedTag,
    /// Bytes continue past the end of the message.
    TrailingBytes,
    /// A string payload is not valid UTF-8.
    InvalidUtf8,
}

/// The eight little-endian bytes of a length.
pub open spec fn le8(n: u64) -> Seq<u8> {
    seq![
        (n % 256) as u8,
        ((n / 256) % 256) as u8,
        ((n / 65536) % 256) as u8,
        ((n / 16777216) % 256) as u8,
        ((n / 4294967296) % 256) as u8,
        ((n / 1099511627776) % 256) as u8,
        ((n / 281474976710656) % 256) as u8,
        ((n / 72057594037927936) % 256) as u8,
    ]
}

/// The value eight little-endian bytes spell.
pub open spec fn le8_val(b: Seq<u8>) -> int
    recommends
        b.len() == 8,
{
    b[0] + b[1] * 256 + b[2] * 65536 + b[3] * 16777216 + b[4] * 4294967296 + b[5] * 1099511627776
        + b[6] * 281474976710656 + b[7] * 72057594037927936
}

proof fn lemma_le8_val_le8(n: u64)
    ensures
        le8_val(le8(n)) == n,
{
    assert((n % 256) + ((n / 256) % 256) * 256 + ((n / 65536) % 256) * 65536 + ((n / 16777216)
        % 256) * 16777216 + ((n / 4294967296) % 256) * 4294967296 + ((n / 1099511627776) % 256)
        * 1099511627776 + ((n / 281474976710656) % 256) * 281474976710656 + ((n
        / 72057594037927936) % 256) * 72057594037927936 == n) by (bit_vector);
}

/// One field: tag, length, payload.
pub open spec fn field_enc(tag: u8, payload: Seq<u8>) -> Seq<u8> {
    seq![tag] + le8(payload.len() as u64) + payload
}

/// A signaling payload: one string field whose tag picks the variant.
pub open spec fn enc_command(c: CommandView) -> Seq<u8> {
    match c {
        CommandView::Offer(s) => field_enc(1, encode_utf8(s)),
        CommandView::Answer(s) => field_enc(2, encode_utf8(s)),
        CommandView::IceCandidate(s) => field_enc(3, encode_utf8(s)),
    }
}

/// What a snapshot records of one member: their display name.
pub open spec fn enc_member_state(name: Seq<char>) -> Seq<u8> {
    field_enc(1, encode_utf8(name))
}

/// One snapshot entry: the user id, then the member's record.
pub open spec fn enc_entry(e: (Seq<char>, Seq<char>)) -> Seq<u8> {
    field_enc(1, encode_utf8(e.0)) + field_enc(2, enc_member_state(e.1))
}

/// A snapshot's entries: a repeated field, one per entry, in order.
pub open spec fn enc_entries(es: Seq<(Seq<char>, Seq<char>)>) -> Seq<u8>
    decreases es.len(),
{
    if es.len() == 0 {
        Seq::empty()
    } else {
        field_enc(1, enc_entry(es[0])) + enc_entries(es.drop_first())
    }
}

/// Outbound content: a relayed payload or a snapshot, told apart by tag.
pub open spec fn enc_content(c: ClientContentView) -> Seq<u8> {
    match c {
        ClientContentView::Command(cmd) => field_enc(2, enc_command(cmd)),
        ClientContentView::StateUpdate(es) => field_enc(3, enc_entries(es)),
    }
}

/// The optional content part of an outbound message.
pub open spec fn enc_client_content(c: Option<ClientContentView>) -> Seq<u8> {
    match c {
        Some(cc) => enc_content(cc),
        None => Seq::empty(),
    }
}

/// The optional payload part of an inbound message.
pub open spec fn enc_server_content(c: Option<CommandView>) -> Seq<u8> {
    match c {
        Some(cmd) => field_enc(2, enc_command(cmd)),
        None => Seq::empty(),
    }
}

/// The optional leading identity field both message kinds share.
pub open spec fn head_enc(u: Option<Seq<char>>) -> Seq<u8> {
    match u {
        Some(s) => field_enc(1, encode_utf8(s)),
        None => Seq::empty(),
    }
}

/// An outbound message: optional sender id, then optional content.
pub open spec fn enc_client(m: ClientMessageView) -> Seq<u8> {
    head_enc(m.from_user) + enc_client_content(m.content)
}

/// An inbound message: optional target id, then optional payload.
pub open spec fn enc_server(m: ServerMessageView) -> Seq<u8> {
    head_enc(m.to_user) + enc_server_content(m.content)
}

fn push_bytes(out: &mut Vec<u8>, b: &[u8])
    ensures
        final(out)@ == old(out)@ + b@,
{
    let mut i: usize = 0;
    while i < b.len()
        invariant
            i <= b@.len(),
            out@ == old(out)@ + b@.take(i as int),
        decreases b@.len() - i,
    {
        out.push(b[i]);
        proof {
            assert(b@.take(i + 1 as int) =~= b@.take(i as int) + seq![b@[i as int]]);
        }
        i += 1;
    }
    proof {
        assert(b@.take(b@.len() as int) =~= b@);
    }
}

fn push_le8(out: &mut Vec<u8>, n: u64)
    ensures
        final(out)@ == old(out)@ + le8(n),
{
    out.push((n % 256) as u8);
    out.push(((n / 256) % 256) as u8);
    out.push(((n / 65536) % 256) as u8);
    out.push(((n / 16777216) % 256) as u8);
    out.push(((n / 4294967296) % 256) as u8);
    out.push(((n / 1099511627776) % 256) as u8);
    out.push(((n / 281474976710656) % 256) as u8);
    out.push(((n / 72057594037927936) % 256) as u8);
    proof {
        assert(out@ =~= old(out)@ + le8(n));
    }
}

fn push_field(out: &mut Vec<u8>, tag: u8, payload: &[u8])
    ensures
        final(out)@ == old(out)@ + field_enc(tag, payload@),
{
    out.push(tag);
    push_le8(out, payload.len() as u64);
    push_bytes(out, payload);
    proof {
        assert(out@ =~= old(out)@ + field_enc(tag, payload@));
    }
}

fn push_string_field(out: &mut Vec<u8>, tag: u8, s: &String)
    ensures
        final(out)@ == old(out)@ + field_enc(tag, encode_utf8(s@)),
{
    push_field(out, tag, s.as_str().as_bytes());
}

fn push_command(out: &mut Vec<u8>, c: &Command)
    ensures
        final(out)@ == old(out)@ + enc_command(c@),
{
    match c {
        Command::Offer(s) => push_string_field(out, 1, s),
        Command::Answer(s) => push_string_field(out, 2, s),
        Command::IceCandidate(s) => push_string_field(out, 3, s),
    }
}

proof fn lemma_enc_entries_step(es: Seq<(Seq<char>, Seq<char>)>, i: int)
    requires
        0 <= i < es.len(),
    ensures
        enc_entries(es.take(i + 1)) == enc_entries(es.take(i)) + field_enc(1, enc_entry(es[i])),
    decreases i,
{
    if i == 0 {
        assert(es.take(1)[0] == es[0]);
        assert(es.take(1).drop_first() =~= es.take(0));
        assert(enc_entries(es.take(0)) =~= Seq::<u8>::empty());
        assert(enc_entries(es.take(1)) =~= Seq::<u8>::empty() + field_enc(1, enc_entry(es[0])));
    } else {
        let tl = es.drop_first();
        lemma_enc_entries_step(tl, i - 1);
        assert(es.take(i + 1)[0] == es[0]);
        assert(es.take(i)[0] == es[0]);
        assert(es.take(i + 1).drop_first() =~= tl.take(i));
        assert(es.take(i).drop_first() =~= tl.take(i - 1));
        assert(tl[i - 1] == es[i]);
        assert(enc_entries(es.take(i + 1)) == field_enc(1, enc_entry(es[0])) + enc_entries(
            tl.take(i),
        ));
        assert(enc_entries(es.take(i)) == field_enc(1, enc_entry(es[0])) + enc_entries(
            tl.take(i - 1),
        ));
        assert(field_enc(1, enc_entry(es[0])) + (enc_entries(tl.take(i - 1)) + field_enc(
            1,
            enc_entry(es[i]),
        )) =~= (field_enc(1, enc_entry(es[0])) + enc_entries(tl.take(i - 1))) + field_enc(
            1,
            enc_entry(es[i]),
        ));
    }
}

fn push_entries(out: &mut Vec<u8>, g: &GroupStateUpdate)
    ensures
        final(out)@ == old(out)@ + enc_entries(g@),
{
    let mut i: usize = 0;
    while i < g.members.len()
        invariant
            i <= g.members@.len(),
            out@ == old(out)@ + enc_entries(g@.take(i as int)),
        decreases g.members@.len() - i,
    {
        let e = &g.members[i];
        let mut entry: Vec<u8> = Vec::new();
        push_string_field(&mut entry, 1, &e.user_id);
        let mut member: Vec<u8> = Vec::new();
        push_string_field(&mut member, 1, &e.state.name);
        push_field(&mut entry, 2, member.as_slice());
        proof {
            assert(entry@ =~= enc_entry(g@[i as int]));
        }
        push_field(out, 1, entry.as_slice());
        proof {
            lemma_enc_entries_step(g@, i as int);
        }
        i += 1;
    }
    proof {
        assert(g@.take(g@.len() as int) =~= g@);
    }
}

/// Encodes an outbound message; the bytes are exactly the message's
/// spec-level encoding.
pub fn encode_client_message(m: &ClientMessage) -> (r: Vec<u8>)
    ensures
        r@ == enc_client(m@),
{
    let mut out: Vec<u8> = Vec::new();
    match &m.from_user {
        Some(u) => push_string_field(&mut out, 1, u),
        None => (),
    }
    match &m.content {
        Some(ClientContent::Command(c)) => {
            let mut payload: Vec<u8> = Vec::new();
            push_command(&mut payload, c);
            push_field(&mut out, 2, payload.as_slice());
        },
        Some(ClientContent::StateUpdate(g)) => {
            let mut payload: Vec<u8> = Vec::new();
            push_entries(&mut payload, g);
            push_field(&mut out, 3, payload.as_slice());
        },
        None => (),
    }
    proof {
        assert(out@ =~= enc_client(m@));
    }
    out
}

/// Encodes an inbound message; the bytes are exactly the message's
/// spec-level encoding.
pub fn encode_server_message(m: &ServerMessage) -> (r: Vec<u8>)
    ensures
        r@ == enc_server(m@),
{
    let mut out: Vec<u8> = Vec::new();
    match &m.to_user {
        Some(u) => push_string_field(&mut out, 1, u),
        None => (),
    }
    match &m.content {
        Some(c) => {
            let mut payload: Vec<u8> = Vec::new();
            push_command(&mut payload, c);
            push_field(&mut out, 2, payload.as_slice());
        },
        None => (),
    }
    proof {
        assert(out@ =~= enc_server(m@));
    }
    out
}

/// Relies on `String::from_utf8`: succeeds exactly on valid UTF-8, returning
/// the string those bytes spell.
#[verifier::external_body]
fn string_from_utf8(bytes: Vec<u8>) -> (r: Option<String>)
    ensures
        r matches Some(s) ==> valid_utf8(bytes@) && s@ == decode_utf8(bytes@),
        valid_utf8(bytes@) ==> r is Some,
{
    String::from_utf8(bytes).ok()
}

proof fn lemma_field_parts(bytes: Seq<u8>, pos: int, t: u8, p: Seq<u8>, rest: Seq<u8>)
    requires
        0 <= pos <= bytes.len(),
        bytes.len() < 0x10000000000000000,
        bytes.subrange(pos, bytes.len() as int) == field_enc(t, p) + rest,
    ensures
        pos + 9 + p.len() <= bytes.len(),
        bytes[pos] == t,
        le8_val(bytes.subrange(pos + 1, pos + 9)) == p.len(),
        bytes.subrange(pos + 9, pos + 9 + p.len()) == p,
        bytes.subrange(pos + 9 + p.len(), bytes.len() as int) == rest,
{
    let sfx = bytes.subrange(pos, bytes.len() as int);
    assert(sfx.len() == 9 + p.len() + rest.len());
    assert(bytes[pos] == sfx[0]);
    assert(bytes.subrange(pos + 1, pos + 9) =~= sfx.subrange(1, 9));
    assert(sfx.subrange(1, 9) =~= le8(p.len() as u64));
    lemma_le8_val_le8(p.len() as u64);
    assert(bytes.subrange(pos + 9, pos + 9 + p.len()) =~= sfx.subrange(9, 9 + p.len() as int));
    assert(sfx.subrange(9, 9 + p.len() as int) =~= p);
    assert(bytes.subrange(pos + 9 + p.len(), bytes.len() as int) =~= sfx.subrange(
        9 + p.len() as int,
        sfx.len() as int,
    ));
    assert(sfx.subrange(9 + p.len() as int, sfx.len() as int) =~= rest);
}

fn read_le8(bytes: &[u8], pos: usize) -> (n: u64)
    requires
        pos + 8 <= bytes@.len(),
    ensures
        n as int == le8_val(bytes@.subrange(pos as int, pos as int + 8)),
{
    let b0 = bytes[pos] as u64;
    let b1 = bytes[pos + 1] as u64;
    let b2 = bytes[pos + 2] as u64;
    let b3 = bytes[pos + 3] as u64;
    let b4 = bytes[pos + 4] as u64;
    let b5 = bytes[pos + 5] as u64;
    let b6 = bytes[pos + 6] as u64;
    let b7 = bytes[pos + 7] as u64;
    let n = b0 + b1 * 256 + b2 * 65536 + b3 * 16777216 + b4 * 4294967296 + b5 * 1099511627776
        + b6 * 281474976710656 + b7 * 72057594037927936;
    proof {
        let s = bytes@.subrange(pos as int, pos as int + 8);
        assert(s[0] == bytes@[pos as int]);
        assert(s[1] == bytes@[pos as int + 1]);
        assert(s[2] == bytes@[pos as int + 2]);
        assert(s[3] == bytes@[pos as int + 3]);
        assert(s[4] == bytes@[pos as int + 4]);
        assert(s[5] == bytes@[pos as int + 5]);
        assert(s[6] == bytes@[pos as int + 6]);
        assert(s[7] == bytes@[pos as int + 7]);
    }
    n
}

fn read_field(bytes: &[u8], pos: usize) -> (r: Result<(u8, usize), DecodeError>)
    requires
        pos < bytes@.len(),
    ensures
        r matches Ok(te) ==> ({
            &&& pos + 9 <= te.1 <= bytes@.len()
            &&& te.0 == bytes@[pos as int]
            &&& te.1 - pos - 9 == le8_val(bytes@.subrange(pos as int + 1, pos as int + 9))
        }),
        (pos + 9 <= bytes@.len() && pos + 9 + le8_val(
            bytes@.subrange(pos as int + 1, pos as int + 9),
        ) <= bytes@.len()) ==> r is Ok,
{
    if bytes.len() - pos < 9 {
        return Err(DecodeError::Truncated);
    }
    let tag = bytes[pos];
    let n = read_le8(bytes, pos + 1);
    let avail = bytes.len() - (pos + 9);
    if n > avail as u64 {
        return Err(DecodeError::Truncated);
    }
    Ok((tag, pos + 9 + n as usize))
}

fn decode_string(bytes: &[u8]) -> (r: Result<String, DecodeError>)
    ensures
        forall|s: Seq<char>| bytes@ == encode_utf8(s) ==> (r matches Ok(t) && t@ == s),
{
    let v = vstd::slice::slice_to_vec(bytes);
    let o = string_from_utf8(v);
    let r = match o {
        Some(s) => Ok(s),
        None => Err(DecodeError::InvalidUtf8),
    };
    proof {
        assert forall|s: Seq<char>| bytes@ == encode_utf8(s) implies (r matches Ok(t) && t@
            == s) by {
            vstd::utf8::encode_utf8_valid_utf8(s);
            vstd::utf8::encode_utf8_decode_utf8(s);
        }
    }
    r
}

proof fn lemma_command_parts(bytes: Seq<u8>, v: CommandView)
    requires
        bytes == enc_command(v),
        bytes.len() < 0x10000000000000000,
    ensures
        bytes.len() >= 9,
        9 + le8_val(bytes.subrange(1, 9)) == bytes.len(),
        v matches CommandView::Offer(s) ==> bytes[0] == 1 && bytes.subrange(
            9,
            bytes.len() as int,
        ) == encode_utf8(s),
        v matches CommandView::Answer(s) ==> bytes[0] == 2 && bytes.subrange(
            9,
            bytes.len() as int,
        ) == encode_utf8(s),
        v matches CommandView::IceCandidate(s) ==> bytes[0] == 3 && bytes.subrange(
            9,
            bytes.len() as int,
        ) == encode_utf8(s),
{
    assert(bytes.subrange(0, bytes.len() as int) =~= bytes);
    match v {
        CommandView::Offer(s) => {
            assert(bytes.subrange(0, bytes.len() as int) =~= field_enc(1, encode_utf8(s))
                + Seq::<u8>::empty());
            lemma_field_parts(bytes, 0, 1, encode_utf8(s), Seq::empty());
            assert(bytes.subrange(9, bytes.len() as int) =~= bytes.subrange(
                9,
                9 + encode_utf8(s).len() as int,
            ));
        },
        CommandView::Answer(s) => {
            assert(bytes.subrange(0, bytes.len() as int) =~= field_enc(2, encode_utf8(s))
                + Seq::<u8>::empty());
            lemma_field_parts(bytes, 0, 2, encode_utf8(s), Seq::empty());
            assert(bytes.subrange(9, bytes.len() as int) =~= bytes.subrange(
                9,
                9 + encode_utf8(s).len() as int,
            ));
        },
        CommandView::IceCandidate(s) => {
            assert(bytes.subrange(0, bytes.len() as int) =~= field_enc(3, encode_utf8(s))
                + Seq::<u8>::empty());
            lemma_field_parts(bytes, 0, 3, encode_utf8(s), Seq::empty());
            assert(bytes.subrange(9, bytes.len() as int) =~= bytes.subrange(
                9,
                9 + encode_utf8(s).len() as int,
            ));
        },
    }
}

/// Decodes a signaling payload. Complete: fed the encoding of any payload,
/// it returns exactly that payload.
fn decode_command(bytes: &[u8]) -> (r: Result<Command, DecodeError>)
    ensures
        forall|v: CommandView| bytes@ == enc_command(v) ==> (r matches Ok(c) && c@ == v),
{
    if bytes.len() == 0 {
        proof {
            assert forall|v: CommandView| bytes@ == enc_command(v) implies false by {
                lemma_command_parts(bytes@, v);
            }
        }
        return Err(DecodeError::Truncated);
    }
    let fr = read_field(bytes, 0);
    let (tag, pend) = match fr {
        Ok(te) => te,
        Err(e) => {
            proof {
                assert forall|v: CommandView| bytes@ == enc_command(v) implies false by {
                    lemma_command_parts(bytes@, v);
                }
            }
            return Err(e);
        },
    };
    if pend != bytes.len() {
        proof {
            assert forall|v: CommandView| bytes@ == enc_command(v) implies false by {
                lemma_command_parts(bytes@, v);
            }
        }
        return Err(DecodeError::TrailingBytes);
    }
    let payload = vstd::slice::slice_subrange(bytes, 9, pend);
    let sr = decode_string(payload);
    let s = match sr {
        Ok(s) => s,
        Err(e) => {
            proof {
                assert forall|v: CommandView| bytes@ == enc_command(v) implies false by {
                    lemma_command_parts(bytes@, v);
                }
            }
            return Err(e);
        },
    };
    let r = if tag == 1 {
        Ok(Command::Offer(s))
    } else if tag == 2 {
        Ok(Command::Answer(s))
    } else if tag == 3 {
        Ok(Command::IceCandidate(s))
    } else {
        Err(DecodeError::UnexpectedTag)
    };
    proof {
        assert forall|v: CommandView| bytes@ == enc_command(v) implies (r matches Ok(c) && c@
            == v) by {
            lemma_command_parts(bytes@, v);
        }
    }
    r
}

proof fn lemma_member_state_parts(bytes: Seq<u8>, name: Seq<char>)
    requires
        bytes == enc_member_state(name),
        bytes.len() < 0x10000000000000000,
    ensures
        bytes.len() >= 9,
        bytes[0] == 1,
        9 + le8_val(bytes.subrange(1, 9)) == bytes.len(),
        bytes.subrange(9, bytes.len() as int) == encode_utf8(name),
{
    assert(bytes.subrange(0, bytes.len() as int) =~= field_enc(1, encode_utf8(name))
        + Seq::<u8>::empty());
    lemma_field_parts(bytes, 0, 1, encode_utf8(name), Seq::empty());
    assert(bytes.subrange(9, bytes.len() as int) =~= bytes.subrange(
        9,
        9 + encode_utf8(name).len() as int,
    ));
}

fn decode_member_state(bytes: &[u8]) -> (r: Result<MemberState, DecodeError>)
    ensures
        forall|name: Seq<char>|
            bytes@ == enc_member_state(name) ==> (r matches Ok(ms) && ms.name@ == name),
{
    if bytes.len() == 0 {
        proof {
            assert forall|name: Seq<char>| bytes@ == enc_member_state(name) implies false by {
                lemma_member_state_parts(bytes@, name);
            }
        }
        return Err(DecodeError::Truncated);
    }
    let fr = read_field(bytes, 0);
    let (tag, pend) = match fr {
        Ok(te) => te,
        Err(e) => {
            proof {
                assert forall|name: Seq<char>| bytes@ == enc_member_state(name) implies false by {
                    lemma_member_state_parts(bytes@, name);
                }
            }
            return Err(e);
        },
    };
    if tag != 1 {
        proof {
            assert forall|name: Seq<char>| bytes@ == enc_member_state(name) implies false by {
                lemma_member_state_parts(bytes@, name);
            }
        }
        return Err(DecodeError::UnexpectedTag);
    }
    if pend != bytes.len() {
        proof {
            assert forall|name: Seq<char>| bytes@ == enc_member_state(name) implies false by {
                lemma_member_state_parts(bytes@, name);
            }
        }
        return Err(DecodeError::TrailingBytes);
    }
    let sr = decode_string(vstd::slice::slice_subrange(bytes, 9, pend));
    let r = match sr {
        Ok(s) => Ok(MemberState { name: s }),
        Err(e) => Err(e),
    };
    proof {
        assert forall|name: Seq<char>| bytes@ == enc_member_state(name) implies (r matches Ok(ms)
            && ms.name@ == name) by {
            lemma_member_state_parts(bytes@, name);
        }
    }
    r
}

proof fn lemma_entry_parts(bytes: Seq<u8>, e: (Seq<char>, Seq<char>))
    requires
        bytes == enc_entry(e),
        bytes.len() < 0x10000000000000000,
    ensures
        bytes.len() >= 18,
        bytes[0] == 1,
        le8_val(bytes.subrange(1, 9)) == encode_utf8(e.0).len(),
        9 + encode_utf8(e.0).len() + 9 <= bytes.len(),
        bytes.subrange(9, 9 + encode_utf8(e.0).len() as int) == encode_utf8(e.0),
        bytes[9 + encode_utf8(e.0).len() as int] == 2,
        le8_val(
            bytes.subrange(
                9 + encode_utf8(e.0).len() as int + 1,
                9 + encode_utf8(e.0).len() as int + 9,
            ),
        ) == enc_member_state(e.1).len(),
        9 + encode_utf8(e.0).len() + 9 + enc_member_state(e.1).len() == bytes.len(),
        bytes.subrange(9 + encode_utf8(e.0).len() + 9 as int, bytes.len() as int)
            == enc_member_state(e.1),
{
    let p1 = encode_utf8(e.0);
    let p2 = enc_member_state(e.1);
    assert(bytes.subrange(0, bytes.len() as int) =~= field_enc(1, p1) + field_enc(2, p2));
    lemma_field_parts(bytes, 0, 1, p1, field_enc(2, p2));
    let mid = 9 + p1.len() as int;
    assert(bytes.subrange(mid, bytes.len() as int) =~= field_enc(2, p2) + Seq::<u8>::empty());
    lemma_field_parts(bytes, mid, 2, p2, Seq::empty());
    assert(bytes.subrange(mid + 9, bytes.len() as int) =~= bytes.subrange(
        mid + 9,
        mid + 9 + p2.len() as int,
    ));
}

fn decode_entry(bytes: &[u8]) -> (r: Result<MemberEntry, DecodeError>)
    ensures
        forall|e: (Seq<char>, Seq<char>)|
            bytes@ == enc_entry(e) ==> (r matches Ok(me) && me.user_id@ == e.0 && me.state.name@
                == e.1),
{
    if bytes.len() == 0 {
        proof {
            assert forall|e: (Seq<char>, Seq<char>)| bytes@ == enc_entry(e) implies false by {
                lemma_entry_parts(bytes@, e);
            }
        }
        return Err(DecodeError::Truncated);
    }
    let fr = read_field(bytes, 0);
    let (tag1, pend1) = match fr {
        Ok(te) => te,
        Err(er) => {
            proof {
                assert forall|e: (Seq<char>, Seq<char>)| bytes@ == enc_entry(e) implies false by {
                    lemma_entry_parts(bytes@, e);
                }
            }
            return Err(er);
        },
    };
    if tag1 != 1 {
        proof {
            assert forall|e: (Seq<char>, Seq<char>)| bytes@ == enc_entry(e) implies false by {
                lemma_entry_parts(bytes@, e);
            }
        }
        return Err(DecodeError::UnexpectedTag);
    }
    let sr = decode_string(vstd::slice::slice_subrange(bytes, 9, pend1));
    let user_id = match sr {
        Ok(s) => s,
        Err(er) => {
            proof {
                assert forall|e: (Seq<char>, Seq<char>)| bytes@ == enc_entry(e) implies false by {
                    lemma_entry_parts(bytes@, e);
                }
            }
            return Err(er);
        },
    };
    if pend1 >= bytes.len() {
        proof {
            assert forall|e: (Seq<char>, Seq<char>)| bytes@ == enc_entry(e) implies false by {
                lemma_entry_parts(bytes@, e);
            }
        }
        return Err(DecodeError::Truncated);
    }
    let fr2 = read_field(bytes, pend1);
    let (tag2, pend2) = match fr2 {
        Ok(te) => te,
        Err(er) => {
            proof {
                assert forall|e: (Seq<char>, Seq<char>)| bytes@ == enc_entry(e) implies false by {
                    lemma_entry_parts(bytes@, e);
                }
            }
            return Err(er);
        },
    };
    if tag2 != 2 {
        proof {
            assert forall|e: (Seq<char>, Seq<char>)| bytes@ == enc_entry(e) implies false by {
                lemma_entry_parts(bytes@, e);
            }
        }
        return Err(DecodeError::UnexpectedTag);
    }
    if pend2 != bytes.len() {
        proof {
            assert forall|e: (Seq<char>, Seq<char>)| bytes@ == enc_entry(e) implies false by {
                lemma_entry_parts(bytes@, e);
            }
        }
        return Err(DecodeError::TrailingBytes);
    }
    let mr = decode_member_state(vstd::slice::slice_subrange(bytes, pend1 + 9, pend2));
    let r = match mr {
        Ok(ms) => Ok(MemberEntry { user_id, state: ms }),
        Err(er) => Err(er),
    };
    proof {
        assert forall|e: (Seq<char>, Seq<char>)| bytes@ == enc_entry(e) implies (r matches Ok(me)
            && me.user_id@ == e.0 && me.state.name@ == e.1) by {
            lemma_entry_parts(bytes@, e);
        }
    }
    r
}

#[verifier::rlimit(100)]
fn decode_entries(bytes: &[u8], pos: usize) -> (r: Result<Vec<MemberEntry>, DecodeError>)
    requires
        pos <= bytes@.len(),
    ensures
        forall|es: Seq<(Seq<char>, Seq<char>)>|
            bytes@.subrange(pos as int, bytes@.len() as int) == enc_entries(es) ==> (
            r matches Ok(ms) && ms@.len() == es.len() && (forall|i: int|
                0 <= i < es.len() ==> ms@[i].user_id@ == es[i].0 && ms@[i].state.name@
                    == es[i].1)),
    decreases bytes@.len() - pos,
{
    let ghost sfx = bytes@.subrange(pos as int, bytes@.len() as int);
    if pos == bytes.len() {
        let r: Result<Vec<MemberEntry>, DecodeError> = Ok(Vec::new());
        proof {
            assert forall|es: Seq<(Seq<char>, Seq<char>)>| sfx == enc_entries(es) implies (
            r matches Ok(ms) && ms@.len() == es.len() && (forall|i: int|
                0 <= i < es.len() ==> ms@[i].user_id@ == es[i].0 && ms@[i].state.name@
                    == es[i].1)) by {
                if es.len() > 0 {
                    assert(enc_entries(es).len() >= 9);
                }
            }
        }
        return r;
    }
    let fr = read_field(bytes, pos);
    let (tag, pend) = match fr {
        Ok(te) => te,
        Err(er) => {
            proof {
                assert forall|es: Seq<(Seq<char>, Seq<char>)>| sfx == enc_entries(es)
                    implies false by {
                    lemma_entries_head(bytes@, pos as int, es);
                }
            }
            return Err(er);
        },
    };
    if tag != 1 {
        proof {
            assert forall|es: Seq<(Seq<char>, Seq<char>)>| sfx == enc_entries(es)
                implies false by {
                lemma_entries_head(bytes@, pos as int, es);
            }
        }
        return Err(DecodeError::UnexpectedTag);
    }
    let er = decode_entry(vstd::slice::slice_subrange(bytes, pos + 9, pend));
    let me = match er {
        Ok(me) => me,
        Err(e) => {
            proof {
                assert forall|es: Seq<(Seq<char>, Seq<char>)>| sfx == enc_entries(es)
                    implies false by {
                    lemma_entries_head(bytes@, pos as int, es);
                }
            }
            return Err(e);
        },
    };
    let rr = decode_entries(bytes, pend);
    let mut rest = match rr {
        Ok(ms) => ms,
        Err(e) => {
            proof {
                assert forall|es: Seq<(Seq<char>, Seq<char>)>| sfx == enc_entries(es)
                    implies false by {
                    lemma_entries_head(bytes@, pos as int, es);
                }
            }
            return Err(e);
        },
    };
    rest.insert(0, me);
    let r = Ok(rest);
    proof {
        assert forall|es: Seq<(Seq<char>, Seq<char>)>| sfx == enc_entries(es) implies (
        r matches Ok(ms) && ms@.len() == es.len() && (forall|i: int|
            0 <= i < es.len() ==> ms@[i].user_id@ == es[i].0 && ms@[i].state.name@ == es[i].1)) by {
            lemma_entries_head(bytes@, pos as int, es);
            let tail = es.drop_first();
            assert forall|i: int|
                0 <= i < es.len() implies rest@[i].user_id@ == es[i].0 && rest@[i].state.name@
                == es[i].1 by {
                if i > 0 {
                    assert(tail[i - 1] == es[i]);
                }
            }
        }
    }
    r
}

proof fn lemma_entries_head(bytes: Seq<u8>, pos: int, es: Seq<(Seq<char>, Seq<char>)>)
    requires
        0 <= pos < bytes.len(),
        bytes.len() < 0x10000000000000000,
        bytes.subrange(pos, bytes.len() as int) == enc_entries(es),
    ensures
        es.len() > 0,
        pos + 9 + enc_entry(es[0]).len() <= bytes.len(),
        bytes[pos] == 1,
        le8_val(bytes.subrange(pos + 1, pos + 9)) == enc_entry(es[0]).len(),
        bytes.subrange(pos + 9, pos + 9 + enc_entry(es[0]).len() as int) == enc_entry(es[0]),
        bytes.subrange(pos + 9 + enc_entry(es[0]).len() as int, bytes.len() as int) == enc_entries(
            es.drop_first(),
        ),
{
    if es.len() == 0 {
        assert(bytes.subrange(pos, bytes.len() as int).len() == 0);
    }
    lemma_field_parts(bytes, pos, 1, enc_entry(es[0]), enc_entries(es.drop_first()));
}

proof fn lemma_server_content(bytes: Seq<u8>, pos: int, c: Option<CommandView>)
    requires
        0 <= pos <= bytes.len(),
        bytes.len() < 0x10000000000000000,
        bytes.subrange(pos, bytes.len() as int) == enc_server_content(c),
    ensures
        c is None ==> pos == bytes.len(),
        c matches Some(cmd) ==> ({
            &&& pos + 9 + enc_command(cmd).len() == bytes.len()
            &&& bytes[pos] == 2
            &&& le8_val(bytes.subrange(pos + 1, pos + 9)) == enc_command(cmd).len()
            &&& bytes.subrange(pos + 9, bytes.len() as int) == enc_command(cmd)
        }),
{
    match c {
        Some(cmd) => {
            assert(bytes.subrange(pos, bytes.len() as int) =~= field_enc(2, enc_command(cmd))
                + Seq::<u8>::empty());
            lemma_field_parts(bytes, pos, 2, enc_command(cmd), Seq::empty());
            assert(bytes.subrange(pos + 9, bytes.len() as int) =~= bytes.subrange(
                pos + 9,
                pos + 9 + enc_command(cmd).len() as int,
            ));
        },
        None => {
            assert(bytes.subrange(pos, bytes.len() as int).len() == 0);
        },
    }
}

proof fn lemma_client_content(bytes: Seq<u8>, pos: int, c: Option<ClientContentView>)
    requires
        0 <= pos <= bytes.len(),
        bytes.len() < 0x10000000000000000,
        bytes.subrange(pos, bytes.len() as int) == enc_client_content(c),
    ensures
        c is None ==> pos == bytes.len(),
        c matches Some(ClientContentView::Command(cmd)) ==> ({
            &&& pos + 9 + enc_command(cmd).len() == bytes.len()
            &&& bytes[pos] == 2
            &&& le8_val(bytes.subrange(pos + 1, pos + 9)) == enc_command(cmd).len()
            &&& bytes.subrange(pos + 9, bytes.len() as int) == enc_command(cmd)
        }),
        c matches Some(ClientContentView::StateUpdate(es)) ==> ({
            &&& pos + 9 + enc_entries(es).len() == bytes.len()
            &&& bytes[pos] == 3
            &&& le8_val(bytes.subrange(pos + 1, pos + 9)) == enc_entries(es).len()
            &&& bytes.subrange(pos + 9, bytes.len() as int) == enc_entries(es)
        }),
{
    match c {
        Some(ClientContentView::Command(cmd)) => {
            assert(bytes.subrange(pos, bytes.len() as int) =~= field_enc(2, enc_command(cmd))
                + Seq::<u8>::empty());
            lemma_field_parts(bytes, pos, 2, enc_command(cmd), Seq::empty());
            assert(bytes.subrange(pos + 9, bytes.len() as int) =~= bytes.subrange(
                pos + 9,
                pos + 9 + enc_command(cmd).len() as int,
            ));
        },
        Some(ClientContentView::StateUpdate(es)) => {
            assert(bytes.subrange(pos, bytes.len() as int) =~= field_enc(3, enc_entries(es))
                + Seq::<u8>::empty());
            lemma_field_parts(bytes, pos, 3, enc_entries(es), Seq::empty());
            assert(bytes.subrange(pos + 9, bytes.len() as int) =~= bytes.subrange(
                pos + 9,
                pos + 9 + enc_entries(es).len() as int,
            ));
        },
        None => {
            assert(bytes.subrange(pos, bytes.len() as int).len() == 0);
        },
    }
}

proof fn lemma_opt_string_head(bytes: Seq<u8>, u: Option<Seq<char>>, rest: Seq<u8>)
    requires
        bytes.len() < 0x10000000000000000,
        bytes == head_enc(u) + rest,
    ensures
        u matches Some(s) ==> ({
            &&& bytes.len() >= 9
            &&& bytes[0] == 1
            &&& le8_val(bytes.subrange(1, 9)) == encode_utf8(s).len()
            &&& 9 + encode_utf8(s).len() <= bytes.len()
            &&& bytes.subrange(9, 9 + encode_utf8(s).len() as int) == encode_utf8(s)
            &&& bytes.subrange(9 + encode_utf8(s).len() as int, bytes.len() as int) == rest
        }),
        u is None ==> bytes == rest,
{
    match u {
        Some(s) => {
            assert(bytes.subrange(0, bytes.len() as int) =~= field_enc(1, encode_utf8(s)) + rest);
            lemma_field_parts(bytes, 0, 1, encode_utf8(s), rest);
        },
        None => {
            assert(bytes =~= rest);
        },
    }
}

/// A well-formed field with a tag other than the identity tag, or nothing:
/// what may follow an absent identity field without being mistaken for one.
spec fn head_guard(u: Option<Seq<char>>, rest: Seq<u8>) -> bool {
    ||| u is Some
    ||| rest.len() == 0
    ||| (rest[0] != 1 && 9 <= rest.len() && 9 + le8_val(rest.subrange(1, 9)) <= rest.len())
}

/// The bytes split as an optional identity field before `rest`, with `rest`
/// unmistakable for one.
spec fn head_splits(bytes: Seq<u8>, u: Option<Seq<char>>, rest: Seq<u8>) -> bool {
    bytes == head_enc(u) + rest && head_guard(u, rest)
}

/// The bytes from `pos` on are the encoding of inbound content `c`.
spec fn server_content_at(bytes: Seq<u8>, pos: int, c: Option<CommandView>) -> bool {
    bytes.subrange(pos, bytes.len() as int) == enc_server_content(c)
}

/// The bytes from `pos` on are the encoding of outbound content `c`.
spec fn client_content_at(bytes: Seq<u8>, pos: int, c: Option<ClientContentView>) -> bool {
    bytes.subrange(pos, bytes.len() as int) == enc_client_content(c)
}

proof fn lemma_field_guard(u: Option<Seq<char>>, tag: u8, payload: Seq<u8>)
    requires
        tag != 1,
        payload.len() < 0x10000000000000000,
    ensures
        head_guard(u, field_enc(tag, payload)),
{
    let rest = field_enc(tag, payload);
    assert(rest[0] == tag);
    assert(rest.subrange(1, 9) =~= le8(payload.len() as u64));
    lemma_le8_val_le8(payload.len() as u64);
}

fn parse_head(bytes: &[u8]) -> (r: Result<(Option<String>, usize), DecodeError>)
    ensures
        r matches Ok(p) ==> p.1 <= bytes@.len(),
        forall|u: Option<Seq<char>>, rest: Seq<u8>|
            #[trigger] head_splits(bytes@, u, rest) ==> (r matches Ok(p)
                && (p.0 is Some <==> u is Some)
                && (u matches Some(s) ==> (p.0 matches Some(t) && t@ == s))
                && p.1 == head_enc(u).len()),
{
    if bytes.len() == 0 {
        let r: Result<(Option<String>, usize), DecodeError> = Ok((None, 0));
        proof {
            assert forall|u: Option<Seq<char>>, rest: Seq<u8>|
                #[trigger] head_splits(bytes@, u, rest) implies (r matches Ok(p)
                && (p.0 is Some <==> u is Some)
                && (u matches Some(s) ==> (p.0 matches Some(t) && t@ == s))
                && p.1 == head_enc(u).len()) by {
                lemma_opt_string_head(bytes@, u, rest);
            }
        }
        return r;
    }
    let fr = read_field(bytes, 0);
    match fr {
        Ok((tag, pend)) => {
            if tag == 1 {
                let sr = decode_string(vstd::slice::slice_subrange(bytes, 9, pend));
                match sr {
                    Ok(s) => {
                        let r: Result<(Option<String>, usize), DecodeError> = Ok((Some(s), pend));
                        proof {
                            assert forall|u: Option<Seq<char>>, rest: Seq<u8>|
                                #[trigger] head_splits(bytes@, u, rest) implies (
                                r matches Ok(p)
                                && (p.0 is Some <==> u is Some)
                                && (u matches Some(us) ==> (p.0 matches Some(t) && t@ == us))
                                && p.1 == head_enc(u).len()) by {
                                lemma_opt_string_head(bytes@, u, rest);
                            }
                        }
                        return r;
                    },
                    Err(e) => {
                        proof {
                            assert forall|u: Option<Seq<char>>, rest: Seq<u8>|
                                #[trigger] head_splits(bytes@, u, rest) implies false by {
                                lemma_opt_string_head(bytes@, u, rest);
                            }
                        }
                        return Err(e);
                    },
                }
            } else {
                let r: Result<(Option<String>, usize), DecodeError> = Ok((None, 0));
                proof {
                    assert forall|u: Option<Seq<char>>, rest: Seq<u8>|
                        #[trigger] head_splits(bytes@, u, rest) implies (
                        r matches Ok(p)
                        && (p.0 is Some <==> u is Some)
                        && (u matches Some(us) ==> (p.0 matches Some(t) && t@ == us))
                        && p.1 == head_enc(u).len()) by {
                        lemma_opt_string_head(bytes@, u, rest);
                    }
                }
                return r;
            }
        },
        Err(e) => {
            proof {
                assert forall|u: Option<Seq<char>>, rest: Seq<u8>|
                    #[trigger] head_splits(bytes@, u, rest) implies false by {
                    lemma_opt_string_head(bytes@, u, rest);
                }
            }
            return Err(e);
        },
    }
}

fn parse_server_content(bytes: &[u8], pos: usize) -> (r: Result<Option<Command>, DecodeError>)
    requires
        pos <= bytes@.len(),
    ensures
        forall|c: Option<CommandView>|
            #[trigger] server_content_at(bytes@, pos as int, c) ==> (
            r matches Ok(oc) && (oc is Some <==> c is Some) && (c matches Some(cmd) ==> (
            oc matches Some(x) && x@ == cmd))),
{
    let ghost sfx = bytes@.subrange(pos as int, bytes@.len() as int);
    if pos == bytes.len() {
        let r: Result<Option<Command>, DecodeError> = Ok(None);
        proof {
            assert forall|c: Option<CommandView>| #[trigger] server_content_at(bytes@, pos as int, c) implies (
            r matches Ok(oc) && (oc is Some <==> c is Some) && (c matches Some(cmd) ==> (
            oc matches Some(x) && x@ == cmd))) by {
                lemma_server_content(bytes@, pos as int, c);
            }
        }
        return r;
    }
    let fr = read_field(bytes, pos);
    match fr {
        Ok((tag, pend)) => {
            if tag != 2 {
                proof {
                    assert forall|c: Option<CommandView>| #[trigger] server_content_at(bytes@, pos as int, c)
                        implies false by {
                        lemma_server_content(bytes@, pos as int, c);
                    }
                }
                return Err(DecodeError::UnexpectedTag);
            }
            if pend != bytes.len() {
                proof {
                    assert forall|c: Option<CommandView>| #[trigger] server_content_at(bytes@, pos as int, c)
                        implies false by {
                        lemma_server_content(bytes@, pos as int, c);
                    }
                }
                return Err(DecodeError::TrailingBytes);
            }
            let cr = decode_command(vstd::slice::slice_subrange(bytes, pos + 9, pend));
            let r = match cr {
                Ok(cmd) => Ok(Some(cmd)),
                Err(e) => Err(e),
            };
            proof {
                assert forall|c: Option<CommandView>| #[trigger] server_content_at(bytes@, pos as int, c) implies (
                r matches Ok(oc) && (oc is Some <==> c is Some) && (c matches Some(cmd) ==> (
                oc matches Some(x) && x@ == cmd))) by {
                    lemma_server_content(bytes@, pos as int, c);
                }
            }
            r
        },
        Err(e) => {
            proof {
                assert forall|c: Option<CommandView>| #[trigger] server_content_at(bytes@, pos as int, c)
                    implies false by {
                    lemma_server_content(bytes@, pos as int, c);
                }
            }
            Err(e)
        },
    }
}

#[verifier::rlimit(100)]
#[verifier::spinoff_prover]
fn parse_client_content(bytes: &[u8], pos: usize) -> (r: Result<Option<ClientContent>, DecodeError>)
    requires
        pos <= bytes@.len(),
    ensures
        forall|c: Option<ClientContentView>|
            #[trigger] client_content_at(bytes@, pos as int, c) ==> (
            r matches Ok(oc) && (oc is Some <==> c is Some) && (c matches Some(cc) ==> (
            oc matches Some(x) && x@ == cc))),
{
    let ghost sfx = bytes@.subrange(pos as int, bytes@.len() as int);
    if pos == bytes.len() {
        let r: Result<Option<ClientContent>, DecodeError> = Ok(None);
        proof {
            assert forall|c: Option<ClientContentView>| #[trigger] client_content_at(bytes@, pos as int, c) implies (
            r matches Ok(oc) && (oc is Some <==> c is Some) && (c matches Some(cc) ==> (
            oc matches Some(x) && x@ == cc))) by {
                lemma_client_content(bytes@, pos as int, c);
            }
        }
        return r;
    }
    let fr = read_field(bytes, pos);
    match fr {
        Ok((tag, pend)) => {
            if tag != 2 && tag != 3 {
                proof {
                    assert forall|c: Option<ClientContentView>| #[trigger] client_content_at(bytes@, pos as int, c)
                        implies false by {
                        lemma_client_content(bytes@, pos as int, c);
                    }
                }
                return Err(DecodeError::UnexpectedTag);
            }
            if pend != bytes.len() {
                proof {
                    assert forall|c: Option<ClientContentView>| #[trigger] client_content_at(bytes@, pos as int, c)
                        implies false by {
                        lemma_client_content(bytes@, pos as int, c);
                    }
                }
                return Err(DecodeError::TrailingBytes);
            }
            if tag == 2 {
                let cr = decode_command(vstd::slice::slice_subrange(bytes, pos + 9, pend));
                let r = match cr {
                    Ok(cmd) => Ok(Some(ClientContent::Command(cmd))),
                    Err(e) => Err(e),
                };
                proof {
                    assert forall|c: Option<ClientContentView>| #[trigger] client_content_at(bytes@, pos as int, c)
                        implies (r matches Ok(oc) && (oc is Some <==> c is Some) && (
                    c matches Some(cc) ==> (oc matches Some(x) && x@ == cc))) by {
                        lemma_client_content(bytes@, pos as int, c);
                    }
                }
                r
            } else {
                let payload = vstd::slice::slice_subrange(bytes, pos + 9, pend);
                let gr = decode_entries(payload, 0);
                let r = match gr {
                    Ok(ms) => Ok(
                        Some(ClientContent::StateUpdate(GroupStateUpdate { members: ms })),
                    ),
                    Err(e) => Err(e),
                };
                proof {
                    assert forall|c: Option<ClientContentView>| #[trigger] client_content_at(bytes@, pos as int, c)
                        implies (r matches Ok(oc) && (oc is Some <==> c is Some) && (
                    c matches Some(cc) ==> (oc matches Some(x) && x@ == cc))) by {
                        lemma_client_content(bytes@, pos as int, c);
                        match c {
                            Some(ClientContentView::StateUpdate(es)) => {
                                assert(payload@.subrange(0, payload@.len() as int) =~= payload@);
                                assert(payload@.subrange(0, payload@.len() as int)
                                    == enc_entries(es));
                                match r {
                                    Ok(Some(ClientContent::StateUpdate(g))) => {
                                        assert(g@ =~= es);
                                    },
                                    _ => {},
                                }
                            },
                            _ => {},
                        }
                    }
                }
                r
            }
        },
        Err(e) => {
            proof {
                assert forall|c: Option<ClientContentView>| #[trigger] client_content_at(bytes@, pos as int, c)
                    implies false by {
                    lemma_client_content(bytes@, pos as int, c);
                }
            }
            Err(e)
        },
    }
}

proof fn lemma_server_split(bytes: Seq<u8>, v: ServerMessageView)
    requires
        bytes.len() < 0x10000000000000000,
        bytes == enc_server(v),
    ensures
        head_guard(v.to_user, enc_server_content(v.content)),
        bytes.subrange(head_enc(v.to_user).len() as int, bytes.len() as int) == enc_server_content(
            v.content,
        ),
{
    match v.content {
        Some(cmd) => {
            lemma_field_guard(v.to_user, 2, enc_command(cmd));
        },
        None => {},
    }
    lemma_opt_string_head(bytes, v.to_user, enc_server_content(v.content));
    match v.to_user {
        Some(u) => {},
        None => {
            assert(bytes.subrange(0, bytes.len() as int) =~= bytes);
        },
    }
}

proof fn lemma_client_split(bytes: Seq<u8>, v: ClientMessageView)
    requires
        bytes.len() < 0x10000000000000000,
        bytes == enc_client(v),
    ensures
        head_guard(v.from_user, enc_client_content(v.content)),
        bytes.subrange(head_enc(v.from_user).len() as int, bytes.len() as int)
            == enc_client_content(v.content),
{
    match v.content {
        Some(ClientContentView::Command(cmd)) => {
            lemma_field_guard(v.from_user, 2, enc_command(cmd));
        },
        Some(ClientContentView::StateUpdate(es)) => {
            lemma_field_guard(v.from_user, 3, enc_entries(es));
        },
        None => {},
    }
    lemma_opt_string_head(bytes, v.from_user, enc_client_content(v.content));
    match v.from_user {
        Some(u) => {},
        None => {
            assert(bytes.subrange(0, bytes.len() as int) =~= bytes);
        },
    }
}

/// Decodes an inbound message. Complete: fed the encoding of any message, it
/// returns exactly that message.
#[verifier::rlimit(100)]
#[verifier::spinoff_prover]
pub fn decode_server_message(bytes: &[u8]) -> (r: Result<ServerMessage, DecodeError>)
    ensures
        forall|v: ServerMessageView| bytes@ == enc_server(v) ==> (r matches Ok(m) && m@ == v),
{
    let n = bytes.len();
    proof {
        assert(bytes@.len() == n);
    }
    let hr = parse_head(bytes);
    let (to_user, pos) = match hr {
        Ok(p) => p,
        Err(e) => {
            proof {
                assert forall|v: ServerMessageView| bytes@ == enc_server(v) implies false by {
                    lemma_server_split(bytes@, v);
                    assert(head_splits(bytes@, v.to_user, enc_server_content(v.content)));
                    assert(server_content_at(
                        bytes@,
                        head_enc(v.to_user).len() as int,
                        v.content,
                    ));
                }
            }
            return Err(e);
        },
    };
    let cr = parse_server_content(bytes, pos);
    let content = match cr {
        Ok(c) => c,
        Err(e) => {
            proof {
                assert forall|v: ServerMessageView| bytes@ == enc_server(v) implies false by {
                    lemma_server_split(bytes@, v);
                    assert(head_splits(bytes@, v.to_user, enc_server_content(v.content)));
                    assert(server_content_at(
                        bytes@,
                        head_enc(v.to_user).len() as int,
                        v.content,
                    ));
                }
            }
            return Err(e);
        },
    };
    let r = Ok(ServerMessage { to_user, content });
    proof {
        assert forall|v: ServerMessageView| bytes@ == enc_server(v) implies (r matches Ok(m) && m@
            == v) by {
            lemma_server_split(bytes@, v);
            assert(head_splits(bytes@, v.to_user, enc_server_content(v.content)));
            assert(server_content_at(bytes@, head_enc(v.to_user).len() as int, v.content));
        }
    }
    r
}

/// Decodes an outbound message. Complete: fed the encoding of any message,
/// it returns exactly that message.
#[verifier::rlimit(100)]
#[verifier::spinoff_prover]
pub fn decode_client_message(bytes: &[u8]) -> (r: Result<ClientMessage, DecodeError>)
    ensures
        forall|v: ClientMessageView| bytes@ == enc_client(v) ==> (r matches Ok(m) && m@ == v),
{
    let n = bytes.len();
    proof {
        assert(bytes@.len() == n);
    }
    let hr = parse_head(bytes);
    let (from_user, pos) = match hr {
        Ok(p) => p,
        Err(e) => {
            proof {
                assert forall|v: ClientMessageView| bytes@ == enc_client(v) implies false by {
                    lemma_client_split(bytes@, v);
                    assert(head_splits(bytes@, v.from_user, enc_client_content(v.content)));
                    assert(client_content_at(
                        bytes@,
                        head_enc(v.from_user).len() as int,
                        v.content,
                    ));
                }
            }
            return Err(e);
        },
    };
    let cr = parse_client_content(bytes, pos);
    let content = match cr {
        Ok(c) => c,
        Err(e) => {
            proof {
                assert forall|v: ClientMessageView| bytes@ == enc_client(v) implies false by {
                    lemma_client_split(bytes@, v);
                    assert(head_splits(bytes@, v.from_user, enc_client_content(v.content)));
                    assert(client_content_at(
                        bytes@,
                        head_enc(v.from_user).len() as int,
                        v.content,
                    ));
                }
            }
            return Err(e);
        },
    };
    let r = Ok(ClientMessage { from_user, content });
    proof {
        assert forall|v: ClientMessageView| bytes@ == enc_client(v) implies (r matches Ok(m) && m@
            == v) by {
            lemma_client_split(bytes@, v);
            assert(head_splits(bytes@, v.from_user, enc_client_content(v.content)));
            assert(client_content_at(bytes@, head_enc(v.from_user).len() as int, v.content));
        }
    }
    r
}

} // verus!
