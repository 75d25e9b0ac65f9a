//! The per-room relay core: the membership roster and the command loop's
//! decision logic.
//!
//! All membership mutation and message routing for one room is serialized
//! through [`Roster::apply_command`]: one call per command taken off the
//! room's queue. The roster owns the authoritative membership map — user id
//! to display name and outbound channel — and its view is a mathematical
//! `Map` that every contract speaks of.

use vstd::prelude::*;

use crate::envelope::{
    snapshot_map, ClientContentView, ClientMessage, Command, GroupStateUpdate, MemberEntry,
    MemberState,
};
use crate::user::User;

verus! {

#[verifier::external_type_specification]
#[verifier::external_body]
#[verifier::reject_recursive_types(T)]
pub struct ExSender<T>(tokio::sync::mpsc::Sender<T>);

/// Relies on `tokio::sync::mpsc::Sender::try_send`: hands the message to the
/// channel unless the channel is full or closed, and never blocks or panics.
/// Whether the channel accepts depends on its current state, so nothing is
/// promised of the result; delivery is best-effort by design.
#[verifier::external_body]
fn try_deliver(sender: &tokio::sync::mpsc::Sender<ClientMessage>, message: &ClientMessage) -> bool {
    sender.try_send(message.clone()).is_ok()
}

/// A user's live participation record within a room.
pub struct Member {
    pub user_id: String,
    pub name: String,
    /// Capability for pushing a message to this member's session.
    pub sender: tokio::sync::mpsc::Sender<ClientMessage>,
}

/// What the membership map records of one member: the mathematical
/// counterpart of [`Member`] minus the id it is keyed by.
pub struct MemberInfo {
    pub name: Seq<char>,
    pub sender: tokio::sync::mpsc::Sender<ClientMessage>,
}

pub open spec fn info_of(m: Member) -> MemberInfo {
    MemberInfo { name: m.name@, sender: m.sender }
}

/// The membership entries read as a map, later entries winning on a repeated
/// id.
pub open spec fn map_of(s: Seq<Member>) -> Map<Seq<char>, MemberInfo>
    decreases s.len(),
{
    if s.len() == 0 {
        Map::empty()
    } else {
        map_of(s.drop_last()).insert(s.last().user_id@, info_of(s.last()))
    }
}

/// The membership entries in order, each as `(user_id, display_name)`: what a
/// snapshot carries.
pub open spec fn pairs_of(s: Seq<Member>) -> Seq<(Seq<char>, Seq<char>)> {
    s.map_values(|m: Member| (m.user_id@, m.name@))
}

spec fn unique_ids(s: Seq<Member>) -> bool {
    forall|a: int, b: int|
        0 <= a < b < s.len() ==> s[a].user_id@ != s[b].user_id@
}

/// The authoritative membership map of one room. Mutated only through the
/// command interface, which the room's single control loop serializes.
pub struct Roster {
    members: Vec<Member>,
}

impl View for Roster {
    type V = Map<Seq<char>, MemberInfo>;

    closed spec fn view(&self) -> Map<Seq<char>, MemberInfo> {
        map_of(self.members@)
    }
}

impl Roster {
    /// Each user id keys at most one entry.
    pub closed spec fn wf(self) -> bool {
        unique_ids(self.members@)
    }

    /// What [`Roster::snapshot`] returns, as a sequence of pairs.
    pub closed spec fn spec_snapshot(self) -> Seq<(Seq<char>, Seq<char>)> {
        pairs_of(self.members@)
    }

    /// A freshly created room has no members.
    pub fn new() -> (r: Roster)
        ensures
            r.wf(),
            r@ == Map::<Seq<char>, MemberInfo>::empty(),
    {
        Roster { members: Vec::new() }
    }

    fn find_index(&self, user_id: &String) -> (r: Option<usize>)
        ensures
            r matches Some(i) ==> i < self.members@.len() && self.members@[i as int].user_id@
                == user_id@,
            r is None ==> forall|j: int|
                0 <= j < self.members@.len() ==> self.members@[j].user_id@ != user_id@,
    {
        let mut i: usize = 0;
        while i < self.members.len()
            invariant
                i <= self.members@.len(),
                forall|j: int| 0 <= j < i ==> self.members@[j].user_id@ != user_id@,
            decreases self.members@.len() - i,
        {
            if self.members[i].user_id == *user_id {
                return Some(i);
            }
            i += 1;
        }
        None
    }

    /// Whether `user_id` is currently a member.
    pub fn contains(&self, user_id: &String) -> (r: bool)
        ensures
            r == self@.contains_key(user_id@),
    {
        proof {
            lemma_map_of_contains(self.members@, user_id@);
        }
        self.find_index(user_id).is_some()
    }

    /// Removes `user_id`'s entry if present; a no-op when absent. Supports
    /// at-most-once semantics even when issued twice on a session's way out.
    pub fn leave(&mut self, user_id: &String) -> (removed: bool)
        requires
            old(self).wf(),
        ensures
            final(self).wf(),
            removed == old(self)@.contains_key(user_id@),
            final(self)@ == old(self)@.remove(user_id@),
            !old(self)@.contains_key(user_id@) ==> final(self)@ == old(self)@,
    {
        proof {
            lemma_map_of_contains(self.members@, user_id@);
        }
        match self.find_index(user_id) {
            Some(i) => {
                proof {
                    lemma_map_of_remove(self.members@, i as int);
                    lemma_unique_remove(self.members@, i as int);
                }
                self.members.remove(i);
                true
            },
            None => {
                proof {
                    assert(old(self)@.remove(user_id@) =~= old(self)@);
                }
                false
            },
        }
    }

    /// Admits `user` with `sender` as their outbound channel. Idempotent by
    /// id: a previous entry under the same id is silently replaced,
    /// last-writer-wins.
    pub fn join(&mut self, user: User, sender: tokio::sync::mpsc::Sender<ClientMessage>)
        requires
            old(self).wf(),
        ensures
            final(self).wf(),
            final(self)@ == old(self)@.insert(
                user.id@,
                (MemberInfo { name: user.name@, sender: sender }),
            ),
    {
        let ghost m0 = self@;
        let _removed = self.leave(&user.id);
        let ghost s1 = self.members@;
        proof {
            lemma_map_of_contains(s1, user.id@);
        }
        self.members.push(Member { user_id: user.id, name: user.name, sender });
        proof {
            let s2 = self.members@;
            assert(s2.drop_last() =~= s1);
            assert(self@ == map_of(s1).insert(s2.last().user_id@, info_of(s2.last())));
            assert(self@ =~= m0.insert(user.id@, (MemberInfo { name: user.name@, sender: sender })));
            assert forall|a: int, b: int| 0 <= a < b < s2.len() implies s2[a].user_id@
                != s2[b].user_id@ by {
                if b == s2.len() - 1 {
                    assert(s2[a] == s1[a]);
                }
            }
        }
    }

    /// Builds the full membership snapshot that is fanned out to every member
    /// on a membership change.
    pub fn snapshot(&self) -> (s: GroupStateUpdate)
        ensures
            s@ == self.spec_snapshot(),
    {
        let mut entries: Vec<MemberEntry> = Vec::new();
        let mut i: usize = 0;
        while i < self.members.len()
            invariant
                i <= self.members@.len(),
                entries@.len() == i,
                forall|j: int|
                    0 <= j < i ==> entries@[j].user_id@ == self.members@[j].user_id@
                        && entries@[j].state.name@ == self.members@[j].name@,
            decreases self.members@.len() - i,
        {
            let user_id = self.members[i].user_id.clone();
            let name = self.members[i].name.clone();
            entries.push(MemberEntry { user_id, state: MemberState { name } });
            i += 1;
        }
        let s = GroupStateUpdate { members: entries };
        proof {
            assert(s@ =~= self.spec_snapshot());
        }
        s
    }
}

/// A command taken off a room's queue: the only way membership is mutated or
/// a message routed.
pub enum RoomCommand {
    /// Admit a user, with the outbound channel of their session.
    JoinRoom(User, tokio::sync::mpsc::Sender<ClientMessage>),
    /// Drop a user's entry; issued exactly once per session, on every exit
    /// path.
    LeaveRoom { user_id: String },
    /// Relay a payload from one member to another.
    UserCommand { from_user_id: String, to_user_id: String, cmd: Command },
}

/// What became of the routing part of a command.
pub enum RouteStatus {
    /// The command was a membership mutation, not a routed message.
    NotRouted,
    /// The addressed target is not a current member: the message is dropped.
    TargetAbsent,
    /// Exactly this message was handed to exactly this member's channel, and
    /// to no other. `accepted` is false when the channel was full or closed,
    /// in which case the message is dropped rather than queued.
    Delivered { to_user: String, message: ClientMessage, accepted: bool },
}

/// What one command did: the snapshot to fan out to every member, if
/// membership changed, and the fate of the routed message, if any.
pub struct CommandOutcome {
    pub notify: Option<GroupStateUpdate>,
    pub route: RouteStatus,
}

impl Roster {
    /// One step of the room's control loop. Serializes all membership
    /// mutation and routing: joins replace last-writer-wins and notify
    /// everyone with a full snapshot; leaves of a present member notify
    /// likewise, while leaves of an absent member are a complete no-op;
    /// routed messages never change membership and reach exactly the
    /// addressed member, best-effort.
    pub fn apply_command(&mut self, cmd: RoomCommand) -> (out: CommandOutcome)
        requires
            old(self).wf(),
        ensures
            final(self).wf(),
            cmd matches RoomCommand::JoinRoom(u, s) ==> (
                final(self)@ == old(self)@.insert(u.id@, (MemberInfo { name: u.name@, sender: s }))
                && out.route is NotRouted
                && (out.notify matches Some(n) && n@ == final(self).spec_snapshot())
            ),
            cmd matches RoomCommand::LeaveRoom { user_id } ==> (
                final(self)@ == old(self)@.remove(user_id@)
                && out.route is NotRouted
                && (old(self)@.contains_key(user_id@)
                    ==> (out.notify matches Some(n) && n@ == final(self).spec_snapshot()))
                && (!old(self)@.contains_key(user_id@)
                    ==> out.notify is None && final(self)@ == old(self)@)
            ),
            cmd matches RoomCommand::UserCommand { from_user_id, to_user_id, cmd: payload } ==> (
                final(self)@ == old(self)@
                && final(self).spec_snapshot() == old(self).spec_snapshot()
                && out.notify is None
                && (old(self)@.contains_key(to_user_id@)
                    ==> (out.route matches RouteStatus::Delivered { to_user, message, accepted }
                        && to_user@ == to_user_id@
                        && message@.from_user == Some(from_user_id@)
                        && message@.content == Some(ClientContentView::Command(payload@))))
                && (!old(self)@.contains_key(to_user_id@) ==> out.route is TargetAbsent)
            ),
    {
        match cmd {
            RoomCommand::JoinRoom(user, sender) => {
                self.join(user, sender);
                let snap = self.snapshot();
                CommandOutcome { notify: Some(snap), route: RouteStatus::NotRouted }
            },
            RoomCommand::LeaveRoom { user_id } => {
                let removed = self.leave(&user_id);
                if removed {
                    let snap = self.snapshot();
                    CommandOutcome { notify: Some(snap), route: RouteStatus::NotRouted }
                } else {
                    CommandOutcome { notify: None, route: RouteStatus::NotRouted }
                }
            },
            RoomCommand::UserCommand { from_user_id, to_user_id, cmd } => {
                proof {
                    lemma_map_of_contains(self.members@, to_user_id@);
                }
                match self.find_index(&to_user_id) {
                    Some(i) => {
                        let message = ClientMessage::routed(from_user_id, cmd);
                        let accepted = try_deliver(&self.members[i].sender, &message);
                        CommandOutcome {
                            notify: None,
                            route: RouteStatus::Delivered { to_user: to_user_id, message, accepted },
                        }
                    },
                    None => {
                        CommandOutcome { notify: None, route: RouteStatus::TargetAbsent }
                    },
                }
            },
        }
    }
}

proof fn lemma_map_of_contains(s: Seq<Member>, k: Seq<char>)
    ensures
        map_of(s).contains_key(k) <==> exists|j: int| 0 <= j < s.len() && s[j].user_id@ == k,
    decreases s.len(),
{
    if s.len() > 0 {
        lemma_map_of_contains(s.drop_last(), k);
        if s.last().user_id@ == k {
            assert(s[s.len() - 1].user_id@ == k);
        } else {
            if exists|j: int| 0 <= j < s.len() && s[j].user_id@ == k {
                let j = choose|j: int| 0 <= j < s.len() && s[j].user_id@ == k;
                assert(s.drop_last()[j].user_id@ == k);
            }
            if exists|j: int| 0 <= j < s.len() - 1 && s.drop_last()[j].user_id@ == k {
                let j = choose|j: int| 0 <= j < s.len() - 1 && s.drop_last()[j].user_id@ == k;
                assert(s[j].user_id@ == k);
            }
        }
    }
}

proof fn lemma_unique_remove(s: Seq<Member>, i: int)
    requires
        unique_ids(s),
        0 <= i < s.len(),
    ensures
        unique_ids(s.remove(i)),
{
    let t = s.remove(i);
    assert forall|a: int, b: int| 0 <= a < b < t.len() implies t[a].user_id@ != t[b].user_id@ by {
        let a0: int = if a < i { a } else { a + 1 };
        let b0: int = if b < i { b } else { b + 1 };
        assert(t[a] == s[a0]);
        assert(t[b] == s[b0]);
    }
}

proof fn lemma_map_of_remove(s: Seq<Member>, i: int)
    requires
        unique_ids(s),
        0 <= i < s.len(),
    ensures
        map_of(s.remove(i)) == map_of(s).remove(s[i].user_id@),
    decreases s.len(),
{
    let k = s[i].user_id@;
    if i == s.len() - 1 {
        assert(s.remove(i) =~= s.drop_last());
        lemma_map_of_contains(s.drop_last(), k);
        assert forall|j: int| 0 <= j < s.len() - 1 implies s.drop_last()[j].user_id@ != k by {
            assert(s.drop_last()[j] == s[j]);
        }
        assert(!map_of(s.drop_last()).contains_key(k));
        assert(map_of(s).remove(k) =~= map_of(s.drop_last()));
    } else {
        let t = s.remove(i);
        let dl = s.drop_last();
        assert(t.last() == s.last());
        assert(t.drop_last() =~= dl.remove(i));
        assert forall|a: int, b: int| 0 <= a < b < dl.len() implies dl[a].user_id@
            != dl[b].user_id@ by {
            assert(dl[a] == s[a]);
            assert(dl[b] == s[b]);
        }
        lemma_map_of_remove(dl, i);
        assert(s.last().user_id@ != k);
        assert(map_of(dl).insert(s.last().user_id@, info_of(s.last())).remove(k) =~= map_of(
            dl,
        ).remove(k).insert(s.last().user_id@, info_of(s.last())));
        assert(map_of(t) == map_of(dl).remove(k).insert(s.last().user_id@, info_of(s.last())));
    }
}

/// One membership mutation, as the model sees it.
pub enum MembershipOp {
    /// A join, recording what the membership map will hold for the user.
    Join { user_id: Seq<char>, member: MemberInfo },
    /// A leave.
    Leave { user_id: Seq<char> },
}

/// What one mutation does to a membership map: exactly what
/// [`Roster::apply_command`]'s contract says of joins and leaves.
pub open spec fn apply_op(
    m: Map<Seq<char>, MemberInfo>,
    op: MembershipOp,
) -> Map<Seq<char>, MemberInfo> {
    match op {
        MembershipOp::Join { user_id, member } => m.insert(user_id, member),
        MembershipOp::Leave { user_id } => m.remove(user_id),
    }
}

/// A whole sequence of mutations applied in order.
pub open spec fn apply_ops(
    m: Map<Seq<char>, MemberInfo>,
    ops: Seq<MembershipOp>,
) -> Map<Seq<char>, MemberInfo>
    decreases ops.len(),
{
    if ops.len() == 0 {
        m
    } else {
        apply_op(apply_ops(m, ops.drop_last()), ops.last())
    }
}

/// The per-user outcome of a sequence of mutations: the record of the last
/// join not followed by a leave of the same user, if any.
pub open spec fn net_member(ops: Seq<MembershipOp>, u: Seq<char>) -> Option<MemberInfo>
    decreases ops.len(),
{
    if ops.len() == 0 {
        None
    } else {
        match ops.last() {
            MembershipOp::Join { user_id, member } => if user_id == u {
                Some(member)
            } else {
                net_member(ops.drop_last(), u)
            },
            MembershipOp::Leave { user_id } => if user_id == u {
                None
            } else {
                net_member(ops.drop_last(), u)
            },
        }
    }
}

/// Law: for any sequence of joins and leaves applied to an empty room, the
/// membership map afterwards holds exactly the users whose joins outlast
/// their leaves — those whose last mutation is a join — and maps each to the
/// record of that last join, so the last join's display name wins on a
/// repeated id.
pub proof fn lemma_membership_net(ops: Seq<MembershipOp>)
    ensures
        forall|u: Seq<char>|
            apply_ops(Map::empty(), ops).contains_key(u) <==> net_member(ops, u) is Some,
        forall|u: Seq<char>|
            #[trigger] net_member(ops, u) matches Some(member) ==> apply_ops(Map::empty(), ops)[u]
                == member,
    decreases ops.len(),
{
    if ops.len() > 0 {
        lemma_membership_net(ops.drop_last());
        let prev = apply_ops(Map::empty(), ops.drop_last());
        let cur = apply_ops(Map::empty(), ops);
        assert forall|u: Seq<char>| cur.contains_key(u) <==> #[trigger] net_member(ops, u)
            is Some by {
            assert(net_member(ops.drop_last(), u) is Some <==> prev.contains_key(u));
        }
        assert forall|u: Seq<char>|
            (#[trigger] net_member(ops, u) matches Some(member) ==> cur[u] == member) by {
            assert(net_member(ops.drop_last(), u) is Some ==> prev.contains_key(u));
        }
    }
}

/// The membership map with each member reduced to their display name.
pub open spec fn names_of(m: Map<Seq<char>, MemberInfo>) -> Map<Seq<char>, Seq<char>> {
    Map::new(|k: Seq<char>| m.contains_key(k), |k: Seq<char>| m[k].name)
}

/// Law: a snapshot reads back as exactly the membership map it was built
/// from — the same user ids, each mapped to that member's display name. This
/// is what makes the full-snapshot notification after any membership change
/// complete.
pub proof fn lemma_snapshot_matches(r: Roster)
    ensures
        snapshot_map(r.spec_snapshot()) == names_of(r@),
{
    lemma_snapshot_seq(r.members@);
}

proof fn lemma_snapshot_seq(s: Seq<Member>)
    ensures
        snapshot_map(pairs_of(s)) == names_of(map_of(s)),
    decreases s.len(),
{
    let ps = pairs_of(s);
    if s.len() == 0 {
        assert(snapshot_map(ps) =~= names_of(map_of(s)));
    } else {
        lemma_snapshot_seq(s.drop_last());
        assert(ps.drop_last() =~= pairs_of(s.drop_last()));
        assert(ps.last() == (s.last().user_id@, s.last().name@));
        assert(snapshot_map(ps) == snapshot_map(pairs_of(s.drop_last())).insert(
            s.last().user_id@,
            s.last().name@,
        ));
        assert(names_of(map_of(s)) =~= names_of(map_of(s.drop_last())).insert(
            s.last().user_id@,
            s.last().name@,
        ));
    }
}

} // verus!
