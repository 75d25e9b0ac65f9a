//! Client-session decision logic.
//!
//! A session bridges one connection to its room's relay. The multiplexing
//! loop itself is transport-bound, but what the session decides about each
//! inbound frame — reject it, drop it, or turn it into a relay command — is
//! pure logic and lives here.

use vstd::prelude::*;

use crate::envelope::ServerMessage;
use crate::room::RoomCommand;
use crate::user::User;

verus! {

/// Decides what a decoded inbound frame from `user` becomes. A frame with no
/// target, a frame addressed to the sender themselves, or a frame with no
/// payload is dropped (`None`, non-fatal); any other frame becomes the relay
/// command that routes its payload, stamped with the sender's id.
pub fn route_request(user: &User, msg: ServerMessage) -> (r: Option<RoomCommand>)
    ensures
        msg@.to_user is None ==> r is None,
        msg@.to_user == Some(user.id@) ==> r is None,
        msg@.content is None ==> r is None,
        msg@.to_user matches Some(t) ==> (t != user.id@ ==> (msg@.content matches Some(c) ==> (
            r matches Some(k)
            && (k matches RoomCommand::UserCommand { from_user_id, to_user_id, cmd }
                && from_user_id@ == user.id@
                && to_user_id@ == t
                && cmd@ == c)
        ))),
{
    match msg.to_user {
        None => None,
        Some(to_user) => {
            if to_user == user.id {
                None
            } else {
                match msg.content {
                    None => None,
                    Some(cmd) => Some(
                        RoomCommand::UserCommand {
                            from_user_id: user.id.clone(),
                            to_user_id: to_user,
                            cmd,
                        },
                    ),
                }
            }
        },
    }
}

} // verus!
