//! Outbound notification events. Delivery is best-effort and asynchronous;
//! the library only decides which event to emit and what it says.

use crate::codec::{enc_str, enc_u64, encode_json_str, encode_u64};
use crate::comms::User;
use vstd::prelude::*;

verus! {

/// One notification about a job's lifecycle.
#[derive(Clone, Debug, PartialEq)]
pub enum Ping {
    JobCancelled { id: u16, reason: String },
    JobFinished { id: u16 },
    JobStarted { id: u16 },
}

impl Ping {
    /// The route of this event kind at the notification service.
    pub open spec fn spec_route(self) -> Seq<char> {
        match self {
            Ping::JobCancelled { .. } => "97f166a0-d9f9-4888-b8ad-b09656f19330"@,
            Ping::JobStarted { .. } => "f810410a-0dcd-4271-8b75-b6e6ce5ead7e"@,
            Ping::JobFinished { .. } => "aab2a0c6-001c-455a-956f-10c8b685fb87"@,
        }
    }

    /// The delivery route to post this event to.
    pub fn get_route_uuid(&self) -> (r: &str)
        ensures
            r@ == self.spec_route(),
    {
        match self {
            Ping::JobCancelled { .. } => "97f166a0-d9f9-4888-b8ad-b09656f19330",
            Ping::JobStarted { .. } => "f810410a-0dcd-4271-8b75-b6e6ce5ead7e",
            Ping::JobFinished { .. } => "aab2a0c6-001c-455a-956f-10c8b685fb87",
        }
    }

    /// The human-readable line describing this event.
    pub open spec fn spec_message(self) -> Seq<char> {
        match self {
            Ping::JobCancelled { id, reason } => "Job "@ + enc_u64(id as u64) + " cancelled: "@
                + reason@,
            Ping::JobStarted { id } => "Job "@ + enc_u64(id as u64) + " started"@,
            Ping::JobFinished { id } => "Job "@ + enc_u64(id as u64) + " finished"@,
        }
    }

    /// The text of this event, as carried in the notification body.
    pub fn message(&self) -> (m: String)
        ensures
            m@ == self.spec_message(),
    {
        let mut out = String::new();
        out.append("Job ");
        match self {
            Ping::JobCancelled { id, reason } => {
                encode_u64(*id as u64, &mut out);
                out.append(" cancelled: ");
                out.append(reason.as_str());
                proof {
                    assert(out@ =~= self.spec_message());
                }
            },
            Ping::JobStarted { id } => {
                encode_u64(*id as u64, &mut out);
                out.append(" started");
                proof {
                    assert(out@ =~= self.spec_message());
                }
            },
            Ping::JobFinished { id } => {
                encode_u64(*id as u64, &mut out);
                out.append(" finished");
                proof {
                    assert(out@ =~= self.spec_message());
                }
            },
        }
        out
    }
}

/// The JSON document posted to the notification service for one event.
pub open spec fn spec_ping_body(user_name: Seq<char>, msg: Seq<char>) -> Seq<char> {
    "{\"username\":"@ + enc_str(user_name) + ",\"body\":"@ + enc_str(msg) + "}"@
}

/// Build the notification body for `ping` sent on behalf of `user`, the
/// user's name and the event text as escaped JSON strings.
pub fn ping_body(user: &User, ping: &Ping) -> (b: String)
    ensures
        b@ == spec_ping_body(user.name@, ping.spec_message()),
{
    let msg = ping.message();
    let mut out = String::new();
    out.append("{\"username\":");
    encode_json_str(user.name.as_str(), &mut out);
    out.append(",\"body\":");
    encode_json_str(msg.as_str(), &mut out);
    out.append("}");
    proof {
        assert(out@ =~= spec_ping_body(user.name@, ping.spec_message()));
    }
    out
}

} // verus!
