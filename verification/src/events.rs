//! The pure parts of the event handlers: the report messages for scheduled
//! guild events, and the voice-channel call-out rule. Fetching events and
//! sending the reports stay with the event layer.

use vstd::prelude::*;
use vstd::string::StringExecFns;

use crate::render::int_rep;
use crate::render::render_i64;

verus! {

/// The report for a newly created event, its start as a platform timestamp
/// tag.
pub fn event_created_message(name: &str, start_time: i64) -> (r: String)
    requires
        start_time > i64::MIN,
    ensures
        r@ == "Event **"@ + name@ + "** created, scheduled for <t:"@ + int_rep(start_time as int)
            + ">."@,
{
    let mut r = "Event **".to_owned();
    r.append(name);
    r.append("** created, scheduled for <t:");
    let ts = render_i64(start_time);
    r.append(ts.as_str());
    r.append(">.");
    r
}

/// The report for a cancelled event.
pub fn event_cancelled_message(name: &str, start_time: i64) -> (r: String)
    requires
        start_time > i64::MIN,
    ensures
        r@ == "Event **"@ + name@ + "** was **cancelled** (previously scheduled for <t:"@
            + int_rep(start_time as int) + ">)."@,
{
    let mut r = "Event **".to_owned();
    r.append(name);
    r.append("** was **cancelled** (previously scheduled for <t:");
    let ts = render_i64(start_time);
    r.append(ts.as_str());
    r.append(">).");
    r
}

/// The report for a rescheduled event.
pub fn event_updated_message(name: &str, start_time: i64) -> (r: String)
    requires
        start_time > i64::MIN,
    ensures
        r@ == "Event **"@ + name@ + "** updated (scheduled for <t:"@ + int_rep(start_time as int)
            + ">)."@,
{
    let mut r = "Event **".to_owned();
    r.append(name);
    r.append("** updated (scheduled for <t:");
    let ts = render_i64(start_time);
    r.append(ts.as_str());
    r.append(">).");
    r
}

/// The report for an event that has begun, pinging the subscribed role.
pub fn event_started_message(name: &str, role_tag: &str) -> (r: String)
    ensures
        r@ == "Event **"@ + name@ + "** has started! "@ + role_tag@,
{
    let mut r = "Event **".to_owned();
    r.append(name);
    r.append("** has started! ");
    r.append(role_tag);
    r
}

/// Whether a voice channel's crowd calls for company: four or more members,
/// none of them the bot's keeper.
pub fn should_call_out(member_count: usize, keeper_present: bool) -> (r: bool)
    ensures
        r == (member_count >= 4 && !keeper_present),
{
    member_count >= 4 && !keeper_present
}

} // verus!
