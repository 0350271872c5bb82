use vstd::prelude::*;

use crate::text::{decimal, format_decimal};

verus! {

/// A saved project as the project list shows it.
#[derive(Debug)]
pub struct ProjectSummary {
    pub id: i64,
    pub name: String,
    pub created_at: String,
    pub updated_at: String,
}

impl Clone for ProjectSummary {
    fn clone(&self) -> (r: Self)
        ensures
            r == *self,
    {
        ProjectSummary {
            id: self.id,
            name: self.name.clone(),
            created_at: self.created_at.clone(),
            updated_at: self.updated_at.clone(),
        }
    }
}

#[verifier::external_type_specification]
#[verifier::external_body]
pub struct ExSystemTime(std::time::SystemTime);

/// `std::time::SystemTime::now`: the system clock's reading. Nothing is
/// claimed of it: it depends on the time.
#[verifier::external_body]
fn system_now() -> std::time::SystemTime {
    std::time::SystemTime::now()
}

/// `std::time::SystemTime::duration_since` with `UNIX_EPOCH`: how long after
/// the epoch `t` lies, `None` when it lies before. Nothing is claimed of the
/// duration: it depends on the clock's reading.
#[verifier::external_body]
fn since_unix_epoch(t: &std::time::SystemTime) -> Option<std::time::Duration> {
    t.duration_since(std::time::UNIX_EPOCH).ok()
}

/// `std::time::Duration::as_secs`: the whole seconds of `d`. Nothing is
/// claimed of the value: a `Duration` has no model here to state it over.
#[verifier::external_body]
fn whole_seconds(d: &std::time::Duration) -> u64 {
    d.as_secs()
}

/// Whether `s` writes some count of seconds in decimal.
pub open spec fn is_seconds_text(s: Seq<char>) -> bool {
    exists|n: u64| s == decimal(n as nat)
}

/// The text of a time stamp: `since_epoch`, the whole seconds since the
/// Unix epoch, in decimal; "0" when there is no such count (a clock that
/// reads before the epoch).
pub fn seconds_text(since_epoch: Option<u64>) -> (r: String)
    ensures
        r@ == decimal(
            match since_epoch {
                Some(s) => s as nat,
                None => 0,
            },
        ),
{
    let secs = match since_epoch {
        Some(s) => s,
        None => 0,
    };
    format_decimal(secs)
}

/// The current time as whole seconds since the Unix epoch, in decimal; "0"
/// when the clock reads before the epoch (see `seconds_text`, which makes
/// the text from the clock's reading).
pub fn chrono_now() -> (r: String)
    ensures
        is_seconds_text(r@),
{
    let now = system_now();
    let since_epoch = match since_unix_epoch(&now) {
        Some(d) => Some(whole_seconds(&d)),
        None => None,
    };
    let r = seconds_text(since_epoch);
    proof {
        let n: u64 = match since_epoch {
            Some(s) => s,
            None => 0,
        };
        assert(r@ == decimal(n as nat));
    }
    r
}

/// The time stamp that a saved project records.
pub fn current_timestamp() -> (r: String)
    ensures
        is_seconds_text(r@),
{
    chrono_now()
}

} // verus!
