use vstd::prelude::*;

verus! {

/// A stored reminder record: an interval in whole hours, the creation time
/// in seconds since the Unix epoch, and whether the alert is still active.
pub struct Alert {
    pub time: u8,
    pub created_at: i64,
    pub enabled: bool,
}

impl Alert {
    /// Relies on `chrono::Utc::now` and `chrono::DateTime::timestamp` for the
    /// current Unix time in seconds. Nothing is promised of the clock's value.
    #[verifier::external_body]
    fn current_unix_time() -> i64 {
        chrono::Utc::now().timestamp()
    }

    /// A fresh alert: the given interval, stamped with the current time,
    /// and enabled.
    pub fn new(time: u8) -> (r: Alert)
        ensures
            r.time == time,
            r.enabled,
    {
        Alert { time, created_at: Self::current_unix_time(), enabled: true }
    }
}

} // verus!
