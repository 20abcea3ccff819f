//! Message counts over fixed windows around the current day.
//!
//! The day boundary is midnight of the zone given by a fixed offset from
//! the epoch clock: the start of the current epoch day, shifted back by the
//! offset.

use crate::store::{MessageStore, MsgView};
use vstd::prelude::*;

verus! {

/// How many messages fell in each reporting window.
#[derive(Debug, Clone, PartialEq, Eq)]
pub struct DbStat {
    pub today: usize,
    pub yesterday: usize,
    pub before_yesterday: usize,
    pub week: usize,
    pub month: usize,
    pub earlier: usize,
}

/// Seconds in a day.
pub open spec fn day_secs() -> int {
    86400
}

/// The day boundary: midnight of the current epoch day, shifted back by the
/// zone offset.
pub open spec fn day_base(now: int, offset: int) -> int {
    now - (now % 86400) - offset
}

/// How many stored messages have their timestamp in the closed window.
pub open spec fn count_between(ms: Seq<MsgView>, lo: int, hi: int) -> int {
    ms.filter(|m: MsgView| lo <= m.timestamp <= hi).len() as int
}

/// Count the stored messages per reporting window: from the day boundary on
/// (today), the one and two whole days before it, the week and the month up
/// to it, and everything at least thirty days old.
pub fn stat(store: &MessageStore, offset: i32, now: i64) -> (r: DbStat)
    requires
        0 <= now,
        now + 2147483648 <= i64::MAX,
    ensures
        ({
            let base = day_base(now as int, offset as int);
            &&& r.today == count_between(store.msgs(), base, i64::MAX as int)
            &&& r.yesterday == count_between(store.msgs(), base - day_secs(), base)
            &&& r.before_yesterday == count_between(
                store.msgs(),
                base - 2 * day_secs(),
                base - day_secs(),
            )
            &&& r.week == count_between(store.msgs(), base - 7 * day_secs(), base)
            &&& r.month == count_between(store.msgs(), base - 30 * day_secs(), base)
            &&& r.earlier == count_between(store.msgs(), i64::MIN as int, base - 30 * day_secs())
        }),
{
    let base: i64 = now - now % 86400 - (offset as i64);
    assert(base == day_base(now as int, offset as int));
    let today = store.count_window(base, i64::MAX);
    let yesterday = store.count_window(base - 86400, base);
    let before_yesterday = store.count_window(base - 2 * 86400, base - 86400);
    let week = store.count_window(base - 7 * 86400, base);
    let month = store.count_window(base - 30 * 86400, base);
    let earlier = store.count_window(i64::MIN, base - 30 * 86400);
    DbStat { today, yesterday, before_yesterday, week, month, earlier }
}

} // verus!
