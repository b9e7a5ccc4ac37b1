//! When the radix tree is evicted, and down to which size.

use crate::config::CacheConfig;
use vstd::prelude::*;

verus! {

pub const SECS_PER_DAY: u64 = 86400;

/// Minutes past the hour at which the daily cleanup is due.
pub const CLEANUP_MINUTE: u64 = 8;

/// The day of the last daily cleanup.
#[derive(Clone, Copy, Debug)]
pub struct EvictionSchedule {
    pub last_cleanup_day: Option<u64>,
}

/// What a pass of the eviction does.
#[derive(Clone, Copy, Debug)]
pub struct EvictionPass {
    /// How many characters each replica may keep, and how many nodes the tree.
    pub size: usize,
    /// Whether everything goes.
    pub full_cleanup: bool,
    /// Whether no pass follows.
    pub last: bool,
}

/// The minute of the day at a moment in seconds since the epoch.
pub open spec fn minute_of_day(now_secs: int) -> int {
    (now_secs % (SECS_PER_DAY as int)) / 60
}

/// The day of a moment in seconds since the epoch.
pub open spec fn day(now_secs: int) -> int {
    now_secs / (SECS_PER_DAY as int)
}

/// Whether the daily cleanup at `hour` is due: its minute has come, and there
/// was none on this day.
pub open spec fn cleanup_due(hour: i32, last_cleanup_day: Option<u64>, now_secs: u64) -> bool {
    &&& hour >= 0
    &&& minute_of_day(now_secs as int) >= hour * 60 + CLEANUP_MINUTE
    &&& last_cleanup_day != Some(day(now_secs as int) as u64)
}

/// Whether there is any eviction at all.
pub fn eviction_enabled(config: &CacheConfig) -> (r: bool)
    ensures
        r == (config.eviction_interval_secs > 0),
{
    config.eviction_interval_secs > 0
}

impl EvictionSchedule {
    /// A schedule without a cleanup so far.
    pub fn new() -> (r: Self)
        ensures
            r.last_cleanup_day is None,
    {
        EvictionSchedule { last_cleanup_day: None }
    }

    /// What to do at the moment `now_secs`. A router that shuts down gives up
    /// everything.
    pub fn tick(&mut self, config: &CacheConfig, shutting_down: bool, now_secs: u64) -> (r: EvictionPass)
        ensures
            r.last == shutting_down,
            r.full_cleanup == (shutting_down || cleanup_due(
                config.daily_cleanup_hour_utc,
                old(self).last_cleanup_day,
                now_secs,
            )),
            r.size == if r.full_cleanup {
                0
            } else {
                config.max_tree_size
            },
            final(self).last_cleanup_day == if !shutting_down && r.full_cleanup {
                Some(day(now_secs as int) as u64)
            } else {
                old(self).last_cleanup_day
            },
    {
        let mut full_cleanup = shutting_down;
        if !shutting_down && config.daily_cleanup_hour_utc >= 0 {
            let today: u64 = now_secs / SECS_PER_DAY;
            let minute: u64 = (now_secs % SECS_PER_DAY) / 60;
            let done_today = match self.last_cleanup_day {
                Some(d) => d == today,
                None => false,
            };
            if minute >= config.daily_cleanup_hour_utc as u64 * 60 + CLEANUP_MINUTE && !done_today {
                self.last_cleanup_day = Some(today);
                full_cleanup = true;
            }
        }
        let size = if full_cleanup {
            0
        } else {
            config.max_tree_size
        };
        EvictionPass { size, full_cleanup, last: shutting_down }
    }
}

/// The daily cleanup happens at most once a day: after the one of a day, none
/// is due for the rest of it.
pub proof fn lemma_once_a_day(hour: i32, now_secs: u64, later_secs: u64)
    requires
        day(now_secs as int) == day(later_secs as int),
    ensures
        !cleanup_due(hour, Some(day(now_secs as int) as u64), later_secs),
{
}

/// A cleanup that was due and did not happen stays due until the day ends.
pub proof fn lemma_stays_due(hour: i32, last_cleanup_day: Option<u64>, now_secs: u64, later_secs: u64)
    requires
        cleanup_due(hour, last_cleanup_day, now_secs),
        now_secs <= later_secs,
        day(now_secs as int) == day(later_secs as int),
    ensures
        cleanup_due(hour, last_cleanup_day, later_secs),
{
}

/// A negative hour means that there is no daily cleanup.
pub proof fn lemma_cleanup_disabled(hour: i32, last_cleanup_day: Option<u64>, now_secs: u64)
    requires
        hour < 0,
    ensures
        !cleanup_due(hour, last_cleanup_day, now_secs),
{
}

/// When the daily cleanup is due, in seconds: at the configured hour of the day
/// (UTC) and eight minutes, and from then on for the rest of the day, unless
/// there was one on this day.
pub proof fn lemma_due_from_the_hour_on(hour: i32, last_cleanup_day: Option<u64>, now_secs: u64)
    ensures
        cleanup_due(hour, last_cleanup_day, now_secs) <==> {
            &&& 0 <= hour
            &&& now_secs % 86400 >= hour * 3600 + 8 * 60
            &&& last_cleanup_day != Some((now_secs / 86400) as u64)
        },
{
    let second = now_secs as int % 86400;
    assert(second / 60 >= hour * 60 + 8 <==> second >= (hour * 60 + 8) * 60) by {
        let m = second / 60;
        assert(second == m * 60 + second % 60);
    }
}

/// What a pass does: everything goes when the router shuts down, or at the first
/// pass of a day at or after the configured hour and eight minutes; otherwise
/// the tree is held to its size. The day of a daily cleanup is remembered, so
/// that there is one a day.
pub proof fn lemma_passes(
    schedule: &mut EvictionSchedule,
    config: &CacheConfig,
    shutting_down: bool,
    now_secs: u64,
    r: EvictionPass,
)
    requires
        call_ensures(EvictionSchedule::tick, (schedule, config, shutting_down, now_secs), r),
    ensures
        r.last == shutting_down,
        shutting_down ==> r.full_cleanup && r.size == 0 && *final(schedule) == *old(schedule),
        !shutting_down && config.daily_cleanup_hour_utc >= 0 && now_secs % 86400 >= config.daily_cleanup_hour_utc * 3600
            + 480 && old(schedule).last_cleanup_day != Some((now_secs / 86400) as u64) ==> {
            &&& r.full_cleanup
            &&& r.size == 0
            &&& final(schedule).last_cleanup_day == Some((now_secs / 86400) as u64)
        },
        !shutting_down && !(config.daily_cleanup_hour_utc >= 0 && now_secs % 86400 >= config.daily_cleanup_hour_utc
            * 3600 + 480 && old(schedule).last_cleanup_day != Some((now_secs / 86400) as u64)) ==> {
            &&& !r.full_cleanup
            &&& r.size == config.max_tree_size
            &&& *final(schedule) == *old(schedule)
        },
{
    lemma_due_from_the_hour_on(config.daily_cleanup_hour_utc, old(schedule).last_cleanup_day, now_secs);
}

/// A schedule starts without a cleanup, so the first one is due on the first day
/// on which its hour comes.
pub proof fn lemma_new_schedule(
    schedule: EvictionSchedule,
    config: &CacheConfig,
    r: bool,
    hour: i32,
    now_secs: u64,
)
    requires
        call_ensures(EvictionSchedule::new, (), schedule),
        call_ensures(eviction_enabled, (config,), r),
    ensures
        r <==> config.eviction_interval_secs != 0,
        0 <= hour && now_secs % 86400 >= hour * 3600 + 480 ==> cleanup_due(hour, schedule.last_cleanup_day, now_secs),
{
    lemma_due_from_the_hour_on(hour, schedule.last_cleanup_day, now_secs);
}

} // verus!
