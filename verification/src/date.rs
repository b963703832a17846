//! Dates, half-open ranges of dates, and their grouping by month and week.

use vstd::prelude::*;
use crate::gregorian::civil_day;
use crate::gregorian::day_from_civil;
use crate::gregorian::day_of_month;
use crate::gregorian::day_of_month_of_day;
use crate::gregorian::is_calendar_date;
use crate::gregorian::is_leap_year;
use crate::gregorian::lemma_civil_day_bounds;
use crate::gregorian::lemma_days_before_month;
use crate::gregorian::lemma_year_length;
use crate::gregorian::iso_week;
use crate::gregorian::iso_week_of_day;
use crate::gregorian::month_number;
use crate::gregorian::month_of_day;
use crate::gregorian::weekday_number;
use crate::gregorian::weekday_of_day;
use crate::gregorian::MAX_DAY;
use crate::gregorian::MAX_YEAR;
use crate::gregorian::MIN_DAY;
use crate::gregorian::MIN_YEAR;
use crate::sequence::fused;
use crate::sequence::lemma_run_is;
use crate::sequence::remaining;
use crate::sequence::Sequence;

verus! {

/// A day of the calendar. Dates are ordered as their day numbers are; the
/// view of a date is its day number.
#[derive(Copy, Clone, Debug, PartialEq, Eq, Structural, PartialOrd, Ord, Hash)]
pub struct Date {
    days: i32,
}

impl View for Date {
    type V = int;

    closed spec fn view(&self) -> int {
        self.days as int
    }
}

impl Date {
    /// Every date is a day of the calendar.
    #[verifier::type_invariant]
    pub open spec fn in_calendar(self) -> bool {
        MIN_DAY <= self@ <= MAX_DAY
    }

    /// The date with the given day number.
    pub closed spec fn at(day: int) -> Date {
        Date { days: day as i32 }
    }

    /// `at` gives the date of a day of the calendar.
    pub proof fn lemma_view_at(day: int)
        requires
            MIN_DAY <= day <= MAX_DAY,
        ensures
            Date::at(day)@ == day,
    {
    }

    /// A date is the date of its day number.
    pub proof fn lemma_at_view(self)
        ensures
            Date::at(self@) == self,
    {
    }

    /// The date that year, month and day name, where they name one.
    pub fn from_ymd(year: i32, month: u32, day: u32) -> (date: Option<Date>)
        ensures
            date is Some <==> is_calendar_date(year as int, month as int, day as int),
            date matches Some(d) ==> d@ == civil_day(year as int, month as int, day as int)
                && month_number(d@) == month && day_of_month(d@) == day,
    {
        match day_from_civil(year, month, day) {
            Some(days) => {
                proof {
                    lemma_civil_day_bounds(year as int, month as int, day as int);
                }
                Some(Date { days })
            },
            None => None,
        }
    }

    /// The date with the given day number, where the calendar has that day.
    pub fn from_day_number(day: i32) -> (date: Option<Date>)
        ensures
            date is Some <==> MIN_DAY <= day <= MAX_DAY,
            date matches Some(d) ==> d@ == day,
    {
        if MIN_DAY <= day && day <= MAX_DAY {
            Some(Date { days: day })
        } else {
            None
        }
    }

    /// The day number.
    pub fn day_number(&self) -> (day: i32)
        ensures
            day == self@,
            MIN_DAY <= day <= MAX_DAY,
    {
        proof {
            use_type_invariant(self);
        }
        self.days
    }

    /// The next day.
    pub fn succ(&self) -> (next: Date)
        requires
            self@ < MAX_DAY,
        ensures
            next@ == self@ + 1,
    {
        proof {
            use_type_invariant(self);
        }
        Date { days: self.days + 1 }
    }

    /// The day before.
    pub fn pred(&self) -> (previous: Date)
        requires
            self@ > MIN_DAY,
        ensures
            previous@ == self@ - 1,
    {
        proof {
            use_type_invariant(self);
        }
        Date { days: self.days - 1 }
    }

    /// The month, from 1 for January.
    pub fn month(&self) -> (month: u32)
        ensures
            month == month_number(self@),
            1 <= month <= 12,
    {
        proof {
            use_type_invariant(self);
        }
        month_of_day(self.days)
    }

    /// The day of the month, from 1.
    pub fn day(&self) -> (day: u32)
        ensures
            day == day_of_month(self@),
            1 <= day <= 31,
    {
        proof {
            use_type_invariant(self);
        }
        day_of_month_of_day(self.days)
    }
}

/// The week of the year of a day, from 0: one less than its ISO week.
pub open spec fn week_of_year(day: int) -> int {
    iso_week(day) - 1
}

/// Which week in the year the date belongs to. Week numbers start at zero.
pub fn week_number(date: &Date) -> (week: u32)
    ensures
        week == week_of_year(date@),
        week <= 52,
{
    let day = date.day_number();
    iso_week_of_day(day) - 1
}

/// The day of the week of the date, from 0 for Monday.
pub fn weekday(date: Date) -> (weekday: u32)
    ensures
        weekday == weekday_number(date@),
        weekday <= 6,
{
    let day = date.day_number();
    weekday_of_day(day)
}

/// What consecutive dates are grouped by.
#[derive(Copy, Clone, Debug, PartialEq, Eq, Structural)]
pub enum GroupKey {
    /// The month of the date.
    Month,
    /// The week of the year of the date.
    Week,
}

impl GroupKey {
    /// The key of a day.
    pub open spec fn of(self, day: int) -> int {
        match self {
            GroupKey::Month => month_number(day),
            GroupKey::Week => week_of_year(day),
        }
    }

    /// Computes the key of a date.
    pub fn apply(&self, date: &Date) -> (key: u32)
        ensures
            key == self.of(date@),
    {
        match self {
            GroupKey::Month => date.month(),
            GroupKey::Week => week_number(date),
        }
    }
}

/// The first day from `at` on and before `to` whose key is not `wanted`, and
/// `to` where there is no such day.
pub open spec fn run_end(key: GroupKey, wanted: int, at: int, to: int) -> int
    decreases to - at,
{
    if at >= to {
        to
    } else if key.of(at) != wanted {
        at
    } else {
        run_end(key, wanted, at + 1, to)
    }
}

/// Where the group that starts with day `from` ends: at the first later day
/// before `to` with another key, or at `to`.
pub open spec fn group_end(key: GroupKey, from: int, to: int) -> int {
    run_end(key, key.of(from), from, to)
}

/// The maximal runs of days with one key into which the days from `from` up
/// to, not including, `to` fall, in their order.
pub open spec fn groups(key: GroupKey, from: int, to: int) -> Seq<DateRange>
    decreases to - from,
{
    if from >= to {
        Seq::empty()
    } else {
        proof {
            lemma_group_end_bounds(key, from, to);
        }
        seq![DateRange::between(from, group_end(key, from, to))] + groups(
            key,
            group_end(key, from, to),
            to,
        )
    }
}

/// A scan that starts before its limit ends between its start and the limit.
pub proof fn lemma_run_end_bounds(key: GroupKey, wanted: int, at: int, to: int)
    requires
        at <= to,
    ensures
        at <= run_end(key, wanted, at, to) <= to,
    decreases to - at,
{
    if at < to && key.of(at) == wanted {
        lemma_run_end_bounds(key, wanted, at + 1, to);
    }
}

/// A group holds its first day: it ends after that day, and not after the
/// limit.
pub proof fn lemma_group_end_bounds(key: GroupKey, from: int, to: int)
    requires
        from < to,
    ensures
        from < group_end(key, from, to) <= to,
{
    lemma_run_end_bounds(key, key.of(from), from + 1, to);
}

/// Range of dates: from `start` up to, not including, `end`.
#[derive(Copy, Clone, Debug, PartialEq, Eq, Structural)]
pub struct DateRange {
    pub start: Date,
    pub end: Date,
}

impl DateRange {
    /// The range from day `from` up to, not including, day `to`.
    pub open spec fn between(from: int, to: int) -> DateRange {
        DateRange { start: Date::at(from), end: Date::at(to) }
    }

    /// The number of dates in the range.
    pub open spec fn count(&self) -> nat {
        if self.start@ >= self.end@ {
            0
        } else {
            (self.end@ - self.start@) as nat
        }
    }

    /// The dates of the range, in their order.
    pub open spec fn dates(&self) -> Seq<Date> {
        Seq::new(self.count(), |i: int| Date::at(self.start@ + i))
    }

    /// The range from `start` up to, not including, `end`. Where `start` is
    /// not before `end` the range is empty.
    pub fn new(start: Date, end: Date) -> (range: DateRange)
        ensures
            range.start == start,
            range.end == end,
    {
        DateRange { start: start, end: end }
    }

    /// Whether the range holds no date.
    pub fn empty(&self) -> (empty: bool)
        ensures
            empty <==> self.start@ >= self.end@,
            empty <==> self.dates().len() == 0,
    {
        self.start.day_number() >= self.end.day_number()
    }

    /// Groups the dates of the range by their month.
    pub fn by_month(self) -> (months: ByMonth)
        ensures
            months.range() == self,
            months.key() == GroupKey::Month,
    {
        self.group_by(GroupKey::Month)
    }

    /// Groups the dates of the range by their week of the year.
    pub fn by_week(self) -> (weeks: ByWeek)
        ensures
            weeks.range() == self,
            weeks.key() == GroupKey::Week,
    {
        self.group_by(GroupKey::Week)
    }

    /// Groups consecutive dates of the range that have the same key.
    pub fn group_by(self, key: GroupKey) -> (grouping: GroupBy)
        ensures
            grouping.range() == self,
            grouping.key() == key,
    {
        GroupBy { dates: self, key: key }
    }
}

impl Sequence for DateRange {
    type Item = Date;

    open spec fn inv(&self) -> bool {
        true
    }

    open spec fn at(&self, k: int) -> Option<Date> {
        if 0 <= k < self.count() {
            Some(Date::at(self.start@ + k))
        } else {
            None
        }
    }

    open spec fn horizon(&self) -> nat {
        self.count()
    }

    proof fn lemma_horizon(&self, k: int) {
    }

    /// Yields `start` and moves `start` on to the next day, until the range
    /// is empty.
    fn next(&mut self) -> (item: Option<Date>)
        ensures
            item == (if old(self).start@ < old(self).end@ {
                Some(old(self).start)
            } else {
                None
            }),
            final(self).end == old(self).end,
            final(self).start@ == old(self).start@ + (if old(self).start@ < old(self).end@ {
                1int
            } else {
                0int
            }),
    {
        if self.empty() {
            None
        } else {
            let result = Some(self.start);
            proof {
                use_type_invariant(&self.end);
                self.start.lemma_at_view();
            }
            self.start = self.start.succ();
            result
        }
    }
}

/// The dates of a range are the days from its start up to, not including,
/// its end, one after the other.
pub proof fn lemma_dates(range: DateRange)
    requires
        MIN_DAY <= range.start@,
        range.end@ <= MAX_DAY,
    ensures
        range.dates().len() == range.count(),
        forall|i: int| 0 <= i < range.count() ==> (#[trigger] range.dates()[i])@ == range.start@ + i,
{
    assert forall|i: int| 0 <= i < range.count() implies (#[trigger] range.dates()[i])@
        == range.start@ + i by {
        Date::lemma_view_at(range.start@ + i);
    }
}

/// A range yields its dates and then nothing more.
pub proof fn lemma_range_remaining(range: DateRange)
    ensures
        remaining(range) == range.dates(),
        fused(range),
{
    lemma_run_is(range, 0, range.dates());
}

/// The state of a grouping: the dates not yet handed out, and the key.
#[derive(Copy, Clone, Debug, PartialEq, Eq)]
pub struct GroupBy {
    dates: DateRange,
    key: GroupKey,
}

/// The groups of a range by month.
pub type ByMonth = GroupBy;

/// The groups of a range by week.
pub type ByWeek = GroupBy;

impl GroupBy {
    /// The dates that have not been handed out in a group yet.
    pub closed spec fn range(&self) -> DateRange {
        self.dates
    }

    /// The key that consecutive dates of a group share.
    pub closed spec fn key(&self) -> GroupKey {
        self.key
    }

    /// The groups that have not been handed out yet.
    pub open spec fn pending(&self) -> Seq<DateRange> {
        groups(self.key(), self.range().start@, self.range().end@)
    }
}

/// A scan that has passed only days with the wanted key ends where the scan
/// from its start ends.
pub proof fn lemma_run_end_resumes(key: GroupKey, wanted: int, from: int, at: int, to: int)
    requires
        from <= at <= to,
        forall|day: int| from <= day < at ==> key.of(day) == wanted,
    ensures
        run_end(key, wanted, from, to) == run_end(key, wanted, at, to),
    decreases at - from,
{
    if from < at {
        lemma_run_end_resumes(key, wanted, from + 1, at, to);
    }
}

impl Sequence for GroupBy {
    type Item = DateRange;

    open spec fn inv(&self) -> bool {
        true
    }

    open spec fn at(&self, k: int) -> Option<DateRange> {
        if 0 <= k < self.pending().len() {
            Some(self.pending()[k])
        } else {
            None
        }
    }

    open spec fn horizon(&self) -> nat {
        self.pending().len()
    }

    proof fn lemma_horizon(&self, k: int) {
    }

    /// Hands out the next group: the dates from the start of the range up to
    /// the first date with another key than the start, or up to the end of
    /// the range. The range then starts where the group ended.
    fn next(&mut self) -> (item: Option<DateRange>)
        ensures
            final(self).key() == old(self).key(),
            final(self).range().end == old(self).range().end,
            old(self).pending().len() == 0 ==> item is None && final(self).range() == old(
                self,
            ).range(),
            old(self).pending().len() > 0 ==> item == Some(old(self).pending().first())
                && final(self).pending() == old(self).pending().drop_first()
                && final(self).range().start == old(self).pending().first().end,
    {
        if self.dates.empty() {
            return None;
        }
        let start = self.dates.start;
        let end = self.dates.end;
        let start_key = self.key.apply(&start);
        let mut at = start;
        while at.day_number() < end.day_number() && self.key.apply(&at) == start_key
            invariant
                self.key == old(self).key,
                start@ <= at@ <= end@,
                start_key == self.key.of(start@),
                forall|day: int| start@ <= day < at@ ==> self.key.of(day) == start_key,
            decreases end@ - at@,
        {
            proof {
                use_type_invariant(&end);
            }
            at = at.succ();
        }
        proof {
            lemma_run_end_resumes(self.key, start_key as int, start@, at@, end@);
            start.lemma_at_view();
            at.lemma_at_view();
            end.lemma_at_view();
        }
        self.dates = DateRange::new(at, end);
        proof {
            assert(self.pending() =~= old(self).pending().drop_first());
        }
        Some(DateRange::new(start, at))
    }
}

/// A grouping yields the groups of its range and then nothing more.
pub proof fn lemma_grouping_remaining(grouping: GroupBy)
    ensures
        remaining(grouping) == grouping.pending(),
        fused(grouping),
{
    lemma_run_is(grouping, 0, grouping.pending());
}

/// A scan ends before any day with another key than the wanted one: every
/// day it passes has the wanted key, and the day it ends at, where that is
/// before the limit, has not.
pub proof fn lemma_run_end_uniform(key: GroupKey, wanted: int, at: int, to: int)
    requires
        at <= to,
    ensures
        forall|day: int| at <= day < run_end(key, wanted, at, to) ==> key.of(day) == wanted,
        run_end(key, wanted, at, to) < to ==> key.of(run_end(key, wanted, at, to)) != wanted,
    decreases to - at,
{
    if at < to && key.of(at) == wanted {
        lemma_run_end_uniform(key, wanted, at + 1, to);
    }
}

/// Grouping partitions a range. The groups are ranges that are not empty
/// and lie in the range, the first starts where the range starts, each
/// starts where the one before ended, and the last ends where the range
/// ends. The dates of a group share one key, and a group ends where the key
/// changes. Read one after the other, the groups give the dates of the range
/// back.
pub proof fn lemma_groups_partition(key: GroupKey, range: DateRange)
    requires
        MIN_DAY <= range.start@ <= MAX_DAY,
        MIN_DAY <= range.end@ <= MAX_DAY,
    ensures
        groups(key, range.start@, range.end@).len() == 0 <==> range.start@ >= range.end@,
        forall|i: int|
            0 <= i < groups(key, range.start@, range.end@).len() ==> {
                let group = #[trigger] groups(key, range.start@, range.end@)[i];
                &&& range.start@ <= group.start@ < group.end@ <= range.end@
                &&& i == 0 ==> group.start@ == range.start@
                &&& i + 1 == groups(key, range.start@, range.end@).len() ==> group.end@
                    == range.end@
                &&& i + 1 < groups(key, range.start@, range.end@).len() ==> {
                    &&& groups(key, range.start@, range.end@)[i + 1].start@ == group.end@
                    &&& key.of(group.end@) != key.of(group.start@)
                }
                &&& forall|day: int|
                    group.start@ <= day < group.end@ ==> #[trigger] key.of(day) == key.of(
                        group.start@,
                    )
            },
        groups(key, range.start@, range.end@).map_values(
            |group: DateRange| group.dates(),
        ).flatten() == range.dates(),
    decreases range.end@ - range.start@,
{
    let from = range.start@;
    let to = range.end@;
    let all = groups(key, from, to);
    let each = all.map_values(|group: DateRange| group.dates());
    if from >= to {
        assert(each.flatten() =~= range.dates());
    } else {
        let cut = group_end(key, from, to);
        lemma_group_end_bounds(key, from, to);
        lemma_run_end_uniform(key, key.of(from), from, to);
        let first = DateRange::between(from, cut);
        let rest_range = DateRange::between(cut, to);
        let rest = groups(key, cut, to);
        lemma_groups_partition(key, rest_range);
        assert(all.drop_first() =~= rest);
        assert(each.drop_first() =~= rest.map_values(|group: DateRange| group.dates()));
        assert(each.first() == first.dates());
        assert(first.dates() + rest_range.dates() =~= range.dates());
        assert forall|i: int| 0 <= i < all.len() implies {
            let group = #[trigger] all[i];
            &&& from <= group.start@ < group.end@ <= to
            &&& i == 0 ==> group.start@ == from
            &&& i + 1 == all.len() ==> group.end@ == to
            &&& i + 1 < all.len() ==> {
                &&& all[i + 1].start@ == group.end@
                &&& key.of(group.end@) != key.of(group.start@)
            }
            &&& forall|day: int|
                group.start@ <= day < group.end@ ==> #[trigger] key.of(day) == key.of(
                    group.start@,
                )
        } by {
            if i > 0 {
                assert(all[i] == rest[i - 1]);
                if i + 1 < all.len() {
                    assert(all[i + 1] == rest[i]);
                }
            } else if 1 < all.len() {
                assert(all[1] == rest[0]);
            }
        }
    }
}

/// Returns a range of all dates in the given year.
pub fn dates(year: i32) -> (range: DateRange)
    requires
        MIN_YEAR <= year < MAX_YEAR,
    ensures
        range.start@ == civil_day(year as int, 1, 1),
        range.end@ == civil_day(year + 1, 1, 1),
        range.count() == (if is_leap_year(year as int) {
            366nat
        } else {
            365nat
        }),
        month_number(range.start@) == 1 && day_of_month(range.start@) == 1,
        range.end@ - 1 == civil_day(year as int, 12, 31),
{
    let start = Date::from_ymd(year, 1, 1);
    let end = Date::from_ymd(year + 1, 1, 1);
    proof {
        lemma_year_length(year as int);
        lemma_days_before_month(year as int, 12);
    }
    DateRange::new(start.unwrap(), end.unwrap())
}

} // verus!
