//! Calendar formatting: a month as a title and six lines of weeks.

use vstd::prelude::*;
use vstd::string::StringExecFns;
use crate::advanced_iterator::texts;
use crate::date::groups;
use crate::date::lemma_groups_partition;
use crate::date::weekday;
use crate::date::Date;
use crate::date::DateRange;
use crate::date::GroupKey;
use crate::gregorian::day_of_month;
use crate::gregorian::long_month_name;
use crate::gregorian::month_name_of_day;
use crate::gregorian::month_number;
use crate::gregorian::weekday_number;
use crate::gregorian::MIN_DAY;
use crate::text::blank;
use crate::text::center;
use crate::text::centered;
use crate::text::decimal;
use crate::text::render_decimal;
use crate::text::right_align;
use crate::text::right_aligned;
use crate::text::spaces;
use crate::sequence::Buffered;
use crate::sequence::Sequence;

verus! {

/// The number of characters of a line of a month.
pub const LINE_WIDTH: usize = 22;

/// The number of week lines of a month.
pub const WEEK_LINES: usize = 6;

/// A month laid out: its title, its weeks, and blank lines up to six weeks.
pub type MonthLayout = Buffered<String>;

/// The text of a day: the day of the month, right-aligned in three columns.
pub open spec fn day_text(day: int) -> Seq<char> {
    right_aligned(decimal(day_of_month(day) as nat), 3)
}

/// The texts of the days from `from` up to, not including, `to`, one after
/// the other.
pub open spec fn days_text(from: int, to: int) -> Seq<char>
    decreases to - from,
{
    if from >= to {
        Seq::empty()
    } else {
        days_text(from, to - 1) + day_text(to - 1)
    }
}

/// The texts of days set into the line of a week: three blank columns for
/// each weekday before the first of the days and after the last, and a
/// closing space.
pub open spec fn framed_week(first_weekday: int, days: Seq<char>, last_weekday: int) -> Seq<char> {
    spaces((3 * first_weekday) as nat) + days + spaces((3 * (6 - last_weekday)) as nat) + seq![' ']
}

/// The line of a week: three columns for each day from Monday to Sunday,
/// blank where the week does not hold the day, and a closing space.
pub open spec fn week_text(week: DateRange) -> Seq<char> {
    framed_week(
        weekday_number(week.start@),
        days_text(week.start@, week.end@),
        weekday_number(week.end@ - 1),
    )
}

/// The title of the month of a day: the name of the month, centered.
pub open spec fn title_text(day: int) -> Seq<char> {
    centered(long_month_name(month_number(day)), LINE_WIDTH as nat)
}

/// A title and the lines of weeks set into the lines of a month: the title,
/// the weeks, and blank lines up to six weeks.
pub open spec fn framed_month(title: Seq<char>, weeks: Seq<Seq<char>>) -> Seq<Seq<char>> {
    seq![title] + weeks + Seq::new(
        (WEEK_LINES - weeks.len()) as nat,
        |i: int| spaces(LINE_WIDTH as nat),
    )
}

/// The lines of the weeks of a month.
pub open spec fn week_texts(month: DateRange) -> Seq<Seq<char>> {
    groups(GroupKey::Week, month.start@, month.end@).map_values(|week: DateRange| week_text(week))
}

/// The lines of a month: the title, a line for each week, and blank lines
/// up to six weeks.
pub open spec fn month_lines(month: DateRange) -> Seq<Seq<char>> {
    framed_month(title_text(month.start@), week_texts(month))
}

/// The day of the month, right-aligned in three columns.
pub fn format_day(date: Date) -> (text: String)
    ensures
        text@ == day_text(date@),
{
    let number = render_decimal(date.day() as u128);
    right_align(number.as_str(), 3)
}

/// Sets the texts of the days of a week into the line of the week, given
/// the weekdays of the first and of the last of the days, from 0 for Monday.
pub fn week_line(first_weekday: u32, days: &str, last_weekday: u32) -> (text: String)
    requires
        first_weekday <= 6,
        last_weekday <= 6,
    ensures
        text@ == framed_week(first_weekday as int, days@, last_weekday as int),
{
    let pad_left = first_weekday * 3;
    let pad_right = (6 - last_weekday) * 3;

    let mut result = String::new();
    result.append(blank(pad_left as usize).as_str());
    result.append(days);
    result.append(blank(pad_right as usize).as_str());
    proof {
        reveal_strlit(" ");
    }
    result.append(" ");
    result
}

/// The line of a week.
pub fn format_week(week: DateRange) -> (text: String)
    requires
        week.end@ > MIN_DAY,
    ensures
        text@ == week_text(week),
{
    let first_weekday = weekday(week.start);
    let last_weekday = weekday(week.end.pred());

    let mut result = String::new();
    let mut days = week;
    proof {
        assert(result@ =~= days_text(week.start@, days.start@));
    }
    loop
        invariant
            days.end == week.end,
            week.start@ <= days.start@,
            days.start@ <= week.end@ || days.start@ == week.start@,
            result@ == days_text(week.start@, days.start@),
        ensures
            result@ == days_text(week.start@, week.end@),
        decreases week.end@ - days.start@,
    {
        match days.next() {
            Some(day) => {
                result.append(format_day(day).as_str());
            },
            None => {
                proof {
                    if week.start@ >= week.end@ {
                        assert(days_text(week.start@, week.end@) =~= days_text(
                            week.start@,
                            week.start@,
                        ));
                    }
                }
                break ;
            },
        }
    }
    week_line(first_weekday, result.as_str(), last_weekday)
}

/// The name of the month of the date, centered in the width of a line.
pub fn month_title(date: Date) -> (text: String)
    ensures
        text@ == title_text(date@),
{
    let name = month_name_of_day(date.day_number());
    center(name.as_str(), LINE_WIDTH)
}

/// Sets a title and the lines of at most six weeks into the lines of a
/// month: the title, the weeks, and blank lines so that the month has six
/// week lines.
pub fn frame_month(title: String, weeks: Vec<String>) -> (layout: MonthLayout)
    requires
        weeks@.len() <= WEEK_LINES,
    ensures
        texts(layout.items()) == framed_month(title@, texts(weeks@)),
        layout.items().len() == 1 + WEEK_LINES,
{
    let ghost given = weeks@;
    let mut weeks = weeks;
    let mut lines: Vec<String> = Vec::new();
    lines.push(title);
    lines.append(&mut weeks);
    let ghost weeks_done = lines@;
    let mut written = lines.len() - 1;
    proof {
        assert(texts(weeks_done) =~= seq![title@] + texts(given));
        assert(texts(lines@) =~= texts(weeks_done) + Seq::new(0, |i: int| spaces(LINE_WIDTH as nat)));
    }
    while written < WEEK_LINES
        invariant
            given.len() <= written <= WEEK_LINES,
            lines@.len() == written + 1,
            texts(lines@) == texts(weeks_done) + Seq::new(
                (written - given.len()) as nat,
                |i: int| spaces(LINE_WIDTH as nat),
            ),
        decreases WEEK_LINES - written,
    {
        let ghost so_far = lines@;
        lines.push(blank(LINE_WIDTH));
        written = written + 1;
        proof {
            assert(texts(lines@) =~= texts(so_far).push(spaces(LINE_WIDTH as nat)));
        }
    }
    Buffered::from_vec(lines)
}

/// Lays out a month of at most six weeks: the title, the weeks, and blank
/// lines so that the month has six week lines.
pub fn layout_month(month: DateRange) -> (layout: MonthLayout)
    requires
        groups(GroupKey::Week, month.start@, month.end@).len() <= WEEK_LINES,
    ensures
        texts(layout.items()) == month_lines(month),
        layout.items().len() == 1 + WEEK_LINES,
{
    let ghost all = groups(GroupKey::Week, month.start@, month.end@);
    let title = month_title(month.start);
    let mut lines: Vec<String> = Vec::new();
    let mut weeks = month.by_week();
    proof {
        use_type_invariant(&month.start);
        use_type_invariant(&month.end);
        lemma_groups_partition(GroupKey::Week, month);
        assert(all.skip(0) =~= all);
        assert(all.take(0).map_values(|week: DateRange| week_text(week)) =~= texts(lines@));
    }
    loop
        invariant_except_break
            weeks.pending() == all.skip(lines@.len() as int),
        invariant
            all == groups(GroupKey::Week, month.start@, month.end@),
            all.len() <= WEEK_LINES,
            MIN_DAY <= month.start@,
            forall|i: int| 0 <= i < all.len() ==> month.start@ <= (#[trigger] all[i]).start@ < all[i].end@,
            lines@.len() <= all.len(),
            texts(lines@) == all.take(lines@.len() as int).map_values(
                |week: DateRange| week_text(week),
            ),
        ensures
            lines@.len() == all.len(),
            texts(lines@) == week_texts(month),
        decreases all.len() - lines@.len(),
    {
        let ghost done = lines@.len() as int;
        let ghost so_far = lines@;
        match weeks.next() {
            Some(week) => {
                proof {
                    assert(week == all[done]);
                }
                lines.push(format_week(week));
                proof {
                    assert(all.skip(done).drop_first() =~= all.skip(done + 1));
                    assert(texts(lines@) =~= texts(so_far).push(week_text(week)));
                    assert(all.take(done + 1).map_values(|week: DateRange| week_text(week))
                        =~= all.take(done).map_values(|week: DateRange| week_text(week)).push(
                        week_text(week),
                    ));
                }
            },
            None => {
                proof {
                    assert(all.take(done) =~= all);
                }
                break ;
            },
        }
    }
    frame_month(title, lines)
}

/// Lays out a month, where it has at most six weeks.
pub fn try_layout_month(month: DateRange) -> (layout: Option<MonthLayout>)
    ensures
        layout is Some <==> groups(GroupKey::Week, month.start@, month.end@).len() <= WEEK_LINES,
        layout matches Some(lines) ==> texts(lines.items()) == month_lines(month)
            && lines.items().len() == 1 + WEEK_LINES,
{
    let ghost all = groups(GroupKey::Week, month.start@, month.end@);
    let mut weeks = month.by_week();
    let mut seen: usize = 0;
    proof {
        assert(all.skip(0) =~= all);
    }
    loop
        invariant_except_break
            weeks.pending() == all.skip(seen as int),
        invariant
            seen <= all.len(),
            seen <= WEEK_LINES + 1,
        ensures
            seen == all.len() || (seen > WEEK_LINES && all.len() > WEEK_LINES),
        decreases all.len() - seen,
    {
        if seen > WEEK_LINES {
            break ;
        }
        match weeks.next() {
            Some(_) => {
                proof {
                    assert(all.skip(seen as int).drop_first() =~= all.skip(seen + 1));
                }
                seen = seen + 1;
            },
            None => {
                break ;
            },
        }
    }
    if seen > WEEK_LINES {
        None
    } else {
        Some(layout_month(month))
    }
}

} // verus!
