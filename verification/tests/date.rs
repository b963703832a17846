use calendar::date::dates;
use calendar::date::week_number;
use calendar::date::weekday;
use calendar::date::Date;
use calendar::date::DateRange;
use calendar::date::GroupKey;
use calendar::gregorian::MAX_DAY;
use calendar::gregorian::MAX_YEAR;
use calendar::gregorian::MIN_DAY;
use calendar::gregorian::MIN_YEAR;
use calendar::sequence::collect;
use calendar::sequence::Sequence;

fn ymd(year: i32, month: u32, day: u32) -> Date {
    Date::from_ymd(year, month, day).unwrap()
}

#[test]
fn week_number_returns_week_number_of_the_date() {
    assert_eq!(week_number(&ymd(2015, 1,  1)), 0);
    assert_eq!(week_number(&ymd(2015, 1,  2)), 0);
    assert_eq!(week_number(&ymd(2015, 1,  3)), 0);
    assert_eq!(week_number(&ymd(2015, 1,  4)), 0);

    assert_eq!(week_number(&ymd(2015, 1,  5)), 1);
    assert_eq!(week_number(&ymd(2015, 1, 13)), 2);
}

#[test]
fn date_range_can_be_iterated() {
    let mut range = DateRange::new(ymd(2015, 1, 1), ymd(2015, 1, 4));

    let actual = collect(&mut range);
    let expected = vec![ymd(2015, 1, 1),
                        ymd(2015, 1, 2),
                        ymd(2015, 1, 3)];

    assert_eq!(actual, expected);
}

#[test]
fn by_month_groups_date_range_by_months() {
    let     range  = DateRange::new(ymd(2015, 1, 10), ymd(2015, 3, 10));
    let mut months = range.by_month();

    assert_eq!(months.next().unwrap(),
               DateRange::new(ymd(2015, 1, 10), ymd(2015, 2, 1)));

    assert_eq!(months.next().unwrap(),
               DateRange::new(ymd(2015, 2, 1), ymd(2015, 3, 1)));

    assert_eq!(months.next().unwrap(),
               DateRange::new(ymd(2015, 3, 1), ymd(2015, 3, 10)));

    assert_eq!(months.next(), None);
}

#[test]
fn by_week_groups_date_range_by_weeks() {
    let range     = DateRange::new(ymd(2015, 1, 1), ymd(2015, 1, 17));
    let mut weeks = range.by_week();

    assert_eq!(weeks.next().unwrap(),
               DateRange::new(ymd(2015, 1, 1), ymd(2015, 1, 5)));

    assert_eq!(weeks.next().unwrap(),
               DateRange::new(ymd(2015, 1, 5), ymd(2015, 1, 12)));

    assert_eq!(weeks.next().unwrap(),
               DateRange::new(ymd(2015, 1, 12), ymd(2015, 1, 17)));

    assert_eq!(weeks.next(), None);
}

#[test]
fn dates_returns_all_dates_in_a_year() {
    let range = dates(2015);

    let mut head = range;
    let mut actual = Vec::new();
    for _ in 0..4 {
        actual.push(head.next().unwrap());
    }
    let expected = vec![ ymd(2015, 1, 1)
                       , ymd(2015, 1, 2)
                       , ymd(2015, 1, 3)
                       , ymd(2015, 1, 4)];
    assert_eq!(actual, expected);

    let mut whole = range;
    let actual = collect(&mut whole).pop().unwrap();
    let expected = ymd(2015, 12, 31);
    assert_eq!(actual, expected);
}

#[test]
fn dates_of_a_common_year_are_365() {
    let mut range = dates(2015);
    let all = collect(&mut range);
    assert_eq!(all.len(), 365);
    assert_eq!(all[0], ymd(2015, 1, 1));
    assert_eq!(all[364], ymd(2015, 12, 31));
    assert_eq!(range.next(), None);
}

#[test]
fn dates_of_a_leap_year_are_366() {
    let mut range = dates(2016);
    let all = collect(&mut range);
    assert_eq!(all.len(), 366);
    assert_eq!(all[59], ymd(2016, 2, 29));
    assert_eq!(all[365], ymd(2016, 12, 31));
}

#[test]
fn dates_of_the_first_and_the_last_but_one_year() {
    let first = dates(MIN_YEAR);
    assert_eq!(first.start.day_number(), MIN_DAY);
    assert_eq!(first.end, ymd(MIN_YEAR + 1, 1, 1));
    let last = dates(MAX_YEAR - 1);
    assert_eq!(last.end, ymd(MAX_YEAR, 1, 1));
    assert_eq!(last.end.day_number() + 364, MAX_DAY);
}

#[test]
fn from_ymd_numbers_the_days_from_the_year_one() {
    assert_eq!(ymd(1, 1, 1).day_number(), 1);
    assert_eq!(ymd(0, 12, 31).day_number(), 0);
    assert_eq!(ymd(2015, 3, 14).day_number(), 735671);
    assert_eq!(ymd(MIN_YEAR, 1, 1).day_number(), MIN_DAY);
    assert_eq!(ymd(MAX_YEAR, 12, 31).day_number(), MAX_DAY);
}

#[test]
fn from_ymd_refuses_what_is_no_date() {
    assert_eq!(Date::from_ymd(2015, 0, 14), None);
    assert_eq!(Date::from_ymd(2015, 13, 1), None);
    assert_eq!(Date::from_ymd(2015, 1, 0), None);
    assert_eq!(Date::from_ymd(2015, 2, 29), None);
    assert_eq!(Date::from_ymd(2015, 4, 31), None);
    assert_eq!(Date::from_ymd(1900, 2, 29), None);
    assert_eq!(Date::from_ymd(MAX_YEAR + 1, 1, 1), None);
    assert_eq!(Date::from_ymd(MIN_YEAR - 1, 12, 31), None);
    assert!(Date::from_ymd(2016, 2, 29).is_some());
    assert!(Date::from_ymd(2000, 2, 29).is_some());
    assert!(Date::from_ymd(-4, 2, 29).is_some());
}

#[test]
fn from_day_number_keeps_to_the_calendar() {
    assert_eq!(Date::from_day_number(735671), Some(ymd(2015, 3, 14)));
    assert_eq!(Date::from_day_number(MIN_DAY), Some(ymd(MIN_YEAR, 1, 1)));
    assert_eq!(Date::from_day_number(MAX_DAY), Some(ymd(MAX_YEAR, 12, 31)));
    assert_eq!(Date::from_day_number(MIN_DAY - 1), None);
    assert_eq!(Date::from_day_number(MAX_DAY + 1), None);
    assert_eq!(Date::from_day_number(i32::MAX), None);
    assert_eq!(Date::from_day_number(i32::MIN), None);
}

#[test]
fn the_calendar_answers_at_its_first_and_last_day() {
    let first = Date::from_day_number(MIN_DAY).unwrap();
    let last = Date::from_day_number(MAX_DAY).unwrap();
    assert_eq!(first.month(), 1);
    assert_eq!(first.day(), 1);
    assert_eq!(last.month(), 12);
    assert_eq!(last.day(), 31);
    assert!(weekday(first) <= 6);
    assert!(weekday(last) <= 6);
    assert!(week_number(&first) <= 52);
    assert!(week_number(&last) <= 52);
    assert_eq!(first.succ(), ymd(MIN_YEAR, 1, 2));
    assert_eq!(last.pred(), ymd(MAX_YEAR, 12, 30));
}

#[test]
fn succ_and_pred_cross_months_and_years() {
    assert_eq!(ymd(2015, 6, 3).succ(), ymd(2015, 6, 4));
    assert_eq!(ymd(2015, 6, 30).succ(), ymd(2015, 7, 1));
    assert_eq!(ymd(2015, 12, 31).succ(), ymd(2016, 1, 1));
    assert_eq!(ymd(2015, 6, 1).pred(), ymd(2015, 5, 31));
    assert_eq!(ymd(2015, 1, 1).pred(), ymd(2014, 12, 31));
}

#[test]
fn month_and_day_are_those_of_the_date() {
    assert_eq!(ymd(2015, 3, 14).month(), 3);
    assert_eq!(ymd(2015, 3, 14).day(), 14);
    assert_eq!(ymd(2016, 2, 29).month(), 2);
    assert_eq!(ymd(2016, 2, 29).day(), 29);
}

#[test]
fn weekday_counts_from_monday() {
    assert_eq!(weekday(ymd(2015, 1, 5)), 0);
    assert_eq!(weekday(ymd(2015, 1, 1)), 3);
    assert_eq!(weekday(ymd(2015, 1, 4)), 6);
    assert_eq!(weekday(ymd(2015, 9, 8)), 1);
}

#[test]
fn week_number_is_the_iso_week_less_one() {
    assert_eq!(week_number(&ymd(2015, 3, 14)), 10);
    assert_eq!(week_number(&ymd(2014, 12, 29)), 0);
    assert_eq!(week_number(&ymd(2016, 1, 1)), 52);
    assert_eq!(week_number(&ymd(2015, 12, 31)), 52);
}

#[test]
fn group_key_applies_month_or_week() {
    let date = ymd(2015, 3, 14);
    assert_eq!(GroupKey::Month.apply(&date), 3);
    assert_eq!(GroupKey::Week.apply(&date), 10);
}

#[test]
fn an_inverted_range_is_empty() {
    let mut range = DateRange::new(ymd(2015, 1, 4), ymd(2015, 1, 1));
    assert!(range.empty());
    assert_eq!(range.next(), None);
    assert_eq!(range, DateRange::new(ymd(2015, 1, 4), ymd(2015, 1, 1)));
    assert_eq!(range.by_month().next(), None);
    assert_eq!(range.by_week().next(), None);

    let mut nothing = DateRange::new(ymd(2015, 1, 1), ymd(2015, 1, 1));
    assert!(nothing.empty());
    assert_eq!(nothing.next(), None);
    assert!(!DateRange::new(ymd(2015, 1, 1), ymd(2015, 1, 2)).empty());
}

#[test]
fn a_range_moves_its_start_as_it_is_read() {
    let mut range = DateRange::new(ymd(2015, 1, 1), ymd(2015, 1, 3));
    assert_eq!(range.next(), Some(ymd(2015, 1, 1)));
    assert_eq!(range.start, ymd(2015, 1, 2));
    assert_eq!(range.end, ymd(2015, 1, 3));
    assert_eq!(range.next(), Some(ymd(2015, 1, 2)));
    assert_eq!(range.next(), None);
    assert_eq!(range.next(), None);
    assert_eq!(range.start, ymd(2015, 1, 3));
}

#[test]
fn weeks_run_across_the_end_of_a_month() {
    let range = DateRange::new(ymd(2015, 1, 26), ymd(2015, 2, 9));
    let mut weeks = range.by_week();
    assert_eq!(collect(&mut weeks),
               vec![DateRange::new(ymd(2015, 1, 26), ymd(2015, 2, 2)),
                    DateRange::new(ymd(2015, 2, 2), ymd(2015, 2, 9))]);
    assert_eq!(weeks.next(), None);
}

#[test]
fn the_months_of_a_year_are_twelve_and_give_the_year_back() {
    let year = dates(2015);
    let months = collect(&mut year.by_month());
    assert_eq!(months.len(), 12);
    assert_eq!(months[0].start, year.start);
    assert_eq!(months[11].end, year.end);
    let mut all = Vec::new();
    for (index, month) in months.iter().enumerate() {
        assert!(!month.empty());
        if index > 0 {
            assert_eq!(months[index - 1].end, month.start);
        }
        let mut days = *month;
        for day in collect(&mut days) {
            assert_eq!(day.month(), index as u32 + 1);
            all.push(day);
        }
    }
    let mut whole = year;
    assert_eq!(all, collect(&mut whole));
}

#[test]
fn group_by_takes_the_key_it_is_given() {
    let range = DateRange::new(ymd(2015, 1, 30), ymd(2015, 2, 3));
    assert_eq!(collect(&mut range.group_by(GroupKey::Month)), collect(&mut range.by_month()));
    assert_eq!(collect(&mut range.group_by(GroupKey::Week)), collect(&mut range.by_week()));
    assert_eq!(collect(&mut range.by_month()).len(), 2);
    assert_eq!(collect(&mut range.by_week()).len(), 2);
}

fn leap(year: i32) -> bool {
    year.rem_euclid(4) == 0 && (year.rem_euclid(100) != 0 || year.rem_euclid(400) == 0)
}

fn month_length(year: i32, month: u32) -> u32 {
    match month {
        2 => if leap(year) { 29 } else { 28 },
        4 | 6 | 9 | 11 => 30,
        _ => 31,
    }
}

fn sample_years() -> Vec<i32> {
    let mut years = vec![MIN_YEAR, MIN_YEAR + 1, -401, -400, -100, -4, -1, 0, 1, 4, 100, 400,
                         1582, 1600, 1700, 1899, 1900, 1901, 1999, 2000, 2001, 2015, 2016, 2100,
                         2400, MAX_YEAR - 1, MAX_YEAR];
    years.extend(1990..2030);
    years
}

#[test]
fn from_ymd_gives_a_date_exactly_for_the_days_of_the_calendar() {
    for year in sample_years() {
        for month in 0..15 {
            for day in 0..34 {
                let expected = 1 <= month && month <= 12 && 1 <= day
                    && day <= month_length(year, month);
                assert_eq!(Date::from_ymd(year, month, day).is_some(), expected);
            }
        }
    }
    assert_eq!(Date::from_ymd(2015, u32::MAX, 1), None);
    assert_eq!(Date::from_ymd(2015, 1, u32::MAX), None);
    assert_eq!(Date::from_ymd(i32::MAX, 1, 1), None);
    assert_eq!(Date::from_ymd(i32::MIN, 1, 1), None);
}

#[test]
fn day_numbers_follow_the_calendar_day_by_day() {
    for year in sample_years() {
        let mut previous: Option<Date> = None;
        for month in 1..13 {
            for day in 1..month_length(year, month) + 1 {
                let date = ymd(year, month, day);
                assert_eq!(date.month(), month);
                assert_eq!(date.day(), day);
                assert_eq!(Date::from_day_number(date.day_number()), Some(date));
                if let Some(before) = previous {
                    assert_eq!(before.succ(), date);
                    assert_eq!(date.pred(), before);
                    assert_eq!(weekday(date), (weekday(before) + 1) % 7);
                    let same_week = week_number(&date) == week_number(&before);
                    assert_eq!(same_week, weekday(date) != 0);
                }
                previous = Some(date);
            }
        }
        if year < MAX_YEAR {
            assert_eq!(previous.unwrap().succ(), ymd(year + 1, 1, 1));
        }
    }
}

fn days_before_year(year: i64) -> i64 {
    365 * (year - 1) + (year - 1).div_euclid(4) - (year - 1).div_euclid(100)
        + (year - 1).div_euclid(400)
}

#[test]
fn day_numbers_count_the_days_since_the_year_one() {
    for year in sample_years() {
        let mut before_month = 0;
        for month in 1..13 {
            for day in [1, 15, month_length(year, month)] {
                let expected = days_before_year(year as i64) + before_month + day as i64;
                assert_eq!(ymd(year, month, day).day_number() as i64, expected);
            }
            before_month += month_length(year, month) as i64;
        }
        assert_eq!(before_month, if leap(year) { 366 } else { 365 });
    }
}

#[test]
fn dates_of_a_year_run_from_january_1_to_december_31() {
    for year in [MIN_YEAR, -1, 0, 1, 1900, 2000, 2015, 2016, MAX_YEAR - 1] {
        let range = dates(year);
        assert_eq!(range.start, ymd(year, 1, 1));
        assert_eq!(range.end.pred(), ymd(year, 12, 31));
        let length = range.end.day_number() - range.start.day_number();
        assert_eq!(length, if leap(year) { 366 } else { 365 });
    }
}

#[test]
fn dates_are_ordered_as_their_days_are() {
    let early = ymd(2015, 1, 31);
    let late = ymd(2015, 2, 1);
    assert!(early < late);
    assert!(late > early);
    assert!(early <= early);
    assert!(ymd(-1, 12, 31) < ymd(0, 1, 1));
    assert!(ymd(MIN_YEAR, 1, 1) < ymd(MAX_YEAR, 12, 31));
    assert_eq!(early.max(late), late);
    assert_eq!(early.cmp(&late), std::cmp::Ordering::Less);
    let mut days = vec![late, early, ymd(2014, 12, 31)];
    days.sort();
    assert_eq!(days, vec![ymd(2014, 12, 31), early, late]);
}
