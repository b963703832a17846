use calendar::date::Date;
use calendar::date::DateRange;
use calendar::text::blank;
use calendar::format::format_day;
use calendar::format::format_week;
use calendar::format::frame_month;
use calendar::format::layout_month;
use calendar::format::month_title;
use calendar::format::try_layout_month;
use calendar::format::week_line;
use calendar::sequence::collect;
use calendar::sequence::Sequence;

fn ymd(year: i32, month: u32, day: u32) -> Date {
    Date::from_ymd(year, month, day).unwrap()
}

#[test]
fn layout_month_returns_an_iterator_of_formatted_weeks() {
    let month = DateRange::new(ymd(2015, 1, 1), ymd(2015, 2, 1));
    let mut layout = layout_month(month);

    assert_eq!(layout.next().unwrap(), "       January        ");
    assert_eq!(layout.next().unwrap(), "           1  2  3  4 ");
    assert_eq!(layout.next().unwrap(), "  5  6  7  8  9 10 11 ");
    assert_eq!(layout.next().unwrap(), " 12 13 14 15 16 17 18 ");
    assert_eq!(layout.next().unwrap(), " 19 20 21 22 23 24 25 ");
    assert_eq!(layout.next().unwrap(), " 26 27 28 29 30 31    ");
    assert_eq!(layout.next().unwrap(), "                      ");
    assert_eq!(layout.next(), None);

    let month = DateRange::new(ymd(2010, 2, 1), ymd(2010, 3, 1));
    let mut layout = layout_month(month);

    assert_eq!(layout.next().unwrap(), "       February       ");
    assert_eq!(layout.next().unwrap(), "  1  2  3  4  5  6  7 ");
    assert_eq!(layout.next().unwrap(), "  8  9 10 11 12 13 14 ");
    assert_eq!(layout.next().unwrap(), " 15 16 17 18 19 20 21 ");
    assert_eq!(layout.next().unwrap(), " 22 23 24 25 26 27 28 ");
    assert_eq!(layout.next().unwrap(), "                      ");
    assert_eq!(layout.next().unwrap(), "                      ");
    assert_eq!(layout.next(), None);
}

#[test]
fn format_day_formats_day() {
    assert_eq!(format_day(ymd(2015, 1,  1)), "  1");
    assert_eq!(format_day(ymd(2015, 2, 11)), " 11");
}

#[test]
fn format_week_formats_week() {
    let week0 = DateRange::new(ymd(2015, 1, 1),  ymd(2015, 1,  5));
    let week1 = DateRange::new(ymd(2015, 1, 5),  ymd(2015, 1, 12));
    let week4 = DateRange::new(ymd(2015, 1, 26), ymd(2015, 2, 1));

    assert_eq!(format_week(week0), "           1  2  3  4 ");
    assert_eq!(format_week(week1), "  5  6  7  8  9 10 11 ");
    assert_eq!(format_week(week4), " 26 27 28 29 30 31    ");
}

#[test]
fn month_title_formats_month_name() {
    assert_eq!(month_title(ymd(2015, 1, 1)), "       January        ");
}

#[test]
fn month_title_centers_every_month_name() {
    let expected = ["       January        ",
                    "       February       ",
                    "        March         ",
                    "        April         ",
                    "         May          ",
                    "         June         ",
                    "         July         ",
                    "        August        ",
                    "      September       ",
                    "       October        ",
                    "       November       ",
                    "       December       "];
    for month in 1..13 {
        assert_eq!(month_title(ymd(2015, month, 15)), expected[month as usize - 1]);
    }
}

#[test]
fn format_day_formats_the_last_day() {
    assert_eq!(format_day(ymd(2015, 1, 31)), " 31");
    assert_eq!(format_day(ymd(2015, 1, 9)), "  9");
    assert_eq!(format_day(ymd(2015, 1, 10)), " 10");
}

#[test]
fn format_week_of_a_single_day() {
    let sunday = DateRange::new(ymd(2015, 2, 1), ymd(2015, 2, 2));
    assert_eq!(format_week(sunday), "                    1 ");
    let monday = DateRange::new(ymd(2015, 6, 1), ymd(2015, 6, 2));
    assert_eq!(format_week(monday), "  1                   ");
}

#[test]
fn blank_is_a_run_of_spaces() {
    assert_eq!(blank(0), "");
    assert_eq!(blank(3), "   ");
    assert_eq!(blank(22), "                      ");
}

#[test]
fn layout_month_of_six_weeks_has_no_blank_line() {
    let month = DateRange::new(ymd(2015, 8, 1), ymd(2015, 9, 1));
    let lines = collect(&mut layout_month(month));
    assert_eq!(lines,
               vec!["        August        ",
                    "                 1  2 ",
                    "  3  4  5  6  7  8  9 ",
                    " 10 11 12 13 14 15 16 ",
                    " 17 18 19 20 21 22 23 ",
                    " 24 25 26 27 28 29 30 ",
                    " 31                   "]);
}

#[test]
fn try_layout_month_lays_out_a_month() {
    let month = DateRange::new(ymd(2015, 1, 1), ymd(2015, 2, 1));
    let lines = collect(&mut try_layout_month(month).unwrap());
    assert_eq!(lines, collect(&mut layout_month(month)));
    assert_eq!(lines.len(), 7);
}

#[test]
fn try_layout_month_refuses_more_than_six_weeks() {
    let seven = DateRange::new(ymd(2015, 1, 1), ymd(2015, 2, 10));
    assert!(try_layout_month(seven).is_none());
    let six = DateRange::new(ymd(2015, 1, 1), ymd(2015, 2, 9));
    assert!(try_layout_month(six).is_some());
    let year = DateRange::new(ymd(2015, 1, 1), ymd(2016, 1, 1));
    assert!(try_layout_month(year).is_none());
}

#[test]
fn layout_month_of_an_empty_range_is_a_title_and_blank_lines() {
    let nothing = DateRange::new(ymd(2015, 3, 1), ymd(2015, 3, 1));
    let lines = collect(&mut try_layout_month(nothing).unwrap());
    assert_eq!(lines[0], "        March         ");
    for line in &lines[1..] {
        assert_eq!(line, "                      ");
    }
    assert_eq!(lines.len(), 7);
}

#[test]
fn week_line_pads_before_the_first_and_after_the_last_day() {
    assert_eq!(week_line(3, "  1  2  3  4", 6), "           1  2  3  4 ");
    assert_eq!(week_line(0, "  5  6  7  8  9 10 11", 6), "  5  6  7  8  9 10 11 ");
    assert_eq!(week_line(0, " 26 27 28 29 30 31", 5), " 26 27 28 29 30 31    ");
    assert_eq!(week_line(6, "  1", 6), "                    1 ");
    assert_eq!(week_line(0, "", 0), "                   ");
    assert_eq!(week_line(6, "", 0), "                                     ");
}

#[test]
fn frame_month_fills_up_to_six_weeks() {
    let weeks = vec![String::from("one"), String::from("two")];
    let lines = collect(&mut frame_month(String::from("title"), weeks));
    assert_eq!(lines,
               vec!["title",
                    "one",
                    "two",
                    "                      ",
                    "                      ",
                    "                      ",
                    "                      "]);

    let none = collect(&mut frame_month(String::new(), Vec::new()));
    assert_eq!(none.len(), 7);
    assert_eq!(none[0], "");
    assert_eq!(none[6], "                      ");

    let six: Vec<String> = (1..7).map(|week| week.to_string()).collect();
    let full = collect(&mut frame_month(String::from("t"), six));
    assert_eq!(full, vec!["t", "1", "2", "3", "4", "5", "6"]);
}
