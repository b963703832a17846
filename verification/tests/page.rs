use calendar::gregorian::MAX_YEAR;
use calendar::gregorian::MIN_YEAR;
use calendar::page::arrange;
use calendar::page::calendar;
use calendar::page::collect_string;
use calendar::sequence::Buffered;

#[test]
fn calendar_lays_three_months_side_by_side() {
    let text = calendar(2015, 3).unwrap();
    let lines: Vec<&str> = text.split('\n').collect();
    assert_eq!(lines.len(), 28);
    for line in &lines {
        assert_eq!(line.chars().count(), 66);
    }
    assert_eq!(&lines[..7],
               &["       January               February               March         ",
                 "           1  2  3  4                     1                     1 ",
                 "  5  6  7  8  9 10 11   2  3  4  5  6  7  8   2  3  4  5  6  7  8 ",
                 " 12 13 14 15 16 17 18   9 10 11 12 13 14 15   9 10 11 12 13 14 15 ",
                 " 19 20 21 22 23 24 25  16 17 18 19 20 21 22  16 17 18 19 20 21 22 ",
                 " 26 27 28 29 30 31     23 24 25 26 27 28     23 24 25 26 27 28 29 ",
                 "                                             30 31                "]);
    assert_eq!(&lines[21..],
               &["       October               November              December       ",
                 "           1  2  3  4                     1      1  2  3  4  5  6 ",
                 "  5  6  7  8  9 10 11   2  3  4  5  6  7  8   7  8  9 10 11 12 13 ",
                 " 12 13 14 15 16 17 18   9 10 11 12 13 14 15  14 15 16 17 18 19 20 ",
                 " 19 20 21 22 23 24 25  16 17 18 19 20 21 22  21 22 23 24 25 26 27 ",
                 " 26 27 28 29 30 31     23 24 25 26 27 28 29  28 29 30 31          ",
                 "                       30                                         "]);
    assert!(!text.ends_with('\n'));
}

#[test]
fn calendar_ends_with_a_shorter_row() {
    let text = calendar(2016, 5).unwrap();
    let lines: Vec<&str> = text.split('\n').collect();
    assert_eq!(lines.len(), 21);
    assert_eq!(lines[0].chars().count(), 110);
    assert_eq!(lines[7].chars().count(), 110);
    assert_eq!(&lines[14..],
               &["       November              December       ",
                 "     1  2  3  4  5  6            1  2  3  4 ",
                 "  7  8  9 10 11 12 13   5  6  7  8  9 10 11 ",
                 " 14 15 16 17 18 19 20  12 13 14 15 16 17 18 ",
                 " 21 22 23 24 25 26 27  19 20 21 22 23 24 25 ",
                 " 28 29 30              26 27 28 29 30 31    ",
                 "                                            "]);
}

#[test]
fn calendar_of_one_month_per_line_is_the_months_one_below_the_other() {
    let text = calendar(2015, 1).unwrap();
    let lines: Vec<&str> = text.split('\n').collect();
    assert_eq!(lines.len(), 84);
    assert_eq!(lines[0], "       January        ");
    assert_eq!(lines[7], "       February       ");
    assert_eq!(lines[77], "       December       ");
    assert_eq!(lines[83], "                      ");
}

#[test]
fn calendar_of_more_months_per_line_than_a_year_has_is_one_row() {
    let twelve = calendar(2015, 12).unwrap();
    let lines: Vec<&str> = twelve.split('\n').collect();
    assert_eq!(lines.len(), 7);
    assert_eq!(lines[0].chars().count(), 264);
    assert_eq!(calendar(2015, 13).unwrap(), twelve);
    assert_eq!(calendar(2015, usize::MAX).unwrap(), twelve);
}

#[test]
fn calendar_reaches_the_first_and_the_last_but_one_year() {
    assert!(calendar(MIN_YEAR, 3).is_some());
    assert!(calendar(MAX_YEAR - 1, 3).is_some());
    assert!(calendar(0, 4).is_some());
    assert!(calendar(-1, 4).is_some());
}

#[test]
fn collect_string_writes_the_parts_one_after_the_other() {
    let parts = vec![String::from("ab"), String::from(""), String::from("c")];
    assert_eq!(collect_string(Buffered::from_vec(parts)), "abc");
    assert_eq!(collect_string(Buffered::from_vec(Vec::new())), "");
}

fn month_of(name: &str) -> Buffered<String> {
    Buffered::from_vec((0..7).map(|line| format!("{}{}", name, line)).collect())
}

#[test]
fn arrange_lays_the_lines_of_a_row_side_by_side() {
    let months = vec![month_of("a"), month_of("b"), month_of("c")];
    assert_eq!(arrange(months, 2),
               "a0b0\na1b1\na2b2\na3b3\na4b4\na5b5\na6b6\nc0\nc1\nc2\nc3\nc4\nc5\nc6");
}

#[test]
fn arrange_in_one_column_or_in_one_row() {
    let months = vec![month_of("a"), month_of("b")];
    assert_eq!(arrange(months, 1),
               "a0\na1\na2\na3\na4\na5\na6\nb0\nb1\nb2\nb3\nb4\nb5\nb6");
    let months = vec![month_of("a"), month_of("b")];
    assert_eq!(arrange(months, 5), "a0b0\na1b1\na2b2\na3b3\na4b4\na5b5\na6b6");
}

#[test]
fn arrange_of_no_month_is_the_empty_text() {
    assert_eq!(arrange(Vec::new(), 3), "");
}
