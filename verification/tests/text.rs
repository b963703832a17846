use calendar::text::blank;
use calendar::text::center;
use calendar::text::render_decimal;
use calendar::text::render_signed;
use calendar::text::right_align;

#[test]
fn render_decimal_writes_the_digits() {
    assert_eq!(render_decimal(0), "0");
    assert_eq!(render_decimal(9), "9");
    assert_eq!(render_decimal(10), "10");
    assert_eq!(render_decimal(1234567890), "1234567890");
    assert_eq!(render_decimal(u128::MAX), "340282366920938463463374607431768211455");
    for value in 0..2000u128 {
        assert_eq!(render_decimal(value), value.to_string());
    }
}

#[test]
fn render_signed_puts_a_minus_before_a_negative_number() {
    assert_eq!(render_signed(0), "0");
    assert_eq!(render_signed(-1), "-1");
    assert_eq!(render_signed(42), "42");
    assert_eq!(render_signed(i128::MIN), "-170141183460469231731687303715884105728");
    assert_eq!(render_signed(i128::MAX), "170141183460469231731687303715884105727");
    for value in -500..500i128 {
        assert_eq!(render_signed(value), value.to_string());
    }
}

#[test]
fn right_align_pads_on_the_left() {
    assert_eq!(right_align("1", 3), "  1");
    assert_eq!(right_align("11", 3), " 11");
    assert_eq!(right_align("111", 3), "111");
    assert_eq!(right_align("1111", 3), "1111");
    assert_eq!(right_align("", 0), "");
    assert_eq!(right_align("", 2), "  ");
    assert_eq!(right_align("\u{e9}t\u{e9}", 5), "  \u{e9}t\u{e9}");
    for width in 0..8 {
        assert_eq!(right_align("abc", width), format!("{: >1$}", "abc", width));
    }
}

#[test]
fn center_pads_on_both_sides_and_puts_the_odd_space_last() {
    assert_eq!(center("May", 22), "         May          ");
    assert_eq!(center("June", 22), "         June         ");
    assert_eq!(center("ab", 3), "ab ");
    assert_eq!(center("ab", 2), "ab");
    assert_eq!(center("abc", 2), "abc");
    assert_eq!(center("", 3), "   ");
    assert_eq!(center("\u{e9}", 4), " \u{e9}  ");
    for width in 0..9 {
        assert_eq!(center("abc", width), format!("{: ^1$}", "abc", width));
    }
}

#[test]
fn alignment_takes_a_width_of_more_than_sixteen_bits() {
    let wide = center("x", 70000);
    assert_eq!(wide.chars().count(), 70000);
    assert_eq!(wide.find('x'), Some(34999));
    let right = right_align("x", 65536);
    assert_eq!(right.chars().count(), 65536);
    assert!(right.ends_with('x'));
    assert_eq!(blank(65536).len(), 65536);
}
