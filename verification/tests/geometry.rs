use steadyum::geometry::{is_point_bounded, Aabb, MAX_COORDINATE};
use steadyum::text::{chars_of, find_sep, push_i64, push_u64, read_i64, read_i64_field, read_u64};

fn aabb(mins: [i64; 3], maxs: [i64; 3]) -> Aabb {
    Aabb::new(mins, maxs)
}

#[test]
fn a_box_holds_what_lies_within_its_borders() {
    let b = aabb([0, 0, 0], [10, 10, 10]);
    assert!(b.contains(&b));
    assert!(b.contains(&aabb([0, 5, 5], [10, 6, 6])));
    assert!(!b.contains(&aabb([-1, 5, 5], [10, 6, 6])));
    assert!(!b.contains(&aabb([0, 5, 5], [10, 6, 11])));
    assert!(b.contains_local_point(&[0, 10, 5]));
    assert!(!b.contains_local_point(&[0, 11, 5]));
    assert!(!b.contains_local_point(&[-1, 0, 0]));
}

#[test]
fn boxes_that_share_a_border_intersect() {
    let b = aabb([0, 0, 0], [10, 10, 10]);
    assert!(b.intersects(&aabb([10, 10, 10], [20, 20, 20])));
    assert!(b.intersects(&aabb([-5, -5, -5], [0, 0, 0])));
    assert!(b.intersects(&aabb([2, 2, 2], [3, 3, 3])));
    assert!(!b.intersects(&aabb([11, 0, 0], [20, 10, 10])));
    assert!(!b.intersects(&aabb([0, 0, -20], [10, 10, -1])));
    assert!(aabb([2, 2, 2], [3, 3, 3]).intersects(&b));
}

#[test]
fn merging_takes_the_hull() {
    let a = aabb([0, 5, -3], [10, 6, 0]);
    let b = aabb([-2, 7, -1], [4, 9, 8]);
    assert_eq!(a.merged(&b), aabb([-2, 5, -3], [10, 9, 8]));
    assert_eq!(b.merged(&a), a.merged(&b));
    let mut c = a;
    c.merge(&b);
    assert_eq!(c, a.merged(&b));
}

#[test]
fn the_box_that_holds_nothing_merges_to_the_other() {
    let nothing = Aabb::new_invalid();
    assert_eq!(nothing.mins, [i64::MAX; 3]);
    assert_eq!(nothing.maxs, [i64::MIN; 3]);
    let a = aabb([0, 5, -3], [10, 6, 0]);
    assert_eq!(nothing.merged(&a), a);
    assert_eq!(a.merged(&nothing), a);
    assert!(!nothing.intersects(&a));
}

#[test]
fn the_range_of_coordinates() {
    assert_eq!(MAX_COORDINATE, 1 << 60);
    assert!(is_point_bounded(&[MAX_COORDINATE, -MAX_COORDINATE, 0]));
    assert!(!is_point_bounded(&[MAX_COORDINATE + 1, 0, 0]));
    assert!(!is_point_bounded(&[0, 0, -MAX_COORDINATE - 1]));
    assert!(aabb([0, 0, 0], [MAX_COORDINATE, 1, 1]).is_bounded());
    assert!(!aabb([i64::MIN, 0, 0], [0, 1, 1]).is_bounded());
    assert!(!Aabb::new_invalid().is_bounded());
}

#[test]
fn numbers_are_written_in_decimal() {
    for n in [0i64, 7, -7, 10, -10, 99, 100, 12345, i64::MAX, i64::MIN, i64::MIN + 1] {
        let mut out = String::from("x");
        push_i64(&mut out, n);
        assert_eq!(out, format!("x{}", n));
    }
    for n in [0u64, 9, 10, 65535, u64::MAX] {
        let mut out = String::new();
        push_u64(&mut out, n);
        assert_eq!(out, format!("{}", n));
    }
}

#[test]
fn numbers_are_read_as_the_standard_library_reads_them() {
    let texts = [
        "0", "-0", "+0", "5", "-5", "+5", "0005", "-0005", "9223372036854775807",
        "9223372036854775808", "-9223372036854775808", "-9223372036854775809",
        "18446744073709551615", "18446744073709551616", "340282366920938463463374607431768211456",
        "", "-", "+", "++1", "1+", "12a", "a12", " 1", "1 ", "1_000", "½", "１",
    ];
    for t in texts.iter() {
        let chars = chars_of(t);
        assert_eq!(chars, t.chars().collect::<Vec<_>>());
        assert_eq!(read_i64(&chars, 0, chars.len()), t.parse::<i64>().ok(), "{:?}", t);
        assert_eq!(read_u64(&chars, 0, chars.len()), t.parse::<u64>().ok(), "{:?}", t);
    }
}

#[test]
fn a_part_of_a_text_is_read() {
    let chars = chars_of("ab-12cd");
    assert_eq!(read_i64(&chars, 2, 5), Some(-12));
    assert_eq!(read_i64(&chars, 3, 5), Some(12));
    assert_eq!(read_i64(&chars, 2, 6), None);
    assert_eq!(read_i64(&chars, 3, 3), None);
    assert_eq!(read_u64(&chars, 3, 4), Some(1));
}

#[test]
fn fields_are_found_between_separators() {
    let chars = chars_of("12_-3__x");
    assert_eq!(find_sep(&chars, 0, '_'), 2);
    assert_eq!(find_sep(&chars, 3, '_'), 5);
    assert_eq!(find_sep(&chars, 6, '_'), 6);
    assert_eq!(find_sep(&chars, 7, '_'), 8);
    assert_eq!(find_sep(&chars, 8, '_'), 8);
    assert_eq!(read_i64_field(&chars, 0, '_'), (Some(12), Some(3)));
    assert_eq!(read_i64_field(&chars, 3, '_'), (Some(-3), Some(6)));
    assert_eq!(read_i64_field(&chars, 6, '_'), (None, Some(7)));
    assert_eq!(read_i64_field(&chars, 7, '_'), (None, None));
}
