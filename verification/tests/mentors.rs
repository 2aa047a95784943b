use y2025::q06::{is_knight, is_novice, p1, p3, LIM, REPEAT};

#[test]
fn knights_are_capital_letters() {
    assert_eq!(is_knight(&b'A'), Some(0));
    assert_eq!(is_knight(&b'B'), Some(1));
    assert_eq!(is_knight(&b'C'), Some(2));
    for b in [b'D', b'@', b'a', b'b', b'c', b'0', 0, 255] {
        assert_eq!(is_knight(&b), None);
    }
}

#[test]
fn novices_are_small_letters() {
    assert_eq!(is_novice(&b'a'), Some(0));
    assert_eq!(is_novice(&b'b'), Some(1));
    assert_eq!(is_novice(&b'c'), Some(2));
    for b in [b'd', b'`', b'A', b'B', b'C', b'0', 0, 255] {
        assert_eq!(is_novice(&b), None);
    }
}

#[test]
fn p1_counts_the_pairs_of_each_kind() {
    assert_eq!(p1(b"ABabACacBCbca"), [5, 3, 3]);
    assert_eq!(p1(b""), [0, 0, 0]);
    assert_eq!(p1(b"aA"), [0, 0, 0]);
    assert_eq!(p1(b"Aa"), [1, 0, 0]);
    assert_eq!(p1(b"AAaa"), [4, 0, 0]);
    assert_eq!(p1(b"AbBb-Cc?c"), [0, 1, 2]);
}

#[test]
fn p3_counts_over_the_repeated_row() {
    assert_eq!(LIM, 1000);
    assert_eq!(REPEAT, 1000);
    assert_eq!(p3(b"AABCBABCABCabcabcABCCBAACBCa"), 3442321);
}

#[test]
fn p3_on_short_rows() {
    assert_eq!(p3(b""), 0);
    assert_eq!(p3(b"a"), 0);
    assert_eq!(p3(b"A"), 0);
    assert_eq!(p3(b"Aa"), 750_000);
    assert_eq!(p3(b"aA"), 750_000);
    assert_eq!(p3(b"Ab"), 0);
}
