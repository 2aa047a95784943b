use y2025::q05::assemble::{assemble, place_value};
use y2025::q05::bone::Bone;
use y2025::q05::digits::{checked_fold_concat, fold_concat};
use y2025::q05::parse::{parse, parse_record};
use y2025::q05::rank::{can_rank, rank, rank_order, Report, SwordError};
use y2025::q05::sword::Sword;
use std::cmp::Ordering;

fn sword(record: &str) -> Sword {
    Sword::from_str(record).expect("a well-formed record")
}

#[test]
fn fold_concat_writes_numbers_one_after_the_other() {
    assert_eq!(fold_concat(&[12, 7]), 127);
    assert_eq!(fold_concat(&[1, 3, 9]), 139);
    assert_eq!(fold_concat(&[5]), 5);
    assert_eq!(fold_concat(&[]), 0);
    assert_eq!(fold_concat(&[10, 2]), 102);
    assert_eq!(fold_concat(&[999, 1000]), 9991000);
}

#[test]
fn fold_concat_counts_zero_as_one_digit() {
    assert_eq!(fold_concat(&[1, 0]), 10);
    assert_eq!(fold_concat(&[0, 5]), 5);
    assert_eq!(fold_concat(&[7, 0, 3]), 703);
}

#[test]
fn checked_fold_concat_reaches_the_largest_value() {
    assert_eq!(checked_fold_concat(&[i64::MAX]), Some(i64::MAX));
    assert_eq!(checked_fold_concat(&[922337203685477580, 7]), Some(i64::MAX));
    assert_eq!(checked_fold_concat(&[0, i64::MAX]), Some(i64::MAX));
}

#[test]
fn checked_fold_concat_refuses_what_does_not_fit() {
    assert_eq!(checked_fold_concat(&[922337203685477580, 8]), None);
    assert_eq!(checked_fold_concat(&[1, i64::MAX]), None);
    assert_eq!(checked_fold_concat(&[5; 20]), None);
    assert_eq!(checked_fold_concat(&[5; 18]), Some(555_555_555_555_555_555));
}

#[test]
fn checked_fold_concat_refuses_negative_numbers() {
    assert_eq!(checked_fold_concat(&[-1]), None);
    assert_eq!(checked_fold_concat(&[3, -4, 5]), None);
    assert_eq!(checked_fold_concat(&[3, 4, i64::MIN]), None);
}

#[test]
fn start_takes_a_smaller_number_on_the_left() {
    assert_eq!(Bone::Start(10).next(2), Some(Bone::Left(2, 10)));
}

#[test]
fn start_takes_a_larger_number_on_the_right() {
    assert_eq!(Bone::Start(3).next(9), Some(Bone::Right(3, 9)));
}

#[test]
fn start_refuses_its_own_number() {
    assert_eq!(Bone::Start(3).next(3), None);
}

#[test]
fn left_takes_only_a_larger_number() {
    assert_eq!(Bone::Left(2, 10).next(99), Some(Bone::Full(2, 10, 99)));
    assert_eq!(Bone::Left(2, 10).next(10), None);
    assert_eq!(Bone::Left(2, 10).next(2), None);
    assert_eq!(Bone::Left(2, 10).next(1), None);
    assert_eq!(Bone::Left(2, 10).next(5), None);
}

#[test]
fn right_takes_only_a_smaller_number() {
    assert_eq!(Bone::Right(3, 9).next(1), Some(Bone::Full(1, 3, 9)));
    assert_eq!(Bone::Right(3, 9).next(3), None);
    assert_eq!(Bone::Right(3, 9).next(9), None);
    assert_eq!(Bone::Right(3, 9).next(10), None);
    assert_eq!(Bone::Right(3, 9).next(5), None);
}

#[test]
fn full_takes_nothing() {
    for n in [i64::MIN, -1, 0, 1, 2, 3, 4, 9, 10, i64::MAX] {
        assert_eq!(Bone::Full(1, 3, 9).next(n), None);
    }
}

#[test]
fn next_works_on_negative_numbers() {
    assert_eq!(Bone::Start(0).next(-5), Some(Bone::Left(-5, 0)));
    assert_eq!(Bone::Left(-5, 0).next(i64::MAX), Some(Bone::Full(-5, 0, i64::MAX)));
    assert_eq!(Bone::Right(-5, 0).next(i64::MIN), Some(Bone::Full(i64::MIN, -5, 0)));
}

#[test]
fn spine_is_the_number_the_bone_started_with() {
    assert_eq!(Bone::Start(4).spine(), 4);
    assert_eq!(Bone::Left(2, 10).spine(), 10);
    assert_eq!(Bone::Right(3, 9).spine(), 3);
    assert_eq!(Bone::Full(1, 3, 9).spine(), 3);
}

#[test]
fn level_writes_all_numbers_of_the_bone() {
    assert_eq!(Bone::Start(4).level(), 4);
    assert_eq!(Bone::Left(2, 10).level(), 210);
    assert_eq!(Bone::Right(3, 9).level(), 39);
    assert_eq!(Bone::Full(1, 3, 9).level(), 139);
    assert_eq!(Bone::Full(12, 345, 6789).level(), 123456789);
}

#[test]
fn checked_level_tells_when_the_level_does_not_fit() {
    assert_eq!(Bone::Full(1, 3, 9).checked_level(), Some(139));
    assert_eq!(Bone::Full(-1, 3, 9).checked_level(), None);
    assert_eq!(
        Bone::Full(1_000_000_000, 2_000_000_000, 3_000_000_000).checked_level(),
        None
    );
    assert_eq!(Bone::Left(1, i64::MAX).checked_level(), None);
    assert_eq!(Bone::Start(i64::MAX).checked_level(), Some(i64::MAX));
}

#[test]
fn bones_compare_by_level() {
    assert_eq!(Bone::Left(1, 2).cmp(&Bone::Right(1, 2)), Ordering::Equal);
    assert_eq!(Bone::Start(12).cmp(&Bone::Left(1, 2)), Ordering::Equal);
    assert_eq!(Bone::Start(9).cmp(&Bone::Left(1, 0)), Ordering::Less);
    assert_eq!(Bone::Full(1, 2, 3).cmp(&Bone::Right(9, 10)), Ordering::Less);
    assert_eq!(Bone::Full(1, 2, 4).cmp(&Bone::Full(1, 2, 3)), Ordering::Greater);
}

#[test]
fn three_numbers_fill_one_bone() {
    let s = sword("5:3,9,1");
    assert_eq!(s, Sword(5, vec![Bone::Full(1, 3, 9)]));
    assert_eq!(s.quality(), 3);
}

#[test]
fn a_refused_number_starts_a_new_bone() {
    let s = sword("7:10,2,2,99");
    assert_eq!(s, Sword(7, vec![Bone::Full(2, 10, 99), Bone::Start(2)]));
    assert_eq!(s.quality(), 102);
}

#[test]
fn a_longer_fishbone() {
    let s = sword("58:5,3,7,8,9,10,4,5,7,8,8");
    assert_eq!(
        s.1,
        vec![
            Bone::Full(3, 5, 7),
            Bone::Full(4, 8, 9),
            Bone::Left(5, 10),
            Bone::Right(7, 8),
            Bone::Start(8),
        ]
    );
    assert_eq!(s.quality(), 581078);
}

#[test]
fn a_single_number_gives_a_single_start() {
    assert_eq!(assemble(&[42]), vec![Bone::Start(42)]);
    assert_eq!(sword("1:42"), Sword(1, vec![Bone::Start(42)]));
}

#[test]
fn no_numbers_give_no_bones() {
    assert_eq!(assemble(&[]), Vec::<Bone>::new());
}

#[test]
fn equal_numbers_each_start_a_bone() {
    assert_eq!(
        assemble(&[4, 4, 4]),
        vec![Bone::Start(4), Bone::Start(4), Bone::Start(4)]
    );
}

#[test]
fn the_first_bone_that_takes_a_number_gets_it() {
    // both bones would take 1; only the first does
    assert_eq!(
        assemble(&[5, 5, 1]),
        vec![Bone::Left(1, 5), Bone::Start(5)]
    );
    assert_eq!(
        assemble(&[5, 5, 1, 1]),
        vec![Bone::Left(1, 5), Bone::Left(1, 5)]
    );
}

#[test]
fn place_value_changes_one_bone_in_place() {
    let mut fishbone = vec![Bone::Full(1, 2, 3), Bone::Left(4, 6), Bone::Start(5)];
    place_value(&mut fishbone, 7);
    assert_eq!(
        fishbone,
        vec![Bone::Full(1, 2, 3), Bone::Full(4, 6, 7), Bone::Start(5)]
    );
    place_value(&mut fishbone, 5);
    assert_eq!(
        fishbone,
        vec![
            Bone::Full(1, 2, 3),
            Bone::Full(4, 6, 7),
            Bone::Start(5),
            Bone::Start(5)
        ]
    );
}

#[test]
fn a_fishbone_has_no_more_bones_than_numbers() {
    let inputs: [&[i64]; 5] = [
        &[1],
        &[1, 1, 1, 1],
        &[3, 9, 1],
        &[5, 3, 7, 8, 9, 10, 4, 5, 7, 8, 8],
        &[-3, 0, -3, 7, 7, 2, -9],
    ];
    for values in inputs {
        let fishbone = assemble(values);
        assert!(fishbone.len() <= values.len());
        assert!(!fishbone.is_empty());
    }
}

#[test]
fn every_bone_is_strictly_increasing() {
    let fishbone = assemble(&[5, 3, 7, 8, 9, 10, 4, 5, 7, 8, 8, -2, 11, 11, 0]);
    for bone in fishbone {
        match bone {
            Bone::Start(_) => {}
            Bone::Left(lo, hi) | Bone::Right(lo, hi) => assert!(lo < hi),
            Bone::Full(lo, mid, hi) => assert!(lo < mid && mid < hi),
        }
    }
}

#[test]
fn a_full_bone_is_never_changed() {
    let values = [5, 3, 7, 8, 9, 10, 4, 5, 7, 8, 8];
    for k in 0..values.len() {
        let before = assemble(&values[..k]);
        let after = assemble(&values);
        for (i, bone) in before.iter().enumerate() {
            if matches!(bone, Bone::Full(..)) {
                assert_eq!(after[i], *bone);
            }
        }
    }
}

#[test]
fn assembling_twice_gives_the_same_quality() {
    let values = [5, 3, 7, 8, 9, 10, 4, 5, 7, 8, 8];
    let a = Sword(1, assemble(&values));
    let b = Sword(1, assemble(&values));
    assert_eq!(a, b);
    assert_eq!(a.quality(), b.quality());
}

#[test]
fn checked_quality_tells_when_the_quality_does_not_fit() {
    let twenty = Sword(1, assemble(&[5; 20]));
    assert_eq!(twenty.checked_quality(), None);
    assert!(!twenty.is_rankable());
    let negative = Sword(1, assemble(&[-5]));
    assert_eq!(negative.checked_quality(), None);
    let fine = sword("1:5,5,5");
    assert_eq!(fine.checked_quality(), Some(555));
    assert!(fine.is_rankable());
}

#[test]
fn a_sword_with_a_negative_side_has_a_quality_but_no_rank() {
    let s = sword("1:3,-9,4");
    assert_eq!(s.1, vec![Bone::Full(-9, 3, 4)]);
    assert_eq!(s.checked_quality(), Some(3));
    assert!(!s.is_rankable());
}

#[test]
fn checksum_is_identifier_times_rank() {
    let s = sword("7:1");
    assert_eq!(s.checksum(0), 7);
    assert_eq!(s.checksum(2), 21);
    assert_eq!(sword("-4:1").checksum(9), -40);
    assert_eq!(sword("0:1").checksum(usize::MAX), 0);
}

#[test]
fn checked_checksum_tells_when_the_share_does_not_fit() {
    let s = Sword(i64::MAX, vec![Bone::Start(1)]);
    assert_eq!(s.checked_checksum(0), Some(i64::MAX));
    assert_eq!(s.checked_checksum(1), None);
    let t = Sword(i64::MIN, vec![Bone::Start(1)]);
    assert_eq!(t.checked_checksum(0), Some(i64::MIN));
    assert_eq!(t.checked_checksum(usize::MAX), None);
    let u = Sword(-1, vec![Bone::Start(1)]);
    assert_eq!(u.checked_checksum(41), Some(-42));
}

#[test]
fn higher_quality_ranks_higher() {
    let a = sword("9:1,2");
    let b = sword("1:2,1");
    assert_eq!(a.quality(), 1);
    assert_eq!(b.quality(), 2);
    assert_eq!(a.cmp(&b), Ordering::Less);
    assert_eq!(b.cmp(&a), Ordering::Greater);
    assert!(a.ranks_below(&b));
    assert!(!b.ranks_below(&a));
}

#[test]
fn equal_qualities_are_decided_by_levels() {
    // both have quality 5; levels 35 and 57
    let a = sword("9:5,3");
    let b = sword("1:5,7");
    assert_eq!(a.quality(), b.quality());
    assert_eq!(a.cmp(&b), Ordering::Less);
    assert_eq!(b.cmp(&a), Ordering::Greater);
}

#[test]
fn levels_are_compared_position_by_position() {
    // quality 12 both; first bones level 1 and 12
    let a = Sword(9, vec![Bone::Start(1), Bone::Right(2, 3)]);
    let b = Sword(1, vec![Bone::Right(1, 2), Bone::Right(2, 3)]);
    assert_eq!(a.quality(), 12);
    assert_eq!(b.quality(), 12);
    assert_eq!(a.cmp(&b), Ordering::Less);
    // equal first levels, the second bone decides
    let c = Sword(9, vec![Bone::Start(1), Bone::Right(2, 3)]);
    let d = Sword(1, vec![Bone::Start(1), Bone::Right(2, 4)]);
    assert_eq!(c.cmp(&d), Ordering::Less);
    assert_eq!(d.cmp(&c), Ordering::Greater);
}

#[test]
fn a_fishbone_that_ends_first_ranks_lower() {
    // both have quality 0 and the same first level; the second sword has one bone more
    let short = Sword(9, vec![Bone::Start(0)]);
    let long = Sword(1, vec![Bone::Start(0), Bone::Start(0)]);
    assert_eq!(short.quality(), long.quality());
    assert_eq!(short.cmp(&long), Ordering::Less);
    assert_eq!(long.cmp(&short), Ordering::Greater);
}

#[test]
fn the_first_level_that_differs_decides_before_the_length() {
    // both have quality 7; the first levels are 7 and 0
    let short = Sword(9, vec![Bone::Start(7)]);
    let long = Sword(1, vec![Bone::Start(0), Bone::Start(7)]);
    assert_eq!(short.quality(), long.quality());
    assert_eq!(short.cmp(&long), Ordering::Greater);
    assert_eq!(long.cmp(&short), Ordering::Less);
}

#[test]
fn equal_fishbones_are_decided_by_identifier() {
    let a = sword("3:5,3,7");
    let b = sword("4:5,3,7");
    assert_eq!(a.cmp(&b), Ordering::Less);
    assert_eq!(b.cmp(&a), Ordering::Greater);
    assert_eq!(a.cmp(&sword("3:5,3,7")), Ordering::Equal);
    // the same levels from different shapes
    let c = Sword(1, vec![Bone::Start(1), Bone::Left(0, 2)]);
    let d = Sword(2, vec![Bone::Start(1), Bone::Start(2)]);
    assert_eq!(c.checked_quality(), Some(12));
    assert_eq!(c.cmp(&d), Ordering::Less);
}

#[test]
fn the_order_is_strict_and_transitive_on_samples() {
    let swords: Vec<Sword> = [
        "1:5,3,7", "2:5,3,7", "3:5,3", "4:5,7", "5:9", "6:1,1", "7:11", "8:1,0,1", "9:5",
        "1:5,3,7",
    ]
    .iter()
    .map(|r| sword(r))
    .collect();
    for a in &swords {
        assert!(!a.ranks_below(a));
        assert_eq!(a.cmp(a), Ordering::Equal);
        for b in &swords {
            assert!(!(a.ranks_below(b) && b.ranks_below(a)));
            let one_of_three = [
                a.ranks_below(b),
                b.ranks_below(a),
                a.cmp(b) == Ordering::Equal,
            ];
            assert_eq!(one_of_three.iter().filter(|x| **x).count(), 1);
            for c in &swords {
                if a.ranks_below(b) && b.ranks_below(c) {
                    assert!(a.ranks_below(c));
                }
                if a.cmp(b) == Ordering::Equal {
                    assert_eq!(a.ranks_below(c), b.ranks_below(c));
                    assert_eq!(c.ranks_below(a), c.ranks_below(b));
                }
            }
        }
    }
}

#[test]
fn rank_order_lists_the_lowest_first() {
    let swords = parse("1:2\n2:1\n3:3").unwrap();
    assert_eq!(rank_order(&swords), vec![1, 0, 2]);
}

#[test]
fn rank_order_keeps_the_input_order_of_equal_swords() {
    let swords = parse("4:7\n4:7\n1:9\n4:7").unwrap();
    assert_eq!(rank_order(&swords), vec![0, 1, 3, 2]);
    assert_eq!(rank_order(&[]), Vec::<usize>::new());
}

#[test]
fn checksum_of_three_swords() {
    let swords = parse("1:2\n2:1\n3:3").unwrap();
    assert!(can_rank(&swords));
    let report = rank(&swords).unwrap();
    assert_eq!(report.checksum, 3 * 1 + 1 * 2 + 2 * 3);
    assert_eq!(report.checksum, 11);
    assert_eq!(report.first_quality, 2);
    assert_eq!(report.quality_range, 2);
}

#[test]
fn rank_of_one_sword() {
    let swords = parse("58:5,3,7,8,9,10,4,5,7,8,8").unwrap();
    assert_eq!(
        rank(&swords),
        Ok(Report { first_quality: 581078, quality_range: 0, checksum: 58 })
    );
}

#[test]
fn rank_of_several_swords() {
    let text = "1:7,1,9,1,6,9,8,3,7,2\n2:6,1,9,2,9,8,8,4,3,1\n3:7,1,9,1,6,9,8,3,8,3\n4:6,1,9,2,8,8,8,4,3,1\n5:7,1,9,1,6,9,8,3,7,3\n6:6,1,9,2,8,8,8,4,3,5\n7:3,7,2,2,7,4,4,6,3,1\n8:3,7,2,2,7,4,4,6,3,7\n9:3,7,2,2,7,4,1,6,3,7";
    let swords = parse(text).unwrap();
    assert_eq!(swords.len(), 9);
    assert!(can_rank(&swords));
    assert_eq!(rank_order(&swords), vec![7, 6, 8, 3, 1, 0, 5, 4, 2]);
    assert_eq!(
        rank(&swords),
        Ok(Report { first_quality: 7193, quality_range: 68689, checksum: 260 })
    );
}

#[test]
fn the_checksum_does_not_depend_on_the_order_of_the_input() {
    let records = ["4:7", "1:9", "4:7", "2:9,1", "4:7", "3:1"];
    let forward: Vec<Sword> = records.iter().map(|r| sword(r)).collect();
    let backward: Vec<Sword> = records.iter().rev().map(|r| sword(r)).collect();
    let a = rank(&forward).unwrap();
    let b = rank(&backward).unwrap();
    assert_eq!(a.checksum, b.checksum);
    assert_eq!(a.quality_range, b.quality_range);
    // ascending: 3:1, 4:7, 4:7, 4:7, 1:9, 2:9,1
    assert_eq!(a.checksum, 6 * 3 + (5 + 4 + 3) * 4 + 2 * 1 + 1 * 2);
    assert_eq!(a.quality_range, 8);
    assert_eq!(a.first_quality, 7);
    assert_eq!(b.first_quality, 1);
}

#[test]
fn rank_refuses_an_empty_set() {
    assert!(can_rank(&[]));
    assert_eq!(rank(&[]), Err(SwordError::EmptyInput));
}

#[test]
fn can_rank_tells_when_a_sword_cannot_be_ranked() {
    let swords = vec![sword("1:5"), Sword(2, assemble(&[5; 20]))];
    assert!(!can_rank(&swords));
    let swords = vec![sword("1:5"), sword("2:5,-1")];
    assert!(!can_rank(&swords));
}

#[test]
fn can_rank_tells_when_the_checksum_does_not_fit() {
    let swords = vec![
        Sword(i64::MAX, vec![Bone::Start(2)]),
        Sword(1, vec![Bone::Start(1)]),
    ];
    // ranks: identifier MAX has rank 1, identifier 1 has rank 2: MAX + 2 does not fit
    assert!(!can_rank(&swords));
    let swords = vec![
        Sword(i64::MAX, vec![Bone::Start(1)]),
        Sword(1, vec![Bone::Start(2)]),
    ];
    // identifier MAX has rank 2: the share does not fit
    assert!(!can_rank(&swords));
    let swords = vec![
        Sword(i64::MAX, vec![Bone::Start(2)]),
        Sword(-1, vec![Bone::Start(1)]),
    ];
    assert!(can_rank(&swords));
    assert_eq!(rank(&swords).unwrap().checksum, i64::MAX - 2);
}

#[test]
fn a_record_needs_a_colon() {
    assert_eq!(Sword::from_str("5"), Err(SwordError::MalformedRecord));
    assert_eq!(Sword::from_str("5,3,9"), Err(SwordError::MalformedRecord));
    assert_eq!(Sword::from_str(""), Err(SwordError::MalformedRecord));
}

#[test]
fn a_record_needs_a_number_after_the_colon() {
    assert_eq!(Sword::from_str("5:"), Err(SwordError::MalformedRecord));
    assert_eq!(Sword::from_str(":"), Err(SwordError::MalformedRecord));
    assert_eq!(Sword::from_str(":3"), Err(SwordError::MalformedRecord));
}

#[test]
fn every_token_of_a_record_must_be_a_number() {
    for record in [
        "a:1", "5:a", "5:1,,2", "5:1,2,", "5:,1", "5:1:2", "5:1 ,2", " 5:1", "5:1,2 ", "5:1.0",
        "5:+", "5:-", "-:1", "5:1,2\r", "5:0x10", "5:१",
    ] {
        assert_eq!(Sword::from_str(record), Err(SwordError::MalformedRecord), "{record}");
    }
}

#[test]
fn numbers_may_have_a_sign_and_leading_zeros() {
    assert_eq!(sword("-5:+3,-9,007"), Sword(-5, vec![Bone::Full(-9, 3, 7)]));
    assert_eq!(sword("+0:-0"), Sword(0, vec![Bone::Start(0)]));
}

#[test]
fn numbers_must_be_within_i64() {
    assert_eq!(
        sword("9223372036854775807:-9223372036854775808"),
        Sword(i64::MAX, vec![Bone::Start(i64::MIN)])
    );
    assert_eq!(
        sword("1:0000000000000000000000009223372036854775807"),
        Sword(1, vec![Bone::Start(i64::MAX)])
    );
    assert_eq!(Sword::from_str("1:9223372036854775808"), Err(SwordError::MalformedRecord));
    assert_eq!(Sword::from_str("1:-9223372036854775809"), Err(SwordError::MalformedRecord));
    assert_eq!(
        Sword::from_str("99999999999999999999999999999999999999999999:1"),
        Err(SwordError::MalformedRecord)
    );
}

#[test]
fn parse_record_reads_bytes() {
    assert_eq!(parse_record(b"5:3,9,1"), Ok(Sword(5, vec![Bone::Full(1, 3, 9)])));
    assert_eq!(parse_record(b"5:3,\xff"), Err(SwordError::MalformedRecord));
}

#[test]
fn parse_reads_one_sword_per_line() {
    let swords = parse("5:3,9,1\n7:10,2,2,99").unwrap();
    assert_eq!(
        swords,
        vec![
            Sword(5, vec![Bone::Full(1, 3, 9)]),
            Sword(7, vec![Bone::Full(2, 10, 99), Bone::Start(2)]),
        ]
    );
}

#[test]
fn parse_refuses_empty_lines() {
    assert_eq!(parse(""), Err(SwordError::MalformedRecord));
    assert_eq!(parse("5:3\n"), Err(SwordError::MalformedRecord));
    assert_eq!(parse("5:3\n\n7:1"), Err(SwordError::MalformedRecord));
    assert_eq!(parse("5:3\n7"), Err(SwordError::MalformedRecord));
}

#[test]
fn numbers_are_read_as_the_standard_library_reads_them() {
    let alphabet = ['+', '-', '0', '1', '9', ' ', 'a', ',', ':'];
    let mut tokens: Vec<String> = vec![String::new()];
    let mut last: Vec<String> = vec![String::new()];
    for _ in 0..4 {
        let mut next = Vec::new();
        for t in &last {
            for c in alphabet {
                next.push(format!("{t}{c}"));
            }
        }
        tokens.extend(next.iter().cloned());
        last = next;
    }
    for digits in ["9223372036854775806", "9223372036854775807", "9223372036854775808"] {
        for sign in ["", "+", "-", "-0", "00"] {
            tokens.push(format!("{sign}{digits}"));
        }
    }
    tokens.push("-9223372036854775809".to_string());
    tokens.push("18446744073709551616".to_string());
    tokens.push("99999999999999999999999999999999999999999".to_string());
    let mut numbers = 0;
    for token in &tokens {
        let expected = match token.parse::<i64>() {
            Ok(v) => Ok(Sword(v, vec![Bone::Start(v)])),
            Err(_) => Err(SwordError::MalformedRecord),
        };
        if expected.is_ok() {
            numbers += 1;
        }
        assert_eq!(Sword::from_str(&format!("{token}:{token}")), expected, "{token:?}");
    }
    assert!(numbers > 100);
}
