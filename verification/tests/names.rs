use y2025::q01::{p1, p2, p3, parse};

const NOTES: &str = "Vyrdax,Drakzyph,Fyrryn,Elarzris\n\nR3,L2,R3,L1";

#[test]
fn parse_reads_names_and_moves() {
    let (names, moves) = parse(NOTES).unwrap();
    assert_eq!(names, vec!["Vyrdax", "Drakzyph", "Fyrryn", "Elarzris"]);
    assert_eq!(moves, vec![3, -2, 3, -1]);
}

#[test]
fn parse_takes_signs_after_the_letter() {
    let (names, moves) = parse("a\n\nR-5,L-5,R+5,L+5,R0,L0,R007").unwrap();
    assert_eq!(names, vec!["a"]);
    assert_eq!(moves, vec![-5, 5, 5, -5, 0, 0, 7]);
}

#[test]
fn parse_keeps_empty_names_and_other_alphabets() {
    let (names, moves) = parse(",Ünï,,名前,\n\nL1").unwrap();
    assert_eq!(names, vec!["", "Ünï", "", "名前", ""]);
    assert_eq!(moves, vec![-1]);
    let (names, _) = parse("\n\nL1").unwrap();
    assert_eq!(names, vec![""]);
}

#[test]
fn parse_splits_at_the_first_empty_line() {
    assert_eq!(parse("a,b\n\n\nR1"), None);
    let (names, moves) = parse("a\nb,c\n\nR1").unwrap();
    assert_eq!(names, vec!["a\nb", "c"]);
    assert_eq!(moves, vec![1]);
    assert_eq!(parse("a\n\nR1\n\nR2"), None);
}

#[test]
fn parse_needs_an_empty_line() {
    assert_eq!(parse("a,b"), None);
    assert_eq!(parse("a,b\nR1"), None);
    assert_eq!(parse(""), None);
    assert_eq!(parse("\n"), None);
}

#[test]
fn parse_refuses_what_is_no_move() {
    for moves in ["", "R", "L", "3", "X3", "R3,", ",R3", "R3,,L2", "r3", "R3 ", " R3", "R3\n", "R1.5", "RR1"] {
        let text = format!("a,b\n\n{moves}");
        assert_eq!(parse(&text), None, "{moves:?}");
    }
}

#[test]
fn parse_refuses_moves_beyond_isize() {
    let max = isize::MAX;
    let min = isize::MIN;
    let (_, moves) = parse(&format!("a\n\nR{max},L{max},R{min}")).unwrap();
    assert_eq!(moves, vec![isize::MAX, -isize::MAX, isize::MIN]);
    assert_eq!(parse(&format!("a\n\nL{min}")), None);
    assert_eq!(parse("a\n\nR99999999999999999999999999"), None);
}

#[test]
fn p1_stops_at_the_ends() {
    let (names, moves) = parse(NOTES).unwrap();
    assert_eq!(p1(&names, &moves), "Fyrryn");
    assert_eq!(p1(&names, &[]), "Vyrdax");
    assert_eq!(p1(&names, &[-1]), "Vyrdax");
    assert_eq!(p1(&names, &[100]), "Elarzris");
    assert_eq!(p1(&names, &[isize::MAX, isize::MAX, -1]), "Fyrryn");
    assert_eq!(p1(&names, &[isize::MIN, 1]), "Drakzyph");
    assert_eq!(p1(&["only"], &[5, -7, 2]), "only");
}

#[test]
fn p2_goes_round_the_circle() {
    let (names, moves) = parse(NOTES).unwrap();
    assert_eq!(p2(&names, &moves), "Elarzris");
    assert_eq!(p2(&names, &[]), "Vyrdax");
    assert_eq!(p2(&names, &[-1]), "Elarzris");
    assert_eq!(p2(&names, &[4]), "Vyrdax");
    assert_eq!(p2(&names, &[-9]), "Elarzris");
    assert_eq!(p2(&names, &[isize::MAX, isize::MAX]), "Fyrryn");
    assert_eq!(p2(&names, &[isize::MIN]), "Vyrdax");
    assert_eq!(p2(&["only"], &[5, -7, 2]), "only");
}

#[test]
fn p3_exchanges_with_the_first_name() {
    let (names, moves) = parse("Vyrdax,Drakzyph,Fyrryn,Elarzris\n\nR3,L2,R3,L3").unwrap();
    assert_eq!(p3(names.clone(), &moves), "Drakzyph");
    assert_eq!(p3(names.clone(), &[]), "Vyrdax");
    assert_eq!(p3(names.clone(), &[4]), "Vyrdax");
    assert_eq!(p3(names.clone(), &[-1]), "Elarzris");
    assert_eq!(p3(names.clone(), &[1, 2]), "Fyrryn");
    assert_eq!(p3(names, &[1, 2, 1]), "Vyrdax");
    assert_eq!(p3(vec!["only"], &[5, -7, 2]), "only");
}
