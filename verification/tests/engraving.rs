use y2025::q02::{p1, p2, parse, Complex, P1_DIV, P2_DIV, P2_STEP};

fn c(re: i64, im: i64) -> Complex {
    Complex { re, im }
}

#[test]
fn parse_reads_both_parts() {
    assert_eq!(parse("A=[25,9]"), Some(c(25, 9)));
    assert_eq!(parse("A=[35300,-64910]"), Some(c(35300, -64910)));
    assert_eq!(parse("A=[-0,007]"), Some(c(0, 7)));
    assert_eq!(
        parse("A=[-9223372036854775808,9223372036854775807]"),
        Some(c(i64::MIN, i64::MAX))
    );
}

#[test]
fn parse_takes_any_number_of_opening_brackets() {
    assert_eq!(parse("A=25,9]"), Some(c(25, 9)));
    assert_eq!(parse("A=[[[25,9]"), Some(c(25, 9)));
}

#[test]
fn parse_refuses_other_texts() {
    for text in [
        "", "A", "A=", "A=]", "A=[]", "A=[,]", "A=[1,]", "A=[,1]", "A=[1]", "B=[1,2]", "a=[1,2]",
        "A=[1,2", "A=[1,2]]", "A=[1,2] ", " A=[1,2]", "A=[1,2]\n", "A=[+1,2]", "A=[1,+2]",
        "A=[1,2,3]", "A=[1, 2]", "A=[1.0,2]", "A=[1,[2]", "A=[--1,2]", "A=[1,-]", "A= [1,2]",
        "A=[9223372036854775808,1]", "A=[1,-9223372036854775809]", "A=[१,2]",
    ] {
        assert_eq!(parse(text), None, "{text:?}");
    }
}

#[test]
fn p1_runs_the_cycles() {
    assert_eq!(p1(c(25, 9), 0, P1_DIV), Some(c(0, 0)));
    assert_eq!(p1(c(25, 9), 1, P1_DIV), Some(c(25, 9)));
    assert_eq!(p1(c(25, 9), 2, P1_DIV), Some(c(79, 54)));
    assert_eq!(p1(c(25, 9), 3, P1_DIV), Some(c(357, 862)));
}

#[test]
fn p1_divides_towards_zero() {
    assert_eq!(p1(c(-3, 4), 2, 10), Some(c(-3, 2)));
    assert_eq!(p1(c(-3, 4), 2, -10), Some(c(-3, 6)));
    assert_eq!(p1(c(-7, 7), 2, 2), Some(c(-7, -42)));
}

#[test]
fn p1_stops_when_a_part_leaves_the_limit() {
    assert_eq!(p1(c(1_000_000, 0), 1, P1_DIV), Some(c(1_000_000, 0)));
    assert_eq!(p1(c(1_000_001, 0), 1, P1_DIV), None);
    assert_eq!(p1(c(1_000_001, 0), 0, P1_DIV), Some(c(0, 0)));
    assert_eq!(p1(c(0, -1_000_001), 1, P1_DIV), None);
    assert_eq!(p1(c(-1_000_000, -1_000_000), 1, P1_DIV), Some(c(-1_000_000, -1_000_000)));
    assert_eq!(p1(c(1_000_000, 0), 2, P1_DIV), None);
    assert_eq!(p1(c(1_000_000, 0), 50, P1_DIV), None);
    assert_eq!(p1(c(i64::MAX, i64::MIN), 5, 1), None);
    assert_eq!(p1(c(i64::MIN, 0), 1, -1), None);
}

#[test]
fn p2_counts_the_points_of_the_grid() {
    assert_eq!(p2(c(35300, -64910), P2_STEP), 4076);
    assert_eq!(p2(c(35300, -64910), 100), 40);
    assert_eq!(p2(c(35300, -64910), 7), 8294);
}

#[test]
fn p2_with_a_long_step_looks_at_the_first_point_only() {
    assert_eq!(p2(c(35300, -64910), 1001), 0);
    assert_eq!(p2(c(0, 0), 1001), 1);
    assert_eq!(p2(c(0, 0), usize::MAX), 1);
    assert_eq!(p2(c(0, 0), 1000), 4);
    assert_eq!(P2_DIV, 100_000);
}

fn by_pattern(pattern: &regex::Regex, text: &str) -> Option<Complex> {
    let caps = pattern.captures(text)?;
    let re = caps.name("real")?.as_str().parse::<i64>().ok()?;
    let im = caps.name("imag")?.as_str().parse::<i64>().ok()?;
    Some(c(re, im))
}

#[test]
fn parse_agrees_with_the_pattern() {
    let pattern =
        regex::Regex::new(r"^A=\[*(?<real>-?[[:digit:]]+),(?<imag>-?[[:digit:]]+)\]$").unwrap();
    let heads = ["A=", "A", "=", "B=", "a=", "", " A=", "AA=", "A=="];
    let opens = ["", "[", "[[", "[ ", "]", "[-["];
    let numbers = [
        "0", "-0", "12", "-12", "+1", "", "-", "--1", "1-", "1 ", "007", "1a", "٣", "１",
        "9223372036854775807", "9223372036854775808", "-9223372036854775808",
        "-9223372036854775809",
    ];
    let commas = [",", "", ",,", ";", ", "];
    let tails = ["]", "", "]]", "] ", "]\n", "\n]", "["];
    let mut accepted = 0;
    for head in heads {
        for open in opens {
            for real in numbers {
                for comma in commas {
                    for imag in numbers {
                        for tail in tails {
                            let text = format!("{head}{open}{real}{comma}{imag}{tail}");
                            let expected = by_pattern(&pattern, &text);
                            assert_eq!(parse(&text), expected, "{text:?}");
                            if expected.is_some() {
                                accepted += 1;
                            }
                        }
                    }
                }
            }
        }
    }
    assert!(accepted > 100);
}
