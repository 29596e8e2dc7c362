use aoc22::day13::{day13, make_divider};
use aoc22::order::{cmp_values, Cmp};
use aoc22::parse::{parse_value, ParseError};
use aoc22::render::render_value;
use aoc22::sorting::sort_values;
use aoc22::value::{values_eq, Value};

const EXAMPLE: &str = "[1,1,3,1,1]\n[1,1,5,1,1]\n\n[[1],[2,3,4]]\n[[1],4]\n\n[9]\n[[8,7,6]]\n\n[[4,4],4,4]\n[[4,4],4,4,4]\n\n[7,7,7,7]\n[7,7,7]\n\n[]\n[3]\n\n[[[]]]\n[[]]\n\n[1,[2,[3,[4,[5,6,7]]]]]\n[1,[2,[3,[4,[5,6,0]]]]]\n";

#[test]
fn example_signals() {
    assert_eq!(day13(EXAMPLE).unwrap(), (13, 140));
}

#[test]
fn malformed_line_fails() {
    assert_eq!(day13("[1,x,3]\n[1,2,3]\n"), Err(ParseError::InvalidNumber));
}

#[test]
fn oversized_number_fails() {
    assert_eq!(day13("[4294967296]\n"), Err(ParseError::InvalidNumber));
    assert_eq!(day13("[4294967295]\n[]\n").unwrap(), (0, 6));
}

#[test]
fn round_trip_rendering() {
    let texts: [&[u8]; 5] = [b"[1,[2,[]],10]", b"[]", b"0", b"[[[]]]", b"[1,1,3,1,1]"];
    for t in texts {
        let v = parse_value(t).unwrap();
        assert_eq!(render_value(&v), t.to_vec());
    }
}

#[test]
fn promotion_compares_like_singleton() {
    let n = parse_value(b"5").unwrap();
    let sn = parse_value(b"[5]").unwrap();
    let l = parse_value(b"[4,9]").unwrap();
    assert_eq!(cmp_values(&n, &l), cmp_values(&sn, &l));
    let eq = parse_value(b"[5]").unwrap();
    assert_eq!(cmp_values(&n, &eq), Cmp::Eq);
}

#[test]
fn empty_list_sorts_first() {
    let empty = parse_value(b"[]").unwrap();
    let one = parse_value(b"[3]").unwrap();
    let empty2 = parse_value(b"[]").unwrap();
    assert_eq!(cmp_values(&empty, &one), Cmp::Lt);
    assert_eq!(cmp_values(&one, &empty), Cmp::Gt);
    assert_eq!(cmp_values(&empty, &empty2), Cmp::Eq);
}

#[test]
fn order_is_antisymmetric_on_examples() {
    let a = parse_value(b"[1,[2,[3]]]").unwrap();
    let b = parse_value(b"[1,2,4]").unwrap();
    let ab = cmp_values(&a, &b);
    let ba = cmp_values(&b, &a);
    assert_eq!(ab, Cmp::Gt);
    assert_eq!(ba, Cmp::Lt);
}

fn parse_lines(lines: &[&[u8]]) -> Vec<Value> {
    lines.iter().map(|t| parse_value(t).unwrap()).collect()
}

fn rendered(vs: &[Value]) -> Vec<Vec<u8>> {
    vs.iter().map(render_value).collect()
}

#[test]
fn sorting_is_idempotent_on_example() {
    let lines: [&[u8]; 5] = [b"[3]", b"[]", b"9", b"[[2],1]", b"[1,1]"];
    let once = sort_values(parse_lines(&lines));
    let twice = sort_values(parse_lines(&lines));
    let twice = sort_values(twice);
    assert_eq!(rendered(&once), rendered(&twice));
}

#[test]
fn dividers_match_parsed_literals() {
    let d2 = make_divider(2);
    let d6 = make_divider(6);
    assert!(values_eq(&d2, &parse_value(b"[[2]]").unwrap()));
    assert!(values_eq(&d6, &parse_value(b"[[6]]").unwrap()));
    assert!(!values_eq(&d2, &d6));
}

#[test]
fn blank_lines_are_skipped() {
    assert_eq!(day13("\n\n[]\n\n[1]\n\n").unwrap(), (1, 12));
}

#[test]
fn duplicate_of_a_sentinel_takes_the_first_position() {
    // an input value equal to `[[2]]` sorts next to the inserted sentinel;
    // the reported position is the first structural match
    assert_eq!(day13("[[2]]\n[]\n").unwrap(), (0, 8));
}
