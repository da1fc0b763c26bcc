use numberlink::grid::Coordinate;
use numberlink::parse::{parse_header, parse_pair_line, read_line_vec, ParseError};
use numberlink::solve::{render_board, solve, Outcome};

#[test]
fn parses_numbers_split_on_spaces() {
    let line = b"3 4 2".to_vec();
    assert_eq!(read_line_vec(&line, b' '), Ok(vec![3, 4, 2]));
}

#[test]
fn skips_repeated_delimiters() {
    let line = b"  12   7 ".to_vec();
    assert_eq!(read_line_vec(&line, b' '), Ok(vec![12, 7]));
}

#[test]
fn empty_line_has_no_fields() {
    let line = b"".to_vec();
    assert_eq!(read_line_vec(&line, b' '), Ok(vec![]));
}

#[test]
fn rejects_non_digits() {
    let line = b"3 x 2".to_vec();
    assert_eq!(read_line_vec(&line, b' '), Err(ParseError::BadNumber));
}

#[test]
fn rejects_overflowing_numbers() {
    let line = b"99999999999999999999999999".to_vec();
    assert_eq!(read_line_vec(&line, b' '), Err(ParseError::BadNumber));
}

#[test]
fn largest_value_parses() {
    let line = format!("{}", usize::MAX).into_bytes();
    assert_eq!(read_line_vec(&line, b' '), Ok(vec![usize::MAX]));
}

#[test]
fn header_needs_three_fields() {
    let good = b"2 3 1".to_vec();
    assert_eq!(parse_header(&good, b' '), Ok((2, 3, 1)));
    let short = b"2 3".to_vec();
    assert_eq!(parse_header(&short, b' '), Err(ParseError::WrongFieldCount));
    let bad = b"2 3 ?".to_vec();
    assert_eq!(parse_header(&bad, b' '), Err(ParseError::BadNumber));
}

#[test]
fn pair_line_needs_four_fields() {
    let good = b"0 0 1 2".to_vec();
    assert_eq!(parse_pair_line(&good, b' '), Ok((0, 0, 1, 2)));
    let long = b"0 0 1 2 3".to_vec();
    assert_eq!(
        parse_pair_line(&long, b' '),
        Err(ParseError::WrongFieldCount)
    );
}

#[test]
fn parsed_puzzle_solves() {
    let header = b"1 3 1".to_vec();
    let (rows, cols, n) = parse_header(&header, b' ').expect("header");
    assert_eq!(n, 1);
    let line = b"0 0 0 2".to_vec();
    let (r1, c1, r2, c2) = parse_pair_line(&line, b' ').expect("pair line");
    let pairs = vec![(Coordinate::new(r1, c1), Coordinate::new(r2, c2))];
    match solve(rows, cols, &pairs) {
        Ok(Outcome::Solved(sb)) => {
            let text = String::from_utf8(render_board(&sb.grid).expect("fits")).expect("ascii");
            assert_eq!(text, "A a A \n");
        }
        _ => panic!("expected a solution"),
    }
}

#[test]
fn concat_packs_six_digits() {
    let r = numberlink::digits::concat(vec![1, 2, 3, 4, 5, 6]);
    assert_eq!(r, vec![123, 45, 6]);
}

#[test]
fn concat_keeps_leading_zeros_positional() {
    let r = numberlink::digits::concat(vec![0, 1, 2, 0, 3, 9]);
    assert_eq!(r, vec![12, 3, 9]);
}
