use sudoku::grid::Grid;
use sudoku::parse::{parse_board, ParseError};
use sudoku::render::render_board;

fn text_bytes(s: &str) -> Vec<u8> {
    s.as_bytes().to_vec()
}

fn nine_simple_lines() -> String {
    let mut out = String::new();
    for i in 0..9 {
        if i > 0 {
            out.push('\n');
        }
        out.push_str("0,1,2,3,4,5,6,7,8");
    }
    out
}

#[test]
fn parse_reads_valid_text() {
    let text = text_bytes(&nine_simple_lines());
    let g = parse_board(&text).unwrap();
    for r in 0..9usize {
        for c in 0..9usize {
            assert_eq!(g.get(r, c), c as u8);
        }
    }
}

#[test]
fn parse_accepts_trailing_newline_and_crlf() {
    let with_newline = text_bytes(&(nine_simple_lines() + "\n"));
    let g = parse_board(&with_newline).unwrap();
    assert_eq!(g.get(4, 7), 7);
    let crlf = text_bytes(&(nine_simple_lines().replace('\n', "\r\n")));
    let g2 = parse_board(&crlf).unwrap();
    assert_eq!(g2.get(4, 7), 7);
}

#[test]
fn parse_accepts_leading_zero_token() {
    let mut lines = nine_simple_lines();
    lines = lines.replacen("0,1,2", "05,1,2", 1);
    let g = parse_board(&text_bytes(&lines)).unwrap();
    assert_eq!(g.get(0, 0), 5);
}

#[test]
fn parse_rejects_eight_lines() {
    let mut out = String::new();
    for i in 0..8 {
        if i > 0 {
            out.push('\n');
        }
        out.push_str("0,1,2,3,4,5,6,7,8");
    }
    match parse_board(&text_bytes(&out)) {
        Err(ParseError::WrongLineCount { found }) => assert_eq!(found, 8),
        _ => panic!("expected a wrong line count error"),
    }
}

#[test]
fn parse_rejects_illegal_token_naming_it() {
    let mut out = String::from("a,2,3,4,5,6,7,8,9");
    for _ in 0..8 {
        out.push('\n');
        out.push_str("0,1,2,3,4,5,6,7,8");
    }
    match parse_board(&text_bytes(&out)) {
        Err(ParseError::IllegalToken { line, token }) => {
            assert_eq!(line, 1);
            assert_eq!(token, b"a".to_vec());
        }
        _ => panic!("expected an illegal token error"),
    }
}

#[test]
fn parse_rejects_wrong_field_count() {
    let mut out = String::new();
    for i in 0..9 {
        if i > 0 {
            out.push('\n');
        }
        if i == 2 {
            out.push_str("0,1,2,3,4,5,6,7");
        } else {
            out.push_str("0,1,2,3,4,5,6,7,8");
        }
    }
    match parse_board(&text_bytes(&out)) {
        Err(ParseError::WrongFieldCount { line, found }) => {
            assert_eq!(line, 3);
            assert_eq!(found, 8);
        }
        _ => panic!("expected a wrong field count error"),
    }
}

#[test]
fn parse_rejects_out_of_range_token() {
    let mut out = String::from("0,1,2,3,4,5,6,7,8");
    out.push('\n');
    out.push_str("10,1,2,3,4,5,6,7,8");
    for _ in 0..7 {
        out.push('\n');
        out.push_str("0,1,2,3,4,5,6,7,8");
    }
    match parse_board(&text_bytes(&out)) {
        Err(ParseError::OutOfRangeToken { line, token }) => {
            assert_eq!(line, 2);
            assert_eq!(token, b"10".to_vec());
        }
        _ => panic!("expected an out of range error"),
    }
}

#[test]
fn parse_reports_first_violation_in_line_order() {
    let mut out = String::from("0,1,2,3,4,5,6,7,8");
    out.push('\n');
    out.push_str("x,1,2,3,4,5,6,7,8");
    for i in 2..9 {
        out.push('\n');
        if i == 5 {
            out.push_str("0,1,2");
        } else {
            out.push_str("0,1,2,3,4,5,6,7,8");
        }
    }
    match parse_board(&text_bytes(&out)) {
        Err(ParseError::IllegalToken { line, token }) => {
            assert_eq!(line, 2);
            assert_eq!(token, b"x".to_vec());
        }
        _ => panic!("expected the earlier violation to be reported"),
    }
}

#[test]
fn parse_rejects_empty_token() {
    let mut out = String::from("0,1,2,3,4,5,6,,8");
    for _ in 0..8 {
        out.push('\n');
        out.push_str("0,1,2,3,4,5,6,7,8");
    }
    match parse_board(&text_bytes(&out)) {
        Err(ParseError::IllegalToken { line, token }) => {
            assert_eq!(line, 1);
            assert_eq!(token, Vec::<u8>::new());
        }
        _ => panic!("expected an illegal token error"),
    }
}

#[test]
fn parse_rejects_empty_text() {
    match parse_board(&Vec::new()) {
        Err(ParseError::WrongLineCount { found }) => assert_eq!(found, 0),
        _ => panic!("expected a wrong line count error"),
    }
}

#[test]
fn render_formats_rows_exactly() {
    let mut cells = Vec::new();
    for _ in 0..9usize {
        for c in 0..9usize {
            cells.push(c as u8);
        }
    }
    let g = Grid::from_cells(cells).unwrap();
    let out = render_board(&g);
    let expected: String = "[ 0, 1, 2, 3, 4, 5, 6, 7, 8 ]\n".repeat(9);
    assert_eq!(out, expected.as_bytes().to_vec());
}
