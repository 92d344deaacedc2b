use gem::pe::parts_file::parse_hgr_parts;

#[test]
fn lines_give_parts() {
    assert_eq!(parse_hgr_parts(b"0\n1\n0\n"), Ok(vec![vec![0, 2], vec![1]]));
    assert_eq!(parse_hgr_parts(b""), Ok(vec![]));
    assert_eq!(parse_hgr_parts(b"2"), Ok(vec![vec![], vec![], vec![0]]));
}

#[test]
fn empty_lines_count_but_hold_nothing() {
    assert_eq!(parse_hgr_parts(b"1\n\n0\n"), Ok(vec![vec![2], vec![0]]));
    assert_eq!(parse_hgr_parts(b"\n\n"), Ok(vec![]));
}

#[test]
fn parts_list_their_lines() {
    assert_eq!(
        parse_hgr_parts(b"3\n0\n\n3\n1\n0\n"),
        Ok(vec![vec![1, 5], vec![4], vec![], vec![0, 3]])
    );
}

#[test]
fn carriage_returns_belong_to_line_ends() {
    assert_eq!(parse_hgr_parts(b"1\r\n0\r\n"), Ok(vec![vec![1], vec![0]]));
    assert_eq!(parse_hgr_parts(b"\r\n0"), Ok(vec![vec![1]]));
    assert_eq!(parse_hgr_parts(b"0\r"), Err(0));
}

#[test]
fn numbers_are_decimal() {
    assert_eq!(parse_hgr_parts(b"+1\n007\n").map(|p| p.len()), Ok(8));
    assert_eq!(parse_hgr_parts(b"0\n-1\n"), Err(1));
    assert_eq!(parse_hgr_parts(b"0\n0\n 1\n"), Err(2));
    assert_eq!(parse_hgr_parts(b"+\n"), Err(0));
    assert_eq!(parse_hgr_parts(b"++1\n"), Err(0));
    assert_eq!(parse_hgr_parts(b"99999999999999999999999999\n"), Err(0));
}
