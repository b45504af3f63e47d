use sdiff::side_diff::diff;

#[test]
fn test_both_files_empty() {
    let from = vec![];
    let to = vec![];
    assert_eq!(diff(&from, &to), vec![]);
}

#[test]
fn test_left_empty_right_non_empty() {
    let from = vec![];
    let to = b"line1\nline2".to_vec();
    let mut expected = Vec::new();
    let eol: &[u8] = if std::path::MAIN_SEPARATOR == '\\' {
        b"\r\n"
    } else {
        b"\n"
    };

    expected.extend([b' '; 61 + 1]);
    expected.extend(b"> line1");
    expected.extend(eol);
    expected.extend([b' '; 61 + 1]);
    expected.extend(b"> line2");
    expected.extend(eol);

    assert_eq!(diff(&from, &to), expected);
}

#[test]
fn test_right_empty_left_non_empty() {
    let from = b"line1\nline2".to_vec();
    let to = vec![];
    let mut expected = Vec::new();
    let eol: &[u8] = if std::path::MAIN_SEPARATOR == '\\' {
        b"\r\n"
    } else {
        b"\n"
    };

    expected.extend(b"line1");
    expected.extend([b' '; 61 - 5 + 1]);
    expected.extend(b"< ");
    expected.extend(eol);
    expected.extend(b"line2");
    expected.extend([b' '; 61 - 5 + 1]);
    expected.extend(b"< ");
    expected.extend(eol);

    assert_eq!(diff(&from, &to), expected);
}

#[test]
fn test_identical_content() {
    let content = b"abc\n123".to_vec();
    let mut expected = Vec::new();
    let eol: &[u8] = if std::path::MAIN_SEPARATOR == '\\' {
        b"\r\n"
    } else {
        b"\n"
    };

    expected.extend(b"abc");
    expected.extend([b' '; 61 - 3 + 1]);
    expected.extend(b"  abc");
    expected.extend(eol);
    expected.extend(b"123");
    expected.extend([b' '; 61 - 3 + 1]);
    expected.extend(b"  123");
    expected.extend(eol);

    assert_eq!(diff(&content, &content), expected);
}

#[test]
fn test_added_lines_in_right() {
    let from = b"a\nb".to_vec();
    let to = b"a\nb\nc".to_vec();
    let mut expected = Vec::new();
    let eol: &[u8] = if std::path::MAIN_SEPARATOR == '\\' {
        b"\r\n"
    } else {
        b"\n"
    };

    expected.extend(b"a");
    expected.extend([b' '; 61 - 1 + 1]);
    expected.extend(b"  a");
    expected.extend(eol);
    expected.extend(b"b");
    expected.extend([b' '; 61 - 1 + 1]);
    expected.extend(b"  b");
    expected.extend(eol);
    expected.extend([b' '; 62]);
    expected.extend(b"> c");
    expected.extend(eol);

    assert_eq!(diff(&from, &to), expected);
}

#[test]
fn test_removed_lines_from_left() {
    let from = b"a\nb\nc".to_vec();
    let to = b"a\nb".to_vec();
    let mut expected = Vec::new();
    let eol: &[u8] = if std::path::MAIN_SEPARATOR == '\\' {
        b"\r\n"
    } else {
        b"\n"
    };

    expected.extend(b"a");
    expected.extend([b' '; 61 - 1 + 1]);
    expected.extend(b"  a");
    expected.extend(eol);
    expected.extend(b"b");
    expected.extend([b' '; 61 - 1 + 1]);
    expected.extend(b"  b");
    expected.extend(eol);
    expected.extend(b"c");
    expected.extend([b' '; 61 - 1 + 1]);
    expected.extend(b"< ");
    expected.extend(eol);

    assert_eq!(diff(&from, &to), expected);
}

#[test]
fn test_modified_lines() {
    let from = b"original".to_vec();
    let to = b"modified".to_vec();
    let mut expected = Vec::new();
    let eol: &[u8] = if std::path::MAIN_SEPARATOR == '\\' {
        b"\r\n"
    } else {
        b"\n"
    };

    expected.extend(b"original");
    let left_len = 8;
    let spaces = 61 - left_len + 1;
    expected.extend(vec![b' '; spaces as usize]);
    expected.extend(b"| modified");
    expected.extend(eol);

    assert_eq!(diff(&from, &to), expected);
}

#[test]
fn test_mixed_changes() {
    let from = b"a\nb\nc".to_vec();
    let to = b"a\nmodified\nnew".to_vec();
    let mut expected = Vec::new();
    let eol: &[u8] = if std::path::MAIN_SEPARATOR == '\\' {
        b"\r\n"
    } else {
        b"\n"
    };

    expected.extend(b"a");
    expected.extend([b' '; 61 - 1 + 1]);
    expected.extend(b"  a");
    expected.extend(eol);
    expected.extend(b"b");
    expected.extend([b' '; 61 - 1 + 1]);
    expected.extend(b"| modified");
    expected.extend(eol);
    expected.extend(b"c");
    expected.extend([b' '; 61 - 1 + 1]);
    expected.extend(b"| new");
    expected.extend(eol);

    assert_eq!(diff(&from, &to), expected);
}

#[test]
fn test_no_duplicate_dispatch() {
    let from = b"a\na".to_vec();
    let to = b"a".to_vec();
    let output = diff(&from, &to);
    let expected_lines = if std::path::MAIN_SEPARATOR == '\\' { 4 } else { 2 };
    assert_eq!(
        output.iter().filter(|&&b| b == b'\n' || b == b'\r').count(),
        expected_lines
    );
}
