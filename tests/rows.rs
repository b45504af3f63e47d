use sdiff::lines::{split_lines, Line};
use sdiff::reconcile::{dispatch_to_output, render_script, Diff, EditEntry};
use sdiff::row::{limited, push_row, LineEnding};
use sdiff::side_diff::{diff_with_ending, fits_in_memory, line_ending_for, native_line_ending};

fn row(left: &[u8], right: &[u8], symbol: u8) -> Vec<u8> {
    let mut v = left.to_vec();
    v.extend(vec![b' '; 61 - left.len() + 1]);
    v.push(symbol);
    v.push(b' ');
    v.extend(right);
    v.push(b'\n');
    v
}

#[test]
fn split_keeps_empty_lines_and_carriage_returns() {
    let buf = b"a\r\n\nb\n".to_vec();
    let lines = split_lines(&buf);
    assert_eq!(lines.len(), 4);
    assert_eq!(lines[0].content, b"a\r");
    assert_eq!(lines[1].content, b"");
    assert_eq!(lines[2].content, b"b");
    assert_eq!(lines[3].content, b"");
    for (i, l) in lines.iter().enumerate() {
        assert_eq!(l.line_ndx, i);
    }
}

#[test]
fn split_of_empty_buffer_is_one_empty_line() {
    let lines = split_lines(&[]);
    assert_eq!(lines.len(), 1);
    assert_eq!(lines[0].line_ndx, 0);
    assert!(lines[0].content.is_empty());
}

#[test]
fn same_input_gives_blank_markers() {
    let a = b"x\n\ny".to_vec();
    let mut expected = row(b"x", b"x", b' ');
    expected.extend(row(b"", b"", b' '));
    expected.extend(row(b"y", b"y", b' '));
    assert_eq!(diff_with_ending(&a, &a, LineEnding::Lf), expected);
}

#[test]
fn crlf_ending_ends_every_row() {
    let a = b"p".to_vec();
    let b = b"q".to_vec();
    let mut expected = b"p".to_vec();
    expected.extend(vec![b' '; 61]);
    expected.extend(b"| q\r\n");
    assert_eq!(diff_with_ending(&a, &b, LineEnding::CrLf), expected);
}

#[test]
fn leading_newlines_on_both_sides_still_give_rows() {
    let a = b"\nx".to_vec();
    let b = b"\ny".to_vec();
    let mut expected = row(b"", b"", b' ');
    expected.extend(row(b"x", b"y", b'|'));
    assert_eq!(diff_with_ending(&a, &b, LineEnding::Lf), expected);
}

#[test]
fn all_lines_changed_give_one_row_per_left_index() {
    let a = b"a\nb".to_vec();
    let b = b"c\nd".to_vec();
    let mut expected = row(b"a", b"c", b'|');
    expected.extend(row(b"b", b"d", b'|'));
    assert_eq!(diff_with_ending(&a, &b, LineEnding::Lf), expected);
}

#[test]
fn long_lines_are_cut_to_the_limiter() {
    let long_left: Vec<u8> = (0..70u8).map(|i| b'a' + i % 26).collect();
    let long_right: Vec<u8> = (0..80u8).map(|i| b'A' + i % 26).collect();
    let out = diff_with_ending(&long_left, &long_right, LineEnding::Lf);
    let mut expected = long_left[..61].to_vec();
    expected.extend(b" | ");
    expected.extend(&long_right[..61]);
    expected.push(b'\n');
    assert_eq!(out, expected);
    assert_eq!(limited(&long_left).len(), 61);
    assert_eq!(limited(b"short"), b"short");
}

#[test]
fn lines_of_exactly_the_limiter_keep_one_space() {
    let a = vec![b'z'; 61];
    let mut out = Vec::new();
    push_row(&mut out, &a, &a, LineEnding::Lf);
    let mut expected = a.clone();
    expected.extend(b"   ");
    expected.extend(&a);
    expected.push(b'\n');
    assert_eq!(out, expected);
}

#[test]
fn dispatch_skips_an_index_already_shown() {
    let l = Line::new(3, b"left");
    let r = Line::new(3, b"right");
    let mut out = Vec::new();
    let mut shown = Vec::new();
    dispatch_to_output(&mut out, &Diff::new(l, r), &mut shown, LineEnding::Lf);
    assert_eq!(out, row(b"left", b"right", b'|'));
    assert_eq!(shown, vec![3]);
    dispatch_to_output(&mut out, &Diff::new(l, l), &mut shown, LineEnding::Lf);
    assert_eq!(out, row(b"left", b"right", b'|'));
    assert_eq!(shown, vec![3]);
}

#[test]
fn one_sided_entries_pair_by_index_and_marker_follows_content() {
    let left = vec![Line::new(0, b"same"), Line::new(1, b"gone")];
    let right = vec![Line::new(0, b"same")];
    let script = vec![
        EditEntry::OnlyLeft(left[0]),
        EditEntry::OnlyRight(right[0]),
        EditEntry::OnlyLeft(left[1]),
        EditEntry::Both(left[1], left[1]),
    ];
    let out = render_script(&left, &right, &script, LineEnding::Lf);
    let mut expected = row(b"same", b"same", b' ');
    expected.extend(row(b"gone", b"", b'<'));
    assert_eq!(out, expected);
}

#[test]
fn right_entry_beyond_left_gets_blank_left_column() {
    let left = vec![Line::new(0, b"")];
    let right = vec![Line::new(0, b"r0"), Line::new(1, b"r1")];
    let script = vec![EditEntry::OnlyRight(right[1])];
    let out = render_script(&left, &right, &script, LineEnding::Lf);
    assert_eq!(out, row(b"", b"r1", b'>'));
}

#[test]
fn native_line_ending_follows_the_platform() {
    let windows = std::path::MAIN_SEPARATOR == '\\';
    assert_eq!(native_line_ending() == LineEnding::CrLf, windows);
    assert_eq!(native_line_ending() == LineEnding::Lf, !windows);
}

#[test]
fn line_ending_follows_the_path_separator() {
    assert_eq!(line_ending_for('\\'), LineEnding::CrLf);
    assert_eq!(line_ending_for('/'), LineEnding::Lf);
}

#[test]
fn shifted_line_is_matched_by_content() {
    let a = b"x\na".to_vec();
    let b = b"a".to_vec();
    let mut expected = row(b"x", b"a", b'|');
    expected.extend(row(b"a", b"a", b' '));
    assert_eq!(diff_with_ending(&a, &b, LineEnding::Lf), expected);
}

#[test]
fn small_inputs_fit_in_memory() {
    assert!(fits_in_memory(&b"a\nb".to_vec(), &Vec::new()));
    assert!(fits_in_memory(&Vec::new(), &Vec::new()));
}
