//! The whole comparison: split both buffers, take their edit script, render its rows.
use crate::lines::{indexed, lemma_split_len, lemma_split_no_separator, split_lines, split_spec};
use crate::reconcile::{
    entry_lines, free_of_line_feeds, lemma_line_feeds_per_touched_index, listing, render_script, rows, touched,
    EditEntry, LineView, RowView,
};
use crate::row::{count_byte, format_row, LineEnding, CR, LF};
use crate::script::{
    bytes_view, contents_of, edit_script, edit_script_of, is_edit_script,
    lemma_all_kept_rows, lemma_numbered_len, lemma_numbered_lines_listed, lemma_sides_len, number_entries, numbered,
};
use vstd::prelude::*;

verus! {

/// Relies on `std::path::MAIN_SEPARATOR`: `\` on Windows, `/` on Unix.
#[verifier::external_body]
fn main_separator() -> (r: char) {
    std::path::MAIN_SEPARATOR
}

/// The line ending of a platform whose path separator is `separator`: `\r\n`
/// where it is `\` (Windows), `\n` elsewhere.
pub fn line_ending_for(separator: char) -> (r: LineEnding)
    ensures
        r == (if separator == '\\' {
            LineEnding::CrLf
        } else {
            LineEnding::Lf
        }),
{
    if separator == '\\' {
        LineEnding::CrLf
    } else {
        LineEnding::Lf
    }
}

/// The line ending of the platform the library was built for.
pub fn native_line_ending() -> (r: LineEnding) {
    line_ending_for(main_separator())
}

/// The rows that comparing `a` with `b` gives.
pub open spec fn diff_rows(a: Seq<u8>, b: Seq<u8>) -> Seq<RowView> {
    rows(
        indexed(split_spec(a)),
        indexed(split_spec(b)),
        numbered(edit_script_of(split_spec(a), split_spec(b))),
    )
}

/// The output of comparing `a` with `b`, each row ending in `eol`: nothing where
/// both are empty, else the rows of their edit script.
pub open spec fn diff_spec(a: Seq<u8>, b: Seq<u8>, eol: Seq<u8>) -> Seq<u8> {
    if a.len() == 0 && b.len() == 0 {
        Seq::empty()
    } else {
        listing(diff_rows(a, b), eol)
    }
}

/// The left-line indices that the edit script of `a` and `b` touches.
pub open spec fn diff_touched(a: Seq<u8>, b: Seq<u8>) -> Set<usize> {
    touched(
        indexed(split_spec(a)),
        indexed(split_spec(b)),
        numbered(edit_script_of(split_spec(a), split_spec(b))),
    )
}

/// Whether the edit script of `a` and `b`, a table of (lines + 1) * (lines + 1)
/// `u32`s, fits in memory.
pub open spec fn fits(a: Seq<u8>, b: Seq<u8>) -> bool {
    (split_spec(a).len() + 1) * (split_spec(b).len() + 1) * 4 <= isize::MAX
}

/// Whether two buffers can be compared.
pub fn fits_in_memory(a: &Vec<u8>, b: &Vec<u8>) -> (r: bool)
    ensures
        r == fits(a@, b@),
{
    let n = split_lines(a.as_slice()).len();
    let m = split_lines(b.as_slice()).len();
    proof {
        lemma_split_len(a@);
        lemma_split_len(b@);
        assert(split_spec(a@).len() == indexed(split_spec(a@)).len());
        assert(split_spec(b@).len() == indexed(split_spec(b@)).len());
    }
    let ghost (x, y) = (n as int + 1, m as int + 1);
    assert(x * y * 4 >= x * 4 && x * y * 4 >= y * 4 && x * y * 4 >= x * y) by (nonlinear_arith)
        requires x >= 1, y >= 1;
    match n.checked_add(1) {
        None => false,
        Some(n1) => match m.checked_add(1) {
            None => false,
            Some(m1) => match n1.checked_mul(m1) {
                None => false,
                Some(p) => match p.checked_mul(4) {
                    None => false,
                    Some(q) => q <= isize::MAX as usize,
                },
            },
        },
    }
}

/// A script with an entry gives a row.
proof fn lemma_rows_nonempty(left: Seq<LineView>, right: Seq<LineView>, s: Seq<EditEntry<LineView>>)
    requires
        s.len() > 0,
    ensures
        rows(left, right, s).len() > 0,
    decreases s.len(),
{
    if s.len() > 1 {
        lemma_rows_nonempty(left, right, s.drop_last());
    }
}

/// Compares two buffers line by line and renders the side-by-side output,
/// each row ending in `ending`.
pub fn diff_with_ending(from_file: &Vec<u8>, to_file: &Vec<u8>, ending: LineEnding) -> (r: Vec<u8>)
    requires
        fits(from_file@, to_file@),
    ensures
        r@ == diff_spec(from_file@, to_file@, ending.bytes()),
        !(from_file@.len() == 0 && to_file@.len() == 0) ==> r@.len() > 0,
        is_edit_script(
            edit_script_of(split_spec(from_file@), split_spec(to_file@)),
            split_spec(from_file@),
            split_spec(to_file@),
        ),
        from_file@ == to_file@ ==> diff_rows(from_file@, to_file@) == indexed(
            split_spec(from_file@),
        ).map_values(|x: LineView| (x, x)),
        !(from_file@.len() == 0 && to_file@.len() == 0) ==> count_byte(r@, LF) == diff_touched(
            from_file@,
            to_file@,
        ).len(),
{
    let left_lines = split_lines(from_file.as_slice());
    let right_lines = split_lines(to_file.as_slice());
    let left_contents = contents_of(left_lines.as_slice());
    let right_contents = contents_of(right_lines.as_slice());
    let ghost (la, lb) = (split_spec(from_file@), split_spec(to_file@));
    proof {
        lemma_split_len(from_file@);
        assert(bytes_view(left_contents@) =~= la);
        assert(bytes_view(right_contents@) =~= lb);
        assert(left_contents@.len() == bytes_view(left_contents@).len());
        assert(right_contents@.len() == bytes_view(right_contents@).len());
    }
    let content_script = edit_script(left_contents.as_slice(), right_contents.as_slice());
    let script = number_entries(content_script.as_slice());
    proof {
        let x = la.len() + 1;
        let y = lb.len() + 1;
        assert(x <= x * y * 4) by (nonlinear_arith)
            requires x >= 0, y >= 1;
        if from_file@ == to_file@ {
            lemma_all_kept_rows(indexed(la), indexed(lb), la);
        }
    }
    if from_file.len() == 0 && to_file.len() == 0 {
        return Vec::new();
    }
    let r = render_script(left_lines.as_slice(), right_lines.as_slice(), script.as_slice(), ending);
    proof {
        let cs = edit_script_of(la, lb);
        lemma_sides_len(cs);
        lemma_numbered_len(cs);
        lemma_rows_nonempty(indexed(la), indexed(lb), numbered(cs));
        let rs = diff_rows(from_file@, to_file@);
        assert(listing(rs, ending.bytes()) == listing(rs.drop_last(), ending.bytes())
            + format_row(rs.last().0.1, rs.last().1.1, ending.bytes()));
        let (ll, rl, ns) = (indexed(la), indexed(lb), numbered(cs));
        lemma_split_no_separator(from_file@);
        lemma_split_no_separator(to_file@);
        lemma_numbered_lines_listed(cs);
        assert forall|i: int, k: int|
            0 <= i < ns.len() && 0 <= k < entry_lines(ns[i]).len() implies !(#[trigger] entry_lines(
                #[trigger] ns[i],
            )[k]).1.contains(LF) by {
            let c = entry_lines(ns[i])[k].1;
            if la.contains(c) {
                let j = choose|j: int| 0 <= j < la.len() && la[j] == c;
                assert(!la[j].contains(LF));
            } else {
                let j = choose|j: int| 0 <= j < lb.len() && lb[j] == c;
                assert(!lb[j].contains(LF));
            }
        }
        assert(free_of_line_feeds(ll, rl, ns));
        assert(count_byte(ending.bytes(), LF) == 1) by {
            reveal_with_fuel(count_byte, 3);
            assert(seq![CR, LF].drop_last() == seq![CR]);
            assert(seq![CR].drop_last() == Seq::<u8>::empty());
            assert(seq![LF].drop_last() == Seq::<u8>::empty());
        }
        lemma_line_feeds_per_touched_index(ll, rl, ns, ending.bytes());
    }
    r
}

/// Compares two buffers line by line and renders the side-by-side output with
/// the platform's line ending.
pub fn diff(from_file: &Vec<u8>, to_file: &Vec<u8>) -> (r: Vec<u8>)
    requires
        fits(from_file@, to_file@),
    ensures
        r@ == diff_spec(from_file@, to_file@, LineEnding::Lf.bytes()) || r@ == diff_spec(
            from_file@,
            to_file@,
            LineEnding::CrLf.bytes(),
        ),
        !(from_file@.len() == 0 && to_file@.len() == 0) ==> r@.len() > 0,
        is_edit_script(
            edit_script_of(split_spec(from_file@), split_spec(to_file@)),
            split_spec(from_file@),
            split_spec(to_file@),
        ),
        from_file@ == to_file@ ==> diff_rows(from_file@, to_file@) == indexed(
            split_spec(from_file@),
        ).map_values(|x: LineView| (x, x)),
        !(from_file@.len() == 0 && to_file@.len() == 0) ==> count_byte(r@, LF) == diff_touched(
            from_file@,
            to_file@,
        ).len(),
{
    diff_with_ending(from_file, to_file, native_line_ending())
}

} // verus!
