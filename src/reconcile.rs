//! Pairing the entries of an edit script into rows, one per left-line index.
use crate::lines::Line;
use crate::row::{
    count_byte, format_row, lemma_count_concat, lemma_row_line_feeds, push_row, symbol_of,
    LineEnding, LF, SPACE,
};
use vstd::prelude::*;

verus! {

/// A line as a position and its bytes.
pub type LineView = (usize, Seq<u8>);

/// A row before rendering: the left line and the right line.
pub type RowView = (LineView, LineView);

/// One entry of an edit script that turns the left lines into the right lines.
#[derive(Debug)]
pub enum EditEntry<L> {
    OnlyLeft(L),
    OnlyRight(L),
    Both(L, L),
}

impl<'a> View for EditEntry<Line<'a>> {
    type V = EditEntry<LineView>;

    open spec fn view(&self) -> EditEntry<LineView> {
        match *self {
            EditEntry::OnlyLeft(l) => EditEntry::OnlyLeft(l@),
            EditEntry::OnlyRight(r) => EditEntry::OnlyRight(r@),
            EditEntry::Both(l, r) => EditEntry::Both(l@, r@),
        }
    }
}

/// The views of a run of entries.
pub open spec fn script_view<'a>(script: Seq<EditEntry<Line<'a>>>) -> Seq<EditEntry<LineView>> {
    script.map_values(|e: EditEntry<Line<'a>>| e@)
}

/// The row an entry stands for. A one-sided entry is paired with the line of the
/// other side at the same index, or with an empty line of that index where the
/// other side is shorter.
pub open spec fn row_of(left: Seq<LineView>, right: Seq<LineView>, e: EditEntry<LineView>) -> RowView {
    match e {
        EditEntry::OnlyLeft(l) => if (l.0 as int) < right.len() {
            (l, right[l.0 as int])
        } else {
            (l, (l.0, Seq::empty()))
        },
        EditEntry::OnlyRight(r) => if (r.0 as int) < left.len() {
            (left[r.0 as int], r)
        } else {
            ((r.0, Seq::empty()), r)
        },
        EditEntry::Both(l, r) => (l, r),
    }
}

/// The left-line index that identifies a row.
pub open spec fn key_of(row: RowView) -> usize {
    row.0.0
}

pub open spec fn keys(rows: Seq<RowView>) -> Seq<usize> {
    rows.map_values(|r: RowView| key_of(r))
}

/// The rows of a script, in its order; an entry whose left-line index already has
/// a row adds none.
pub open spec fn rows(left: Seq<LineView>, right: Seq<LineView>, script: Seq<EditEntry<LineView>>) -> Seq<RowView>
    decreases script.len(),
{
    if script.len() == 0 {
        Seq::empty()
    } else {
        let prev = rows(left, right, script.drop_last());
        let row = row_of(left, right, script.last());
        if keys(prev).contains(key_of(row)) {
            prev
        } else {
            prev.push(row)
        }
    }
}

/// The left-line indices that the entries of a script touch.
pub open spec fn touched(left: Seq<LineView>, right: Seq<LineView>, script: Seq<EditEntry<LineView>>) -> Set<usize> {
    Set::new(
        |k: usize|
            exists|i: int| 0 <= i < script.len() && key_of(row_of(left, right, #[trigger] script[i])) == k,
    )
}

/// The bytes of a run of rows.
pub open spec fn listing(rows: Seq<RowView>, eol: Seq<u8>) -> Seq<u8>
    decreases rows.len(),
{
    if rows.len() == 0 {
        Seq::empty()
    } else {
        listing(rows.drop_last(), eol) + format_row(rows.last().0.1, rows.last().1.1, eol)
    }
}

/// Every row of a script is the row of one of its entries.
pub proof fn lemma_rows_from_entries(left: Seq<LineView>, right: Seq<LineView>, script: Seq<EditEntry<LineView>>)
    ensures
        forall|j: int|
            0 <= j < rows(left, right, script).len() ==> exists|i: int|
                0 <= i < script.len() && #[trigger] rows(left, right, script)[j] == row_of(
                    left,
                    right,
                    script[i],
                ),
    decreases script.len(),
{
    if script.len() > 0 {
        let prev_s = script.drop_last();
        lemma_rows_from_entries(left, right, prev_s);
        let prev = rows(left, right, prev_s);
        assert forall|j: int| 0 <= j < rows(left, right, script).len() implies exists|i: int|
            0 <= i < script.len() && #[trigger] rows(left, right, script)[j] == row_of(
                left,
                right,
                script[i],
            ) by {
            if j < prev.len() {
                let i = choose|i: int| 0 <= i < prev_s.len() && prev[j] == row_of(left, right, prev_s[i]);
                assert(script[i] == prev_s[i]);
            } else {
                assert(script[script.len() - 1] == script.last());
            }
        }
    }
}

/// The rows of a script carry distinct left-line indices, and these are exactly
/// the indices its entries touch.
pub proof fn lemma_row_keys(left: Seq<LineView>, right: Seq<LineView>, script: Seq<EditEntry<LineView>>)
    ensures
        keys(rows(left, right, script)).no_duplicates(),
        keys(rows(left, right, script)).to_set() == touched(left, right, script),
    decreases script.len(),
{
    if script.len() > 0 {
        let prev_s = script.drop_last();
        lemma_row_keys(left, right, prev_s);
        let prev = rows(left, right, prev_s);
        let row = row_of(left, right, script.last());
        if !keys(prev).contains(key_of(row)) {
            assert(keys(prev.push(row)) =~= keys(prev).push(key_of(row)));
        }
        assert forall|k: usize| #[trigger] touched(left, right, script).contains(k) implies touched(
            left,
            right,
            prev_s,
        ).contains(k) || k == key_of(row) by {
            let i = choose|i: int| 0 <= i < script.len() && key_of(row_of(left, right, #[trigger] script[i])) == k;
            if i < prev_s.len() {
                assert(prev_s[i] == script[i]);
            }
        }
        assert forall|k: usize| #[trigger] touched(left, right, prev_s).contains(k) implies touched(
            left,
            right,
            script,
        ).contains(k) by {
            let i = choose|i: int| 0 <= i < prev_s.len() && key_of(row_of(left, right, #[trigger] prev_s[i])) == k;
            assert(prev_s[i] == script[i]);
        }
        assert(touched(left, right, script).contains(key_of(row))) by {
            assert(script[script.len() - 1] == script.last());
        }
        assert forall|k: usize| #[trigger] keys(rows(left, right, script)).contains(k) <==> touched(
            left,
            right,
            script,
        ).contains(k) by {
            assert(keys(prev).to_set().contains(k) == keys(prev).contains(k));
            assert(keys(prev).to_set().contains(key_of(row)) == keys(prev).contains(key_of(row)));
            if !keys(prev).contains(key_of(row)) {
                assert(keys(rows(left, right, script)) == keys(prev).push(key_of(row)));
                if keys(rows(left, right, script)).contains(k) && k != key_of(row) {
                    let j = choose|j: int| 0 <= j < keys(rows(left, right, script)).len() && keys(rows(left, right, script))[j] == k;
                    assert(keys(prev)[j] == k);
                }
                if k == key_of(row) {
                    assert(keys(rows(left, right, script))[prev.len() as int] == k);
                }
                if keys(prev).contains(k) {
                    let j = choose|j: int| 0 <= j < keys(prev).len() && keys(prev)[j] == k;
                    assert(keys(rows(left, right, script))[j] == k);
                }
            }
        }
        assert(keys(rows(left, right, script)).to_set() =~= touched(left, right, script));
    }
}

/// A script gives one row per distinct left-line index that its entries touch:
/// an index touched twice gives a single row.
pub proof fn lemma_one_row_per_touched_index(
    left: Seq<LineView>,
    right: Seq<LineView>,
    script: Seq<EditEntry<LineView>>,
)
    ensures
        rows(left, right, script).len() == touched(left, right, script).len(),
{
    lemma_row_keys(left, right, script);
    keys(rows(left, right, script)).unique_seq_to_set();
}

/// The marker of a row follows the contents alone: an entry of any tag whose row
/// pairs equal contents is shown with the blank marker, and two entries whose rows
/// carry the same contents are shown alike.
pub proof fn lemma_marker_by_content(
    left: Seq<LineView>,
    right: Seq<LineView>,
    e1: EditEntry<LineView>,
    e2: EditEntry<LineView>,
    eol: Seq<u8>,
)
    ensures
        row_of(left, right, e1).0.1 == row_of(left, right, e1).1.1 ==> symbol_of(
            row_of(left, right, e1).0.1,
            row_of(left, right, e1).1.1,
        ) == seq![SPACE],
        row_of(left, right, e1).0.1 == row_of(left, right, e2).0.1 && row_of(left, right, e1).1.1
            == row_of(left, right, e2).1.1 ==> format_row(
            row_of(left, right, e1).0.1,
            row_of(left, right, e1).1.1,
            eol,
        ) == format_row(row_of(left, right, e2).0.1, row_of(left, right, e2).1.1, eol),
{
}

/// The lines of an entry.
pub open spec fn entry_lines(e: EditEntry<LineView>) -> Seq<LineView> {
    match e {
        EditEntry::OnlyLeft(l) => seq![l],
        EditEntry::OnlyRight(r) => seq![r],
        EditEntry::Both(l, r) => seq![l, r],
    }
}

/// No line of `left`, `right` or the entries of `script` holds a line feed.
pub open spec fn free_of_line_feeds(left: Seq<LineView>, right: Seq<LineView>, script: Seq<EditEntry<LineView>>) -> bool {
    &&& forall|i: int| 0 <= i < left.len() ==> !(#[trigger] left[i]).1.contains(LF)
    &&& forall|i: int| 0 <= i < right.len() ==> !(#[trigger] right[i]).1.contains(LF)
    &&& forall|i: int, k: int|
        0 <= i < script.len() && 0 <= k < entry_lines(script[i]).len() ==> !(#[trigger] entry_lines(
            #[trigger] script[i],
        )[k]).1.contains(LF)
}

proof fn lemma_listing_line_feeds(rows: Seq<RowView>, eol: Seq<u8>)
    requires
        count_byte(eol, LF) == 1,
        forall|i: int|
            0 <= i < rows.len() ==> !(#[trigger] rows[i]).0.1.contains(LF) && !rows[i].1.1.contains(LF),
    ensures
        count_byte(listing(rows, eol), LF) == rows.len(),
    decreases rows.len(),
{
    if rows.len() > 0 {
        let last = rows.last();
        assert(rows[rows.len() - 1] == last);
        lemma_listing_line_feeds(rows.drop_last(), eol);
        lemma_row_line_feeds(last.0.1, last.1.1, eol);
        lemma_count_concat(listing(rows.drop_last(), eol), format_row(last.0.1, last.1.1, eol), LF);
    }
}

/// Where no line holds a line feed and each row ends in one, the output of a
/// script holds one line feed per distinct left-line index its entries touch.
pub proof fn lemma_line_feeds_per_touched_index(
    left: Seq<LineView>,
    right: Seq<LineView>,
    script: Seq<EditEntry<LineView>>,
    eol: Seq<u8>,
)
    requires
        free_of_line_feeds(left, right, script),
        count_byte(eol, LF) == 1,
    ensures
        count_byte(listing(rows(left, right, script), eol), LF) == touched(left, right, script).len(),
{
    let rs = rows(left, right, script);
    lemma_rows_from_entries(left, right, script);
    assert(!Seq::<u8>::empty().contains(LF));
    assert forall|j: int| 0 <= j < rs.len() implies !(#[trigger] rs[j]).0.1.contains(LF)
        && !rs[j].1.1.contains(LF) by {
        let i = choose|i: int| 0 <= i < script.len() && rs[j] == row_of(left, right, script[i]);
        let ls = entry_lines(script[i]);
        assert(!ls[0].1.contains(LF));
        if ls.len() > 1 {
            assert(!ls[1].1.contains(LF));
        }
    }
    lemma_listing_line_feeds(rs, eol);
    lemma_one_row_per_touched_index(left, right, script);
}

/// A left line beside a right line.
#[derive(Clone, Copy, Debug)]
pub struct Diff<'a> {
    pub left_ln: Line<'a>,
    pub right_ln: Line<'a>,
}

impl<'a> Diff<'a> {
    pub fn new(left_ln: Line<'a>, right_ln: Line<'a>) -> (r: Self)
        ensures
            r.left_ln@ == left_ln@,
            r.right_ln@ == right_ln@,
    {
        Diff { left_ln, right_ln }
    }
}

/// Whether `v` holds `x`.
fn contains_index(v: &Vec<usize>, x: usize) -> (r: bool)
    ensures
        r == v@.contains(x),
{
    let mut i: usize = 0;
    while i < v.len()
        invariant
            i <= v@.len(),
            forall|j: int| 0 <= j < i ==> v@[j] != x,
        decreases v@.len() - i,
    {
        if v[i] == x {
            return true;
        }
        i = i + 1;
    }
    false
}

/// Renders the row of `to_dispatch_val` unless its left-line index already has one.
pub fn dispatch_to_output(
    output: &mut Vec<u8>,
    to_dispatch_val: &Diff,
    already_dispatched: &mut Vec<usize>,
    ending: LineEnding,
)
    ensures
        old(already_dispatched)@.contains(to_dispatch_val.left_ln.line_ndx) ==> {
            &&& final(output)@ == old(output)@
            &&& final(already_dispatched)@ == old(already_dispatched)@
        },
        !old(already_dispatched)@.contains(to_dispatch_val.left_ln.line_ndx) ==> {
            &&& final(output)@ == old(output)@ + format_row(
                to_dispatch_val.left_ln.content@,
                to_dispatch_val.right_ln.content@,
                ending.bytes(),
            )
            &&& final(already_dispatched)@ == old(already_dispatched)@.push(
                to_dispatch_val.left_ln.line_ndx,
            )
        },
{
    if contains_index(already_dispatched, to_dispatch_val.left_ln.line_ndx) {
        return ;
    }
    already_dispatched.push(to_dispatch_val.left_ln.line_ndx);
    push_row(output, to_dispatch_val.left_ln.content, to_dispatch_val.right_ln.content, ending);
}

/// The row that `entry` stands for, as `row_of` gives it.
fn pair_entry<'a>(left: &[Line<'a>], right: &[Line<'a>], entry: &EditEntry<Line<'a>>) -> (r: Diff<'a>)
    ensures
        (r.left_ln@, r.right_ln@) == row_of(
            crate::lines::lines_view(left@),
            crate::lines::lines_view(right@),
            entry@,
        ),
{
    let empty: &[u8] = &[];
    assert(empty@ =~= Seq::<u8>::empty());
    match entry {
        EditEntry::OnlyLeft(l) => {
            if l.line_ndx < right.len() {
                Diff::new(*l, right[l.line_ndx])
            } else {
                Diff::new(*l, Line::new(l.line_ndx, empty))
            }
        },
        EditEntry::OnlyRight(r) => {
            if r.line_ndx < left.len() {
                Diff::new(left[r.line_ndx], *r)
            } else {
                Diff::new(Line::new(r.line_ndx, empty), *r)
            }
        },
        EditEntry::Both(l, r) => Diff::new(*l, *r),
    }
}

/// Renders the rows of `script` over `left` and `right`.
pub fn render_script<'a>(
    left: &[Line<'a>],
    right: &[Line<'a>],
    script: &[EditEntry<Line<'a>>],
    ending: LineEnding,
) -> (out: Vec<u8>)
    ensures
        out@ == listing(
            rows(
                crate::lines::lines_view(left@),
                crate::lines::lines_view(right@),
                script_view(script@),
            ),
            ending.bytes(),
        ),
{
    let ghost lv = crate::lines::lines_view(left@);
    let ghost rv = crate::lines::lines_view(right@);
    let ghost sv = script_view(script@);
    let mut output: Vec<u8> = Vec::new();
    let mut already_dispatched: Vec<usize> = Vec::new();
    let mut k: usize = 0;
    while k < script.len()
        invariant
            k <= script@.len(),
            lv == crate::lines::lines_view(left@),
            rv == crate::lines::lines_view(right@),
            sv == script_view(script@),
            output@ == listing(rows(lv, rv, sv.subrange(0, k as int)), ending.bytes()),
            already_dispatched@ == keys(rows(lv, rv, sv.subrange(0, k as int))),
        decreases script@.len() - k,
    {
        let d = pair_entry(left, right, &script[k]);
        let ghost prev = rows(lv, rv, sv.subrange(0, k as int));
        assert(sv.subrange(0, k + 1).drop_last() == sv.subrange(0, k as int));
        assert(sv.subrange(0, k + 1).last() == sv[k as int]);
        dispatch_to_output(&mut output, &d, &mut already_dispatched, ending);
        k = k + 1;
        proof {
            let row = row_of(lv, rv, sv[k - 1]);
            if !keys(prev).contains(key_of(row)) {
                assert(prev.push(row).drop_last() == prev);
                assert(keys(prev.push(row)) =~= keys(prev).push(key_of(row)));
            }
        }
    }
    assert(sv.subrange(0, script@.len() as int) == sv);
    output
}

} // verus!
