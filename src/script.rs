//! Edit scripts: the one `diff::slice` computes over line contents, and its
//! entries numbered with the positions of their lines.
use crate::lines::{indexed, Line};
use crate::reconcile::{entry_lines, keys, rows, script_view, EditEntry, LineView};
use vstd::prelude::*;

verus! {

impl<'a> View for EditEntry<&'a [u8]> {
    type V = EditEntry<Seq<u8>>;

    open spec fn view(&self) -> EditEntry<Seq<u8>> {
        match *self {
            EditEntry::OnlyLeft(l) => EditEntry::OnlyLeft(l@),
            EditEntry::OnlyRight(r) => EditEntry::OnlyRight(r@),
            EditEntry::Both(l, r) => EditEntry::Both(l@, r@),
        }
    }
}

/// The bytes of a run of byte strings.
pub open spec fn bytes_view<'a>(s: Seq<&'a [u8]>) -> Seq<Seq<u8>> {
    s.map_values(|b: &'a [u8]| b@)
}

/// The views of a run of entries over line contents.
pub open spec fn content_script_view<'a>(s: Seq<EditEntry<&'a [u8]>>) -> Seq<EditEntry<Seq<u8>>> {
    s.map_values(|e: EditEntry<&'a [u8]>| e@)
}

/// The edit script that `diff::slice` computes from two runs of line contents.
pub uninterp spec fn edit_script_of(left: Seq<Seq<u8>>, right: Seq<Seq<u8>>) -> Seq<EditEntry<Seq<u8>>>;

/// The left items that a script keeps or removes, in its order.
pub open spec fn left_side<L>(s: Seq<EditEntry<L>>) -> Seq<L>
    decreases s.len(),
{
    if s.len() == 0 {
        Seq::empty()
    } else {
        let prev = left_side(s.drop_last());
        match s.last() {
            EditEntry::OnlyLeft(l) => prev.push(l),
            EditEntry::Both(l, _r) => prev.push(l),
            EditEntry::OnlyRight(_r) => prev,
        }
    }
}

/// The right items that a script keeps or inserts, in its order.
pub open spec fn right_side<L>(s: Seq<EditEntry<L>>) -> Seq<L>
    decreases s.len(),
{
    if s.len() == 0 {
        Seq::empty()
    } else {
        let prev = right_side(s.drop_last());
        match s.last() {
            EditEntry::OnlyRight(r) => prev.push(r),
            EditEntry::Both(_l, r) => prev.push(r),
            EditEntry::OnlyLeft(_l) => prev,
        }
    }
}

/// Every kept pair of a script pairs two equal items.
pub open spec fn kept_pairs_equal<L>(s: Seq<EditEntry<L>>) -> bool {
    forall|i: int|
        0 <= i < s.len() ==> match #[trigger] s[i] {
            EditEntry::Both(l, r) => l == r,
            _ => true,
        }
}

/// An edit script of `left` into `right`: it lists each left item once and each
/// right item once, in order, and keeps only equal items together.
pub open spec fn is_edit_script<L>(s: Seq<EditEntry<L>>, left: Seq<L>, right: Seq<L>) -> bool {
    &&& left_side(s) == left
    &&& right_side(s) == right
    &&& kept_pairs_equal(s)
}

/// The script that keeps every item.
pub open spec fn all_kept<L>(items: Seq<L>) -> Seq<EditEntry<L>> {
    items.map_values(|x: L| EditEntry::Both(x, x))
}

/// Relies on `diff::slice` over line contents, compared with `==` on byte
/// slices. Its result holds each left item once as `Left` or in `Both`, and each
/// right item once as `Right` or in `Both`, in their order; `Both` pairs equal
/// items; on equal inputs every item is kept. Its table of
/// (left + 1) * (right + 1) `u32`s must be allocatable.
#[verifier::external_body]
pub(crate) fn edit_script<'a>(left: &[&'a [u8]], right: &[&'a [u8]]) -> (r: Vec<EditEntry<&'a [u8]>>)
    requires
        (left@.len() + 1) * (right@.len() + 1) * 4 <= isize::MAX,
    ensures
        content_script_view(r@) == edit_script_of(bytes_view(left@), bytes_view(right@)),
        is_edit_script(content_script_view(r@), bytes_view(left@), bytes_view(right@)),
        bytes_view(left@) == bytes_view(right@) ==> content_script_view(r@) == all_kept(
            bytes_view(left@),
        ),
{
    diff::slice(left, right).into_iter().map(|e| match e {
        diff::Result::Left(a) => EditEntry::OnlyLeft(*a),
        diff::Result::Right(b) => EditEntry::OnlyRight(*b),
        diff::Result::Both(a, b) => EditEntry::Both(*a, *b),
    }).collect()
}

/// Entry `e` with its lines numbered: `i` on the left side, `j` on the right.
pub open spec fn numbered_entry(e: EditEntry<Seq<u8>>, i: usize, j: usize) -> EditEntry<LineView> {
    match e {
        EditEntry::OnlyLeft(c) => EditEntry::OnlyLeft((i, c)),
        EditEntry::OnlyRight(c) => EditEntry::OnlyRight((j, c)),
        EditEntry::Both(a, b) => EditEntry::Both((i, a), (j, b)),
    }
}

/// A script whose lines carry their positions: the k-th left line the script
/// lists gets index k, and so on the right.
pub open spec fn numbered(s: Seq<EditEntry<Seq<u8>>>) -> Seq<EditEntry<LineView>>
    decreases s.len(),
{
    if s.len() == 0 {
        Seq::empty()
    } else {
        let p = s.drop_last();
        numbered(p).push(
            numbered_entry(s.last(), left_side(p).len() as usize, right_side(p).len() as usize),
        )
    }
}

pub proof fn lemma_sides_len<L>(s: Seq<EditEntry<L>>)
    ensures
        left_side(s).len() <= s.len(),
        right_side(s).len() <= s.len(),
    decreases s.len(),
{
    if s.len() > 0 {
        lemma_sides_len(s.drop_last());
    }
}

pub proof fn lemma_numbered_len(s: Seq<EditEntry<Seq<u8>>>)
    ensures
        numbered(s).len() == s.len(),
    decreases s.len(),
{
    if s.len() > 0 {
        lemma_numbered_len(s.drop_last());
    }
}

/// The contents of a run of lines.
pub fn contents_of<'a>(lines: &[Line<'a>]) -> (r: Vec<&'a [u8]>)
    ensures
        bytes_view(r@) == crate::lines::lines_view(lines@).map_values(|v: LineView| v.1),
{
    let mut out: Vec<&'a [u8]> = Vec::new();
    let mut k: usize = 0;
    while k < lines.len()
        invariant
            k <= lines@.len(),
            out@.len() == k,
            forall|i: int| 0 <= i < k ==> #[trigger] out@[i]@ == lines@[i].content@,
        decreases lines@.len() - k,
    {
        out.push(lines[k].content);
        k = k + 1;
    }
    assert(bytes_view(out@) =~= crate::lines::lines_view(lines@).map_values(|v: LineView| v.1));
    out
}

/// Numbers the lines of `script` with their positions on each side.
pub fn number_entries<'a>(script: &[EditEntry<&'a [u8]>]) -> (r: Vec<EditEntry<Line<'a>>>)
    ensures
        script_view(r@) == numbered(content_script_view(script@)),
{
    let ghost cs = content_script_view(script@);
    let mut out: Vec<EditEntry<Line<'a>>> = Vec::new();
    let mut i: usize = 0;
    let mut j: usize = 0;
    let mut k: usize = 0;
    while k < script.len()
        invariant
            k <= script@.len(),
            cs == content_script_view(script@),
            i == left_side(cs.subrange(0, k as int)).len(),
            j == right_side(cs.subrange(0, k as int)).len(),
            script_view(out@) == numbered(cs.subrange(0, k as int)),
        decreases script@.len() - k,
    {
        let ghost p = cs.subrange(0, k as int);
        proof {
            lemma_sides_len(p);
            assert(cs.subrange(0, k + 1).drop_last() == p);
            assert(cs.subrange(0, k + 1).last() == cs[k as int]);
        }
        let e = match &script[k] {
            EditEntry::OnlyLeft(c) => {
                let e = EditEntry::OnlyLeft(Line::new(i, *c));
                i = i + 1;
                e
            },
            EditEntry::OnlyRight(c) => {
                let e = EditEntry::OnlyRight(Line::new(j, *c));
                j = j + 1;
                e
            },
            EditEntry::Both(a, b) => {
                let e = EditEntry::Both(Line::new(i, *a), Line::new(j, *b));
                i = i + 1;
                j = j + 1;
                e
            },
        };
        out.push(e);
        k = k + 1;
        proof {
            assert(script_view(out@) =~= numbered(cs.subrange(0, k as int)));
        }
    }
    assert(cs.subrange(0, script@.len() as int) == cs);
    out
}

/// Each line of a numbered entry holds contents that its script lists on one side.
pub proof fn lemma_numbered_lines_listed(cs: Seq<EditEntry<Seq<u8>>>)
    ensures
        forall|i: int, k: int|
            0 <= i < numbered(cs).len() && 0 <= k < entry_lines(numbered(cs)[i]).len() ==> {
                let c = (#[trigger] entry_lines(#[trigger] numbered(cs)[i])[k]).1;
                left_side(cs).contains(c) || right_side(cs).contains(c)
            },
    decreases cs.len(),
{
    if cs.len() > 0 {
        let p = cs.drop_last();
        lemma_numbered_lines_listed(p);
        lemma_numbered_len(p);
        let lp = left_side(p);
        let rp = right_side(p);
        match cs.last() {
            EditEntry::OnlyLeft(l) => {
                assert(left_side(cs) == lp.push(l));
                assert(right_side(cs) == rp);
            },
            EditEntry::Both(l, r) => {
                assert(left_side(cs) == lp.push(l));
                assert(right_side(cs) == rp.push(r));
            },
            EditEntry::OnlyRight(r) => {
                assert(left_side(cs) == lp);
                assert(right_side(cs) == rp.push(r));
            },
        }
        assert forall|c: Seq<u8>| lp.contains(c) implies left_side(cs).contains(c) by {
            let j = choose|j: int| 0 <= j < lp.len() && lp[j] == c;
            assert(left_side(cs)[j] == c);
        }
        assert forall|c: Seq<u8>| rp.contains(c) implies right_side(cs).contains(c) by {
            let j = choose|j: int| 0 <= j < rp.len() && rp[j] == c;
            assert(right_side(cs)[j] == c);
        }
        let ls = left_side(cs);
        let rs = right_side(cs);
        assert(ls.len() > 0 ==> ls[ls.len() - 1] == ls.last());
        assert(rs.len() > 0 ==> rs[rs.len() - 1] == rs.last());
        assert forall|i: int, k: int|
            0 <= i < numbered(cs).len() && 0 <= k < entry_lines(numbered(cs)[i]).len() implies {
                let c = (#[trigger] entry_lines(#[trigger] numbered(cs)[i])[k]).1;
                left_side(cs).contains(c) || right_side(cs).contains(c)
            } by {
            if i < p.len() {
                assert(numbered(cs)[i] == numbered(p)[i]);
            }
        }
    }
}

/// Keeping every line numbers each kept pair with its position on both sides.
pub proof fn lemma_numbered_all_kept(items: Seq<Seq<u8>>)
    requires
        items.len() <= usize::MAX + 1,
    ensures
        numbered(all_kept(items)) == indexed(items).map_values(
            |x: LineView| EditEntry::Both(x, x),
        ),
        left_side(all_kept(items)) == items,
        right_side(all_kept(items)) == items,
    decreases items.len(),
{
    if items.len() > 0 {
        let p = items.drop_last();
        lemma_numbered_all_kept(p);
        assert(all_kept(items).drop_last() == all_kept(p));
        assert(all_kept(items).last() == EditEntry::Both(items.last(), items.last()));
        assert(numbered(all_kept(items)) =~= indexed(items).map_values(
            |x: LineView| EditEntry::Both(x, x),
        ));
        assert(left_side(all_kept(items)) =~= items);
        assert(right_side(all_kept(items)) =~= items);
    }
}

/// Where every line is kept, each line gets one row showing it beside itself, in
/// the lines' order.
pub proof fn lemma_all_kept_rows(left: Seq<LineView>, right: Seq<LineView>, items: Seq<Seq<u8>>)
    requires
        items.len() <= usize::MAX + 1,
    ensures
        rows(left, right, numbered(all_kept(items))) == indexed(items).map_values(
            |x: LineView| (x, x),
        ),
    decreases items.len(),
{
    lemma_numbered_all_kept(items);
    if items.len() > 0 {
        let p = items.drop_last();
        lemma_all_kept_rows(left, right, p);
        lemma_numbered_all_kept(p);
        let s = numbered(all_kept(items));
        assert(s.drop_last() =~= numbered(all_kept(p)));
        let prev = indexed(p).map_values(|x: LineView| (x, x));
        let k = (items.len() - 1) as usize;
        assert forall|m: int| 0 <= m < keys(prev).len() implies keys(prev)[m] != k by {
            assert(keys(prev)[m] == m as usize);
        }
        assert(!keys(prev).contains(k));
        assert(rows(left, right, s) =~= indexed(items).map_values(|x: LineView| (x, x)));
    }
}

} // verus!
