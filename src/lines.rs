//! Splitting a byte buffer into indexed lines.
use vstd::prelude::*;

verus! {

/// The byte that separates lines.
pub const NEWLINE: u8 = 10;

/// One line of a buffer: its 0-based position and its bytes, without the separator.
#[derive(Clone, Copy, Debug)]
pub struct Line<'a> {
    pub line_ndx: usize,
    pub content: &'a [u8],
}

impl<'a> View for Line<'a> {
    type V = (usize, Seq<u8>);

    open spec fn view(&self) -> (usize, Seq<u8>) {
        (self.line_ndx, self.content@)
    }
}

impl<'a> Line<'a> {
    pub fn new(line_ndx: usize, content: &'a [u8]) -> (r: Self)
        ensures
            r@ == (line_ndx, content@),
    {
        Line { line_ndx, content }
    }
}

/// The lines of `buf`: the maximal runs of bytes between separators.
/// Every buffer, the empty one included, has at least one line.
pub open spec fn split_spec(buf: Seq<u8>) -> Seq<Seq<u8>>
    decreases buf.len(),
{
    if buf.len() == 0 {
        seq![Seq::empty()]
    } else {
        let prev = split_spec(buf.drop_last());
        if buf.last() == NEWLINE {
            prev.push(Seq::empty())
        } else {
            prev.update(prev.len() - 1, prev.last().push(buf.last()))
        }
    }
}

/// Each line paired with its position.
pub open spec fn indexed(lines: Seq<Seq<u8>>) -> Seq<(usize, Seq<u8>)> {
    lines.map(|i: int, l: Seq<u8>| (i as usize, l))
}

/// The views of a run of lines.
pub open spec fn lines_view<'a>(lines: Seq<Line<'a>>) -> Seq<(usize, Seq<u8>)> {
    lines.map_values(|l: Line<'a>| l@)
}

pub proof fn lemma_split_len(buf: Seq<u8>)
    ensures
        1 <= split_spec(buf).len() <= buf.len() + 1,
    decreases buf.len(),
{
    if buf.len() > 0 {
        lemma_split_len(buf.drop_last());
    }
}

/// No line holds a separator.
pub proof fn lemma_split_no_separator(buf: Seq<u8>)
    ensures
        forall|i: int| 0 <= i < split_spec(buf).len() ==> !(#[trigger] split_spec(buf)[i]).contains(NEWLINE),
    decreases buf.len(),
{
    if buf.len() > 0 {
        let prev = split_spec(buf.drop_last());
        lemma_split_no_separator(buf.drop_last());
        lemma_split_len(buf.drop_last());
        assert(!Seq::<u8>::empty().contains(NEWLINE));
        if buf.last() != NEWLINE {
            let l = prev.last().push(buf.last());
            assert(prev[prev.len() - 1] == prev.last());
            assert(!l.contains(NEWLINE)) by {
                if l.contains(NEWLINE) {
                    let j = choose|j: int| 0 <= j < l.len() && l[j] == NEWLINE;
                    assert(j < prev.last().len());
                    assert(prev.last()[j] == NEWLINE);
                }
            }
        }
    }
}

/// Splits `buf` on every separator; line `i` gets index `i`.
pub fn split_lines<'a>(buf: &'a [u8]) -> (r: Vec<Line<'a>>)
    ensures
        lines_view(r@) == indexed(split_spec(buf@)),
{
    let mut lines: Vec<Line<'a>> = Vec::new();
    let mut start: usize = 0;
    let mut i: usize = 0;
    while i < buf.len()
        invariant
            start <= i <= buf@.len(),
            split_spec(buf@.subrange(0, i as int)).len() == lines@.len() + 1,
            split_spec(buf@.subrange(0, i as int)).last() == buf@.subrange(start as int, i as int),
            forall|j: int|
                0 <= j < lines@.len() ==> #[trigger] lines@[j]@ == (
                    j as usize,
                    split_spec(buf@.subrange(0, i as int))[j],
                ),
        decreases buf@.len() - i,
    {
        assert(buf@.subrange(0, i + 1).drop_last() == buf@.subrange(0, i as int));
        if buf[i] == NEWLINE {
            let line = Line::new(lines.len(), vstd::slice::slice_subrange(buf, start, i));
            lines.push(line);
            start = i + 1;
        } else {
            assert(buf@.subrange(start as int, i + 1) == buf@.subrange(start as int, i as int).push(
                buf@[i as int],
            ));
        }
        i = i + 1;
    }
    let last = Line::new(lines.len(), vstd::slice::slice_subrange(buf, start, buf.len()));
    lines.push(last);
    proof {
        assert(buf@.subrange(0, buf@.len() as int) == buf@);
        assert(lines_view(lines@) =~= indexed(split_spec(buf@)));
    }
    lines
}

} // verus!
