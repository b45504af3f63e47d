//! Rendering one row of side-by-side output.
use vstd::prelude::*;

verus! {

/// Bytes of a line shown in its column; the rest is cut off.
pub const LIMITER: usize = 61;

pub const SPACE: u8 = 32;

pub const BAR: u8 = 124;

pub const LESS: u8 = 60;

pub const GREATER: u8 = 62;

pub const CR: u8 = 13;

pub const LF: u8 = 10;

/// How each row of output ends.
#[derive(Clone, Copy, Debug, PartialEq, Eq)]
pub enum LineEnding {
    Lf,
    CrLf,
}

impl LineEnding {
    pub open spec fn bytes(self) -> Seq<u8> {
        match self {
            LineEnding::Lf => seq![LF],
            LineEnding::CrLf => seq![CR, LF],
        }
    }
}

/// What a column shows of `s`: its first `LIMITER` bytes.
pub open spec fn truncated(s: Seq<u8>) -> Seq<u8> {
    if s.len() <= LIMITER {
        s
    } else {
        s.subrange(0, LIMITER as int)
    }
}

pub open spec fn spaces(n: nat) -> Seq<u8> {
    Seq::new(n, |_i: int| SPACE)
}

/// The marker between the columns: `>` where only the right side has content,
/// `<` where only the left side has, a blank where both are equal, `|` otherwise.
pub open spec fn symbol_of(left: Seq<u8>, right: Seq<u8>) -> Seq<u8> {
    if right.len() > 0 && left.len() == 0 {
        seq![GREATER]
    } else if left.len() > 0 && right.len() == 0 {
        seq![LESS]
    } else if left == right {
        seq![SPACE]
    } else {
        seq![BAR]
    }
}

/// One row: the left column padded to `LIMITER` bytes plus one space, the marker,
/// a space, the right column and the line ending.
pub open spec fn format_row(left: Seq<u8>, right: Seq<u8>, eol: Seq<u8>) -> Seq<u8> {
    let l = truncated(left);
    truncated(left) + spaces((LIMITER - l.len()) as nat + 1) + symbol_of(left, right) + seq![SPACE]
        + truncated(right) + eol
}

/// Where a line is longer than `LIMITER` bytes its column shows exactly its first
/// `LIMITER` bytes, and nothing after them appears in the row: the left column
/// fills the first `LIMITER + 1` bytes, the right column ends right before the
/// line ending.
pub proof fn lemma_truncation(left: Seq<u8>, right: Seq<u8>, eol: Seq<u8>)
    ensures
        format_row(left, right, eol).len() == LIMITER + 3 + truncated(right).len() + eol.len(),
        format_row(left, right, eol).subrange(LIMITER + 3, LIMITER + 3 + truncated(right).len())
            == truncated(right),
        format_row(left, right, eol).subrange(
            LIMITER + 3 + truncated(right).len(),
            format_row(left, right, eol).len() as int,
        ) == eol,
        left.len() > LIMITER ==> format_row(left, right, eol).subrange(0, LIMITER as int)
            == left.subrange(0, LIMITER as int) && format_row(left, right, eol)[LIMITER as int]
            == SPACE,
        right.len() > LIMITER ==> format_row(left, right, eol).subrange(
            LIMITER + 3,
            2 * LIMITER + 3,
        ) == right.subrange(0, LIMITER as int),
{
    let row = format_row(left, right, eol);
    let l = truncated(left);
    let head = l + spaces((LIMITER - l.len()) as nat + 1) + symbol_of(left, right) + seq![SPACE];
    assert(head.len() == LIMITER + 3);
    assert(row == head + truncated(right) + eol);
    assert(row.subrange(LIMITER + 3, LIMITER + 3 + truncated(right).len()) =~= truncated(right));
    assert(row.subrange(LIMITER + 3 + truncated(right).len(), row.len() as int) =~= eol);
    if left.len() > LIMITER {
        assert(row.subrange(0, LIMITER as int) =~= left.subrange(0, LIMITER as int));
    }
}

/// How many times `b` occurs in `s`.
pub open spec fn count_byte(s: Seq<u8>, b: u8) -> nat
    decreases s.len(),
{
    if s.len() == 0 {
        0
    } else {
        count_byte(s.drop_last(), b) + if s.last() == b {
            1nat
        } else {
            0nat
        }
    }
}

pub proof fn lemma_count_concat(s: Seq<u8>, t: Seq<u8>, b: u8)
    ensures
        count_byte(s + t, b) == count_byte(s, b) + count_byte(t, b),
    decreases t.len(),
{
    if t.len() > 0 {
        lemma_count_concat(s, t.drop_last(), b);
        assert((s + t).drop_last() == s + t.drop_last());
    }
}

pub proof fn lemma_count_absent(s: Seq<u8>, b: u8)
    requires
        !s.contains(b),
    ensures
        count_byte(s, b) == 0,
    decreases s.len(),
{
    if s.len() > 0 {
        assert(!s.drop_last().contains(b)) by {
            if s.drop_last().contains(b) {
                let i = choose|i: int| 0 <= i < s.drop_last().len() && s.drop_last()[i] == b;
                assert(s[i] == b);
            }
        }
        lemma_count_absent(s.drop_last(), b);
        assert(s[s.len() - 1] == s.last());
    }
}

/// A row whose lines hold no line feed holds exactly the line feeds of its ending.
pub proof fn lemma_row_line_feeds(left: Seq<u8>, right: Seq<u8>, eol: Seq<u8>)
    requires
        !left.contains(LF),
        !right.contains(LF),
    ensures
        count_byte(format_row(left, right, eol), LF) == count_byte(eol, LF),
{
    let l = truncated(left);
    let r = truncated(right);
    let mid = spaces((LIMITER - l.len()) as nat + 1) + symbol_of(left, right) + seq![SPACE];
    assert(!l.contains(LF)) by {
        if l.contains(LF) {
            let i = choose|i: int| 0 <= i < l.len() && l[i] == LF;
            assert(left[i] == LF);
        }
    }
    assert(!r.contains(LF)) by {
        if r.contains(LF) {
            let i = choose|i: int| 0 <= i < r.len() && r[i] == LF;
            assert(right[i] == LF);
        }
    }
    assert(!mid.contains(LF));
    lemma_count_absent(l, LF);
    lemma_count_absent(r, LF);
    lemma_count_absent(mid, LF);
    assert(format_row(left, right, eol) == l + mid + r + eol);
    lemma_count_concat(l, mid, LF);
    lemma_count_concat(l + mid, r, LF);
    lemma_count_concat(l + mid + r, eol, LF);
}

/// Whether two byte strings are equal.
pub fn bytes_equal(a: &[u8], b: &[u8]) -> (r: bool)
    ensures
        r == (a@ == b@),
{
    if a.len() != b.len() {
        return false;
    }
    let mut i: usize = 0;
    while i < a.len()
        invariant
            a@.len() == b@.len(),
            i <= a@.len(),
            forall|j: int| 0 <= j < i ==> a@[j] == b@[j],
        decreases a@.len() - i,
    {
        if a[i] != b[i] {
            return false;
        }
        i = i + 1;
    }
    assert(a@ =~= b@);
    true
}

/// Appends `bytes` to `out`.
fn push_all(out: &mut Vec<u8>, bytes: &[u8])
    ensures
        final(out)@ == old(out)@ + bytes@,
{
    let mut i: usize = 0;
    while i < bytes.len()
        invariant
            i <= bytes@.len(),
            out@ == old(out)@ + bytes@.subrange(0, i as int),
        decreases bytes@.len() - i,
    {
        out.push(bytes[i]);
        i = i + 1;
        assert(bytes@.subrange(0, i as int) == bytes@.subrange(0, i - 1).push(bytes@[i - 1]));
    }
    assert(bytes@.subrange(0, bytes@.len() as int) == bytes@);
}

/// Appends `n` spaces to `out`.
fn push_spaces(out: &mut Vec<u8>, n: usize)
    ensures
        final(out)@ == old(out)@ + spaces(n as nat),
{
    let mut i: usize = 0;
    while i < n
        invariant
            i <= n,
            out@ == old(out)@ + spaces(i as nat),
        decreases n - i,
    {
        out.push(SPACE);
        i = i + 1;
        assert(spaces(i as nat) == spaces((i - 1) as nat).push(SPACE));
    }
}

/// The part of `s` shown in a column.
pub fn limited(s: &[u8]) -> (r: &[u8])
    ensures
        r@ == truncated(s@),
{
    if s.len() <= LIMITER {
        s
    } else {
        vstd::slice::slice_subrange(s, 0, LIMITER)
    }
}

/// Appends the row that shows `left` beside `right` to `out`.
pub fn push_row(out: &mut Vec<u8>, left: &[u8], right: &[u8], ending: LineEnding)
    ensures
        final(out)@ == old(out)@ + format_row(left@, right@, ending.bytes()),
{
    let l = limited(left);
    let r = limited(right);
    let symbol: u8 = if right.len() > 0 && left.len() == 0 {
        GREATER
    } else if left.len() > 0 && right.len() == 0 {
        LESS
    } else if bytes_equal(left, right) {
        SPACE
    } else {
        BAR
    };
    push_all(out, l);
    push_spaces(out, LIMITER - l.len() + 1);
    out.push(symbol);
    out.push(SPACE);
    push_all(out, r);
    match ending {
        LineEnding::Lf => {
            out.push(LF);
        },
        LineEnding::CrLf => {
            out.push(CR);
            out.push(LF);
        },
    }
    proof {
        let row = format_row(left@, right@, ending.bytes());
        assert(out@ =~= old(out)@ + row);
    }
}

} // verus!
