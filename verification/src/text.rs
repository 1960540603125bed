//! Character-level text helpers shared by the descriptor parser: whitespace
//! trimming, first-occurrence search, line splitting and string equality,
//! each with a specification-level model.

use vstd::prelude::*;

verus! {

/// The characters that trimming removes from the ends of a line: the Unicode
/// `White_Space` code points.
pub open spec fn is_space(c: char) -> bool {
    ||| c == '\t' || c == '\n' || c == '\u{b}' || c == '\u{c}' || c == '\r' || c == ' '
    ||| c == '\u{85}' || c == '\u{a0}' || c == '\u{1680}'
    ||| '\u{2000}' <= c && c <= '\u{200a}'
    ||| c == '\u{2028}' || c == '\u{2029}' || c == '\u{202f}' || c == '\u{205f}' || c == '\u{3000}'
}

/// Executable counterpart of [`is_space`].
pub fn is_space_char(c: char) -> (r: bool)
    ensures
        r == is_space(c),
{
    (c == '\t' || c == '\n' || c == '\u{b}' || c == '\u{c}' || c == '\r' || c == ' ')
        || (c == '\u{85}' || c == '\u{a0}' || c == '\u{1680}')
        || ('\u{2000}' <= c && c <= '\u{200a}')
        || (c == '\u{2028}' || c == '\u{2029}' || c == '\u{202f}' || c == '\u{205f}' || c
        == '\u{3000}')
}

/// The sequence with its leading spaces removed.
pub open spec fn trim_start(s: Seq<char>) -> Seq<char>
    decreases s.len(),
{
    if s.len() > 0 && is_space(s[0]) {
        trim_start(s.drop_first())
    } else {
        s
    }
}

/// The sequence with its trailing spaces removed.
pub open spec fn trim_end(s: Seq<char>) -> Seq<char>
    decreases s.len(),
{
    if s.len() > 0 && is_space(s.last()) {
        trim_end(s.drop_last())
    } else {
        s
    }
}

/// The sequence with leading and trailing spaces removed.
pub open spec fn trimmed(s: Seq<char>) -> Seq<char> {
    trim_end(trim_start(s))
}

/// `trim_start` drops exactly the longest all-space prefix.
proof fn lemma_trim_start_skip(s: Seq<char>, k: int)
    requires
        0 <= k <= s.len(),
        forall|j: int| 0 <= j < k ==> is_space(s[j]),
        k == s.len() || !is_space(s[k]),
    ensures
        trim_start(s) == s.skip(k),
    decreases k,
{
    if k == 0 {
        assert(s.skip(0) =~= s);
    } else {
        assert(is_space(s[0]));
        lemma_trim_start_skip(s.drop_first(), k - 1);
        assert(s.drop_first().skip(k - 1) =~= s.skip(k));
    }
}

/// `trim_end` drops exactly the longest all-space suffix.
proof fn lemma_trim_end_take(s: Seq<char>, h: int)
    requires
        0 <= h <= s.len(),
        forall|j: int| h <= j < s.len() ==> is_space(s[j]),
        h == 0 || !is_space(s[h - 1]),
    ensures
        trim_end(s) == s.take(h),
    decreases s.len() - h,
{
    if h == s.len() {
        assert(s.take(h) =~= s);
    } else {
        assert(is_space(s.last()));
        lemma_trim_end_take(s.drop_last(), h);
        assert(s.drop_last().take(h) =~= s.take(h));
    }
}

/// Bounds of the trimmed portion of `s[lo..hi)`: the returned pair `(a, b)`
/// delimits the same characters as `trimmed` applied to that slice.
pub fn trim_bounds(s: &str, lo: usize, hi: usize) -> (r: (usize, usize))
    requires
        lo <= hi <= s@.len(),
    ensures
        lo <= r.0 <= r.1 <= hi,
        s@.subrange(r.0 as int, r.1 as int) == trimmed(s@.subrange(lo as int, hi as int)),
{
    let mut a: usize = lo;
    while a < hi && is_space_char(s.get_char(a))
        invariant
            lo <= a <= hi <= s@.len(),
            forall|j: int| lo <= j < a ==> is_space(s@[j]),
        decreases hi - a,
    {
        a = a + 1;
    }
    let mut b: usize = hi;
    while b > a && is_space_char(s.get_char(b - 1))
        invariant
            a <= b <= hi <= s@.len(),
            forall|j: int| b <= j < hi ==> is_space(s@[j]),
        decreases b,
    {
        b = b - 1;
    }
    proof {
        let whole = s@.subrange(lo as int, hi as int);
        lemma_trim_start_skip(whole, a - lo);
        assert(whole.skip(a - lo) =~= s@.subrange(a as int, hi as int));
        let started = s@.subrange(a as int, hi as int);
        lemma_trim_end_take(started, b - a);
        assert(started.take(b - a) =~= s@.subrange(a as int, b as int));
    }
    (a, b)
}

/// Index of the first occurrence of `c` in `s`, or `s.len()` if `c` does not
/// occur.
pub open spec fn find_char(s: Seq<char>, c: char) -> int
    decreases s.len(),
{
    if s.len() == 0 {
        0
    } else if s[0] == c {
        0
    } else {
        1 + find_char(s.drop_first(), c)
    }
}

/// `find_char` stays within the bounds of the sequence.
pub proof fn lemma_find_char_le_len(s: Seq<char>, c: char)
    ensures
        0 <= find_char(s, c) <= s.len(),
    decreases s.len(),
{
    if s.len() > 0 && s[0] != c {
        lemma_find_char_le_len(s.drop_first(), c);
    }
}

/// A position preceded only by non-`c` characters and holding `c` (or the end
/// of the sequence) is the first occurrence.
pub proof fn lemma_find_char_at(s: Seq<char>, c: char, k: int)
    requires
        0 <= k <= s.len(),
        forall|j: int| 0 <= j < k ==> s[j] != c,
        k == s.len() || s[k] == c,
    ensures
        find_char(s, c) == k,
    decreases k,
{
    if k == 0 {
    } else {
        lemma_find_char_at(s.drop_first(), c, k - 1);
    }
}

/// Index of the first occurrence of `c` in `s[from..to)`, or `to` if `c` does
/// not occur there.
pub fn find_in(s: &str, from: usize, to: usize, c: char) -> (r: usize)
    requires
        from <= to <= s@.len(),
    ensures
        from <= r <= to,
        r - from == find_char(s@.subrange(from as int, to as int), c),
        r < to ==> s@[r as int] == c,
{
    let mut i: usize = from;
    while i < to && s.get_char(i) != c
        invariant
            from <= i <= to <= s@.len(),
            forall|j: int| from <= j < i ==> s@[j] != c,
        decreases to - i,
    {
        i = i + 1;
    }
    proof {
        let part = s@.subrange(from as int, to as int);
        lemma_find_char_at(part, c, i - from);
    }
    i
}

/// Whether two strings hold the same characters.
pub fn str_eq(a: &str, b: &str) -> (r: bool)
    ensures
        r == (a@ == b@),
{
    let na = a.unicode_len();
    let nb = b.unicode_len();
    if na != nb {
        return false;
    }
    let mut i: usize = 0;
    while i < na
        invariant
            0 <= i <= na,
            na == a@.len() && na == b@.len(),
            forall|j: int| 0 <= j < i ==> a@[j] == b@[j],
        decreases na - i,
    {
        if a.get_char(i) != b.get_char(i) {
            return false;
        }
        i = i + 1;
    }
    proof {
        assert(a@ =~= b@);
    }
    true
}

/// A line with a trailing carriage return removed.
pub open spec fn strip_cr(s: Seq<char>) -> Seq<char> {
    if s.len() > 0 && s.last() == '\r' {
        s.drop_last()
    } else {
        s
    }
}

/// The lines of a document: split on line feeds, each line stripped of one
/// trailing carriage return, with no empty line after a final line feed.
pub open spec fn lines_of(s: Seq<char>) -> Seq<Seq<char>>
    decreases s.len(),
    via lines_of_decreases
{
    if s.len() == 0 {
        Seq::empty()
    } else {
        let i = find_char(s, '\n');
        if i == s.len() {
            seq![strip_cr(s)]
        } else {
            seq![strip_cr(s.take(i))] + lines_of(s.skip(i + 1))
        }
    }
}

#[via_fn]
proof fn lines_of_decreases(s: Seq<char>) {
    lemma_find_char_le_len(s, '\n');
}

/// The lines of `s`, as owned strings.
pub fn split_lines(s: &str) -> (lines: Vec<String>)
    ensures
        lines@.map_values(|l: String| l@) == lines_of(s@),
{
    let n = s.unicode_len();
    let mut lines: Vec<String> = Vec::new();
    let mut pos: usize = 0;
    proof {
        assert(s@.skip(0) =~= s@);
        assert(lines@.map_values(|l: String| l@) + lines_of(s@) =~= lines_of(s@));
    }
    while pos < n
        invariant
            0 <= pos <= n,
            n == s@.len(),
            lines@.map_values(|l: String| l@) + lines_of(s@.skip(pos as int)) == lines_of(s@),
        decreases n - pos,
    {
        let ghost prev_lines = lines@.map_values(|l: String| l@);
        let ghost rest = s@.skip(pos as int);
        let j = find_in(s, pos, n, '\n');
        proof {
            assert(s@.subrange(pos as int, n as int) =~= rest);
        }
        let mut e = j;
        if e > pos && s.get_char(e - 1) == '\r' {
            e = e - 1;
        }
        let line = s.substring_char(pos, e).to_owned();
        proof {
            if j == n {
                assert(strip_cr(rest) =~= s@.subrange(pos as int, e as int));
            } else {
                assert(rest.take(j - pos) =~= s@.subrange(pos as int, j as int));
                assert(strip_cr(rest.take(j - pos)) =~= s@.subrange(pos as int, e as int));
            }
            assert(line@ == s@.subrange(pos as int, e as int));
        }
        lines.push(line);
        proof {
            assert(lines@.map_values(|l: String| l@) =~= prev_lines.push(line@));
        }
        if j == n {
            proof {
                assert(lines_of(rest) =~= seq![line@]);
                assert(s@.skip(n as int) =~= Seq::<char>::empty());
                assert(lines_of(s@.skip(n as int)) =~= Seq::<Seq<char>>::empty());
                assert(prev_lines.push(line@) + lines_of(s@.skip(n as int)) =~= prev_lines
                    + lines_of(rest));
            }
            pos = n;
        } else {
            proof {
                assert(rest.skip((j - pos) + 1) =~= s@.skip(j + 1));
                assert(lines_of(rest) =~= seq![line@] + lines_of(s@.skip(j + 1)));
                assert(prev_lines.push(line@) + lines_of(s@.skip(j + 1)) =~= prev_lines
                    + lines_of(rest));
            }
            pos = j + 1;
        }
    }
    proof {
        assert(s@.skip(pos as int) =~= Seq::<char>::empty());
        assert(lines@.map_values(|l: String| l@) + lines_of(s@.skip(pos as int)) =~= lines@
            .map_values(|l: String| l@));
    }
    lines
}

} // verus!
