//! Character-level helpers for the line-oriented tree grammar: finding a
//! character, trimming whitespace, splitting on a separator, comparing
//! strings. Each executable helper is proved equal to a spec-level
//! definition; the parser's functional specification is written over those
//! spec definitions.

use vstd::prelude::*;
use vstd::string::*;

verus! {

/// Whitespace, the class removed by trimming a line or a fragment: the
/// Unicode White_Space characters.
pub open spec fn is_wsp(c: char) -> bool {
    c == ' ' || c == '\t' || c == '\r' || c == '\n' || c == '\u{b}' || c == '\u{c}' || c
        == '\u{85}' || c == '\u{a0}' || c == '\u{1680}' || ('\u{2000}' <= c && c <= '\u{200a}')
        || c == '\u{2028}' || c == '\u{2029}' || c == '\u{202f}' || c == '\u{205f}' || c
        == '\u{3000}'
}

/// Index of the first occurrence of `c` in `s` at or after `from`.
pub open spec fn find_char_from(s: Seq<char>, c: char, from: int) -> Option<int>
    decreases s.len() - from,
{
    if from < 0 || from >= s.len() {
        None
    } else if s[from] == c {
        Some(from)
    } else {
        find_char_from(s, c, from + 1)
    }
}

/// Index of the first occurrence of `c` in `s`.
pub open spec fn find_char(s: Seq<char>, c: char) -> Option<int> {
    find_char_from(s, c, 0)
}

/// `s` with leading whitespace removed.
pub open spec fn trim_front(s: Seq<char>) -> Seq<char>
    decreases s.len(),
{
    if s.len() > 0 && is_wsp(s[0]) {
        trim_front(s.subrange(1, s.len() as int))
    } else {
        s
    }
}

/// `s` with trailing whitespace removed.
pub open spec fn trim_back(s: Seq<char>) -> Seq<char>
    decreases s.len(),
{
    if s.len() > 0 && is_wsp(s[s.len() - 1]) {
        trim_back(s.subrange(0, s.len() - 1))
    } else {
        s
    }
}

/// `s` with leading and trailing whitespace removed.
pub open spec fn trim_of(s: Seq<char>) -> Seq<char> {
    trim_back(trim_front(s))
}

/// The pieces of `s` between occurrences of the separator `c`.
/// There is always at least one piece; a separator at either end or two
/// adjacent separators yield empty pieces.
pub open spec fn split_char(s: Seq<char>, c: char) -> Seq<Seq<char>>
    decreases s.len(),
{
    match find_char(s, c) {
        None => seq![s],
        Some(i) => if 0 <= i < s.len() {
            seq![s.subrange(0, i)] + split_char(s.subrange(i + 1, s.len() as int), c)
        } else {
            // find_char never returns an out-of-range index; this arm only
            // makes termination evident.
            seq![s]
        },
    }
}

/// `p` is a prefix of `s`.
pub open spec fn seq_starts_with(s: Seq<char>, p: Seq<char>) -> bool {
    p.len() <= s.len() && forall|k: int| 0 <= k < p.len() ==> s[k] == p[k]
}

/// Whitespace test, proved against `is_wsp`.
pub fn wsp(c: char) -> (b: bool)
    ensures
        b == is_wsp(c),
{
    c == ' ' || c == '\t' || c == '\r' || c == '\n' || c == '\u{b}' || c == '\u{c}' || c
        == '\u{85}' || c == '\u{a0}' || c == '\u{1680}' || ('\u{2000}' <= c && c <= '\u{200a}')
        || c == '\u{2028}' || c == '\u{2029}' || c == '\u{202f}' || c == '\u{205f}' || c
        == '\u{3000}'
}

/// First occurrence search, proved against `find_char_from`.
pub fn find_from(s: &str, from: usize, c: char) -> (r: Option<usize>)
    requires
        from <= s@.len(),
    ensures
        match r {
            Some(i) => from <= i < s@.len() && find_char_from(s@, c, from as int) == Some(
                i as int,
            ),
            None => find_char_from(s@, c, from as int) is None,
        },
{
    let n = s.unicode_len();
    let mut i = from;
    while i < n
        invariant
            from <= i <= n == s@.len(),
            find_char_from(s@, c, from as int) == find_char_from(s@, c, i as int),
        decreases n - i,
    {
        if s.get_char(i) == c {
            return Some(i);
        }
        i = i + 1;
    }
    None
}

/// A copy of the character range `[from, to)` of `s`.
pub fn substr(s: &str, from: usize, to: usize) -> (r: String)
    requires
        from <= to <= s@.len(),
    ensures
        r@ == s@.subrange(from as int, to as int),
{
    String::from_str(s.substring_char(from, to))
}

proof fn lemma_trim_front_skip(s: Seq<char>, lo: int)
    requires
        0 <= lo <= s.len(),
        forall|k: int| 0 <= k < lo ==> is_wsp(s[k]),
        lo == s.len() || !is_wsp(s[lo]),
    ensures
        trim_front(s) == s.subrange(lo, s.len() as int),
    decreases lo,
{
    if lo == 0 {
        assert(s.subrange(0, s.len() as int) =~= s);
    } else {
        let t = s.subrange(1, s.len() as int);
        assert(forall|k: int| 0 <= k < lo - 1 ==> is_wsp(t[k]));
        lemma_trim_front_skip(t, lo - 1);
        assert(t.subrange(lo - 1, t.len() as int) =~= s.subrange(lo, s.len() as int));
    }
}

proof fn lemma_trim_back_skip(s: Seq<char>, hi: int)
    requires
        0 <= hi <= s.len(),
        forall|k: int| hi <= k < s.len() ==> is_wsp(s[k]),
        hi == 0 || !is_wsp(s[hi - 1]),
    ensures
        trim_back(s) == s.subrange(0, hi),
    decreases s.len(),
{
    if hi == s.len() {
        assert(s.subrange(0, s.len() as int) =~= s);
    } else {
        let t = s.subrange(0, s.len() - 1);
        assert(forall|k: int| hi <= k < t.len() ==> is_wsp(t[k]));
        lemma_trim_back_skip(t, hi);
        assert(t.subrange(0, hi) =~= s.subrange(0, hi));
    }
}

/// Trimming, proved against `trim_of`.
pub fn trim_str(s: &str) -> (r: String)
    ensures
        r@ == trim_of(s@),
{
    let n = s.unicode_len();
    let mut lo: usize = 0;
    while lo < n && wsp(s.get_char(lo))
        invariant
            lo <= n == s@.len(),
            forall|k: int| 0 <= k < lo ==> is_wsp(s@[k]),
        decreases n - lo,
    {
        lo = lo + 1;
    }
    proof {
        lemma_trim_front_skip(s@, lo as int);
    }
    let mut hi: usize = n;
    while hi > lo && wsp(s.get_char(hi - 1))
        invariant
            lo <= hi <= n == s@.len(),
            forall|k: int| hi <= k < n ==> is_wsp(s@[k]),
        decreases hi,
    {
        hi = hi - 1;
    }
    proof {
        let t = s@.subrange(lo as int, s@.len() as int);
        assert(forall|k: int| hi - lo <= k < t.len() ==> is_wsp(t[k]));
        lemma_trim_back_skip(t, hi - lo);
        assert(t.subrange(0, hi - lo) =~= s@.subrange(lo as int, hi as int));
    }
    substr(s, lo, hi)
}

/// Prefix test, proved against `seq_starts_with`.
pub fn starts_with_str(s: &str, p: &str) -> (r: bool)
    ensures
        r == seq_starts_with(s@, p@),
{
    let n = s.unicode_len();
    let m = p.unicode_len();
    if m > n {
        return false;
    }
    let mut k: usize = 0;
    while k < m
        invariant
            k <= m == p@.len() <= n == s@.len(),
            forall|j: int| 0 <= j < k ==> s@[j] == p@[j],
        decreases m - k,
    {
        if s.get_char(k) != p.get_char(k) {
            return false;
        }
        k = k + 1;
    }
    true
}

/// String equality on views, proved character by character.
pub fn str_eq(a: &str, b: &str) -> (r: bool)
    ensures
        r == (a@ == b@),
{
    let n = a.unicode_len();
    let m = b.unicode_len();
    if n != m {
        return false;
    }
    let mut k: usize = 0;
    while k < n
        invariant
            k <= n == a@.len() == b@.len(),
            forall|j: int| 0 <= j < k ==> a@[j] == b@[j],
        decreases n - k,
    {
        if a.get_char(k) != b.get_char(k) {
            return false;
        }
        k = k + 1;
    }
    proof {
        assert(a@ =~= b@);
    }
    true
}

proof fn lemma_find_offset(s: Seq<char>, c: char, start: int, j: int)
    requires
        0 <= start <= j <= s.len(),
    ensures
        ({
            let sub = s.subrange(start, s.len() as int);
            match find_char_from(s, c, j) {
                Some(i) => find_char_from(sub, c, j - start) == Some(i - start),
                None => find_char_from(sub, c, j - start) is None,
            }
        }),
    decreases s.len() - j,
{
    let sub = s.subrange(start, s.len() as int);
    if j >= s.len() {
    } else if s[j] == c {
    } else {
        lemma_find_offset(s, c, start, j + 1);
    }
}

/// Splitting on a separator, proved against `split_char`.
pub fn split_str(s: &str, c: char) -> (r: Vec<String>)
    ensures
        r@.len() == split_char(s@, c).len(),
        forall|i: int| 0 <= i < r@.len() ==> r@[i]@ == split_char(s@, c)[i],
{
    let ghost parts = split_char(s@, c);
    let n = s.unicode_len();
    let mut out: Vec<String> = Vec::new();
    let mut start: usize = 0;
    proof {
        assert(s@.subrange(0, s@.len() as int) =~= s@);
    }
    loop
        invariant_except_break
            parts =~= Seq::new(out@.len() as nat, |i: int| out@[i]@) + split_char(
                s@.subrange(start as int, s@.len() as int),
                c,
            ),
        invariant
            start <= n == s@.len(),
            parts == split_char(s@, c),
        ensures
            out@.len() == parts.len(),
            forall|i: int| 0 <= i < out@.len() ==> out@[i]@ == parts[i],
        decreases n - start,
    {
        let ghost rem = s@.subrange(start as int, s@.len() as int);
        proof {
            lemma_find_offset(s@, c, start as int, start as int);
        }
        match find_from(s, start, c) {
            Some(i) => {
                proof {
                    assert(find_char(rem, c) == Some(i - start));
                    assert(rem.subrange(0, i - start) =~= s@.subrange(start as int, i as int));
                    assert(rem.subrange(i - start + 1, rem.len() as int) =~= s@.subrange(
                        i + 1,
                        s@.len() as int,
                    ));
                }
                let piece = substr(s, start, i);
                out.push(piece);
                start = i + 1;
                proof {
                    assert(parts =~= Seq::new(out@.len() as nat, |i: int| out@[i]@) + split_char(
                        s@.subrange(start as int, s@.len() as int),
                        c,
                    ));
                }
            },
            None => {
                proof {
                    assert(find_char(rem, c) is None);
                    assert(split_char(rem, c) == seq![rem]);
                }
                let piece = substr(s, start, n);
                out.push(piece);
                proof {
                    assert(parts =~= Seq::new(out@.len() as nat, |i: int| out@[i]@));
                    assert(forall|i: int|
                        0 <= i < out@.len() ==> out@[i]@ == #[trigger] parts[i]);
                }
                break ;
            },
        }
    }
    out
}

} // verus!
