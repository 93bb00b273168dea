//! Character-level helpers for the line parser: the whitespace class,
//! locating a character, trimming, splitting text into lines, and string
//! equality, each proved against a spec-level model over `Seq<char>`.

use vstd::prelude::*;

verus! {

/// The Unicode `White_Space` characters, the class that line and value
/// trimming removes.
pub open spec fn is_space(c: char) -> bool {
    c == '\u{9}' || c == '\u{A}' || c == '\u{B}' || c == '\u{C}' || c == '\u{D}'
        || c == ' ' || c == '\u{85}' || c == '\u{A0}' || c == '\u{1680}'
        || c == '\u{2000}' || c == '\u{2001}' || c == '\u{2002}' || c == '\u{2003}'
        || c == '\u{2004}' || c == '\u{2005}' || c == '\u{2006}' || c == '\u{2007}'
        || c == '\u{2008}' || c == '\u{2009}' || c == '\u{200A}' || c == '\u{2028}'
        || c == '\u{2029}' || c == '\u{202F}' || c == '\u{205F}' || c == '\u{3000}'
}

/// Decides membership in the whitespace class.
pub fn char_is_space(c: char) -> (r: bool)
    ensures
        r == is_space(c),
{
    c == '\u{9}' || c == '\u{A}' || c == '\u{B}' || c == '\u{C}' || c == '\u{D}'
        || c == ' ' || c == '\u{85}' || c == '\u{A0}' || c == '\u{1680}'
        || c == '\u{2000}' || c == '\u{2001}' || c == '\u{2002}' || c == '\u{2003}'
        || c == '\u{2004}' || c == '\u{2005}' || c == '\u{2006}' || c == '\u{2007}'
        || c == '\u{2008}' || c == '\u{2009}' || c == '\u{200A}' || c == '\u{2028}'
        || c == '\u{2029}' || c == '\u{202F}' || c == '\u{205F}' || c == '\u{3000}'
}

/// Position of the first occurrence of `c` in `s`, if any.
pub open spec fn find_char(s: Seq<char>, c: char) -> Option<int>
    decreases s.len(),
{
    if s.len() == 0 {
        None
    } else if s[0] == c {
        Some(0)
    } else {
        match find_char(s.drop_first(), c) {
            Some(i) => Some(i + 1),
            None => None,
        }
    }
}

/// `find_char` returns the first position holding `c`, or `None` when `c`
/// does not occur.
pub proof fn lemma_find_char(s: Seq<char>, c: char)
    ensures
        match find_char(s, c) {
            Some(i) => 0 <= i < s.len() && s[i] == c && forall|k: int| 0 <= k < i ==> s[k] != c,
            None => forall|k: int| 0 <= k < s.len() ==> s[k] != c,
        },
    decreases s.len(),
{
    if s.len() > 0 && s[0] != c {
        lemma_find_char(s.drop_first(), c);
        assert forall|k: int| 1 <= k < s.len() implies s[k] == s.drop_first()[k - 1] by {}
    }
}

/// Finds the first occurrence of `c` in `s`, scanning from the left.
pub fn find_char_in_str(s: &str, c: char) -> (r: Option<usize>)
    ensures
        match r {
            Some(i) => find_char(s@, c) == Some(i as int),
            None => find_char(s@, c) is None,
        },
{
    let n = s.unicode_len();
    let mut i: usize = 0;
    proof {
        lemma_find_char(s@, c);
    }
    while i < n
        invariant
            0 <= i <= n,
            n == s@.len(),
            forall|k: int| 0 <= k < i ==> s@[k] != c,
            match find_char(s@, c) {
                Some(j) => 0 <= j < s@.len() && s@[j] == c
                    && forall|k: int| 0 <= k < j ==> s@[k] != c,
                None => forall|k: int| 0 <= k < s@.len() ==> s@[k] != c,
            },
        decreases n - i,
    {
        if s.get_char(i) == c {
            return Some(i);
        }
        i = i + 1;
    }
    None
}

/// `s` without its leading whitespace.
pub open spec fn ltrim(s: Seq<char>) -> Seq<char>
    decreases s.len(),
{
    if s.len() > 0 && is_space(s.first()) {
        ltrim(s.drop_first())
    } else {
        s
    }
}

/// `s` without its trailing whitespace.
pub open spec fn rtrim(s: Seq<char>) -> Seq<char>
    decreases s.len(),
{
    if s.len() > 0 && is_space(s.last()) {
        rtrim(s.drop_last())
    } else {
        s
    }
}

/// `s` without its leading and trailing whitespace.
pub open spec fn trim(s: Seq<char>) -> Seq<char> {
    rtrim(ltrim(s))
}

/// When the first `i` characters are whitespace and the character at `i`
/// (if any) is not, `ltrim` drops exactly those `i` characters.
pub proof fn lemma_ltrim_prefix(s: Seq<char>, i: int)
    requires
        0 <= i <= s.len(),
        forall|k: int| 0 <= k < i ==> is_space(s[k]),
        i < s.len() ==> !is_space(s[i]),
    ensures
        ltrim(s) == s.subrange(i, s.len() as int),
    decreases i,
{
    if i == 0 {
        assert(ltrim(s) =~= s.subrange(0, s.len() as int));
    } else {
        lemma_ltrim_prefix(s.drop_first(), i - 1);
        assert(s.drop_first().subrange(i - 1, s.drop_first().len() as int)
            =~= s.subrange(i, s.len() as int));
    }
}

/// When the characters from `j` on are whitespace and the character at
/// `j - 1` (if any) is not, `rtrim` drops exactly the characters from `j` on.
pub proof fn lemma_rtrim_suffix(s: Seq<char>, j: int)
    requires
        0 <= j <= s.len(),
        forall|k: int| j <= k < s.len() ==> is_space(s[k]),
        j > 0 ==> !is_space(s[j - 1]),
    ensures
        rtrim(s) == s.subrange(0, j),
    decreases s.len() - j,
{
    if j == s.len() {
        assert(rtrim(s) =~= s.subrange(0, j));
    } else {
        assert(is_space(s.last()));
        lemma_rtrim_suffix(s.drop_last(), j);
        assert(s.drop_last().subrange(0, j) =~= s.subrange(0, j));
    }
}

/// Removes the leading and trailing whitespace of `s`.
pub fn trim_str<'a>(s: &'a str) -> (r: &'a str)
    ensures
        r@ == trim(s@),
{
    let n = s.unicode_len();
    let mut i: usize = 0;
    while i < n && char_is_space(s.get_char(i))
        invariant
            0 <= i <= n,
            n == s@.len(),
            forall|k: int| 0 <= k < i ==> is_space(s@[k]),
        decreases n - i,
    {
        i = i + 1;
    }
    if i == n {
        let r = s.substring_char(n, n);
        proof {
            lemma_ltrim_prefix(s@, n as int);
            assert(ltrim(s@) =~= Seq::<char>::empty());
            assert(r@ =~= Seq::<char>::empty());
        }
        return r;
    }
    let mut j: usize = n;
    while j > i && char_is_space(s.get_char(j - 1))
        invariant
            i <= j <= n,
            i < n,
            n == s@.len(),
            !is_space(s@[i as int]),
            forall|k: int| j <= k < n ==> is_space(s@[k]),
        decreases j,
    {
        j = j - 1;
    }
    let r = s.substring_char(i, j);
    proof {
        lemma_ltrim_prefix(s@, i as int);
        let t = s@.subrange(i as int, n as int);
        assert(j > i);
        assert(!is_space(t[j - i - 1]));
        assert forall|k: int| j - i <= k < t.len() implies is_space(t[k]) by {
            assert(t[k] == s@[k + i]);
        }
        lemma_rtrim_suffix(t, j - i);
        assert(t.subrange(0, j - i) =~= s@.subrange(i as int, j as int));
    }
    r
}

/// Compares two strings character by character.
pub fn str_eq(a: &str, b: &str) -> (r: bool)
    ensures
        r == (a@ == b@),
{
    let na = a.unicode_len();
    let nb = b.unicode_len();
    if na != nb {
        return false;
    }
    let mut i: usize = 0;
    while i < na
        invariant
            0 <= i <= na,
            na == a@.len(),
            na == b@.len(),
            forall|k: int| 0 <= k < i ==> a@[k] == b@[k],
        decreases na - i,
    {
        if a.get_char(i) != b.get_char(i) {
            return false;
        }
        i = i + 1;
    }
    proof {
        assert(a@ =~= b@);
    }
    true
}

/// `t` without one trailing carriage return, if it ends in one.
pub open spec fn strip_cr(t: Seq<char>) -> Seq<char> {
    if t.len() > 0 && t.last() == '\r' {
        t.drop_last()
    } else {
        t
    }
}

/// The lines of `s`: pieces separated by `'\n'`, each with one trailing
/// `'\r'` removed, a final empty piece dropped. This is how Rust's
/// `str::lines` splits text.
pub open spec fn split_lines(s: Seq<char>) -> Seq<Seq<char>>
    decreases s.len() via split_lines_decreases
{
    if s.len() == 0 {
        Seq::empty()
    } else {
        match find_char(s, '\n') {
            Some(i) => seq![strip_cr(s.take(i))] + split_lines(s.skip(i + 1)),
            None => seq![s],
        }
    }
}

#[via_fn]
proof fn split_lines_decreases(s: Seq<char>) {
    lemma_find_char(s, '\n');
}

/// Splits `data` into its lines.
pub fn split_into_lines(data: &str) -> (r: Vec<String>)
    ensures
        r@.map_values(|l: String| l@) == split_lines(data@),
{
    let n = data.unicode_len();
    let mut start: usize = 0;
    let mut out: Vec<String> = Vec::new();
    proof {
        assert(data@.skip(0) =~= data@);
        assert(out@.map_values(|l: String| l@) + split_lines(data@) =~= split_lines(data@));
    }
    while start < n
        invariant
            0 <= start <= n,
            n == data@.len(),
            split_lines(data@) == out@.map_values(|l: String| l@)
                + split_lines(data@.skip(start as int)),
        decreases n - start,
    {
        let ghost prev_out = out@;
        let ghost t = data@.skip(start as int);
        let suffix = data.substring_char(start, n);
        proof {
            assert(suffix@ =~= t);
        }
        match find_char_in_str(suffix, '\n') {
            Some(rel) => {
                proof {
                    lemma_find_char(t, '\n');
                }
                let pos = start + rel;
                let line = if rel > 0 && data.get_char(pos - 1) == '\r' {
                    data.substring_char(start, pos - 1)
                } else {
                    data.substring_char(start, pos)
                };
                proof {
                    assert(t.take(rel as int) =~= data@.subrange(start as int, pos as int));
                    assert(line@ =~= strip_cr(t.take(rel as int)));
                    assert(t.skip(rel + 1) =~= data@.skip(pos + 1));
                }
                out.push(line.to_owned());
                start = pos + 1;
                proof {
                    assert(split_lines(t) == seq![strip_cr(t.take(rel as int))]
                        + split_lines(data@.skip(start as int)));
                    assert(out@.map_values(|l: String| l@)
                        =~= prev_out.map_values(|l: String| l@).push(line@));
                    assert(prev_out.map_values(|l: String| l@) + split_lines(t)
                        =~= out@.map_values(|l: String| l@)
                            + split_lines(data@.skip(start as int)));
                }
            },
            None => {
                proof {
                    lemma_find_char(t, '\n');
                }
                let line = data.substring_char(start, n);
                proof {
                    assert(line@ =~= t);
                    assert(split_lines(t) == seq![t]);
                }
                out.push(line.to_owned());
                start = n;
                proof {
                    assert(data@.skip(n as int) =~= Seq::<char>::empty());
                    assert(split_lines(data@.skip(start as int)) == Seq::<Seq<char>>::empty());
                    assert(out@.map_values(|l: String| l@)
                        =~= prev_out.map_values(|l: String| l@).push(t));
                    assert(prev_out.map_values(|l: String| l@) + split_lines(t)
                        =~= out@.map_values(|l: String| l@)
                            + split_lines(data@.skip(start as int)));
                }
            },
        }
    }
    proof {
        assert(data@.skip(start as int) =~= Seq::<char>::empty());
        assert(split_lines(data@.skip(start as int)) == Seq::<Seq<char>>::empty());
        assert(out@.map_values(|l: String| l@)
            =~= out@.map_values(|l: String| l@) + split_lines(data@.skip(start as int)));
    }
    out
}

} // verus!
