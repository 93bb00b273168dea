//! The line parser for the `os-release` format: per-line extraction of
//! `(key, value)` pairs, and the sequence-level parse over a whole input.

use vstd::prelude::*;

use crate::text;

verus! {

/// The ways parsing an `os-release` source can fail.
#[derive(Debug, Clone, Copy, PartialEq, Eq, Structural)]
pub enum OsReleaseError {
    /// A line could not be read from the source.
    Io,
    /// No file was found at any of the standard locations.
    NoFile,
    /// A line had no `=` separator.
    ParseError,
}

/// The quote characters a value may be wrapped in.
pub open spec fn is_quote(c: char) -> bool {
    c == '"' || c == '\''
}

/// `s` without one enclosing pair of matching quote characters. A single
/// unmatched quote is left untouched.
pub open spec fn quotes_trimmed(s: Seq<char>) -> Seq<char> {
    if s.len() >= 2 && s.first() == s.last() && is_quote(s.first()) {
        s.subrange(1, s.len() - 1)
    } else {
        s
    }
}

/// Strips one enclosing pair of matching `"` or `'` quotes from `s`.
pub fn trim_quotes<'a>(s: &'a str) -> (r: &'a str)
    ensures
        r@ == quotes_trimmed(s@),
{
    let n = s.unicode_len();
    if n >= 2 {
        let c0 = s.get_char(0);
        let cl = s.get_char(n - 1);
        if (c0 == '"' && cl == '"') || (c0 == '\'' && cl == '\'') {
            return s.substring_char(1, n - 1);
        }
    }
    s
}

/// Returns a key equal in content to `var`. A key that matches one of the
/// well-known `os-release` key names is rebuilt from that name's literal, so
/// recognized keys share one spelling; this is not observable in the result,
/// which always holds exactly the characters of `var`.
pub fn canonical_key(var: &str) -> (r: String)
    ensures
        r@ == var@,
{
    let keys: [&str; 16] = [
        "ANSI_COLOR",
        "BUG_REPORT_URL",
        "BUILD_ID",
        "CPE_NAME",
        "HOME_URL",
        "ID",
        "ID_LIKE",
        "NAME",
        "PRETTY_NAME",
        "PRIVACY_POLICY_URL",
        "SUPPORT_URL",
        "VARIANT",
        "VARIANT_ID",
        "VERSION",
        "VERSION_CODENAME",
        "VERSION_ID",
    ];
    let mut i: usize = 0;
    while i < 16
        invariant
            0 <= i <= 16,
        decreases 16 - i,
    {
        if text::str_eq(var, keys[i]) {
            return keys[i].to_owned();
        }
        i = i + 1;
    }
    var.to_owned()
}

/// Whether `s` holds a `=` separator.
pub open spec fn has_separator(s: Seq<char>) -> bool {
    exists|i: int| 0 <= i < s.len() && s[i] == '='
}

/// The outcome of parsing one surviving line `s`: the trimmed text before
/// the first `=` as the key and the trimmed, quote-stripped text after it as
/// the value, or a malformed-line error when `s` has no `=`.
pub open spec fn extracted(s: Seq<char>) -> Result<(Seq<char>, Seq<char>), OsReleaseError> {
    match text::find_char(s, '=') {
        Some(i) => Ok(
            (text::trim(s.take(i)), quotes_trimmed(text::trim(s.skip(i + 1)))),
        ),
        None => Err(OsReleaseError::ParseError),
    }
}

/// The content of one per-line parse result: the key and value as character
/// sequences, or the error unchanged.
pub open spec fn entry_view(r: Result<(String, String), OsReleaseError>) -> Result<
    (Seq<char>, Seq<char>),
    OsReleaseError,
> {
    match r {
        Ok(p) => Ok((p.0@, p.1@)),
        Err(e) => Err(e),
    }
}

/// Splits one line at its first `=` into a trimmed key and a trimmed,
/// quote-stripped value; a line without `=` is malformed.
pub fn extract_variable_and_value(s: &str) -> (r: Result<(String, String), OsReleaseError>)
    ensures
        entry_view(r) == extracted(s@),
        r is Ok <==> has_separator(s@),
{
    proof {
        text::lemma_find_char(s@, '=');
    }
    match text::find_char_in_str(s, '=') {
        Some(i) => {
            let n = s.unicode_len();
            let var = text::trim_str(s.substring_char(0, i));
            let val = trim_quotes(text::trim_str(s.substring_char(i + 1, n)));
            proof {
                assert(s@.subrange(0, i as int) =~= s@.take(i as int));
                assert(s@.subrange(i + 1, n as int) =~= s@.skip(i + 1));
            }
            let key = canonical_key(var);
            Ok((key, val.to_owned()))
        },
        None => Err(OsReleaseError::ParseError),
    }
}

/// One input line handed to the parser: the text of a line that was read
/// successfully, or the marker of a read that failed.
#[derive(Debug)]
pub enum SourceLine {
    /// A line that was read successfully, without its trailing newline.
    Text(String),
    /// A line that could not be read from the underlying source.
    ReadFailure,
}

/// The content of an input line: its characters, or `None` for a failed
/// read.
pub open spec fn line_view(l: SourceLine) -> Option<Seq<char>> {
    match l {
        SourceLine::Text(s) => Some(s@),
        SourceLine::ReadFailure => None,
    }
}

/// Whether a line of text is invisible to the parser: blank, or a comment
/// whose first non-whitespace character is `#`.
pub open spec fn skip_line(t: Seq<char>) -> bool {
    text::ltrim(t).len() == 0 || text::ltrim(t)[0] == '#'
}

/// Whether an input line survives filtering: a failed read always does, so
/// the failure surfaces; a text line does unless it is blank or a comment.
pub open spec fn kept_line(l: Option<Seq<char>>) -> bool {
    match l {
        None => true,
        Some(t) => !skip_line(t),
    }
}

/// The parse result of one kept input line: an I/O error for a failed read,
/// the extracted key-value pair or malformed-line error otherwise.
pub open spec fn transformed(l: Option<Seq<char>>) -> Result<
    (Seq<char>, Seq<char>),
    OsReleaseError,
> {
    match l {
        None => Err(OsReleaseError::Io),
        Some(t) => extracted(t),
    }
}

/// The results of parsing a sequence of input lines: one result per kept
/// line, in input order.
pub open spec fn parsed_lines(lines: Seq<Option<Seq<char>>>) -> Seq<
    Result<(Seq<char>, Seq<char>), OsReleaseError>,
>
    decreases lines.len(),
{
    if lines.len() == 0 {
        Seq::empty()
    } else {
        let rest = parsed_lines(lines.drop_last());
        if kept_line(lines.last()) {
            rest.push(transformed(lines.last()))
        } else {
            rest
        }
    }
}

/// `parsed_lines` seen from the front: the first input line is either
/// skipped, or contributes the first result.
pub proof fn lemma_parsed_lines_first(lines: Seq<Option<Seq<char>>>)
    requires
        lines.len() > 0,
    ensures
        parsed_lines(lines) == if kept_line(lines.first()) {
            seq![transformed(lines.first())] + parsed_lines(lines.drop_first())
        } else {
            parsed_lines(lines.drop_first())
        },
    decreases lines.len(),
{
    if lines.len() == 1 {
        assert(lines.drop_last() =~= Seq::<Option<Seq<char>>>::empty());
        assert(lines.drop_first() =~= Seq::<Option<Seq<char>>>::empty());
        assert(lines.first() == lines.last());
        if kept_line(lines.first()) {
            assert(parsed_lines(lines)
                =~= seq![transformed(lines.first())] + parsed_lines(lines.drop_first()));
        }
    } else {
        lemma_parsed_lines_first(lines.drop_last());
        assert(lines.drop_last().len() > 0);
        assert(lines.drop_last().first() == lines.first());
        assert(lines.drop_last().drop_first() =~= lines.drop_first().drop_last());
        assert(lines.drop_first().last() == lines.last());
        assert(lines.drop_first().len() > 0);
        if kept_line(lines.first()) {
            if kept_line(lines.last()) {
                assert(parsed_lines(lines)
                    == (seq![transformed(lines.first())]
                        + parsed_lines(lines.drop_first().drop_last())).push(
                    transformed(lines.last()),
                ));
                assert((seq![transformed(lines.first())]
                    + parsed_lines(lines.drop_first().drop_last())).push(
                    transformed(lines.last()),
                ) =~= seq![transformed(lines.first())] + parsed_lines(
                    lines.drop_first().drop_last(),
                ).push(transformed(lines.last())));
            }
        }
    }
}

/// Decides whether a line of text is skipped: blank lines and `#` comments
/// are invisible to the parser.
pub fn line_is_skipped(s: &str) -> (r: bool)
    ensures
        r == skip_line(s@),
{
    let n = s.unicode_len();
    let mut i: usize = 0;
    while i < n && text::char_is_space(s.get_char(i))
        invariant
            0 <= i <= n,
            n == s@.len(),
            forall|k: int| 0 <= k < i ==> text::is_space(s@[k]),
        decreases n - i,
    {
        i = i + 1;
    }
    proof {
        text::lemma_ltrim_prefix(s@, i as int);
    }
    if i == n {
        proof {
            assert(text::ltrim(s@) =~= Seq::<char>::empty());
        }
        true
    } else {
        s.get_char(i) == '#'
    }
}

/// A pull-based parse over a sequence of input lines: each call to `next`
/// does only the work for one more result, so a caller that stops consuming
/// early spends nothing on the lines it never asks for.
pub struct LineParser {
    lines: Vec<SourceLine>,
    pos: usize,
}

impl LineParser {
    /// The parser's position has not run past its input.
    pub closed spec fn wf(self) -> bool {
        self.pos <= self.lines@.len()
    }

    /// The content of the input lines not yet consumed.
    pub closed spec fn remaining(self) -> Seq<Option<Seq<char>>> {
        self.lines@.map_values(|l: SourceLine| line_view(l)).skip(self.pos as int)
    }

    /// A parser over `lines`, none of them consumed yet.
    pub fn new(lines: Vec<SourceLine>) -> (p: LineParser)
        ensures
            p.wf(),
            p.remaining() == lines@.map_values(|l: SourceLine| line_view(l)),
    {
        let p = LineParser { lines, pos: 0 };
        proof {
            assert(p.remaining()
                =~= p.lines@.map_values(|l: SourceLine| line_view(l)));
        }
        p
    }

    /// Produces the next parse result, consuming input lines up to and
    /// including the line it comes from, or `None` once no kept line is
    /// left. Lines after the produced result are untouched.
    pub fn next(&mut self) -> (r: Option<Result<(String, String), OsReleaseError>>)
        requires
            old(self).wf(),
        ensures
            final(self).wf(),
            match r {
                Some(e) => {
                    &&& parsed_lines(old(self).remaining()).len() > 0
                    &&& entry_view(e) == parsed_lines(old(self).remaining()).first()
                    &&& parsed_lines(final(self).remaining())
                        == parsed_lines(old(self).remaining()).drop_first()
                },
                None => {
                    &&& parsed_lines(old(self).remaining()).len() == 0
                    &&& final(self).remaining().len() == 0
                },
            },
    {
        while self.pos < self.lines.len()
            invariant
                self.wf(),
                self.lines == old(self).lines,
                parsed_lines(self.remaining()) == parsed_lines(old(self).remaining()),
            decreases self.lines@.len() - self.pos,
        {
            let ghost rem = self.remaining();
            proof {
                assert(rem.len() > 0);
                assert(rem.first() == line_view(self.lines@[self.pos as int]));
                lemma_parsed_lines_first(rem);
            }
            let ghost rest = rem.drop_first();
            match &self.lines[self.pos] {
                SourceLine::Text(s) => {
                    if line_is_skipped(s.as_str()) {
                        self.pos = self.pos + 1;
                        proof {
                            assert(self.remaining() =~= rest);
                        }
                    } else {
                        let e = extract_variable_and_value(s.as_str());
                        self.pos = self.pos + 1;
                        proof {
                            assert(self.remaining() =~= rest);
                            assert(parsed_lines(rem)
                                == seq![transformed(rem.first())] + parsed_lines(rest));
                            assert(parsed_lines(rem).first() == transformed(rem.first()));
                            assert(parsed_lines(rem).drop_first() =~= parsed_lines(rest));
                        }
                        return Some(e);
                    }
                },
                SourceLine::ReadFailure => {
                    self.pos = self.pos + 1;
                    proof {
                        assert(self.remaining() =~= rest);
                        assert(parsed_lines(rem)
                            == seq![transformed(rem.first())] + parsed_lines(rest));
                        assert(parsed_lines(rem).first() == transformed(rem.first()));
                        assert(parsed_lines(rem).drop_first() =~= parsed_lines(rest));
                    }
                    return Some(Err(OsReleaseError::Io));
                },
            }
        }
        proof {
            assert(self.remaining() =~= Seq::<Option<Seq<char>>>::empty());
        }
        None
    }
}

/// Parses a sequence of input lines into one result per surviving line, in
/// input order. Blank lines and comments are dropped; a failed read becomes
/// an I/O error result; every other line is split at its first `=`.
pub fn parse_os_release_lines(lines: Vec<SourceLine>) -> (r: Vec<
    Result<(String, String), OsReleaseError>,
>)
    ensures
        r@.map_values(|e: Result<(String, String), OsReleaseError>| entry_view(e))
            == parsed_lines(lines@.map_values(|l: SourceLine| line_view(l))),
{
    let ghost total = parsed_lines(lines@.map_values(|l: SourceLine| line_view(l)));
    let mut out: Vec<Result<(String, String), OsReleaseError>> = Vec::new();
    let mut parser = LineParser::new(lines);
    let mut done = false;
    proof {
        assert(out@.map_values(|e: Result<(String, String), OsReleaseError>| entry_view(e))
            + parsed_lines(parser.remaining()) =~= total);
    }
    while !done
        invariant
            parser.wf(),
            out@.map_values(|e: Result<(String, String), OsReleaseError>| entry_view(e))
                + parsed_lines(parser.remaining()) == total,
            done ==> parsed_lines(parser.remaining()).len() == 0,
        decreases parsed_lines(parser.remaining()).len() + (if done { 0int } else { 1int }),
    {
        let ghost prev_out = out@;
        let ghost prev_parsed = parsed_lines(parser.remaining());
        match parser.next() {
            Some(e) => {
                out.push(e);
                proof {
                    let ev = |x: Result<(String, String), OsReleaseError>| entry_view(x);
                    assert(out@.map_values(ev) =~= prev_out.map_values(ev).push(entry_view(e)));
                    assert(prev_out.map_values(ev).push(prev_parsed.first())
                        + prev_parsed.drop_first()
                        =~= prev_out.map_values(ev) + prev_parsed);
                }
            },
            None => {
                done = true;
            },
        }
    }
    proof {
        assert(out@.map_values(|e: Result<(String, String), OsReleaseError>| entry_view(e))
            =~= out@.map_values(|e: Result<(String, String), OsReleaseError>| entry_view(e))
            + parsed_lines(parser.remaining()));
    }
    out
}

/// The results of parsing a whole text: its lines, all read successfully,
/// fed to the line parser.
pub open spec fn parsed_text(data: Seq<char>) -> Seq<
    Result<(Seq<char>, Seq<char>), OsReleaseError>,
> {
    parsed_lines(text::split_lines(data).map_values(|t: Seq<char>| Some(t)))
}

/// Parses key-value pairs from the `data` string. Splitting a string into
/// lines cannot fail, so only individual lines can yield errors.
pub fn parse_os_release_str(data: &str) -> (r: Vec<Result<(String, String), OsReleaseError>>)
    ensures
        r@.map_values(|e: Result<(String, String), OsReleaseError>| entry_view(e))
            == parsed_text(data@),
{
    let ls = text::split_into_lines(data);
    let mut src: Vec<SourceLine> = Vec::new();
    let mut i: usize = 0;
    proof {
        assert(src@.map_values(|l: SourceLine| line_view(l))
            =~= ls@.take(0).map_values(|l: String| Some(l@)));
    }
    while i < ls.len()
        invariant
            0 <= i <= ls@.len(),
            src@.len() == i,
            src@.map_values(|l: SourceLine| line_view(l))
                == ls@.take(i as int).map_values(|l: String| Some(l@)),
        decreases ls@.len() - i,
    {
        let ghost prev_src = src@;
        let line = ls[i].clone();
        src.push(SourceLine::Text(line));
        i = i + 1;
        proof {
            assert forall|k: int| 0 <= k < src@.len() implies
                line_view(src@[k]) == Some(ls@.take(i as int)[k]@) by {
                if k < src@.len() - 1 {
                    assert(src@[k] == prev_src[k]);
                    assert(prev_src.map_values(|l: SourceLine| line_view(l))[k]
                        == line_view(prev_src[k]));
                    assert(ls@.take(i - 1).map_values(|l: String| Some(l@))[k]
                        == Some(ls@.take(i - 1)[k]@));
                }
            }
            assert(src@.map_values(|l: SourceLine| line_view(l))
                =~= ls@.take(i as int).map_values(|l: String| Some(l@)));
        }
    }
    let r = parse_os_release_lines(src);
    proof {
        assert(ls@.take(ls@.len() as int) =~= ls@);
        assert(src@.map_values(|l: SourceLine| line_view(l))
            =~= text::split_lines(data@).map_values(|t: Seq<char>| Some(t)));
    }
    r
}

/// Law: parsing transforms exactly the kept lines, in input order — the
/// result sequence is the filtered input sequence, each kept line mapped to
/// its own parse result. Blank lines and comments leave no trace; nothing is
/// buffered or reordered.
pub proof fn lemma_results_match_kept_lines(lines: Seq<Option<Seq<char>>>)
    ensures
        parsed_lines(lines) == lines.filter(|l: Option<Seq<char>>| kept_line(l)).map_values(
            |l: Option<Seq<char>>| transformed(l),
        ),
    decreases lines.len(),
{
    reveal(Seq::filter);
    let kept = |l: Option<Seq<char>>| kept_line(l);
    let tr = |l: Option<Seq<char>>| transformed(l);
    if lines.len() == 0 {
        assert(parsed_lines(lines) =~= lines.filter(kept).map_values(tr));
    } else {
        lemma_results_match_kept_lines(lines.drop_last());
        if kept_line(lines.last()) {
            assert(lines.filter(kept) == lines.drop_last().filter(kept).push(lines.last()));
            assert(lines.filter(kept).map_values(tr)
                =~= lines.drop_last().filter(kept).map_values(tr).push(tr(lines.last())));
        } else {
            assert(lines.filter(kept) == lines.drop_last().filter(kept));
        }
    }
}

/// Law: the number of results equals the number of kept lines — every
/// non-blank, non-comment line (and every failed read) yields exactly one
/// result.
pub proof fn lemma_one_result_per_kept_line(lines: Seq<Option<Seq<char>>>)
    ensures
        parsed_lines(lines).len() == lines.filter(|l: Option<Seq<char>>| kept_line(l)).len(),
{
    lemma_results_match_kept_lines(lines);
}

/// Law: for a whole text, the output holds exactly one result per non-blank,
/// non-comment line of the text, in the order those lines appear.
pub proof fn lemma_text_results_match_kept_lines(data: Seq<char>)
    ensures
        parsed_text(data) == text::split_lines(data).map_values(
            |t: Seq<char>| Some(t),
        ).filter(|l: Option<Seq<char>>| kept_line(l)).map_values(
            |l: Option<Seq<char>>| transformed(l),
        ),
{
    lemma_results_match_kept_lines(
        text::split_lines(data).map_values(|t: Seq<char>| Some(t)),
    );
}

/// Law: parsing is a pure function of the input text — any two parses of
/// structurally equal text yield structurally equal result sequences.
pub proof fn lemma_reparse_equal(
    data: Seq<char>,
    r1: Seq<Result<(Seq<char>, Seq<char>), OsReleaseError>>,
    r2: Seq<Result<(Seq<char>, Seq<char>), OsReleaseError>>,
)
    requires
        r1 == parsed_text(data),
        r2 == parsed_text(data),
    ensures
        r1 == r2,
{
}

} // verus!
