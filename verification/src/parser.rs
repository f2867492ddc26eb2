//! The parser: text in, ordered entries out, one forward pass over the
//! lines. Every function is specified against the model in `model`.

use crate::config::{
    entries_view, stmts_view, ConfigStatement, Entry, ParseError, ParsedConfig,
};
use crate::model::{
    body_len, is_space, lemma_body_len_le, lemma_keyword_literals, lemma_newline_pos,
    lemma_word_len_le, line_split, newline_pos, spec_classify, spec_parse, spec_parse_at,
    starts_indented, tokens, trim, trim_end, trim_start, word_len, ParseErrorKind, SpecEntry,
    SpecParseError,
};
use vstd::prelude::*;
use vstd::string::*;

verus! {

/// The views of a sequence of owned strings.
pub open spec fn strings_view(v: Seq<String>) -> Seq<Seq<char>> {
    Seq::new(v.len(), |i: int| v[i]@)
}

pub fn is_space_char(c: char) -> (b: bool)
    ensures
        b == is_space(c),
{
    c == ' ' || c == '\t' || c == '\u{000B}' || c == '\u{000C}' || c == '\r' || c == '\u{0085}'
        || c == '\u{00A0}' || c == '\u{1680}' || c == '\u{2000}' || c == '\u{2001}'
        || c == '\u{2002}' || c == '\u{2003}' || c == '\u{2004}' || c == '\u{2005}'
        || c == '\u{2006}' || c == '\u{2007}' || c == '\u{2008}' || c == '\u{2009}'
        || c == '\u{200A}' || c == '\u{2028}' || c == '\u{2029}' || c == '\u{202F}'
        || c == '\u{205F}' || c == '\u{3000}'
}

/// Character-for-character string equality.
pub fn str_eq(a: &str, b: &str) -> (r: bool)
    ensures
        r == (a@ == b@),
{
    let n = a.unicode_len();
    if n != b.unicode_len() {
        return false;
    }
    let mut i: usize = 0;
    while i < n
        invariant
            i <= n,
            n == a@.len(),
            n == b@.len(),
            forall|j: int| 0 <= j < i ==> a@[j] == b@[j],
        decreases n - i,
    {
        if a.get_char(i) != b.get_char(i) {
            return false;
        }
        i += 1;
    }
    proof {
        assert(a@ =~= b@);
    }
    true
}

fn trim_start_str<'a>(s: &'a str) -> (r: &'a str)
    ensures
        r@ == trim_start(s@),
    decreases s@.len(),
{
    let n = s.unicode_len();
    if n > 0 && is_space_char(s.get_char(0)) {
        let rest = s.substring_char(1, n);
        proof {
            assert(rest@ =~= s@.drop_first());
        }
        trim_start_str(rest)
    } else {
        s
    }
}

fn trim_end_str<'a>(s: &'a str) -> (r: &'a str)
    ensures
        r@ == trim_end(s@),
    decreases s@.len(),
{
    let n = s.unicode_len();
    if n > 0 && is_space_char(s.get_char(n - 1)) {
        let rest = s.substring_char(0, n - 1);
        proof {
            assert(rest@ =~= s@.drop_last());
        }
        trim_end_str(rest)
    } else {
        s
    }
}

/// A line with its leading and trailing blanks removed.
pub fn trim_str<'a>(s: &'a str) -> (r: &'a str)
    ensures
        r@ == trim(s@),
{
    trim_end_str(trim_start_str(s))
}

fn word_len_str(s: &str) -> (n: usize)
    ensures
        n == word_len(s@),
    decreases s@.len(),
{
    let n = s.unicode_len();
    if n > 0 && !is_space_char(s.get_char(0)) {
        let rest = s.substring_char(1, n);
        proof {
            assert(rest@ =~= s@.drop_first());
            lemma_word_len_le(rest@);
        }
        1 + word_len_str(rest)
    } else {
        0
    }
}

/// The blank-separated words of a line, in order, as owned strings.
pub fn tokenize(s: &str) -> (tk: Vec<String>)
    ensures
        strings_view(tk@) == tokens(s@),
    decreases s@.len(),
{
    let n = s.unicode_len();
    if n == 0 {
        let r: Vec<String> = Vec::new();
        proof {
            assert(strings_view(r@) =~= tokens(s@));
        }
        r
    } else if is_space_char(s.get_char(0)) {
        let rest = s.substring_char(1, n);
        proof {
            assert(rest@ =~= s@.drop_first());
        }
        tokenize(rest)
    } else {
        let wl = word_len_str(s);
        proof {
            lemma_word_len_le(s@);
            assert(wl >= 1);
        }
        let word = s.substring_char(0, wl).to_owned();
        let rest = s.substring_char(wl, n);
        let mut r = tokenize(rest);
        r.insert(0, word);
        proof {
            assert(strings_view(r@) =~= seq![s@.take(wl as int)] + tokens(s@.skip(wl as int)));
        }
        r
    }
}

fn find_newline(s: &str) -> (p: usize)
    ensures
        p == newline_pos(s@),
    decreases s@.len(),
{
    let n = s.unicode_len();
    if n == 0 {
        0
    } else if s.get_char(0) == '\n' {
        0
    } else {
        let rest = s.substring_char(1, n);
        proof {
            assert(rest@ =~= s@.drop_first());
            lemma_newline_pos(rest@);
        }
        1 + find_newline(rest)
    }
}

/// The lines of a text, split at newlines, as owned strings.
pub fn split_lines(s: &str) -> (lines: Vec<String>)
    ensures
        strings_view(lines@) == line_split(s@),
    decreases s@.len(),
{
    let n = s.unicode_len();
    if n == 0 {
        let r: Vec<String> = Vec::new();
        proof {
            assert(strings_view(r@) =~= line_split(s@));
        }
        r
    } else {
        let p = find_newline(s);
        proof {
            lemma_newline_pos(s@);
        }
        if p == n {
            let mut r: Vec<String> = Vec::new();
            r.push(s.to_owned());
            proof {
                assert(strings_view(r@) =~= line_split(s@));
            }
            r
        } else {
            let first = s.substring_char(0, p).to_owned();
            let rest = s.substring_char(p + 1, n);
            let mut r = split_lines(rest);
            r.insert(0, first);
            proof {
                assert(rest@ =~= s@.skip(p + 1));
                assert(strings_view(r@) =~= seq![s@.take(p as int)] + line_split(s@.skip(p + 1)));
            }
            r
        }
    }
}

/// Classifies one body line: `HostName <value>` and `Port <value>` become
/// the corresponding statements; anything else is kept verbatim, trimmed.
pub fn parse_line(line: &str) -> (s: ConfigStatement)
    ensures
        s@ == spec_classify(line@),
{
    let t = trim_str(line);
    let tk = tokenize(t);
    proof {
        lemma_keyword_literals();
    }
    if tk.len() == 2 && str_eq(tk[0].as_str(), "HostName") {
        ConfigStatement::HostName(tk[1].clone())
    } else if tk.len() == 2 && str_eq(tk[0].as_str(), "Port") {
        ConfigStatement::Port(tk[1].clone())
    } else {
        ConfigStatement::Unknown(t.to_owned())
    }
}

fn starts_indented_str(s: &str) -> (b: bool)
    ensures
        b == starts_indented(s@),
{
    s.unicode_len() > 0 && is_space_char(s.get_char(0))
}

/// Consumes the run of body lines that starts at `i`, returning their
/// statements and the index of the first line after the run.
fn parse_body(lines: &Vec<String>, i: usize) -> (r: (Vec<ConfigStatement>, usize))
    requires
        i <= lines@.len(),
    ensures
        r.1 == i + body_len(strings_view(lines@), i as nat),
        stmts_view(r.0@) == Seq::new(
            body_len(strings_view(lines@), i as nat),
            |j: int| spec_classify(strings_view(lines@)[i + j]),
        ),
    decreases lines@.len() - i,
{
    if i < lines.len() && starts_indented_str(lines[i].as_str()) {
        let s = parse_line(lines[i].as_str());
        let (mut rest, next) = parse_body(lines, i + 1);
        let ghost orv = rest@;
        rest.insert(0, s);
        proof {
            let lv = strings_view(lines@);
            let b = body_len(lv, i as nat);
            assert(starts_indented(lv[i as int]));
            assert(b == 1 + body_len(lv, (i + 1) as nat));
            assert(stmts_view(orv).len() == orv.len());
            assert(orv.len() == body_len(lv, (i + 1) as nat));
            assert(rest@ == orv.insert(0, s));
            assert(rest@.len() == b);
            assert forall|j: int| 0 <= j < b implies stmts_view(rest@)[j] == spec_classify(
                lv[i + j],
            ) by {
                if j == 0 {
                    assert(rest@[0] == s);
                } else {
                    assert(0 <= j - 1 < orv.len());
                    assert(rest@[j] == orv[j - 1]);
                    assert(stmts_view(orv)[j - 1] == spec_classify(lv[i + 1 + (j - 1)]));
                }
            }
            assert(stmts_view(rest@) =~= Seq::new(b, |j: int| spec_classify(lv[i + j])));
        }
        (rest, next)
    } else {
        let r: Vec<ConfigStatement> = Vec::new();
        proof {
            let lv = strings_view(lines@);
            assert(body_len(lv, i as nat) == 0);
            assert(stmts_view(r@) =~= Seq::new(
                body_len(lv, i as nat),
                |j: int| spec_classify(lv[i + j]),
            ));
        }
        (r, i)
    }
}

/// Whether an executable parse outcome agrees with the model's.
pub open spec fn parse_matches(
    r: Result<Vec<Entry>, ParseError>,
    s: Result<Seq<SpecEntry>, SpecParseError>,
) -> bool {
    match r {
        Ok(cfg) => s is Ok && entries_view(cfg@) == s->Ok_0,
        Err(e) => s is Err && e@ == s->Err_0,
    }
}

fn parse_at(lines: &Vec<String>, i: usize) -> (r: Result<Vec<Entry>, ParseError>)
    requires
        i <= lines@.len(),
    ensures
        parse_matches(r, spec_parse_at(strings_view(lines@), i as nat)),
    decreases lines@.len() - i,
{
    if i >= lines.len() {
        let r: Vec<Entry> = Vec::new();
        proof {
            assert(entries_view(r@) =~= Seq::<SpecEntry>::empty());
        }
        Ok(r)
    } else {
        let line = &lines[i];
        let tk = tokenize(line.as_str());
        proof {
            lemma_keyword_literals();
        }
        if tk.len() == 0 {
            parse_at(lines, i + 1)
        } else if starts_indented_str(line.as_str()) {
            Err(ParseError { line: i, kind: ParseErrorKind::UnexpectedIndent })
        } else if tk.len() == 2 && str_eq(tk[0].as_str(), "Host") {
            let hostname = tk[1].clone();
            let (statements, next) = parse_body(lines, i + 1);
            proof {
                lemma_body_len_le(strings_view(lines@), (i + 1) as nat);
            }
            match parse_at(lines, next) {
                Ok(mut rest) => {
                    let entry = Entry { hostname, statements };
                    proof {
                        let lv = strings_view(lines@);
                        let b = body_len(lv, (i + 1) as nat);
                        assert(entry@.statements =~= Seq::new(
                            b,
                            |j: int| spec_classify(lv[i + 1 + j]),
                        ));
                    }
                    rest.insert(0, entry);
                    proof {
                        let sr = spec_parse_at(strings_view(lines@), i as nat);
                        assert(entries_view(rest@) =~= sr->Ok_0);
                    }
                    Ok(rest)
                },
                Err(e) => Err(e),
            }
        } else {
            Err(ParseError { line: i, kind: ParseErrorKind::MalformedHostLine })
        }
    }
}

/// Parses a whole file into its entries, in file order. A line outside any
/// block that is blank after trimming is skipped; any other line outside a
/// block that is indented, or that is not exactly `Host <name>`, is an
/// error carrying the zero-based index of that line.
pub fn parse_config(config: &str) -> (r: Result<ParsedConfig, ParseError>)
    ensures
        parse_matches(r, spec_parse(config@)),
{
    let lines = split_lines(config);
    parse_at(&lines, 0)
}

} // verus!
