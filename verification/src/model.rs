//! The mathematical model of the file format: what characters count as
//! blanks, how a text splits into lines and a line into words, what one line
//! means, and what a whole file parses to and formats from. The executable
//! code in the sibling modules is specified against these functions.

use vstd::prelude::*;

verus! {

// ---------------------------------------------------------------------------
// Characters and words
// ---------------------------------------------------------------------------

/// The blank characters that may appear inside a line: Unicode's White_Space
/// class, except the newline, which separates lines and never stands within
/// one.
pub open spec fn is_space(c: char) -> bool {
    ||| c == ' '
    ||| c == '\t'
    ||| c == '\u{000B}'
    ||| c == '\u{000C}'
    ||| c == '\r'
    ||| c == '\u{0085}'
    ||| c == '\u{00A0}'
    ||| c == '\u{1680}'
    ||| c == '\u{2000}'
    ||| c == '\u{2001}'
    ||| c == '\u{2002}'
    ||| c == '\u{2003}'
    ||| c == '\u{2004}'
    ||| c == '\u{2005}'
    ||| c == '\u{2006}'
    ||| c == '\u{2007}'
    ||| c == '\u{2008}'
    ||| c == '\u{2009}'
    ||| c == '\u{200A}'
    ||| c == '\u{2028}'
    ||| c == '\u{2029}'
    ||| c == '\u{202F}'
    ||| c == '\u{205F}'
    ||| c == '\u{3000}'
}

pub open spec fn no_newline(s: Seq<char>) -> bool {
    forall|i: int| 0 <= i < s.len() ==> s[i] != '\n'
}

/// A word: non-empty, with no blanks and no newline in it. Hostnames and
/// directive values have this shape once tokenized.
pub open spec fn is_word(s: Seq<char>) -> bool {
    s.len() > 0 && (forall|i: int| 0 <= i < s.len() ==> !is_space(#[trigger] s[i]) && s[i] != '\n')
}

pub open spec fn host_kw() -> Seq<char> {
    seq!['H', 'o', 's', 't']
}

pub open spec fn hostname_kw() -> Seq<char> {
    seq!['H', 'o', 's', 't', 'N', 'a', 'm', 'e']
}

pub open spec fn port_kw() -> Seq<char> {
    seq!['P', 'o', 'r', 't']
}

pub open spec fn sp() -> Seq<char> {
    seq![' ']
}

pub open spec fn nl() -> Seq<char> {
    seq!['\n']
}

/// The views of the string literals the executable code uses, spelled out as
/// character sequences.
pub proof fn lemma_keyword_literals()
    ensures
        "Host"@ == host_kw(),
        "HostName"@ == hostname_kw(),
        "Port"@ == port_kw(),
        "Host "@ == host_kw() + sp(),
        "HostName "@ == hostname_kw() + sp(),
        "Port "@ == port_kw() + sp(),
        "\n"@ == nl(),
        " "@ == sp(),
{
    reveal_strlit("Host");
    reveal_strlit("HostName");
    reveal_strlit("Port");
    reveal_strlit("Host ");
    reveal_strlit("HostName ");
    reveal_strlit("Port ");
    reveal_strlit("\n");
    reveal_strlit(" ");
    assert("Host"@ =~= host_kw());
    assert("HostName"@ =~= hostname_kw());
    assert("Port"@ =~= port_kw());
    assert("Host "@ =~= host_kw() + sp());
    assert("HostName "@ =~= hostname_kw() + sp());
    assert("Port "@ =~= port_kw() + sp());
    assert("\n"@ =~= nl());
    assert(" "@ =~= sp());
}

// ---------------------------------------------------------------------------
// Trimming and tokenizing a line
// ---------------------------------------------------------------------------

pub open spec fn trim_start(s: Seq<char>) -> Seq<char>
    decreases s.len(),
{
    if s.len() > 0 && is_space(s[0]) {
        trim_start(s.drop_first())
    } else {
        s
    }
}

pub open spec fn trim_end(s: Seq<char>) -> Seq<char>
    decreases s.len(),
{
    if s.len() > 0 && is_space(s.last()) {
        trim_end(s.drop_last())
    } else {
        s
    }
}

/// A line with its leading and trailing blanks removed.
pub open spec fn trim(s: Seq<char>) -> Seq<char> {
    trim_end(trim_start(s))
}

/// Length of the leading run of non-blank characters.
pub open spec fn word_len(s: Seq<char>) -> nat
    decreases s.len(),
{
    if s.len() > 0 && !is_space(s[0]) {
        (1 + word_len(s.drop_first())) as nat
    } else {
        0
    }
}

pub proof fn lemma_word_len_le(s: Seq<char>)
    ensures
        word_len(s) <= s.len(),
    decreases s.len(),
{
    if s.len() > 0 && !is_space(s[0]) {
        lemma_word_len_le(s.drop_first());
    }
}

/// The blank-separated words of a line, in order.
pub open spec fn tokens(s: Seq<char>) -> Seq<Seq<char>>
    decreases s.len(),
    via tokens_decreases
{
    if s.len() == 0 {
        Seq::empty()
    } else if is_space(s[0]) {
        tokens(s.drop_first())
    } else {
        seq![s.take(word_len(s) as int)] + tokens(s.skip(word_len(s) as int))
    }
}

#[via_fn]
proof fn tokens_decreases(s: Seq<char>) {
    lemma_word_len_le(s);
    if s.len() > 0 && !is_space(s[0]) {
        assert(word_len(s) >= 1);
    }
}

// ---------------------------------------------------------------------------
// Splitting a text into lines
// ---------------------------------------------------------------------------

/// Index of the first newline, or the length if there is none.
pub open spec fn newline_pos(s: Seq<char>) -> nat
    decreases s.len(),
{
    if s.len() == 0 {
        0
    } else if s[0] == '\n' {
        0
    } else {
        (1 + newline_pos(s.drop_first())) as nat
    }
}

pub proof fn lemma_newline_pos(s: Seq<char>)
    ensures
        newline_pos(s) <= s.len(),
        forall|i: int| 0 <= i < newline_pos(s) ==> s[i] != '\n',
        newline_pos(s) < s.len() ==> s[newline_pos(s) as int] == '\n',
    decreases s.len(),
{
    if s.len() > 0 && s[0] != '\n' {
        lemma_newline_pos(s.drop_first());
        assert forall|i: int| 0 <= i < newline_pos(s) implies s[i] != '\n' by {
            if i > 0 {
                assert(s.drop_first()[i - 1] == s[i]);
            }
        }
    }
}

/// The lines of a text, split at newlines. A trailing newline closes the
/// last line rather than opening an empty one, so an empty text has no lines.
pub open spec fn line_split(s: Seq<char>) -> Seq<Seq<char>>
    decreases s.len(),
    via line_split_decreases
{
    if s.len() == 0 {
        Seq::empty()
    } else if newline_pos(s) == s.len() {
        seq![s]
    } else {
        seq![s.take(newline_pos(s) as int)] + line_split(s.skip(newline_pos(s) as int + 1))
    }
}

#[via_fn]
proof fn line_split_decreases(s: Seq<char>) {
    lemma_newline_pos(s);
}

// ---------------------------------------------------------------------------
// Statements and entries
// ---------------------------------------------------------------------------

/// One line inside a host block, as the model sees it.
pub enum SpecStatement {
    HostName(Seq<char>),
    Port(Seq<char>),
    Unknown(Seq<char>),
}

/// One `Host` block: the name on its header line and the body statements in
/// file order.
pub struct SpecEntry {
    pub hostname: Seq<char>,
    pub statements: Seq<SpecStatement>,
}

/// The token shapes given structured meaning inside a block.
pub open spec fn recognized_pair(tk: Seq<Seq<char>>) -> bool {
    tk.len() == 2 && (tk[0] == hostname_kw() || tk[0] == port_kw())
}

/// What one body line means: the two modeled directives, or the trimmed line
/// kept verbatim.
pub open spec fn spec_classify(line: Seq<char>) -> SpecStatement {
    let t = trim(line);
    let tk = tokens(t);
    if tk.len() == 2 && tk[0] == hostname_kw() {
        SpecStatement::HostName(tk[1])
    } else if tk.len() == 2 && tk[0] == port_kw() {
        SpecStatement::Port(tk[1])
    } else {
        SpecStatement::Unknown(t)
    }
}

// ---------------------------------------------------------------------------
// Parsing
// ---------------------------------------------------------------------------

/// Why a line outside any block was refused.
#[derive(Debug, PartialEq, Eq, Clone, Copy, Structural)]
pub enum ParseErrorKind {
    /// A non-blank line begins with a blank character while no block is
    /// open.
    UnexpectedIndent,
    /// The line is neither blank nor exactly `Host <name>`.
    MalformedHostLine,
}

/// A parse failure at the model level: the zero-based index of the offending
/// line, and why it was refused.
pub struct SpecParseError {
    pub line: nat,
    pub kind: ParseErrorKind,
}

/// A body line: one that begins with a blank character.
pub open spec fn starts_indented(line: Seq<char>) -> bool {
    line.len() > 0 && is_space(line[0])
}

/// How many consecutive lines from `i` on are body lines.
pub open spec fn body_len(lines: Seq<Seq<char>>, i: nat) -> nat
    decreases lines.len() - i,
{
    if i < lines.len() && starts_indented(lines[i as int]) {
        (1 + body_len(lines, (i + 1) as nat)) as nat
    } else {
        0
    }
}

pub proof fn lemma_body_len_le(lines: Seq<Seq<char>>, i: nat)
    requires
        i <= lines.len(),
    ensures
        body_len(lines, i) <= lines.len() - i,
    decreases lines.len() - i,
{
    if i < lines.len() && starts_indented(lines[i as int]) {
        lemma_body_len_le(lines, (i + 1) as nat);
    }
}

/// One forward pass over the lines from index `i`: a line outside any block
/// that is blank after trimming is skipped, a `Host <name>` header opens an
/// entry that takes every following indented line as a statement, and any
/// other line outside a block is an error naming its zero-based index —
/// `UnexpectedIndent` if it begins with a blank, else `MalformedHostLine`.
pub open spec fn spec_parse_at(lines: Seq<Seq<char>>, i: nat) -> Result<
    Seq<SpecEntry>,
    SpecParseError,
>
    decreases lines.len() - i,
    when i <= lines.len()
    via spec_parse_at_decreases
{
    if i >= lines.len() {
        Ok(Seq::empty())
    } else {
        let line = lines[i as int];
        let tk = tokens(line);
        if tk.len() == 0 {
            spec_parse_at(lines, (i + 1) as nat)
        } else if starts_indented(line) {
            Err(SpecParseError { line: i, kind: ParseErrorKind::UnexpectedIndent })
        } else if tk.len() == 2 && tk[0] == host_kw() {
            let b = body_len(lines, (i + 1) as nat);
            let stmts = Seq::new(b, |j: int| spec_classify(lines[i + 1 + j]));
            match spec_parse_at(lines, (i + 1 + b) as nat) {
                Ok(rest) => Ok(seq![SpecEntry { hostname: tk[1], statements: stmts }] + rest),
                Err(e) => Err(e),
            }
        } else {
            Err(SpecParseError { line: i, kind: ParseErrorKind::MalformedHostLine })
        }
    }
}

#[via_fn]
proof fn spec_parse_at_decreases(lines: Seq<Seq<char>>, i: nat) {
    if i < lines.len() {
        lemma_body_len_le(lines, (i + 1) as nat);
    }
}

/// The meaning of a whole file.
pub open spec fn spec_parse(text: Seq<char>) -> Result<Seq<SpecEntry>, SpecParseError> {
    spec_parse_at(line_split(text), 0)
}

// ---------------------------------------------------------------------------
// Formatting
// ---------------------------------------------------------------------------

/// One statement rendered back to line text, without indent or newline.
pub open spec fn render_stmt(s: SpecStatement) -> Seq<char> {
    match s {
        SpecStatement::HostName(v) => hostname_kw() + sp() + v,
        SpecStatement::Port(v) => port_kw() + sp() + v,
        SpecStatement::Unknown(r) => r,
    }
}

pub open spec fn format_stmts(ss: Seq<SpecStatement>, indent: Seq<char>) -> Seq<char>
    decreases ss.len(),
{
    if ss.len() == 0 {
        Seq::empty()
    } else {
        indent + render_stmt(ss[0]) + nl() + format_stmts(ss.drop_first(), indent)
    }
}

pub open spec fn format_entry(e: SpecEntry, indent: Seq<char>) -> Seq<char> {
    host_kw() + sp() + e.hostname + nl() + format_stmts(e.statements, indent)
}

/// A whole configuration serialized: for each entry its header line, then
/// each statement on its own line behind `indent`.
pub open spec fn spec_format(cfg: Seq<SpecEntry>, indent: Seq<char>) -> Seq<char>
    decreases cfg.len(),
{
    if cfg.len() == 0 {
        Seq::empty()
    } else {
        format_entry(cfg[0], indent) + spec_format(cfg.drop_first(), indent)
    }
}

// ---------------------------------------------------------------------------
// Well-formedness: what the formatter emits and the parser reads back
// ---------------------------------------------------------------------------

/// A statement the formatter can emit such that the parser reads it back as
/// itself: directive values are single words, and an opaque line is trimmed,
/// free of newlines, and not itself a recognizable directive.
pub open spec fn stmt_wf(s: SpecStatement) -> bool {
    match s {
        SpecStatement::HostName(v) => is_word(v),
        SpecStatement::Port(v) => is_word(v),
        SpecStatement::Unknown(r) => trim(r) == r && no_newline(r) && !recognized_pair(
            tokens(r),
        ),
    }
}

pub open spec fn entry_wf(e: SpecEntry) -> bool {
    &&& is_word(e.hostname)
    &&& forall|i: int| 0 <= i < e.statements.len() ==> stmt_wf(#[trigger] e.statements[i])
}

pub open spec fn config_wf(cfg: Seq<SpecEntry>) -> bool {
    forall|i: int| 0 <= i < cfg.len() ==> entry_wf(#[trigger] cfg[i])
}

/// An indentation the parser will recognize as opening a body line: at least
/// one character, all of them blanks.
pub open spec fn indent_wf(ind: Seq<char>) -> bool {
    ind.len() > 0 && (forall|i: int| 0 <= i < ind.len() ==> is_space(#[trigger] ind[i]))
}

// ---------------------------------------------------------------------------
// Mutation
// ---------------------------------------------------------------------------

/// One statement after a mutation request: a supplied replacement overwrites
/// the value of the matching directive; everything else stays.
pub open spec fn update_stmt(
    s: SpecStatement,
    new_hostname: Option<Seq<char>>,
    new_port: Option<Seq<char>>,
) -> SpecStatement {
    match s {
        SpecStatement::HostName(_) => match new_hostname {
            Some(h) => SpecStatement::HostName(h),
            None => s,
        },
        SpecStatement::Port(_) => match new_port {
            Some(p) => SpecStatement::Port(p),
            None => s,
        },
        SpecStatement::Unknown(_) => s,
    }
}

/// An entry after a mutation request: same name, same number and order of
/// statements, each statement updated in place.
pub open spec fn update_entry_spec(
    e: SpecEntry,
    new_hostname: Option<Seq<char>>,
    new_port: Option<Seq<char>>,
) -> SpecEntry {
    SpecEntry {
        hostname: e.hostname,
        statements: Seq::new(
            e.statements.len(),
            |i: int| update_stmt(e.statements[i], new_hostname, new_port),
        ),
    }
}

/// `i` is where lookup by `name` lands: the first entry with that hostname.
pub open spec fn is_first_match(cfg: Seq<SpecEntry>, name: Seq<char>, i: int) -> bool {
    &&& 0 <= i < cfg.len()
    &&& cfg[i].hostname == name
    &&& forall|j: int| 0 <= j < i ==> (#[trigger] cfg[j]).hostname != name
}

pub open spec fn has_host(cfg: Seq<SpecEntry>, name: Seq<char>) -> bool {
    exists|i: int| 0 <= i < cfg.len() && (#[trigger] cfg[i]).hostname == name
}

} // verus!
