//! The library's laws, stated over the model and proved once for all
//! inputs: a formatted configuration parses back to exactly itself, parsing
//! keeps file order, unrecognized lines survive verbatim, and a targeted
//! mutation touches nothing beyond its target.

use crate::model::{
    body_len, config_wf, entry_wf, format_entry, format_stmts, host_kw, hostname_kw, indent_wf,
    is_space, is_word, lemma_body_len_le, lemma_newline_pos, lemma_word_len_le, line_split,
    newline_pos, nl, no_newline, port_kw, recognized_pair, render_stmt, sp, spec_classify,
    spec_format, spec_parse, spec_parse_at, starts_indented, stmt_wf, tokens, trim, trim_end,
    trim_start, update_entry_spec, update_stmt, word_len, SpecEntry, SpecParseError,
    SpecStatement,
};
use vstd::prelude::*;

verus! {

// ---------------------------------------------------------------------------
// Trimming
// ---------------------------------------------------------------------------

pub open spec fn all_spaces(s: Seq<char>) -> bool {
    forall|i: int| 0 <= i < s.len() ==> is_space(#[trigger] s[i])
}

proof fn lemma_trim_start_spaces(p: Seq<char>, s: Seq<char>)
    requires
        all_spaces(p),
    ensures
        trim_start(p + s) == trim_start(s),
    decreases p.len(),
{
    if p.len() == 0 {
        assert(p + s =~= s);
    } else {
        assert((p + s)[0] == p[0]);
        assert((p + s).drop_first() =~= p.drop_first() + s);
        lemma_trim_start_spaces(p.drop_first(), s);
    }
}

proof fn lemma_trim_start_len(s: Seq<char>)
    ensures
        trim_start(s).len() <= s.len(),
        s.len() > 0 && is_space(s[0]) ==> trim_start(s).len() < s.len(),
    decreases s.len(),
{
    if s.len() > 0 && is_space(s[0]) {
        lemma_trim_start_len(s.drop_first());
    }
}

proof fn lemma_trim_end_len(s: Seq<char>)
    ensures
        trim_end(s).len() <= s.len(),
        s.len() > 0 && is_space(s.last()) ==> trim_end(s).len() < s.len(),
    decreases s.len(),
{
    if s.len() > 0 && is_space(s.last()) {
        lemma_trim_end_len(s.drop_last());
    }
}

/// A sequence that equals its own trim neither starts nor ends with a blank.
proof fn lemma_trimmed_ends(r: Seq<char>)
    requires
        trim(r) == r,
        r.len() > 0,
    ensures
        !is_space(r[0]),
        !is_space(r.last()),
{
    lemma_trim_start_len(r);
    lemma_trim_end_len(trim_start(r));
    if is_space(r[0]) {
        assert(trim(r).len() < r.len());
    }
    assert(trim_start(r) == r) by {
        if trim_start(r) != r {
            assert(trim(r).len() < r.len());
        }
    }
    if is_space(r.last()) {
        assert(trim_end(r).len() < r.len());
    }
}

/// Prepending blanks to a line that neither starts nor ends with one, then
/// trimming, gives the line back.
proof fn lemma_trim_indent(ind: Seq<char>, r: Seq<char>)
    requires
        all_spaces(ind),
        r.len() == 0 || (!is_space(r[0]) && !is_space(r.last())),
    ensures
        trim(ind + r) == r,
{
    lemma_trim_start_spaces(ind, r);
    assert(trim_start(r) == r);
    assert(trim_end(r) == r);
}

proof fn lemma_trim_start_first(s: Seq<char>)
    ensures
        trim_start(s).len() == 0 || !is_space(trim_start(s)[0]),
    decreases s.len(),
{
    if s.len() > 0 && is_space(s[0]) {
        lemma_trim_start_first(s.drop_first());
    }
}

proof fn lemma_trim_end_last(s: Seq<char>)
    ensures
        trim_end(s).len() == 0 || !is_space(trim_end(s).last()),
    decreases s.len(),
{
    if s.len() > 0 && is_space(s.last()) {
        lemma_trim_end_last(s.drop_last());
    }
}

proof fn lemma_trim_end_keeps_first(s: Seq<char>)
    requires
        s.len() > 0,
        !is_space(s[0]),
    ensures
        trim_end(s).len() == 0 || trim_end(s)[0] == s[0],
    decreases s.len(),
{
    if s.len() > 0 && is_space(s.last()) {
        if s.len() >= 2 {
            assert(s.drop_last()[0] == s[0]);
            lemma_trim_end_keeps_first(s.drop_last());
        }
    }
}

proof fn lemma_trim_end_idem(s: Seq<char>)
    ensures
        trim_end(trim_end(s)) == trim_end(s),
{
    lemma_trim_end_last(s);
}

proof fn lemma_trim_idempotent(s: Seq<char>)
    ensures
        trim(trim(s)) == trim(s),
{
    let u = trim_start(s);
    let t = trim_end(u);
    lemma_trim_start_first(s);
    if t.len() == 0 {
        assert(trim_start(t) == t);
        lemma_trim_end_idem(u);
    } else {
        lemma_trim_end_len(u);
        assert(u.len() > 0);
        lemma_trim_end_keeps_first(u);
        assert(!is_space(t[0]));
        assert(trim_start(t) == t);
        lemma_trim_end_idem(u);
    }
}

proof fn lemma_trim_start_no_newline(s: Seq<char>)
    requires
        no_newline(s),
    ensures
        no_newline(trim_start(s)),
    decreases s.len(),
{
    if s.len() > 0 && is_space(s[0]) {
        assert forall|i: int| 0 <= i < s.drop_first().len() implies s.drop_first()[i]
            != '\n' by {
            assert(s.drop_first()[i] == s[i + 1]);
        }
        lemma_trim_start_no_newline(s.drop_first());
    }
}

proof fn lemma_trim_no_newline(s: Seq<char>)
    requires
        no_newline(s),
    ensures
        no_newline(trim(s)),
    decreases s.len(),
{
    lemma_trim_start_no_newline(s);
    let u = trim_start(s);
    assert(no_newline(trim_end(u))) by {
        lemma_trim_end_no_newline(u);
    }
}

proof fn lemma_trim_end_no_newline(s: Seq<char>)
    requires
        no_newline(s),
    ensures
        no_newline(trim_end(s)),
    decreases s.len(),
{
    if s.len() > 0 && is_space(s.last()) {
        assert forall|i: int| 0 <= i < s.drop_last().len() implies s.drop_last()[i] != '\n' by {
            assert(s.drop_last()[i] == s[i]);
        }
        lemma_trim_end_no_newline(s.drop_last());
    }
}

// ---------------------------------------------------------------------------
// Tokenizing
// ---------------------------------------------------------------------------

pub open spec fn no_spaces(s: Seq<char>) -> bool {
    forall|i: int| 0 <= i < s.len() ==> !is_space(#[trigger] s[i])
}

proof fn lemma_word_len_concat(t: Seq<char>, s: Seq<char>)
    requires
        no_spaces(t),
        s.len() == 0 || is_space(s[0]),
    ensures
        word_len(t + s) == t.len(),
    decreases t.len(),
{
    if t.len() == 0 {
        assert(t + s =~= s);
    } else {
        assert((t + s)[0] == t[0]);
        assert((t + s).drop_first() =~= t.drop_first() + s);
        assert(no_spaces(t.drop_first())) by {
            assert forall|i: int| 0 <= i < t.drop_first().len() implies !is_space(
                #[trigger] t.drop_first()[i],
            ) by {
                assert(t.drop_first()[i] == t[i + 1]);
            }
        }
        lemma_word_len_concat(t.drop_first(), s);
    }
}

/// A single word tokenizes to itself alone.
proof fn lemma_tokens_word(t: Seq<char>)
    requires
        t.len() > 0,
        no_spaces(t),
    ensures
        tokens(t) == seq![t],
{
    lemma_word_len_concat(t, Seq::empty());
    assert(t + Seq::<char>::empty() =~= t);
    assert(word_len(t) == t.len());
    assert(!is_space(t[0]));
    assert(t.take(t.len() as int) =~= t);
    assert(t.skip(t.len() as int) =~= Seq::<char>::empty());
    assert(tokens(Seq::<char>::empty()) == Seq::<Seq<char>>::empty());
    assert(tokens(t) =~= seq![t]);
}

/// A word, a blank, then anything: the word comes off as the first token.
proof fn lemma_tokens_word_prefix(t: Seq<char>, rest: Seq<char>)
    requires
        t.len() > 0,
        no_spaces(t),
    ensures
        tokens(t + sp() + rest) == seq![t] + tokens(rest),
{
    let s = t + sp() + rest;
    assert(s[0] == t[0]);
    assert(!is_space(t[0]));
    assert(t + sp() + rest =~= t + (sp() + rest));
    assert((sp() + rest)[0] == ' ');
    lemma_word_len_concat(t, sp() + rest);
    assert(word_len(s) == t.len());
    assert(s.take(t.len() as int) =~= t);
    assert(s.skip(t.len() as int) =~= sp() + rest);
    assert((sp() + rest).drop_first() =~= rest);
    assert(tokens(sp() + rest) == tokens(rest));
    assert(tokens(s) =~= seq![t] + tokens(rest));
}

/// `<word> <word>` tokenizes to exactly that pair.
proof fn lemma_tokens_pair(a: Seq<char>, b: Seq<char>)
    requires
        a.len() > 0,
        no_spaces(a),
        b.len() > 0,
        no_spaces(b),
    ensures
        tokens(a + sp() + b) == seq![a, b],
{
    lemma_tokens_word_prefix(a, b);
    lemma_tokens_word(b);
    assert(seq![a] + seq![b] =~= seq![a, b]);
}

proof fn lemma_keywords_are_words()
    ensures
        is_word(host_kw()),
        is_word(hostname_kw()),
        is_word(port_kw()),
{
    assert forall|i: int| 0 <= i < host_kw().len() implies !is_space(#[trigger] host_kw()[i])
        && host_kw()[i] != '\n' by {}
    assert forall|i: int| 0 <= i < hostname_kw().len() implies !is_space(
        #[trigger] hostname_kw()[i],
    ) && hostname_kw()[i] != '\n' by {}
    assert forall|i: int| 0 <= i < port_kw().len() implies !is_space(#[trigger] port_kw()[i])
        && port_kw()[i] != '\n' by {}
}

// ---------------------------------------------------------------------------
// A rendered statement classifies back to itself
// ---------------------------------------------------------------------------

proof fn lemma_classify_render(s: SpecStatement, ind: Seq<char>)
    requires
        stmt_wf(s),
        all_spaces(ind),
    ensures
        spec_classify(ind + render_stmt(s)) == s,
{
    lemma_keywords_are_words();
    match s {
        SpecStatement::HostName(v) => {
            let r = hostname_kw() + sp() + v;
            assert(r[0] == hostname_kw()[0]);
            assert(r.last() == v.last());
            lemma_trim_indent(ind, r);
            assert(hostname_kw() + sp() + v =~= (hostname_kw() + sp()) + v);
            lemma_tokens_pair(hostname_kw(), v);
        },
        SpecStatement::Port(v) => {
            let r = port_kw() + sp() + v;
            assert(r[0] == port_kw()[0]);
            assert(r.last() == v.last());
            lemma_trim_indent(ind, r);
            lemma_tokens_pair(port_kw(), v);
            assert(port_kw() != hostname_kw()) by {
                assert(port_kw().len() != hostname_kw().len());
            }
        },
        SpecStatement::Unknown(r) => {
            if r.len() > 0 {
                lemma_trimmed_ends(r);
            }
            lemma_trim_indent(ind, r);
        },
    }
}


// ---------------------------------------------------------------------------
// Line splitting of formatted text
// ---------------------------------------------------------------------------

proof fn lemma_newline_pos_concat(a: Seq<char>, b: Seq<char>)
    requires
        no_newline(a),
    ensures
        newline_pos(a + nl() + b) == a.len(),
    decreases a.len(),
{
    if a.len() == 0 {
        assert(a + nl() + b =~= nl() + b);
        assert((nl() + b)[0] == '\n');
    } else {
        let s = a + nl() + b;
        assert(s[0] == a[0]);
        assert(a[0] != '\n');
        assert(s.drop_first() =~= a.drop_first() + nl() + b);
        assert(no_newline(a.drop_first())) by {
            assert forall|i: int| 0 <= i < a.drop_first().len() implies a.drop_first()[i]
                != '\n' by {
                assert(a.drop_first()[i] == a[i + 1]);
            }
        }
        lemma_newline_pos_concat(a.drop_first(), b);
    }
}

/// Splitting `<line>\n<rest>` peels the newline-free line off the front.
proof fn lemma_line_split_concat(a: Seq<char>, b: Seq<char>)
    requires
        no_newline(a),
    ensures
        line_split(a + nl() + b) == seq![a] + line_split(b),
{
    let s = a + nl() + b;
    lemma_newline_pos_concat(a, b);
    assert(s.len() == a.len() + 1 + b.len());
    assert(s.take(a.len() as int) =~= a);
    assert(s.skip(a.len() as int + 1) =~= b);
    assert(line_split(s) =~= seq![a] + line_split(b));
}

proof fn lemma_render_no_newline(s: SpecStatement)
    requires
        stmt_wf(s),
    ensures
        no_newline(render_stmt(s)),
{
    lemma_keywords_are_words();
    match s {
        SpecStatement::HostName(v) => {
            let r = hostname_kw() + sp() + v;
            assert forall|m: int| 0 <= m < r.len() implies r[m] != '\n' by {
                if m < hostname_kw().len() {
                    assert(r[m] == hostname_kw()[m]);
                } else if m == hostname_kw().len() {
                    assert(r[m] == ' ');
                } else {
                    assert(r[m] == v[m - hostname_kw().len() - 1]);
                }
            }
        },
        SpecStatement::Port(v) => {
            let r = port_kw() + sp() + v;
            assert forall|m: int| 0 <= m < r.len() implies r[m] != '\n' by {
                if m < port_kw().len() {
                    assert(r[m] == port_kw()[m]);
                } else if m == port_kw().len() {
                    assert(r[m] == ' ');
                } else {
                    assert(r[m] == v[m - port_kw().len() - 1]);
                }
            }
        },
        SpecStatement::Unknown(_) => {},
    }
}

proof fn lemma_indent_line_no_newline(ind: Seq<char>, s: SpecStatement)
    requires
        stmt_wf(s),
        all_spaces(ind),
    ensures
        no_newline(ind + render_stmt(s)),
{
    lemma_render_no_newline(s);
    let a = ind + render_stmt(s);
    assert forall|m: int| 0 <= m < a.len() implies a[m] != '\n' by {
        if m < ind.len() {
            assert(a[m] == ind[m]);
            assert(is_space(ind[m]));
        } else {
            assert(a[m] == render_stmt(s)[m - ind.len()]);
        }
    }
}

/// The lines of a formatted body, followed by anything: one line per
/// statement, indent in front, then the lines of the remainder.
proof fn lemma_body_lines(ss: Seq<SpecStatement>, ind: Seq<char>, tail: Seq<char>)
    requires
        forall|i: int| 0 <= i < ss.len() ==> stmt_wf(#[trigger] ss[i]),
        indent_wf(ind),
    ensures
        line_split(format_stmts(ss, ind) + tail) == Seq::new(
            ss.len(),
            |j: int| ind + render_stmt(ss[j]),
        ) + line_split(tail),
    decreases ss.len(),
{
    if ss.len() == 0 {
        assert(format_stmts(ss, ind) + tail =~= tail);
        assert(line_split(format_stmts(ss, ind) + tail) =~= Seq::new(
            ss.len(),
            |j: int| ind + render_stmt(ss[j]),
        ) + line_split(tail));
    } else {
        let a = ind + render_stmt(ss[0]);
        let df = ss.drop_first();
        assert(all_spaces(ind));
        lemma_indent_line_no_newline(ind, ss[0]);
        assert(format_stmts(ss, ind) + tail =~= a + nl() + (format_stmts(df, ind) + tail));
        lemma_line_split_concat(a, format_stmts(df, ind) + tail);
        assert(forall|i: int| 0 <= i < df.len() ==> stmt_wf(#[trigger] df[i]));
        lemma_body_lines(df, ind, tail);
        assert(line_split(format_stmts(ss, ind) + tail) =~= Seq::new(
            ss.len(),
            |j: int| ind + render_stmt(ss[j]),
        ) + line_split(tail)) by {
            assert(line_split(format_stmts(ss, ind) + tail) == seq![a] + (Seq::new(
                df.len(),
                |j: int| ind + render_stmt(df[j]),
            ) + line_split(tail)));
        }
    }
}

proof fn lemma_body_len_exact(lines: Seq<Seq<char>>, j: nat, k: nat)
    requires
        j + k <= lines.len(),
        forall|m: int| j <= m < j + k ==> starts_indented(#[trigger] lines[m]),
        j + k == lines.len() || !starts_indented(lines[(j + k) as int]),
    ensures
        body_len(lines, j) == k,
    decreases k,
{
    if k == 0 {
    } else {
        assert(starts_indented(lines[j as int]));
        lemma_body_len_exact(lines, (j + 1) as nat, (k - 1) as nat);
    }
}

// ---------------------------------------------------------------------------
// The round trip
// ---------------------------------------------------------------------------

proof fn lemma_format_decomposition(cfg: Seq<SpecEntry>, ind: Seq<char>)
    requires
        config_wf(cfg),
        indent_wf(ind),
        cfg.len() > 0,
    ensures
        line_split(spec_format(cfg, ind)) == seq![host_kw() + sp() + cfg[0].hostname] + Seq::new(
            cfg[0].statements.len(),
            |j: int| ind + render_stmt(cfg[0].statements[j]),
        ) + line_split(spec_format(cfg.drop_first(), ind)),
        !starts_indented(line_split(spec_format(cfg, ind))[0]),
{
    let e0 = cfg[0];
    let ss = e0.statements;
    let hdr = host_kw() + sp() + e0.hostname;
    let fs = format_stmts(ss, ind);
    let rt = spec_format(cfg.drop_first(), ind);
    assert(entry_wf(e0));
    lemma_keywords_are_words();
    assert(no_newline(hdr)) by {
        assert forall|m: int| 0 <= m < hdr.len() implies hdr[m] != '\n' by {
            if m < host_kw().len() {
                assert(hdr[m] == host_kw()[m]);
            } else if m == host_kw().len() {
                assert(hdr[m] == ' ');
            } else {
                assert(hdr[m] == e0.hostname[m - host_kw().len() - 1]);
            }
        }
    }
    assert(spec_format(cfg, ind) == format_entry(e0, ind) + rt);
    assert(format_entry(e0, ind) + rt =~= hdr + nl() + (fs + rt));
    lemma_line_split_concat(hdr, fs + rt);
    assert(forall|i: int| 0 <= i < ss.len() ==> stmt_wf(#[trigger] ss[i]));
    lemma_body_lines(ss, ind, rt);
    assert(line_split(spec_format(cfg, ind)) =~= seq![hdr] + Seq::new(
        ss.len(),
        |j: int| ind + render_stmt(ss[j]),
    ) + line_split(rt));
    assert(line_split(spec_format(cfg, ind))[0] == hdr);
    assert(hdr[0] == host_kw()[0]);
    assert(!is_space('H'));
}

proof fn lemma_parse_format_at(
    cfg: Seq<SpecEntry>,
    ind: Seq<char>,
    lines: Seq<Seq<char>>,
    i: nat,
)
    requires
        config_wf(cfg),
        indent_wf(ind),
        i <= lines.len(),
        lines.skip(i as int) == line_split(spec_format(cfg, ind)),
    ensures
        spec_parse_at(lines, i) == Ok::<Seq<SpecEntry>, SpecParseError>(cfg),
    decreases cfg.len(),
{
    if cfg.len() == 0 {
        assert(spec_format(cfg, ind) == Seq::<char>::empty());
        assert(line_split(Seq::<char>::empty()) == Seq::<Seq<char>>::empty());
        assert(lines.skip(i as int).len() == 0);
        assert(i == lines.len());
        assert(cfg =~= Seq::<SpecEntry>::empty());
    } else {
        let e0 = cfg[0];
        let rest = cfg.drop_first();
        let ss = e0.statements;
        let k = ss.len();
        let hdr = host_kw() + sp() + e0.hostname;
        let bl = Seq::new(k, |j: int| ind + render_stmt(ss[j]));
        let lsr = line_split(spec_format(rest, ind));
        assert(entry_wf(e0));
        lemma_keywords_are_words();
        lemma_format_decomposition(cfg, ind);
        assert(lines.skip(i as int) == seq![hdr] + bl + lsr);
        assert(lines.skip(i as int).len() == 1 + k + lsr.len());
        assert(lines.len() - i == 1 + k + lsr.len());
        // the header line
        assert(lines[i as int] == hdr) by {
            assert(lines.skip(i as int)[0] == lines[i as int]);
        }
        assert(hdr[0] == host_kw()[0]);
        assert(!starts_indented(hdr));
        assert(no_spaces(host_kw()) && no_spaces(e0.hostname)) by {
            assert(forall|m: int|
                0 <= m < host_kw().len() ==> !is_space(#[trigger] host_kw()[m]));
            assert(forall|m: int|
                0 <= m < e0.hostname.len() ==> !is_space(#[trigger] e0.hostname[m]));
        }
        lemma_tokens_pair(host_kw(), e0.hostname);
        let tk = tokens(lines[i as int]);
        assert(tk == seq![host_kw(), e0.hostname]);
        assert(tk.len() == 2 && tk[0] == host_kw() && tk[1] == e0.hostname);
        // the body lines
        assert forall|m: int| 0 <= m < k implies lines[i + 1 + m] == bl[m] by {
            assert(lines.skip(i as int)[1 + m] == lines[i + 1 + m]);
            assert((seq![hdr] + bl + lsr)[1 + m] == bl[m]);
        }
        assert forall|m: int| i + 1 <= m < i + 1 + k implies starts_indented(
            #[trigger] lines[m],
        ) by {
            let j = m - i - 1;
            assert(lines[m] == bl[j]);
            assert(bl[j] == ind + render_stmt(ss[j]));
            assert((ind + render_stmt(ss[j]))[0] == ind[0]);
            assert(is_space(ind[0]));
        }
        // the line after the body, if any, is the next header
        if rest.len() == 0 {
            assert(spec_format(rest, ind) == Seq::<char>::empty());
            assert(lsr.len() == 0);
            assert(i + 1 + k == lines.len());
        } else {
            assert(config_wf(rest)) by {
                assert forall|m: int| 0 <= m < rest.len() implies entry_wf(
                    #[trigger] rest[m],
                ) by {
                    assert(rest[m] == cfg[m + 1]);
                }
            }
            lemma_format_decomposition(rest, ind);
            assert(lsr.len() > 0);
            assert(lines[(i + 1 + k) as int] == lsr[0]) by {
                assert(lines.skip(i as int)[(1 + k) as int] == lines[(i + 1 + k) as int]);
                assert((seq![hdr] + bl + lsr)[(1 + k) as int] == lsr[0]);
            }
            assert(!starts_indented(lines[(i + 1 + k) as int]));
        }
        lemma_body_len_exact(lines, (i + 1) as nat, k as nat);
        assert(body_len(lines, (i + 1) as nat) == k);
        // each body line classifies back to its statement
        let built = Seq::new(
            body_len(lines, (i + 1) as nat),
            |j: int| spec_classify(lines[i + 1 + j]),
        );
        assert forall|j: int| 0 <= j < k implies built[j] == ss[j] by {
            assert(lines[i + 1 + j] == bl[j]);
            assert(bl[j] == ind + render_stmt(ss[j]));
            assert(stmt_wf(ss[j]));
            lemma_classify_render(ss[j], ind);
        }
        assert(built =~= ss);
        // the remainder parses to the remaining entries
        assert(config_wf(rest)) by {
            assert forall|m: int| 0 <= m < rest.len() implies entry_wf(#[trigger] rest[m]) by {
                assert(rest[m] == cfg[m + 1]);
            }
        }
        assert(lines.skip((i + 1 + k) as int) =~= lsr) by {
            assert forall|m: int| 0 <= m < lines.len() - (i + 1 + k) implies lines.skip(
                (i + 1 + k) as int,
            )[m] == lsr[m] by {
                assert(lines.skip((i + 1 + k) as int)[m] == lines[i + 1 + k + m]);
                assert(lines.skip(i as int)[1 + k + m] == lines[i + 1 + k + m]);
                assert((seq![hdr] + bl + lsr)[1 + k + m] == lsr[m]);
            }
        }
        lemma_parse_format_at(rest, ind, lines, (i + 1 + k) as nat);
        assert(spec_parse_at(lines, (i + 1 + k) as nat) == Ok::<Seq<SpecEntry>, SpecParseError>(rest));
        // assemble
        let entry = SpecEntry { hostname: tk[1], statements: built };
        assert(entry == e0);
        assert(seq![e0] + rest =~= cfg);
        assert(spec_parse_at(lines, i) == Ok::<Seq<SpecEntry>, SpecParseError>(seq![entry] + rest));
    }
}

/// Formatting a well-formed configuration with a well-formed indent and
/// parsing the text back yields exactly the original configuration.
pub proof fn lemma_format_then_parse(cfg: Seq<SpecEntry>, ind: Seq<char>)
    requires
        config_wf(cfg),
        indent_wf(ind),
    ensures
        spec_parse(spec_format(cfg, ind)) == Ok::<Seq<SpecEntry>, SpecParseError>(cfg),
{
    let lines = line_split(spec_format(cfg, ind));
    assert(lines.skip(0) =~= lines);
    lemma_parse_format_at(cfg, ind, lines, 0);
}


// ---------------------------------------------------------------------------
// What the parser produces is well-formed
// ---------------------------------------------------------------------------

proof fn lemma_word_len_chars(s: Seq<char>)
    ensures
        forall|m: int| 0 <= m < word_len(s) ==> !is_space(#[trigger] s[m]),
    decreases s.len(),
{
    if s.len() > 0 && !is_space(s[0]) {
        lemma_word_len_chars(s.drop_first());
        lemma_word_len_le(s.drop_first());
        assert forall|m: int| 0 <= m < word_len(s) implies !is_space(#[trigger] s[m]) by {
            if m > 0 {
                assert(0 <= m - 1 < s.drop_first().len());
                assert(s.drop_first()[m - 1] == s[m]);
            }
        }
    }
}

/// Every token of a newline-free line is a word.
proof fn lemma_tokens_words(s: Seq<char>)
    requires
        no_newline(s),
    ensures
        forall|i: int| 0 <= i < tokens(s).len() ==> is_word(#[trigger] tokens(s)[i]),
    decreases s.len(),
{
    if s.len() == 0 {
    } else if is_space(s[0]) {
        assert(no_newline(s.drop_first())) by {
            assert forall|m: int| 0 <= m < s.drop_first().len() implies s.drop_first()[m]
                != '\n' by {
                assert(s.drop_first()[m] == s[m + 1]);
            }
        }
        lemma_tokens_words(s.drop_first());
        assert(tokens(s) == tokens(s.drop_first()));
    } else {
        lemma_word_len_le(s);
        lemma_word_len_chars(s);
        let wl = word_len(s) as int;
        let head = s.take(wl);
        assert(word_len(s) >= 1);
        assert(is_word(head)) by {
            assert forall|m: int| 0 <= m < head.len() implies !is_space(#[trigger] head[m])
                && head[m] != '\n' by {
                assert(head[m] == s[m]);
            }
        }
        assert(no_newline(s.skip(wl))) by {
            assert forall|m: int| 0 <= m < s.skip(wl).len() implies s.skip(wl)[m] != '\n' by {
                assert(s.skip(wl)[m] == s[wl + m]);
            }
        }
        lemma_tokens_words(s.skip(wl));
        assert(tokens(s) == seq![head] + tokens(s.skip(wl)));
        assert forall|i: int| 0 <= i < tokens(s).len() implies is_word(
            #[trigger] tokens(s)[i],
        ) by {
            if i > 0 {
                assert(tokens(s)[i] == tokens(s.skip(wl))[i - 1]);
            }
        }
    }
}

/// What a newline-free line classifies to is well-formed.
proof fn lemma_classify_wf(line: Seq<char>)
    requires
        no_newline(line),
    ensures
        stmt_wf(spec_classify(line)),
{
    let t = trim(line);
    lemma_trim_no_newline(line);
    lemma_tokens_words(t);
    lemma_trim_idempotent(line);
    let tk = tokens(t);
    if tk.len() == 2 && (tk[0] == hostname_kw() || tk[0] == port_kw()) {
        assert(is_word(tk[1]));
    } else {
        assert(!recognized_pair(tokens(t)));
    }
}

proof fn lemma_line_split_no_newline(s: Seq<char>)
    ensures
        forall|i: int|
            0 <= i < line_split(s).len() ==> no_newline(#[trigger] line_split(s)[i]),
    decreases s.len(),
{
    lemma_newline_pos(s);
    if s.len() == 0 {
    } else if newline_pos(s) == s.len() {
        assert(no_newline(s));
    } else {
        let p = newline_pos(s) as int;
        lemma_line_split_no_newline(s.skip(p + 1));
        assert(no_newline(s.take(p))) by {
            assert forall|m: int| 0 <= m < s.take(p).len() implies s.take(p)[m] != '\n' by {
                assert(s.take(p)[m] == s[m]);
            }
        }
        assert forall|i: int| 0 <= i < line_split(s).len() implies no_newline(
            #[trigger] line_split(s)[i],
        ) by {
            if i == 0 {
                assert(line_split(s)[0] == s.take(p));
            } else {
                assert(line_split(s)[i] == line_split(s.skip(p + 1))[i - 1]);
            }
        }
    }
}

proof fn lemma_parse_at_wf(lines: Seq<Seq<char>>, i: nat)
    requires
        i <= lines.len(),
        forall|m: int| 0 <= m < lines.len() ==> no_newline(#[trigger] lines[m]),
    ensures
        spec_parse_at(lines, i) is Ok ==> config_wf(spec_parse_at(lines, i)->Ok_0),
    decreases lines.len() - i,
{
    if i >= lines.len() {
    } else {
        let line = lines[i as int];
        let tk = tokens(line);
        if tk.len() == 0 {
            lemma_parse_at_wf(lines, (i + 1) as nat);
        } else if !starts_indented(line) {
            if tk.len() == 2 && tk[0] == host_kw() {
                let b = body_len(lines, (i + 1) as nat);
                lemma_body_len_le(lines, (i + 1) as nat);
                lemma_parse_at_wf(lines, (i + 1 + b) as nat);
                if spec_parse_at(lines, (i + 1 + b) as nat) is Ok {
                    let rest = spec_parse_at(lines, (i + 1 + b) as nat)->Ok_0;
                    lemma_tokens_words(line);
                    assert(is_word(tk[1]));
                    let stmts = Seq::new(b, |j: int| spec_classify(lines[i + 1 + j]));
                    assert forall|j: int| 0 <= j < b implies stmt_wf(#[trigger] stmts[j]) by {
                        lemma_classify_wf(lines[i + 1 + j]);
                    }
                    let entry = SpecEntry { hostname: tk[1], statements: stmts };
                    assert(entry_wf(entry));
                    let out = seq![entry] + rest;
                    assert forall|m: int| 0 <= m < out.len() implies entry_wf(
                        #[trigger] out[m],
                    ) by {
                        if m > 0 {
                            assert(out[m] == rest[m - 1]);
                        }
                    }
                    assert(spec_parse_at(lines, i) == Ok::<Seq<SpecEntry>, SpecParseError>(
                        out,
                    ));
                }
            }
        }
    }
}

/// Whatever the parser accepts, it produces a well-formed configuration, fit
/// to be formatted and parsed back.
pub proof fn lemma_parse_wf(text: Seq<char>)
    ensures
        spec_parse(text) is Ok ==> config_wf(spec_parse(text)->Ok_0),
{
    lemma_line_split_no_newline(text);
    lemma_parse_at_wf(line_split(text), 0);
}

// ---------------------------------------------------------------------------
// The public laws
// ---------------------------------------------------------------------------

/// Round-trip idempotence: parsing a text, formatting the result with any
/// well-formed indent, and parsing that text again yields exactly the
/// configuration the first parse gave.
pub proof fn lemma_roundtrip_idempotence(text: Seq<char>, ind: Seq<char>)
    requires
        indent_wf(ind),
        spec_parse(text) is Ok,
    ensures
        spec_parse(spec_format(spec_parse(text)->Ok_0, ind)) == spec_parse(text),
{
    lemma_parse_wf(text);
    lemma_format_then_parse(spec_parse(text)->Ok_0, ind);
}

/// Unknown-statement fidelity: a line whose tokens are not a recognized
/// directive pair classifies to an `Unknown` statement, and rendering it
/// gives back exactly the trimmed original line.
pub proof fn lemma_unknown_fidelity(line: Seq<char>)
    requires
        !recognized_pair(tokens(trim(line))),
    ensures
        spec_classify(line) is Unknown,
        render_stmt(spec_classify(line)) == trim(line),
{
}

/// Order preservation: after formatting and re-parsing, every entry stands
/// at the index it had, duplicates included; statements travel inside their
/// entry unchanged and therefore in order.
pub proof fn lemma_order_preservation(cfg: Seq<SpecEntry>, ind: Seq<char>, i: int)
    requires
        config_wf(cfg),
        indent_wf(ind),
        0 <= i < cfg.len(),
    ensures
        spec_parse(spec_format(cfg, ind)) is Ok,
        spec_parse(spec_format(cfg, ind))->Ok_0[i] == cfg[i],
{
    lemma_format_then_parse(cfg, ind);
}

/// Targeted mutation isolation: replacing the `Port` of the entry at `i`
/// leaves every other entry untouched and, inside entry `i`, changes nothing
/// but its `Port` statements.
pub proof fn lemma_mutation_isolation(cfg: Seq<SpecEntry>, i: int, new_port: Seq<char>)
    requires
        0 <= i < cfg.len(),
    ensures
        ({
            let u = cfg.update(i, update_entry_spec(cfg[i], None, Some(new_port)));
            &&& u.len() == cfg.len()
            &&& forall|j: int| 0 <= j < cfg.len() && j != i ==> #[trigger] u[j] == cfg[j]
            &&& u[i].hostname == cfg[i].hostname
            &&& u[i].statements.len() == cfg[i].statements.len()
            &&& forall|k: int|
                0 <= k < cfg[i].statements.len() && !(cfg[i].statements[k] is Port)
                    ==> #[trigger] u[i].statements[k] == cfg[i].statements[k]
        }),
{
    let u = cfg.update(i, update_entry_spec(cfg[i], None, Some(new_port)));
    assert forall|k: int|
        0 <= k < cfg[i].statements.len() && !(cfg[i].statements[k] is Port) implies #[trigger] u[i].statements[k]
        == cfg[i].statements[k] by {
        assert(u[i].statements[k] == update_stmt(cfg[i].statements[k], None, Some(new_port)));
    }
}


/// Index of the output line on which entry `i`'s header stands: one header
/// line plus one body line per statement for every earlier entry.
pub open spec fn line_offset(cfg: Seq<SpecEntry>, i: int) -> int
    decreases i,
{
    if i <= 0 {
        0
    } else {
        line_offset(cfg, i - 1) + 1 + cfg[i - 1].statements.len()
    }
}

proof fn lemma_line_offset_shift(cfg: Seq<SpecEntry>, i: int)
    requires
        1 <= i <= cfg.len(),
    ensures
        line_offset(cfg, i) == 1 + cfg[0].statements.len() + line_offset(cfg.drop_first(), i - 1),
    decreases i,
{
    if i > 1 {
        lemma_line_offset_shift(cfg, i - 1);
        assert(cfg.drop_first()[i - 2] == cfg[i - 1]);
        assert(line_offset(cfg, i) == line_offset(cfg, i - 1) + 1 + cfg[i - 1].statements.len());
        assert(line_offset(cfg.drop_first(), i - 1) == line_offset(cfg.drop_first(), i - 2) + 1
            + cfg.drop_first()[i - 2].statements.len());
    } else {
        assert(line_offset(cfg, 0) == 0);
        assert(line_offset(cfg, 1) == line_offset(cfg, 0) + 1 + cfg[0].statements.len());
        assert(line_offset(cfg.drop_first(), 0) == 0);
    }
}

proof fn lemma_line_offset_nonneg(cfg: Seq<SpecEntry>, i: int)
    ensures
        line_offset(cfg, i) >= 0,
    decreases i,
{
    if i > 0 {
        lemma_line_offset_nonneg(cfg, i - 1);
    }
}

/// Entry `i`'s lines — its header and its body — all lie within the
/// formatted output.
proof fn lemma_line_offset_bound(cfg: Seq<SpecEntry>, ind: Seq<char>, i: int)
    requires
        config_wf(cfg),
        indent_wf(ind),
        0 <= i < cfg.len(),
    ensures
        line_offset(cfg, i) + 1 + cfg[i].statements.len() <= line_split(
            spec_format(cfg, ind),
        ).len(),
    decreases i,
{
    lemma_format_decomposition(cfg, ind);
    if i > 0 {
        let df = cfg.drop_first();
        assert(config_wf(df)) by {
            assert forall|m: int| 0 <= m < df.len() implies entry_wf(#[trigger] df[m]) by {
                assert(df[m] == cfg[m + 1]);
            }
        }
        lemma_line_offset_bound(df, ind, i - 1);
        lemma_line_offset_shift(cfg, i);
        assert(df[i - 1] == cfg[i]);
    }
}

/// Targeted mutation, seen in the output text: replacing the value of the
/// `Port` statement `j` of entry `i` changes exactly one line of the
/// formatted output — line `line_offset(cfg, i) + 1 + j` — and leaves every
/// other line of every entry byte-identical.
pub proof fn lemma_mutation_output_isolated(
    cfg: Seq<SpecEntry>,
    ind: Seq<char>,
    i: int,
    j: int,
    p2: Seq<char>,
)
    requires
        config_wf(cfg),
        indent_wf(ind),
        0 <= i < cfg.len(),
        0 <= j < cfg[i].statements.len(),
        cfg[i].statements[j] is Port,
        is_word(p2),
    ensures
        ({
            let e2 = SpecEntry {
                hostname: cfg[i].hostname,
                statements: cfg[i].statements.update(j, SpecStatement::Port(p2)),
            };
            let l1 = line_split(spec_format(cfg, ind));
            let l2 = line_split(spec_format(cfg.update(i, e2), ind));
            &&& l1.len() == l2.len()
            &&& forall|m: int|
                0 <= m < l1.len() && m != line_offset(cfg, i) + 1 + j ==> #[trigger] l1[m]
                    == l2[m]
            &&& l2[line_offset(cfg, i) + 1 + j] == ind + render_stmt(SpecStatement::Port(p2))
        }),
    decreases i,
{
    let e2 = SpecEntry {
        hostname: cfg[i].hostname,
        statements: cfg[i].statements.update(j, SpecStatement::Port(p2)),
    };
    let cfg2 = cfg.update(i, e2);
    let l1 = line_split(spec_format(cfg, ind));
    let l2 = line_split(spec_format(cfg2, ind));
    assert(entry_wf(cfg[i]));
    assert(entry_wf(e2)) by {
        assert forall|m: int| 0 <= m < e2.statements.len() implies stmt_wf(
            #[trigger] e2.statements[m],
        ) by {
            if m != j {
                assert(e2.statements[m] == cfg[i].statements[m]);
            }
        }
    }
    assert(config_wf(cfg2)) by {
        assert forall|m: int| 0 <= m < cfg2.len() implies entry_wf(#[trigger] cfg2[m]) by {
            if m != i {
                assert(cfg2[m] == cfg[m]);
            }
        }
    }
    lemma_format_decomposition(cfg, ind);
    lemma_format_decomposition(cfg2, ind);
    let k0 = cfg[0].statements.len() as int;
    let b1 = Seq::new(k0 as nat, |m: int| ind + render_stmt(cfg[0].statements[m]));
    if i == 0 {
        let hdr = host_kw() + sp() + cfg[0].hostname;
        let b2 = Seq::new(e2.statements.len(), |m: int| ind + render_stmt(e2.statements[m]));
        let t = line_split(spec_format(cfg.drop_first(), ind));
        assert(l1 == seq![hdr] + b1 + t);
        assert(cfg2[0] == e2);
        assert(cfg2.drop_first() =~= cfg.drop_first());
        assert(seq![host_kw() + sp() + cfg2[0].hostname] =~= seq![hdr]);
        assert(Seq::new(
            cfg2[0].statements.len(),
            |m: int| ind + render_stmt(cfg2[0].statements[m]),
        ) =~= b2);
        assert(l2 == seq![hdr] + b2 + t);
        assert(b2.len() == b1.len());
        assert(line_offset(cfg, 0) == 0);
        assert forall|m: int| 0 <= m < l1.len() && m != 1 + j implies #[trigger] l1[m]
            == l2[m] by {
            if 1 <= m < 1 + k0 {
                assert(l1[m] == b1[m - 1]);
                assert(l2[m] == b2[m - 1]);
                assert(e2.statements[m - 1] == cfg[0].statements[m - 1]);
            } else if m >= 1 + k0 {
                assert(l1[m] == t[m - 1 - k0]);
                assert(l2[m] == t[m - 1 - k0]);
            }
        }
        assert(l2[1 + j] == b2[j]);
    } else {
        let hdr = host_kw() + sp() + cfg[0].hostname;
        let df1 = cfg.drop_first();
        let df2 = cfg2.drop_first();
        assert(cfg2[0] == cfg[0]);
        assert(df1[i - 1] == cfg[i]);
        assert(df2 =~= df1.update(i - 1, e2));
        assert(config_wf(df1)) by {
            assert forall|m: int| 0 <= m < df1.len() implies entry_wf(#[trigger] df1[m]) by {
                assert(df1[m] == cfg[m + 1]);
            }
        }
        lemma_mutation_output_isolated(df1, ind, i - 1, j, p2);
        lemma_line_offset_bound(df1, ind, i - 1);
        let t1 = line_split(spec_format(df1, ind));
        assert(line_offset(df1, i - 1) + 1 + j < t1.len());
        let t2 = line_split(spec_format(df2, ind));
        assert(l1 == seq![hdr] + b1 + t1);
        assert(seq![host_kw() + sp() + cfg2[0].hostname] =~= seq![hdr]);
        assert(Seq::new(
            cfg2[0].statements.len(),
            |m: int| ind + render_stmt(cfg2[0].statements[m]),
        ) =~= b1);
        assert(l2 == seq![hdr] + b1 + t2);
        lemma_line_offset_shift(cfg, i);
        let off = line_offset(cfg, i);
        let sub = line_offset(df1, i - 1);
        assert(off == 1 + k0 + sub);
        assert(t1.len() == t2.len());
        assert(l1.len() == l2.len());
        assert forall|m: int| 0 <= m < l1.len() && m != off + 1 + j implies #[trigger] l1[m]
            == l2[m] by {
            if 1 <= m < 1 + k0 {
                assert(l1[m] == b1[m - 1]);
                assert(l2[m] == b1[m - 1]);
            } else if m >= 1 + k0 {
                assert(l1[m] == t1[m - 1 - k0]);
                assert(l2[m] == t2[m - 1 - k0]);
                assert(m - 1 - k0 != sub + 1 + j);
            }
        }
        let idx = off + 1 + j;
        lemma_line_offset_nonneg(df1, i - 1);
        assert((seq![hdr] + b1).len() == 1 + k0);
        assert(l2.len() == 1 + k0 + t2.len());
        assert(1 + k0 <= idx < l2.len());
        assert(l2[idx] == ((seq![hdr] + b1) + t2)[idx]);
        assert(((seq![hdr] + b1) + t2)[idx] == t2[idx - (1 + k0)]);
        assert(idx - (1 + k0) == sub + 1 + j);
        assert(l2[off + 1 + j] == t2[sub + 1 + j]);
    }
}

} // verus!

