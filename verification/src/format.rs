//! The formatter: entries back to text, one line per header and per
//! statement, with a caller-supplied indent on every body line.

use crate::config::{entries_view, stmts_view, ConfigStatement, Entry, ParsedConfig};
use crate::model::{
    format_entry, format_stmts, lemma_keyword_literals, render_stmt, spec_format, SpecEntry,
    SpecStatement,
};
use vstd::prelude::*;
use vstd::string::*;

verus! {

/// Renders one statement back to its line text, without indent or newline.
pub fn format_line(statement: &ConfigStatement) -> (r: String)
    ensures
        r@ == render_stmt(statement@),
{
    proof {
        lemma_keyword_literals();
    }
    match statement {
        ConfigStatement::HostName(v) => {
            let mut s = "HostName ".to_owned();
            s.append(v.as_str());
            s
        },
        ConfigStatement::Port(v) => {
            let mut s = "Port ".to_owned();
            s.append(v.as_str());
            s
        },
        ConfigStatement::Unknown(line) => line.clone(),
    }
}

/// The body of one entry from statement `i` on: each statement rendered
/// behind `indent` and closed with a newline.
fn format_body(statements: &Vec<ConfigStatement>, indent: &str, i: usize) -> (r: String)
    requires
        i <= statements@.len(),
    ensures
        r@ == format_stmts(stmts_view(statements@).skip(i as int), indent@),
    decreases statements@.len() - i,
{
    proof {
        lemma_keyword_literals();
    }
    if i < statements.len() {
        let mut s = indent.to_owned();
        let line = format_line(&statements[i]);
        s.append(line.as_str());
        s.append("\n");
        let rest = format_body(statements, indent, i + 1);
        let out = s.concat(rest.as_str());
        proof {
            let ss = stmts_view(statements@);
            assert(ss.skip(i as int).drop_first() =~= ss.skip(i + 1));
            assert(ss.skip(i as int)[0] == ss[i as int]);
            assert(out@ =~= format_stmts(ss.skip(i as int), indent@));
        }
        out
    } else {
        proof {
            assert(stmts_view(statements@).skip(i as int) =~= Seq::<SpecStatement>::empty());
        }
        String::new()
    }
}

/// The text of the entries from index `i` on.
fn format_entries(config: &Vec<Entry>, indent: &str, i: usize) -> (r: String)
    requires
        i <= config@.len(),
    ensures
        r@ == spec_format(entries_view(config@).skip(i as int), indent@),
    decreases config@.len() - i,
{
    proof {
        lemma_keyword_literals();
    }
    if i < config.len() {
        let e = &config[i];
        let mut s = "Host ".to_owned();
        s.append(e.hostname.as_str());
        s.append("\n");
        let body = format_body(&e.statements, indent, 0);
        s.append(body.as_str());
        let rest = format_entries(config, indent, i + 1);
        let out = s.concat(rest.as_str());
        proof {
            let ev = entries_view(config@);
            assert(ev.skip(i as int).drop_first() =~= ev.skip(i + 1));
            assert(ev.skip(i as int)[0] == ev[i as int]);
            assert(stmts_view(e.statements@).skip(0) =~= e@.statements);
            assert(body@ == format_stmts(e@.statements, indent@));
            assert(out@ =~= spec_format(ev.skip(i as int), indent@));
        }
        out
    } else {
        proof {
            assert(entries_view(config@).skip(i as int) =~= Seq::<SpecEntry>::empty());
        }
        String::new()
    }
}

/// Serializes a configuration back to text: for each entry in order a
/// `Host <name>` line, then each of its statements on its own line behind
/// `indent`.
pub fn format_config(config: &ParsedConfig, indent: &str) -> (r: String)
    ensures
        r@ == spec_format(entries_view(config@), indent@),
{
    let r = format_entries(config, indent, 0);
    proof {
        assert(entries_view(config@).skip(0) =~= entries_view(config@));
    }
    r
}

} // verus!
