//! Lookup and in-place mutation: find the first entry with a given name and
//! rewrite the values of its recognized directives, touching nothing else.

use crate::config::{
    entries_view, ConfigStatement, ConfigurationError, Entry, HostNotFoundError, ParsedConfig,
};
use crate::model::{has_host, indent_wf, is_first_match, update_entry_spec, update_stmt};
use crate::parser::str_eq;
use vstd::prelude::*;
use vstd::string::*;

verus! {

/// The views of optionally supplied replacement values.
pub open spec fn opt_view(o: Option<&str>) -> Option<Seq<char>> {
    match o {
        Some(s) => Some(s@),
        None => None,
    }
}

/// Finds the first entry whose hostname equals `host` and returns its index;
/// later duplicates are never chosen.
pub fn find_entry(config: &ParsedConfig, host: &str) -> (r: Result<usize, HostNotFoundError>)
    ensures
        match r {
            Ok(i) => is_first_match(entries_view(config@), host@, i as int),
            Err(e) => !has_host(entries_view(config@), host@) && e.requested_name@ == host@,
        },
{
    let n = config.len();
    let mut i: usize = 0;
    while i < n
        invariant
            i <= n,
            n == config@.len(),
            forall|j: int|
                0 <= j < i ==> (#[trigger] entries_view(config@)[j]).hostname != host@,
        decreases n - i,
    {
        if str_eq(config[i].hostname.as_str(), host) {
            return Ok(i);
        }
        i += 1;
    }
    Err(HostNotFoundError { requested_name: host.to_owned() })
}

/// Rewrites this entry's `HostName` and `Port` values where replacements are
/// supplied. No statement is added, removed, or reordered, and `Unknown`
/// statements and unsupplied replacements are left untouched.
pub fn update_entry(entry: &mut Entry, new_hostname: Option<&str>, new_port: Option<&str>)
    ensures
        final(entry)@ == update_entry_spec(
            old(entry)@,
            opt_view(new_hostname),
            opt_view(new_port),
        ),
{
    let n = entry.statements.len();
    let mut updated: Vec<ConfigStatement> = Vec::new();
    let mut k: usize = 0;
    while k < n
        invariant
            k <= n,
            *entry == *old(entry),
            n == entry.statements@.len(),
            updated@.len() == k,
            forall|j: int|
                0 <= j < k ==> (#[trigger] updated@[j])@ == update_stmt(
                    old(entry)@.statements[j],
                    opt_view(new_hostname),
                    opt_view(new_port),
                ),
        decreases n - k,
    {
        let next = match &entry.statements[k] {
            ConfigStatement::HostName(v) => match new_hostname {
                Some(h) => ConfigStatement::HostName(h.to_owned()),
                None => ConfigStatement::HostName(v.clone()),
            },
            ConfigStatement::Port(v) => match new_port {
                Some(p) => ConfigStatement::Port(p.to_owned()),
                None => ConfigStatement::Port(v.clone()),
            },
            ConfigStatement::Unknown(v) => ConfigStatement::Unknown(v.clone()),
        };
        updated.push(next);
        k += 1;
    }
    entry.statements = updated;
    proof {
        assert(final(entry)@.statements =~= update_entry_spec(
            old(entry)@,
            opt_view(new_hostname),
            opt_view(new_port),
        ).statements);
    }
}

/// Locates `host` and rewrites its recognized directives in place. Every
/// other entry, every `Unknown` statement, and every directive without a
/// supplied replacement is untouched; statement order is kept.
pub fn update_host(
    config: &mut ParsedConfig,
    host: &str,
    new_hostname: Option<&str>,
    new_port: Option<&str>,
) -> (r: Result<(), HostNotFoundError>)
    ensures
        match r {
            Ok(_) => exists|i: int|
                {
                    &&& #[trigger] is_first_match(entries_view(old(config)@), host@, i)
                    &&& entries_view(final(config)@) == entries_view(old(config)@).update(
                        i,
                        update_entry_spec(
                            entries_view(old(config)@)[i],
                            opt_view(new_hostname),
                            opt_view(new_port),
                        ),
                    )
                },
            Err(e) => {
                &&& final(config)@ == old(config)@
                &&& !has_host(entries_view(old(config)@), host@)
                &&& e.requested_name@ == host@
            },
        },
{
    match find_entry(&*config, host) {
        Ok(i) => {
            let mut e = config.remove(i);
            update_entry(&mut e, new_hostname, new_port);
            config.insert(i, e);
            proof {
                let ov = entries_view(old(config)@);
                let target = update_entry_spec(
                    ov[i as int],
                    opt_view(new_hostname),
                    opt_view(new_port),
                );
                assert(entries_view(final(config)@) =~= ov.update(i as int, target));
                assert(is_first_match(ov, host@, i as int));
            }
            Ok(())
        },
        Err(e) => Err(e),
    }
}

/// Builds the indent for a given width in spaces; a zero width is a
/// configuration error, reported before any parsing.
pub fn indent_string(width: usize) -> (r: Result<String, ConfigurationError>)
    ensures
        width > 0 ==> r is Ok && (r->Ok_0)@ == Seq::new(width as nat, |i: int| ' ')
            && indent_wf((r->Ok_0)@),
        width == 0 ==> r is Err,
{
    if width == 0 {
        Err(ConfigurationError)
    } else {
        let mut s = String::new();
        let mut i: usize = 0;
        while i < width
            invariant
                i <= width,
                s@ == Seq::new(i as nat, |j: int| ' '),
            decreases width - i,
        {
            s.append(" ");
            proof {
                reveal_strlit(" ");
                assert(s@ =~= Seq::new((i + 1) as nat, |j: int| ' '));
            }
            i += 1;
        }
        Ok(s)
    }
}

} // verus!
