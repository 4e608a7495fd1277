//! Loading one show from its config fragment.
//!
//! A fragment names the show (`name`), its directory (`directory`,
//! overridable per host by `directory_<hostname>`) and the next
//! episode (`next`). The filesystem work — canonicalizing the
//! directory and listing its files — happens outside; this module
//! holds the decisions: which key wins, which fallbacks apply, and
//! when loading fails.

use vstd::prelude::*;
use crate::text::{ascii, deep, concat, copy_bytes, subvec, bytes_eq, trim, trim_front, trim_back};
use crate::document::{ConfigDocument, no_newline, spec_get_str, classify, LineKind, ValueKind,
    unescape, nl};
use crate::natural::sorted_natural;
use crate::show::{Show, rel_to, rel_to_exec};

verus! {

/// The reserved file name of the main config file, which is not a
/// show fragment.
pub open spec fn main_config_name() -> Seq<u8> {
    ascii("pls.toml")
}

fn main_config_name_vec() -> (r: Vec<u8>)
    ensures
        r@ == main_config_name(),
{
    let mut v: Vec<u8> = Vec::new();
    v.push('p' as u8);
    v.push('l' as u8);
    v.push('s' as u8);
    v.push('.' as u8);
    v.push('t' as u8);
    v.push('o' as u8);
    v.push('m' as u8);
    v.push('l' as u8);
    proof {
        reveal_strlit("pls.toml");
        assert(v@ =~= ascii("pls.toml"));
    }
    v
}

fn key_name_vec() -> (r: Vec<u8>)
    ensures
        r@ == ascii("name"),
{
    let mut v: Vec<u8> = Vec::new();
    v.push('n' as u8);
    v.push('a' as u8);
    v.push('m' as u8);
    v.push('e' as u8);
    proof {
        reveal_strlit("name");
        assert(v@ =~= ascii("name"));
    }
    v
}

fn key_directory_vec() -> (r: Vec<u8>)
    ensures
        r@ == ascii("directory"),
{
    let mut v: Vec<u8> = Vec::new();
    v.push('d' as u8);
    v.push('i' as u8);
    v.push('r' as u8);
    v.push('e' as u8);
    v.push('c' as u8);
    v.push('t' as u8);
    v.push('o' as u8);
    v.push('r' as u8);
    v.push('y' as u8);
    proof {
        reveal_strlit("directory");
        assert(v@ =~= ascii("directory"));
    }
    v
}

pub(crate) fn key_next_vec() -> (r: Vec<u8>)
    ensures
        r@ == ascii("next"),
{
    let mut v: Vec<u8> = Vec::new();
    v.push('n' as u8);
    v.push('e' as u8);
    v.push('x' as u8);
    v.push('t' as u8);
    proof {
        reveal_strlit("next");
        assert(v@ =~= ascii("next"));
    }
    v
}

/// The host-specific directory key: `directory_<hostname>`.
pub open spec fn host_key(hostname: Seq<u8>) -> Seq<u8> {
    ascii("directory_") + hostname
}

fn host_key_vec(hostname: &Vec<u8>) -> (r: Vec<u8>)
    ensures
        r@ == host_key(hostname@),
{
    let mut v = key_directory_vec();
    v.push('_' as u8);
    proof {
        reveal_strlit("directory");
        reveal_strlit("directory_");
        assert(v@ =~= ascii("directory_"));
    }
    concat(&v, hostname)
}

/// Index just after the last `.` in `s`, minus one; `-1` when there
/// is no dot.
pub open spec fn last_dot(s: Seq<u8>) -> int
    decreases s.len(),
{
    if s.len() == 0 {
        -1
    } else if s.last() == ('.' as u8) {
        s.len() - 1
    } else {
        last_dot(s.drop_last())
    }
}

/// The file stem: everything before the last dot; the whole name when
/// there is no dot or it comes first (a hidden file).
pub open spec fn stem(s: Seq<u8>) -> Seq<u8> {
    let d = last_dot(s);
    if d <= 0 {
        s
    } else {
        s.subrange(0, d)
    }
}

proof fn lemma_last_dot_is(s: Seq<u8>, d: int)
    requires
        -1 <= d < s.len(),
        d >= 0 ==> s[d] == ('.' as u8),
        forall|j: int| d < j < s.len() ==> s[j] != ('.' as u8),
    ensures
        last_dot(s) == d,
    decreases s.len(),
{
    if s.len() > 0 && s.last() != ('.' as u8) {
        let t = s.drop_last();
        assert(forall|j: int| d < j < t.len() ==> t[j] == s[j]);
        if d >= 0 {
            assert(t[d] == s[d]);
        }
        lemma_last_dot_is(t, d);
    }
}

/// The show key a directory entry contributes: its file stem — or
/// nothing for the main config file, which is no show.
pub fn fragment_key(file_name: &Vec<u8>) -> (r: Option<Vec<u8>>)
    ensures
        file_name@ == main_config_name() ==> r is None,
        file_name@ != main_config_name() ==> (r matches Some(k) && k@ == stem(file_name@)),
{
    let main_name = main_config_name_vec();
    if bytes_eq(file_name.as_slice(), main_name.as_slice()) {
        return None;
    }
    let n = file_name.len();
    let mut d: usize = n;
    loop
        invariant
            0 <= d <= n == file_name@.len(),
            forall|j: int| d <= j < n ==> file_name@[j] != ('.' as u8),
        ensures
            d <= n,
            forall|j: int| d <= j < n ==> file_name@[j] != ('.' as u8),
            d > 0 ==> file_name@[d - 1] == ('.' as u8),
        decreases d,
    {
        if d == 0 {
            break ;
        }
        if file_name[d - 1] == '.' as u8 {
            break ;
        }
        d -= 1;
    }
    proof {
        lemma_last_dot_is(file_name@, d as int - 1);
    }
    if d <= 1 {
        Some(copy_bytes(file_name))
    } else {
        Some(subvec(file_name, 0, d - 1))
    }
}

/// The directory named by the fragment: the host-specific key
/// `directory_<hostname>` when it holds a string, else the generic
/// `directory` key. The host key always takes precedence.
pub open spec fn spec_resolve_directory(ls: Seq<Seq<u8>>, hostname: Seq<u8>) -> Option<Seq<u8>> {
    match spec_get_str(ls, host_key(hostname)) {
        Some(d) => Some(d),
        None => spec_get_str(ls, ascii("directory")),
    }
}

/// Host override precedence: when the fragment sets the host-specific
/// directory key, resolution returns that value, whatever the generic
/// `directory` key says.
pub proof fn lemma_host_override_precedence(ls: Seq<Seq<u8>>, hostname: Seq<u8>)
    requires
        spec_get_str(ls, host_key(hostname)) is Some,
    ensures
        spec_resolve_directory(ls, hostname) == spec_get_str(ls, host_key(hostname)),
{
}

/// Resolves the fragment's directory text (not yet canonicalized).
pub fn resolve_directory(doc: &ConfigDocument, hostname: &Vec<u8>) -> (r: Option<Vec<u8>>)
    ensures
        match r {
            Some(d) => spec_resolve_directory(doc.lines_view(), hostname@) == Some(d@),
            None => spec_resolve_directory(doc.lines_view(), hostname@) is None,
        },
{
    let hkey = host_key_vec(hostname);
    match doc.get_str(&hkey) {
        Some(d) => Some(d),
        None => {
            let dkey = key_directory_vec();
            doc.get_str(&dkey)
        },
    }
}

/// Why a show fragment could not become a `Show`.
#[derive(Clone, Copy, Debug, PartialEq, Eq, Structural)]
pub enum LoadError {
    /// Neither the host-specific nor the generic directory key gave an
    /// existing directory.
    MissingDirectory,
    /// The fragment names no `next` episode and the directory holds no
    /// files to fall back on.
    NoEpisodes,
}

/// What was missing in the fragment and silently defaulted — the
/// recorded warnings of a successful load.
#[derive(Clone, Copy, Debug, PartialEq, Eq, Structural)]
pub struct LoadNotes {
    /// The fragment had no `name`; the show key stands in.
    pub name_defaulted: bool,
    /// The fragment had no `next`; the first file of the directory
    /// stands in.
    pub next_defaulted: bool,
}

/// `s` with every `/` and `\` replaced by the host separator.
pub open spec fn normalize_seps(s: Seq<u8>, sep: u8) -> Seq<u8> {
    Seq::new(
        s.len(),
        |i: int|
            if s[i] == ('/' as u8) || s[i] == ('\\' as u8) {
                sep
            } else {
                s[i]
            },
    )
}

fn normalize_seps_exec(s: &Vec<u8>, sep: u8) -> (r: Vec<u8>)
    ensures
        r@ == normalize_seps(s@, sep),
{
    let n = s.len();
    let mut r: Vec<u8> = Vec::new();
    let mut i: usize = 0;
    while i < n
        invariant
            i <= n == s@.len(),
            r@ == normalize_seps(s@, sep).take(i as int),
        decreases n - i,
    {
        let b = s[i];
        if b == '/' as u8 || b == '\\' as u8 {
            r.push(sep);
        } else {
            r.push(b);
        }
        proof {
            assert(r@ =~= normalize_seps(s@, sep).take(i as int + 1));
        }
        i += 1;
    }
    proof {
        assert(normalize_seps(s@, sep).take(n as int) =~= normalize_seps(s@, sep));
    }
    r
}

/// Trimming the front keeps lines newline-free.
proof fn lemma_trim_front_no_newline(s: Seq<u8>)
    requires
        no_newline(s),
    ensures
        no_newline(trim_front(s)),
    decreases s.len(),
{
    if s.len() > 0 && crate::text::is_space(s[0]) {
        assert(no_newline(s.drop_first())) by {
            assert(forall|j: int|
                0 <= j < s.drop_first().len() ==> s.drop_first()[j] == s[j + 1]);
        }
        lemma_trim_front_no_newline(s.drop_first());
    }
}

/// Trimming the back keeps lines newline-free.
proof fn lemma_trim_back_no_newline(s: Seq<u8>)
    requires
        no_newline(s),
    ensures
        no_newline(trim_back(s)),
    decreases s.len(),
{
    if s.len() > 0 && crate::text::is_space(s.last()) {
        assert(no_newline(s.drop_last())) by {
            assert(forall|j: int| 0 <= j < s.drop_last().len() ==> s.drop_last()[j] == s[j]);
        }
        lemma_trim_back_no_newline(s.drop_last());
    }
}

/// Unescaping draws every byte from its input, so it keeps lines
/// newline-free.
proof fn lemma_unescape_no_newline(s: Seq<u8>)
    requires
        no_newline(s),
    ensures
        no_newline(unescape(s)),
    decreases s.len(),
{
    if s.len() > 0 {
        let u = unescape(s);
        if s[0] == ('\\' as u8) && s.len() >= 2 {
            assert(no_newline(s.skip(2))) by {
                assert(forall|j: int| 0 <= j < s.skip(2).len() ==> s.skip(2)[j] == s[j + 2]);
            }
            lemma_unescape_no_newline(s.skip(2));
            assert forall|j: int| 0 <= j < u.len() implies u[j] != nl() by {
                if j >= 1 {
                    assert(u[j] == unescape(s.skip(2))[j - 1]);
                }
            }
        } else {
            assert(no_newline(s.skip(1))) by {
                assert(forall|j: int| 0 <= j < s.skip(1).len() ==> s.skip(1)[j] == s[j + 1]);
            }
            lemma_unescape_no_newline(s.skip(1));
            assert forall|j: int| 0 <= j < u.len() implies u[j] != nl() by {
                if j >= 1 {
                    assert(u[j] == unescape(s.skip(1))[j - 1]);
                }
            }
        }
    }
}

/// A string value read from a newline-free line is newline-free.
pub proof fn lemma_str_value_no_newline(raw: Seq<u8>, s: Seq<u8>)
    requires
        no_newline(raw),
        classify(raw) matches Some(LineKind::Entry { key, value: ValueKind::Str(v) }) && v == s,
    ensures
        no_newline(s),
{
    let t0 = trim_front(raw);
    lemma_trim_front_no_newline(raw);
    lemma_trim_back_no_newline(t0);
    let t = trim(raw);
    assert(no_newline(t));
    let e = crate::text::find_byte(t, '=' as u8);
    let vpart = t.subrange(e + 1, t.len() as int);
    crate::text::lemma_find_byte(t, '=' as u8);
    assert(no_newline(vpart)) by {
        assert(forall|j: int| 0 <= j < vpart.len() ==> vpart[j] == t[e + 1 + j]);
    }
    lemma_trim_front_no_newline(vpart);
    lemma_trim_back_no_newline(trim_front(vpart));
    let vtext = trim(vpart);
    assert(no_newline(vtext));
    let q = crate::document::qstring_end(vtext, 1).unwrap();
    crate::document::lemma_qstring_end(vtext, 1);
    let content = vtext.subrange(1, q);
    assert(no_newline(content)) by {
        assert(forall|j: int| 0 <= j < content.len() ==> content[j] == vtext[1 + j]);
    }
    lemma_unescape_no_newline(content);
}

/// Every value `spec_get_str` reads from a well-formed document is
/// newline-free.
pub proof fn lemma_get_str_no_newline(doc: &ConfigDocument, key: Seq<u8>)
    requires
        doc.wf(),
        spec_get_str(doc.lines_view(), key) is Some,
    ensures
        no_newline(spec_get_str(doc.lines_view(), key).unwrap()),
{
    let ls = doc.lines_view();
    crate::document::lemma_top_end(ls);
    crate::document::lemma_entry_index(ls, key);
    let ei = crate::document::entry_index(ls, key);
    lemma_str_value_no_newline(ls[ei], spec_get_str(ls, key).unwrap());
}

/// Builds the `Show` for `key` from its parsed fragment and the facts
/// only the filesystem can supply: the canonicalized directory (`None`
/// when no directory key resolved to an existing directory) and the
/// natural-sorted episode listing of that directory (absolute paths,
/// used only as the `next` fallback).
///
/// Succeeds exactly when a directory is there and either the fragment
/// names a `next` episode or the listing is nonempty. A missing `name`
/// falls back to `key`, a missing `next` to the listing's first entry
/// made relative to the directory; both fallbacks are recorded in the
/// returned notes, never an error.
pub fn load_show(
    doc: &ConfigDocument,
    key: &Vec<u8>,
    canonical_dir: Option<Vec<u8>>,
    sorted_files: &Vec<Vec<u8>>,
    sep: u8,
) -> (r: Result<(Show, LoadNotes), LoadError>)
    requires
        doc.wf(),
        no_newline(key@),
        canonical_dir matches Some(d) ==> no_newline(d@),
        forall|i: int| 0 <= i < sorted_files@.len() ==> no_newline(#[trigger] deep(sorted_files@)[i]),
        sorted_natural(deep(sorted_files@)),
        sep == ('/' as u8) || sep == ('\\' as u8),
    ensures
        match r {
            Ok(pair) => {
                let ls = doc.lines_view();
                let show = pair.0;
                let notes = pair.1;
                &&& canonical_dir matches Some(d) && show.dir == d
                &&& show.wf()
                &&& show.sep == sep
                &&& match spec_get_str(ls, ascii("name")) {
                    Some(nm) => show.name@ == nm && !notes.name_defaulted,
                    None => show.name@ == key@ && notes.name_defaulted,
                }
                &&& match spec_get_str(ls, ascii("next")) {
                    Some(nx) => show.next@ == normalize_seps(nx, sep) && !notes.next_defaulted,
                    None => {
                        &&& notes.next_defaulted
                        &&& sorted_files@.len() > 0
                        &&& show.next@ == rel_to(show.dir@, sep, deep(sorted_files@)[0])
                    },
                }
            },
            Err(LoadError::MissingDirectory) => canonical_dir is None,
            Err(LoadError::NoEpisodes) => {
                &&& canonical_dir is Some
                &&& spec_get_str(doc.lines_view(), ascii("next")) is None
                &&& sorted_files@.len() == 0
            },
        },
{
    let dir = match canonical_dir {
        None => {
            return Err(LoadError::MissingDirectory);
        },
        Some(d) => d,
    };
    let name_key = key_name_vec();
    let (name, name_defaulted) = match doc.get_str(&name_key) {
        Some(nm) => {
            proof {
                lemma_get_str_no_newline(doc, ascii("name"));
            }
            (nm, false)
        },
        None => (copy_bytes(key), true),
    };
    let next_key = key_next_vec();
    let (next, next_defaulted) = match doc.get_str(&next_key) {
        Some(nx) => {
            proof {
                lemma_get_str_no_newline(doc, ascii("next"));
            }
            let normalized = normalize_seps_exec(&nx, sep);
            proof {
                assert(no_newline(normalized@)) by {
                    assert(forall|j: int|
                        0 <= j < normalized@.len() ==> normalized@[j] == sep || normalized@[j]
                            == nx@[j]);
                }
            }
            (normalized, false)
        },
        None => {
            if sorted_files.len() == 0 {
                return Err(LoadError::NoEpisodes);
            }
            let first = &sorted_files[0];
            proof {
                assert(deep(sorted_files@)[0] == sorted_files@[0]@);
            }
            let rel = rel_to_exec(&dir, sep, first);
            proof {
                let full = deep(sorted_files@)[0];
                let r = rel_to(dir@, sep, full);
                assert(no_newline(full));
                assert(no_newline(r)) by {
                    if r != full {
                        assert forall|k: int| 0 <= k < r.len() implies r[k] != nl() by {
                            assert(r[k] == full[k + (full.len() - r.len())]);
                        }
                    }
                }
            }
            (rel, true)
        },
    };
    let show = Show { name, dir, next, sep };
    Ok((show, LoadNotes { name_defaulted, next_defaulted }))
}

} // verus!
