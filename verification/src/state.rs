//! The aggregated application state: the main config document, the
//! ordered show keys, the loaded shows, and the schema version.
//!
//! Filesystem work (reading the main config, finding and loading the
//! fragments) happens outside; this module owns the reconciliation:
//! merging the declared ordering with the discovered shows, resolving
//! the schema version, and producing the updated fragment text when a
//! show's pointer is saved.

use vstd::prelude::*;
use crate::text::{ascii, deep, bytes_eq, copy_bytes};
use crate::natural::{sorted_lex, sort_lex};
use crate::document::{ConfigDocument, ParseError, no_newline, spec_parse, spec_serialize,
    spec_get_str, spec_get_list, spec_set_str, bare_key};
use crate::show::Show;

verus! {

/// A recognized config schema version. Unrecognized or absent version
/// strings never fail parsing: they fall back to `Version::fallback()`.
#[derive(Clone, Copy, Debug, PartialEq, Eq, Structural)]
pub enum Version {
    V1_0_0,
}

impl Version {
    /// Parses a version string; `None` for anything unrecognized.
    pub fn from_str(version_str: &Vec<u8>) -> (r: Option<Version>)
        ensures
            r == if version_str@ == ascii("1.0.0") {
                Some(Version::V1_0_0)
            } else {
                None::<Version>
            },
    {
        let lit = Version::V1_0_0.as_bytes();
        if crate::text::bytes_eq(version_str.as_slice(), lit.as_slice()) {
            Some(Version::V1_0_0)
        } else {
            None
        }
    }

    /// The oldest recognized version: the default when a document names
    /// none, or one this build does not know.
    pub fn fallback() -> (r: Version)
        ensures
            r == Version::V1_0_0,
    {
        Version::V1_0_0
    }

    /// The canonical text of this version.
    pub fn as_bytes(&self) -> (r: Vec<u8>)
        ensures
            r@ == ascii("1.0.0"),
    {
        let mut v: Vec<u8> = Vec::new();
        v.push('1' as u8);
        v.push('.' as u8);
        v.push('0' as u8);
        v.push('.' as u8);
        v.push('0' as u8);
        proof {
            reveal_strlit("1.0.0");
            assert(v@ =~= ascii("1.0.0"));
        }
        v
    }
}

/// `s` with every repeated key dropped: the first occurrence wins.
pub open spec fn dedup(s: Seq<Seq<u8>>) -> Seq<Seq<u8>>
    decreases s.len(),
{
    if s.len() == 0 {
        Seq::empty()
    } else {
        let r = dedup(s.drop_last());
        if r.contains(s.last()) {
            r
        } else {
            r.push(s.last())
        }
    }
}

/// Deduplication keeps exactly the members, once each.
pub proof fn lemma_dedup(s: Seq<Seq<u8>>)
    ensures
        dedup(s).no_duplicates(),
        forall|x: Seq<u8>| #[trigger] dedup(s).contains(x) <==> s.contains(x),
    decreases s.len(),
{
    if s.len() > 0 {
        let t = s.drop_last();
        lemma_dedup(t);
        let r = dedup(t);
        assert forall|x: Seq<u8>| #[trigger] dedup(s).contains(x) <==> s.contains(x) by {
            assert(s.contains(x) <==> t.contains(x) || x == s.last()) by {
                if s.contains(x) {
                    let i = choose|i: int| #![auto] 0 <= i < s.len() && s[i] == x;
                    if i < s.len() - 1 {
                        assert(t[i] == x);
                    }
                }
                if t.contains(x) {
                    let i = choose|i: int| #![auto] 0 <= i < t.len() && t[i] == x;
                    assert(s[i] == x);
                }
                if x == s.last() {
                    assert(s[s.len() - 1] == x);
                }
            }
            if r.contains(s.last()) {
            } else {
                assert(dedup(s) == r.push(s.last()));
                assert(dedup(s).contains(x) <==> r.contains(x) || x == s.last()) by {
                    if dedup(s).contains(x) {
                        let i = choose|i: int| #![auto] 0 <= i < dedup(s).len() && dedup(s)[i] == x;
                        if i < r.len() {
                            assert(r[i] == x);
                        }
                    }
                    if r.contains(x) {
                        let i = choose|i: int| #![auto] 0 <= i < r.len() && r[i] == x;
                        assert(dedup(s)[i] == x);
                    }
                    assert(dedup(s)[r.len() as int] == s.last());
                }
            }
        }
        if !r.contains(s.last()) {
            assert forall|i: int, j: int|
                0 <= i < dedup(s).len() && 0 <= j < dedup(s).len() && i != j implies dedup(s)[i]
                != dedup(s)[j] by {
                if i < r.len() && j < r.len() {
                } else if i < r.len() {
                    assert(r.contains(r[i]));
                } else if j < r.len() {
                    assert(r.contains(r[j]));
                }
            }
        }
    }
}

/// True when one of the keys equals `x`.
fn contains_key(v: &Vec<Vec<u8>>, x: &Vec<u8>) -> (r: bool)
    ensures
        r == deep(v@).contains(x@),
{
    let n = v.len();
    let mut i: usize = 0;
    while i < n
        invariant
            i <= n == v@.len(),
            forall|j: int| 0 <= j < i ==> deep(v@)[j] != x@,
        decreases n - i,
    {
        if bytes_eq(v[i].as_slice(), x.as_slice()) {
            proof {
                assert(deep(v@)[i as int] == x@);
            }
            return true;
        }
        proof {
            assert(deep(v@)[i as int] == v@[i as int]@);
        }
        i += 1;
    }
    proof {
        if deep(v@).contains(x@) {
            let j = choose|j: int| #![auto] 0 <= j < deep(v@).len() && deep(v@)[j] == x@;
            assert(deep(v@)[j] != x@);
        }
    }
    false
}

/// The merge of a declared ordering with the discovered show keys:
/// the ordering verbatim (first occurrence of each key), then every
/// show key it does not mention, alphabetically.
pub open spec fn merged(ov: Seq<Seq<u8>>, sv: Seq<Seq<u8>>, rv: Seq<Seq<u8>>) -> bool {
    &&& rv.len() >= dedup(ov).len()
    &&& rv.subrange(0, dedup(ov).len() as int) == dedup(ov)
    &&& rv.no_duplicates()
    &&& sorted_lex(rv.skip(dedup(ov).len() as int))
    &&& forall|i: int|
        dedup(ov).len() <= i < rv.len() ==> sv.contains(#[trigger] rv[i]) && !ov.contains(rv[i])
    &&& forall|k: Seq<u8>| sv.contains(k) ==> #[trigger] rv.contains(k)
}

/// Merges the declared ordering with the discovered show keys.
/// Declared order wins; shows the ordering does not mention are
/// appended alphabetically, so new shows appear without hand-editing.
pub fn merge_ordered_keys(ordering: Vec<Vec<u8>>, show_keys: Vec<Vec<u8>>) -> (r: Vec<Vec<u8>>)
    requires
        deep(show_keys@).no_duplicates(),
    ensures
        merged(deep(ordering@), deep(show_keys@), deep(r@)),
{
    let ghost ov = deep(ordering@);
    let ghost sv = deep(show_keys@);
    proof {
        lemma_dedup(ov);
    }
    // the declared ordering, deduplicated
    let mut result: Vec<Vec<u8>> = Vec::new();
    proof {
        assert(deep(result@) =~= dedup(ov.take(0)));
    }
    let mut rest = ordering;
    let mut idx: usize = 0;
    while idx < rest.len()
        invariant
            idx <= rest@.len(),
            deep(rest@) == ov,
            deep(result@) == dedup(ov.take(idx as int)),
        decreases rest@.len() - idx,
    {
        let o = copy_bytes(&rest[idx]);
        proof {
            assert(o@ == ov[idx as int]);
            assert(ov.take(idx as int + 1).drop_last() =~= ov.take(idx as int));
            assert(ov.take(idx as int + 1).last() == ov[idx as int]);
        }
        let ghost rprev = result@;
        if !contains_key(&result, &o) {
            result.push(o);
            proof {
                assert(deep(result@) =~= deep(rprev).push(ov[idx as int]));
            }
        }
        idx += 1;
    }
    proof {
        assert(ov.take(ov.len() as int) =~= ov);
        assert(deep(result@) == dedup(ov));
    }
    let ghost rv1 = deep(result@);
    // the show keys the ordering does not mention
    let mut missing: Vec<Vec<u8>> = Vec::new();
    let mut j: usize = 0;
    let mut skeys = show_keys;
    while j < skeys.len()
        invariant
            j <= skeys@.len(),
            deep(skeys@) == sv,
            sv.no_duplicates(),
            rv1 == deep(result@),
            forall|x: Seq<u8>| #[trigger] deep(missing@).contains(x) <==> (sv.take(
                j as int,
            ).contains(x) && !rv1.contains(x)),
            deep(missing@).no_duplicates(),
        decreases skeys@.len() - j,
    {
        let k = copy_bytes(&skeys[j]);
        proof {
            assert(k@ == sv[j as int]);
        }
        let ghost mprev = deep(missing@);
        if !contains_key(&result, &k) {
            proof {
                assert(!mprev.contains(sv[j as int])) by {
                    let tk0 = sv.take(j as int);
                    if mprev.contains(sv[j as int]) {
                        assert(tk0.contains(sv[j as int]));
                        let t = choose|t: int| #![auto] 0 <= t < tk0.len() && tk0[t] == sv[
                            j as int
                        ];
                        assert(sv[t] == sv[j as int]);
                    }
                }
            }
            missing.push(k);
            proof {
                assert(deep(missing@) =~= mprev.push(sv[j as int]));
                assert forall|x: Seq<u8>| #[trigger] deep(missing@).contains(x) <==> (sv.take(
                    j as int + 1,
                ).contains(x) && !rv1.contains(x)) by {
                    assert(deep(missing@).contains(x) <==> mprev.contains(x) || x
                        == sv[j as int]) by {
                        if deep(missing@).contains(x) {
                            let t = choose|t: int| #![auto]
                                0 <= t < deep(missing@).len() && deep(missing@)[t] == x;
                            if t < mprev.len() {
                                assert(mprev[t] == x);
                            }
                        }
                        if mprev.contains(x) {
                            let t = choose|t: int| #![auto] 0 <= t < mprev.len() && mprev[t] == x;
                            assert(deep(missing@)[t] == x);
                        }
                        assert(deep(missing@)[mprev.len() as int] == sv[j as int]);
                    }
                    let tk1 = sv.take(j as int + 1);
                    let tk0 = sv.take(j as int);
                    assert(tk1.contains(x) <==> tk0.contains(x) || x == sv[j as int]) by {
                        if tk1.contains(x) {
                            let t = choose|t: int| #![auto] 0 <= t < tk1.len() && tk1[t] == x;
                            if t < j {
                                assert(tk0[t] == x);
                            }
                        }
                        if tk0.contains(x) {
                            let t = choose|t: int| #![auto] 0 <= t < tk0.len() && tk0[t] == x;
                            assert(tk1[t] == x);
                        }
                        assert(tk1[j as int] == sv[j as int]);
                    }
                }
                assert(deep(missing@).no_duplicates()) by {
                    assert forall|a: int, b: int|
                        0 <= a < deep(missing@).len() && 0 <= b < deep(missing@).len() && a
                            != b implies deep(missing@)[a] != deep(missing@)[b] by {
                        if a < mprev.len() && b < mprev.len() {
                        } else if a < mprev.len() {
                            assert(mprev.contains(mprev[a]));
                        } else if b < mprev.len() {
                            assert(mprev.contains(mprev[b]));
                        }
                    }
                }
            }
        } else {
            proof {
                assert forall|x: Seq<u8>| #[trigger] deep(missing@).contains(x) <==> (sv.take(
                    j as int + 1,
                ).contains(x) && !rv1.contains(x)) by {
                    let tk1 = sv.take(j as int + 1);
                    let tk0 = sv.take(j as int);
                    assert(tk1.contains(x) <==> tk0.contains(x) || x == sv[j as int]) by {
                        if tk1.contains(x) {
                            let t = choose|t: int| #![auto] 0 <= t < tk1.len() && tk1[t] == x;
                            if t < j {
                                assert(tk0[t] == x);
                            }
                        }
                        if tk0.contains(x) {
                            let t = choose|t: int| #![auto] 0 <= t < tk0.len() && tk0[t] == x;
                            assert(tk1[t] == x);
                        }
                        assert(tk1[j as int] == sv[j as int]);
                    }
                }
            }
        }
        j += 1;
    }
    proof {
        assert(sv.take(sv.len() as int) =~= sv);
    }
    let ghost mv = deep(missing@);
    // sort them alphabetically and append
    let sorted_missing = sort_lex(missing);
    let ghost smv = deep(sorted_missing@);
    proof {
        broadcast use vstd::multiset::group_multiset_axioms;

        mv.to_multiset_ensures();
        smv.to_multiset_ensures();
        assert forall|x: Seq<u8>| #[trigger] smv.contains(x) <==> mv.contains(x) by {
            assert(smv.contains(x) <==> smv.to_multiset().count(x) > 0);
            assert(mv.contains(x) <==> mv.to_multiset().count(x) > 0);
        }
        mv.lemma_multiset_has_no_duplicates();
        assert forall|x: Seq<u8>| smv.to_multiset().contains(x) implies smv.to_multiset().count(
            x,
        ) == 1 by {
            assert(mv.to_multiset().contains(x));
        }
        smv.lemma_multiset_has_no_duplicates_conv();
    }
    let mut out = result;
    let mut t: usize = 0;
    let mut tail = sorted_missing;
    while t < tail.len()
        invariant
            t <= tail@.len(),
            deep(tail@) == smv,
            deep(out@) == rv1 + smv.take(t as int),
        decreases tail@.len() - t,
    {
        let ghost oprev = deep(out@);
        let m = copy_bytes(&tail[t]);
        proof {
            assert(m@ == smv[t as int]);
        }
        out.push(m);
        proof {
            assert(deep(out@) =~= oprev.push(smv[t as int]));
            assert(oprev.push(smv[t as int]) =~= rv1 + smv.take(t as int + 1));
        }
        t += 1;
    }
    proof {
        assert(smv.take(smv.len() as int) =~= smv);
        let rv = deep(out@);
        assert(rv == rv1 + smv);
        assert(rv.subrange(0, rv1.len() as int) =~= rv1);
        assert(rv.skip(rv1.len() as int) =~= smv);
        assert forall|i: int| rv1.len() <= i < rv.len() implies sv.contains(#[trigger] rv[i])
            && !ov.contains(rv[i]) by {
            assert(rv[i] == smv[i - rv1.len()]);
            assert(smv.contains(smv[i - rv1.len()]));
            assert(mv.contains(rv[i]));
        }
        assert(rv.no_duplicates()) by {
            assert forall|a: int, b: int|
                0 <= a < rv.len() && 0 <= b < rv.len() && a != b implies rv[a] != rv[b] by {
                if a < rv1.len() && b < rv1.len() {
                } else if a >= rv1.len() && b >= rv1.len() {
                    assert(rv[a] == smv[a - rv1.len()] && rv[b] == smv[b - rv1.len()]);
                } else if a < rv1.len() {
                    assert(rv[b] == smv[b - rv1.len()]);
                    assert(mv.contains(rv[b]));
                    assert(rv1.contains(rv[a]));
                } else {
                    assert(rv[a] == smv[a - rv1.len()]);
                    assert(mv.contains(rv[a]));
                    assert(rv1.contains(rv[b]));
                }
            }
        }
        assert forall|k: Seq<u8>| sv.contains(k) implies #[trigger] rv.contains(k) by {
            if rv1.contains(k) {
                let idx0 = choose|idx0: int| #![auto] 0 <= idx0 < rv1.len() && rv1[idx0] == k;
                assert(rv[idx0] == k);
            } else {
                assert(mv.contains(k));
                assert(smv.contains(k));
                let idx0 = choose|idx0: int| #![auto] 0 <= idx0 < smv.len() && smv[idx0] == k;
                assert(rv[rv1.len() + idx0] == k);
            }
        }
    }
    out
}

fn key_version_vec() -> (r: Vec<u8>)
    ensures
        r@ == ascii("version"),
{
    let mut v: Vec<u8> = Vec::new();
    v.push('v' as u8);
    v.push('e' as u8);
    v.push('r' as u8);
    v.push('s' as u8);
    v.push('i' as u8);
    v.push('o' as u8);
    v.push('n' as u8);
    proof {
        reveal_strlit("version");
        assert(v@ =~= ascii("version"));
    }
    v
}

fn key_ordering_vec() -> (r: Vec<u8>)
    ensures
        r@ == ascii("ordering"),
{
    let mut v: Vec<u8> = Vec::new();
    v.push('o' as u8);
    v.push('r' as u8);
    v.push('d' as u8);
    v.push('e' as u8);
    v.push('r' as u8);
    v.push('i' as u8);
    v.push('n' as u8);
    v.push('g' as u8);
    proof {
        reveal_strlit("ordering");
        assert(v@ =~= ascii("ordering"));
    }
    v
}

/// The version string did not name a recognized version (or named
/// none), so the fallback stands — the recorded warning of `new`.
pub open spec fn spec_version_defaulted(ls: Seq<Seq<u8>>) -> bool {
    spec_get_str(ls, ascii("version")) != Some(ascii("1.0.0"))
}

/// The schema version of the main document, with the fallback policy:
/// an unrecognized or absent version never fails, it falls back to the
/// oldest recognized version, flagged in the second component.
pub fn resolve_version(doc: &ConfigDocument) -> (r: (Version, bool))
    ensures
        r.0 == Version::V1_0_0,
        r.1 == spec_version_defaulted(doc.lines_view()),
{
    let vkey = key_version_vec();
    match doc.get_str(&vkey) {
        Some(v) => match Version::from_str(&v) {
            Some(ver) => (ver, false),
            None => (Version::fallback(), true),
        },
        None => (Version::fallback(), true),
    }
}

/// The keys of a show table, in order.
pub open spec fn show_keys(s: Seq<(Vec<u8>, Show)>) -> Seq<Seq<u8>> {
    s.map_values(|p: (Vec<u8>, Show)| p.0@)
}

/// The show stored under `key` (first match).
pub open spec fn lookup_show(s: Seq<(Vec<u8>, Show)>, key: Seq<u8>) -> Option<Show>
    decreases s.len(),
{
    if s.len() == 0 {
        None
    } else if s[0].0@ == key {
        Some(s[0].1)
    } else {
        lookup_show(s.drop_first(), key)
    }
}

/// A scan that stops at the first match computes `lookup_show`.
pub proof fn lemma_lookup_show_is(s: Seq<(Vec<u8>, Show)>, key: Seq<u8>, n: int)
    requires
        0 <= n <= s.len(),
        forall|j: int| 0 <= j < n ==> (#[trigger] s[j]).0@ != key,
        n < s.len() ==> s[n].0@ == key,
    ensures
        n < s.len() ==> lookup_show(s, key) == Some(s[n].1),
        n == s.len() ==> lookup_show(s, key) is None,
    decreases n, s.len(),
{
    if s.len() > 0 && n > 0 {
        let t = s.drop_first();
        assert(forall|j: int| 0 <= j < n - 1 ==> #[trigger] t[j] == s[j + 1]);
        if n - 1 < t.len() {
            assert(t[n - 1] == s[n]);
        }
        lemma_lookup_show_is(t, key, n - 1);
    }
}

/// The declared display order of the main document: its `ordering`
/// array, or nothing.
pub open spec fn spec_ordering(ls: Seq<Seq<u8>>) -> Seq<Seq<u8>> {
    match spec_get_list(ls, ascii("ordering")) {
        Some(l) => l,
        None => Seq::empty(),
    }
}

/// The aggregated application state.
pub struct State {
    /// The schema version of the main document.
    pub config_version: Version,
    /// The key the renderer has selected; it may name a show that
    /// failed to load.
    pub selected_key: Vec<u8>,
    /// Every known show key, in display order, each exactly once.
    pub ordered_keys: Vec<Vec<u8>>,
    /// The main config document.
    pub config: ConfigDocument,
    /// Where the main config document lives.
    pub config_path: Vec<u8>,
    /// The loaded shows, keyed by show key.
    pub shows: Vec<(Vec<u8>, Show)>,
    /// A user-visible error message; cleared only by the user.
    pub error: Option<Vec<u8>>,
    /// Whether the about window is open.
    pub about_window_is_open: bool,
}

impl State {
    /// Invariants: the document is well-formed, keys are unique, every
    /// loaded show's key is listed, and every show is well-formed.
    pub open spec fn wf(&self) -> bool {
        &&& self.config.wf()
        &&& deep(self.ordered_keys@).no_duplicates()
        &&& show_keys(self.shows@).no_duplicates()
        &&& forall|k: Seq<u8>|
            #[trigger] show_keys(self.shows@).contains(k) ==> deep(
                self.ordered_keys@,
            ).contains(k)
        &&& forall|i: int| 0 <= i < self.shows@.len() ==> (#[trigger] self.shows@[i]).1.wf()
    }

    /// What construction from a config text, a path and loaded shows
    /// leaves behind: the parsed document, the merged key order, the
    /// first key selected, no error, and the about window closed.
    pub open spec fn built_from(
        self,
        text: Seq<u8>,
        path: Seq<u8>,
        shows: Seq<(Vec<u8>, Show)>,
    ) -> bool {
        &&& spec_parse(text) == Some(self.config.lines_view())
        &&& self.config_path@ == path
        &&& self.shows@ == shows
        &&& self.config_version == Version::V1_0_0
        &&& merged(
            spec_ordering(self.config.lines_view()),
            show_keys(shows),
            deep(self.ordered_keys@),
        )
        &&& self.selected_key@ == if deep(self.ordered_keys@).len() == 0 {
            Seq::<u8>::empty()
        } else {
            deep(self.ordered_keys@)[0]
        }
        &&& self.error is None
        &&& self.about_window_is_open == false
    }

    /// Builds the state from the main config text and the shows the
    /// loader produced. Fails only when the main document itself does
    /// not parse. The second component records whether the schema
    /// version fell back to the default.
    pub fn new(config_text: &Vec<u8>, config_path: Vec<u8>, shows: Vec<(Vec<u8>, Show)>) -> (r:
        Result<(State, bool), ParseError>)
        requires
            show_keys(shows@).no_duplicates(),
            forall|i: int| 0 <= i < shows@.len() ==> (#[trigger] shows@[i]).1.wf(),
        ensures
            match r {
                Ok(pair) => {
                    &&& pair.0.wf()
                    &&& pair.0.built_from(config_text@, config_path@, shows@)
                    &&& pair.1 == spec_version_defaulted(spec_parse(config_text@).unwrap())
                },
                Err(e) => spec_parse(config_text@) is None,
            },
    {
        let doc = match ConfigDocument::parse(config_text) {
            Ok(d) => d,
            Err(e) => {
                return Err(e);
            },
        };
        let (config_version, version_defaulted) = resolve_version(&doc);
        let okey = key_ordering_vec();
        let ordering = match doc.get_list(&okey) {
            Some(l) => l,
            None => {
                let empty: Vec<Vec<u8>> = Vec::new();
                proof {
                    assert(deep(empty@) =~= Seq::<Seq<u8>>::empty());
                }
                empty
            },
        };
        proof {
            assert(deep(ordering@) == spec_ordering(doc.lines_view()));
        }
        let mut keys: Vec<Vec<u8>> = Vec::new();
        let sn = shows.len();
        let mut i: usize = 0;
        proof {
            assert(deep(keys@) =~= show_keys(shows@).take(0));
        }
        while i < sn
            invariant
                i <= sn == shows@.len(),
                deep(keys@) == show_keys(shows@).take(i as int),
            decreases sn - i,
        {
            let ghost kprev = deep(keys@);
            let k = copy_bytes(&shows[i].0);
            keys.push(k);
            proof {
                assert(k@ == show_keys(shows@)[i as int]);
                assert(deep(keys@) =~= kprev.push(show_keys(shows@)[i as int]));
                assert(kprev.push(show_keys(shows@)[i as int]) =~= show_keys(shows@).take(
                    i as int + 1,
                ));
            }
            i += 1;
        }
        proof {
            assert(show_keys(shows@).take(sn as int) =~= show_keys(shows@));
        }
        let ordered_keys = merge_ordered_keys(ordering, keys);
        let selected_key = if ordered_keys.len() > 0 {
            let s = copy_bytes(&ordered_keys[0]);
            proof {
                assert(s@ == deep(ordered_keys@)[0]);
            }
            s
        } else {
            Vec::new()
        };
        let st = State {
            config_version,
            selected_key,
            ordered_keys,
            config: doc,
            config_path,
            shows,
            error: None,
            about_window_is_open: false,
        };
        Ok((st, version_defaulted))
    }

    /// The loaded show under `key`, if any.
    pub fn get_show(&self, key: &Vec<u8>) -> (r: Option<&Show>)
        ensures
            match r {
                Some(s) => lookup_show(self.shows@, key@) == Some(*s),
                None => lookup_show(self.shows@, key@) is None,
            },
    {
        let n = self.shows.len();
        let mut i: usize = 0;
        while i < n
            invariant
                i <= n == self.shows@.len(),
                forall|j: int| 0 <= j < i ==> (#[trigger] self.shows@[j]).0@ != key@,
            decreases n - i,
        {
            if bytes_eq(self.shows[i].0.as_slice(), key.as_slice()) {
                proof {
                    lemma_lookup_show_is(self.shows@, key@, i as int);
                }
                return Some(&self.shows[i].1);
            }
            i += 1;
        }
        proof {
            lemma_lookup_show_is(self.shows@, key@, n as int);
        }
        None
    }

    /// Rebuilds the state from fresh config text and freshly loaded
    /// shows, replacing every field at once; the path is kept. On
    /// failure nothing changes: a partial reload is never observable.
    pub fn reload_config(&mut self, config_text: &Vec<u8>, shows: Vec<(Vec<u8>, Show)>) -> (r:
        Result<bool, ParseError>)
        requires
            show_keys(shows@).no_duplicates(),
            forall|i: int| 0 <= i < shows@.len() ==> (#[trigger] shows@[i]).1.wf(),
        ensures
            match r {
                Ok(defaulted) => {
                    &&& final(self).wf()
                    &&& final(self).built_from(config_text@, old(self).config_path@, shows@)
                    &&& defaulted == spec_version_defaulted(spec_parse(config_text@).unwrap())
                },
                Err(e) => *final(self) == *old(self) && spec_parse(config_text@) is None,
            },
    {
        let path = copy_bytes(&self.config_path);
        match State::new(config_text, path, shows) {
            Ok(pair) => {
                let (st, defaulted) = pair;
                *self = st;
                Ok(defaulted)
            },
            Err(e) => Err(e),
        }
    }

    /// The updated fragment text for `key`: the fragment re-read fresh
    /// from disk (handed in as `fragment_text`), with only its `next`
    /// entry rewritten to the show's current pointer. `Ok(None)` when
    /// no show is loaded under `key`; a fragment that no longer parses
    /// is the only error.
    pub fn save_config(&self, key: &Vec<u8>, fragment_text: &Vec<u8>) -> (r: Result<
        Option<Vec<u8>>,
        ParseError,
    >)
        requires
            self.wf(),
        ensures
            match r {
                Ok(out) => match out {
                    Some(text) => {
                        &&& lookup_show(self.shows@, key@) matches Some(show)
                            && spec_parse(fragment_text@) matches Some(ls) && text@
                            == spec_serialize(spec_set_str(ls, ascii("next"), show.next@))
                    },
                    None => lookup_show(self.shows@, key@) is None,
                },
                Err(e) => lookup_show(self.shows@, key@) is Some && spec_parse(fragment_text@)
                    is None,
            },
    {
        let n = self.shows.len();
        let mut i: usize = 0;
        while i < n
            invariant
                i <= n == self.shows@.len(),
                self.wf(),
                forall|j: int| 0 <= j < i ==> (#[trigger] self.shows@[j]).0@ != key@,
            decreases n - i,
        {
            if bytes_eq(self.shows[i].0.as_slice(), key.as_slice()) {
                proof {
                    lemma_lookup_show_is(self.shows@, key@, i as int);
                }
                let mut doc = match ConfigDocument::parse(fragment_text) {
                    Ok(d) => d,
                    Err(e) => {
                        return Err(e);
                    },
                };
                let nkey = crate::loader::key_next_vec();
                proof {
                    assert(bare_key(ascii("next"))) by {
                        reveal_strlit("next");
                        let k = ascii("next");
                        assert(k.len() == 4);
                        assert(crate::document::is_key_byte(k[0]));
                        assert(crate::document::is_key_byte(k[1]));
                        assert(crate::document::is_key_byte(k[2]));
                        assert(crate::document::is_key_byte(k[3]));
                        assert forall|t: int| 0 <= t < k.len() implies crate::document::is_key_byte(
                            #[trigger] k[t],
                        ) by {
                            if t == 0 {
                            } else if t == 1 {
                            } else if t == 2 {
                            } else {
                                assert(t == 3);
                            }
                        }
                    }
                    assert(self.shows@[i as int].1.wf());
                    assert(no_newline(self.shows@[i as int].1.next@));
                }
                doc.set_str(&nkey, &self.shows[i].1.next);
                let out = doc.serialize();
                return Ok(Some(out));
            }
            i += 1;
        }
        proof {
            lemma_lookup_show_is(self.shows@, key@, n as int);
        }
        Ok(None)
    }
}

} // verus!
