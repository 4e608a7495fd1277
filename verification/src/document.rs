//! A format-preserving config document.
//!
//! A document is a sequence of raw text lines. Lines are interpreted as
//! entries (`key = value`), table headers (`[name]`), or blank/comment
//! lines, but the raw text of every line is kept as it was read: a
//! document serializes back to the exact text it was parsed from, and a
//! targeted mutation rewrites only the one line it touches. Comments,
//! ordering and spacing of everything else survive a round trip.
//!
//! Recognized values are basic quoted strings (with `\\` and `\"`
//! escapes) and arrays of such strings; any other value text is kept
//! verbatim and left uninterpreted.

use vstd::prelude::*;
use crate::text::{is_space, trim, trim_front, trim_back, find_byte, lemma_find_byte,
    lemma_find_byte_is, deep};

verus! {

/// The newline byte.
pub open spec fn nl() -> u8 {
    '\n' as u8
}

/// The lines of `t`, split at each newline. Splitting any text
/// succeeds; even empty text has one (empty) line.
pub open spec fn split_lines(t: Seq<u8>) -> Seq<Seq<u8>>
    decreases t.len(),
    via split_lines_decreases
{
    let k = find_byte(t, nl());
    if k == t.len() {
        seq![t]
    } else {
        seq![t.subrange(0, k)] + split_lines(t.subrange(k + 1, t.len() as int))
    }
}

#[via_fn]
proof fn split_lines_decreases(t: Seq<u8>) {
    lemma_find_byte(t, nl());
}

/// Lines joined back with newlines.
pub open spec fn join_lines(ls: Seq<Seq<u8>>) -> Seq<u8>
    decreases ls.len(),
{
    if ls.len() == 0 {
        Seq::empty()
    } else if ls.len() == 1 {
        ls[0]
    } else {
        ls[0] + seq![nl()] + join_lines(ls.drop_first())
    }
}

/// `s` contains no newline.
pub open spec fn no_newline(s: Seq<u8>) -> bool {
    forall|j: int| 0 <= j < s.len() ==> s[j] != nl()
}

/// No line of `ls` contains a newline.
pub open spec fn lines_unbroken(ls: Seq<Seq<u8>>) -> bool {
    forall|i: int| 0 <= i < ls.len() ==> no_newline(#[trigger] ls[i])
}

/// Splitting yields at least one line, none of which holds a newline.
pub proof fn lemma_split_lines_shape(t: Seq<u8>)
    ensures
        split_lines(t).len() >= 1,
        lines_unbroken(split_lines(t)),
    decreases t.len(),
{
    lemma_find_byte(t, nl());
    let k = find_byte(t, nl());
    if k == t.len() {
        assert(no_newline(split_lines(t)[0]));
    } else {
        let rest = t.subrange(k + 1, t.len() as int);
        lemma_split_lines_shape(rest);
        let head = t.subrange(0, k);
        assert(no_newline(head));
        assert forall|i: int| 0 <= i < split_lines(t).len() implies no_newline(
            #[trigger] split_lines(t)[i],
        ) by {
            if i == 0 {
                assert(split_lines(t)[0] == head);
            } else {
                assert(split_lines(t)[i] == split_lines(rest)[i - 1]);
            }
        }
    }
}

/// Splitting then joining restores the text.
pub proof fn lemma_join_split(t: Seq<u8>)
    ensures
        join_lines(split_lines(t)) == t,
    decreases t.len(),
{
    lemma_find_byte(t, nl());
    let k = find_byte(t, nl());
    if k < t.len() {
        let head = t.subrange(0, k);
        let rest = t.subrange(k + 1, t.len() as int);
        lemma_join_split(rest);
        lemma_split_lines_shape(rest);
        let ls = seq![head] + split_lines(rest);
        assert(ls.len() >= 2);
        assert(ls[0] == head);
        assert(ls.drop_first() =~= split_lines(rest));
        assert(join_lines(ls) == head + seq![nl()] + rest);
        assert(head + seq![nl()] + rest =~= t);
    }
}

/// Joining then splitting restores the lines.
pub proof fn lemma_split_join(ls: Seq<Seq<u8>>)
    requires
        ls.len() >= 1,
        lines_unbroken(ls),
    ensures
        split_lines(join_lines(ls)) == ls,
    decreases ls.len(),
{
    let t = join_lines(ls);
    if ls.len() == 1 {
        assert(t == ls[0]);
        assert(no_newline(ls[0]));
        lemma_find_byte_is(t, nl(), t.len() as int);
        assert(split_lines(t) =~= ls);
    } else {
        let head = ls[0];
        let rest = ls.drop_first();
        assert(t == head + seq![nl()] + join_lines(rest));
        let h = head.len() as int;
        assert forall|j: int| 0 <= j < h implies t[j] != nl() by {
            assert(t[j] == head[j]);
            assert(no_newline(head));
        }
        assert(t[h] == nl());
        lemma_find_byte_is(t, nl(), h);
        assert(t.subrange(0, h) =~= head);
        assert(t.subrange(h + 1, t.len() as int) =~= join_lines(rest));
        assert forall|i: int| 0 <= i < rest.len() implies no_newline(#[trigger] rest[i]) by {
            assert(rest[i] == ls[i + 1]);
        }
        lemma_split_join(rest);
        assert(split_lines(t) == seq![head] + rest);
        assert(seq![head] + rest =~= ls);
    }
}

/// Interpreted content of one line.
pub enum LineKind {
    /// An empty line, or a comment.
    Blank,
    /// A `key = value` entry.
    Entry { key: Seq<u8>, value: ValueKind },
    /// A `[name]` table header.
    Header { name: Seq<u8> },
}

/// Interpreted content of one entry's value.
pub enum ValueKind {
    /// A basic quoted string, unescaped.
    Str(Seq<u8>),
    /// An array of basic quoted strings, unescaped.
    List(Seq<Seq<u8>>),
    /// Any other scalar text: kept verbatim, not interpreted.
    Opaque,
}

/// A byte allowed in a bare key: letters, digits, `_`, `-` or `.`.
pub open spec fn is_key_byte(b: u8) -> bool {
    ('a' as u8) <= b <= ('z' as u8) || ('A' as u8) <= b <= ('Z' as u8) || ('0' as u8) <= b <= (
    '9' as u8) || b == ('_' as u8) || b == ('-' as u8) || b == ('.' as u8)
}

/// A bare key: nonempty, made of key bytes only.
pub open spec fn bare_key(s: Seq<u8>) -> bool {
    s.len() > 0 && forall|i: int| 0 <= i < s.len() ==> is_key_byte(#[trigger] s[i])
}

/// Position of the closing quote of a basic string whose content starts
/// at `i`, honoring `\\` and `\"` escapes; `None` if the string never
/// closes or uses an unknown escape.
pub open spec fn qstring_end(v: Seq<u8>, i: int) -> Option<int>
    decreases v.len() - i,
{
    if i < 0 || i >= v.len() {
        None
    } else if v[i] == ('"' as u8) {
        Some(i)
    } else if v[i] == ('\\' as u8) {
        if i + 1 < v.len() && (v[i + 1] == ('\\' as u8) || v[i + 1] == ('"' as u8)) {
            qstring_end(v, i + 2)
        } else {
            None
        }
    } else {
        qstring_end(v, i + 1)
    }
}

/// Bounds of a found closing quote.
pub proof fn lemma_qstring_end(v: Seq<u8>, i: int)
    requires
        0 <= i,
        qstring_end(v, i) is Some,
    ensures
        i <= qstring_end(v, i).unwrap() < v.len(),
        v[qstring_end(v, i).unwrap()] == ('"' as u8),
    decreases v.len() - i,
{
    if i < v.len() && v[i] != ('"' as u8) {
        if v[i] == ('\\' as u8) {
            lemma_qstring_end(v, i + 2);
        } else {
            lemma_qstring_end(v, i + 1);
        }
    }
}

/// Removes one level of `\\` escaping.
pub open spec fn unescape(s: Seq<u8>) -> Seq<u8>
    decreases s.len(),
{
    if s.len() == 0 {
        Seq::empty()
    } else if s[0] == ('\\' as u8) && s.len() >= 2 {
        seq![s[1]] + unescape(s.skip(2))
    } else {
        seq![s[0]] + unescape(s.skip(1))
    }
}

/// Escapes `\\` and `\"` so the result can stand between quotes.
pub open spec fn escape(s: Seq<u8>) -> Seq<u8>
    decreases s.len(),
{
    if s.len() == 0 {
        Seq::empty()
    } else if s[0] == ('\\' as u8) || s[0] == ('"' as u8) {
        seq![('\\' as u8), s[0]] + escape(s.skip(1))
    } else {
        seq![s[0]] + escape(s.skip(1))
    }
}

/// Escaping is undone exactly by unescaping.
pub proof fn lemma_unescape_escape(s: Seq<u8>)
    ensures
        unescape(escape(s)) == s,
    decreases s.len(),
{
    if s.len() > 0 {
        lemma_unescape_escape(s.skip(1));
        let e = escape(s);
        if s[0] == ('\\' as u8) || s[0] == ('"' as u8) {
            assert(e == seq![('\\' as u8), s[0]] + escape(s.skip(1)));
            assert(e[0] == ('\\' as u8) && e.len() >= 2);
            assert(e.skip(2) =~= escape(s.skip(1)));
            assert(unescape(e) == seq![e[1]] + unescape(e.skip(2)));
            assert(seq![s[0]] + s.skip(1) =~= s);
        } else {
            assert(e == seq![s[0]] + escape(s.skip(1)));
            assert(e[0] == s[0]);
            if e[0] == ('\\' as u8) && e.len() >= 2 {
                assert(false);
            }
            assert(e.skip(1) =~= escape(s.skip(1)));
            assert(unescape(e) == seq![s[0]] + unescape(e.skip(1)));
            assert(seq![s[0]] + s.skip(1) =~= s);
        }
    }
}

/// First non-space position at or after `i`, or the length.
pub open spec fn skip_spaces(v: Seq<u8>, i: int) -> int
    decreases v.len() - i,
{
    if i < 0 || i >= v.len() {
        v.len() as int
    } else if is_space(v[i]) {
        skip_spaces(v, i + 1)
    } else {
        i
    }
}

/// Bounds and meaning of `skip_spaces`.
pub proof fn lemma_skip_spaces(v: Seq<u8>, i: int)
    requires
        0 <= i <= v.len(),
    ensures
        i <= skip_spaces(v, i) <= v.len(),
        skip_spaces(v, i) < v.len() ==> !is_space(v[skip_spaces(v, i)]),
        forall|j: int| i <= j < skip_spaces(v, i) ==> is_space(#[trigger] v[j]),
    decreases v.len() - i,
{
    if i < v.len() && is_space(v[i]) {
        lemma_skip_spaces(v, i + 1);
    }
}

/// After position `i` the line holds only spaces or a comment.
pub open spec fn rest_ok(v: Seq<u8>, i: int) -> bool {
    let r = skip_spaces(v, i);
    r == v.len() || v[r] == ('#' as u8)
}

/// The string items of an array body starting at `i` (just inside the
/// `[`), and the position right after the closing `]`.
pub open spec fn list_items(v: Seq<u8>, i: int) -> Option<(Seq<Seq<u8>>, int)>
    decreases v.len() - i,
    via list_items_decreases
{
    let j = skip_spaces(v, i);
    if j >= v.len() {
        None
    } else if v[j] == (']' as u8) {
        Some((Seq::empty(), j + 1))
    } else if v[j] == ('"' as u8) {
        match qstring_end(v, j + 1) {
            Some(q) => {
                let item = unescape(v.subrange(j + 1, q));
                let k = skip_spaces(v, q + 1);
                if k >= v.len() {
                    None
                } else if v[k] == (']' as u8) {
                    Some((seq![item], k + 1))
                } else if v[k] == (',' as u8) {
                    match list_items(v, k + 1) {
                        Some(pair) => Some((seq![item] + pair.0, pair.1)),
                        None => None,
                    }
                } else {
                    None
                }
            },
            None => None,
        }
    } else {
        None
    }
}

#[via_fn]
proof fn list_items_decreases(v: Seq<u8>, i: int) {
    if 0 <= i && i <= v.len() {
        lemma_skip_spaces(v, i);
        let j = skip_spaces(v, i);
        if j < v.len() && v[j] == ('"' as u8) && qstring_end(v, j + 1) is Some {
            lemma_qstring_end(v, j + 1);
            lemma_skip_spaces(v, qstring_end(v, j + 1).unwrap() + 1);
        }
    }
}

/// Where the closing `]` of a parsed array body lies.
pub proof fn lemma_list_items_end(v: Seq<u8>, i: int)
    requires
        0 <= i <= v.len(),
        list_items(v, i) is Some,
    ensures
        i < list_items(v, i).unwrap().1 <= v.len(),
    decreases v.len() - i,
{
    lemma_skip_spaces(v, i);
    let j = skip_spaces(v, i);
    if j < v.len() && v[j] == ('"' as u8) && qstring_end(v, j + 1) is Some {
        lemma_qstring_end(v, j + 1);
        let q = qstring_end(v, j + 1).unwrap();
        lemma_skip_spaces(v, q + 1);
        let k = skip_spaces(v, q + 1);
        if k < v.len() && v[k] == (',' as u8) {
            lemma_list_items_end(v, k + 1);
        }
    }
}

/// Interprets an entry's value text.
pub open spec fn value_kind(v: Seq<u8>) -> Option<ValueKind> {
    if v.len() == 0 {
        None
    } else if v[0] == ('"' as u8) {
        match qstring_end(v, 1) {
            Some(q) => if rest_ok(v, q + 1) {
                Some(ValueKind::Str(unescape(v.subrange(1, q))))
            } else {
                None
            },
            None => None,
        }
    } else if v[0] == ('[' as u8) {
        match list_items(v, 1) {
            Some(pair) => if rest_ok(v, pair.1) {
                Some(ValueKind::List(pair.0))
            } else {
                None
            },
            None => None,
        }
    } else {
        Some(ValueKind::Opaque)
    }
}

/// Interprets one raw line. `None` means the line is malformed and the
/// document as a whole fails to parse.
pub open spec fn classify(raw: Seq<u8>) -> Option<LineKind> {
    let t = trim(raw);
    if t.len() == 0 {
        Some(LineKind::Blank)
    } else if t[0] == ('#' as u8) {
        Some(LineKind::Blank)
    } else if t[0] == ('[' as u8) {
        if t.len() >= 2 && t.last() == (']' as u8) && bare_key(trim(t.subrange(1, t.len() - 1))) {
            Some(LineKind::Header { name: trim(t.subrange(1, t.len() - 1)) })
        } else {
            None
        }
    } else {
        let e = find_byte(t, '=' as u8);
        if e == t.len() {
            None
        } else {
            let key = trim(t.subrange(0, e));
            if !bare_key(key) {
                None
            } else {
                match value_kind(trim(t.subrange(e + 1, t.len() as int))) {
                    Some(v) => Some(LineKind::Entry { key, value: v }),
                    None => None,
                }
            }
        }
    }
}

/// A line the parser accepts.
pub open spec fn line_ok(raw: Seq<u8>) -> bool {
    classify(raw) is Some
}

/// A parsed entry value.
pub enum Value {
    /// A basic quoted string, unescaped.
    Str(Vec<u8>),
    /// An array of basic quoted strings, unescaped.
    List(Vec<Vec<u8>>),
    /// Any other scalar text, uninterpreted.
    Opaque,
}

impl Value {
    /// The ghost content of this value.
    pub open spec fn view_kind(&self) -> ValueKind {
        match self {
            Value::Str(s) => ValueKind::Str(s@),
            Value::List(l) => ValueKind::List(deep(l@)),
            Value::Opaque => ValueKind::Opaque,
        }
    }
}

/// The outcome of interpreting one line.
pub enum ParsedLine {
    /// The line is malformed.
    Bad,
    /// An empty or comment line.
    Blank,
    /// A `key = value` entry.
    Entry(Vec<u8>, Value),
    /// A `[name]` table header.
    Header(Vec<u8>),
}

impl ParsedLine {
    /// The ghost content of this outcome.
    pub open spec fn view_kind(&self) -> Option<LineKind> {
        match self {
            ParsedLine::Bad => None,
            ParsedLine::Blank => Some(LineKind::Blank),
            ParsedLine::Entry(k, v) => Some(
                LineKind::Entry { key: k@, value: v.view_kind() },
            ),
            ParsedLine::Header(n) => Some(LineKind::Header { name: n@ }),
        }
    }
}

fn skip_spaces_exec(v: &Vec<u8>, i: usize) -> (r: usize)
    requires
        i <= v@.len(),
    ensures
        r as int == skip_spaces(v@, i as int),
        i <= r <= v@.len(),
    decreases v@.len() - i,
{
    if i >= v.len() {
        return i;
    }
    let b = v[i];
    if b == ' ' as u8 || b == '\t' as u8 || b == '\r' as u8 {
        skip_spaces_exec(v, i + 1)
    } else {
        i
    }
}

fn rest_ok_exec(v: &Vec<u8>, i: usize) -> (r: bool)
    requires
        i <= v@.len(),
    ensures
        r == rest_ok(v@, i as int),
{
    let j = skip_spaces_exec(v, i);
    if j >= v.len() {
        true
    } else {
        v[j] == '#' as u8
    }
}

fn qstring_end_exec(v: &Vec<u8>, i: usize) -> (r: Option<usize>)
    requires
        i <= v@.len(),
    ensures
        match r {
            Some(q) => qstring_end(v@, i as int) == Some(q as int) && i <= q < v@.len(),
            None => qstring_end(v@, i as int) is None,
        },
    decreases v@.len() - i,
{
    if i >= v.len() {
        return None;
    }
    let b = v[i];
    if b == '"' as u8 {
        Some(i)
    } else if b == '\\' as u8 {
        if i + 1 < v.len() && (v[i + 1] == '\\' as u8 || v[i + 1] == '"' as u8) {
            qstring_end_exec(v, i + 2)
        } else {
            None
        }
    } else {
        qstring_end_exec(v, i + 1)
    }
}

/// Unescapes `v[lo..hi]`.
fn unescape_range(v: &Vec<u8>, lo: usize, hi: usize) -> (r: Vec<u8>)
    requires
        lo <= hi <= v@.len(),
    ensures
        r@ == unescape(v@.subrange(lo as int, hi as int)),
{
    let mut out: Vec<u8> = Vec::new();
    let mut i: usize = lo;
    while i < hi
        invariant
            lo <= i <= hi <= v@.len(),
            unescape(v@.subrange(lo as int, hi as int)) == out@ + unescape(
                v@.subrange(i as int, hi as int),
            ),
        decreases hi - i,
    {
        let ghost w = v@.subrange(i as int, hi as int);
        let ghost prev = out@;
        if v[i] == '\\' as u8 && i + 1 < hi {
            out.push(v[i + 1]);
            proof {
                assert(w[0] == ('\\' as u8) && w.len() >= 2);
                assert(w[1] == v@[i + 1]);
                assert(w.skip(2) =~= v@.subrange(i as int + 2, hi as int));
                assert(prev + (seq![w[1]] + unescape(w.skip(2))) =~= out@ + unescape(
                    w.skip(2),
                ));
            }
            i += 2;
        } else {
            out.push(v[i]);
            proof {
                assert(w[0] == v@[i as int]);
                if w[0] == ('\\' as u8) && w.len() >= 2 {
                    assert(false);
                }
                assert(w.skip(1) =~= v@.subrange(i as int + 1, hi as int));
                assert(prev + (seq![w[0]] + unescape(w.skip(1))) =~= out@ + unescape(
                    w.skip(1),
                ));
            }
            i += 1;
        }
    }
    proof {
        assert(v@.subrange(i as int, hi as int) =~= Seq::<u8>::empty());
        assert(out@ + Seq::<u8>::empty() =~= out@);
    }
    out
}

/// Escapes `\\` and `\"` in `v`.
fn escape_exec(v: &Vec<u8>) -> (r: Vec<u8>)
    ensures
        r@ == escape(v@),
{
    let n = v.len();
    let mut out: Vec<u8> = Vec::new();
    let mut i: usize = 0;
    proof {
        assert(v@.skip(0) =~= v@);
        assert(out@ + escape(v@) =~= escape(v@));
    }
    while i < n
        invariant
            i <= n == v@.len(),
            escape(v@) == out@ + escape(v@.skip(i as int)),
        decreases n - i,
    {
        let ghost w = v@.skip(i as int);
        let ghost prev = out@;
        let b = v[i];
        proof {
            assert(w[0] == b);
        }
        if b == '\\' as u8 || b == '"' as u8 {
            out.push('\\' as u8);
            out.push(b);
            proof {
                assert(w.skip(1) =~= v@.skip(i as int + 1));
                assert(prev + (seq![('\\' as u8), w[0]] + escape(w.skip(1))) =~= out@ + escape(
                    w.skip(1),
                ));
            }
        } else {
            out.push(b);
            proof {
                assert(w.skip(1) =~= v@.skip(i as int + 1));
                assert(prev + (seq![w[0]] + escape(w.skip(1))) =~= out@ + escape(w.skip(1)));
            }
        }
        i += 1;
    }
    proof {
        assert(v@.skip(i as int) =~= Seq::<u8>::empty());
        assert(out@ + Seq::<u8>::empty() =~= out@);
    }
    out
}

fn is_key_byte_exec(b: u8) -> (r: bool)
    ensures
        r == is_key_byte(b),
{
    ('a' as u8) <= b && b <= ('z' as u8) || ('A' as u8) <= b && b <= ('Z' as u8) || ('0' as u8)
        <= b && b <= ('9' as u8) || b == ('_' as u8) || b == ('-' as u8) || b == ('.' as u8)
}

fn bare_key_exec(v: &Vec<u8>) -> (r: bool)
    ensures
        r == bare_key(v@),
{
    let n = v.len();
    if n == 0 {
        return false;
    }
    let mut i: usize = 0;
    while i < n
        invariant
            i <= n == v@.len(),
            forall|j: int| 0 <= j < i ==> is_key_byte(#[trigger] v@[j]),
        decreases n - i,
    {
        if !is_key_byte_exec(v[i]) {
            return false;
        }
        i += 1;
    }
    true
}

fn list_items_exec(v: &Vec<u8>, i: usize) -> (r: Option<(Vec<Vec<u8>>, usize)>)
    requires
        i <= v@.len(),
    ensures
        match r {
            Some(pair) => list_items(v@, i as int) == Some(
                (deep(pair.0@), pair.1 as int),
            ) && pair.1 <= v@.len(),
            None => list_items(v@, i as int) is None,
        },
    decreases v@.len() - i,
{
    let j = skip_spaces_exec(v, i);
    if j >= v.len() {
        return None;
    }
    let b = v[j];
    if b == ']' as u8 {
        proof {
            assert(deep(Seq::<Vec<u8>>::empty()) =~= Seq::<Seq<u8>>::empty());
        }
        return Some((Vec::new(), j + 1));
    }
    if b != '"' as u8 {
        return None;
    }
    match qstring_end_exec(v, j + 1) {
        None => None,
        Some(q) => {
            let item = unescape_range(v, j + 1, q);
            let k = skip_spaces_exec(v, q + 1);
            if k >= v.len() {
                return None;
            }
            let c = v[k];
            if c == ']' as u8 {
                let mut items: Vec<Vec<u8>> = Vec::new();
                items.push(item);
                proof {
                    assert(deep(items@) =~= seq![item@]);
                }
                Some((items, k + 1))
            } else if c == ',' as u8 {
                match list_items_exec(v, k + 1) {
                    None => None,
                    Some(pair) => {
                        let (mut items, end) = pair;
                        items.insert(0, item);
                        proof {
                            let spec_pair = list_items(v@, k as int + 1).unwrap();
                            assert(deep(items@) =~= seq![item@] + spec_pair.0);
                        }
                        Some((items, end))
                    },
                }
            } else {
                None
            }
        },
    }
}

/// The line is a table header.
pub open spec fn is_header(l: Seq<u8>) -> bool {
    classify(l) matches Some(LineKind::Header { .. })
}

/// The line is a header named `name`.
pub open spec fn is_header_named(l: Seq<u8>, name: Seq<u8>) -> bool {
    classify(l) matches Some(LineKind::Header { name: n }) && n == name
}

/// The line is an entry for `key`.
pub open spec fn is_entry_for(l: Seq<u8>, key: Seq<u8>) -> bool {
    classify(l) matches Some(LineKind::Entry { key: k, value }) && k == key
}

/// The value of an entry line (callers check it is an entry).
pub open spec fn value_of(l: Seq<u8>) -> ValueKind {
    match classify(l) {
        Some(LineKind::Entry { key, value }) => value,
        _ => ValueKind::Opaque,
    }
}

/// End of the top-level region: the index of the first header, or the
/// number of lines.
pub open spec fn top_end(ls: Seq<Seq<u8>>) -> int
    decreases ls.len(),
{
    if ls.len() == 0 {
        0
    } else if is_header(ls[0]) {
        0
    } else {
        1 + top_end(ls.drop_first())
    }
}

/// Shape of the top-level region.
pub proof fn lemma_top_end(ls: Seq<Seq<u8>>)
    ensures
        0 <= top_end(ls) <= ls.len(),
        forall|i: int| 0 <= i < top_end(ls) ==> !is_header(#[trigger] ls[i]),
        top_end(ls) < ls.len() ==> is_header(ls[top_end(ls)]),
    decreases ls.len(),
{
    if ls.len() > 0 && !is_header(ls[0]) {
        let t = ls.drop_first();
        lemma_top_end(t);
        assert forall|i: int| 0 <= i < top_end(ls) implies !is_header(#[trigger] ls[i]) by {
            if i > 0 {
                assert(t[i - 1] == ls[i]);
            }
        }
        if top_end(ls) < ls.len() {
            assert(t[top_end(ls) - 1] == ls[top_end(ls)]);
        }
    }
}

/// Index of the first top-level entry for `key`; equals `top_end` when
/// there is none.
pub open spec fn entry_index(ls: Seq<Seq<u8>>, key: Seq<u8>) -> int
    decreases ls.len(),
{
    if ls.len() == 0 {
        0
    } else if is_header(ls[0]) || is_entry_for(ls[0], key) {
        0
    } else {
        1 + entry_index(ls.drop_first(), key)
    }
}

/// Shape of the entry lookup.
pub proof fn lemma_entry_index(ls: Seq<Seq<u8>>, key: Seq<u8>)
    ensures
        0 <= entry_index(ls, key) <= top_end(ls),
        entry_index(ls, key) < top_end(ls) ==> is_entry_for(ls[entry_index(ls, key)], key),
        forall|i: int| 0 <= i < entry_index(ls, key) ==> !is_entry_for(#[trigger] ls[i], key),
    decreases ls.len(),
{
    lemma_top_end(ls);
    if ls.len() > 0 && !is_header(ls[0]) && !is_entry_for(ls[0], key) {
        let t = ls.drop_first();
        lemma_entry_index(t, key);
        assert forall|i: int| 0 <= i < entry_index(ls, key) implies !is_entry_for(
            #[trigger] ls[i],
            key,
        ) by {
            if i > 0 {
                assert(t[i - 1] == ls[i]);
            }
        }
        if entry_index(ls, key) < top_end(ls) {
            assert(t[entry_index(ls, key) - 1] == ls[entry_index(ls, key)]);
        }
    }
}

/// The document has a top-level entry for `key`.
pub open spec fn has_entry(ls: Seq<Seq<u8>>, key: Seq<u8>) -> bool {
    entry_index(ls, key) < top_end(ls)
}

/// The string value of the first top-level entry for `key`.
pub open spec fn spec_get_str(ls: Seq<Seq<u8>>, key: Seq<u8>) -> Option<Seq<u8>> {
    if has_entry(ls, key) {
        match value_of(ls[entry_index(ls, key)]) {
            ValueKind::Str(s) => Some(s),
            _ => None,
        }
    } else {
        None
    }
}

/// The string-array value of the first top-level entry for `key`.
pub open spec fn spec_get_list(ls: Seq<Seq<u8>>, key: Seq<u8>) -> Option<Seq<Seq<u8>>> {
    if has_entry(ls, key) {
        match value_of(ls[entry_index(ls, key)]) {
            ValueKind::List(l) => Some(l),
            _ => None,
        }
    } else {
        None
    }
}

/// The canonical rendering of a string entry: `key = "value"`.
pub open spec fn render_entry(key: Seq<u8>, value: Seq<u8>) -> Seq<u8> {
    key + seq![' ' as u8, '=' as u8, ' ' as u8, '"' as u8] + escape(value) + seq!['"' as u8]
}

/// Setting a key: rewrite its first top-level entry in place, or add
/// one at the end of the top-level region. No other line moves.
pub open spec fn spec_set_str(ls: Seq<Seq<u8>>, key: Seq<u8>, value: Seq<u8>) -> Seq<Seq<u8>> {
    let line = render_entry(key, value);
    if has_entry(ls, key) {
        ls.update(entry_index(ls, key), line)
    } else {
        ls.insert(top_end(ls), line)
    }
}

/// Index of the header line named `name`, or the number of lines.
pub open spec fn header_index(ls: Seq<Seq<u8>>, name: Seq<u8>) -> int
    decreases ls.len(),
{
    if ls.len() == 0 {
        0
    } else if is_header_named(ls[0], name) {
        0
    } else {
        1 + header_index(ls.drop_first(), name)
    }
}

/// Shape of the header lookup.
pub proof fn lemma_header_index(ls: Seq<Seq<u8>>, name: Seq<u8>)
    ensures
        0 <= header_index(ls, name) <= ls.len(),
        header_index(ls, name) < ls.len() ==> is_header_named(ls[header_index(ls, name)], name),
        forall|i: int|
            0 <= i < header_index(ls, name) ==> !is_header_named(#[trigger] ls[i], name),
    decreases ls.len(),
{
    if ls.len() > 0 && !is_header_named(ls[0], name) {
        let t = ls.drop_first();
        lemma_header_index(t, name);
        assert forall|i: int| 0 <= i < header_index(ls, name) implies !is_header_named(
            #[trigger] ls[i],
            name,
        ) by {
            if i > 0 {
                assert(t[i - 1] == ls[i]);
            }
        }
        if header_index(ls, name) < ls.len() {
            assert(t[header_index(ls, name) - 1] == ls[header_index(ls, name)]);
        }
    }
}

/// The lines of table `name`: everything between its header and the
/// next header (or the end).
pub open spec fn spec_get_table(ls: Seq<Seq<u8>>, name: Seq<u8>) -> Option<Seq<Seq<u8>>> {
    let h = header_index(ls, name);
    if h == ls.len() {
        None
    } else {
        let after = ls.skip(h + 1);
        Some(after.take(top_end(after)))
    }
}

/// Escaping never introduces a newline.
proof fn lemma_escape_no_newline(s: Seq<u8>)
    requires
        no_newline(s),
    ensures
        no_newline(escape(s)),
    decreases s.len(),
{
    if s.len() > 0 {
        assert(no_newline(s.skip(1))) by {
            assert(forall|j: int| 0 <= j < s.skip(1).len() ==> s.skip(1)[j] == s[j + 1]);
        }
        lemma_escape_no_newline(s.skip(1));
        let e = escape(s);
        assert forall|j: int| 0 <= j < e.len() implies e[j] != nl() by {
            if s[0] == ('\\' as u8) || s[0] == ('"' as u8) {
                if j >= 2 {
                    assert(e[j] == escape(s.skip(1))[j - 2]);
                }
            } else {
                if j >= 1 {
                    assert(e[j] == escape(s.skip(1))[j - 1]);
                }
            }
        }
    }
}

/// Scanning a quoted string whose content is `escape(v)` stops exactly
/// at the closing quote behind it.
proof fn lemma_qstring_over_escaped(w: Seq<u8>, p: int, v: Seq<u8>)
    requires
        0 <= p,
        p + escape(v).len() < w.len(),
        w.subrange(p, p + escape(v).len()) == escape(v),
        w[p + escape(v).len()] == ('"' as u8),
    ensures
        qstring_end(w, p) == Some(p + escape(v).len()),
    decreases v.len(),
{
    let e = escape(v);
    if v.len() == 0 {
        assert(w[p] == ('"' as u8));
    } else if v[0] == ('\\' as u8) || v[0] == ('"' as u8) {
        assert(e == seq![('\\' as u8), v[0]] + escape(v.skip(1)));
        assert(w[p] == e[0] && e[0] == ('\\' as u8)) by {
            assert(w.subrange(p, p + e.len())[0] == w[p]);
        }
        assert(w[p + 1] == e[1] && e[1] == v[0]) by {
            assert(w.subrange(p, p + e.len())[1] == w[p + 1]);
        }
        let e1 = escape(v.skip(1));
        assert forall|j: int| 0 <= j < e1.len() implies #[trigger] w.subrange(
            p + 2,
            p + 2 + e1.len(),
        )[j] == e1[j] by {
            assert(w.subrange(p + 2, p + 2 + e1.len())[j] == w[p + 2 + j]);
            assert(w.subrange(p, p + e.len())[j + 2] == w[p + 2 + j]);
            assert(e[j + 2] == e1[j]);
        }
        assert(w.subrange(p + 2, p + 2 + e1.len()) =~= e1);
        lemma_qstring_over_escaped(w, p + 2, v.skip(1));
    } else {
        assert(e == seq![v[0]] + escape(v.skip(1)));
        assert(w[p] == e[0] && e[0] == v[0]) by {
            assert(w.subrange(p, p + e.len())[0] == w[p]);
        }
        assert(w[p] != ('"' as u8) && w[p] != ('\\' as u8));
        let e1 = escape(v.skip(1));
        assert forall|j: int| 0 <= j < e1.len() implies #[trigger] w.subrange(
            p + 1,
            p + 1 + e1.len(),
        )[j] == e1[j] by {
            assert(w.subrange(p + 1, p + 1 + e1.len())[j] == w[p + 1 + j]);
            assert(w.subrange(p, p + e.len())[j + 1] == w[p + 1 + j]);
            assert(e[j + 1] == e1[j]);
        }
        assert(w.subrange(p + 1, p + 1 + e1.len()) =~= e1);
        lemma_qstring_over_escaped(w, p + 1, v.skip(1));
    }
}

/// The canonical rendering of an entry parses back to exactly that
/// entry, and is a single line.
pub proof fn lemma_render_classify(key: Seq<u8>, value: Seq<u8>)
    requires
        bare_key(key),
        no_newline(value),
    ensures
        classify(render_entry(key, value)) == Some(
            LineKind::Entry { key, value: ValueKind::Str(value) },
        ),
        no_newline(render_entry(key, value)),
{
    let r = render_entry(key, value);
    let e = escape(value);
    let kl = key.len() as int;
    lemma_escape_no_newline(value);
    assert forall|j: int| 0 <= j < r.len() implies r[j] != nl() by {
        if j < kl {
            assert(r[j] == key[j] && is_key_byte(key[j]));
        } else if j < kl + 4 {
        } else if j < kl + 4 + e.len() {
            assert(r[j] == e[j - kl - 4]);
        }
    }
    // the rendering is already trimmed
    assert(r.len() > 0 && r[0] == key[0] && is_key_byte(key[0]));
    assert(!is_space(r[0]));
    assert(trim_front(r) == r);
    assert(r.last() == ('"' as u8));
    assert(trim_back(r) == r);
    assert(trim(r) == r);
    // the first '=' is right after the key
    assert forall|j: int| 0 <= j < kl + 1 implies r[j] != ('=' as u8) by {
        if j < kl {
            assert(r[j] == key[j] && is_key_byte(key[j]));
        } else {
            assert(r[j] == (' ' as u8));
        }
    }
    assert(r[kl + 1] == ('=' as u8));
    lemma_find_byte_is(r, '=' as u8, kl + 1);
    // the key part trims back to the key
    let kpart = r.subrange(0, kl + 1);
    assert(kpart.last() == (' ' as u8));
    assert(kpart.drop_last() =~= key);
    assert(trim_back(kpart) == trim_back(key));
    assert(key.last() == key[kl - 1] && is_key_byte(key.last()));
    assert(!is_space(key.last()));
    assert(trim_back(key) == key);
    assert(!is_space(key[0]));
    assert(trim_front(key) == key);
    assert(trim(kpart) == trim_back(trim_front(kpart)));
    assert(trim_front(kpart) == kpart) by {
        assert(kpart[0] == key[0]);
    }
    assert(trim(kpart) == key);
    // the value part trims to the quoted string
    let vpart = r.subrange(kl + 2, r.len() as int);
    assert(vpart[0] == (' ' as u8));
    let q = vpart.drop_first();
    assert(q =~= seq![('"' as u8)] + e + seq![('"' as u8)]);
    assert(trim_front(vpart) == trim_front(q));
    assert(q[0] == ('"' as u8) && !is_space(q[0]));
    assert(trim_front(q) == q);
    assert(q.last() == ('"' as u8) && !is_space(q.last()));
    assert(trim_back(q) == q);
    assert(trim(vpart) == q);
    // the quoted string scans to its closing quote
    assert(q.subrange(1, 1 + e.len() as int) =~= e);
    assert(q[1 + e.len() as int] == ('"' as u8));
    lemma_qstring_over_escaped(q, 1, value);
    assert(qstring_end(q, 1) == Some(1 + e.len() as int));
    assert(skip_spaces(q, 2 + e.len() as int) == q.len() as int);
    assert(rest_ok(q, 2 + e.len() as int));
    lemma_unescape_escape(value);
    assert(value_kind(q) == Some(ValueKind::Str(value)));
    assert(bare_key(key));
    assert(classify(r) == Some(LineKind::Entry { key, value: ValueKind::Str(value) }));
}

/// Every line of the document parses.
pub open spec fn doc_ok(ls: Seq<Seq<u8>>) -> bool {
    forall|i: int| 0 <= i < ls.len() ==> line_ok(#[trigger] ls[i])
}

/// The document read from `t`: its lines, when they all parse.
pub open spec fn spec_parse(t: Seq<u8>) -> Option<Seq<Seq<u8>>> {
    if doc_ok(split_lines(t)) {
        Some(split_lines(t))
    } else {
        None
    }
}

/// The text of a document: its lines joined with newlines.
pub open spec fn spec_serialize(ls: Seq<Seq<u8>>) -> Seq<u8> {
    join_lines(ls)
}

/// Appending a line appends a newline and the line to the text.
proof fn lemma_join_push(s: Seq<Seq<u8>>, x: Seq<u8>)
    requires
        s.len() >= 1,
    ensures
        join_lines(s.push(x)) == join_lines(s) + seq![nl()] + x,
    decreases s.len(),
{
    if s.len() == 1 {
        assert(s.push(x).drop_first() =~= seq![x]);
        assert(join_lines(seq![x]) == x);
        assert(join_lines(s.push(x)) == s[0] + seq![nl()] + x);
    } else {
        assert(s.push(x).drop_first() =~= s.drop_first().push(x));
        lemma_join_push(s.drop_first(), x);
        assert(join_lines(s.push(x)) == s[0] + seq![nl()] + (join_lines(s.drop_first()) + seq![
            nl(),
        ] + x));
        assert(s[0] + seq![nl()] + (join_lines(s.drop_first()) + seq![nl()] + x) =~= (s[0] + seq![
            nl(),
        ] + join_lines(s.drop_first())) + seq![nl()] + x);
    }
}

/// Interprets one raw line, as `classify` does.
fn classify_exec(line: &Vec<u8>) -> (r: ParsedLine)
    ensures
        r.view_kind() == classify(line@),
{
    let (lo, hi) = crate::text::trim_bounds(line);
    let t = crate::text::subvec(line, lo, hi);
    proof {
        assert(t@ == trim(line@));
    }
    if t.len() == 0 {
        return ParsedLine::Blank;
    }
    let b0 = t[0];
    if b0 == '#' as u8 {
        return ParsedLine::Blank;
    }
    if b0 == '[' as u8 {
        if t.len() >= 2 && t[t.len() - 1] == ']' as u8 {
            let inner = crate::text::subvec(&t, 1, t.len() - 1);
            let (ilo, ihi) = crate::text::trim_bounds(&inner);
            let name = crate::text::subvec(&inner, ilo, ihi);
            proof {
                assert(t@.last() == t@[t@.len() - 1]);
                assert(name@ == trim(t@.subrange(1, t@.len() - 1)));
            }
            if bare_key_exec(&name) {
                return ParsedLine::Header(name);
            }
        }
        return ParsedLine::Bad;
    }
    let e = crate::text::find_byte_exec(&t, '=' as u8);
    if e >= t.len() {
        return ParsedLine::Bad;
    }
    let keyraw = crate::text::subvec(&t, 0, e);
    let (klo, khi) = crate::text::trim_bounds(&keyraw);
    let key = crate::text::subvec(&keyraw, klo, khi);
    proof {
        assert(key@ == trim(t@.subrange(0, e as int)));
    }
    if !bare_key_exec(&key) {
        return ParsedLine::Bad;
    }
    let valraw = crate::text::subvec(&t, e + 1, t.len());
    let (vlo, vhi) = crate::text::trim_bounds(&valraw);
    let vtext = crate::text::subvec(&valraw, vlo, vhi);
    proof {
        assert(vtext@ == trim(t@.subrange(e as int + 1, t@.len() as int)));
    }
    if vtext.len() == 0 {
        return ParsedLine::Bad;
    }
    let v0 = vtext[0];
    if v0 == '"' as u8 {
        match qstring_end_exec(&vtext, 1) {
            None => ParsedLine::Bad,
            Some(q) => {
                if rest_ok_exec(&vtext, q + 1) {
                    let content = unescape_range(&vtext, 1, q);
                    ParsedLine::Entry(key, Value::Str(content))
                } else {
                    ParsedLine::Bad
                }
            },
        }
    } else if v0 == '[' as u8 {
        match list_items_exec(&vtext, 1) {
            None => ParsedLine::Bad,
            Some(pair) => {
                let (items, end) = pair;
                if rest_ok_exec(&vtext, end) {
                    ParsedLine::Entry(key, Value::List(items))
                } else {
                    ParsedLine::Bad
                }
            },
        }
    } else {
        ParsedLine::Entry(key, Value::Opaque)
    }
}

/// `deep` commutes with inserting one line.
proof fn lemma_deep_insert(vs: Seq<Vec<u8>>, i: int, x: Vec<u8>)
    requires
        0 <= i <= vs.len(),
    ensures
        deep(vs.insert(i, x)) == deep(vs).insert(i, x@),
{
    vs.insert_ensures(i, x);
    deep(vs).insert_ensures(i, x@);
    assert(deep(vs.insert(i, x)) =~= deep(vs).insert(i, x@));
}

/// A parse failure, naming the first malformed line.
#[derive(Clone, Copy, Debug, PartialEq, Eq, Structural)]
pub struct ParseError {
    /// Zero-based index of the first line that does not parse.
    pub line: usize,
}

/// A structured, comment-preserving document: a sequence of raw lines,
/// each of which parses as an entry, a header, or a blank/comment.
#[derive(Debug)]
pub struct ConfigDocument {
    lines: Vec<Vec<u8>>,
}

impl ConfigDocument {
    /// The raw lines: the mathematical content of a document.
    pub closed spec fn lines_view(&self) -> Seq<Seq<u8>> {
        deep(self.lines@)
    }

    /// Well-formed: at least one line, every line newline-free and
    /// parsed. `parse` establishes this and every method keeps it.
    pub open spec fn wf(&self) -> bool {
        &&& self.lines_view().len() >= 1
        &&& lines_unbroken(self.lines_view())
        &&& doc_ok(self.lines_view())
    }

    /// Parses config text; fails on the first malformed line and
    /// succeeds exactly when every line parses.
    pub fn parse(text: &Vec<u8>) -> (r: Result<ConfigDocument, ParseError>)
        ensures
            match r {
                Ok(d) => spec_parse(text@) == Some(d.lines_view()) && d.wf(),
                Err(e) => {
                    &&& spec_parse(text@) is None
                    &&& e.line < split_lines(text@).len()
                    &&& !line_ok(split_lines(text@)[e.line as int])
                    &&& forall|k: int|
                        0 <= k < e.line ==> line_ok(#[trigger] split_lines(text@)[k])
                },
            },
    {
        let mut lines: Vec<Vec<u8>> = Vec::new();
        let mut cur: Vec<u8> = Vec::new();
        let n = text.len();
        let mut i: usize = 0;
        proof {
            assert(cur@ + text@.skip(0) =~= text@);
            assert(deep(lines@) =~= Seq::<Seq<u8>>::empty());
            assert(deep(lines@) + split_lines(text@) =~= split_lines(text@));
        }
        while i < n
            invariant
                i <= n == text@.len(),
                no_newline(cur@),
                split_lines(text@) == deep(lines@) + split_lines(cur@ + text@.skip(i as int)),
            decreases n - i,
        {
            let b = text[i];
            let ghost rest = text@.skip(i as int);
            let ghost w = cur@ + rest;
            let ghost cprev = cur@;
            let ghost lprev = lines@;
            if b == '\n' as u8 {
                proof {
                    assert forall|j: int| 0 <= j < cprev.len() implies w[j] != nl() by {
                        assert(w[j] == cprev[j]);
                    }
                    assert(w[cprev.len() as int] == rest[0]);
                    assert(rest[0] == nl());
                    lemma_find_byte_is(w, nl(), cprev.len() as int);
                    assert(w.subrange(0, cprev.len() as int) =~= cprev);
                    assert(w.subrange(cprev.len() as int + 1, w.len() as int) =~= text@.skip(
                        i as int + 1,
                    ));
                    assert(split_lines(w) == seq![cprev] + split_lines(text@.skip(i as int + 1)));
                }
                lines.push(cur);
                cur = Vec::new();
                proof {
                    assert(deep(lines@) =~= deep(lprev).push(cprev));
                    assert(deep(lprev) + (seq![cprev] + split_lines(text@.skip(i as int + 1)))
                        =~= deep(lines@) + split_lines(text@.skip(i as int + 1)));
                    assert(cur@ + text@.skip(i as int + 1) =~= text@.skip(i as int + 1));
                }
            } else {
                cur.push(b);
                proof {
                    assert(cur@ + text@.skip(i as int + 1) =~= w);
                }
            }
            i += 1;
        }
        proof {
            assert(text@.skip(i as int) =~= Seq::<u8>::empty());
            assert(cur@ + text@.skip(i as int) =~= cur@);
            lemma_find_byte_is(cur@, nl(), cur@.len() as int);
            assert(split_lines(cur@) == seq![cur@]);
        }
        let ghost lprev = lines@;
        let ghost cprev = cur@;
        lines.push(cur);
        proof {
            assert(deep(lines@) =~= deep(lprev).push(cprev));
            assert(deep(lprev) + seq![cprev] =~= deep(lines@));
            assert(split_lines(text@) == deep(lines@));
        }
        let m = lines.len();
        let mut k: usize = 0;
        while k < m
            invariant
                k <= m == lines@.len(),
                deep(lines@) == split_lines(text@),
                forall|j: int| 0 <= j < k ==> line_ok(#[trigger] deep(lines@)[j]),
            decreases m - k,
        {
            let p = classify_exec(&lines[k]);
            proof {
                assert(deep(lines@)[k as int] == lines@[k as int]@);
            }
            match p {
                ParsedLine::Bad => {
                    return Err(ParseError { line: k });
                },
                _ => {},
            }
            k += 1;
        }
        proof {
            lemma_split_lines_shape(text@);
        }
        Ok(ConfigDocument { lines })
    }

    /// The document's text. Untouched lines appear exactly as they
    /// were read.
    pub fn serialize(&self) -> (r: Vec<u8>)
        ensures
            r@ == spec_serialize(self.lines_view()),
    {
        let ghost ls = self.lines_view();
        let mut out: Vec<u8> = Vec::new();
        let n = self.lines.len();
        let mut i: usize = 0;
        while i < n
            invariant
                i <= n == self.lines@.len(),
                ls == self.lines_view(),
                i == 0 ==> out@ == Seq::<u8>::empty(),
                i >= 1 ==> out@ == join_lines(ls.take(i as int)),
            decreases n - i,
        {
            if i > 0 {
                out.push('\n' as u8);
            }
            let ghost base = out@;
            let mut j: usize = 0;
            let linelen = self.lines[i].len();
            while j < linelen
                invariant
                    j <= linelen == self.lines@[i as int]@.len(),
                    i < self.lines@.len(),
                    out@ == base + self.lines@[i as int]@.subrange(0, j as int),
                decreases linelen - j,
            {
                let b = self.lines[i][j];
                out.push(b);
                proof {
                    assert(out@ =~= base + self.lines@[i as int]@.subrange(0, j as int + 1));
                }
                j += 1;
            }
            proof {
                assert(self.lines@[i as int]@.subrange(0, linelen as int) =~= ls[i as int]);
                assert(out@ == base + ls[i as int]);
                if i == 0 {
                    assert(ls.take(1).len() == 1);
                    assert(join_lines(ls.take(1)) == ls.take(1)[0]);
                    assert(out@ =~= join_lines(ls.take(1)));
                } else {
                    lemma_join_push(ls.take(i as int), ls[i as int]);
                    assert(ls.take(i as int).push(ls[i as int]) =~= ls.take(i as int + 1));
                    assert(out@ =~= join_lines(ls.take(i as int)) + seq![nl()] + ls[i as int]);
                }
            }
            i += 1;
        }
        proof {
            if n == 0 {
                assert(out@ =~= join_lines(ls));
            } else {
                assert(ls.take(n as int) =~= ls);
            }
        }
        out
    }

    /// The string value of the first top-level entry for `key`:
    /// `Some` exactly when such an entry exists and holds a string.
    pub fn get_str(&self, key: &Vec<u8>) -> (r: Option<Vec<u8>>)
        ensures
            match r {
                Some(v) => spec_get_str(self.lines_view(), key@) == Some(v@),
                None => spec_get_str(self.lines_view(), key@) is None,
            },
    {
        let ghost ls = self.lines_view();
        proof {
            lemma_top_end(ls);
            lemma_entry_index(ls, key@);
        }
        let n = self.lines.len();
        let mut i: usize = 0;
        while i < n
            invariant
                i <= n == self.lines@.len(),
                ls == self.lines_view(),
                forall|j: int|
                    0 <= j < i ==> !is_header(#[trigger] ls[j]) && !is_entry_for(ls[j], key@),
                0 <= top_end(ls) <= ls.len(),
                forall|j: int| 0 <= j < top_end(ls) ==> !is_header(#[trigger] ls[j]),
                top_end(ls) < ls.len() ==> is_header(ls[top_end(ls)]),
                0 <= entry_index(ls, key@) <= top_end(ls),
                entry_index(ls, key@) < top_end(ls) ==> is_entry_for(
                    ls[entry_index(ls, key@)],
                    key@,
                ),
                forall|j: int|
                    0 <= j < entry_index(ls, key@) ==> !is_entry_for(#[trigger] ls[j], key@),
            decreases n - i,
        {
            let p = classify_exec(&self.lines[i]);
            proof {
                assert(ls[i as int] == self.lines@[i as int]@);
            }
            match p {
                ParsedLine::Header(name) => {
                    proof {
                        assert(is_header(ls[i as int]));
                        assert(top_end(ls) == i);
                        assert(!has_entry(ls, key@));
                    }
                    return None;
                },
                ParsedLine::Entry(k, v) => {
                    if crate::text::bytes_eq(k.as_slice(), key.as_slice()) {
                        proof {
                            assert(is_entry_for(ls[i as int], key@));
                            assert(entry_index(ls, key@) == i);
                            assert(top_end(ls) > i);
                            assert(has_entry(ls, key@));
                            assert(value_of(ls[i as int]) == v.view_kind());
                        }
                        match v {
                            Value::Str(s) => {
                                return Some(s);
                            },
                            _ => {
                                return None;
                            },
                        }
                    }
                },
                _ => {},
            }
            i += 1;
        }
        proof {
            assert(top_end(ls) == ls.len());
            assert(!has_entry(ls, key@));
        }
        None
    }

    /// The string-array value of the first top-level entry for `key`.
    pub fn get_list(&self, key: &Vec<u8>) -> (r: Option<Vec<Vec<u8>>>)
        ensures
            match r {
                Some(v) => spec_get_list(self.lines_view(), key@) == Some(deep(v@)),
                None => spec_get_list(self.lines_view(), key@) is None,
            },
    {
        let ghost ls = self.lines_view();
        proof {
            lemma_top_end(ls);
            lemma_entry_index(ls, key@);
        }
        let n = self.lines.len();
        let mut i: usize = 0;
        while i < n
            invariant
                i <= n == self.lines@.len(),
                ls == self.lines_view(),
                forall|j: int|
                    0 <= j < i ==> !is_header(#[trigger] ls[j]) && !is_entry_for(ls[j], key@),
                0 <= top_end(ls) <= ls.len(),
                forall|j: int| 0 <= j < top_end(ls) ==> !is_header(#[trigger] ls[j]),
                top_end(ls) < ls.len() ==> is_header(ls[top_end(ls)]),
                0 <= entry_index(ls, key@) <= top_end(ls),
                entry_index(ls, key@) < top_end(ls) ==> is_entry_for(
                    ls[entry_index(ls, key@)],
                    key@,
                ),
                forall|j: int|
                    0 <= j < entry_index(ls, key@) ==> !is_entry_for(#[trigger] ls[j], key@),
            decreases n - i,
        {
            let p = classify_exec(&self.lines[i]);
            proof {
                assert(ls[i as int] == self.lines@[i as int]@);
            }
            match p {
                ParsedLine::Header(name) => {
                    proof {
                        assert(top_end(ls) == i);
                        assert(!has_entry(ls, key@));
                    }
                    return None;
                },
                ParsedLine::Entry(k, v) => {
                    if crate::text::bytes_eq(k.as_slice(), key.as_slice()) {
                        proof {
                            assert(is_entry_for(ls[i as int], key@));
                            assert(entry_index(ls, key@) == i);
                            assert(has_entry(ls, key@));
                            assert(value_of(ls[i as int]) == v.view_kind());
                        }
                        match v {
                            Value::List(items) => {
                                return Some(items);
                            },
                            _ => {
                                return None;
                            },
                        }
                    }
                },
                _ => {},
            }
            i += 1;
        }
        proof {
            assert(top_end(ls) == ls.len());
            assert(!has_entry(ls, key@));
        }
        None
    }

    /// The sub-document of table `name`: its lines between the header
    /// and the next header (or the end of the document).
    pub fn get_table(&self, name: &Vec<u8>) -> (r: Option<ConfigDocument>)
        requires
            self.wf(),
        ensures
            match r {
                Some(d) => spec_get_table(self.lines_view(), name@) == Some(d.lines_view()),
                None => spec_get_table(self.lines_view(), name@) is None,
            },
    {
        let ghost ls = self.lines_view();
        proof {
            lemma_header_index(ls, name@);
        }
        let n = self.lines.len();
        let mut i: usize = 0;
        while i < n
            invariant
                i <= n == self.lines@.len(),
                ls == self.lines_view(),
                forall|j: int| 0 <= j < i ==> !is_header_named(#[trigger] ls[j], name@),
                0 <= header_index(ls, name@) <= ls.len(),
                header_index(ls, name@) < ls.len() ==> is_header_named(
                    ls[header_index(ls, name@)],
                    name@,
                ),
                forall|j: int|
                    0 <= j < header_index(ls, name@) ==> !is_header_named(
                        #[trigger] ls[j],
                        name@,
                    ),
            decreases n - i,
        {
            let p = classify_exec(&self.lines[i]);
            proof {
                assert(ls[i as int] == self.lines@[i as int]@);
            }
            let found: bool = match &p {
                ParsedLine::Header(h) => crate::text::bytes_eq(h.as_slice(), name.as_slice()),
                _ => false,
            };
            if found {
                proof {
                    assert(is_header_named(ls[i as int], name@));
                    assert(header_index(ls, name@) == i);
                }
                // collect the region after the header, up to the next header
                let ghost after = ls.skip(i as int + 1);
                proof {
                    lemma_top_end(after);
                }
                let mut region: Vec<Vec<u8>> = Vec::new();
                let mut j: usize = i + 1;
                proof {
                    assert(deep(region@) =~= after.subrange(0, 0));
                }
                while j < n
                    invariant
                        i < j <= n == self.lines@.len(),
                        ls == self.lines_view(),
                        after == ls.skip(i as int + 1),
                        deep(region@) == after.subrange(0, j - i - 1),
                        forall|k: int| 0 <= k < j - i - 1 ==> !is_header(#[trigger] after[k]),
                        0 <= top_end(after) <= after.len(),
                        forall|k: int| 0 <= k < top_end(after) ==> !is_header(#[trigger] after[k]),
                        top_end(after) < after.len() ==> is_header(after[top_end(after)]),
                    ensures
                        i < j <= n,
                        deep(region@) == after.subrange(0, j - i - 1),
                        j - i - 1 == top_end(after),
                    decreases n - j,
                {
                    let q = classify_exec(&self.lines[j]);
                    proof {
                        assert(ls[j as int] == self.lines@[j as int]@);
                        assert(after[j - i - 1] == ls[j as int]);
                    }
                    let stop: bool = match &q {
                        ParsedLine::Header(_) => true,
                        _ => false,
                    };
                    if stop {
                        proof {
                            assert(is_header(after[j - i - 1]));
                            assert(top_end(after) == j - i - 1);
                        }
                        break ;
                    }
                    let ghost rprev = region@;
                    let line = crate::text::copy_bytes(&self.lines[j]);
                    region.push(line);
                    proof {
                        assert(deep(region@) =~= deep(rprev).push(line@));
                        assert(deep(rprev).push(after[j - i - 1]) =~= after.subrange(0, j - i));
                    }
                    j += 1;
                }
                proof {
                    if j == n {
                        assert(after.len() == n - i - 1);
                        assert(top_end(after) == after.len());
                    }
                    assert(after.subrange(0, top_end(after)) =~= after.take(top_end(after)));
                }
                return Some(ConfigDocument { lines: region });
            }
            i += 1;
        }
        proof {
            assert(header_index(ls, name@) == ls.len());
        }
        None
    }

    /// Sets `key` to string `value` in the top-level region: the first
    /// entry for `key` is rewritten in place, or a new entry is added
    /// at the end of the region. No other line changes.
    pub fn set_str(&mut self, key: &Vec<u8>, value: &Vec<u8>)
        requires
            old(self).wf(),
            bare_key(key@),
            no_newline(value@),
        ensures
            final(self).wf(),
            final(self).lines_view() == spec_set_str(old(self).lines_view(), key@, value@),
    {
        let ghost ls = old(self).lines_view();
        proof {
            lemma_top_end(ls);
            lemma_entry_index(ls, key@);
            lemma_render_classify(key@, value@);
        }
        // render `key = "value"`
        let mut line = crate::text::copy_bytes(key);
        line.push(' ' as u8);
        line.push('=' as u8);
        line.push(' ' as u8);
        line.push('"' as u8);
        let esc = escape_exec(value);
        let mut line = crate::text::concat(&line, &esc);
        line.push('"' as u8);
        proof {
            assert(line@ =~= render_entry(key@, value@));
        }
        let n = self.lines.len();
        let mut i: usize = 0;
        while i < n
            invariant
                i <= n == self.lines@.len(),
                ls == self.lines_view(),
                self == old(self),
                line@ == render_entry(key@, value@),
                classify(line@) == Some(
                    LineKind::Entry { key: key@, value: ValueKind::Str(value@) },
                ),
                no_newline(line@),
                doc_ok(ls),
                lines_unbroken(ls),
                forall|j: int|
                    0 <= j < i ==> !is_header(#[trigger] ls[j]) && !is_entry_for(ls[j], key@),
                0 <= top_end(ls) <= ls.len(),
                forall|j: int| 0 <= j < top_end(ls) ==> !is_header(#[trigger] ls[j]),
                top_end(ls) < ls.len() ==> is_header(ls[top_end(ls)]),
                0 <= entry_index(ls, key@) <= top_end(ls),
                entry_index(ls, key@) < top_end(ls) ==> is_entry_for(
                    ls[entry_index(ls, key@)],
                    key@,
                ),
                forall|j: int|
                    0 <= j < entry_index(ls, key@) ==> !is_entry_for(#[trigger] ls[j], key@),
            decreases n - i,
        {
            let p = classify_exec(&self.lines[i]);
            proof {
                assert(ls[i as int] == self.lines@[i as int]@);
            }
            match p {
                ParsedLine::Header(_) => {
                    proof {
                        assert(is_header(ls[i as int]));
                        assert(top_end(ls) == i);
                        assert(!has_entry(ls, key@));
                    }
                    let ghost vs = self.lines@;
                    let ghost lv = line@;
                    self.lines.insert(i, line);
                    proof {
                        lemma_deep_insert(vs, i as int, self.lines@[i as int]);
                        assert(self.lines@[i as int]@ == lv);
                        assert(deep(self.lines@) == ls.insert(i as int, lv));
                        ls.insert_ensures(i as int, lv);
                        let d = deep(self.lines@);
                        assert forall|j: int| 0 <= j < d.len() implies line_ok(#[trigger] d[j])
                            && no_newline(d[j]) by {
                            if j < i {
                                assert(d[j] == ls[j]);
                            } else if j == i {
                                assert(d[j] == lv);
                            } else {
                                assert(d[j] == ls[j - 1]);
                            }
                        }
                    }
                    return ;
                },
                ParsedLine::Entry(k, _) => {
                    if crate::text::bytes_eq(k.as_slice(), key.as_slice()) {
                        proof {
                            assert(is_entry_for(ls[i as int], key@));
                            assert(entry_index(ls, key@) == i);
                            assert(top_end(ls) > i);
                            assert(has_entry(ls, key@));
                        }
                        let ghost lv = line@;
                        self.lines.set(i, line);
                        proof {
                            assert(deep(self.lines@) =~= ls.update(i as int, lv));
                            let d = deep(self.lines@);
                            assert forall|j: int| 0 <= j < d.len() implies line_ok(
                                #[trigger] d[j],
                            ) && no_newline(d[j]) by {
                                if j != i {
                                    assert(d[j] == ls[j]);
                                } else {
                                    assert(d[j] == lv);
                                }
                            }
                        }
                        return ;
                    }
                },
                _ => {},
            }
            i += 1;
        }
        proof {
            assert(top_end(ls) == ls.len());
            assert(!has_entry(ls, key@));
        }
        let ghost vs = self.lines@;
        let ghost lv = line@;
        self.lines.push(line);
        proof {
            assert(self.lines@ =~= vs.insert(vs.len() as int, self.lines@[vs.len() as int]));
            lemma_deep_insert(vs, vs.len() as int, self.lines@[vs.len() as int]);
            assert(deep(self.lines@) == ls.insert(ls.len() as int, lv));
            ls.insert_ensures(ls.len() as int, lv);
            let d = deep(self.lines@);
            assert forall|j: int| 0 <= j < d.len() implies line_ok(#[trigger] d[j]) && no_newline(
                d[j],
            ) by {
                if j < ls.len() {
                    assert(d[j] == ls[j]);
                } else {
                    assert(d[j] == lv);
                }
            }
        }
    }
}

/// Parsing then serializing restores the exact input text: nothing of
/// the original formatting is lost.
pub proof fn lemma_parse_serialize(t: Seq<u8>)
    requires
        spec_parse(t) is Some,
    ensures
        spec_serialize(spec_parse(t).unwrap()) == t,
{
    lemma_join_split(t);
}

/// Serializing a well-formed document parses back to that document.
pub proof fn lemma_serialize_parse(ls: Seq<Seq<u8>>)
    requires
        ls.len() >= 1,
        lines_unbroken(ls),
        doc_ok(ls),
    ensures
        spec_parse(spec_serialize(ls)) == Some(ls),
{
    lemma_split_join(ls);
}

/// Serialization is idempotent: reparsing serialized text and
/// serializing again changes nothing.
pub proof fn lemma_serialize_idempotent(t: Seq<u8>)
    requires
        spec_parse(t) is Some,
    ensures
        spec_parse(spec_serialize(spec_parse(t).unwrap())) == spec_parse(t),
        spec_serialize(spec_parse(spec_serialize(spec_parse(t).unwrap())).unwrap())
            == spec_serialize(spec_parse(t).unwrap()),
{
    lemma_split_lines_shape(t);
    lemma_serialize_parse(split_lines(t));
}


/// Setting a key touches at most one line. With an existing entry the
/// line count is unchanged and every other line is byte-identical;
/// without one, a single line is added at the end of the top-level
/// region and every existing line keeps its text. Either way, reading
/// the key back yields the new value.
pub proof fn lemma_set_str_minimal(ls: Seq<Seq<u8>>, key: Seq<u8>, value: Seq<u8>)
    requires
        bare_key(key),
        no_newline(value),
    ensures
        has_entry(ls, key) ==> spec_set_str(ls, key, value).len() == ls.len() && (forall|i: int|
            0 <= i < ls.len() && i != entry_index(ls, key) ==> #[trigger] spec_set_str(
                ls,
                key,
                value,
            )[i] == ls[i]),
        !has_entry(ls, key) ==> spec_set_str(ls, key, value).len() == ls.len() + 1 && (forall|
            i: int,
        |
            0 <= i < top_end(ls) ==> #[trigger] spec_set_str(ls, key, value)[i] == ls[i]) && (
        forall|i: int|
            top_end(ls) < i < ls.len() + 1 ==> #[trigger] spec_set_str(ls, key, value)[i] == ls[i
                - 1]),
        spec_get_str(spec_set_str(ls, key, value), key) == Some(value),
{
    lemma_top_end(ls);
    lemma_entry_index(ls, key);
    lemma_render_classify(key, value);
    let lv = render_entry(key, value);
    let ls2 = spec_set_str(ls, key, value);
    lemma_top_end(ls2);
    lemma_entry_index(ls2, key);
    if has_entry(ls, key) {
        let ei = entry_index(ls, key);
        assert(ls2 == ls.update(ei, lv));
        assert(ls2[ei] == lv);
        assert(is_entry_for(ls2[ei], key));
        let te2 = top_end(ls2);
        let ei2 = entry_index(ls2, key);
        assert(te2 > ei) by {
            if te2 < ei {
                assert(ls2[te2] == ls[te2]);
                assert(is_header(ls[te2]));
                assert(!is_header(ls[te2]));
            } else if te2 == ei {
                assert(is_header(ls2[te2]));
            }
        }
        assert(ei2 == ei) by {
            if ei2 < ei {
                assert(ls2[ei2] == ls[ei2]);
                assert(is_entry_for(ls[ei2], key));
                assert(!is_entry_for(ls[ei2], key));
            } else if ei2 > ei {
                assert(!is_entry_for(ls2[ei], key));
            }
        }
        assert(has_entry(ls2, key));
        assert(value_of(ls2[ei2]) == ValueKind::Str(value));
    } else {
        let te = top_end(ls);
        assert(ls2 == ls.insert(te, lv));
        ls.insert_ensures(te, lv);
        assert(ls2[te] == lv);
        assert(is_entry_for(ls2[te], key));
        let te2 = top_end(ls2);
        let ei2 = entry_index(ls2, key);
        assert(te2 > te) by {
            if te2 < te {
                assert(ls2[te2] == ls[te2]);
                assert(is_header(ls[te2]));
                assert(!is_header(ls[te2]));
            } else if te2 == te {
                assert(is_header(ls2[te]));
            }
        }
        assert(ei2 == te) by {
            if ei2 < te {
                assert(ls2[ei2] == ls[ei2]);
                assert(is_entry_for(ls[ei2], key));
                assert(entry_index(ls, key) == te);
                assert(!is_entry_for(ls[ei2], key));
            } else if ei2 > te {
                assert(!is_entry_for(ls2[te], key));
            }
        }
        assert(has_entry(ls2, key));
        assert(value_of(ls2[ei2]) == ValueKind::Str(value));
    }
}

/// Setting a key keeps the document well-formed: every line still
/// parses and holds no newline.
pub proof fn lemma_set_str_wf(ls: Seq<Seq<u8>>, key: Seq<u8>, value: Seq<u8>)
    requires
        ls.len() >= 1,
        lines_unbroken(ls),
        doc_ok(ls),
        bare_key(key),
        no_newline(value),
    ensures
        spec_set_str(ls, key, value).len() >= 1,
        lines_unbroken(spec_set_str(ls, key, value)),
        doc_ok(spec_set_str(ls, key, value)),
{
    lemma_top_end(ls);
    lemma_entry_index(ls, key);
    lemma_render_classify(key, value);
    let lv = render_entry(key, value);
    let ls2 = spec_set_str(ls, key, value);
    if has_entry(ls, key) {
        let ei = entry_index(ls, key);
        assert forall|j: int| 0 <= j < ls2.len() implies line_ok(#[trigger] ls2[j]) && no_newline(
            ls2[j],
        ) by {
            if j != ei {
                assert(ls2[j] == ls[j]);
            } else {
                assert(ls2[j] == lv);
            }
        }
    } else {
        let te = top_end(ls);
        ls.insert_ensures(te, lv);
        assert forall|j: int| 0 <= j < ls2.len() implies line_ok(#[trigger] ls2[j]) && no_newline(
            ls2[j],
        ) by {
            if j < te {
                assert(ls2[j] == ls[j]);
            } else if j == te {
                assert(ls2[j] == lv);
            } else {
                assert(ls2[j] == ls[j - 1]);
            }
        }
    }
}

/// The persistence round trip: after a key is set, the serialized
/// text parses back to exactly the updated lines, and reading the key
/// yields the newly written value — while `lemma_set_str_minimal`
/// guarantees every other line is byte-identical.
pub proof fn lemma_save_round_trip(ls: Seq<Seq<u8>>, key: Seq<u8>, value: Seq<u8>)
    requires
        ls.len() >= 1,
        lines_unbroken(ls),
        doc_ok(ls),
        bare_key(key),
        no_newline(value),
    ensures
        spec_parse(spec_serialize(spec_set_str(ls, key, value))) == Some(
            spec_set_str(ls, key, value),
        ),
        spec_get_str(spec_set_str(ls, key, value), key) == Some(value),
{
    lemma_set_str_wf(ls, key, value);
    lemma_serialize_parse(spec_set_str(ls, key, value));
    lemma_set_str_minimal(ls, key, value);
}

} // verus!
