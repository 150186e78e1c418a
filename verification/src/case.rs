//! The case classifier and the kebab-case converters: a base name is one of
//! PascalCase, camelCase, an all-uppercase acronym form, or already
//! kebab-case, and each family has its own conversion to kebab-case.

use vstd::prelude::*;

use crate::chars::ascii_char;
use crate::chars::ascii_seq;
use crate::chars::char_is_upper;
use crate::chars::char_lower_first;
use crate::chars::chars_to_string;
use crate::chars::is_upper;
use crate::chars::lower1;
use crate::chars::lower_run;
use crate::chars::lower_seq;
use crate::chars::lemma_ascii_lower_value;
use crate::chars::str_chars;
use crate::chars::str_to_lower;
use crate::chars::subvec;

verus! {

/// The four case families a base name can belong to.
#[derive(Debug, PartialEq, Eq, Structural, Clone, Copy)]
pub enum Case {
    Pascal,
    Camel,
    Acronym,
    Kebab,
}

pub open spec fn has_upper(s: Seq<char>) -> bool {
    exists|i: int| 0 <= i < s.len() && is_upper(#[trigger] s[i])
}

pub open spec fn no_upper(s: Seq<char>) -> bool {
    forall|i: int| 0 <= i < s.len() ==> !is_upper(#[trigger] s[i])
}

/// Two consecutive uppercase letters somewhere in the name.
pub open spec fn has_acronym_run(s: Seq<char>) -> bool {
    exists|i: int| 0 <= i && i + 1 < s.len() && is_upper(#[trigger] s[i]) && is_upper(s[i + 1])
}

/// The classification rule: two consecutive uppercase letters anywhere make
/// the name an acronym form; otherwise no uppercase at all is kebab, a
/// leading uppercase is Pascal, and anything else is camel.
pub open spec fn classify(s: Seq<char>) -> Case {
    if has_acronym_run(s) {
        Case::Acronym
    } else if !has_upper(s) {
        Case::Kebab
    } else if is_upper(s[0]) {
        Case::Pascal
    } else {
        Case::Camel
    }
}

/// What one character past the first contributes to a Pascal or camel
/// conversion: uppercase becomes a dash and its lowercase form, anything
/// else stays.
pub open spec fn dash_lower(c: char) -> Seq<char> {
    if is_upper(c) {
        seq!['-', lower1(c)]
    } else {
        seq![c]
    }
}

pub open spec fn pc_tail(s: Seq<char>) -> Seq<char>
    decreases s.len(),
{
    if s.len() == 0 {
        Seq::empty()
    } else {
        dash_lower(s[0]) + pc_tail(s.skip(1))
    }
}

/// The Pascal and camel conversion: the first character is lowercased, and
/// every later uppercase letter becomes a dash followed by its lowercase
/// form.
pub open spec fn pc_convert(s: Seq<char>) -> Seq<char> {
    if s.len() == 0 {
        Seq::empty()
    } else {
        seq![lower1(s[0])] + pc_tail(s.skip(1))
    }
}

pub open spec fn xml_pat() -> Seq<char> {
    seq!['X', 'M', 'L']
}

pub open spec fn http_pat() -> Seq<char> {
    seq!['H', 'T', 'T', 'P']
}

pub open spec fn api_pat() -> Seq<char> {
    seq!['A', 'P', 'I']
}

pub open spec fn starts_run_with(s: Seq<char>, p: Seq<char>) -> bool {
    s.len() >= p.len() && s.take(p.len() as int) == p
}

/// An uppercase run split into acronym tokens: well-known acronyms are
/// peeled off the front greedily, and whatever remains is one token.
/// Identifying acronyms without a dictionary is ambiguous; this small list
/// is the accepted approximation.
pub open spec fn split_run(run: Seq<char>) -> Seq<Seq<char>>
    decreases run.len(),
{
    if run.len() == 0 {
        Seq::empty()
    } else if starts_run_with(run, xml_pat()) {
        seq![xml_pat()] + split_run(run.skip(3))
    } else if starts_run_with(run, http_pat()) {
        seq![http_pat()] + split_run(run.skip(4))
    } else if starts_run_with(run, api_pat()) {
        seq![api_pat()] + split_run(run.skip(3))
    } else {
        seq![run]
    }
}

/// Tokens lowercased and joined with a dash before each one except,
/// when `first` holds, the very first.
pub open spec fn join_dash_rest(ts: Seq<Seq<char>>, first: bool) -> Seq<char>
    decreases ts.len(),
{
    if ts.len() == 0 {
        Seq::empty()
    } else {
        (if first {
            Seq::<char>::empty()
        } else {
            seq!['-']
        }) + lower_run(ts[0]) + join_dash_rest(ts.skip(1), false)
    }
}

pub open spec fn join_dash(ts: Seq<Seq<char>>) -> Seq<char> {
    join_dash_rest(ts, true)
}

/// The acronym conversion, walking the input with a buffered run of
/// uppercase letters and a flag for whether the last emitted character was
/// not an uppercase one.  A run that ends the input is split into tokens
/// and flushed; a run followed by anything else gives its last letter to
/// the following word, and the rest of the run is split and flushed; one
/// dash stands between adjacent tokens.
pub open spec fn acr_rec(s: Seq<char>, buf: Seq<char>, prev_lower: bool) -> Seq<char>
    decreases s.len(),
{
    if s.len() == 0 {
        join_dash(split_run(buf))
    } else if is_upper(s[0]) {
        (if prev_lower {
            seq!['-']
        } else {
            Seq::<char>::empty()
        }) + acr_rec(s.skip(1), buf.push(s[0]), false)
    } else {
        (if buf.len() > 0 {
            let prefix = buf.take(buf.len() - 1);
            join_dash(split_run(prefix)) + (if prefix.len() > 0 {
                seq!['-']
            } else {
                Seq::<char>::empty()
            }) + seq![lower1(buf[buf.len() - 1])]
        } else {
            Seq::<char>::empty()
        }) + seq![s[0]] + acr_rec(s.skip(1), Seq::empty(), true)
    }
}

pub open spec fn acr_convert(s: Seq<char>) -> Seq<char> {
    acr_rec(s, Seq::empty(), false)
}

/// The whole converter: a name with no uppercase letter is returned
/// unchanged, and otherwise the algorithm of its case family applies.
pub open spec fn smart_convert(s: Seq<char>) -> Seq<char> {
    if !has_upper(s) {
        s
    } else if has_acronym_run(s) {
        acr_convert(s)
    } else {
        pc_convert(s)
    }
}

/// Whether the name contains an uppercase letter, which is exactly when
/// conversion would change anything about its classification.
pub fn needs_conversion(filename: &str) -> (r: bool)
    ensures
        r == has_upper(filename@),
{
    let v = str_chars(filename);
    has_upper_chars(&v)
}

pub(crate) fn has_upper_chars(v: &Vec<char>) -> (r: bool)
    ensures
        r == has_upper(v@),
{
    let mut i: usize = 0;
    while i < v.len()
        invariant
            i <= v@.len(),
            !has_upper(v@.take(i as int)),
        decreases v@.len() - i,
    {
        if char_is_upper(v[i]) {
            proof {
                assert(is_upper(v@[i as int]));
            }
            return true;
        }
        proof {
            let t = v@.take(i as int + 1);
            assert forall|j: int| 0 <= j < t.len() implies !is_upper(t[j]) by {
                if j < i as int {
                    assert(t[j] == v@.take(i as int)[j]);
                    assert(!has_upper(v@.take(i as int)));
                } else {
                    assert(t[j] == v@[i as int]);
                }
            }
        }
        i += 1;
    }
    proof {
        assert(v@.take(v@.len() as int) =~= v@);
        assert forall|j: int| 0 <= j < v@.len() implies !is_upper(v@[j]) by {
            assert(!has_upper(v@.take(v@.len() as int)));
        }
    }
    false
}

/// The case family of a base name.
pub fn detect_case(s: &str) -> (r: Case)
    ensures
        r == classify(s@),
{
    let v = str_chars(s);
    detect_chars(&v)
}

pub(crate) fn detect_chars(v: &Vec<char>) -> (r: Case)
    ensures
        r == classify(v@),
{
    let mut seen_upper: bool = false;
    let mut prev_upper: bool = false;
    let mut first_upper: bool = false;
    let mut i: usize = 0;
    while i < v.len()
        invariant
            i <= v@.len(),
            seen_upper == has_upper(v@.take(i as int)),
            prev_upper == (i > 0 && is_upper(v@[i as int - 1])),
            first_upper == (i > 0 && is_upper(v@[0])),
            !has_acronym_run(v@.take(i as int)),
        decreases v@.len() - i,
    {
        let u = char_is_upper(v[i]);
        if u && prev_upper {
            proof {
                let w = i as int - 1;
                assert(is_upper(v@[w]) && is_upper(v@[w + 1]) && 0 <= w && w + 1 < v@.len());
            }
            return Case::Acronym;
        }
        proof {
            let t = v@.take(i as int + 1);
            assert(t[i as int] == v@[i as int]);
            if u {
                assert(has_upper(t));
            } else if seen_upper {
                let w = choose|j: int| 0 <= j < i as int && is_upper(#[trigger] v@.take(i as int)[j]);
                assert(is_upper(t[w]));
            } else {
                assert forall|j: int| 0 <= j < t.len() implies !is_upper(t[j]) by {
                    if j < i as int {
                        assert(t[j] == v@.take(i as int)[j]);
                    }
                }
            }
            assert forall|j: int| 0 <= j && j + 1 < t.len() implies
                !(is_upper(#[trigger] t[j]) && is_upper(t[j + 1])) by {
                if j + 1 < i as int {
                    assert(t[j] == v@.take(i as int)[j] && t[j + 1] == v@.take(i as int)[j + 1]);
                    assert(!has_acronym_run(v@.take(i as int)));
                } else {
                    assert(j + 1 == i as int);
                    assert(t[j + 1] == v@[i as int]);
                    assert(!(u && prev_upper));
                }
            }
        }
        seen_upper = seen_upper || u;
        if i == 0 {
            first_upper = u;
        }
        prev_upper = u;
        i += 1;
    }
    proof {
        assert(v@.take(v@.len() as int) =~= v@);
        if seen_upper && !has_acronym_run(v@) {
            assert(v@.len() > 0);
        }
    }
    if !seen_upper {
        Case::Kebab
    } else if first_upper {
        Case::Pascal
    } else {
        Case::Camel
    }
}

pub(crate) fn pc_chars(v: &Vec<char>) -> (r: Vec<char>)
    ensures
        r@ == pc_convert(v@),
{
    let mut r: Vec<char> = Vec::new();
    if v.len() == 0 {
        proof {
            assert(r@ =~= pc_convert(v@));
        }
        return r;
    }
    r.push(char_lower_first(v[0]));
    proof {
        assert(r@ =~= seq![lower1(v@[0])]);
        assert(r@ + pc_tail(v@.skip(1)) =~= pc_convert(v@));
    }
    let mut i: usize = 1;
    while i < v.len()
        invariant
            1 <= i <= v@.len(),
            v@.len() >= 1,
            r@ + pc_tail(v@.skip(i as int)) == pc_convert(v@),
        decreases v@.len() - i,
    {
        let ghost r0 = r@;
        let c = v[i];
        if char_is_upper(c) {
            r.push('-');
            r.push(char_lower_first(c));
        } else {
            r.push(c);
        }
        proof {
            let rest = v@.skip(i as int);
            assert(rest.len() > 0);
            assert(rest[0] == v@[i as int]);
            assert(rest.skip(1) =~= v@.skip(i as int + 1));
            assert(pc_tail(rest) == dash_lower(rest[0]) + pc_tail(rest.skip(1)));
            assert(r@ =~= r0 + dash_lower(v@[i as int]));
            assert(r@ + pc_tail(v@.skip(i as int + 1)) =~= r0 + pc_tail(rest));
        }
        i += 1;
    }
    proof {
        assert(v@.skip(v@.len() as int) =~= Seq::<char>::empty());
        assert(pc_tail(Seq::<char>::empty()) =~= Seq::<char>::empty());
        assert(r@ + Seq::<char>::empty() =~= r@);
    }
    r
}

/// The Pascal conversion: lowercase the first character, and put a dash
/// before the lowercase form of every later uppercase letter.
pub fn pascal_to_kebab(s: &str) -> (r: String)
    ensures
        r@ == pc_convert(s@),
{
    let v = str_chars(s);
    let out = pc_chars(&v);
    chars_to_string(&out)
}

/// The camel conversion, which follows the same rule as the Pascal one: the
/// first character happens to be lowercase already.
pub fn camel_to_kebab(s: &str) -> (r: String)
    ensures
        r@ == pc_convert(s@),
{
    let v = str_chars(s);
    let out = pc_chars(&v);
    chars_to_string(&out)
}

/// The lowercase form of a buffered run of uppercase letters.
pub(crate) fn run_lower(buf: &Vec<char>) -> (r: Vec<char>)
    ensures
        r@ == lower_run(buf@),
{
    let s = chars_to_string(buf);
    let low = str_to_lower(s.as_str());
    str_chars(low.as_str())
}

fn xml_at(buf: &Vec<char>, pos: usize) -> (r: bool)
    requires
        pos <= buf@.len(),
    ensures
        r == starts_run_with(buf@.skip(pos as int), xml_pat()),
{
    let n = buf.len();
    let ghost rest = buf@.skip(pos as int);
    let r = n - pos >= 3 && buf[pos] == 'X' && buf[pos + 1] == 'M' && buf[pos + 2] == 'L';
    proof {
        if r {
            assert(rest.take(3) =~= xml_pat());
        } else if starts_run_with(rest, xml_pat()) {
            assert(rest.take(3) == xml_pat());
            assert(rest.take(3)[0] == 'X' && rest.take(3)[1] == 'M' && rest.take(3)[2] == 'L');
            assert(buf@[pos as int] == 'X' && buf@[pos as int + 1] == 'M' && buf@[pos as int + 2]
                == 'L');
        }
    }
    r
}

fn http_at(buf: &Vec<char>, pos: usize) -> (r: bool)
    requires
        pos <= buf@.len(),
    ensures
        r == starts_run_with(buf@.skip(pos as int), http_pat()),
{
    let n = buf.len();
    let ghost rest = buf@.skip(pos as int);
    let r = n - pos >= 4 && buf[pos] == 'H' && buf[pos + 1] == 'T' && buf[pos + 2] == 'T' && buf[pos
        + 3] == 'P';
    proof {
        if r {
            assert(rest.take(4) =~= http_pat());
        } else if starts_run_with(rest, http_pat()) {
            assert(rest.take(4) == http_pat());
            assert(rest.take(4)[0] == 'H' && rest.take(4)[1] == 'T' && rest.take(4)[2] == 'T'
                && rest.take(4)[3] == 'P');
            assert(buf@[pos as int] == 'H' && buf@[pos as int + 1] == 'T' && buf@[pos as int + 2]
                == 'T' && buf@[pos as int + 3] == 'P');
        }
    }
    r
}

fn api_at(buf: &Vec<char>, pos: usize) -> (r: bool)
    requires
        pos <= buf@.len(),
    ensures
        r == starts_run_with(buf@.skip(pos as int), api_pat()),
{
    let n = buf.len();
    let ghost rest = buf@.skip(pos as int);
    let r = n - pos >= 3 && buf[pos] == 'A' && buf[pos + 1] == 'P' && buf[pos + 2] == 'I';
    proof {
        if r {
            assert(rest.take(3) =~= api_pat());
        } else if starts_run_with(rest, api_pat()) {
            assert(rest.take(3) == api_pat());
            assert(rest.take(3)[0] == 'A' && rest.take(3)[1] == 'P' && rest.take(3)[2] == 'I');
            assert(buf@[pos as int] == 'A' && buf@[pos as int + 1] == 'P' && buf@[pos as int + 2]
                == 'I');
        }
    }
    r
}

fn known_at(buf: &Vec<char>, pos: usize) -> (r: Option<usize>)
    requires
        pos <= buf@.len(),
    ensures
        ({
            let rest = buf@.skip(pos as int);
            if starts_run_with(rest, xml_pat()) {
                r == Some(3usize)
            } else if starts_run_with(rest, http_pat()) {
                r == Some(4usize)
            } else if starts_run_with(rest, api_pat()) {
                r == Some(3usize)
            } else {
                r is None
            }
        }),
{
    if xml_at(buf, pos) {
        Some(3)
    } else if http_at(buf, pos) {
        Some(4)
    } else if api_at(buf, pos) {
        Some(3)
    } else {
        None
    }
}

/// A whole run of uppercase letters split into tokens, lowercased, and
/// appended to `out` with a dash between adjacent tokens.
fn flush_tokens(buf: &Vec<char>, out: &mut Vec<char>)
    ensures
        final(out)@ == old(out)@ + join_dash(split_run(buf@)),
{
    let mut pos: usize = 0;
    let mut first: bool = true;
    proof {
        assert(buf@.skip(0) =~= buf@);
    }
    while pos < buf.len()
        invariant
            pos <= buf@.len(),
            out@ + join_dash_rest(split_run(buf@.skip(pos as int)), first) == old(out)@
                + join_dash(split_run(buf@)),
        decreases buf@.len() - pos,
    {
        let ghost o0 = out@;
        let ghost rest = buf@.skip(pos as int);
        let ghost pre = if first {
            Seq::<char>::empty()
        } else {
            seq!['-']
        };
        match known_at(buf, pos) {
            Some(l) => {
                if !first {
                    out.push('-');
                }
                let tokv = subvec(buf, pos, pos + l);
                let mut tok = run_lower(&tokv);
                out.append(&mut tok);
                proof {
                    let ts = split_run(rest);
                    if starts_run_with(rest, xml_pat()) {
                        assert(ts == seq![xml_pat()] + split_run(rest.skip(3)));
                        assert(xml_pat() == rest.take(l as int));
                    } else if starts_run_with(rest, http_pat()) {
                        assert(ts == seq![http_pat()] + split_run(rest.skip(4)));
                        assert(http_pat() == rest.take(l as int));
                    } else {
                        assert(starts_run_with(rest, api_pat()));
                        assert(ts == seq![api_pat()] + split_run(rest.skip(3)));
                        assert(api_pat() == rest.take(l as int));
                    }
                    assert(ts[0] == rest.take(l as int));
                    assert(ts.skip(1) =~= split_run(rest.skip(l as int)));
                    assert(rest.take(l as int) =~= buf@.subrange(pos as int, pos as int + l as int));
                    assert(rest.skip(l as int) =~= buf@.skip(pos as int + l as int));
                    assert(join_dash_rest(ts, first) == pre + lower_run(ts[0]) + join_dash_rest(
                        ts.skip(1),
                        false,
                    ));
                    assert(out@ =~= o0 + pre + lower_run(rest.take(l as int)));
                    assert(out@ + join_dash_rest(split_run(buf@.skip(pos as int + l as int)), false)
                        =~= o0 + join_dash_rest(ts, first));
                }
                pos += l;
                first = false;
            },
            None => {
                if !first {
                    out.push('-');
                }
                let tokv = subvec(buf, pos, buf.len());
                let mut tok = run_lower(&tokv);
                out.append(&mut tok);
                proof {
                    let ts = split_run(rest);
                    assert(rest.len() > 0);
                    assert(ts == seq![rest]);
                    assert(rest =~= buf@.subrange(pos as int, buf@.len() as int));
                    assert(seq![rest].skip(1) =~= Seq::<Seq<char>>::empty());
                    assert(join_dash_rest(ts, first) == pre + lower_run(rest) + join_dash_rest(
                        Seq::<Seq<char>>::empty(),
                        false,
                    ));
                    assert(join_dash_rest(Seq::<Seq<char>>::empty(), false)
                        == Seq::<char>::empty());
                    assert(out@ =~= o0 + pre + lower_run(rest));
                    assert(buf@.skip(buf@.len() as int) =~= Seq::<char>::empty());
                    assert(out@ + join_dash_rest(split_run(buf@.skip(buf@.len() as int)), false)
                        =~= o0 + join_dash_rest(ts, first));
                }
                pos = buf.len();
                first = false;
            },
        }
    }
    proof {
        assert(buf@.skip(buf@.len() as int) =~= Seq::<char>::empty());
        assert(join_dash_rest(split_run(Seq::<char>::empty()), first) == Seq::<char>::empty());
        assert(out@ + Seq::<char>::empty() =~= out@);
    }
}

pub(crate) fn acr_chars(v: &Vec<char>) -> (r: Vec<char>)
    ensures
        r@ == acr_convert(v@),
{
    let mut r: Vec<char> = Vec::new();
    let mut buf: Vec<char> = Vec::new();
    let mut prev_lower: bool = false;
    let mut i: usize = 0;
    proof {
        assert(v@.skip(0) =~= v@);
    }
    while i < v.len()
        invariant
            i <= v@.len(),
            r@ + acr_rec(v@.skip(i as int), buf@, prev_lower) == acr_convert(v@),
        decreases v@.len() - i,
    {
        let ghost r0 = r@;
        let ghost buf0 = buf@;
        let ghost pl0 = prev_lower;
        let c = v[i];
        if char_is_upper(c) {
            if prev_lower {
                r.push('-');
            }
            buf.push(c);
            prev_lower = false;
        } else {
            if buf.len() > 0 {
                let bl = buf.len();
                let prefix = subvec(&buf, 0, bl - 1);
                flush_tokens(&prefix, &mut r);
                if prefix.len() > 0 {
                    r.push('-');
                }
                r.push(char_lower_first(buf[bl - 1]));
                buf.clear();
            }
            r.push(c);
            prev_lower = true;
        }
        proof {
            let rest = v@.skip(i as int);
            assert(rest.len() > 0);
            assert(rest[0] == v@[i as int]);
            assert(rest.skip(1) =~= v@.skip(i as int + 1));
            if is_upper(v@[i as int]) {
                assert(buf@ =~= buf0.push(v@[i as int]));
                if pl0 {
                    assert(r@ =~= r0 + seq!['-']);
                } else {
                    assert(r@ =~= r0 + Seq::<char>::empty());
                }
                assert(acr_rec(rest, buf0, pl0) == (if pl0 {
                    seq!['-']
                } else {
                    Seq::<char>::empty()
                }) + acr_rec(rest.skip(1), buf0.push(rest[0]), false));
                assert(r@ + acr_rec(v@.skip(i as int + 1), buf@, false) =~= r0 + acr_rec(
                    rest,
                    buf0,
                    pl0,
                ));
            } else {
                assert(buf@ =~= Seq::<char>::empty());
                let flush = if buf0.len() > 0 {
                    let prefix = buf0.take(buf0.len() - 1);
                    join_dash(split_run(prefix)) + (if prefix.len() > 0 {
                        seq!['-']
                    } else {
                        Seq::<char>::empty()
                    }) + seq![lower1(buf0[buf0.len() - 1])]
                } else {
                    Seq::<char>::empty()
                };
                if buf0.len() > 0 {
                    assert(buf0.subrange(0, buf0.len() - 1) =~= buf0.take(buf0.len() - 1));
                }
                assert(r@ =~= r0 + flush + seq![v@[i as int]]);
                assert(acr_rec(rest, buf0, pl0) == flush + seq![rest[0]] + acr_rec(
                    rest.skip(1),
                    Seq::empty(),
                    true,
                ));
                assert(r@ + acr_rec(v@.skip(i as int + 1), buf@, true) =~= r0 + acr_rec(
                    rest,
                    buf0,
                    pl0,
                ));
            }
        }
        i += 1;
    }
    let ghost rloop = r@;
    let ghost bufend = buf@;
    flush_tokens(&buf, &mut r);
    proof {
        assert(v@.skip(v@.len() as int) =~= Seq::<char>::empty());
        assert(r@ =~= rloop + join_dash(split_run(bufend)));
    }
    r
}

/// The acronym conversion: maximal runs of uppercase letters are split into
/// lowercase tokens, a run followed by another word gives its last letter to
/// that word, and one dash stands between adjacent tokens.
pub fn acronym_to_kebab(s: &str) -> (r: String)
    ensures
        r@ == acr_convert(s@),
{
    let v = str_chars(s);
    let out = acr_chars(&v);
    chars_to_string(&out)
}

pub(crate) fn smart_chars(v: &Vec<char>) -> (r: Vec<char>)
    ensures
        r@ == smart_convert(v@),
{
    let case = detect_chars(v);
    match case {
        Case::Kebab => {
            let mut r: Vec<char> = Vec::new();
            let mut i: usize = 0;
            while i < v.len()
                invariant
                    i <= v@.len(),
                    r@ == v@.take(i as int),
                decreases v@.len() - i,
            {
                r.push(v[i]);
                proof {
                    assert(v@.take(i as int).push(v@[i as int]) =~= v@.take(i as int + 1));
                }
                i += 1;
            }
            proof {
                assert(v@.take(v@.len() as int) =~= v@);
            }
            r
        },
        Case::Acronym => acr_chars(v),
        Case::Pascal => pc_chars(v),
        Case::Camel => pc_chars(v),
    }
}

/// The whole converter: classify the base name and apply the conversion of
/// its family; a name with no uppercase letter comes back unchanged.
pub fn pascal_to_kebab_smart(filename: &str) -> (r: String)
    ensures
        r@ == smart_convert(filename@),
{
    let v = str_chars(filename);
    let out = smart_chars(&v);
    chars_to_string(&out)
}

pub open spec fn seq_avoids(s: Seq<char>, bad: Set<char>) -> bool {
    forall|k: int| 0 <= k < s.len() ==> !bad.contains(#[trigger] s[k])
}

/// Lowercasing any contiguous part of `s` as a run yields no character of
/// `bad`.
pub open spec fn run_good(s: Seq<char>, bad: Set<char>) -> bool {
    forall|i: int, j: int|
        0 <= i <= j <= s.len() ==> seq_avoids(lower_run(#[trigger] s.subrange(i, j)), bad)
}

/// The characters of `s` keep the conversion away from the set `bad`: no
/// lowercased character, no passed-through character, no lowercased run and
/// no inserted dash lands in it.  Every all-ASCII name satisfies this for
/// the set of uppercase characters.
pub open spec fn chars_tame(s: Seq<char>, bad: Set<char>) -> bool {
    &&& !bad.contains('-')
    &&& forall|i: int| 0 <= i < s.len() ==> !bad.contains(lower1(#[trigger] s[i]))
    &&& forall|i: int| 0 <= i < s.len() && !is_upper(#[trigger] s[i]) ==> !bad.contains(s[i])
    &&& run_good(s, bad)
}

proof fn lemma_avoids_concat(a: Seq<char>, b: Seq<char>, bad: Set<char>)
    requires
        seq_avoids(a, bad),
        seq_avoids(b, bad),
    ensures
        seq_avoids(a + b, bad),
{
    assert forall|k: int| 0 <= k < (a + b).len() implies !bad.contains(#[trigger] (a + b)[k]) by {
        if k < a.len() {
            assert((a + b)[k] == a[k]);
        } else {
            assert((a + b)[k] == b[k - a.len()]);
        }
    }
}

proof fn lemma_pc_tail_avoids(s: Seq<char>, bad: Set<char>)
    requires
        !bad.contains('-'),
        forall|i: int| 0 <= i < s.len() ==> !bad.contains(lower1(#[trigger] s[i])),
        forall|i: int| 0 <= i < s.len() && !is_upper(#[trigger] s[i]) ==> !bad.contains(s[i]),
    ensures
        seq_avoids(pc_tail(s), bad),
    decreases s.len(),
{
    if s.len() == 0 {
    } else {
        let rest = s.skip(1);
        assert forall|i: int| 0 <= i < rest.len() implies !bad.contains(
            lower1(#[trigger] rest[i]),
        ) by {
            assert(rest[i] == s[i + 1]);
        }
        assert forall|i: int| 0 <= i < rest.len() && !is_upper(#[trigger] rest[i]) implies !bad
            .contains(rest[i]) by {
            assert(rest[i] == s[i + 1]);
        }
        lemma_pc_tail_avoids(rest, bad);
        assert(seq_avoids(dash_lower(s[0]), bad));
        lemma_avoids_concat(dash_lower(s[0]), pc_tail(rest), bad);
    }
}

proof fn lemma_join_split_avoids(r: Seq<char>, first: bool, bad: Set<char>)
    requires
        !bad.contains('-'),
        forall|i: int, j: int|
            0 <= i <= j <= r.len() ==> seq_avoids(lower_run(#[trigger] r.subrange(i, j)), bad),
    ensures
        seq_avoids(join_dash_rest(split_run(r), first), bad),
    decreases r.len(),
{
    let pre = if first {
        Seq::<char>::empty()
    } else {
        seq!['-']
    };
    assert(seq_avoids(pre, bad));
    if r.len() == 0 {
    } else if starts_run_with(r, xml_pat()) || starts_run_with(r, http_pat()) || starts_run_with(
        r,
        api_pat(),
    ) {
        let l: int = if starts_run_with(r, xml_pat()) {
            3
        } else if starts_run_with(r, http_pat()) {
            4
        } else {
            3
        };
        let ts = split_run(r);
        assert(ts[0] == r.take(l) && ts.skip(1) =~= split_run(r.skip(l)));
        assert(r.take(l) =~= r.subrange(0, l));
        assert(seq_avoids(lower_run(ts[0]), bad));
        assert forall|i: int, j: int| 0 <= i <= j <= r.skip(l).len() implies seq_avoids(
            lower_run(#[trigger] r.skip(l).subrange(i, j)),
            bad,
        ) by {
            assert(r.skip(l).subrange(i, j) =~= r.subrange(i + l, j + l));
        }
        lemma_join_split_avoids(r.skip(l), false, bad);
        lemma_avoids_concat(pre, lower_run(ts[0]), bad);
        lemma_avoids_concat(pre + lower_run(ts[0]), join_dash_rest(ts.skip(1), false), bad);
        assert(join_dash_rest(ts, first) == pre + lower_run(ts[0]) + join_dash_rest(
            ts.skip(1),
            false,
        ));
    } else {
        let ts = split_run(r);
        assert(ts == seq![r]);
        assert(r.subrange(0, r.len() as int) =~= r);
        assert(seq_avoids(lower_run(r), bad));
        assert(seq![r].skip(1) =~= Seq::<Seq<char>>::empty());
        lemma_avoids_concat(pre, lower_run(r), bad);
        assert(ts[0] == r);
        assert(join_dash_rest(Seq::<Seq<char>>::empty(), false) == Seq::<char>::empty());
        assert(join_dash_rest(ts, first) == pre + lower_run(ts[0]) + join_dash_rest(
            ts.skip(1),
            false,
        ));
        assert(join_dash_rest(ts, first) =~= pre + lower_run(r));
    }
}

proof fn lemma_acr_rec_avoids(s: Seq<char>, buf: Seq<char>, prev_lower: bool, bad: Set<char>)
    requires
        !bad.contains('-'),
        forall|i: int| 0 <= i < (buf + s).len() ==> !bad.contains(lower1(#[trigger] (buf + s)[i])),
        forall|i: int|
            0 <= i < (buf + s).len() && !is_upper(#[trigger] (buf + s)[i]) ==> !bad.contains(
                (buf + s)[i],
            ),
        run_good(buf + s, bad),
    ensures
        seq_avoids(acr_rec(s, buf, prev_lower), bad),
    decreases s.len(),
{
    let w = buf + s;
    if s.len() == 0 {
        assert(w =~= buf);
        lemma_join_split_avoids(buf, true, bad);
    } else {
        let rest = s.skip(1);
        if is_upper(s[0]) {
            let buf2 = buf.push(s[0]);
            assert(buf2 + rest =~= w);
            lemma_acr_rec_avoids(rest, buf2, false, bad);
            let pre = if prev_lower {
                seq!['-']
            } else {
                Seq::<char>::empty()
            };
            assert(seq_avoids(pre, bad));
            lemma_avoids_concat(pre, acr_rec(rest, buf2, false), bad);
        } else {
            let flush = if buf.len() > 0 {
                let prefix = buf.take(buf.len() - 1);
                join_dash(split_run(prefix)) + (if prefix.len() > 0 {
                    seq!['-']
                } else {
                    Seq::<char>::empty()
                }) + seq![lower1(buf[buf.len() - 1])]
            } else {
                Seq::<char>::empty()
            };
            if buf.len() > 0 {
                let prefix = buf.take(buf.len() - 1);
                assert forall|i: int, j: int| 0 <= i <= j <= prefix.len() implies seq_avoids(
                    lower_run(#[trigger] prefix.subrange(i, j)),
                    bad,
                ) by {
                    assert(prefix.subrange(i, j) =~= w.subrange(i, j));
                }
                lemma_join_split_avoids(prefix, true, bad);
                assert(w[buf.len() - 1] == buf[buf.len() - 1]);
                assert(seq_avoids(seq![lower1(buf[buf.len() - 1])], bad));
                let mid = if prefix.len() > 0 {
                    seq!['-']
                } else {
                    Seq::<char>::empty()
                };
                assert(seq_avoids(mid, bad));
                lemma_avoids_concat(join_dash(split_run(prefix)), mid, bad);
                lemma_avoids_concat(
                    join_dash(split_run(prefix)) + mid,
                    seq![lower1(buf[buf.len() - 1])],
                    bad,
                );
                assert(flush =~= join_dash(split_run(prefix)) + mid + seq![
                    lower1(buf[buf.len() - 1]),
                ]);
            }
            assert(seq_avoids(flush, bad));
            assert(w[buf.len() as int] == s[0]);
            assert(seq_avoids(seq![s[0]], bad));
            assert forall|i: int| 0 <= i < (Seq::<char>::empty() + rest).len() implies !bad
                .contains(lower1(#[trigger] (Seq::<char>::empty() + rest)[i])) by {
                assert((Seq::<char>::empty() + rest)[i] == w[buf.len() + 1 + i]);
            }
            assert forall|i: int|
                0 <= i < (Seq::<char>::empty() + rest).len() && !is_upper(
                    #[trigger] (Seq::<char>::empty() + rest)[i],
                ) implies !bad.contains((Seq::<char>::empty() + rest)[i]) by {
                assert((Seq::<char>::empty() + rest)[i] == w[buf.len() + 1 + i]);
            }
            assert forall|i: int, j: int|
                0 <= i <= j <= (Seq::<char>::empty() + rest).len() implies seq_avoids(
                lower_run(#[trigger] (Seq::<char>::empty() + rest).subrange(i, j)),
                bad,
            ) by {
                assert((Seq::<char>::empty() + rest).subrange(i, j) =~= w.subrange(
                    buf.len() + 1 + i,
                    buf.len() + 1 + j,
                ));
            }
            lemma_acr_rec_avoids(rest, Seq::empty(), true, bad);
            lemma_avoids_concat(flush, seq![s[0]], bad);
            lemma_avoids_concat(flush + seq![s[0]], acr_rec(rest, Seq::empty(), true), bad);
            assert(flush + seq![s[0]] + acr_rec(rest, Seq::empty(), true) =~= acr_rec(
                s,
                buf,
                prev_lower,
            ));
        }
    }
}

/// The conversion of a tame name yields no character of `bad`.
pub proof fn lemma_smart_avoids(s: Seq<char>, bad: Set<char>)
    requires
        chars_tame(s, bad),
    ensures
        seq_avoids(smart_convert(s), bad),
{
    if !has_upper(s) {
        assert forall|k: int| 0 <= k < s.len() implies !bad.contains(#[trigger] s[k]) by {
            assert(!is_upper(s[k]));
        }
    } else if has_acronym_run(s) {
        assert(Seq::<char>::empty() + s =~= s);
        lemma_acr_rec_avoids(s, Seq::empty(), false, bad);
    } else {
        assert(s.len() > 0);
        let rest = s.skip(1);
        assert forall|i: int| 0 <= i < rest.len() implies !bad.contains(
            lower1(#[trigger] rest[i]),
        ) by {
            assert(rest[i] == s[i + 1]);
        }
        assert forall|i: int| 0 <= i < rest.len() && !is_upper(#[trigger] rest[i]) implies !bad
            .contains(rest[i]) by {
            assert(rest[i] == s[i + 1]);
        }
        lemma_pc_tail_avoids(rest, bad);
        assert(seq_avoids(seq![lower1(s[0])], bad));
        lemma_avoids_concat(seq![lower1(s[0])], pc_tail(rest), bad);
    }
}

pub open spec fn upper_chars() -> Set<char> {
    Set::new(|c: char| is_upper(c))
}

/// Lowercase closure: the converter's output contains no uppercase letter,
/// for every name whose characters lowercase away from uppercase (every
/// all-ASCII name does).
pub proof fn lemma_smart_convert_no_upper(s: Seq<char>)
    requires
        chars_tame(s, upper_chars()),
    ensures
        no_upper(smart_convert(s)),
{
    lemma_smart_avoids(s, upper_chars());
    assert forall|i: int| 0 <= i < smart_convert(s).len() implies !is_upper(
        #[trigger] smart_convert(s)[i],
    ) by {
        assert(!upper_chars().contains(smart_convert(s)[i]));
    }
}

/// No-uppercase short-circuit: a name without uppercase letters comes back
/// exactly as it was.
pub proof fn lemma_smart_convert_identity(s: Seq<char>)
    requires
        no_upper(s),
    ensures
        smart_convert(s) == s,
{
    assert(!has_upper(s)) by {
        if has_upper(s) {
            let i = choose|i: int| 0 <= i < s.len() && is_upper(#[trigger] s[i]);
            assert(!is_upper(s[i]));
        }
    }
}

/// Idempotence: converting a converted name changes nothing more, for every
/// tame name.
pub proof fn lemma_smart_convert_idempotent(s: Seq<char>)
    requires
        chars_tame(s, upper_chars()),
    ensures
        smart_convert(smart_convert(s)) == smart_convert(s),
{
    lemma_smart_convert_no_upper(s);
    lemma_smart_convert_identity(smart_convert(s));
}

/// Every all-ASCII name is tame for the set of uppercase characters.
pub proof fn lemma_ascii_tame_upper(s: Seq<char>)
    requires
        ascii_seq(s),
    ensures
        chars_tame(s, upper_chars()),
{
    assert(('-' as int) == 45);
    assert(!upper_chars().contains('-'));
    assert forall|i: int| 0 <= i < s.len() implies !upper_chars().contains(
        lower1(#[trigger] s[i]),
    ) by {
        lemma_ascii_lower1_not_upper(s[i]);
    }
    assert forall|i: int, j: int| 0 <= i <= j <= s.len() implies seq_avoids(
        lower_run(#[trigger] s.subrange(i, j)),
        upper_chars(),
    ) by {
        let t = s.subrange(i, j);
        assert(ascii_seq(t));
        assert(lower_run(t) == lower_seq(t));
        assert forall|k: int| 0 <= k < lower_seq(t).len() implies !upper_chars().contains(
            #[trigger] lower_seq(t)[k],
        ) by {
            assert(lower_seq(t)[k] == lower1(t[k]));
            lemma_ascii_lower1_not_upper(t[k]);
        }
    }
}

proof fn lemma_ascii_lower1_not_upper(c: char)
    requires
        ascii_char(c),
    ensures
        !is_upper(lower1(c)),
{
    if 65 <= c as int && c as int <= 90 {
        lemma_ascii_lower_value(c);
    }
}

} // verus!

