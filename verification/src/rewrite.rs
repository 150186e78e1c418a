//! The import-statement path rewriter: locating import and require
//! specifiers in source text, splitting each specifier into `/`-separated
//! segments, and converting the name part of each segment to kebab-case
//! while keeping relative-path markers, extensions, quoting and surrounding
//! syntax.

use vstd::prelude::*;

use crate::case::chars_tame;
use crate::case::has_upper;
use crate::case::has_upper_chars;
use crate::case::lemma_smart_avoids;
use crate::case::seq_avoids;
use crate::case::smart_chars;
use crate::case::smart_convert;
use crate::chars::ascii_char;
use crate::chars::ascii_seq;
use crate::chars::is_upper;
use crate::chars::lower1;
use crate::chars::lower_run;
use crate::chars::lower_seq;
use crate::chars::subvec;
use crate::chars::str_chars;
use crate::chars::chars_to_string;

verus! {

/// The position of the first occurrence of `c` in `s` at or after `j`.
pub open spec fn first_at_from(s: Seq<char>, c: char, j: int) -> Option<int>
    decreases s.len() - j,
{
    if j < 0 || j >= s.len() {
        Option::None
    } else if s[j] == c {
        Option::Some(j)
    } else {
        first_at_from(s, c, j + 1)
    }
}

pub proof fn lemma_first_at_found(s: Seq<char>, c: char, j: int, d: int)
    requires
        0 <= j <= d < s.len(),
        forall|k: int| j <= k < d ==> s[k] != c,
        s[d] == c,
    ensures
        first_at_from(s, c, j) == Option::Some(d),
    decreases d - j,
{
    if j < d {
        lemma_first_at_found(s, c, j + 1, d);
    }
}

pub proof fn lemma_first_at_none(s: Seq<char>, c: char, j: int)
    requires
        0 <= j,
        forall|k: int| j <= k < s.len() ==> s[k] != c,
    ensures
        first_at_from(s, c, j) is None,
    decreases s.len() - j,
{
    if j < s.len() {
        lemma_first_at_none(s, c, j + 1);
    }
}

pub proof fn lemma_first_at_props(s: Seq<char>, c: char, j: int)
    requires
        0 <= j,
    ensures
        first_at_from(s, c, j) matches Option::Some(d) ==> j <= d < s.len() && s[d] == c
            && forall|k: int| j <= k < d ==> s[k] != c,
        first_at_from(s, c, j) is None ==> forall|k: int| j <= k < s.len() ==> s[k] != c,
    decreases s.len() - j,
{
    if j < s.len() && s[j] != c {
        lemma_first_at_props(s, c, j + 1);
    }
}

/// The first occurrence of `c` in `v` at or after `from`.
pub(crate) fn find_char(v: &Vec<char>, c: char, from: usize) -> (r: Option<usize>)
    requires
        from <= v@.len(),
    ensures
        r matches Some(d) ==> first_at_from(v@, c, from as int) == Option::Some(d as int)
            && from <= d < v@.len(),
        r is None ==> first_at_from(v@, c, from as int) is None,
{
    let mut k = from;
    while k < v.len()
        invariant
            from <= k <= v@.len(),
            first_at_from(v@, c, from as int) == first_at_from(v@, c, k as int),
        decreases v@.len() - k,
    {
        if v[k] == c {
            return Some(k);
        }
        k += 1;
    }
    None
}

/// A relative-path marker segment: `.` or `..`.
pub open spec fn dot_segment(seg: Seq<char>) -> bool {
    seg == seq!['.'] || seg == seq!['.', '.']
}

/// The name part of a segment: everything before its first `.`, or the whole
/// segment when it has none.
pub open spec fn seg_name(seg: Seq<char>) -> Seq<char> {
    match first_at_from(seg, '.', 0) {
        Option::None => seg,
        Option::Some(d) => seg.take(d),
    }
}

/// Whether the rewriter changes this segment: never for `.` and `..`, and
/// otherwise exactly when the name part has an uppercase letter.
pub open spec fn seg_changed(seg: Seq<char>) -> bool {
    !dot_segment(seg) && has_upper(seg_name(seg))
}

/// What the rewriter makes of one segment: the converted name with the
/// extension tail kept verbatim, or the segment unchanged.
pub open spec fn seg_new(seg: Seq<char>) -> Seq<char> {
    if !seg_changed(seg) {
        seg
    } else {
        match first_at_from(seg, '.', 0) {
            Option::None => smart_convert(seg),
            Option::Some(d) => smart_convert(seg.take(d)) + seq!['.'] + seg.skip(d + 1),
        }
    }
}

/// What the rewriter makes of a whole specifier, segment by segment.
pub open spec fn path_new(p: Seq<char>) -> Seq<char>
    decreases p.len(),
{
    match first_at_from(p, '/', 0) {
        Option::None => seg_new(p),
        Option::Some(d) => if 0 <= d < p.len() {
            seg_new(p.take(d)) + seq!['/'] + path_new(p.skip(d + 1))
        } else {
            seg_new(p)
        },
    }
}

/// How many segments of a specifier the rewriter changes.
pub open spec fn path_count(p: Seq<char>) -> nat
    decreases p.len(),
{
    match first_at_from(p, '/', 0) {
        Option::None => if seg_changed(p) {
            1nat
        } else {
            0nat
        },
        Option::Some(d) => if 0 <= d < p.len() {
            (if seg_changed(p.take(d)) {
                1nat
            } else {
                0nat
            }) + path_count(p.skip(d + 1))
        } else {
            0nat
        },
    }
}

pub proof fn lemma_path_count_bound(p: Seq<char>)
    ensures
        path_count(p) <= p.len() + 1,
    decreases p.len(),
{
    match first_at_from(p, '/', 0) {
        Option::None => {},
        Option::Some(d) => {
            lemma_first_at_props(p, '/', 0);
            if 0 <= d < p.len() {
                lemma_path_count_bound(p.skip(d + 1));
            }
        },
    }
}

/// One rewritten segment and whether it changed.
pub(crate) fn rewrite_seg(seg: &Vec<char>) -> (r: (Vec<char>, bool))
    ensures
        r.0@ == seg_new(seg@),
        r.1 == seg_changed(seg@),
{
    if seg.len() == 1 && seg[0] == '.' {
        proof {
            assert(seg@ =~= seq!['.']);
        }
        return (subvec(seg, 0, seg.len()), false);
    }
    if seg.len() == 2 && seg[0] == '.' && seg[1] == '.' {
        proof {
            assert(seg@ =~= seq!['.', '.']);
        }
        return (subvec(seg, 0, seg.len()), false);
    }
    proof {
        if seg@ == seq!['.'] {
            assert(seg@.len() == 1 && seg@[0] == '.');
        }
        if seg@ == seq!['.', '.'] {
            assert(seg@.len() == 2 && seg@[0] == '.' && seg@[1] == '.');
        }
        assert(!dot_segment(seg@));
    }
    match find_char(seg, '.', 0) {
        None => {
            if has_upper_chars(seg) {
                (smart_chars(seg), true)
            } else {
                proof {
                    assert(seg@.subrange(0, seg@.len() as int) =~= seg@);
                }
                (subvec(seg, 0, seg.len()), false)
            }
        },
        Some(d) => {
            let name = subvec(seg, 0, d);
            proof {
                assert(seg@.subrange(0, d as int) =~= seg@.take(d as int));
            }
            if has_upper_chars(&name) {
                let mut out = smart_chars(&name);
                out.push('.');
                let mut tail = subvec(seg, d + 1, seg.len());
                out.append(&mut tail);
                proof {
                    assert(out@ =~= smart_convert(seg@.take(d as int)) + seq!['.'] + seg@.skip(
                        d as int + 1,
                    ));
                }
                (out, true)
            } else {
                proof {
                    assert(seg@.subrange(0, seg@.len() as int) =~= seg@);
                }
                (subvec(seg, 0, seg.len()), false)
            }
        },
    }
}

/// A rewritten specifier and its count of changed segments.
pub(crate) fn rewrite_path(p: &Vec<char>) -> (r: (Vec<char>, usize))
    requires
        p@.len() < usize::MAX,
    ensures
        r.0@ == path_new(p@),
        r.1 == path_count(p@),
        r.1 <= p@.len() + 1,
    decreases p@.len(),
{
    proof {
        lemma_path_count_bound(p@);
    }
    match find_char(p, '/', 0) {
        None => {
            let (s, ch) = rewrite_seg(p);
            (s, if ch { 1 } else { 0 })
        },
        Some(d) => {
            let head = subvec(p, 0, d);
            proof {
                assert(p@.subrange(0, d as int) =~= p@.take(d as int));
            }
            let (mut hs, hch) = rewrite_seg(&head);
            hs.push('/');
            let rest = subvec(p, d + 1, p.len());
            proof {
                lemma_path_count_bound(rest@);
            }
            let (mut ts, tc) = rewrite_path(&rest);
            hs.append(&mut ts);
            proof {
                assert(hs@ =~= seg_new(p@.take(d as int)) + seq!['/'] + path_new(p@.skip(
                    d as int + 1,
                )));
            }
            let cnt = (if hch {
                1
            } else {
                0
            }) + tc;
            (hs, cnt)
        },
    }
}

pub open spec fn is_quote(c: char) -> bool {
    c == '"' || c == '\''
}

pub open spec fn is_space(c: char) -> bool {
    c == ' ' || c == '\t' || c == '\n' || c == '\r'
}

/// A `require(` immediately followed by an opening quote, starting at `i`.
pub open spec fn require_at(s: Seq<char>, i: int) -> bool {
    &&& 0 <= i
    &&& i + 8 < s.len()
    &&& s[i] == 'r'
    &&& s[i + 1] == 'e'
    &&& s[i + 2] == 'q'
    &&& s[i + 3] == 'u'
    &&& s[i + 4] == 'i'
    &&& s[i + 5] == 'r'
    &&& s[i + 6] == 'e'
    &&& s[i + 7] == '('
    &&& is_quote(s[i + 8])
}

/// The `import` keyword followed by whitespace, starting at `i`.
pub open spec fn import_kw_at(s: Seq<char>, i: int) -> bool {
    &&& 0 <= i
    &&& i + 6 < s.len()
    &&& s[i] == 'i'
    &&& s[i + 1] == 'm'
    &&& s[i + 2] == 'p'
    &&& s[i + 3] == 'o'
    &&& s[i + 4] == 'r'
    &&& s[i + 5] == 't'
    &&& is_space(s[i + 6])
}

pub open spec fn from_at(s: Seq<char>, j: int) -> bool {
    &&& 0 <= j
    &&& j + 3 < s.len()
    &&& s[j] == 'f'
    &&& s[j + 1] == 'r'
    &&& s[j + 2] == 'o'
    &&& s[j + 3] == 'm'
}

pub open spec fn skip_spaces(s: Seq<char>, j: int) -> int
    decreases s.len() - j,
{
    if 0 <= j && j < s.len() && is_space(s[j]) {
        skip_spaces(s, j + 1)
    } else {
        j
    }
}

/// A `from`, optional whitespace and an opening quote at `j`: the position
/// of the quote.
pub open spec fn from_open(s: Seq<char>, j: int) -> Option<int> {
    if from_at(s, j) {
        let k = skip_spaces(s, j + 4);
        if k < s.len() && is_quote(s[k]) {
            Option::Some(k)
        } else {
            Option::None
        }
    } else {
        Option::None
    }
}

/// Scanning right from `j` for a `from` that leads to an opening quote,
/// giving up at the first stray quote character.
pub open spec fn find_from(s: Seq<char>, j: int) -> Option<int>
    decreases s.len() - j,
{
    if j < 0 || j >= s.len() {
        Option::None
    } else if from_open(s, j) is Some {
        from_open(s, j)
    } else if is_quote(s[j]) {
        Option::None
    } else {
        find_from(s, j + 1)
    }
}

/// The opening quote of a recognized construct starting at `i`, if any.
pub open spec fn match_open(s: Seq<char>, i: int) -> Option<int> {
    if require_at(s, i) {
        Option::Some(i + 8)
    } else if import_kw_at(s, i) {
        find_from(s, i + 7)
    } else {
        Option::None
    }
}

pub open spec fn find_quote(s: Seq<char>, j: int) -> Option<int>
    decreases s.len() - j,
{
    if j < 0 || j >= s.len() {
        Option::None
    } else if is_quote(s[j]) {
        Option::Some(j)
    } else {
        find_quote(s, j + 1)
    }
}

/// A recognized import or require construct starting at `i`: the opening
/// quote, the closing quote of its non-empty specifier, and the position
/// after the closing quote and one optional trailing `)` or `;`.
pub open spec fn match_at(s: Seq<char>, i: int) -> Option<(int, int, int)> {
    match match_open(s, i) {
        Option::None => Option::None,
        Option::Some(q) => match find_quote(s, q + 1) {
            Option::None => Option::None,
            Option::Some(e) => if e == q + 1 {
                Option::None
            } else {
                let a: int = if e + 1 < s.len() && (s[e + 1] == ')' || s[e + 1] == ';') {
                    e + 2
                } else {
                    e + 1
                };
                Option::Some((q, e, a))
            },
        },
    }
}

/// The rewritten text from position `i` on: literal text is copied, and each
/// recognized construct has the specifier between its quotes rewritten.
pub open spec fn scan_new(s: Seq<char>, i: int) -> Seq<char>
    decreases s.len() - i,
{
    if i < 0 || i >= s.len() {
        Seq::empty()
    } else {
        match match_at(s, i) {
            Option::None => seq![s[i]] + scan_new(s, i + 1),
            Option::Some(m) => if i < m.0 + 1 && m.0 + 1 < m.1 && m.1 < m.2 && m.2 <= s.len() {
                s.subrange(i, m.0 + 1) + path_new(s.subrange(m.0 + 1, m.1)) + s.subrange(m.1, m.2)
                    + scan_new(s, m.2)
            } else {
                seq![s[i]] + scan_new(s, i + 1)
            },
        }
    }
}

/// How many segments change over the whole text from position `i` on.
pub open spec fn scan_count(s: Seq<char>, i: int) -> nat
    decreases s.len() - i,
{
    if i < 0 || i >= s.len() {
        0nat
    } else {
        match match_at(s, i) {
            Option::None => scan_count(s, i + 1),
            Option::Some(m) => if i < m.0 + 1 && m.0 + 1 < m.1 && m.1 < m.2 && m.2 <= s.len() {
                path_count(s.subrange(m.0 + 1, m.1)) + scan_count(s, m.2)
            } else {
                scan_count(s, i + 1)
            },
        }
    }
}

fn exec_require_at(v: &Vec<char>, i: usize) -> (r: bool)
    ensures
        r == require_at(v@, i as int),
{
    if i >= v.len() || v.len() - i <= 8 {
        return false;
    }
    v[i] == 'r' && v[i + 1] == 'e' && v[i + 2] == 'q' && v[i + 3] == 'u' && v[i + 4] == 'i'
        && v[i + 5] == 'r' && v[i + 6] == 'e' && v[i + 7] == '(' && (v[i + 8] == '"' || v[i + 8]
        == '\'')
}

fn exec_import_kw_at(v: &Vec<char>, i: usize) -> (r: bool)
    ensures
        r == import_kw_at(v@, i as int),
{
    if i >= v.len() || v.len() - i <= 6 {
        return false;
    }
    v[i] == 'i' && v[i + 1] == 'm' && v[i + 2] == 'p' && v[i + 3] == 'o' && v[i + 4] == 'r'
        && v[i + 5] == 't' && (v[i + 6] == ' ' || v[i + 6] == '\t' || v[i + 6] == '\n' || v[i + 6]
        == '\r')
}

fn exec_skip_spaces(v: &Vec<char>, j: usize) -> (r: usize)
    requires
        j <= v@.len(),
    ensures
        r as int == skip_spaces(v@, j as int),
        j <= r <= v@.len(),
{
    let mut k = j;
    while k < v.len()
        invariant
            j <= k <= v@.len(),
            skip_spaces(v@, j as int) == skip_spaces(v@, k as int),
        decreases v@.len() - k,
    {
        if !(v[k] == ' ' || v[k] == '\t' || v[k] == '\n' || v[k] == '\r') {
            return k;
        }
        k += 1;
    }
    k
}

fn exec_from_open(v: &Vec<char>, j: usize) -> (r: Option<usize>)
    requires
        j <= v@.len(),
    ensures
        r matches Some(k) ==> from_open(v@, j as int) == Option::Some(k as int) && j < k
            < v@.len() && is_quote(v@[k as int]),
        r is None ==> from_open(v@, j as int) is None,
{
    if j >= v.len() || v.len() - j <= 3 {
        return None;
    }
    if !(v[j] == 'f' && v[j + 1] == 'r' && v[j + 2] == 'o' && v[j + 3] == 'm') {
        return None;
    }
    let k = exec_skip_spaces(v, j + 4);
    if k < v.len() {
        let c = v[k];
        if c == '"' || c == '\'' {
            return Some(k);
        }
    }
    None
}

fn exec_find_from(v: &Vec<char>, j: usize) -> (r: Option<usize>)
    requires
        j <= v@.len(),
    ensures
        r matches Some(k) ==> find_from(v@, j as int) == Option::Some(k as int) && j < k
            < v@.len() && is_quote(v@[k as int]),
        r is None ==> find_from(v@, j as int) is None,
{
    let mut t = j;
    while t < v.len()
        invariant
            j <= t <= v@.len(),
            find_from(v@, j as int) == find_from(v@, t as int),
        decreases v@.len() - t,
    {
        match exec_from_open(v, t) {
            Some(k) => {
                return Some(k);
            },
            None => {},
        }
        let c = v[t];
        if c == '"' || c == '\'' {
            return None;
        }
        t += 1;
    }
    None
}

fn exec_find_quote(v: &Vec<char>, j: usize) -> (r: Option<usize>)
    requires
        j <= v@.len(),
    ensures
        r matches Some(e) ==> find_quote(v@, j as int) == Option::Some(e as int) && j <= e
            < v@.len(),
        r is None ==> find_quote(v@, j as int) is None,
{
    let mut t = j;
    while t < v.len()
        invariant
            j <= t <= v@.len(),
            find_quote(v@, j as int) == find_quote(v@, t as int),
        decreases v@.len() - t,
    {
        let c = v[t];
        if c == '"' || c == '\'' {
            return Some(t);
        }
        t += 1;
    }
    None
}

fn try_match(v: &Vec<char>, i: usize) -> (r: Option<(usize, usize, usize)>)
    requires
        i < v@.len(),
    ensures
        r matches Some(m) ==> match_at(v@, i as int) == Option::Some(
            (m.0 as int, m.1 as int, m.2 as int),
        ) && i < m.0 + 1 && m.0 + 1 < m.1 && m.1 < m.2 && m.2 <= v@.len(),
        r is None ==> match_at(v@, i as int) is None,
{
    let n = v.len();
    let q_opt: Option<usize> = if exec_require_at(v, i) {
        Some(i + 8)
    } else if exec_import_kw_at(v, i) {
        exec_find_from(v, i + 7)
    } else {
        None
    };
    proof {
        match q_opt {
            Option::Some(q) => {
                assert(match_open(v@, i as int) == Option::Some(q as int));
            },
            Option::None => {
                assert(match_open(v@, i as int) is None);
            },
        }
    }
    match q_opt {
        None => None,
        Some(q) => {
            match exec_find_quote(v, q + 1) {
                None => None,
                Some(e) => {
                    if e == q + 1 {
                        None
                    } else {
                        let a = if e + 1 < n && (v[e + 1] == ')' || v[e + 1] == ';') {
                            e + 2
                        } else {
                            e + 1
                        };
                        Some((q, e, a))
                    }
                },
            }
        },
    }
}

/// The rewritten source text and the count of changed segments across every
/// recognized import and require specifier in it.
pub fn update_imports(content: &str) -> (r: (String, usize))
    ensures
        r.0@ == scan_new(content@, 0),
        r.1 == scan_count(content@, 0),
{
    let v = str_chars(content);
    let mut out: Vec<char> = Vec::new();
    let mut count: usize = 0;
    let mut i: usize = 0;
    while i < v.len()
        invariant
            i <= v@.len(),
            out@ + scan_new(v@, i as int) == scan_new(v@, 0),
            count + scan_count(v@, i as int) == scan_count(v@, 0),
            count <= i,
        decreases v@.len() - i,
    {
        let ghost out0 = out@;
        match try_match(&v, i) {
            None => {
                out.push(v[i]);
                proof {
                    assert(scan_new(v@, i as int) == seq![v@[i as int]] + scan_new(
                        v@,
                        i as int + 1,
                    ));
                    assert(out@ + scan_new(v@, i as int + 1) =~= out0 + scan_new(v@, i as int));
                }
                i += 1;
            },
            Some((q, e, a)) => {
                let mut pre = subvec(&v, i, q + 1);
                out.append(&mut pre);
                let spec_part = subvec(&v, q + 1, e);
                let (mut ps, pc) = rewrite_path(&spec_part);
                out.append(&mut ps);
                let mut suf = subvec(&v, e, a);
                out.append(&mut suf);
                proof {
                    let s = v@;
                    let ii = i as int;
                    let qq = q as int;
                    let ee = e as int;
                    let aa = a as int;
                    assert(scan_new(s, ii) == s.subrange(ii, qq + 1) + path_new(
                        s.subrange(qq + 1, ee),
                    ) + s.subrange(ee, aa) + scan_new(s, aa));
                    assert(scan_count(s, ii) == path_count(s.subrange(qq + 1, ee)) + scan_count(
                        s,
                        aa,
                    ));
                    assert(out@ =~= out0 + s.subrange(ii, qq + 1) + path_new(
                        s.subrange(qq + 1, ee),
                    ) + s.subrange(ee, aa));
                    assert(out@ + scan_new(s, aa) =~= out0 + scan_new(s, ii));
                }
                count = count + pc;
                i = a;
            },
        }
    }
    proof {
        assert(scan_new(v@, v@.len() as int) =~= Seq::<char>::empty());
        assert(out@ + Seq::<char>::empty() =~= out@);
    }
    (chars_to_string(&out), count)
}

/// Extension preservation: a segment made of a dot-free `name`, a `.` and a
/// non-empty extension tail rewrites to the converted name with the tail
/// verbatim when the name has an uppercase letter, and comes back unchanged
/// otherwise.
pub proof fn lemma_extension_preserved(name: Seq<char>, ext: Seq<char>)
    requires
        forall|k: int| 0 <= k < name.len() ==> #[trigger] name[k] != '.',
        ext.len() > 0,
    ensures
        has_upper(name) ==> seg_new(name + seq!['.'] + ext) == smart_convert(name) + seq!['.']
            + ext && seg_changed(name + seq!['.'] + ext),
        !has_upper(name) ==> seg_new(name + seq!['.'] + ext) == name + seq!['.'] + ext
            && !seg_changed(name + seq!['.'] + ext),
{
    let seg = name + seq!['.'] + ext;
    let d = name.len() as int;
    assert(seg.len() == name.len() + 1 + ext.len());
    assert forall|k: int| 0 <= k < d implies seg[k] != '.' by {
        assert(seg[k] == name[k]);
    }
    assert(seg[d] == '.');
    lemma_first_at_found(seg, '.', 0, d);
    assert(seg.take(d) =~= name);
    assert(seg.skip(d + 1) =~= ext);
    if dot_segment(seg) {
        assert(seg[seg.len() - 1] == '.');
        if seg == seq!['.'] {
            assert(seg.len() == 1);
            assert(name.len() == 0 && ext.len() == 0);
        } else {
            assert(seg.len() == 2);
            assert(name.len() == 0 && ext =~= seq!['.']);
        }
        assert(!has_upper(name)) by {
            if has_upper(name) {
                let i = choose|i: int| 0 <= i < name.len() && is_upper(#[trigger] name[i]);
            }
        }
    } else {
        assert(seg_name(seg) == name);
    }
}

/// Dot segments preserved: `.` and `..` always come back verbatim and never
/// count as a change.
pub proof fn lemma_dot_segments_preserved(seg: Seq<char>)
    requires
        seg == seq!['.'] || seg == seq!['.', '.'],
    ensures
        seg_new(seg) == seg,
        !seg_changed(seg),
{
}

/// The characters whose appearance in a converted name could disturb a later
/// scan: uppercase letters, the extension separator and the segment
/// separator.
pub open spec fn special_chars() -> Set<char> {
    Set::new(|c: char| is_upper(c) || c == '.' || c == '/')
}

/// A segment whose name part keeps conversions away from the special
/// characters; every all-ASCII segment qualifies.
pub open spec fn seg_tame(seg: Seq<char>) -> bool {
    chars_tame(seg_name(seg), special_chars())
}

/// Every segment of the specifier is tame.
pub open spec fn path_tame(p: Seq<char>) -> bool
    decreases p.len(),
{
    match first_at_from(p, '/', 0) {
        Option::None => seg_tame(p),
        Option::Some(d) => if 0 <= d < p.len() {
            seg_tame(p.take(d)) && path_tame(p.skip(d + 1))
        } else {
            seg_tame(p)
        },
    }
}

/// A rewritten tame segment needs no further rewriting.
pub proof fn lemma_seg_idempotent(seg: Seq<char>)
    requires
        seg_tame(seg),
    ensures
        !seg_changed(seg_new(seg)),
{
    if !seg_changed(seg) {
    } else {
        let name = seg_name(seg);
        lemma_smart_avoids(name, special_chars());
        let out = smart_convert(name);
        assert forall|k: int| 0 <= k < out.len() implies #[trigger] out[k] != '.' && !is_upper(
            out[k],
        ) by {
            assert(!special_chars().contains(out[k]));
        }
        match first_at_from(seg, '.', 0) {
            Option::None => {
                assert(name == seg);
                assert(seg_new(seg) == out);
                if !dot_segment(out) {
                    lemma_first_at_none(out, '.', 0);
                    assert(seg_name(out) == out);
                    assert(!has_upper(out)) by {
                        if has_upper(out) {
                            let i = choose|i: int|
                                0 <= i < out.len() && is_upper(#[trigger] out[i]);
                        }
                    }
                }
            },
            Option::Some(d) => {
                lemma_first_at_props(seg, '.', 0);
                assert(name == seg.take(d));
                let tail = seg.skip(d + 1);
                let new = out + seq!['.'] + tail;
                assert(seg_new(seg) == new);
                if !dot_segment(new) {
                    assert forall|k: int| 0 <= k < out.len() implies new[k] != '.' by {
                        assert(new[k] == out[k]);
                    }
                    assert(new[out.len() as int] == '.');
                    lemma_first_at_found(new, '.', 0, out.len() as int);
                    assert(new.take(out.len() as int) =~= out);
                    assert(seg_name(new) == out);
                    assert(!has_upper(out)) by {
                        if has_upper(out) {
                            let i = choose|i: int|
                                0 <= i < out.len() && is_upper(#[trigger] out[i]);
                        }
                    }
                }
            },
        }
    }
}

proof fn lemma_seg_new_no_slash(seg: Seq<char>)
    requires
        seg_tame(seg),
        forall|k: int| 0 <= k < seg.len() ==> #[trigger] seg[k] != '/',
    ensures
        forall|k: int| 0 <= k < seg_new(seg).len() ==> #[trigger] seg_new(seg)[k] != '/',
{
    if !seg_changed(seg) {
    } else {
        let name = seg_name(seg);
        lemma_smart_avoids(name, special_chars());
        let out = smart_convert(name);
        assert forall|k: int| 0 <= k < out.len() implies #[trigger] out[k] != '/' by {
            assert(!special_chars().contains(out[k]));
        }
        match first_at_from(seg, '.', 0) {
            Option::None => {},
            Option::Some(d) => {
                lemma_first_at_props(seg, '.', 0);
                let tail = seg.skip(d + 1);
                let new = out + seq!['.'] + tail;
                assert forall|k: int| 0 <= k < new.len() implies #[trigger] new[k] != '/' by {
                    if k < out.len() {
                        assert(new[k] == out[k]);
                    } else if k == out.len() {
                        assert(new[k] == '.');
                    } else {
                        assert(new[k] == tail[k - out.len() - 1]);
                        assert(tail[k - out.len() - 1] == seg[k - out.len() + d]);
                    }
                }
            },
        }
    }
}

/// Rewriter idempotence at the specifier level: rewriting an already
/// rewritten tame specifier counts no change.
pub proof fn lemma_path_idempotent(p: Seq<char>)
    requires
        path_tame(p),
    ensures
        path_count(path_new(p)) == 0,
    decreases p.len(),
{
    lemma_first_at_props(p, '/', 0);
    match first_at_from(p, '/', 0) {
        Option::None => {
            let out = seg_new(p);
            lemma_seg_new_no_slash(p);
            lemma_first_at_none(out, '/', 0);
            lemma_seg_idempotent(p);
        },
        Option::Some(d) => {
            let head = p.take(d);
            let rest = p.skip(d + 1);
            assert forall|k: int| 0 <= k < head.len() implies #[trigger] head[k] != '/' by {
                assert(head[k] == p[k]);
            }
            let hout = seg_new(head);
            lemma_seg_new_no_slash(head);
            let out = hout + seq!['/'] + path_new(rest);
            assert(path_new(p) == out);
            assert forall|k: int| 0 <= k < hout.len() implies out[k] != '/' by {
                assert(out[k] == hout[k]);
            }
            assert(out[hout.len() as int] == '/');
            lemma_first_at_found(out, '/', 0, hout.len() as int);
            assert(out.take(hout.len() as int) =~= hout);
            assert(out.skip(hout.len() as int + 1) =~= path_new(rest));
            lemma_seg_idempotent(head);
            lemma_path_idempotent(rest);
        },
    }
}

/// The `/`-separated segments of a specifier, empty segments included.
pub open spec fn segs(p: Seq<char>) -> Seq<Seq<char>>
    decreases p.len(),
{
    match first_at_from(p, '/', 0) {
        Option::None => seq![p],
        Option::Some(d) => if 0 <= d < p.len() {
            seq![p.take(d)] + segs(p.skip(d + 1))
        } else {
            seq![p]
        },
    }
}

/// The rewritten specifier has the same segments, each rewritten in place;
/// with `seg_new` the identity on `.` and `..`, the dot segments of a tame
/// specifier appear verbatim at their positions in the output.
pub proof fn lemma_segments_correspond(p: Seq<char>)
    requires
        path_tame(p),
    ensures
        segs(path_new(p)).len() == segs(p).len(),
        forall|k: int|
            0 <= k < segs(p).len() ==> segs(path_new(p))[k] == seg_new(#[trigger] segs(p)[k]),
    decreases p.len(),
{
    lemma_first_at_props(p, '/', 0);
    match first_at_from(p, '/', 0) {
        Option::None => {
            let out = seg_new(p);
            lemma_seg_new_no_slash(p);
            lemma_first_at_none(out, '/', 0);
            assert(segs(out) == seq![out]);
            assert(segs(p) == seq![p]);
            assert(segs(p)[0] == p);
        },
        Option::Some(d) => {
            let head = p.take(d);
            let rest = p.skip(d + 1);
            assert forall|k: int| 0 <= k < head.len() implies #[trigger] head[k] != '/' by {
                assert(head[k] == p[k]);
            }
            let hout = seg_new(head);
            lemma_seg_new_no_slash(head);
            let out = hout + seq!['/'] + path_new(rest);
            assert(path_new(p) == out);
            assert forall|k: int| 0 <= k < hout.len() implies out[k] != '/' by {
                assert(out[k] == hout[k]);
            }
            assert(out[hout.len() as int] == '/');
            lemma_first_at_found(out, '/', 0, hout.len() as int);
            assert(out.take(hout.len() as int) =~= hout);
            assert(out.skip(hout.len() as int + 1) =~= path_new(rest));
            lemma_segments_correspond(rest);
            assert(segs(out) == seq![hout] + segs(path_new(rest)));
            assert(segs(p) == seq![head] + segs(rest));
            assert forall|k: int| 0 <= k < segs(p).len() implies segs(path_new(p))[k] == seg_new(
                #[trigger] segs(p)[k],
            ) by {
                if k == 0 {
                    assert(segs(p)[0] == head);
                    assert(segs(out)[0] == hout);
                } else {
                    assert(segs(p)[k] == segs(rest)[k - 1]);
                    assert(segs(out)[k] == segs(path_new(rest))[k - 1]);
                }
            }
        },
    }
}

/// Dot segments preserved: a `.` or `..` segment of a tame specifier stands
/// verbatim at its position in the rewritten specifier.
pub proof fn lemma_dot_segments_in_path(p: Seq<char>, k: int)
    requires
        path_tame(p),
        0 <= k < segs(p).len(),
        segs(p)[k] == seq!['.'] || segs(p)[k] == seq!['.', '.'],
    ensures
        segs(path_new(p)).len() == segs(p).len(),
        segs(path_new(p))[k] == segs(p)[k],
{
    lemma_segments_correspond(p);
    lemma_dot_segments_preserved(segs(p)[k]);
}

/// Every all-ASCII segment is tame.
pub proof fn lemma_ascii_seg_tame(seg: Seq<char>)
    requires
        ascii_seq(seg),
        forall|k: int| 0 <= k < seg.len() ==> #[trigger] seg[k] != '/',
    ensures
        seg_tame(seg),
{
    let name = seg_name(seg);
    lemma_first_at_props(seg, '.', 0);
    assert forall|i: int| 0 <= i < name.len() implies ascii_char(#[trigger] name[i]) && name[i]
        != '.' && name[i] != '/' by {
        assert(name[i] == seg[i]);
    }
    assert(('-' as int) == 45);
    assert(!special_chars().contains('-'));
    assert forall|i: int| 0 <= i < name.len() implies !special_chars().contains(
        lower1(#[trigger] name[i]),
    ) by {
        lemma_ascii_lower1_good(name[i]);
    }
    assert forall|i: int, j: int| 0 <= i <= j <= name.len() implies seq_avoids(
        lower_run(#[trigger] name.subrange(i, j)),
        special_chars(),
    ) by {
        let t = name.subrange(i, j);
        assert(ascii_seq(t));
        assert(lower_run(t) == lower_seq(t));
        assert forall|k: int| 0 <= k < lower_seq(t).len() implies !special_chars().contains(
            #[trigger] lower_seq(t)[k],
        ) by {
            assert(lower_seq(t)[k] == lower1(t[k]));
            assert(t[k] == name[i + k]);
            lemma_ascii_lower1_good(t[k]);
        }
    }
}

proof fn lemma_ascii_lower1_good(c: char)
    requires
        ascii_char(c),
        c != '.',
        c != '/',
    ensures
        !special_chars().contains(lower1(c)),
{
    if 65 <= c as int && c as int <= 90 {
        crate::chars::lemma_ascii_lower_value(c);
        assert(97 <= lower1(c) as int <= 122);
        assert(('.' as int) == 46 && ('/' as int) == 47);
    } else {
        assert(lower1(c) == c);
    }
}

/// Every all-ASCII specifier is tame.
pub proof fn lemma_ascii_path_tame(p: Seq<char>)
    requires
        ascii_seq(p),
    ensures
        path_tame(p),
    decreases p.len(),
{
    lemma_first_at_props(p, '/', 0);
    match first_at_from(p, '/', 0) {
        Option::None => {
            lemma_ascii_seg_tame(p);
        },
        Option::Some(d) => {
            let head = p.take(d);
            assert forall|k: int| 0 <= k < head.len() implies ascii_char(#[trigger] head[k])
                && head[k] != '/' by {
                assert(head[k] == p[k]);
            }
            lemma_ascii_seg_tame(head);
            let rest = p.skip(d + 1);
            assert forall|k: int| 0 <= k < rest.len() implies ascii_char(#[trigger] rest[k]) by {
                assert(rest[k] == p[k + d + 1]);
            }
            lemma_ascii_path_tame(rest);
        },
    }
}

} // verus!
