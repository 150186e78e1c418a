//! The tree renamer's planning logic: which entries of a traversal are
//! renamed, to what base name, and in which order, so that every recorded
//! path is still valid when its rename happens.

use vstd::prelude::*;

use crate::case::chars_tame;
use crate::case::has_upper;
use crate::case::has_upper_chars;
use crate::case::lemma_smart_convert_no_upper;
use crate::case::no_upper;
use crate::case::smart_chars;
use crate::case::smart_convert;
use crate::case::upper_chars;
use crate::chars::chars_to_string;
use crate::chars::str_chars;
use crate::chars::subvec;

verus! {

/// The position of the last occurrence of `c` strictly below `j`.
pub open spec fn last_at_below(s: Seq<char>, c: char, j: int) -> Option<int>
    decreases j,
{
    if j <= 0 || j > s.len() {
        Option::None
    } else if s[j - 1] == c {
        Option::Some(j - 1)
    } else {
        last_at_below(s, c, j - 1)
    }
}

pub open spec fn last_at(s: Seq<char>, c: char) -> Option<int> {
    last_at_below(s, c, s.len() as int)
}

pub(crate) fn find_last_char(v: &Vec<char>, c: char) -> (r: Option<usize>)
    ensures
        r matches Some(d) ==> last_at(v@, c) == Option::Some(d as int) && d < v@.len(),
        r is None ==> last_at(v@, c) is None,
{
    let mut k = v.len();
    while k > 0
        invariant
            k <= v@.len(),
            last_at(v@, c) == last_at_below(v@, c, k as int),
        decreases k,
    {
        if v[k - 1] == c {
            return Some(k - 1);
        }
        k -= 1;
    }
    None
}

/// The stem of a file name: everything before the last `.`, except that a
/// name whose only content before its last `.` is empty keeps the whole
/// name as its stem, the way hidden files like `.gitignore` do.
pub open spec fn file_stem(name: Seq<char>) -> Seq<char> {
    match last_at(name, '.') {
        Option::None => name,
        Option::Some(d) => if d > 0 {
            name.take(d)
        } else {
            name
        },
    }
}

/// The extension of a file name: everything after the last `.`, provided
/// something stands before that dot.
pub open spec fn file_ext(name: Seq<char>) -> Option<Seq<char>> {
    match last_at(name, '.') {
        Option::None => Option::None,
        Option::Some(d) => if d > 0 {
            Option::Some(name.skip(d + 1))
        } else {
            Option::None
        },
    }
}

/// The part of a base name that conversion applies to: the whole name for a
/// directory, the stem for a file.
pub open spec fn entry_stem(name: Seq<char>, is_dir: bool) -> Seq<char> {
    if is_dir {
        name
    } else {
        file_stem(name)
    }
}

/// Whether an entry is renamed at all: exactly when its stem has an
/// uppercase letter; an entry with a lowercase stem is skipped rather than
/// renamed to itself.
pub open spec fn wants_rename(name: Seq<char>, is_dir: bool) -> bool {
    has_upper(entry_stem(name, is_dir))
}

/// The base name after conversion: the converted stem with the extension,
/// if any, kept verbatim.
pub open spec fn converted_name(name: Seq<char>, is_dir: bool) -> Seq<char> {
    if is_dir {
        smart_convert(name)
    } else {
        match file_ext(name) {
            Option::None => smart_convert(file_stem(name)),
            Option::Some(e) => smart_convert(file_stem(name)) + seq!['.'] + e,
        }
    }
}

fn convert_whole(v: &Vec<char>) -> (r: Option<String>)
    ensures
        r is Some <==> has_upper(v@),
        r matches Some(n) ==> n@ == smart_convert(v@),
{
    if has_upper_chars(v) {
        let out = smart_chars(v);
        Some(chars_to_string(&out))
    } else {
        None
    }
}

/// The new base name an entry is renamed to, or nothing when its stem needs
/// no conversion.
pub fn rename_target(name: &str, is_dir: bool) -> (r: Option<String>)
    ensures
        r is Some <==> wants_rename(name@, is_dir),
        r matches Some(n) ==> n@ == converted_name(name@, is_dir),
{
    let v = str_chars(name);
    if is_dir {
        convert_whole(&v)
    } else {
        let n = v.len();
        match find_last_char(&v, '.') {
            Some(d) => {
                if d > 0 {
                    let stem = subvec(&v, 0, d);
                    proof {
                        assert(v@.subrange(0, d as int) =~= v@.take(d as int));
                    }
                    if has_upper_chars(&stem) {
                        let mut out = smart_chars(&stem);
                        out.push('.');
                        let mut ext = subvec(&v, d + 1, n);
                        out.append(&mut ext);
                        proof {
                            assert(out@ =~= smart_convert(v@.take(d as int)) + seq!['.']
                                + v@.skip(d as int + 1));
                        }
                        Some(chars_to_string(&out))
                    } else {
                        None
                    }
                } else {
                    convert_whole(&v)
                }
            },
            None => convert_whole(&v),
        }
    }
}

/// The extensions of the source files whose imports are rewritten.
pub open spec fn source_ext(e: Seq<char>) -> bool {
    ||| e == seq!['j', 's']
    ||| e == seq!['j', 's', 'x']
    ||| e == seq!['t', 's']
    ||| e == seq!['t', 's', 'x']
    ||| e == seq!['s', 'v', 'e', 'l', 't', 'e']
    ||| e == seq!['v', 'u', 'e']
}

pub open spec fn is_source_name(name: Seq<char>) -> bool {
    match file_ext(name) {
        Option::Some(e) => source_ext(e),
        Option::None => false,
    }
}

fn is_source_ext(ext: &Vec<char>) -> (r: bool)
    ensures
        r == source_ext(ext@),
{
    let n = ext.len();
    let r = if n == 2 {
        (ext[0] == 'j' && ext[1] == 's') || (ext[0] == 't' && ext[1] == 's')
    } else if n == 3 {
        (ext[0] == 'j' && ext[1] == 's' && ext[2] == 'x') || (ext[0] == 't' && ext[1] == 's'
            && ext[2] == 'x') || (ext[0] == 'v' && ext[1] == 'u' && ext[2] == 'e')
    } else if n == 6 {
        ext[0] == 's' && ext[1] == 'v' && ext[2] == 'e' && ext[3] == 'l' && ext[4] == 't'
            && ext[5] == 'e'
    } else {
        false
    };
    proof {
        if r {
            if n == 2 {
                if ext@[0] == 'j' {
                    assert(ext@ =~= seq!['j', 's']);
                } else {
                    assert(ext@ =~= seq!['t', 's']);
                }
            } else if n == 3 {
                if ext@[0] == 'j' {
                    assert(ext@ =~= seq!['j', 's', 'x']);
                } else if ext@[0] == 't' {
                    assert(ext@ =~= seq!['t', 's', 'x']);
                } else {
                    assert(ext@ =~= seq!['v', 'u', 'e']);
                }
            } else {
                assert(ext@ =~= seq!['s', 'v', 'e', 'l', 't', 'e']);
            }
        }
    }
    r
}

/// Whether a base name is one of the source files whose imports are
/// rewritten, by its extension.
pub fn matches_source_file(name: &str) -> (r: bool)
    ensures
        r == is_source_name(name@),
{
    let v = str_chars(name);
    let n = v.len();
    match find_last_char(&v, '.') {
        Some(d) => {
            if d > 0 {
                let ext = subvec(&v, d + 1, n);
                is_source_ext(&ext)
            } else {
                false
            }
        },
        None => false,
    }
}

/// One filesystem entry from a traversal, in walk order: its base name and
/// whether it is a directory.
#[derive(Debug)]
pub struct Entry {
    pub name: String,
    pub is_dir: bool,
}

/// The planned renames among the files from position `i` on, in forward
/// walk order.
pub open spec fn file_plan(v: Seq<Entry>, i: int) -> Seq<(int, Seq<char>)>
    decreases v.len() - i,
{
    if i < 0 || i >= v.len() {
        Seq::empty()
    } else {
        (if !v[i].is_dir && wants_rename(v[i].name@, false) {
            seq![(i, converted_name(v[i].name@, false))]
        } else {
            Seq::empty()
        }) + file_plan(v, i + 1)
    }
}

/// The planned renames among the directories before position `i`, deepest
/// first (reverse walk order).
pub open spec fn dir_plan(v: Seq<Entry>, i: int) -> Seq<(int, Seq<char>)>
    decreases i,
{
    if i <= 0 || i > v.len() {
        Seq::empty()
    } else {
        (if v[i - 1].is_dir && wants_rename(v[i - 1].name@, true) {
            seq![(i - 1, converted_name(v[i - 1].name@, true))]
        } else {
            Seq::empty()
        }) + dir_plan(v, i - 1)
    }
}

/// The full rename plan: files first in walk order, then directories
/// deepest first, so every recorded path is still valid when its rename
/// happens.
pub open spec fn plan_spec(v: Seq<Entry>) -> Seq<(int, Seq<char>)> {
    file_plan(v, 0) + dir_plan(v, v.len() as int)
}

pub open spec fn plan_view(p: Seq<(usize, String)>) -> Seq<(int, Seq<char>)> {
    p.map_values(|t: (usize, String)| (t.0 as int, t.1@))
}

/// The rename plan for a traversal: each planned step names the entry by its
/// position in the walk and gives its new base name.
pub fn plan_renames(entries: &Vec<Entry>) -> (plan: Vec<(usize, String)>)
    ensures
        plan_view(plan@) == plan_spec(entries@),
{
    let mut plan: Vec<(usize, String)> = Vec::new();
    let ghost v = entries@;
    let mut i: usize = 0;
    while i < entries.len()
        invariant
            i <= v.len(),
            v == entries@,
            plan_view(plan@) + file_plan(v, i as int) == file_plan(v, 0),
        decreases v.len() - i,
    {
        let ghost p0 = plan@;
        let e = &entries[i];
        if !e.is_dir {
            match rename_target(e.name.as_str(), false) {
                Some(n) => {
                    plan.push((i, n));
                },
                None => {},
            }
        }
        proof {
            let step = if !v[i as int].is_dir && wants_rename(v[i as int].name@, false) {
                seq![(i as int, converted_name(v[i as int].name@, false))]
            } else {
                Seq::<(int, Seq<char>)>::empty()
            };
            assert(file_plan(v, i as int) == step + file_plan(v, i as int + 1));
            assert(plan_view(plan@) =~= plan_view(p0) + step);
            assert(plan_view(plan@) + file_plan(v, i as int + 1) =~= plan_view(p0) + file_plan(
                v,
                i as int,
            ));
        }
        i += 1;
    }
    proof {
        assert(file_plan(v, v.len() as int) =~= Seq::<(int, Seq<char>)>::empty());
        assert(plan_view(plan@) + Seq::<(int, Seq<char>)>::empty() =~= plan_view(plan@));
        assert(plan_view(plan@) =~= file_plan(v, 0));
    }
    let mut k: usize = entries.len();
    while k > 0
        invariant
            k <= v.len(),
            v == entries@,
            plan_view(plan@) + dir_plan(v, k as int) == file_plan(v, 0) + dir_plan(
                v,
                v.len() as int,
            ),
        decreases k,
    {
        let ghost p0 = plan@;
        let e = &entries[k - 1];
        if e.is_dir {
            match rename_target(e.name.as_str(), true) {
                Some(n) => {
                    plan.push((k - 1, n));
                },
                None => {},
            }
        }
        proof {
            let step = if v[k as int - 1].is_dir && wants_rename(v[k as int - 1].name@, true) {
                seq![(k as int - 1, converted_name(v[k as int - 1].name@, true))]
            } else {
                Seq::<(int, Seq<char>)>::empty()
            };
            assert(dir_plan(v, k as int) == step + dir_plan(v, k as int - 1));
            assert(plan_view(plan@) =~= plan_view(p0) + step);
            assert(plan_view(plan@) + dir_plan(v, k as int - 1) =~= plan_view(p0) + dir_plan(
                v,
                k as int,
            ));
        }
        k -= 1;
    }
    proof {
        assert(dir_plan(v, 0) =~= Seq::<(int, Seq<char>)>::empty());
        assert(plan_view(plan@) + Seq::<(int, Seq<char>)>::empty() =~= plan_view(plan@));
        assert(plan_view(plan@) =~= plan_spec(v));
    }
    plan
}

proof fn lemma_file_plan_items(v: Seq<Entry>, i: int)
    ensures
        forall|k: int|
            0 <= k < file_plan(v, i).len() ==> {
                let t = #[trigger] file_plan(v, i)[k];
                &&& i <= t.0 < v.len()
                &&& !v[t.0].is_dir
                &&& wants_rename(v[t.0].name@, false)
                &&& t.1 == converted_name(v[t.0].name@, false)
            },
    decreases v.len() - i,
{
    if i < 0 || i >= v.len() {
    } else {
        lemma_file_plan_items(v, i + 1);
        let step = if !v[i].is_dir && wants_rename(v[i].name@, false) {
            seq![(i, converted_name(v[i].name@, false))]
        } else {
            Seq::<(int, Seq<char>)>::empty()
        };
        assert forall|k: int| 0 <= k < file_plan(v, i).len() implies {
            let t = #[trigger] file_plan(v, i)[k];
            &&& i <= t.0 < v.len()
            &&& !v[t.0].is_dir
            &&& wants_rename(v[t.0].name@, false)
            &&& t.1 == converted_name(v[t.0].name@, false)
        } by {
            if k < step.len() {
                assert(file_plan(v, i)[k] == step[k]);
            } else {
                assert(file_plan(v, i)[k] == file_plan(v, i + 1)[k - step.len()]);
            }
        }
    }
}

proof fn lemma_dir_plan_items(v: Seq<Entry>, i: int)
    ensures
        forall|k: int|
            0 <= k < dir_plan(v, i).len() ==> {
                let t = #[trigger] dir_plan(v, i)[k];
                &&& 0 <= t.0 < v.len()
                &&& t.0 < i
                &&& v[t.0].is_dir
                &&& wants_rename(v[t.0].name@, true)
                &&& t.1 == converted_name(v[t.0].name@, true)
            },
    decreases i,
{
    if i <= 0 || i > v.len() {
    } else {
        lemma_dir_plan_items(v, i - 1);
        let step = if v[i - 1].is_dir && wants_rename(v[i - 1].name@, true) {
            seq![(i - 1, converted_name(v[i - 1].name@, true))]
        } else {
            Seq::<(int, Seq<char>)>::empty()
        };
        assert forall|k: int| 0 <= k < dir_plan(v, i).len() implies {
            let t = #[trigger] dir_plan(v, i)[k];
            &&& 0 <= t.0 < v.len()
            &&& t.0 < i
            &&& v[t.0].is_dir
            &&& wants_rename(v[t.0].name@, true)
            &&& t.1 == converted_name(v[t.0].name@, true)
        } by {
            if k < step.len() {
                assert(dir_plan(v, i)[k] == step[k]);
            } else {
                assert(dir_plan(v, i)[k] == dir_plan(v, i - 1)[k - step.len()]);
            }
        }
    }
}

/// Rename outcome: every step of the plan points at a real entry, renames it
/// to the conversion of its stem with the extension kept, and that converted
/// stem contains no uppercase letter, for every traversal whose stems are
/// tame (as all-ASCII stems are).
pub proof fn lemma_plan_stems_lowercase(v: Seq<Entry>)
    requires
        forall|i: int|
            0 <= i < v.len() ==> chars_tame(
                entry_stem((#[trigger] v[i]).name@, v[i].is_dir),
                upper_chars(),
            ),
    ensures
        forall|k: int|
            0 <= k < plan_spec(v).len() ==> {
                let t = #[trigger] plan_spec(v)[k];
                &&& 0 <= t.0 < v.len()
                &&& t.1 == converted_name(v[t.0].name@, v[t.0].is_dir)
                &&& no_upper(smart_convert(entry_stem(v[t.0].name@, v[t.0].is_dir)))
            },
{
    lemma_file_plan_items(v, 0);
    lemma_dir_plan_items(v, v.len() as int);
    assert forall|k: int| 0 <= k < plan_spec(v).len() implies {
        let t = #[trigger] plan_spec(v)[k];
        &&& 0 <= t.0 < v.len()
        &&& t.1 == converted_name(v[t.0].name@, v[t.0].is_dir)
        &&& no_upper(smart_convert(entry_stem(v[t.0].name@, v[t.0].is_dir)))
    } by {
        let fp = file_plan(v, 0);
        let t = plan_spec(v)[k];
        if k < fp.len() {
            assert(plan_spec(v)[k] == fp[k]);
        } else {
            assert(plan_spec(v)[k] == dir_plan(v, v.len() as int)[k - fp.len()]);
        }
        lemma_smart_convert_no_upper(entry_stem(v[t.0].name@, v[t.0].is_dir));
    }
}

} // verus!
