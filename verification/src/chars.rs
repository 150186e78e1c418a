//! The character model: what the library assumes of `char::is_uppercase`,
//! `char::to_lowercase` and `str::to_lowercase`, and small verified helpers
//! for moving between `&str`, `Vec<char>` and `String`.

use vstd::prelude::*;
use vstd::string::StrSliceExecFns;

verus! {

/// Names the Unicode uppercase property of a character outside the ASCII
/// range, as `char::is_uppercase` decides it: a function of the character
/// alone.
pub uninterp spec fn upper_ext(c: char) -> bool;

/// Names the first character of the lowercase mapping of a character outside
/// the ASCII range, as `char::to_lowercase` yields it: a function of the
/// character alone.
pub uninterp spec fn lower1_ext(c: char) -> char;

/// Names what `str::to_lowercase` returns on a sequence of characters that is
/// not entirely ASCII (where multi-character and context-dependent mappings
/// may apply): a function of the sequence alone.
pub uninterp spec fn lower_run_ext(s: Seq<char>) -> Seq<char>;

pub open spec fn ascii_char(c: char) -> bool {
    (c as int) < 128
}

pub open spec fn ascii_seq(s: Seq<char>) -> bool {
    forall|i: int| 0 <= i < s.len() ==> ascii_char(#[trigger] s[i])
}

/// Whether a character is uppercase: for ASCII exactly `A`..`Z`, beyond ASCII
/// whatever `char::is_uppercase` decides.
pub open spec fn is_upper(c: char) -> bool {
    if ascii_char(c) {
        65 <= c as int && c as int <= 90
    } else {
        upper_ext(c)
    }
}

/// The first character of the lowercase mapping of `c`: for ASCII uppercase
/// the letter 32 places up, for other ASCII the character itself, beyond
/// ASCII whatever `char::to_lowercase` yields first.
pub open spec fn lower1(c: char) -> char {
    if 65 <= c as int && c as int <= 90 {
        ((c as int) + 32) as char
    } else if ascii_char(c) {
        c
    } else {
        lower1_ext(c)
    }
}

pub open spec fn lower_seq(s: Seq<char>) -> Seq<char> {
    s.map_values(|c: char| lower1(c))
}

/// What `str::to_lowercase` returns: pointwise `lower1` on an all-ASCII
/// sequence, and beyond ASCII whatever the function yields.
pub open spec fn lower_run(s: Seq<char>) -> Seq<char> {
    if ascii_seq(s) {
        lower_seq(s)
    } else {
        lower_run_ext(s)
    }
}

/// Relies on `char::is_uppercase`: on ASCII it holds of exactly `A`..`Z`;
/// elsewhere the result is a function of the character alone (`upper_ext`).
#[verifier::external_body]
pub(crate) fn char_is_upper(c: char) -> (r: bool)
    ensures
        r == is_upper(c),
        !ascii_char(c) ==> r == upper_ext(c),
{
    c.is_uppercase()
}

/// Relies on `char::to_lowercase`: it yields the lowercase mapping as one or
/// more characters, so taking the first never fails; on ASCII the mapping is
/// `A`..`Z` to `a`..`z` and the identity otherwise; elsewhere the first
/// character is a function of the input alone (`lower1_ext`).
#[verifier::external_body]
pub(crate) fn char_lower_first(c: char) -> (r: char)
    ensures
        r == lower1(c),
        !ascii_char(c) ==> r == lower1_ext(c),
{
    c.to_lowercase().next().unwrap()
}

/// Relies on `str::to_lowercase`: on an all-ASCII string it maps `A`..`Z` to
/// `a`..`z` pointwise and keeps every other character; elsewhere the result
/// is a function of the character sequence alone (`lower_run_ext`).
#[verifier::external_body]
pub(crate) fn str_to_lower(s: &str) -> (r: String)
    ensures
        r@ == lower_run(s@),
        !ascii_seq(s@) ==> r@ == lower_run_ext(s@),
{
    s.to_lowercase()
}

/// Relies on `String::push`: it appends the character to the end of the
/// string.
#[verifier::external_body]
pub(crate) fn push_char(s: &mut String, c: char)
    ensures
        final(s)@ == old(s)@.push(c),
{
    s.push(c)
}

/// The characters of a string slice, in order.
pub(crate) fn str_chars(s: &str) -> (r: Vec<char>)
    ensures
        r@ == s@,
{
    let n = s.unicode_len();
    let mut r: Vec<char> = Vec::new();
    let mut i: usize = 0;
    while i < n
        invariant
            n == s@.len(),
            i <= n,
            r@ == s@.take(i as int),
        decreases n - i,
    {
        let c = s.get_char(i);
        r.push(c);
        proof {
            assert(s@.take(i as int).push(s@[i as int]) =~= s@.take(i as int + 1));
        }
        i += 1;
    }
    proof {
        assert(s@.take(n as int) =~= s@);
    }
    r
}

/// A `String` holding exactly the given characters.
pub(crate) fn chars_to_string(v: &Vec<char>) -> (r: String)
    ensures
        r@ == v@,
{
    let mut r = String::new();
    let mut i: usize = 0;
    while i < v.len()
        invariant
            i <= v@.len(),
            r@ == v@.take(i as int),
        decreases v@.len() - i,
    {
        push_char(&mut r, v[i]);
        proof {
            assert(v@.take(i as int).push(v@[i as int]) =~= v@.take(i as int + 1));
        }
        i += 1;
    }
    proof {
        assert(v@.take(v@.len() as int) =~= v@);
    }
    r
}

/// The characters of `v` from `lo` (inclusive) to `hi` (exclusive).
pub(crate) fn subvec(v: &Vec<char>, lo: usize, hi: usize) -> (r: Vec<char>)
    requires
        lo <= hi <= v@.len(),
    ensures
        r@ == v@.subrange(lo as int, hi as int),
{
    let mut r: Vec<char> = Vec::new();
    let mut i: usize = lo;
    while i < hi
        invariant
            lo <= i <= hi <= v@.len(),
            r@ == v@.subrange(lo as int, i as int),
        decreases hi - i,
    {
        r.push(v[i]);
        proof {
            assert(v@.subrange(lo as int, i as int).push(v@[i as int])
                =~= v@.subrange(lo as int, i as int + 1));
        }
        i += 1;
    }
    r
}

/// Casting an ASCII uppercase code point shifted into lowercase back to a
/// character keeps its value; recorded once so the ASCII arms of `lower1`
/// compute.
pub proof fn lemma_ascii_lower_value(c: char)
    requires
        65 <= c as int && c as int <= 90,
    ensures
        97 <= lower1(c) as int <= 122,
        !is_upper(lower1(c)),
{
    assert(lower1(c) == ((c as int) + 32) as char);
    assert(97 <= (c as int) + 32 <= 122);
    assert((((c as int) + 32) as char) as int == (c as int) + 32);
}

} // verus!
