//! Small verified helpers over characters and strings: equality, the
//! reserved "up" token, splitting on a separator, and conversions between
//! `String` and `Vec<char>`.

use vstd::prelude::*;

verus! {

/// True of the reserved "navigate up one level" token: a name made up
/// solely of `.` characters (the empty string vacuously included).
pub open spec fn spec_is_up_token(name: Seq<char>) -> bool {
    forall|i: int| 0 <= i < name.len() ==> name[i] == '.'
}

/// Decides whether `name` is the reserved "up" token.
pub fn is_up_token(name: &str) -> (r: bool)
    ensures
        r == spec_is_up_token(name@),
{
    let len = name.unicode_len();
    let mut i: usize = 0;
    while i < len
        invariant
            0 <= i <= len,
            len == name@.len(),
            forall|j: int| 0 <= j < i ==> name@[j] == '.',
        decreases len - i,
    {
        if name.get_char(i) != '.' {
            return false;
        }
        i += 1;
    }
    true
}

/// Character-wise string equality.
pub fn str_eq(a: &str, b: &str) -> (r: bool)
    ensures
        r == (a@ == b@),
{
    let n = a.unicode_len();
    if n != b.unicode_len() {
        return false;
    }
    let mut i: usize = 0;
    while i < n
        invariant
            0 <= i <= n,
            n == a@.len(),
            n == b@.len(),
            forall|j: int| 0 <= j < i ==> a@[j] == b@[j],
        decreases n - i,
    {
        if a.get_char(i) != b.get_char(i) {
            return false;
        }
        i += 1;
    }
    proof {
        assert(a@ =~= b@);
    }
    true
}

/// Relies on `String::push`: appends the given character to the end of the string.
#[verifier::external_body]
pub fn push_char(s: &mut String, c: char)
    ensures
        final(s)@ == old(s)@.push(c),
{
    s.push(c);
}

/// Builds a `String` holding exactly the characters of `v`.
pub fn chars_to_string(v: &Vec<char>) -> (r: String)
    ensures
        r@ == v@,
{
    let mut s = String::new();
    let mut i: usize = 0;
    while i < v.len()
        invariant
            0 <= i <= v@.len(),
            s@ == v@.subrange(0, i as int),
        decreases v@.len() - i,
    {
        push_char(&mut s, v[i]);
        i += 1;
    }
    proof {
        assert(s@ =~= v@);
    }
    s
}

/// Collects the characters of `s` into a `Vec<char>`.
pub fn str_to_chars(s: &str) -> (r: Vec<char>)
    ensures
        r@ == s@,
{
    let n = s.unicode_len();
    let mut v: Vec<char> = Vec::new();
    let mut i: usize = 0;
    while i < n
        invariant
            0 <= i <= n,
            n == s@.len(),
            v@ == s@.subrange(0, i as int),
        decreases n - i,
    {
        v.push(s.get_char(i));
        i += 1;
    }
    proof {
        assert(v@ =~= s@);
    }
    v
}

/// `a` is a proper prefix of `b`: shorter, and equal to `b`'s start.
pub open spec fn is_strict_prefix(a: Seq<char>, b: Seq<char>) -> bool {
    a.len() < b.len() && b.take(a.len() as int) == a
}

/// Decides whether `a` is a proper prefix of `b`.
pub fn is_strict_prefix_exec(a: &str, b: &str) -> (r: bool)
    ensures
        r == is_strict_prefix(a@, b@),
{
    let n = a.unicode_len();
    if n >= b.unicode_len() {
        return false;
    }
    let mut i: usize = 0;
    while i < n
        invariant
            0 <= i <= n,
            n == a@.len(),
            n < b@.len(),
            forall|j: int| 0 <= j < i ==> a@[j] == b@[j],
        decreases n - i,
    {
        if a.get_char(i) != b.get_char(i) {
            proof {
                assert(b@.take(n as int)[i as int] != a@[i as int]);
            }
            return false;
        }
        i += 1;
    }
    proof {
        assert(b@.take(n as int) =~= a@);
    }
    true
}

/// The views of a sequence of strings.
pub open spec fn string_views(v: Seq<String>) -> Seq<Seq<char>> {
    Seq::new(v.len(), |i: int| v[i]@)
}

/// Index of the first occurrence of `sep` in `s` at or after `i`, or
/// `s.len()` if there is none.
pub open spec fn spec_find(s: Seq<char>, sep: char, i: int) -> int
    decreases s.len() - i,
{
    if 0 <= i < s.len() {
        if s[i] == sep {
            i
        } else {
            spec_find(s, sep, i + 1)
        }
    } else {
        s.len() as int
    }
}

/// The parts of `s` from position `i` on, split on `sep`; empty parts are
/// kept, and a trailing separator yields a trailing empty part.
pub open spec fn spec_split_from(s: Seq<char>, sep: char, i: int) -> Seq<Seq<char>>
    decreases s.len() - i,
{
    let p = spec_find(s, sep, i);
    if i <= p < s.len() {
        seq![s.subrange(i, p)] + spec_split_from(s, sep, p + 1)
    } else {
        seq![s.subrange(i, s.len() as int)]
    }
}

/// All the parts of `s`, split on `sep`.
pub open spec fn spec_split(s: Seq<char>, sep: char) -> Seq<Seq<char>> {
    spec_split_from(s, sep, 0)
}

fn split_from(cs: &Vec<char>, sep: char, start: usize) -> (r: Vec<String>)
    requires
        start <= cs@.len(),
    ensures
        string_views(r@) == spec_split_from(cs@, sep, start as int),
    decreases cs@.len() - start,
{
    let mut i = start;
    while i < cs.len() && cs[i] != sep
        invariant
            start <= i <= cs@.len(),
            spec_find(cs@, sep, start as int) == spec_find(cs@, sep, i as int),
        decreases cs@.len() - i,
    {
        i += 1;
    }
    proof {
        assert(spec_find(cs@, sep, i as int) == i || spec_find(cs@, sep, i as int)
            == cs@.len() as int);
    }
    let mut part: Vec<char> = Vec::new();
    let mut j = start;
    while j < i
        invariant
            start <= j <= i <= cs@.len(),
            part@ == cs@.subrange(start as int, j as int),
        decreases i - j,
    {
        part.push(cs[j]);
        j += 1;
    }
    proof {
        assert(part@ =~= cs@.subrange(start as int, i as int));
    }
    let head = chars_to_string(&part);
    if i < cs.len() {
        let rest = split_from(cs, sep, i + 1);
        let mut r: Vec<String> = Vec::new();
        r.push(head);
        let mut k: usize = 0;
        while k < rest.len()
            invariant
                0 <= k <= rest@.len(),
                r@.len() == k + 1,
                r@[0] == head,
                forall|t: int| 0 <= t < k ==> r@[t + 1] == rest@[t],
            decreases rest@.len() - k,
        {
            r.push(rest[k].clone());
            k += 1;
        }
        proof {
            assert(string_views(r@) =~= spec_split_from(cs@, sep, start as int));
        }
        r
    } else {
        let mut r: Vec<String> = Vec::new();
        r.push(head);
        proof {
            assert(string_views(r@) =~= spec_split_from(cs@, sep, start as int));
        }
        r
    }
}

/// `spec_find` returns the first occurrence: nothing before it is the
/// separator, and it is the separator unless the end was reached.
pub proof fn lemma_find_first(s: Seq<char>, sep: char, i: int)
    requires
        0 <= i <= s.len(),
    ensures
        i <= spec_find(s, sep, i) <= s.len(),
        forall|j: int| i <= j < spec_find(s, sep, i) ==> s[j] != sep,
        spec_find(s, sep, i) < s.len() ==> s[spec_find(s, sep, i)] == sep,
    decreases s.len() - i,
{
    if i < s.len() && s[i] != sep {
        lemma_find_first(s, sep, i + 1);
    }
}

/// No part produced by splitting contains the separator.
pub proof fn lemma_split_no_sep(s: Seq<char>, sep: char, i: int)
    requires
        0 <= i <= s.len(),
    ensures
        forall|k: int, j: int|
            0 <= k < spec_split_from(s, sep, i).len() && 0 <= j < spec_split_from(s, sep, i)[k].len()
                ==> spec_split_from(s, sep, i)[k][j] != sep,
    decreases s.len() - i,
{
    lemma_find_first(s, sep, i);
    let p = spec_find(s, sep, i);
    if i <= p < s.len() {
        lemma_split_no_sep(s, sep, p + 1);
        let parts = spec_split_from(s, sep, i);
        let rest = spec_split_from(s, sep, p + 1);
        assert forall|k: int, j: int|
            0 <= k < parts.len() && 0 <= j < parts[k].len() implies parts[k][j] != sep by {
            if k == 0 {
                assert(parts[0] == s.subrange(i, p));
            } else {
                assert(parts[k] == rest[k - 1]);
            }
        }
    }
}

/// Splits `s` on the separator character, keeping empty parts.
pub fn split_char(s: &str, sep: char) -> (r: Vec<String>)
    ensures
        string_views(r@) == spec_split(s@, sep),
{
    let cs = str_to_chars(s);
    split_from(&cs, sep, 0)
}

} // verus!
