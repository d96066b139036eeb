//! Text as sequences of characters: the lexical order that sorts names and
//! paths, trimming of white space, and lower-casing.

use vstd::prelude::*;
use vstd::string::StringExecFns;
use vstd::string::StrSliceExecFns;
use vstd::std_specs::iter::IteratorSpec;

verus! {

/// The texts of a list of strings, in the same order.
pub open spec fn texts(strings: Seq<String>) -> Seq<Seq<char>> {
    Seq::new(strings.len(), |i: int| strings[i]@)
}

/// Strict lexical order on texts: the first position at which the two differ
/// decides, by code point; a proper prefix comes before its extensions.
pub open spec fn lex_lt(a: Seq<char>, b: Seq<char>) -> bool
    decreases a.len(),
{
    if b.len() == 0 {
        false
    } else if a.len() == 0 {
        true
    } else if a[0] != b[0] {
        (a[0] as int) < (b[0] as int)
    } else {
        lex_lt(a.skip(1), b.skip(1))
    }
}

/// Non-strict lexical order.
pub open spec fn lex_le(a: Seq<char>, b: Seq<char>) -> bool {
    !lex_lt(b, a)
}

/// No text comes before itself.
pub proof fn lemma_lex_irreflexive(a: Seq<char>)
    ensures
        !lex_lt(a, a),
    decreases a.len(),
{
    if a.len() > 0 {
        lemma_lex_irreflexive(a.skip(1));
    }
}

/// Of two distinct texts exactly one comes first.
pub proof fn lemma_lex_total(a: Seq<char>, b: Seq<char>)
    ensures
        a == b || lex_lt(a, b) || lex_lt(b, a),
        !(lex_lt(a, b) && lex_lt(b, a)),
    decreases a.len(),
{
    if a.len() == 0 || b.len() == 0 {
        if a.len() == 0 && b.len() == 0 {
            assert(a =~= b);
        }
    } else if a[0] == b[0] {
        lemma_lex_total(a.skip(1), b.skip(1));
        if a.skip(1) == b.skip(1) {
            assert(a =~= seq![a[0]] + a.skip(1));
        }
    }
}

/// The order is transitive.
pub proof fn lemma_lex_transitive(a: Seq<char>, b: Seq<char>, c: Seq<char>)
    requires
        lex_lt(a, b),
        lex_lt(b, c),
    ensures
        lex_lt(a, c),
    decreases a.len(),
{
    if a.len() > 0 && a[0] == b[0] && b[0] == c[0] {
        lemma_lex_transitive(a.skip(1), b.skip(1), c.skip(1));
    }
}

/// What comes before a text also comes before everything that the text does
/// not follow.
pub proof fn lemma_lex_lt_le(a: Seq<char>, b: Seq<char>, c: Seq<char>)
    requires
        lex_lt(a, b),
        lex_le(b, c),
    ensures
        lex_lt(a, c),
{
    lemma_lex_total(b, c);
    if b != c {
        lemma_lex_transitive(a, b, c);
    }
}

/// The characters of a string, in a vector that can be indexed.
pub fn chars_of(s: &str) -> (v: Vec<char>)
    ensures
        v@ == s@,
{
    let mut v: Vec<char> = Vec::new();
    for c in it: s.chars()
        invariant
            it.seq() == s@,
            v@ == s@.take(it.index()),
    {
        v.push(c);
    }
    v
}

/// Whether `a` comes strictly before `b` in lexical order.
pub fn str_lt(a: &str, b: &str) -> (r: bool)
    ensures
        r == lex_lt(a@, b@),
{
    broadcast use vstd::string::group_string_axioms;

    let mut rest_a = a.chars();
    let mut rest_b = b.chars();
    let ghost mut seen: int = 0;
    loop
        invariant
            0 <= seen <= a@.len(),
            seen <= b@.len(),
            rest_a.remaining() == a@.skip(seen),
            rest_b.remaining() == b@.skip(seen),
            lex_lt(a@, b@) == lex_lt(a@.skip(seen), b@.skip(seen)),
        decreases a@.len() - seen,
    {
        let x = rest_a.next();
        let y = rest_b.next();
        match (x, y) {
            (Some(x), Some(y)) => {
                proof {
                    assert(a@.skip(seen).skip(1) =~= a@.skip(seen + 1));
                    assert(b@.skip(seen).skip(1) =~= b@.skip(seen + 1));
                }
                if x != y {
                    return x < y;
                }
                proof {
                    seen = seen + 1;
                }
            },
            (None, Some(_)) => {
                return true;
            },
            (_, None) => {
                return false;
            },
        }
    }
}

/// Whether two strings hold the same text.
pub fn str_eq(a: &str, b: &str) -> (r: bool)
    ensures
        r == (a@ == b@),
{
    broadcast use vstd::string::group_string_axioms;

    let mut rest_a = a.chars();
    let mut rest_b = b.chars();
    let ghost mut seen: int = 0;
    loop
        invariant
            0 <= seen <= a@.len(),
            seen <= b@.len(),
            rest_a.remaining() == a@.skip(seen),
            rest_b.remaining() == b@.skip(seen),
            a@.take(seen) == b@.take(seen),
        decreases a@.len() - seen,
    {
        let x = rest_a.next();
        let y = rest_b.next();
        match (x, y) {
            (Some(x), Some(y)) => {
                if x != y {
                    return false;
                }
                proof {
                    seen = seen + 1;
                }
            },
            (None, None) => {
                proof {
                    assert(a@.take(seen) =~= a@);
                    assert(b@.take(seen) =~= b@);
                }
                return true;
            },
            _ => {
                return false;
            },
        }
    }
}

/// Whether a character is white space in the sense of the standard
/// library's `char::is_whitespace` (the Unicode property White_Space).
pub uninterp spec fn is_whitespace(c: char) -> bool;

/// The lower-case form of a text as the standard library's
/// `str::to_lowercase` gives it (the Unicode lower-case mapping).
pub uninterp spec fn lowercased(s: Seq<char>) -> Seq<char>;

/// Calls `char::is_whitespace`. The contract only gives its answer the name
/// `is_whitespace`: which characters count is the standard library's matter.
#[verifier::external_body]
fn char_is_whitespace(c: char) -> (r: bool)
    ensures
        r == is_whitespace(c),
{
    c.is_whitespace()
}

/// Calls `str::to_lowercase`. The contract only gives its result the name
/// `lowercased`: the mapping itself is the standard library's matter.
#[verifier::external_body]
pub(crate) fn to_lowercase(s: &str) -> (r: String)
    ensures
        r@ == lowercased(s@),
{
    s.to_lowercase()
}

/// For each character of a text, whether it is white space.
pub open spec fn blanks(s: Seq<char>) -> Seq<bool> {
    Seq::new(s.len(), |i: int| is_whitespace(s[i]))
}

/// How many of the flags are set before the first that is not.
pub open spec fn leading_set(flags: Seq<bool>) -> nat
    decreases flags.len(),
{
    if flags.len() > 0 && flags[0] {
        1 + leading_set(flags.skip(1))
    } else {
        0
    }
}

/// How many of the flags are set behind the last that is not.
pub open spec fn trailing_set(flags: Seq<bool>) -> nat
    decreases flags.len(),
{
    if flags.len() > 0 && flags.last() {
        1 + trailing_set(flags.drop_last())
    } else {
        0
    }
}

/// The text without the white space at its beginning.
pub open spec fn trim_start(s: Seq<char>) -> Seq<char> {
    s.skip(leading_set(blanks(s)) as int)
}

/// The text without the white space at its end.
pub open spec fn trim_end(s: Seq<char>) -> Seq<char> {
    s.take(s.len() - trailing_set(blanks(s)))
}

/// The text without the white space at its beginning and at its end.
pub open spec fn trimmed(s: Seq<char>) -> Seq<char> {
    trim_end(trim_start(s))
}

/// Where the part of a text begins and ends that is left when the white
/// space around it is taken away, given for each character whether it is
/// white space: behind the leading flags that are set, and in front of the
/// trailing ones of what then remains.
pub fn trim_bounds(blank: &Vec<bool>) -> (bounds: (usize, usize))
    ensures
        bounds.0 == leading_set(blank@),
        bounds.1 == blank@.len() - trailing_set(blank@.skip(bounds.0 as int)),
        bounds.0 <= bounds.1 <= blank@.len(),
{
    let n = blank.len();
    let mut start: usize = 0;
    proof {
        assert(blank@.skip(0) =~= blank@);
    }
    while start < n
        invariant
            n == blank@.len(),
            start <= n,
            leading_set(blank@) == start + leading_set(blank@.skip(start as int)),
        ensures
            start <= n,
            leading_set(blank@) == start,
        decreases n - start,
    {
        proof {
            assert(blank@.skip(start as int)[0] == blank@[start as int]);
            assert(blank@.skip(start as int).skip(1) =~= blank@.skip(start + 1));
        }
        if !blank[start] {
            break ;
        }
        start = start + 1;
    }
    let ghost rest = blank@.skip(start as int);
    let mut end: usize = n;
    proof {
        assert(rest.take(n - start) =~= rest);
    }
    while end > start
        invariant
            n == blank@.len(),
            start <= end <= n,
            rest == blank@.skip(start as int),
            trailing_set(rest) == (n - end) + trailing_set(rest.take(end - start)),
        ensures
            start <= end <= n,
            trailing_set(rest) == n - end,
        decreases end - start,
    {
        proof {
            let part = rest.take(end - start);
            assert(part.last() == blank@[end - 1]);
            assert(part.drop_last() =~= rest.take(end - 1 - start));
        }
        if !blank[end - 1] {
            break ;
        }
        end = end - 1;
    }
    (start, end)
}

/// A copy of the text without the white space at its beginning and end.
pub fn trim(s: &str) -> (r: String)
    ensures
        r@ == trimmed(s@),
{
    let chars = chars_of(s);
    let n = chars.len();
    let mut blank: Vec<bool> = Vec::new();
    let mut i: usize = 0;
    while i < n
        invariant
            chars@ == s@,
            n == chars.len(),
            i <= n,
            blank@ == blanks(s@).take(i as int),
        decreases n - i,
    {
        blank.push(char_is_whitespace(chars[i]));
        assert(blanks(s@).take(i + 1) =~= blanks(s@).take(i as int).push(
            is_whitespace(s@[i as int]),
        ));
        i = i + 1;
    }
    assert(blanks(s@).take(n as int) =~= blanks(s@));
    let (start, end) = trim_bounds(&blank);
    proof {
        let rest = trim_start(s@);
        assert(rest == s@.skip(start as int));
        assert(blanks(rest) =~= blanks(s@).skip(start as int));
        assert(trimmed(s@) =~= s@.subrange(start as int, end as int));
    }
    String::from_str(s.substring_char(start, end))
}

} // verus!
