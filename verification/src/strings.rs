use vstd::prelude::*;

verus! {

/// Whether the string contains the character.
///
/// Trusted: calls `str::contains` with a `char` pattern, which is documented to
/// return whether the character occurs in the string.
#[verifier::external_body]
pub(crate) fn str_contains_char(s: &str, c: char) -> (res: bool)
    ensures
        res == s@.contains(c),
{
    s.contains(c)
}

/// Whether `c` has the Unicode White_Space property, as `char::is_whitespace`
/// says; `str::trim` removes exactly such characters.
pub uninterp spec fn white_space(c: char) -> bool;

/// Whether `c` is white space.
///
/// Trusted: calls `char::is_whitespace`, documented to return whether the
/// character has the White_Space property; claimed: the result is `white_space(c)`.
#[verifier::external_body]
pub(crate) fn char_is_whitespace(c: char) -> (res: bool)
    ensures
        res == white_space(c),
{
    c.is_whitespace()
}

/// Appends a character to a string.
///
/// Trusted: calls `String::push`, documented to append the character at the end.
#[verifier::external_body]
pub(crate) fn string_push(s: &mut String, c: char)
    ensures
        final(s)@ == old(s)@.push(c),
{
    s.push(c)
}

} // verus!

verus! {

/// `a` comes before `b` in lexicographic order, characters compared by code point.
pub open spec fn chars_lt(a: Seq<char>, b: Seq<char>) -> bool
    decreases a.len(),
{
    if a.len() == 0 {
        b.len() > 0
    } else if b.len() == 0 {
        false
    } else if a[0] != b[0] {
        a[0] < b[0]
    } else {
        chars_lt(a.drop_first(), b.drop_first())
    }
}

/// Compares two strings: `-1` when `a` comes first, `0` when they are equal,
/// `1` when `b` comes first.
///
/// Trusted: calls `Ord::cmp` on `str`, which is documented to order strings
/// lexicographically by their bytes, which orders code points by their place in
/// the code charts.
#[verifier::external_body]
pub(crate) fn compare_strings(a: &String, b: &String) -> (res: i8)
    ensures
        res == -1 <==> chars_lt(a@, b@),
        res == 0 <==> a@ == b@,
        res == 1 <==> chars_lt(b@, a@),
{
    match a.as_str().cmp(b.as_str()) {
        std::cmp::Ordering::Less => -1,
        std::cmp::Ordering::Equal => 0,
        std::cmp::Ordering::Greater => 1,
    }
}

/// No string comes before itself.
pub proof fn lemma_chars_lt_irrefl(a: Seq<char>)
    ensures
        !chars_lt(a, a),
    decreases a.len(),
{
    if a.len() > 0 {
        lemma_chars_lt_irrefl(a.drop_first());
    }
}

/// The order of strings is transitive.
pub proof fn lemma_chars_lt_trans(a: Seq<char>, b: Seq<char>, c: Seq<char>)
    requires
        chars_lt(a, b),
        chars_lt(b, c),
    ensures
        chars_lt(a, c),
    decreases a.len(),
{
    if a.len() > 0 && b.len() > 0 && c.len() > 0 {
        if a[0] == b[0] && b[0] == c[0] {
            lemma_chars_lt_trans(a.drop_first(), b.drop_first(), c.drop_first());
        }
    }
}

/// Any two different strings are ordered one way or the other.
pub proof fn lemma_chars_lt_total(a: Seq<char>, b: Seq<char>)
    ensures
        a == b || chars_lt(a, b) || chars_lt(b, a),
    decreases a.len(),
{
    if a.len() > 0 && b.len() > 0 && a[0] == b[0] {
        lemma_chars_lt_total(a.drop_first(), b.drop_first());
        if a.drop_first() == b.drop_first() {
            assert(a =~= seq![a[0]] + a.drop_first());
            assert(b =~= seq![b[0]] + b.drop_first());
        }
    } else if a.len() == 0 && b.len() == 0 {
        assert(a =~= b);
    }
}

} // verus!
