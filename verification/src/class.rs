//! Sets of characters, and the run of characters of a set at the front of an
//! input.

use vstd::prelude::*;

verus! {

/// What `char::is_whitespace` returns for `c`.
pub uninterp spec fn is_whitespace(c: char) -> bool;

/// What `char::is_uppercase` returns for `c`.
pub uninterp spec fn is_uppercase(c: char) -> bool;

/// What `char::is_lowercase` returns for `c`.
pub uninterp spec fn is_lowercase(c: char) -> bool;

/// What `char::is_alphanumeric` returns for `c`.
pub uninterp spec fn is_alphanumeric(c: char) -> bool;

/// `char::is_whitespace` of the standard library: whether the character has the
/// Unicode property `White_Space`. Taken on trust: the answer depends on the
/// character alone.
#[verifier::external_body]
pub(crate) fn char_is_whitespace(c: char) -> (b: bool)
    ensures
        b == is_whitespace(c),
{
    c.is_whitespace()
}

/// `char::is_uppercase` of the standard library: whether the character has the
/// Unicode property `Uppercase`. Taken on trust: the answer depends on the
/// character alone.
#[verifier::external_body]
pub(crate) fn char_is_uppercase(c: char) -> (b: bool)
    ensures
        b == is_uppercase(c),
{
    c.is_uppercase()
}

/// `char::is_lowercase` of the standard library: whether the character has the
/// Unicode property `Lowercase`. Taken on trust: the answer depends on the
/// character alone.
#[verifier::external_body]
pub(crate) fn char_is_lowercase(c: char) -> (b: bool)
    ensures
        b == is_lowercase(c),
{
    c.is_lowercase()
}

/// `char::is_alphanumeric` of the standard library: whether the character is
/// alphabetic or numeric in Unicode's sense. Taken on trust: the answer depends
/// on the character alone.
#[verifier::external_body]
pub(crate) fn char_is_alphanumeric(c: char) -> (b: bool)
    ensures
        b == is_alphanumeric(c),
{
    c.is_alphanumeric()
}

/// The whitespace characters.
pub open spec fn whitespace_class() -> Set<char> {
    Set::new(|c: char| is_whitespace(c))
}

/// The uppercase characters.
pub open spec fn uppercase_class() -> Set<char> {
    Set::new(|c: char| is_uppercase(c))
}

/// The lowercase characters.
pub open spec fn lowercase_class() -> Set<char> {
    Set::new(|c: char| is_lowercase(c))
}

/// The letters and numbers.
pub open spec fn alphanumeric_class() -> Set<char> {
    Set::new(|c: char| is_alphanumeric(c))
}

/// The ten decimal digits.
pub open spec fn digit_class() -> Set<char> {
    Set::new(|c: char| '0' <= c <= '9')
}

/// The decimal digits and the letters `a` to `f` in either case.
pub open spec fn hex_digit_class() -> Set<char> {
    Set::new(|c: char| '0' <= c <= '9' || 'a' <= c <= 'f' || 'A' <= c <= 'F')
}

/// Whether `c` is a decimal digit.
pub fn is_digit(c: char) -> (b: bool)
    ensures
        b == digit_class().contains(c),
{
    '0' <= c && c <= '9'
}

/// Whether `c` is a hexadecimal digit.
pub fn is_hex_digit(c: char) -> (b: bool)
    ensures
        b == hex_digit_class().contains(c),
{
    ('0' <= c && c <= '9') || ('a' <= c && c <= 'f') || ('A' <= c && c <= 'F')
}

/// Whether `c` occurs in `chars`.
pub fn is_among(chars: &[char], c: char) -> (b: bool)
    ensures
        b == chars@.contains(c),
{
    let mut i: usize = 0;
    while i < chars.len()
        invariant
            i <= chars@.len(),
            forall|j: int| 0 <= j < i ==> chars@[j] != c,
        decreases chars@.len() - i,
    {
        if chars[i] == c {
            return true;
        }
        i += 1;
    }
    false
}

/// The first character of `input` with what follows it, where that character
/// belongs to `class`; nothing otherwise.
pub open spec fn first_char_in(input: Seq<char>, class: Set<char>) -> Option<(char, Seq<char>)> {
    if input.len() > 0 && class.contains(input[0]) {
        Some((input[0], input.drop_first()))
    } else {
        None
    }
}

/// How many characters at the front of `input` belong to `class`, counted up
/// to the first one that does not.
pub open spec fn leading(input: Seq<char>, class: Set<char>) -> nat
    decreases input.len(),
{
    if input.len() > 0 && class.contains(input[0]) {
        1 + leading(input.drop_first(), class)
    } else {
        0
    }
}

/// The leading run lies within the input, holds characters of the class only,
/// and ends at the end of the input or before a character outside the class.
pub proof fn lemma_leading(input: Seq<char>, class: Set<char>)
    ensures
        leading(input, class) <= input.len(),
        forall|i: int| 0 <= i < leading(input, class) ==> class.contains(#[trigger] input[i]),
        leading(input, class) < input.len() ==> !class.contains(
            input[leading(input, class) as int],
        ),
    decreases input.len(),
{
    if input.len() > 0 && class.contains(input[0]) {
        let tail = input.drop_first();
        lemma_leading(tail, class);
        assert forall|i: int| 0 <= i < leading(input, class) implies class.contains(
            #[trigger] input[i],
        ) by {
            if i > 0 {
                assert(input[i] == tail[i - 1]);
            }
        }
        if leading(input, class) < input.len() {
            assert(input[leading(input, class) as int] == tail[leading(tail, class) as int]);
        }
    }
}

/// The leading run of any class lies within any input.
pub proof fn lemma_leading_everywhere()
    ensures
        forall|input: Seq<char>, class: Set<char>| #[trigger] leading(input, class) <= input.len(),
{
    assert forall|input: Seq<char>, class: Set<char>| #[trigger]
        leading(input, class) <= input.len() by {
        lemma_leading(input, class);
    }
}

/// A run of `n` characters of the class that cannot be made longer is the
/// leading run.
pub proof fn lemma_leading_is(input: Seq<char>, class: Set<char>, n: nat)
    requires
        n <= input.len(),
        forall|i: int| 0 <= i < n ==> class.contains(#[trigger] input[i]),
        n < input.len() ==> !class.contains(input[n as int]),
    ensures
        leading(input, class) == n,
    decreases n,
{
    if n > 0 {
        let tail = input.drop_first();
        assert(class.contains(input[0]));
        assert forall|i: int| 0 <= i < n - 1 implies class.contains(#[trigger] tail[i]) by {
            assert(tail[i] == input[i + 1]);
        }
        if n - 1 < tail.len() {
            assert(tail[n - 1] == input[n as int]);
        }
        lemma_leading_is(tail, class, (n - 1) as nat);
    }
}

} // verus!
