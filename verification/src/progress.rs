//! How much input a parser consumes.
//!
//! A repetition can only be run where each round moves forward. The lemmas
//! here show from the parts of a parser that it moves forward, or at least
//! that it never leaves more input than it was given.

use vstd::prelude::*;
use crate::chain::{
    chains_right, combines, folded, goes_on, link_advances, step_advances, ChainLeft1,
    ChainRight1,
};
use crate::class::lemma_leading_everywhere;
use crate::list::{closes, follows, list_advances, listed, SeparatedBy, SeparatedEndBy};
use crate::parser::{advances, picks, Parser};
use crate::primitive::{Any, Char, Eof, Epsilon, Satisfy, Str, Whitespaces};
use crate::repeat::{reads, run_of, Count, Many, Many1};
use crate::sequence::{both, neither, Choice, Left, LookAhead, Optional, Right};
use crate::text::outcome;
use crate::transform::{AndThen, Function, Mapped};

verus! {

/// No success of `p` leaves more input than it was given.
pub open spec fn never_grows<T, P: Parser<T>>(p: P) -> bool {
    forall|input: Seq<char>, value: T, rest: Seq<char>| #[trigger]
        p.parses(input, Some((value, rest))) ==> rest.len() <= input.len()
}

/// A parser that moves forward never grows.
pub proof fn lemma_advances_never_grows<T, P: Parser<T>>(p: P)
    requires
        advances(p),
    ensures
        never_grows(p),
{
}

/// The parsers of one character move forward; the others that hold no function
/// never grow, and a string parser moves forward where the string is not empty.
pub proof fn lemma_primitives_progress()
    ensures
        advances(Any),
        never_grows(Eof),
        never_grows(Epsilon),
        never_grows(Whitespaces),
        forall|c: char| #[trigger] advances(Char(c)),
        forall|pattern: &str| #[trigger] never_grows(Str(pattern)),
        forall|pattern: &str| pattern@.len() > 0 ==> #[trigger] advances(Str(pattern)),
{
    lemma_leading_everywhere();
}

/// A predicate parser moves forward.
pub proof fn lemma_satisfy_advances<F: Fn(char) -> bool>(p: Satisfy<F>)
    ensures
        advances(p),
{
}

/// A parser of one character of a class moves forward.
pub proof fn lemma_picks_advances<P: Parser<char>>(p: P, class: Set<char>)
    requires
        picks(p, class),
    ensures
        advances::<char, P>(p),
{
}

/// `f` never returns more input than it was given.
pub open spec fn returns_no_more<T, F: Fn(&str) -> Option<(T, &str)>>(f: F) -> bool {
    forall|text: &str, value: T, rest: &str| #[trigger]
        call_ensures(f, (text,), Some((value, rest))) ==> rest@.len() <= text@.len()
}

/// `f` returns less input than it was given.
pub open spec fn returns_less<T, F: Fn(&str) -> Option<(T, &str)>>(f: F) -> bool {
    forall|text: &str, value: T, rest: &str| #[trigger]
        call_ensures(f, (text,), Some((value, rest))) ==> rest@.len() < text@.len()
}

/// A function, as a parser and wrapped, consumes what it says it consumes.
pub proof fn lemma_rule_progress<T, F: Fn(&str) -> Option<(T, &str)>>(f: F, p: Function<F>)
    requires
        p.0 == f,
    ensures
        returns_no_more(f) ==> never_grows::<T, F>(f) && never_grows::<T, Function<F>>(p),
        returns_less(f) ==> advances::<T, F>(f) && advances::<T, Function<F>>(p),
{
    assert forall|input: Seq<char>, value: T, rest: Seq<char>| #[trigger]
        f.parses(input, Some((value, rest))) implies (returns_no_more(f) ==> rest.len()
        <= input.len()) && (returns_less(f) ==> rest.len() < input.len()) by {
        let (text, result) = choose|text: &str, result: Option<(T, &str)>|
            text@ == input && outcome(result) == Some((value, rest)) && #[trigger] call_ensures(
                f,
                (text,),
                result,
            );
        let (found, left) = result->0;
        assert(call_ensures(f, (text,), Some((found, left))));
    }
    assert forall|input: Seq<char>, value: T, rest: Seq<char>| #[trigger]
        p.parses(input, Some((value, rest))) implies f.parses(input, Some((value, rest))) by {}
}

/// Two parsers in a row move forward where one of them does and the other
/// never grows, and never grow where neither does.
pub proof fn lemma_both_progress<A, PA: Parser<A>, B, PB: Parser<B>>(
    first: PA,
    second: PB,
    input: Seq<char>,
    a: A,
    b: B,
    rest: Seq<char>,
)
    requires
        both(first, second, input, a, b, rest),
    ensures
        never_grows(first) && never_grows(second) ==> rest.len() <= input.len(),
        advances(first) && never_grows(second) ==> rest.len() < input.len(),
        never_grows(first) && advances(second) ==> rest.len() < input.len(),
{
    let mid = choose|mid: Seq<char>| #[trigger]
        first.parses(input, Some((a, mid))) && second.parses(mid, Some((b, rest)));
    assert(second.parses(mid, Some((b, rest))));
}

/// A sequence moves forward where one of its parsers does and the other never
/// grows, and never grows where neither does, whichever value it keeps.
pub proof fn lemma_sequence_progress<A, PA: Parser<A>, B, PB: Parser<B>>(
    left: Left<A, PA, B, PB>,
    right: Right<A, PA, B, PB>,
)
    requires
        left.0 == right.0,
        left.1 == right.1,
    ensures
        never_grows(left.0) && never_grows(left.1) ==> never_grows(left) && never_grows(right),
        advances(left.0) && never_grows(left.1) ==> advances(left) && advances(right),
        never_grows(left.0) && advances(left.1) ==> advances(left) && advances(right),
{
    let first = left.0;
    let second = left.1;
    assert forall|input: Seq<char>, a: A, rest: Seq<char>| #[trigger]
        left.parses(input, Some((a, rest))) implies exists|b: B| both(
        first,
        second,
        input,
        a,
        b,
        rest,
    ) by {}
    assert forall|input: Seq<char>, a: A, rest: Seq<char>| #[trigger]
        left.parses(input, Some((a, rest))) implies (never_grows(first) && never_grows(second)
        ==> rest.len() <= input.len()) && ((advances(first) && never_grows(second))
        || (never_grows(first) && advances(second)) ==> rest.len() < input.len()) by {
        let b = choose|b: B| #[trigger] both(first, second, input, a, b, rest);
        lemma_both_progress(first, second, input, a, b, rest);
    }
    assert forall|input: Seq<char>, b: B, rest: Seq<char>| #[trigger]
        right.parses(input, Some((b, rest))) implies (never_grows(first) && never_grows(second)
        ==> rest.len() <= input.len()) && ((advances(first) && never_grows(second))
        || (never_grows(first) && advances(second)) ==> rest.len() < input.len()) by {
        let a = choose|a: A| #[trigger] both(first, second, input, a, b, rest);
        lemma_both_progress(first, second, input, a, b, rest);
    }
}

/// An alternative moves forward where both branches do, and never grows where
/// neither does.
pub proof fn lemma_choice_progress<T, PA: Parser<T>, PB: Parser<T>>(p: Choice<PA, PB>)
    ensures
        never_grows(p.0) && never_grows(p.1) ==> never_grows::<T, Choice<PA, PB>>(p),
        advances(p.0) && advances(p.1) ==> advances::<T, Choice<PA, PB>>(p),
{
}

/// A lookahead never grows, and an optional parser never grows where the
/// parser inside does not.
pub proof fn lemma_look_ahead_progress<T, P: Parser<T>>(
    ahead: LookAhead<P>,
    optional: Optional<T, P>,
)
    ensures
        never_grows::<T, LookAhead<P>>(ahead),
        never_grows(optional.0) ==> never_grows(optional),
{
}

/// A mapped parser consumes what the parser inside consumes.
pub proof fn lemma_mapped_progress<A, PA: Parser<A>, B, F: Fn(A) -> B>(p: Mapped<A, PA, F>)
    ensures
        never_grows(p.0) ==> never_grows::<B, Mapped<A, PA, F>>(p),
        advances(p.0) ==> advances::<B, Mapped<A, PA, F>>(p),
{
}

/// Every parser that `f` returns never grows.
pub open spec fn selects_no_growth<A, B, PB: Parser<B>, F: Fn(A) -> PB>(f: F) -> bool {
    forall|v: A, next: PB| #[trigger] call_ensures(f, (v,), next) ==> never_grows(next)
}

/// A parser followed by the parser that a function returns for its value never
/// grows where neither of the two does, and moves forward where the first one
/// does.
pub proof fn lemma_and_then_progress<A, PA: Parser<A>, B, PB: Parser<B>, F: Fn(A) -> PB>(
    p: AndThen<A, PA, F>,
)
    requires
        selects_no_growth::<A, B, PB, F>(p.1),
    ensures
        never_grows(p.0) ==> never_grows::<B, AndThen<A, PA, F>>(p),
        advances(p.0) ==> advances::<B, AndThen<A, PA, F>>(p),
{
    assert forall|input: Seq<char>, value: B, rest: Seq<char>| #[trigger]
        Parser::<B>::parses(&p, input, Some((value, rest))) implies (never_grows(p.0)
        ==> rest.len() <= input.len()) && (advances(p.0) ==> rest.len() < input.len()) by {
        let (v, mid, next) = choose|v: A, mid: Seq<char>, next: PB|
            #![trigger p.0.parses(input, Some((v, mid))), call_ensures(p.1, (v,), next)]
            p.0.parses(input, Some((v, mid))) && call_ensures(p.1, (v,), next) && next.parses(
                mid,
                Some((value, rest)),
            );
        assert(next.parses(mid, Some((value, rest))));
    }
}

/// What a parser reads in a row is no longer than the input where it never
/// grows, and each item takes at least one character where it moves forward.
pub proof fn lemma_reads_progress<T, P: Parser<T>>(
    p: P,
    input: Seq<char>,
    items: Seq<T>,
    rest: Seq<char>,
)
    requires
        reads(p, input, items, rest),
    ensures
        never_grows(p) ==> rest.len() <= input.len(),
        advances(p) ==> rest.len() + items.len() <= input.len(),
{
    let trail = choose|trail: Seq<Seq<char>>|
        {
            &&& #[trigger] run_of(p, trail, items)
            &&& trail[0] == input
            &&& trail.last() == rest
        };
    lemma_run_progress(p, trail, items, items.len() as int);
}

/// The same up to item `k` of a run.
proof fn lemma_run_progress<T, P: Parser<T>>(p: P, trail: Seq<Seq<char>>, items: Seq<T>, k: int)
    requires
        run_of(p, trail, items),
        0 <= k <= items.len(),
    ensures
        never_grows(p) ==> trail[k].len() <= trail[0].len(),
        advances(p) ==> trail[k].len() + k <= trail[0].len(),
    decreases k,
{
    if k > 0 {
        lemma_run_progress(p, trail, items, k - 1);
        assert(p.parses(trail[k - 1], Some((items[k - 1], trail[k - 1 + 1]))));
    }
}

/// A repetition of a parser that moves forward never grows, and moves forward
/// itself where at least one item is asked for.
pub proof fn lemma_many_progress<T, P: Parser<T>>(many: Many<P>, many1: Many1<P>)
    requires
        advances(many.0),
        advances(many1.0),
    ensures
        never_grows::<Vec<T>, Many<P>>(many),
        advances::<Vec<T>, Many1<P>>(many1),
{
    assert forall|input: Seq<char>, items: Vec<T>, rest: Seq<char>| #[trigger]
        many.parses(input, Some((items, rest))) implies rest.len() <= input.len() by {
        lemma_reads_progress(many.0, input, items@, rest);
    }
    assert forall|input: Seq<char>, items: Vec<T>, rest: Seq<char>| #[trigger]
        many1.parses(input, Some((items, rest))) implies rest.len() < input.len() by {
        lemma_reads_progress(many1.0, input, items@, rest);
    }
}

/// The same for repetitions that collect characters in a string.
pub proof fn lemma_many_string_progress<P: Parser<char>>(many: Many<P>, many1: Many1<P>)
    requires
        advances(many.0),
        advances(many1.0),
    ensures
        never_grows::<String, Many<P>>(many),
        advances::<String, Many1<P>>(many1),
{
    assert forall|input: Seq<char>, items: String, rest: Seq<char>| #[trigger]
        many.parses(input, Some((items, rest))) implies rest.len() <= input.len() by {
        lemma_reads_progress(many.0, input, items@, rest);
    }
    assert forall|input: Seq<char>, items: String, rest: Seq<char>| #[trigger]
        many1.parses(input, Some((items, rest))) implies rest.len() < input.len() by {
        lemma_reads_progress(many1.0, input, items@, rest);
    }
}

/// A counted repetition never grows where its parser does not, and moves
/// forward where its parser does and at least one item is asked for.
pub proof fn lemma_count_progress<T, P: Parser<T>>(p: Count<P>)
    ensures
        never_grows(p.0) ==> never_grows::<Vec<T>, Count<P>>(p),
        advances(p.0) && p.1 >= 1 ==> advances::<Vec<T>, Count<P>>(p),
{
    assert forall|input: Seq<char>, items: Vec<T>, rest: Seq<char>| #[trigger]
        p.parses(input, Some((items, rest))) implies (never_grows(p.0) ==> rest.len()
        <= input.len()) && (advances(p.0) && p.1 >= 1 ==> rest.len() < input.len()) by {
        lemma_reads_progress(p.0, input, items@, rest);
    }
}

/// The same for a counted repetition that collects characters in a string.
pub proof fn lemma_count_string_progress<P: Parser<char>>(p: Count<P>)
    ensures
        never_grows(p.0) ==> never_grows::<String, Count<P>>(p),
        advances(p.0) && p.1 >= 1 ==> advances::<String, Count<P>>(p),
{
    assert forall|input: Seq<char>, items: String, rest: Seq<char>| #[trigger]
        p.parses(input, Some((items, rest))) implies (never_grows(p.0) ==> rest.len()
        <= input.len()) && (advances(p.0) && p.1 >= 1 ==> rest.len() < input.len()) by {
        lemma_reads_progress(p.0, input, items@, rest);
    }
}

/// A list, and a chain in either direction, can be run where one of its two
/// parsers moves forward and the other never grows.
pub proof fn lemma_pair_advances<A, PA: Parser<A>, B, PB: Parser<B>>(element: PA, separator: PB)
    requires
        advances(element) && never_grows(separator) || never_grows(element) && advances(
            separator,
        ),
    ensures
        list_advances(element, separator),
        step_advances(element, separator),
        link_advances(element, separator),
{
    assert forall|before: Seq<char>, item: A, after: Seq<char>| #[trigger]
        follows(element, separator, before, item, after) implies after.len() < before.len() by {
        let s = choose|s: B| #[trigger] both(separator, element, before, s, item, after);
        lemma_both_progress(separator, element, before, s, item, after);
    }
    assert forall|before: Seq<char>, f: B, w: A, after: Seq<char>| #[trigger]
        both(separator, element, before, f, w, after) implies after.len() < before.len() by {
        lemma_both_progress(separator, element, before, f, w, after);
    }
    assert forall|before: Seq<char>, v: A, f: B, after: Seq<char>| #[trigger]
        both(element, separator, before, v, f, after) implies after.len() < before.len() by {
        lemma_both_progress(element, separator, before, v, f, after);
    }
}

/// The input left behind item `k` of a list is no longer than the input of the
/// list, where the element never grows and each further item moves forward.
proof fn lemma_listed_progress<A, PA: Parser<A>, B, PB: Parser<B>>(
    element: PA,
    separator: PB,
    input: Seq<char>,
    trail: Seq<Seq<char>>,
    items: Seq<A>,
    k: int,
)
    requires
        never_grows(element),
        list_advances(element, separator),
        listed(element, separator, input, trail, items),
        0 <= k < items.len(),
    ensures
        trail[k].len() <= input.len(),
        advances(element) ==> trail[k].len() < input.len(),
    decreases k,
{
    if k > 0 {
        lemma_listed_progress(element, separator, input, trail, items, k - 1);
        assert(follows(element, separator, trail[k - 1], items[k - 1 + 1], trail[k - 1 + 1]));
    }
}

/// A list never grows where its element does not and it can be run, whether
/// or not it takes a separator at its end, provided that the separator never
/// grows either.
pub proof fn lemma_list_progress<A, PA: Parser<A>, B, PB: Parser<B>>(
    list: SeparatedBy<A, PA, B, PB>,
    list_end: SeparatedEndBy<A, PA, B, PB>,
)
    requires
        list.0 == list_end.0,
        list.1 == list_end.1,
        never_grows(list.0),
        never_grows(list.1),
        list_advances(list.0, list.1),
    ensures
        never_grows(list),
        never_grows(list_end),
{
    let element = list.0;
    let separator = list.1;
    assert forall|input: Seq<char>, items: Vec<A>, rest: Seq<char>| #[trigger]
        list.parses(input, Some((items, rest))) implies rest.len() <= input.len() by {
        if items@.len() > 0 {
            let trail = choose|trail: Seq<Seq<char>>|
                {
                    &&& #[trigger] listed(element, separator, input, trail, items@)
                    &&& rest == trail.last()
                };
            lemma_listed_progress(element, separator, input, trail, items@, items@.len() - 1);
        }
    }
    assert forall|input: Seq<char>, items: Vec<A>, rest: Seq<char>| #[trigger]
        list_end.parses(input, Some((items, rest))) implies rest.len() <= input.len() by {
        if items@.len() > 0 {
            let trail = choose|trail: Seq<Seq<char>>|
                {
                    &&& #[trigger] listed(element, separator, input, trail, items@)
                    &&& closes(element, separator, trail.last(), rest)
                };
            lemma_listed_progress(element, separator, input, trail, items@, items@.len() - 1);
        }
    }
}

/// The input left after `k` operators of a chain folded from the left is
/// shorter than the input of the chain, where the term moves forward.
proof fn lemma_folded_progress<A, PA: Parser<A>, B: Fn(A, A) -> A, PB: Parser<B>>(
    term: PA,
    operator: PB,
    input: Seq<char>,
    trail: Seq<Seq<char>>,
    accs: Seq<A>,
    k: int,
)
    requires
        step_advances(term, operator),
        folded(term, operator, input, trail, accs),
        0 <= k < accs.len(),
    ensures
        never_grows(term) ==> trail[k].len() <= input.len(),
        advances(term) ==> trail[k].len() < input.len(),
    decreases k,
{
    if k > 0 {
        lemma_folded_progress(term, operator, input, trail, accs, k - 1);
        assert(combines(
            term,
            operator,
            accs[k - 1],
            trail[k - 1],
            accs[k - 1 + 1],
            trail[k - 1 + 1],
        ));
        let (f, w) = choose|f: B, w: A| #[trigger]
            both(operator, term, trail[k - 1], f, w, trail[k]) && call_ensures(
                f,
                (accs[k - 1], w),
                accs[k],
            );
        assert(both(operator, term, trail[k - 1], f, w, trail[k]));
    }
}

/// A chain folded from the left consumes at least what its first term
/// consumes: it moves forward where the term does, and never grows where the
/// term does not.
pub proof fn lemma_chain_left1_progress<A, PA: Parser<A>, B: Fn(A, A) -> A, PB: Parser<B>>(
    p: ChainLeft1<A, PA, B, PB>,
)
    requires
        step_advances(p.0, p.1),
    ensures
        never_grows(p.0) ==> never_grows(p),
        advances(p.0) ==> advances(p),
{
    assert forall|input: Seq<char>, value: A, rest: Seq<char>| #[trigger]
        p.parses(input, Some((value, rest))) implies (never_grows(p.0) ==> rest.len()
        <= input.len()) && (advances(p.0) ==> rest.len() < input.len()) by {
        let (trail, accs) = choose|trail: Seq<Seq<char>>, accs: Seq<A>|
            {
                &&& #[trigger] folded(p.0, p.1, input, trail, accs)
                &&& value == accs.last()
                &&& rest == trail.last()
            };
        lemma_folded_progress(p.0, p.1, input, trail, accs, accs.len() - 1);
    }
}

/// What a chain folded from the right leaves is no longer than what its first
/// term leaves.
proof fn lemma_chains_right_progress<A, PA: Parser<A>, B: Fn(A, A) -> A, PB: Parser<B>>(
    term: PA,
    operator: PB,
    input: Seq<char>,
    value: A,
    rest: Seq<char>,
)
    requires
        never_grows(term),
        chains_right(term, operator, input, value, rest),
    ensures
        rest.len() <= input.len(),
        advances(term) ==> rest.len() < input.len(),
    decreases input.len(),
{
    let (v, tail) = choose|v: A, tail: Seq<char>| #[trigger]
        term.parses(input, Some((v, tail))) && {
            ||| value == v && rest == tail && neither(operator, term, tail)
            ||| goes_on(term, operator, input, v, tail, value, rest)
        };
    if goes_on(term, operator, input, v, tail, value, rest) {
        let (f, next, w) = choose|f: B, next: Seq<char>, w: A|
            {
                &&& #[trigger] operator.parses(tail, Some((f, next)))
                &&& next.len() < input.len()
                &&& chains_right(term, operator, next, w, rest)
                &&& #[trigger] call_ensures(f, (v, w), value)
            };
        lemma_chains_right_progress(term, operator, next, w, rest);
    }
}

/// A chain folded from the right never grows where its term does not, and
/// moves forward where its term does.
pub proof fn lemma_chain_right1_progress<A, PA: Parser<A>, B: Fn(A, A) -> A, PB: Parser<B>>(
    p: ChainRight1<A, PA, B, PB>,
)
    requires
        never_grows(p.0),
    ensures
        never_grows(p),
        advances(p.0) ==> advances(p),
{
    assert forall|input: Seq<char>, value: A, rest: Seq<char>| #[trigger]
        p.parses(input, Some((value, rest))) implies rest.len() <= input.len() && (advances(p.0)
        ==> rest.len() < input.len()) by {
        lemma_chains_right_progress(p.0, p.1, input, value, rest);
    }
}

} // verus!
