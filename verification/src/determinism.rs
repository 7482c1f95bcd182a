//! One outcome per input.
//!
//! A parser built from functions has the outcomes that those functions allow,
//! and may have several on one input. Where every part of a parser has one
//! outcome per input, so has the whole: run twice on the same input, it ends in
//! the same way. This is shown here combinator by combinator. A combinator that
//! collects items is shown to find the same sequence of items.

use vstd::prelude::*;
use crate::chain::{
    chains_left, chains_right, combines, folded, goes_on, ChainLeft1, ChainRight1,
};
use crate::list::{closes, follows, listed, separated, separated_end};
use crate::parser::{deterministic, Parser};
use crate::primitive::{Any, Char, Eof, Epsilon, Satisfy, Str, Whitespaces};
use crate::repeat::{falls_short, reads, repeats, run_of};
use crate::sequence::{both, neither, Choice, Left, LookAhead, Optional, Right};
use crate::text::outcome;
use crate::transform::{AndThen, Function, Mapped};

verus! {

/// The parsers that hold no function have one outcome per input.
pub proof fn lemma_primitives_deterministic()
    ensures
        deterministic(Any),
        deterministic(Eof),
        deterministic(Epsilon),
        deterministic(Whitespaces),
        forall|c: char| #[trigger] deterministic(Char(c)),
        forall|pattern: &str| #[trigger] deterministic(Str(pattern)),
{
}

/// `f` says yes or no to each character, never both.
pub open spec fn decides<F: Fn(char) -> bool>(f: F) -> bool {
    forall|c: char| !(#[trigger] call_ensures(f, (c,), true) && call_ensures(f, (c,), false))
}

/// A predicate parser has one outcome per input where its predicate says yes
/// or no to each character, never both.
pub proof fn lemma_satisfy_deterministic<F: Fn(char) -> bool>(p: Satisfy<F>)
    requires
        decides(p.0),
    ensures
        deterministic(p),
{
}

/// What `f` returns depends on the characters of the slice alone, and there is
/// one outcome for each.
pub open spec fn reads_only<T, F: Fn(&str) -> Option<(T, &str)>>(f: F) -> bool {
    forall|a: &str, x: Option<(T, &str)>, b: &str, y: Option<(T, &str)>|
        #![trigger call_ensures(f, (a,), x), call_ensures(f, (b,), y)]
        a@ == b@ && call_ensures(f, (a,), x) && call_ensures(f, (b,), y) ==> outcome(x)
            == outcome(y)
}

/// A function has one outcome per input, as a parser and wrapped, where what
/// it returns depends on the characters of the slice alone.
pub proof fn lemma_rule_deterministic<T, F: Fn(&str) -> Option<(T, &str)>>(f: F, p: Function<F>)
    requires
        reads_only(f),
        p.0 == f,
    ensures
        deterministic::<T, F>(f),
        deterministic::<T, Function<F>>(p),
{
    assert forall|input: Seq<char>, x: Option<(T, Seq<char>)>, y: Option<(T, Seq<char>)>|
        #[trigger] f.parses(input, x) && #[trigger] f.parses(input, y) implies x == y by {
        let (a, ra) = choose|text: &str, result: Option<(T, &str)>|
            text@ == input && outcome(result) == x && #[trigger] call_ensures(f, (text,), result);
        let (b, rb) = choose|text: &str, result: Option<(T, &str)>|
            text@ == input && outcome(result) == y && #[trigger] call_ensures(f, (text,), result);
        assert(outcome(ra) == outcome(rb));
    }
    assert forall|input: Seq<char>, x: Option<(T, Seq<char>)>, y: Option<(T, Seq<char>)>|
        #[trigger] p.parses(input, x) && #[trigger] p.parses(input, y) implies x == y by {
        assert(f.parses(input, x) && f.parses(input, y));
    }
}

/// `f` returns one parser for each argument, and each parser that it returns
/// has one outcome per input.
pub open spec fn selects_one<A, B, PB: Parser<B>, F: Fn(A) -> PB>(f: F) -> bool {
    &&& forall|v: A, x: PB, y: PB| #[trigger]
        call_ensures(f, (v,), x) && #[trigger] call_ensures(f, (v,), y) ==> x == y
    &&& forall|v: A, next: PB| #[trigger] call_ensures(f, (v,), next) ==> deterministic(next)
}

/// A parser followed by the parser that a function returns for its value has
/// one outcome per input where the parser has, the function returns one parser
/// for each value, and each such parser has one outcome per input.
pub proof fn lemma_and_then_deterministic<A, PA: Parser<A>, B, PB: Parser<B>, F: Fn(A) -> PB>(
    p: AndThen<A, PA, F>,
)
    requires
        deterministic(p.0),
        selects_one::<A, B, PB, F>(p.1),
    ensures
        deterministic::<B, AndThen<A, PA, F>>(p),
{
    assert forall|input: Seq<char>, x: Option<(B, Seq<char>)>, y: Option<(B, Seq<char>)>|
        #[trigger] Parser::<B>::parses(&p, input, x) && #[trigger] Parser::<B>::parses(
            &p,
            input,
            y,
        ) implies x == y by {
        let x_fails = x is None && p.0.parses(input, None);
        let y_fails = y is None && p.0.parses(input, None);
        if !x_fails {
            let (xv, x_mid, x_next) = choose|v: A, mid: Seq<char>, next: PB|
                #![trigger p.0.parses(input, Some((v, mid))), call_ensures(p.1, (v,), next)]
                p.0.parses(input, Some((v, mid))) && call_ensures(p.1, (v,), next) && next.parses(
                    mid,
                    x,
                );
            if !y_fails {
                let (yv, y_mid, y_next) = choose|v: A, mid: Seq<char>, next: PB|
                    #![trigger p.0.parses(input, Some((v, mid))), call_ensures(p.1, (v,), next)]
                    p.0.parses(input, Some((v, mid))) && call_ensures(p.1, (v,), next)
                        && next.parses(mid, y);
                assert(Some((xv, x_mid)) == Some((yv, y_mid)));
                assert(x_next == y_next);
            } else {
                assert(Some((xv, x_mid)) == None::<(A, Seq<char>)>);
            }
        } else if !y_fails {
            let (yv, y_mid, y_next) = choose|v: A, mid: Seq<char>, next: PB|
                #![trigger p.0.parses(input, Some((v, mid))), call_ensures(p.1, (v,), next)]
                p.0.parses(input, Some((v, mid))) && call_ensures(p.1, (v,), next) && next.parses(
                    mid,
                    y,
                );
            assert(Some((yv, y_mid)) == None::<(A, Seq<char>)>);
        }
    }
}

/// Two runs of a parser with one outcome per input, started on the same input,
/// agree item by item and position by position as far as both go.
proof fn lemma_runs_agree<T, P: Parser<T>>(
    p: P,
    a_trail: Seq<Seq<char>>,
    a: Seq<T>,
    b_trail: Seq<Seq<char>>,
    b: Seq<T>,
    k: int,
)
    requires
        deterministic(p),
        run_of(p, a_trail, a),
        run_of(p, b_trail, b),
        a_trail[0] == b_trail[0],
        0 <= k <= a.len(),
        k <= b.len(),
    ensures
        a_trail[k] == b_trail[k],
        forall|j: int| 0 <= j < k ==> a[j] == b[j],
    decreases k,
{
    if k > 0 {
        lemma_runs_agree(p, a_trail, a, b_trail, b, k - 1);
        assert(p.parses(a_trail[k - 1], Some((a[k - 1], a_trail[k - 1 + 1]))));
        assert(p.parses(b_trail[k - 1], Some((b[k - 1], b_trail[k - 1 + 1]))));
    }
}

/// A parser with one outcome per input reads a given number of items in a row
/// in one way only.
pub proof fn lemma_reads_deterministic<T, P: Parser<T>>(
    p: P,
    input: Seq<char>,
    a: Seq<T>,
    a_rest: Seq<char>,
    b: Seq<T>,
    b_rest: Seq<char>,
)
    requires
        deterministic(p),
        reads(p, input, a, a_rest),
        reads(p, input, b, b_rest),
        a.len() == b.len(),
    ensures
        a == b,
        a_rest == b_rest,
{
    let a_trail = choose|trail: Seq<Seq<char>>|
        {
            &&& #[trigger] run_of(p, trail, a)
            &&& trail[0] == input
            &&& trail.last() == a_rest
        };
    let b_trail = choose|trail: Seq<Seq<char>>|
        {
            &&& #[trigger] run_of(p, trail, b)
            &&& trail[0] == input
            &&& trail.last() == b_rest
        };
    lemma_runs_agree(p, a_trail, a, b_trail, b, a.len() as int);
    assert(a =~= b);
}

/// Repeating a parser with one outcome per input has one outcome per input:
/// the same items are read and the same input is left, however often it is
/// run. So a repetition taken up from where a part of it stopped ends where
/// the whole one ends.
pub proof fn lemma_repeats_deterministic<T, P: Parser<T>>(
    p: P,
    input: Seq<char>,
    a: Seq<T>,
    a_rest: Seq<char>,
    b: Seq<T>,
    b_rest: Seq<char>,
)
    requires
        deterministic(p),
        repeats(p, input, a, a_rest),
        repeats(p, input, b, b_rest),
    ensures
        a == b,
        a_rest == b_rest,
{
    let a_trail = choose|trail: Seq<Seq<char>>|
        {
            &&& #[trigger] run_of(p, trail, a)
            &&& trail[0] == input
            &&& trail.last() == a_rest
        };
    let b_trail = choose|trail: Seq<Seq<char>>|
        {
            &&& #[trigger] run_of(p, trail, b)
            &&& trail[0] == input
            &&& trail.last() == b_rest
        };
    if a.len() < b.len() {
        let n = a.len() as int;
        lemma_runs_agree(p, a_trail, a, b_trail, b, n);
        assert(p.parses(b_trail[n], Some((b[n], b_trail[n + 1]))));
        assert(false);
    }
    if b.len() < a.len() {
        let n = b.len() as int;
        lemma_runs_agree(p, a_trail, a, b_trail, b, n);
        assert(p.parses(a_trail[n], Some((a[n], a_trail[n + 1]))));
        assert(false);
    }
    lemma_reads_deterministic(p, input, a, a_rest, b, b_rest);
}

/// Two parsers with one outcome per input, run in a row, succeed in one way
/// only.
pub proof fn lemma_both_deterministic<A, PA: Parser<A>, B, PB: Parser<B>>(
    first: PA,
    second: PB,
    input: Seq<char>,
    a: (A, B, Seq<char>),
    b: (A, B, Seq<char>),
)
    requires
        deterministic(first),
        deterministic(second),
        both(first, second, input, a.0, a.1, a.2),
        both(first, second, input, b.0, b.1, b.2),
    ensures
        a == b,
{
    let a_mid = choose|mid: Seq<char>| #[trigger]
        first.parses(input, Some((a.0, mid))) && second.parses(mid, Some((a.1, a.2)));
    let b_mid = choose|mid: Seq<char>| #[trigger]
        first.parses(input, Some((b.0, mid))) && second.parses(mid, Some((b.1, b.2)));
    assert(Some((a.0, a_mid)) == Some((b.0, b_mid)));
    assert(Some((a.1, a.2)) == Some((b.1, b.2)));
}

/// Two parsers with one outcome per input, run in a row, do not both succeed
/// and fail on the same input.
pub proof fn lemma_both_excludes_neither<A, PA: Parser<A>, B, PB: Parser<B>>(
    first: PA,
    second: PB,
    input: Seq<char>,
    a: A,
    b: B,
    rest: Seq<char>,
)
    requires
        deterministic(first),
        deterministic(second),
        both(first, second, input, a, b, rest),
    ensures
        !neither(first, second, input),
{
    let mid = choose|mid: Seq<char>| #[trigger]
        first.parses(input, Some((a, mid))) && second.parses(mid, Some((b, rest)));
    if neither(first, second, input) {
        if first.parses(input, None) {
            assert(Some((a, mid)) == None::<(A, Seq<char>)>);
        } else {
            let (x, other) = choose|x: A, other: Seq<char>| #[trigger]
                first.parses(input, Some((x, other))) && second.parses(other, None);
            assert(Some((a, mid)) == Some((x, other)));
            assert(Some((b, rest)) == None::<(B, Seq<char>)>);
        }
    }
}

/// A sequence of two parsers with one outcome per input has one outcome per
/// input, whichever value it keeps.
pub proof fn lemma_sequence_deterministic<A, PA: Parser<A>, B, PB: Parser<B>>(
    first: PA,
    second: PB,
    left: Left<A, PA, B, PB>,
    right: Right<A, PA, B, PB>,
)
    requires
        deterministic(first),
        deterministic(second),
        left.0 == first && left.1 == second,
        right.0 == first && right.1 == second,
    ensures
        deterministic(left),
        deterministic(right),
{
    assert forall|input: Seq<char>, x: Option<(A, Seq<char>)>, y: Option<(A, Seq<char>)>|
        #[trigger] left.parses(input, x) && #[trigger] left.parses(input, y) implies x == y by {
        match (x, y) {
            (Some((xa, xr)), Some((ya, yr))) => {
                let xb = choose|b: B| #[trigger] both(first, second, input, xa, b, xr);
                let yb = choose|b: B| #[trigger] both(first, second, input, ya, b, yr);
                lemma_both_deterministic(first, second, input, (xa, xb, xr), (ya, yb, yr));
            },
            (Some((xa, xr)), None) => {
                let xb = choose|b: B| #[trigger] both(first, second, input, xa, b, xr);
                lemma_both_excludes_neither(first, second, input, xa, xb, xr);
            },
            (None, Some((ya, yr))) => {
                let yb = choose|b: B| #[trigger] both(first, second, input, ya, b, yr);
                lemma_both_excludes_neither(first, second, input, ya, yb, yr);
            },
            (None, None) => {},
        }
    }
    assert forall|input: Seq<char>, x: Option<(B, Seq<char>)>, y: Option<(B, Seq<char>)>|
        #[trigger] right.parses(input, x) && #[trigger] right.parses(input, y) implies x == y by {
        match (x, y) {
            (Some((xb, xr)), Some((yb, yr))) => {
                let xa = choose|a: A| #[trigger] both(first, second, input, a, xb, xr);
                let ya = choose|a: A| #[trigger] both(first, second, input, a, yb, yr);
                lemma_both_deterministic(first, second, input, (xa, xb, xr), (ya, yb, yr));
            },
            (Some((xb, xr)), None) => {
                let xa = choose|a: A| #[trigger] both(first, second, input, a, xb, xr);
                lemma_both_excludes_neither(first, second, input, xa, xb, xr);
            },
            (None, Some((yb, yr))) => {
                let ya = choose|a: A| #[trigger] both(first, second, input, a, yb, yr);
                lemma_both_excludes_neither(first, second, input, ya, yb, yr);
            },
            (None, None) => {},
        }
    }
}

/// An alternative of two parsers with one outcome per input has one outcome
/// per input.
pub proof fn lemma_choice_deterministic<T, PA: Parser<T>, PB: Parser<T>>(p: Choice<PA, PB>)
    requires
        deterministic(p.0),
        deterministic(p.1),
    ensures
        deterministic::<T, Choice<PA, PB>>(p),
{
    assert forall|input: Seq<char>, x: Option<(T, Seq<char>)>, y: Option<(T, Seq<char>)>|
        #[trigger] p.parses(input, x) && #[trigger] p.parses(input, y) implies x == y by {
        if p.0.parses(input, None) && (x is Some && p.0.parses(input, x) || y is Some
            && p.0.parses(input, y)) {
            assert(false);
        }
    }
}

/// A lookahead and an optional parser have one outcome per input where the
/// parser inside has.
pub proof fn lemma_look_ahead_deterministic<T, P: Parser<T>>(
    ahead: LookAhead<P>,
    optional: Optional<T, P>,
)
    requires
        deterministic(ahead.0),
        deterministic(optional.0),
    ensures
        deterministic::<T, LookAhead<P>>(ahead),
        deterministic(optional),
{
    assert forall|input: Seq<char>, x: Option<(T, Seq<char>)>, y: Option<(T, Seq<char>)>|
        #[trigger] ahead.parses(input, x) && #[trigger] ahead.parses(input, y) implies x
        == y by {
        match (x, y) {
            (Some((xv, _)), Some((yv, _))) => {
                let xr = choose|rest: Seq<char>| #[trigger] ahead.0.parses(input, Some((xv, rest)));
                let yr = choose|rest: Seq<char>| #[trigger] ahead.0.parses(input, Some((yv, rest)));
                assert(Some((xv, xr)) == Some((yv, yr)));
            },
            (Some((xv, _)), None) => {
                let xr = choose|rest: Seq<char>| #[trigger] ahead.0.parses(input, Some((xv, rest)));
                assert(Some((xv, xr)) == None::<(T, Seq<char>)>);
            },
            (None, Some((yv, _))) => {
                let yr = choose|rest: Seq<char>| #[trigger] ahead.0.parses(input, Some((yv, rest)));
                assert(Some((yv, yr)) == None::<(T, Seq<char>)>);
            },
            (None, None) => {},
        }
    }
    assert forall|input: Seq<char>, x: Option<((), Seq<char>)>, y: Option<((), Seq<char>)>|
        #[trigger] optional.parses(input, x) && #[trigger] optional.parses(input, y) implies x
        == y by {
        let (_, xr) = x->0;
        let (_, yr) = y->0;
        let failed = optional.0.parses(input, None);
        if !(xr == input && failed) {
            let xv = choose|value: T| #[trigger] optional.0.parses(input, Some((value, xr)));
            if !(yr == input && failed) {
                let yv = choose|value: T| #[trigger] optional.0.parses(input, Some((value, yr)));
                assert(Some((xv, xr)) == Some((yv, yr)));
            } else {
                assert(Some((xv, xr)) == None::<(T, Seq<char>)>);
            }
        } else if !(yr == input && failed) {
            let yv = choose|value: T| #[trigger] optional.0.parses(input, Some((value, yr)));
            assert(Some((yv, yr)) == None::<(T, Seq<char>)>);
        }
    }
}

/// `f` returns one value for each argument.
pub open spec fn single_valued<A, B, F: Fn(A) -> B>(f: F) -> bool {
    forall|v: A, x: B, y: B| #[trigger]
        call_ensures(f, (v,), x) && #[trigger] call_ensures(f, (v,), y) ==> x == y
}

/// A parser with one outcome per input, mapped by a function that returns one
/// value for each argument, has one outcome per input.
pub proof fn lemma_mapped_deterministic<A, PA: Parser<A>, B, F: Fn(A) -> B>(p: Mapped<A, PA, F>)
    requires
        deterministic(p.0),
        single_valued(p.1),
    ensures
        deterministic::<B, Mapped<A, PA, F>>(p),
{
    assert forall|input: Seq<char>, x: Option<(B, Seq<char>)>, y: Option<(B, Seq<char>)>|
        #[trigger] p.parses(input, x) && #[trigger] p.parses(input, y) implies x == y by {
        match (x, y) {
            (Some((xv, xr)), Some((yv, yr))) => {
                let xa = choose|v: A| #[trigger]
                    p.0.parses(input, Some((v, xr))) && call_ensures(p.1, (v,), xv);
                let ya = choose|v: A| #[trigger]
                    p.0.parses(input, Some((v, yr))) && call_ensures(p.1, (v,), yv);
                assert(Some((xa, xr)) == Some((ya, yr)));
            },
            (Some((xv, xr)), None) => {
                let xa = choose|v: A| #[trigger]
                    p.0.parses(input, Some((v, xr))) && call_ensures(p.1, (v,), xv);
                assert(Some((xa, xr)) == None::<(A, Seq<char>)>);
            },
            (None, Some((yv, yr))) => {
                let ya = choose|v: A| #[trigger]
                    p.0.parses(input, Some((v, yr))) && call_ensures(p.1, (v,), yv);
                assert(Some((ya, yr)) == None::<(A, Seq<char>)>);
            },
            (None, None) => {},
        }
    }
}

/// A parser with one outcome per input does not read a number of items in a
/// row and also fail before that number is reached.
pub proof fn lemma_reads_excludes_falling_short<T, P: Parser<T>>(
    p: P,
    input: Seq<char>,
    items: Seq<T>,
    rest: Seq<char>,
)
    requires
        deterministic(p),
        reads(p, input, items, rest),
    ensures
        !falls_short::<T, P>(p, input, items.len()),
{
    if falls_short::<T, P>(p, input, items.len()) {
        let (fewer, stop) = choose|fewer: Seq<T>, stop: Seq<char>| #[trigger]
            reads(p, input, fewer, stop) && fewer.len() < items.len() && p.parses(stop, None);
        let trail = choose|trail: Seq<Seq<char>>|
            {
                &&& #[trigger] run_of(p, trail, items)
                &&& trail[0] == input
                &&& trail.last() == rest
            };
        let short = choose|trail: Seq<Seq<char>>|
            {
                &&& #[trigger] run_of(p, trail, fewer)
                &&& trail[0] == input
                &&& trail.last() == stop
            };
        let n = fewer.len() as int;
        lemma_runs_agree(p, trail, items, short, fewer, n);
        assert(p.parses(trail[n], Some((items[n], trail[n + 1]))));
        assert(false);
    }
}

/// Two lists read off the same input by parsers with one outcome per input
/// agree item by item and position by position as far as both go.
proof fn lemma_lists_agree<A, PA: Parser<A>, B, PB: Parser<B>>(
    element: PA,
    separator: PB,
    input: Seq<char>,
    a_trail: Seq<Seq<char>>,
    a: Seq<A>,
    b_trail: Seq<Seq<char>>,
    b: Seq<A>,
    k: int,
)
    requires
        deterministic(element),
        deterministic(separator),
        listed(element, separator, input, a_trail, a),
        listed(element, separator, input, b_trail, b),
        0 <= k < a.len(),
        k < b.len(),
    ensures
        a[k] == b[k],
        a_trail[k] == b_trail[k],
    decreases k,
{
    if k == 0 {
        assert(Some((a[0], a_trail[0])) == Some((b[0], b_trail[0])));
    } else {
        lemma_lists_agree(element, separator, input, a_trail, a, b_trail, b, k - 1);
        let before = a_trail[k - 1];
        assert(follows(element, separator, before, a[k - 1 + 1], a_trail[k - 1 + 1]));
        assert(follows(element, separator, before, b[k - 1 + 1], b_trail[k - 1 + 1]));
        let x = choose|s: B| #[trigger] both(separator, element, before, s, a[k], a_trail[k]);
        let y = choose|s: B| #[trigger] both(separator, element, before, s, b[k], b_trail[k]);
        lemma_both_deterministic(
            separator,
            element,
            before,
            (x, a[k], a_trail[k]),
            (y, b[k], b_trail[k]),
        );
    }
}

/// Of two lists read off the same input by parsers with one outcome per
/// input, neither stops where the other goes on.
proof fn lemma_lists_stop_together<A, PA: Parser<A>, B, PB: Parser<B>>(
    element: PA,
    separator: PB,
    input: Seq<char>,
    a_trail: Seq<Seq<char>>,
    a: Seq<A>,
    b_trail: Seq<Seq<char>>,
    b: Seq<A>,
)
    requires
        deterministic(element),
        deterministic(separator),
        listed(element, separator, input, a_trail, a),
        listed(element, separator, input, b_trail, b),
        a.len() < b.len(),
    ensures
        !neither(separator, element, a_trail.last()),
        !separator.parses(a_trail.last(), None),
        forall|s: B, rest: Seq<char>| #[trigger]
            separator.parses(a_trail.last(), Some((s, rest))) ==> !element.parses(rest, None),
{
    let n = a.len() - 1;
    lemma_lists_agree(element, separator, input, a_trail, a, b_trail, b, n);
    let last = b_trail[n];
    assert(follows(element, separator, last, b[n + 1], b_trail[n + 1]));
    let s = choose|s: B| #[trigger] both(separator, element, last, s, b[n + 1], b_trail[n + 1]);
    lemma_both_excludes_neither(separator, element, last, s, b[n + 1], b_trail[n + 1]);
    let mid = choose|mid: Seq<char>| #[trigger]
        separator.parses(last, Some((s, mid))) && element.parses(
            mid,
            Some((b[n + 1], b_trail[n + 1])),
        );
    assert forall|x: B, rest: Seq<char>| #[trigger]
        separator.parses(last, Some((x, rest))) implies !element.parses(rest, None) by {
        assert(Some((x, rest)) == Some((s, mid)));
    }
}

/// A separated list has one outcome per input where the element and the
/// separator have: the same items are found and the same input is left.
pub proof fn lemma_separated_deterministic<A, PA: Parser<A>, B, PB: Parser<B>>(
    element: PA,
    separator: PB,
    input: Seq<char>,
    a: Seq<A>,
    a_rest: Seq<char>,
    b: Seq<A>,
    b_rest: Seq<char>,
)
    requires
        deterministic(element),
        deterministic(separator),
        separated(element, separator, input, a, a_rest),
        separated(element, separator, input, b, b_rest),
    ensures
        a == b,
        a_rest == b_rest,
{
    if a.len() == 0 || b.len() == 0 {
        if a.len() > 0 {
            let trail = choose|trail: Seq<Seq<char>>| #[trigger]
                listed(element, separator, input, trail, a);
            assert(Some((a[0], trail[0])) == None::<(A, Seq<char>)>);
        }
        if b.len() > 0 {
            let trail = choose|trail: Seq<Seq<char>>| #[trigger]
                listed(element, separator, input, trail, b);
            assert(Some((b[0], trail[0])) == None::<(A, Seq<char>)>);
        }
        assert(a == b);
    } else {
        let a_trail = choose|trail: Seq<Seq<char>>|
            {
                &&& #[trigger] listed(element, separator, input, trail, a)
                &&& a_rest == trail.last()
                &&& neither(separator, element, a_rest)
            };
        let b_trail = choose|trail: Seq<Seq<char>>|
            {
                &&& #[trigger] listed(element, separator, input, trail, b)
                &&& b_rest == trail.last()
                &&& neither(separator, element, b_rest)
            };
        if a.len() < b.len() {
            lemma_lists_stop_together(element, separator, input, a_trail, a, b_trail, b);
        }
        if b.len() < a.len() {
            lemma_lists_stop_together(element, separator, input, b_trail, b, a_trail, a);
        }
        assert forall|k: int| 0 <= k < a.len() implies a[k] == b[k] by {
            lemma_lists_agree(element, separator, input, a_trail, a, b_trail, b, k);
        }
        lemma_lists_agree(element, separator, input, a_trail, a, b_trail, b, a.len() - 1);
        assert(a == b);
    }
}

/// A separated list that may end in a separator has one outcome per input
/// where the element and the separator have.
pub proof fn lemma_separated_end_deterministic<A, PA: Parser<A>, B, PB: Parser<B>>(
    element: PA,
    separator: PB,
    input: Seq<char>,
    a: Seq<A>,
    a_rest: Seq<char>,
    b: Seq<A>,
    b_rest: Seq<char>,
)
    requires
        deterministic(element),
        deterministic(separator),
        separated_end(element, separator, input, a, a_rest),
        separated_end(element, separator, input, b, b_rest),
    ensures
        a == b,
        a_rest == b_rest,
{
    if a.len() == 0 || b.len() == 0 {
        if a.len() > 0 {
            let trail = choose|trail: Seq<Seq<char>>| #[trigger]
                listed(element, separator, input, trail, a);
            assert(Some((a[0], trail[0])) == None::<(A, Seq<char>)>);
        }
        if b.len() > 0 {
            let trail = choose|trail: Seq<Seq<char>>| #[trigger]
                listed(element, separator, input, trail, b);
            assert(Some((b[0], trail[0])) == None::<(A, Seq<char>)>);
        }
        assert(a == b);
    } else {
        let a_trail = choose|trail: Seq<Seq<char>>|
            {
                &&& #[trigger] listed(element, separator, input, trail, a)
                &&& closes(element, separator, trail.last(), a_rest)
            };
        let b_trail = choose|trail: Seq<Seq<char>>|
            {
                &&& #[trigger] listed(element, separator, input, trail, b)
                &&& closes(element, separator, trail.last(), b_rest)
            };
        if a.len() < b.len() {
            lemma_lists_stop_together(element, separator, input, a_trail, a, b_trail, b);
            assert(false);
        }
        if b.len() < a.len() {
            lemma_lists_stop_together(element, separator, input, b_trail, b, a_trail, a);
            assert(false);
        }
        assert forall|k: int| 0 <= k < a.len() implies a[k] == b[k] by {
            lemma_lists_agree(element, separator, input, a_trail, a, b_trail, b, k);
        }
        lemma_lists_agree(element, separator, input, a_trail, a, b_trail, b, a.len() - 1);
        assert(a == b);
        let last = a_trail.last();
        if !separator.parses(last, None) {
            let x = choose|s: B| #[trigger]
                separator.parses(last, Some((s, a_rest))) && element.parses(a_rest, None);
            let y = choose|s: B| #[trigger]
                separator.parses(last, Some((s, b_rest))) && element.parses(b_rest, None);
            assert(Some((x, a_rest)) == Some((y, b_rest)));
        } else {
            assert forall|s: B, rest: Seq<char>| !#[trigger] separator.parses(
                last,
                Some((s, rest)),
            ) by {
                if separator.parses(last, Some((s, rest))) {
                    assert(Some((s, rest)) == None::<(B, Seq<char>)>);
                }
            }
        }
    }
}

/// Every function that `operator` can yield returns one value for each pair of
/// arguments.
pub open spec fn yields_single_valued<A, B: Fn(A, A) -> A, PB: Parser<B>>(operator: PB) -> bool {
    forall|input: Seq<char>, f: B, rest: Seq<char>, v: A, w: A, x: A, y: A|
        #![trigger
            operator.parses(input, Some((f, rest))),
            call_ensures(f, (v, w), x),
            call_ensures(f, (v, w), y)]
        operator.parses(input, Some((f, rest))) && call_ensures(f, (v, w), x) && call_ensures(
            f,
            (v, w),
            y,
        ) ==> x == y
}

/// One more term is folded into a value in one way only.
proof fn lemma_combines_deterministic<A, PA: Parser<A>, B: Fn(A, A) -> A, PB: Parser<B>>(
    term: PA,
    operator: PB,
    acc: A,
    before: Seq<char>,
    x: (A, Seq<char>),
    y: (A, Seq<char>),
)
    requires
        deterministic(term),
        deterministic(operator),
        yields_single_valued::<A, B, PB>(operator),
        combines(term, operator, acc, before, x.0, x.1),
        combines(term, operator, acc, before, y.0, y.1),
    ensures
        x == y,
{
    let (xf, xw) = choose|f: B, w: A| #[trigger]
        both(operator, term, before, f, w, x.1) && call_ensures(f, (acc, w), x.0);
    let (yf, yw) = choose|f: B, w: A| #[trigger]
        both(operator, term, before, f, w, y.1) && call_ensures(f, (acc, w), y.0);
    lemma_both_deterministic(operator, term, before, (xf, xw, x.1), (yf, yw, y.1));
    let mid = choose|mid: Seq<char>| #[trigger]
        operator.parses(before, Some((xf, mid))) && term.parses(mid, Some((xw, x.1)));
    assert(operator.parses(before, Some((xf, mid))));
}

/// Two folds from the left over the same input agree value by value and
/// position by position as far as both go.
proof fn lemma_folds_agree<A, PA: Parser<A>, B: Fn(A, A) -> A, PB: Parser<B>>(
    term: PA,
    operator: PB,
    input: Seq<char>,
    a_trail: Seq<Seq<char>>,
    a: Seq<A>,
    b_trail: Seq<Seq<char>>,
    b: Seq<A>,
    k: int,
)
    requires
        deterministic(term),
        deterministic(operator),
        yields_single_valued::<A, B, PB>(operator),
        folded(term, operator, input, a_trail, a),
        folded(term, operator, input, b_trail, b),
        0 <= k < a.len(),
        k < b.len(),
    ensures
        a[k] == b[k],
        a_trail[k] == b_trail[k],
    decreases k,
{
    if k == 0 {
        assert(Some((a[0], a_trail[0])) == Some((b[0], b_trail[0])));
    } else {
        lemma_folds_agree(term, operator, input, a_trail, a, b_trail, b, k - 1);
        assert(combines(
            term,
            operator,
            a[k - 1],
            a_trail[k - 1],
            a[k - 1 + 1],
            a_trail[k - 1 + 1],
        ));
        assert(combines(
            term,
            operator,
            b[k - 1],
            b_trail[k - 1],
            b[k - 1 + 1],
            b_trail[k - 1 + 1],
        ));
        lemma_combines_deterministic(
            term,
            operator,
            a[k - 1],
            a_trail[k - 1],
            (a[k], a_trail[k]),
            (b[k], b_trail[k]),
        );
    }
}

/// Of two folds from the left over the same input, neither stops where the
/// other goes on.
proof fn lemma_folds_stop_together<A, PA: Parser<A>, B: Fn(A, A) -> A, PB: Parser<B>>(
    term: PA,
    operator: PB,
    input: Seq<char>,
    a_trail: Seq<Seq<char>>,
    a: Seq<A>,
    b_trail: Seq<Seq<char>>,
    b: Seq<A>,
)
    requires
        deterministic(term),
        deterministic(operator),
        yields_single_valued::<A, B, PB>(operator),
        folded(term, operator, input, a_trail, a),
        folded(term, operator, input, b_trail, b),
        a.len() < b.len(),
    ensures
        !neither(operator, term, a_trail.last()),
{
    let n = a.len() - 1;
    lemma_folds_agree(term, operator, input, a_trail, a, b_trail, b, n);
    let last = b_trail[n];
    assert(combines(term, operator, b[n], last, b[n + 1], b_trail[n + 1]));
    let (f, w) = choose|f: B, w: A| #[trigger]
        both(operator, term, last, f, w, b_trail[n + 1]) && call_ensures(f, (b[n], w), b[n + 1]);
    lemma_both_excludes_neither(operator, term, last, f, w, b_trail[n + 1]);
}

/// A chain folded from the left succeeds in one way only where the term and
/// the operator have one outcome per input, and the functions that the operator
/// yields return one value for each pair of arguments.
pub proof fn lemma_chains_left_deterministic<A, PA: Parser<A>, B: Fn(A, A) -> A, PB: Parser<B>>(
    term: PA,
    operator: PB,
    input: Seq<char>,
    x: (A, Seq<char>),
    y: (A, Seq<char>),
)
    requires
        deterministic(term),
        deterministic(operator),
        yields_single_valued::<A, B, PB>(operator),
        chains_left(term, operator, input, x.0, x.1),
        chains_left(term, operator, input, y.0, y.1),
    ensures
        x == y,
{
    let (x_trail, xs) = choose|trail: Seq<Seq<char>>, accs: Seq<A>|
        {
            &&& #[trigger] folded(term, operator, input, trail, accs)
            &&& x.0 == accs.last()
            &&& x.1 == trail.last()
            &&& neither(operator, term, x.1)
        };
    let (y_trail, ys) = choose|trail: Seq<Seq<char>>, accs: Seq<A>|
        {
            &&& #[trigger] folded(term, operator, input, trail, accs)
            &&& y.0 == accs.last()
            &&& y.1 == trail.last()
            &&& neither(operator, term, y.1)
        };
    if xs.len() < ys.len() {
        lemma_folds_stop_together(term, operator, input, x_trail, xs, y_trail, ys);
    }
    if ys.len() < xs.len() {
        lemma_folds_stop_together(term, operator, input, y_trail, ys, x_trail, xs);
    }
    lemma_folds_agree(term, operator, input, x_trail, xs, y_trail, ys, xs.len() - 1);
}

/// A chain folded from the left has one outcome per input under the same
/// conditions.
pub proof fn lemma_chain_left1_deterministic<A, PA: Parser<A>, B: Fn(A, A) -> A, PB: Parser<B>>(
    p: ChainLeft1<A, PA, B, PB>,
)
    requires
        deterministic(p.0),
        deterministic(p.1),
        yields_single_valued::<A, B, PB>(p.1),
    ensures
        deterministic(p),
{
    assert forall|input: Seq<char>, x: Option<(A, Seq<char>)>, y: Option<(A, Seq<char>)>|
        #[trigger] p.parses(input, x) && #[trigger] p.parses(input, y) implies x == y by {
        if x is Some && y is Some {
            lemma_chains_left_deterministic(p.0, p.1, input, x->0, y->0);
        } else if x is Some || y is Some {
            let (value, rest) = if x is Some {
                x->0
            } else {
                y->0
            };
            let (trail, accs) = choose|trail: Seq<Seq<char>>, accs: Seq<A>|
                {
                    &&& #[trigger] folded(p.0, p.1, input, trail, accs)
                    &&& value == accs.last()
                    &&& rest == trail.last()
                    &&& neither(p.1, p.0, rest)
                };
            assert(Some((accs[0], trail[0])) == None::<(A, Seq<char>)>);
        }
    }
}

/// A chain folded from the right succeeds in one way only where the term and
/// the operator have one outcome per input, and the functions that the operator
/// yields return one value for each pair of arguments.
pub proof fn lemma_chains_right_deterministic<A, PA: Parser<A>, B: Fn(A, A) -> A, PB: Parser<B>>(
    term: PA,
    operator: PB,
    input: Seq<char>,
    x: (A, Seq<char>),
    y: (A, Seq<char>),
)
    requires
        deterministic(term),
        deterministic(operator),
        yields_single_valued::<A, B, PB>(operator),
        chains_right(term, operator, input, x.0, x.1),
        chains_right(term, operator, input, y.0, y.1),
    ensures
        x == y,
    decreases input.len(),
{
    let (xv, x_tail) = choose|v: A, tail: Seq<char>| #[trigger]
        term.parses(input, Some((v, tail))) && {
            ||| x.0 == v && x.1 == tail && neither(operator, term, tail)
            ||| goes_on(term, operator, input, v, tail, x.0, x.1)
        };
    let (yv, y_tail) = choose|v: A, tail: Seq<char>| #[trigger]
        term.parses(input, Some((v, tail))) && {
            ||| y.0 == v && y.1 == tail && neither(operator, term, tail)
            ||| goes_on(term, operator, input, v, tail, y.0, y.1)
        };
    assert(Some((xv, x_tail)) == Some((yv, y_tail)));
    let v = xv;
    let tail = x_tail;
    let x_goes_on = goes_on(term, operator, input, v, tail, x.0, x.1);
    let y_goes_on = goes_on(term, operator, input, v, tail, y.0, y.1);
    if x_goes_on {
        let (xf, x_next, xw) = choose|f: B, next: Seq<char>, w: A|
            {
                &&& #[trigger] operator.parses(tail, Some((f, next)))
                &&& next.len() < input.len()
                &&& chains_right(term, operator, next, w, x.1)
                &&& #[trigger] call_ensures(f, (v, w), x.0)
            };
        lemma_chain_right_goes_on(term, operator, tail, xf, x_next, xw, x.1);
        if y_goes_on {
            let (yf, y_next, yw) = choose|f: B, next: Seq<char>, w: A|
                {
                    &&& #[trigger] operator.parses(tail, Some((f, next)))
                    &&& next.len() < input.len()
                    &&& chains_right(term, operator, next, w, y.1)
                    &&& #[trigger] call_ensures(f, (v, w), y.0)
                };
            assert(Some((xf, x_next)) == Some((yf, y_next)));
            lemma_chains_right_deterministic(term, operator, x_next, (xw, x.1), (yw, y.1));
        }
    } else if y_goes_on {
        let (yf, y_next, yw) = choose|f: B, next: Seq<char>, w: A|
            {
                &&& #[trigger] operator.parses(tail, Some((f, next)))
                &&& next.len() < input.len()
                &&& chains_right(term, operator, next, w, y.1)
                &&& #[trigger] call_ensures(f, (v, w), y.0)
            };
        lemma_chain_right_goes_on(term, operator, tail, yf, y_next, yw, y.1);
    }
}

/// Where an operator is read and a chain follows it, the chain before does
/// not stop in front of that operator.
proof fn lemma_chain_right_goes_on<A, PA: Parser<A>, B: Fn(A, A) -> A, PB: Parser<B>>(
    term: PA,
    operator: PB,
    tail: Seq<char>,
    f: B,
    next: Seq<char>,
    w: A,
    rest: Seq<char>,
)
    requires
        deterministic(term),
        deterministic(operator),
        operator.parses(tail, Some((f, next))),
        chains_right(term, operator, next, w, rest),
    ensures
        !neither(operator, term, tail),
{
    let (v, after) = choose|v: A, after: Seq<char>| #[trigger] term.parses(next, Some((v, after)));
    if neither(operator, term, tail) {
        if operator.parses(tail, None) {
            assert(Some((f, next)) == None::<(B, Seq<char>)>);
        } else {
            let (g, mid) = choose|g: B, mid: Seq<char>| #[trigger]
                operator.parses(tail, Some((g, mid))) && term.parses(mid, None);
            assert(Some((g, mid)) == Some((f, next)));
            assert(Some((v, after)) == None::<(A, Seq<char>)>);
        }
    }
}

/// A chain folded from the right has one outcome per input under the same
/// conditions.
pub proof fn lemma_chain_right1_deterministic<A, PA: Parser<A>, B: Fn(A, A) -> A, PB: Parser<B>>(
    p: ChainRight1<A, PA, B, PB>,
)
    requires
        deterministic(p.0),
        deterministic(p.1),
        yields_single_valued::<A, B, PB>(p.1),
    ensures
        deterministic(p),
{
    assert forall|input: Seq<char>, x: Option<(A, Seq<char>)>, y: Option<(A, Seq<char>)>|
        #[trigger] p.parses(input, x) && #[trigger] p.parses(input, y) implies x == y by {
        if x is Some && y is Some {
            lemma_chains_right_deterministic(p.0, p.1, input, x->0, y->0);
        } else if x is Some || y is Some {
            let (v, tail) = choose|v: A, tail: Seq<char>| #[trigger]
                p.0.parses(input, Some((v, tail)));
            assert(Some((v, tail)) == None::<(A, Seq<char>)>);
        }
    }
}

} // verus!
