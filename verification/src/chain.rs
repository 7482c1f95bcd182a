//! Terms joined by binary operators.
//!
//! The operator parser yields the function that combines two values. A chain
//! reads `term operator term operator term ...` and folds the terms with the
//! functions it read between them, from the left or from the right.

use std::marker::PhantomData;
use vstd::prelude::*;
use crate::parser::Parser;
use crate::sequence::{both, neither};

verus! {

/// Every function that `operator` can yield may be called on any two values.
pub open spec fn yields_total<A, B: Fn(A, A) -> A, PB: Parser<B>>(operator: PB) -> bool {
    forall|input: Seq<char>, f: B, rest: Seq<char>, a: A, b: A| #[trigger]
        operator.parses(input, Some((f, rest))) ==> #[trigger] call_requires(f, (a, b))
}

/// An operator and then a term succeed from `before` and leave `after`, and
/// the operator's function, given `acc` and the term's value, may return
/// `next`.
pub open spec fn combines<A, PA: Parser<A>, B: Fn(A, A) -> A, PB: Parser<B>>(
    term: PA,
    operator: PB,
    acc: A,
    before: Seq<char>,
    next: A,
    after: Seq<char>,
) -> bool {
    exists|f: B, w: A| #[trigger]
        both(operator, term, before, f, w, after) && call_ensures(f, (acc, w), next)
}

/// A first term is read off `input` and further terms are folded into it from
/// the left. `accs[i]` is the value after `i` operators and `trail[i]` the input
/// left at that point.
pub open spec fn folded<A, PA: Parser<A>, B: Fn(A, A) -> A, PB: Parser<B>>(
    term: PA,
    operator: PB,
    input: Seq<char>,
    trail: Seq<Seq<char>>,
    accs: Seq<A>,
) -> bool {
    &&& accs.len() >= 1
    &&& trail.len() == accs.len()
    &&& term.parses(input, Some((accs[0], trail[0])))
    &&& forall|i: int|
        0 <= i < accs.len() - 1 ==> #[trigger] combines(
            term,
            operator,
            accs[i],
            trail[i],
            accs[i + 1],
            trail[i + 1],
        )
}

/// An operator with the term behind it leaves strictly less input than there
/// was before the operator.
pub open spec fn step_advances<A, PA: Parser<A>, B, PB: Parser<B>>(
    term: PA,
    operator: PB,
) -> bool {
    forall|before: Seq<char>, f: B, w: A, after: Seq<char>| #[trigger]
        both(operator, term, before, f, w, after) ==> after.len() < before.len()
}

/// Whether a chain folded from the left may yield `value` on `input` and leave
/// `rest`: the terms are folded one by one, `value` is the last result, `rest`
/// the input left behind the last term, and from there no operator with a term
/// behind it can be read.
pub open spec fn chains_left<A, PA: Parser<A>, B: Fn(A, A) -> A, PB: Parser<B>>(
    term: PA,
    operator: PB,
    input: Seq<char>,
    value: A,
    rest: Seq<char>,
) -> bool {
    exists|trail: Seq<Seq<char>>, accs: Seq<A>|
        {
            &&& #[trigger] folded(term, operator, input, trail, accs)
            &&& value == accs.last()
            &&& rest == trail.last()
            &&& neither(operator, term, rest)
        }
}

/// Matches one or more terms with operators between them and combines them
/// from the left: `a - b - c` is `(a - b) - c`.
pub struct ChainLeft1<A, PA, B, PB>(pub PA, pub PB, pub PhantomData<(A, B)>);

impl<A, PA: Clone, B, PB: Clone> Clone for ChainLeft1<A, PA, B, PB> {
    fn clone(&self) -> (copy: Self)
        ensures
            cloned(self.0, copy.0),
            cloned(self.1, copy.1),
    {
        ChainLeft1(self.0.clone(), self.1.clone(), PhantomData)
    }
}

impl<A, PA, B, PB> Parser<A> for ChainLeft1<A, PA, B, PB> where
    PA: Parser<A>,
    PB: Parser<B>,
    B: Fn(A, A) -> A,
 {
    open spec fn wf(&self) -> bool {
        &&& self.0.wf()
        &&& self.1.wf()
        &&& step_advances::<A, PA, B, PB>(self.0, self.1)
        &&& yields_total::<A, B, PB>(self.1)
    }

    open spec fn parses(&self, input: Seq<char>, out: Option<(A, Seq<char>)>) -> bool {
        match out {
            Some((value, rest)) => chains_left::<A, PA, B, PB>(
                self.0,
                self.1,
                input,
                value,
                rest,
            ),
            None => self.0.parses(input, None),
        }
    }

    fn parse<'a>(&self, input: &'a str) -> (out: Option<(A, &'a str)>) {
        if let Some((first, remaining)) = self.0.parse(input) {
            let mut acc = first;
            let mut cur = remaining;
            let ghost mut trail: Seq<Seq<char>> = seq![remaining@];
            let ghost mut accs: Seq<A> = seq![acc];

            loop
                invariant
                    self.wf(),
                    folded::<A, PA, B, PB>(self.0, self.1, input@, trail, accs),
                    trail.last() == cur@,
                    accs.last() == acc,
                decreases cur@.len(),
            {
                if let Some((f, tail1)) = self.1.parse(cur) {
                    if let Some((w, tail2)) = self.0.parse(tail1) {
                        let ghost before = acc;
                        let ghost term_value = w;
                        assert(both(self.1, self.0, cur@, f, w, tail2@));
                        acc = f(acc, w);
                        proof {
                            assert(call_ensures(f, (before, term_value), acc));
                            assert(combines::<A, PA, B, PB>(
                                self.0,
                                self.1,
                                before,
                                cur@,
                                acc,
                                tail2@,
                            ));
                            trail = trail.push(tail2@);
                            accs = accs.push(acc);
                        }
                        cur = tail2;
                    } else {
                        return Some((acc, cur));
                    }
                } else {
                    return Some((acc, cur));
                }
            }
        } else {
            None
        }
    }
}

/// Behind a term of value `v` that was read off `input` and left `tail`, the
/// chain goes on: an operator is read off `tail`, the chain behind it yields `w`
/// and leaves `rest`, and the operator's function, given `v` and `w`, may
/// return `value`.
pub open spec fn goes_on<A, PA: Parser<A>, B: Fn(A, A) -> A, PB: Parser<B>>(
    term: PA,
    operator: PB,
    input: Seq<char>,
    v: A,
    tail: Seq<char>,
    value: A,
    rest: Seq<char>,
) -> bool
    decreases input.len(), 0int,
{
    exists|f: B, next: Seq<char>, w: A|
        {
            &&& #[trigger] operator.parses(tail, Some((f, next)))
            &&& next.len() < input.len()
            &&& chains_right(term, operator, next, w, rest)
            &&& #[trigger] call_ensures(f, (v, w), value)
        }
}

/// Whether a chain folded from the right may yield `value` on `input` and
/// leave `rest`. A term `v` is read. Either the chain stops there, `value` is
/// `v` and `rest` what the term left, because from there no operator with a
/// term behind it can be read; or the chain goes on behind the term.
pub open spec fn chains_right<A, PA: Parser<A>, B: Fn(A, A) -> A, PB: Parser<B>>(
    term: PA,
    operator: PB,
    input: Seq<char>,
    value: A,
    rest: Seq<char>,
) -> bool
    decreases input.len(), 1int,
{
    exists|v: A, tail: Seq<char>| #[trigger]
        term.parses(input, Some((v, tail))) && {
            ||| value == v && rest == tail && neither(operator, term, tail)
            ||| goes_on(term, operator, input, v, tail, value, rest)
        }
}

/// A term with the operator behind it leaves strictly less input than there
/// was before the term.
pub open spec fn link_advances<A, PA: Parser<A>, B, PB: Parser<B>>(
    term: PA,
    operator: PB,
) -> bool {
    forall|before: Seq<char>, v: A, f: B, after: Seq<char>| #[trigger]
        both(term, operator, before, v, f, after) ==> after.len() < before.len()
}

/// Matches one or more terms with operators between them and combines them
/// from the right: `a - b - c` is `a - (b - c)`.
pub struct ChainRight1<A, PA, B, PB>(pub PA, pub PB, pub PhantomData<(A, B)>);

impl<A, PA: Clone, B, PB: Clone> Clone for ChainRight1<A, PA, B, PB> {
    fn clone(&self) -> (copy: Self)
        ensures
            cloned(self.0, copy.0),
            cloned(self.1, copy.1),
    {
        ChainRight1(self.0.clone(), self.1.clone(), PhantomData)
    }
}

impl<A, PA, B, PB> Parser<A> for ChainRight1<A, PA, B, PB> where
    PA: Parser<A>,
    PB: Parser<B>,
    B: Fn(A, A) -> A,
 {
    open spec fn wf(&self) -> bool {
        &&& self.0.wf()
        &&& self.1.wf()
        &&& link_advances::<A, PA, B, PB>(self.0, self.1)
        &&& yields_total::<A, B, PB>(self.1)
    }

    open spec fn parses(&self, input: Seq<char>, out: Option<(A, Seq<char>)>) -> bool {
        match out {
            Some((value, rest)) => chains_right::<A, PA, B, PB>(
                self.0,
                self.1,
                input,
                value,
                rest,
            ),
            None => self.0.parses(input, None),
        }
    }

    fn parse<'a>(&self, input: &'a str) -> (out: Option<(A, &'a str)>)
        decreases input@.len(),
    {
        if let Some((v, tail1)) = self.0.parse(input) {
            if let Some((f, tail2)) = self.1.parse(tail1) {
                assert(both(self.0, self.1, input@, v, f, tail2@));
                if let Some((w, tail3)) = self.parse(tail2) {
                    Some((f(v, w), tail3))
                } else {
                    Some((v, tail1))
                }
            } else {
                Some((v, tail1))
            }
        } else {
            None
        }
    }
}

/// What `wf` and `parses` of a chain folded from the left stand for.
pub proof fn lemma_chain_left1<A, PA: Parser<A>, B: Fn(A, A) -> A, PB: Parser<B>>(
    p: ChainLeft1<A, PA, B, PB>,
)
    ensures
        p.wf() <==> p.0.wf() && p.1.wf() && step_advances::<A, PA, B, PB>(p.0, p.1)
            && yields_total::<A, B, PB>(p.1),
        forall|input: Seq<char>| #[trigger] p.parses(input, None) <==> p.0.parses(input, None),
        forall|input: Seq<char>, value: A, rest: Seq<char>| #[trigger]
            p.parses(input, Some((value, rest))) <==> chains_left::<A, PA, B, PB>(
                p.0,
                p.1,
                input,
                value,
                rest,
            ),
{
}

/// What `wf` and `parses` of a chain folded from the right stand for.
pub proof fn lemma_chain_right1<A, PA: Parser<A>, B: Fn(A, A) -> A, PB: Parser<B>>(
    p: ChainRight1<A, PA, B, PB>,
)
    ensures
        p.wf() <==> p.0.wf() && p.1.wf() && link_advances::<A, PA, B, PB>(p.0, p.1)
            && yields_total::<A, B, PB>(p.1),
        forall|input: Seq<char>| #[trigger] p.parses(input, None) <==> p.0.parses(input, None),
        forall|input: Seq<char>, value: A, rest: Seq<char>| #[trigger]
            p.parses(input, Some((value, rest))) <==> chains_right::<A, PA, B, PB>(
                p.0,
                p.1,
                input,
                value,
                rest,
            ),
{
}

} // verus!
