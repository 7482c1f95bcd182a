//! Lists of elements with separators between them.

use std::marker::PhantomData;
use vstd::prelude::*;
use crate::parser::Parser;
use crate::sequence::{both, neither};

verus! {

/// A separator and then an element succeed from `before`: the element is
/// `item`, and `after` is left.
pub open spec fn follows<A, PA: Parser<A>, B, PB: Parser<B>>(
    element: PA,
    separator: PB,
    before: Seq<char>,
    item: A,
    after: Seq<char>,
) -> bool {
    exists|s: B| #[trigger] both(separator, element, before, s, item, after)
}

/// `items` are read off `input` in a row, each but the first behind a
/// separator. `trail[i]` is the input left behind `items[i]`.
pub open spec fn listed<A, PA: Parser<A>, B, PB: Parser<B>>(
    element: PA,
    separator: PB,
    input: Seq<char>,
    trail: Seq<Seq<char>>,
    items: Seq<A>,
) -> bool {
    &&& items.len() >= 1
    &&& trail.len() == items.len()
    &&& element.parses(input, Some((items[0], trail[0])))
    &&& forall|i: int|
        0 <= i < items.len() - 1 ==> #[trigger] follows(
            element,
            separator,
            trail[i],
            items[i + 1],
            trail[i + 1],
        )
}

/// Every further element of a list, taken with the separator before it,
/// leaves strictly less input than there was before the separator.
pub open spec fn list_advances<A, PA: Parser<A>, B, PB: Parser<B>>(
    element: PA,
    separator: PB,
) -> bool {
    forall|before: Seq<char>, item: A, after: Seq<char>| #[trigger]
        follows(element, separator, before, item, after) ==> after.len() < before.len()
}

/// Whether reading a separated list off `input` may yield `items` and leave
/// `rest`. With no item, the element fails on `input` and `rest` is `input`.
/// Otherwise the items are read in a row, `rest` is what the last of them
/// left, and from there no separator with an element behind it can be read.
pub open spec fn separated<A, PA: Parser<A>, B, PB: Parser<B>>(
    element: PA,
    separator: PB,
    input: Seq<char>,
    items: Seq<A>,
    rest: Seq<char>,
) -> bool {
    if items.len() == 0 {
        rest == input && element.parses(input, None)
    } else {
        exists|trail: Seq<Seq<char>>|
            {
                &&& #[trigger] listed(element, separator, input, trail, items)
                &&& rest == trail.last()
                &&& neither(separator, element, rest)
            }
    }
}

/// How a list that allows a separator at its end stops at `last`, leaving
/// `rest`: no separator can be read and `rest` is `last`, or a separator is
/// read, no element can be read behind it, and `rest` is what the separator
/// left.
pub open spec fn closes<A, PA: Parser<A>, B, PB: Parser<B>>(
    element: PA,
    separator: PB,
    last: Seq<char>,
    rest: Seq<char>,
) -> bool {
    ||| rest == last && separator.parses(last, None)
    ||| exists|s: B| #[trigger]
        separator.parses(last, Some((s, rest))) && element.parses(rest, None)
}

/// Whether reading a separated list that may end in a separator off `input`
/// may yield `items` and leave `rest`.
pub open spec fn separated_end<A, PA: Parser<A>, B, PB: Parser<B>>(
    element: PA,
    separator: PB,
    input: Seq<char>,
    items: Seq<A>,
    rest: Seq<char>,
) -> bool {
    if items.len() == 0 {
        rest == input && element.parses(input, None)
    } else {
        exists|trail: Seq<Seq<char>>|
            {
                &&& #[trigger] listed(element, separator, input, trail, items)
                &&& closes(element, separator, trail.last(), rest)
            }
    }
}

/// Reads a list off `input`: an element, and then separators with an element
/// behind each, for as long as both can be read. Returns the items, the input
/// left behind the last of them, and, where one more separator could be read
/// but no element behind it, the input left behind that separator.
pub fn list<'a, A, PA: Parser<A>, B, PB: Parser<B>>(
    element: &PA,
    separator: &PB,
    input: &'a str,
) -> (out: (Vec<A>, &'a str, Option<&'a str>))
    requires
        element.wf(),
        separator.wf(),
        list_advances::<A, PA, B, PB>(*element, *separator),
    ensures
        separated::<A, PA, B, PB>(*element, *separator, input@, out.0@, out.1@),
        separated_end::<A, PA, B, PB>(
            *element,
            *separator,
            input@,
            out.0@,
            match out.2 {
                Some(behind) => behind@,
                None => out.1@,
            },
        ),
{
    let mut cur = input;
    let mut res: Vec<A> = Vec::new();
    let ghost mut trail: Seq<Seq<char>> = Seq::empty();

    if let Some((v, remaining)) = element.parse(cur) {
        res.push(v);
        cur = remaining;
        proof {
            trail = seq![remaining@];
        }
    } else {
        return (res, cur, None);
    }

    loop
        invariant
            element.wf(),
            separator.wf(),
            list_advances::<A, PA, B, PB>(*element, *separator),
            listed::<A, PA, B, PB>(*element, *separator, input@, trail, res@),
            trail.last() == cur@,
        decreases cur@.len(),
    {
        if let Some((s, tail1)) = separator.parse(cur) {
            if let Some((v, tail2)) = element.parse(tail1) {
                proof {
                    assert(both(*separator, *element, cur@, s, v, tail2@));
                    assert(follows::<A, PA, B, PB>(*element, *separator, cur@, v, tail2@));
                    trail = trail.push(tail2@);
                }
                res.push(v);
                cur = tail2;
            } else {
                return (res, cur, Some(tail1));
            }
        } else {
            return (res, cur, None);
        }
    }
}

/// Matches zero or more elements with a separator between each two. A
/// separator that no element follows is not consumed.
pub struct SeparatedBy<A, PA, B, PB>(pub PA, pub PB, pub PhantomData<(A, B)>);

impl<A, PA: Clone, B, PB: Clone> Clone for SeparatedBy<A, PA, B, PB> {
    fn clone(&self) -> (copy: Self)
        ensures
            cloned(self.0, copy.0),
            cloned(self.1, copy.1),
    {
        SeparatedBy(self.0.clone(), self.1.clone(), PhantomData)
    }
}

impl<A, PA, B, PB> Parser<Vec<A>> for SeparatedBy<A, PA, B, PB> where
    PA: Parser<A>,
    PB: Parser<B>,
 {
    open spec fn wf(&self) -> bool {
        &&& self.0.wf()
        &&& self.1.wf()
        &&& list_advances::<A, PA, B, PB>(self.0, self.1)
    }

    open spec fn parses(&self, input: Seq<char>, out: Option<(Vec<A>, Seq<char>)>) -> bool {
        match out {
            Some((items, rest)) => separated::<A, PA, B, PB>(
                self.0,
                self.1,
                input,
                items@,
                rest,
            ),
            None => false,
        }
    }

    fn parse<'a>(&self, input: &'a str) -> (out: Option<(Vec<A>, &'a str)>)
        ensures
            out is Some,
    {
        let (res, rest, _) = list(&self.0, &self.1, input);
        Some((res, rest))
    }
}

/// Matches zero or more elements with a separator between each two, and a
/// separator behind the last one where there is one.
pub struct SeparatedEndBy<A, PA, B, PB>(pub PA, pub PB, pub PhantomData<(A, B)>);

impl<A, PA: Clone, B, PB: Clone> Clone for SeparatedEndBy<A, PA, B, PB> {
    fn clone(&self) -> (copy: Self)
        ensures
            cloned(self.0, copy.0),
            cloned(self.1, copy.1),
    {
        SeparatedEndBy(self.0.clone(), self.1.clone(), PhantomData)
    }
}

impl<A, PA, B, PB> Parser<Vec<A>> for SeparatedEndBy<A, PA, B, PB> where
    PA: Parser<A>,
    PB: Parser<B>,
 {
    open spec fn wf(&self) -> bool {
        &&& self.0.wf()
        &&& self.1.wf()
        &&& list_advances::<A, PA, B, PB>(self.0, self.1)
    }

    open spec fn parses(&self, input: Seq<char>, out: Option<(Vec<A>, Seq<char>)>) -> bool {
        match out {
            Some((items, rest)) => separated_end::<A, PA, B, PB>(
                self.0,
                self.1,
                input,
                items@,
                rest,
            ),
            None => false,
        }
    }

    fn parse<'a>(&self, input: &'a str) -> (out: Option<(Vec<A>, &'a str)>)
        ensures
            out is Some,
    {
        let (res, rest, behind) = list(&self.0, &self.1, input);
        match behind {
            Some(behind) => Some((res, behind)),
            None => Some((res, rest)),
        }
    }
}

/// What `wf` and `parses` of a separated list stand for.
pub proof fn lemma_separated_by<A, PA: Parser<A>, B, PB: Parser<B>>(
    p: SeparatedBy<A, PA, B, PB>,
)
    ensures
        p.wf() <==> p.0.wf() && p.1.wf() && list_advances::<A, PA, B, PB>(p.0, p.1),
        forall|input: Seq<char>| !#[trigger] p.parses(input, None),
        forall|input: Seq<char>, items: Vec<A>, rest: Seq<char>| #[trigger]
            p.parses(input, Some((items, rest))) <==> separated::<A, PA, B, PB>(
                p.0,
                p.1,
                input,
                items@,
                rest,
            ),
{
}

/// What `wf` and `parses` of a separated list that may end in a separator
/// stand for.
pub proof fn lemma_separated_end_by<A, PA: Parser<A>, B, PB: Parser<B>>(
    p: SeparatedEndBy<A, PA, B, PB>,
)
    ensures
        p.wf() <==> p.0.wf() && p.1.wf() && list_advances::<A, PA, B, PB>(p.0, p.1),
        forall|input: Seq<char>| !#[trigger] p.parses(input, None),
        forall|input: Seq<char>, items: Vec<A>, rest: Seq<char>| #[trigger]
            p.parses(input, Some((items, rest))) <==> separated_end::<A, PA, B, PB>(
                p.0,
                p.1,
                input,
                items@,
                rest,
            ),
{
}

} // verus!
