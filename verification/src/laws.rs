//! What holds of the combinators whatever parsers they are built from.

use vstd::prelude::*;
use crate::list::{follows, listed, separated, SeparatedBy};
use crate::parser::{accepts, rejects, Parser};
use crate::repeat::{falls_short, reads, repeats, run_of, Count, Many, Many1};
use crate::sequence::{both, neither, Choice};

verus! {

/// Reading in a row can be done in two goes: where `p` reads `first` off
/// `input` and leaves `mid`, and reads `second` off `mid` and leaves `rest`, it
/// reads `first` followed by `second` off `input` and leaves `rest`.
pub proof fn lemma_reads_joins<T, P: Parser<T>>(
    p: P,
    input: Seq<char>,
    first: Seq<T>,
    mid: Seq<char>,
    second: Seq<T>,
    rest: Seq<char>,
)
    requires
        reads(p, input, first, mid),
        reads(p, mid, second, rest),
    ensures
        reads(p, input, first + second, rest),
{
    let head = choose|trail: Seq<Seq<char>>|
        {
            &&& #[trigger] run_of(p, trail, first)
            &&& trail[0] == input
            &&& trail.last() == mid
        };
    let tail = choose|trail: Seq<Seq<char>>|
        {
            &&& #[trigger] run_of(p, trail, second)
            &&& trail[0] == mid
            &&& trail.last() == rest
        };
    let trail = head + tail.drop_first();
    let items = first + second;
    assert forall|i: int| 0 <= i < items.len() implies #[trigger] p.parses(
        trail[i],
        Some((items[i], trail[i + 1])),
    ) by {
        if i < first.len() {
            assert(p.parses(head[i], Some((first[i], head[i + 1]))));
            if i + 1 == head.len() {
                assert(trail[i + 1] == tail[1]);
            }
        } else {
            let j = i - first.len();
            assert(p.parses(tail[j], Some((second[j], tail[j + 1]))));
            if j == 0 {
                assert(trail[i] == head.last());
            } else {
                assert(trail[i] == tail.drop_first()[j - 1]);
            }
            assert(trail[i + 1] == tail.drop_first()[j]);
        }
    }
    assert(run_of(p, trail, items));
}

/// Reading in a row can be cut after any number of items: what `p` reads off
/// `input` is what it reads up to the cut followed by what it reads from
/// there.
pub proof fn lemma_reads_splits<T, P: Parser<T>>(
    p: P,
    input: Seq<char>,
    items: Seq<T>,
    rest: Seq<char>,
    k: int,
) -> (mid: Seq<char>)
    requires
        reads(p, input, items, rest),
        0 <= k <= items.len(),
    ensures
        reads(p, input, items.take(k), mid),
        reads(p, mid, items.skip(k), rest),
{
    let trail = choose|trail: Seq<Seq<char>>|
        {
            &&& #[trigger] run_of(p, trail, items)
            &&& trail[0] == input
            &&& trail.last() == rest
        };
    let head = trail.take(k + 1);
    let tail = trail.skip(k);
    assert forall|i: int| 0 <= i < k implies #[trigger] p.parses(
        head[i],
        Some((items.take(k)[i], head[i + 1])),
    ) by {
        assert(p.parses(trail[i], Some((items[i], trail[i + 1]))));
    }
    assert(run_of(p, head, items.take(k)));
    assert forall|i: int| 0 <= i < items.len() - k implies #[trigger] p.parses(
        tail[i],
        Some((items.skip(k)[i], tail[i + 1])),
    ) by {
        assert(p.parses(trail[i + k], Some((items[i + k], trail[i + k + 1]))));
    }
    assert(run_of(p, tail, items.skip(k)));
    trail[k]
}

/// A repetition never fails: whatever the input, it ends in a value, which may
/// be empty.
pub proof fn lemma_many_never_fails<T, P: Parser<T>>(
    p: Many<P>,
    input: Seq<char>,
    out: Option<(Vec<T>, Seq<char>)>,
)
    requires
        p.parses(input, out),
    ensures
        out is Some,
{
}

/// A repetition that collects characters in a string never fails either.
pub proof fn lemma_many_string_never_fails<P: Parser<char>>(
    p: Many<P>,
    input: Seq<char>,
    out: Option<(String, Seq<char>)>,
)
    requires
        p.parses(input, out),
    ensures
        out is Some,
{
}

/// A repetition goes on where an earlier part of it stopped: where `p` reads
/// `first` off `input` and leaves `mid`, and repeating `p` on `mid` yields
/// `more` and leaves `rest`, repeating `p` on `input` yields `first` followed
/// by `more` and leaves the same `rest`.
pub proof fn lemma_repeats_resumes<T, P: Parser<T>>(
    p: P,
    input: Seq<char>,
    first: Seq<T>,
    mid: Seq<char>,
    more: Seq<T>,
    rest: Seq<char>,
)
    requires
        reads(p, input, first, mid),
        repeats(p, mid, more, rest),
    ensures
        repeats(p, input, first + more, rest),
{
    lemma_reads_joins(p, input, first, mid, more, rest);
}

/// A repetition can be stopped early and taken up again: cut after `k` items,
/// it is what `p` reads up to the cut, followed by the repetition of `p` on
/// what was left there.
pub proof fn lemma_repeats_splits<T, P: Parser<T>>(
    p: P,
    input: Seq<char>,
    items: Seq<T>,
    rest: Seq<char>,
    k: int,
) -> (mid: Seq<char>)
    requires
        repeats(p, input, items, rest),
        0 <= k <= items.len(),
    ensures
        reads(p, input, items.take(k), mid),
        repeats(p, mid, items.skip(k), rest),
{
    lemma_reads_splits(p, input, items, rest, k)
}

/// Run on what it left behind, a repetition yields nothing more and leaves
/// the same again.
pub proof fn lemma_repeats_leftover<T, P: Parser<T>>(
    p: P,
    input: Seq<char>,
    items: Seq<T>,
    rest: Seq<char>,
)
    requires
        repeats(p, input, items, rest),
    ensures
        repeats(p, rest, Seq::<T>::empty(), rest),
{
    let trail = seq![rest];
    assert(run_of(p, trail, Seq::<T>::empty()));
}

/// A repetition of at least one fails exactly where its parser fails on the
/// input as it stands, and otherwise does what the plain repetition does, at
/// least one item having been read.
pub proof fn lemma_many1_as_many<T, P: Parser<T>>(
    p: P,
    input: Seq<char>,
    items: Vec<T>,
    rest: Seq<char>,
)
    ensures
        Parser::<Vec<T>>::parses(&Many1(p), input, None) <==> p.parses(input, None),
        Many1(p).parses(input, Some((items, rest))) <==> items@.len() >= 1 && Many(p).parses(
            input,
            Some((items, rest)),
        ),
{
}

/// The same for a repetition that collects characters in a string.
pub proof fn lemma_many1_string_as_many<P: Parser<char>>(
    p: P,
    input: Seq<char>,
    items: String,
    rest: Seq<char>,
)
    ensures
        Parser::<String>::parses(&Many1(p), input, None) <==> p.parses(input, None),
        Many1(p).parses(input, Some((items, rest))) <==> items@.len() >= 1 && Many(p).parses(
            input,
            Some((items, rest)),
        ),
{
}

/// Where the parser can only fail on an input, so can the repetition of at
/// least one; where it can only succeed, so can the repetition.
pub proof fn lemma_many1_fails_with_parser<T, P: Parser<T>>(p: P, input: Seq<char>)
    ensures
        rejects(p, input) ==> rejects::<Vec<T>, Many1<P>>(Many1(p), input),
        accepts(p, input) ==> accepts::<Vec<T>, Many1<P>>(Many1(p), input),
{
    if rejects(p, input) {
        assert forall|out: Option<(Vec<T>, Seq<char>)>| #[trigger]
            Many1(p).parses(input, out) implies out is None by {
            if let Some((items, rest)) = out {
                let trail = choose|trail: Seq<Seq<char>>|
                    {
                        &&& #[trigger] run_of(p, trail, items@)
                        &&& trail[0] == input
                        &&& trail.last() == rest
                    };
                assert(p.parses(trail[0], Some((items@[0], trail[0int + 1]))));
            }
        }
    }
}

/// Order decides an alternative: on an input on which the first parser can
/// only succeed, every outcome of the alternative is an outcome of the first
/// parser, whatever the second would do.
pub proof fn lemma_choice_first_wins<T, PA: Parser<T>, PB: Parser<T>>(
    p: Choice<PA, PB>,
    input: Seq<char>,
    out: Option<(T, Seq<char>)>,
)
    requires
        accepts(p.0, input),
        p.parses(input, out),
    ensures
        p.0.parses(input, out),
{
}

/// A failed first branch leaves no trace: on an input on which the first
/// parser can only fail, every outcome of the alternative is an outcome of the
/// second parser on that same input, value and input left alike.
pub proof fn lemma_choice_falls_back<T, PA: Parser<T>, PB: Parser<T>>(
    p: Choice<PA, PB>,
    input: Seq<char>,
    out: Option<(T, Seq<char>)>,
)
    requires
        rejects(p.0, input),
        p.parses(input, out),
    ensures
        p.1.parses(input, out),
{
}

/// A counted repetition yields all its items or none: a success holds exactly
/// the number of items asked for, read in a row from the input, and a failure
/// hands out no item and no input position, the parser having failed before
/// that number was reached.
pub proof fn lemma_count_all_or_nothing<T, P: Parser<T>>(
    p: Count<P>,
    input: Seq<char>,
    out: Option<(Vec<T>, Seq<char>)>,
)
    requires
        p.parses(input, out),
    ensures
        match out {
            Some((items, rest)) => items@.len() == p.1 && reads::<T, P>(p.0, input, items@, rest),
            None => falls_short::<T, P>(p.0, input, p.1 as nat),
        },
{
}

/// The same for a counted repetition that collects characters in a string.
pub proof fn lemma_count_string_all_or_nothing<P: Parser<char>>(
    p: Count<P>,
    input: Seq<char>,
    out: Option<(String, Seq<char>)>,
)
    requires
        p.parses(input, out),
    ensures
        match out {
            Some((items, rest)) => items@.len() == p.1 && reads::<char, P>(
                p.0,
                input,
                items@,
                rest,
            ),
            None => falls_short::<char, P>(p.0, input, p.1 as nat),
        },
{
}

/// A list written out: the texts of its elements with `sep` between each two,
/// and `tail` behind the last. The empty list is written as `tail` alone.
pub open spec fn rendered(texts: Seq<Seq<char>>, sep: Seq<char>, tail: Seq<char>) -> Seq<char>
    decreases texts.len(),
{
    if texts.len() == 0 {
        tail
    } else if texts.len() == 1 {
        texts[0] + tail
    } else {
        texts[0] + (sep + rendered(texts.drop_first(), sep, tail))
    }
}

/// What stands behind the text of element `i` in a list written out: `tail`
/// behind the last element, and the separator with the rest of the list behind
/// any other.
pub open spec fn behind(texts: Seq<Seq<char>>, sep: Seq<char>, tail: Seq<char>, i: int) -> Seq<
    char,
> {
    if i + 1 == texts.len() {
        tail
    } else {
        sep + rendered(texts.skip(i + 1), sep, tail)
    }
}

/// The parsers read back what was written: the element parser, on the text of
/// element `i` with what stands behind it, yields `items[i]` and leaves what
/// stands behind; the separator parser, on what stands behind an element that
/// is not the last, consumes the separator and nothing else; and from `tail` no
/// separator with an element behind it can be read. For the empty list, the
/// element parser fails on `tail`.
pub open spec fn reads_back<A, PA: Parser<A>, B, PB: Parser<B>>(
    element: PA,
    separator: PB,
    items: Seq<A>,
    texts: Seq<Seq<char>>,
    sep: Seq<char>,
    tail: Seq<char>,
) -> bool {
    &&& texts.len() == items.len()
    &&& forall|i: int, out: Option<(A, Seq<char>)>|
        0 <= i < items.len() && #[trigger] element.parses(
            texts[i] + behind(texts, sep, tail, i),
            out,
        ) ==> out == Some((items[i], behind(texts, sep, tail, i)))
    &&& forall|i: int, out: Option<(B, Seq<char>)>|
        0 <= i < items.len() - 1 && #[trigger] separator.parses(behind(texts, sep, tail, i), out)
            ==> (out matches Some((_, left)) && left == rendered(texts.skip(i + 1), sep, tail))
    &&& items.len() == 0 ==> rejects(element, tail)
    &&& items.len() >= 1 ==> forall|s: B, v: A, rest: Seq<char>|
        !#[trigger] both(separator, element, tail, s, v, rest)
}

/// A list written out from element `i` on starts with the text of that element,
/// followed by what stands behind it.
pub proof fn lemma_rendered_from(texts: Seq<Seq<char>>, sep: Seq<char>, tail: Seq<char>, i: int)
    requires
        0 <= i < texts.len(),
    ensures
        rendered(texts.skip(i), sep, tail) == texts[i] + behind(texts, sep, tail, i),
{
    let from = texts.skip(i);
    assert(from[0] == texts[i]);
    if from.len() > 1 {
        assert(from.drop_first() == texts.skip(i + 1));
    }
}

/// Where the parsers read back what was written, the first items that a list
/// parser finds are the items written, and behind each of them it stands where
/// the text of that item ends.
proof fn lemma_listed_reads_back<A, PA: Parser<A>, B, PB: Parser<B>>(
    element: PA,
    separator: PB,
    items: Seq<A>,
    texts: Seq<Seq<char>>,
    sep: Seq<char>,
    tail: Seq<char>,
    trail: Seq<Seq<char>>,
    found: Seq<A>,
    k: int,
)
    requires
        items.len() >= 1,
        reads_back(element, separator, items, texts, sep, tail),
        listed(element, separator, rendered(texts, sep, tail), trail, found),
        0 <= k < found.len(),
    ensures
        k < items.len(),
        found[k] == items[k],
        trail[k] == behind(texts, sep, tail, k),
    decreases k,
{
    if k == 0 {
        assert(texts.skip(0) == texts);
        lemma_rendered_from(texts, sep, tail, 0);
    } else {
        lemma_listed_reads_back(element, separator, items, texts, sep, tail, trail, found, k - 1);
        let before = trail[k - 1];
        assert(follows(element, separator, before, found[k - 1 + 1], trail[k - 1 + 1]));
        let s = choose|s: B| #[trigger] both(separator, element, before, s, found[k], trail[k]);
        let mid = choose|mid: Seq<char>| #[trigger]
            separator.parses(before, Some((s, mid))) && element.parses(
                mid,
                Some((found[k], trail[k])),
            );
        if k == items.len() {
            assert(before == tail);
            assert(both(separator, element, tail, s, found[k], trail[k]));
        }
        lemma_rendered_from(texts, sep, tail, k);
    }
}

/// Writing a list out and reading it again gives the list back. Where `items`
/// are written as `texts` with `sep` between them and `tail` behind them, and
/// the element and separator parsers read back what was written, the list
/// parser on that text can only yield `items`, and it leaves `tail`.
pub proof fn lemma_separated_by_round_trip<A, PA: Parser<A>, B, PB: Parser<B>>(
    p: SeparatedBy<A, PA, B, PB>,
    items: Seq<A>,
    texts: Seq<Seq<char>>,
    sep: Seq<char>,
    tail: Seq<char>,
    out: Option<(Vec<A>, Seq<char>)>,
)
    requires
        reads_back(p.0, p.1, items, texts, sep, tail),
        p.parses(rendered(texts, sep, tail), out),
    ensures
        out matches Some((found, rest)) && found@ == items && rest == tail,
{
    let input = rendered(texts, sep, tail);
    let (found, rest) = match out {
        Some((found, rest)) => (found@, rest),
        None => (Seq::empty(), tail),
    };
    assert(separated(p.0, p.1, input, found, rest));
    if found.len() == 0 {
        if items.len() >= 1 {
            assert(texts.skip(0) == texts);
            lemma_rendered_from(texts, sep, tail, 0);
            assert(false);
        }
        assert(found == items);
    } else {
        let trail = choose|trail: Seq<Seq<char>>|
            {
                &&& #[trigger] listed(p.0, p.1, input, trail, found)
                &&& rest == trail.last()
                &&& neither(p.1, p.0, rest)
            };
        if items.len() == 0 {
            assert(false);
        }
        let last = found.len() - 1;
        lemma_listed_reads_back(p.0, p.1, items, texts, sep, tail, trail, found, last);
        if found.len() < items.len() {
            lemma_rendered_from(texts, sep, tail, last + 1);
            if !p.1.parses(rest, None) {
                let (a, mid) = choose|a: B, mid: Seq<char>| #[trigger]
                    p.1.parses(rest, Some((a, mid))) && p.0.parses(mid, None);
                assert(p.0.parses(mid, None));
            }
            assert(false);
        }
        assert forall|k: int| 0 <= k < found.len() implies found[k] == items[k] by {
            lemma_listed_reads_back(p.0, p.1, items, texts, sep, tail, trail, found, k);
        }
        assert(found == items);
    }
}

} // verus!
