//! The mathematical model of the transition table: the multiset of
//! transitions that feeding records, how often a given pair occurs in a fed
//! sequence, and what it means for a token sequence to be generated from a
//! table. The boundary markers are encoded as `None`: as a context, `None`
//! is START; as a successor, `None` is END. A word is `Some(w)`.

use vstd::multiset::Multiset;
use vstd::prelude::*;

verus! {

/// A single recorded transition: a context (`None` is the START marker,
/// `Some(w)` the word `w`) paired with what followed it (`None` is the END
/// marker).
pub type Transition = (Option<Seq<char>>, Option<Seq<char>>);

/// The transitions recorded for the remainder `toks` of a fed sequence when
/// the most recent token (or START) is `prev`: `prev` is followed by the
/// first remaining token, or by END when none is left.
pub open spec fn chain_transitions(prev: Option<Seq<char>>, toks: Seq<Seq<char>>) -> Multiset<
    Transition,
>
    decreases toks.len(),
{
    if toks.len() == 0 {
        Multiset::singleton((prev, None))
    } else {
        Multiset::singleton((prev, Some(toks[0]))).add(
            chain_transitions(Some(toks[0]), toks.drop_first()),
        )
    }
}

/// Everything one feed of `toks` records: START -> t1, t1 -> t2, ...,
/// tn -> END; for an empty sequence, the single transition START -> END.
pub open spec fn transitions_of(toks: Seq<Seq<char>>) -> Multiset<Transition> {
    chain_transitions(None, toks)
}

/// How often the pair `t` occurs among the transitions of the remainder
/// `toks` of a fed sequence whose most recent token (or START) is `prev`.
pub open spec fn chain_occurrences(
    prev: Option<Seq<char>>,
    toks: Seq<Seq<char>>,
    t: Transition,
) -> nat
    decreases toks.len(),
{
    if toks.len() == 0 {
        if t == (prev, None::<Seq<char>>) {
            1nat
        } else {
            0nat
        }
    } else {
        (if t == (prev, Some(toks[0])) {
            1nat
        } else {
            0nat
        }) + chain_occurrences(Some(toks[0]), toks.drop_first(), t)
    }
}

/// How often the adjacent pair `t` occurs in the fed sequence `toks`,
/// boundary transitions included.
pub open spec fn occurrences(toks: Seq<Seq<char>>, t: Transition) -> nat {
    chain_occurrences(None, toks, t)
}

proof fn lemma_chain_count(prev: Option<Seq<char>>, toks: Seq<Seq<char>>, t: Transition)
    ensures
        chain_transitions(prev, toks).count(t) == chain_occurrences(prev, toks, t),
    decreases toks.len(),
{
    if toks.len() > 0 {
        lemma_chain_count(Some(toks[0]), toks.drop_first(), t);
    }
}

/// Law: the count a feed records for a transition equals the number of times
/// that exact adjacent pair occurs in the fed sequence, the synthetic
/// START and END boundary transitions included.
pub proof fn lemma_transition_count_is_occurrences(toks: Seq<Seq<char>>, t: Transition)
    ensures
        transitions_of(toks).count(t) == occurrences(toks, t),
{
    lemma_chain_count(None, toks, t);
}

/// The transitions recorded by a whole corpus: each element of `feeds` is
/// one fed token sequence, and the table aggregates them all.
pub open spec fn corpus_transitions(feeds: Seq<Seq<Seq<char>>>) -> Multiset<Transition>
    decreases feeds.len(),
{
    if feeds.len() == 0 {
        Multiset::empty()
    } else {
        transitions_of(feeds[0]).add(corpus_transitions(feeds.drop_first()))
    }
}

/// How often the pair `t` occurs across all sequences of `feeds`.
pub open spec fn corpus_occurrences(feeds: Seq<Seq<Seq<char>>>, t: Transition) -> nat
    decreases feeds.len(),
{
    if feeds.len() == 0 {
        0nat
    } else {
        occurrences(feeds[0], t) + corpus_occurrences(feeds.drop_first(), t)
    }
}

/// Law: in the table built from a whole corpus, every transition's count
/// equals the number of times that adjacent pair occurs across all fed
/// sequences.
pub proof fn lemma_corpus_count_is_occurrences(feeds: Seq<Seq<Seq<char>>>, t: Transition)
    ensures
        corpus_transitions(feeds).count(t) == corpus_occurrences(feeds, t),
    decreases feeds.len(),
{
    if feeds.len() > 0 {
        lemma_transition_count_is_occurrences(feeds[0], t);
        lemma_corpus_count_is_occurrences(feeds.drop_first(), t);
    }
}

/// Feeding one more sequence extends the corpus table by that feed's
/// transitions: the shape in which a chain of `feed` calls accumulates.
pub proof fn lemma_corpus_transitions_push(feeds: Seq<Seq<Seq<char>>>, toks: Seq<Seq<char>>)
    ensures
        corpus_transitions(feeds.push(toks)) == corpus_transitions(feeds).add(
            transitions_of(toks),
        ),
    decreases feeds.len(),
{
    if feeds.len() == 0 {
        let p = feeds.push(toks);
        assert(p[0] == toks);
        assert(p.drop_first() =~= Seq::<Seq<Seq<char>>>::empty());
        assert(corpus_transitions(p) == transitions_of(toks).add(
            corpus_transitions(p.drop_first()),
        ));
        assert(corpus_transitions(p) =~= corpus_transitions(feeds).add(transitions_of(toks)));
    } else {
        assert(feeds.push(toks).drop_first() =~= feeds.drop_first().push(toks));
        lemma_corpus_transitions_push(feeds.drop_first(), toks);
        assert(corpus_transitions(feeds.push(toks)) =~= corpus_transitions(feeds).add(
            transitions_of(toks),
        ));
    }
}

/// Law: feeding `a` and then `b` leaves the same table as feeding `b` and
/// then `a`; the aggregate counts do not depend on the order of feeds.
pub proof fn lemma_feed_order_irrelevant(
    m: Multiset<Transition>,
    a: Seq<Seq<char>>,
    b: Seq<Seq<char>>,
)
    ensures
        m.add(transitions_of(a)).add(transitions_of(b)) == m.add(transitions_of(b)).add(
            transitions_of(a),
        ),
{
    assert(m.add(transitions_of(a)).add(transitions_of(b)) =~= m.add(transitions_of(b)).add(
        transitions_of(a),
    ));
}

/// Law: an empty feed records exactly one START -> END transition and
/// touches no other count.
pub proof fn lemma_empty_feed(t: Transition)
    ensures
        transitions_of(Seq::empty()).count(t) == if t == (
            None::<Seq<char>>,
            None::<Seq<char>>,
        ) {
            1nat
        } else {
            0nat
        },
{
}

/// The context from which step `i` of the generated sequence `ws` was
/// sampled: START before the first word, afterwards the previous word.
pub open spec fn step_context(ws: Seq<Seq<char>>, i: int) -> Option<Seq<char>> {
    if i == 0 {
        None
    } else {
        Some(ws[i - 1])
    }
}

/// Every word of `ws` follows its predecessor by a transition that the
/// table `m` holds with a positive count.
pub open spec fn is_walk(m: Multiset<Transition>, ws: Seq<Seq<char>>) -> bool {
    forall|i: int|
        0 <= i < ws.len() ==> m.count((step_context(ws, i), Some(ws[i]))) > 0
}

/// `ws` is a complete generated sequence for the table `m`: a walk from
/// START whose final context (the last word, or START itself when `ws` is
/// empty) was observed to transition to END.
pub open spec fn is_generated(m: Multiset<Transition>, ws: Seq<Seq<char>>) -> bool {
    &&& is_walk(m, ws)
    &&& m.count((step_context(ws, ws.len() as int), None)) > 0
}

/// Every word the table records as a successor is itself a context of the
/// table: whenever feeding records `c -> w`, it goes on to record what
/// followed `w` in the same sequence.
pub open spec fn successor_closed(m: Multiset<Transition>) -> bool {
    forall|c: Option<Seq<char>>, w: Seq<char>|
        m.count((c, Some(w))) > 0 ==> exists|n: Option<Seq<char>>| m.count((Some(w), n)) > 0
}

/// A non-empty table has a transition out of the START context.
pub open spec fn start_present(m: Multiset<Transition>) -> bool {
    m.len() > 0 ==> exists|n: Option<Seq<char>>| m.count((None::<Seq<char>>, n)) > 0
}

/// The first token of a fed sequence, or END when the sequence is empty:
/// what START is recorded to transition to.
pub open spec fn head_token(toks: Seq<Seq<char>>) -> Option<Seq<char>> {
    if toks.len() == 0 {
        None
    } else {
        Some(toks[0])
    }
}

/// Any feed records a transition out of its starting context.
proof fn lemma_chain_has_first(prev: Option<Seq<char>>, toks: Seq<Seq<char>>)
    ensures
        chain_transitions(prev, toks).count((prev, head_token(toks))) > 0,
{
}

/// Every feed records a transition out of START.
pub proof fn lemma_feed_has_start(toks: Seq<Seq<char>>)
    ensures
        transitions_of(toks).count((None::<Seq<char>>, head_token(toks))) > 0,
{
    lemma_chain_has_first(None, toks);
}

proof fn lemma_chain_closed(prev: Option<Seq<char>>, toks: Seq<Seq<char>>)
    ensures
        forall|c: Option<Seq<char>>, w: Seq<char>|
            chain_transitions(prev, toks).count((c, Some(w))) > 0 ==> exists|
                n: Option<Seq<char>>,
            | chain_transitions(prev, toks).count((Some(w), n)) > 0,
    decreases toks.len(),
{
    let m = chain_transitions(prev, toks);
    if toks.len() == 0 {
        assert forall|c: Option<Seq<char>>, w: Seq<char>| m.count((c, Some(w))) > 0 implies exists|
            n: Option<Seq<char>>,
        | m.count((Some(w), n)) > 0 by {
            assert((prev, None::<Seq<char>>) != (c, Some(w)));
            assert(false);
        }
    } else {
        let h = toks[0];
        let rest = chain_transitions(Some(h), toks.drop_first());
        lemma_chain_closed(Some(h), toks.drop_first());
        assert forall|c: Option<Seq<char>>, w: Seq<char>| m.count((c, Some(w))) > 0 implies exists|
            n: Option<Seq<char>>,
        | m.count((Some(w), n)) > 0 by {
            if (c, Some(w)) == (prev, Some(h)) {
                lemma_chain_has_first(Some(h), toks.drop_first());
                let hn = head_token(toks.drop_first());
                assert(m.count((Some(w), hn)) > 0);
            } else {
                assert(rest.count((c, Some(w))) > 0);
                let n = choose|n: Option<Seq<char>>| rest.count((Some(w), n)) > 0;
                assert(m.count((Some(w), n)) > 0);
            }
        }
    }
}

/// The transitions of a single feed are successor-closed.
pub proof fn lemma_transitions_closed(toks: Seq<Seq<char>>)
    ensures
        successor_closed(transitions_of(toks)),
{
    lemma_chain_closed(None, toks);
}

/// Law: in a table built from one feed of three distinct words, every
/// context has exactly one successor, so the one and only complete
/// generated sequence is the fed sequence itself, whatever the random
/// draws were.
pub proof fn lemma_single_feed_deterministic(
    a: Seq<char>,
    b: Seq<char>,
    c: Seq<char>,
    ws: Seq<Seq<char>>,
)
    requires
        a != b,
        b != c,
        a != c,
        is_generated(transitions_of(seq![a, b, c]), ws),
    ensures
        ws == seq![a, b, c],
{
    let s = seq![a, b, c];
    let m = transitions_of(s);
    assert(s.drop_first() =~= seq![b, c]);
    assert(seq![b, c].drop_first() =~= seq![c]);
    assert(seq![c].drop_first() =~= Seq::<Seq<char>>::empty());
    let m3 = chain_transitions(Some(c), Seq::<Seq<char>>::empty());
    let m2 = chain_transitions(Some(b), seq![c]);
    let m1 = chain_transitions(Some(a), seq![b, c]);
    assert(m3 == Multiset::singleton((Some(c), None::<Seq<char>>)));
    assert(m2 == Multiset::singleton((Some(b), Some(c))).add(m3));
    assert(m1 == Multiset::singleton((Some(a), Some(b))).add(m2));
    assert(m == Multiset::singleton((None::<Seq<char>>, Some(a))).add(m1));
    assert(m.count((step_context(ws, ws.len() as int), None::<Seq<char>>)) > 0);
    assert(step_context(ws, ws.len() as int) == Some(c));
    assert(ws.len() >= 1);
    assert(ws[ws.len() - 1] == c);
    assert(m.count((step_context(ws, 0), Some(ws[0]))) > 0);
    assert(ws[0] == a);
    if ws.len() == 1 {
        assert(false);
    }
    assert(m.count((step_context(ws, 1), Some(ws[1]))) > 0);
    assert(ws[1] == b);
    if ws.len() == 2 {
        assert(false);
    }
    assert(m.count((step_context(ws, 2), Some(ws[2]))) > 0);
    assert(ws[2] == c);
    if ws.len() > 3 {
        assert(m.count((step_context(ws, 3), Some(ws[3]))) > 0);
        assert(false);
    }
    assert(ws =~= seq![a, b, c]);
}

/// Successor-closure is preserved when two tables are merged.
pub proof fn lemma_closed_add(m1: Multiset<Transition>, m2: Multiset<Transition>)
    requires
        successor_closed(m1),
        successor_closed(m2),
    ensures
        successor_closed(m1.add(m2)),
{
    let m = m1.add(m2);
    assert forall|c: Option<Seq<char>>, w: Seq<char>| m.count((c, Some(w))) > 0 implies exists|
        n: Option<Seq<char>>,
    | m.count((Some(w), n)) > 0 by {
        if m1.count((c, Some(w))) > 0 {
            let n = choose|n: Option<Seq<char>>| m1.count((Some(w), n)) > 0;
            assert(m.count((Some(w), n)) > 0);
        } else {
            assert(m2.count((c, Some(w))) > 0);
            let n = choose|n: Option<Seq<char>>| m2.count((Some(w), n)) > 0;
            assert(m.count((Some(w), n)) > 0);
        }
    }
}

} // verus!
