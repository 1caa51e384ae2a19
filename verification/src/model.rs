//! The Markov model: a transition table owned by a `Model`, grown by `feed`
//! and sampled by `generate`. The table maps each observed context (START or
//! a word) to every token observed to follow it, with occurrence counts; its
//! abstract value, `self@`, is the multiset of all recorded transitions.

use crate::rng::random_below;
use crate::tokenizer::{join_tokens, lemma_token_count_le, spec_join, spec_tokenize, tokenize};
use crate::transitions::{
    is_generated, is_walk, lemma_closed_add, lemma_feed_has_start, lemma_transitions_closed,
    start_present, step_context, successor_closed, transitions_of, Transition,
};
use vstd::multiset::Multiset;
use vstd::pervasive::unreached;
use vstd::prelude::*;

verus! {

/// The most words one `generate` call will emit: the sampling loop provably
/// exits after this many steps, a bound no real table comes near.
pub const GENERATION_STEP_LIMIT: u64 = u64::MAX;

/// The condition `generate` signals instead of sampling from a table with
/// no contexts: the model was never fed.
#[derive(Debug, PartialEq, Eq, Structural)]
pub enum GenerateError {
    EmptyModel,
}

/// One observed successor of a context: the token that followed (`None` is
/// the END marker) and how often that was observed.
struct SuccessorEntry {
    token: Option<String>,
    count: u64,
}

/// One context of the table (`None` is the START marker), every successor
/// observed for it, and the sum of their counts.
struct ContextEntry {
    context: Option<String>,
    successors: Vec<SuccessorEntry>,
    weight: u64,
}

/// A Markov text model. Created empty, mutated only by feeding, read-only
/// while generating.
pub struct Model {
    entries: Vec<ContextEntry>,
    total: u64,
}

impl SuccessorEntry {
    spec fn token_view(&self) -> Option<Seq<char>> {
        self.token.deep_view()
    }
}

impl ContextEntry {
    spec fn context_view(&self) -> Option<Seq<char>> {
        self.context.deep_view()
    }
}

/// `t` with multiplicity `n`.
spec fn repeat_transition(t: Transition, n: nat) -> Multiset<Transition>
    decreases n,
{
    if n == 0 {
        Multiset::empty()
    } else {
        repeat_transition(t, (n - 1) as nat).insert(t)
    }
}

/// The transitions a successor list records for the context `c`.
spec fn successors_ms(c: Option<Seq<char>>, ss: Seq<SuccessorEntry>) -> Multiset<Transition>
    decreases ss.len(),
{
    if ss.len() == 0 {
        Multiset::empty()
    } else {
        repeat_transition((c, ss[0].token_view()), ss[0].count as nat).add(
            successors_ms(c, ss.drop_first()),
        )
    }
}

/// The transitions the whole entry list records.
spec fn entries_ms(es: Seq<ContextEntry>) -> Multiset<Transition>
    decreases es.len(),
{
    if es.len() == 0 {
        Multiset::empty()
    } else {
        successors_ms(es[0].context_view(), es[0].successors@).add(entries_ms(es.drop_first()))
    }
}

/// The sum of the counts of a successor list.
spec fn successors_sum(ss: Seq<SuccessorEntry>) -> nat
    decreases ss.len(),
{
    if ss.len() == 0 {
        0nat
    } else {
        ss[0].count as nat + successors_sum(ss.drop_first())
    }
}

/// The sum of all counts of the whole entry list.
spec fn entries_sum(es: Seq<ContextEntry>) -> nat
    decreases es.len(),
{
    if es.len() == 0 {
        0nat
    } else {
        successors_sum(es[0].successors@) + entries_sum(es.drop_first())
    }
}

spec fn successors_wf(ss: Seq<SuccessorEntry>) -> bool {
    &&& forall|p: int| 0 <= p < ss.len() ==> (#[trigger] ss[p]).count >= 1
    &&& forall|p: int, q: int|
        0 <= p < q < ss.len() ==> ss[p].token_view() != ss[q].token_view()
}

spec fn entry_wf(e: ContextEntry) -> bool {
    &&& e.successors@.len() >= 1
    &&& successors_wf(e.successors@)
    &&& e.weight as nat == successors_sum(e.successors@)
}

spec fn entries_wf(es: Seq<ContextEntry>) -> bool {
    &&& forall|i: int| 0 <= i < es.len() ==> entry_wf(#[trigger] es[i])
    &&& forall|i: int, j: int|
        0 <= i < j < es.len() ==> es[i].context_view() != es[j].context_view()
}

impl View for Model {
    type V = Multiset<Transition>;

    closed spec fn view(&self) -> Multiset<Transition> {
        entries_ms(self.entries@)
    }
}

proof fn lemma_repeat_count(t: Transition, n: nat, u: Transition)
    ensures
        repeat_transition(t, n).count(u) == if u == t {
            n
        } else {
            0nat
        },
    decreases n,
{
    if n > 0 {
        lemma_repeat_count(t, (n - 1) as nat, u);
    }
}

/// A successor list records nothing for another context.
proof fn lemma_successors_count_other(c: Option<Seq<char>>, ss: Seq<SuccessorEntry>, u: Transition)
    requires
        u.0 != c,
    ensures
        successors_ms(c, ss).count(u) == 0,
    decreases ss.len(),
{
    if ss.len() > 0 {
        lemma_repeat_count((c, ss[0].token_view()), ss[0].count as nat, u);
        lemma_successors_count_other(c, ss.drop_first(), u);
    }
}

/// A successor list records nothing for a token that none of its entries holds.
proof fn lemma_successors_count_absent(
    c: Option<Seq<char>>,
    ss: Seq<SuccessorEntry>,
    n: Option<Seq<char>>,
)
    requires
        forall|p: int| 0 <= p < ss.len() ==> (#[trigger] ss[p]).token_view() != n,
    ensures
        successors_ms(c, ss).count((c, n)) == 0,
    decreases ss.len(),
{
    if ss.len() > 0 {
        lemma_repeat_count((c, ss[0].token_view()), ss[0].count as nat, (c, n));
        lemma_successors_count_absent(c, ss.drop_first(), n);
    }
}

/// With distinct tokens, the count recorded for the token at `p` is exactly
/// that entry's count.
proof fn lemma_successors_count_found(c: Option<Seq<char>>, ss: Seq<SuccessorEntry>, p: int)
    requires
        0 <= p < ss.len(),
        successors_wf(ss),
    ensures
        successors_ms(c, ss).count((c, ss[p].token_view())) == ss[p].count,
    decreases ss.len(),
{
    let u = (c, ss[p].token_view());
    if p == 0 {
        lemma_repeat_count(u, ss[0].count as nat, u);
        lemma_successors_count_absent(c, ss.drop_first(), ss[0].token_view());
    } else {
        lemma_repeat_count((c, ss[0].token_view()), ss[0].count as nat, u);
        lemma_successors_count_found(c, ss.drop_first(), p - 1);
    }
}

/// An entry list records nothing for a context that none of its entries holds.
proof fn lemma_entries_count_absent(es: Seq<ContextEntry>, u: Transition)
    requires
        forall|i: int| 0 <= i < es.len() ==> (#[trigger] es[i]).context_view() != u.0,
    ensures
        entries_ms(es).count(u) == 0,
    decreases es.len(),
{
    if es.len() > 0 {
        lemma_successors_count_other(es[0].context_view(), es[0].successors@, u);
        lemma_entries_count_absent(es.drop_first(), u);
    }
}

/// With distinct contexts, what the table records for the context of entry
/// `i` is what that entry's successor list records.
proof fn lemma_entries_count_at(es: Seq<ContextEntry>, i: int, n: Option<Seq<char>>)
    requires
        0 <= i < es.len(),
        forall|j: int, k: int|
            0 <= j < k < es.len() ==> es[j].context_view() != es[k].context_view(),
    ensures
        entries_ms(es).count((es[i].context_view(), n)) == successors_ms(
            es[i].context_view(),
            es[i].successors@,
        ).count((es[i].context_view(), n)),
    decreases es.len(),
{
    let u = (es[i].context_view(), n);
    if i == 0 {
        assert forall|j: int| 0 <= j < es.drop_first().len() implies (#[trigger] es.drop_first()[j]).context_view() != u.0 by {
            assert(es.drop_first()[j] == es[j + 1]);
        }
        lemma_entries_count_absent(es.drop_first(), u);
    } else {
        lemma_successors_count_other(es[0].context_view(), es[0].successors@, u);
        lemma_entries_count_at(es.drop_first(), i - 1, n);
    }
}

/// The sum of a successor list bounds each entry's count.
proof fn lemma_successors_sum_lower(ss: Seq<SuccessorEntry>, p: int)
    requires
        0 <= p < ss.len(),
    ensures
        successors_sum(ss) >= ss[p].count,
    decreases ss.len(),
{
    if p > 0 {
        lemma_successors_sum_lower(ss.drop_first(), p - 1);
    }
}

/// The total of the table bounds each entry's successor sum.
proof fn lemma_entries_sum_lower(es: Seq<ContextEntry>, i: int)
    requires
        0 <= i < es.len(),
    ensures
        entries_sum(es) >= successors_sum(es[i].successors@),
    decreases es.len(),
{
    if i > 0 {
        lemma_entries_sum_lower(es.drop_first(), i - 1);
    }
}

proof fn lemma_successors_sum_push(ss: Seq<SuccessorEntry>, e: SuccessorEntry)
    ensures
        successors_sum(ss.push(e)) == successors_sum(ss) + e.count,
    decreases ss.len(),
{
    if ss.len() == 0 {
        assert(ss.push(e)[0] == e);
        assert(ss.push(e).drop_first() =~= Seq::<SuccessorEntry>::empty());
        assert(successors_sum(ss.push(e)) == e.count as nat + successors_sum(
            ss.push(e).drop_first(),
        ));
    } else {
        assert(ss.push(e)[0] == ss[0]);
        assert(ss.push(e).drop_first() =~= ss.drop_first().push(e));
        lemma_successors_sum_push(ss.drop_first(), e);
        assert(successors_sum(ss.push(e)) == ss[0].count as nat + successors_sum(
            ss.push(e).drop_first(),
        ));
        assert(successors_sum(ss) == ss[0].count as nat + successors_sum(ss.drop_first()));
    }
}

proof fn lemma_successors_ms_push(c: Option<Seq<char>>, ss: Seq<SuccessorEntry>, e: SuccessorEntry)
    requires
        e.count == 1,
    ensures
        successors_ms(c, ss.push(e)) == successors_ms(c, ss).insert((c, e.token_view())),
    decreases ss.len(),
{
    let t = (c, e.token_view());
    if ss.len() == 0 {
        assert(ss.push(e)[0] == e);
        assert(ss.push(e).drop_first() =~= Seq::<SuccessorEntry>::empty());
        assert(successors_ms(c, ss.push(e)) == repeat_transition(t, e.count as nat).add(
            successors_ms(c, ss.push(e).drop_first()),
        ));
        assert(repeat_transition(t, 0nat) == Multiset::<Transition>::empty());
        assert(repeat_transition(t, 1) == repeat_transition(t, 0nat).insert(t));
        assert(successors_ms(c, ss.push(e)) =~= successors_ms(c, ss).insert(t));
    } else {
        assert(ss.push(e)[0] == ss[0]);
        assert(ss.push(e).drop_first() =~= ss.drop_first().push(e));
        lemma_successors_ms_push(c, ss.drop_first(), e);
        assert(successors_ms(c, ss.push(e)) == repeat_transition(
            (c, ss[0].token_view()),
            ss[0].count as nat,
        ).add(successors_ms(c, ss.push(e).drop_first())));
        assert(successors_ms(c, ss) == repeat_transition(
            (c, ss[0].token_view()),
            ss[0].count as nat,
        ).add(successors_ms(c, ss.drop_first())));
        assert(successors_ms(c, ss.push(e)) =~= successors_ms(c, ss).insert(t));
    }
}

proof fn lemma_successors_sum_update(ss: Seq<SuccessorEntry>, p: int, e: SuccessorEntry)
    requires
        0 <= p < ss.len(),
        e.count as nat == ss[p].count as nat + 1,
    ensures
        successors_sum(ss.update(p, e)) == successors_sum(ss) + 1,
    decreases ss.len(),
{
    if p == 0 {
        assert(ss.update(0, e).drop_first() =~= ss.drop_first());
    } else {
        assert(ss.update(p, e).drop_first() =~= ss.drop_first().update(p - 1, e));
        lemma_successors_sum_update(ss.drop_first(), p - 1, e);
    }
}

proof fn lemma_successors_ms_update(
    c: Option<Seq<char>>,
    ss: Seq<SuccessorEntry>,
    p: int,
    e: SuccessorEntry,
)
    requires
        0 <= p < ss.len(),
        e.token_view() == ss[p].token_view(),
        e.count as nat == ss[p].count as nat + 1,
    ensures
        successors_ms(c, ss.update(p, e)) == successors_ms(c, ss).insert((c, ss[p].token_view())),
    decreases ss.len(),
{
    let t = (c, ss[p].token_view());
    if p == 0 {
        assert(ss.update(0, e).drop_first() =~= ss.drop_first());
        assert(repeat_transition(t, e.count as nat) == repeat_transition(
            t,
            ss[0].count as nat,
        ).insert(t));
        assert(successors_ms(c, ss.update(0, e)) =~= successors_ms(c, ss).insert(t));
    } else {
        assert(ss.update(p, e).drop_first() =~= ss.drop_first().update(p - 1, e));
        lemma_successors_ms_update(c, ss.drop_first(), p - 1, e);
        assert(successors_ms(c, ss.update(p, e)) =~= successors_ms(c, ss).insert(t));
    }
}

proof fn lemma_entries_sum_push(es: Seq<ContextEntry>, e: ContextEntry)
    ensures
        entries_sum(es.push(e)) == entries_sum(es) + successors_sum(e.successors@),
    decreases es.len(),
{
    if es.len() == 0 {
        assert(es.push(e)[0] == e);
        assert(es.push(e).drop_first() =~= Seq::<ContextEntry>::empty());
        assert(entries_sum(es.push(e)) == successors_sum(e.successors@) + entries_sum(
            es.push(e).drop_first(),
        ));
    } else {
        assert(es.push(e)[0] == es[0]);
        assert(es.push(e).drop_first() =~= es.drop_first().push(e));
        lemma_entries_sum_push(es.drop_first(), e);
        assert(entries_sum(es.push(e)) == successors_sum(es[0].successors@) + entries_sum(
            es.push(e).drop_first(),
        ));
        assert(entries_sum(es) == successors_sum(es[0].successors@) + entries_sum(
            es.drop_first(),
        ));
    }
}

proof fn lemma_entries_ms_push(es: Seq<ContextEntry>, e: ContextEntry)
    ensures
        entries_ms(es.push(e)) == entries_ms(es).add(
            successors_ms(e.context_view(), e.successors@),
        ),
    decreases es.len(),
{
    if es.len() == 0 {
        assert(es.push(e)[0] == e);
        assert(es.push(e).drop_first() =~= Seq::<ContextEntry>::empty());
        assert(entries_ms(es.push(e)) == successors_ms(e.context_view(), e.successors@).add(
            entries_ms(es.push(e).drop_first()),
        ));
        assert(entries_ms(es.push(e)) =~= entries_ms(es).add(
            successors_ms(e.context_view(), e.successors@),
        ));
    } else {
        assert(es.push(e)[0] == es[0]);
        assert(es.push(e).drop_first() =~= es.drop_first().push(e));
        lemma_entries_ms_push(es.drop_first(), e);
        assert(entries_ms(es.push(e)) == successors_ms(es[0].context_view(), es[0].successors@)
            .add(entries_ms(es.push(e).drop_first())));
        assert(entries_ms(es) == successors_ms(es[0].context_view(), es[0].successors@).add(
            entries_ms(es.drop_first()),
        ));
        assert(entries_ms(es.push(e)) =~= entries_ms(es).add(
            successors_ms(e.context_view(), e.successors@),
        ));
    }
}

proof fn lemma_entries_sum_update(es: Seq<ContextEntry>, i: int, e: ContextEntry)
    requires
        0 <= i < es.len(),
        successors_sum(e.successors@) == successors_sum(es[i].successors@) + 1,
    ensures
        entries_sum(es.update(i, e)) == entries_sum(es) + 1,
    decreases es.len(),
{
    if i == 0 {
        assert(es.update(0, e).drop_first() =~= es.drop_first());
    } else {
        assert(es.update(i, e).drop_first() =~= es.drop_first().update(i - 1, e));
        lemma_entries_sum_update(es.drop_first(), i - 1, e);
    }
}

proof fn lemma_entries_ms_update(es: Seq<ContextEntry>, i: int, e: ContextEntry, t: Transition)
    requires
        0 <= i < es.len(),
        successors_ms(e.context_view(), e.successors@) == successors_ms(
            es[i].context_view(),
            es[i].successors@,
        ).insert(t),
    ensures
        entries_ms(es.update(i, e)) == entries_ms(es).insert(t),
    decreases es.len(),
{
    if i == 0 {
        assert(es.update(0, e).drop_first() =~= es.drop_first());
        assert(entries_ms(es.update(0, e)) =~= entries_ms(es).insert(t));
    } else {
        assert(es.update(i, e).drop_first() =~= es.drop_first().update(i - 1, e));
        lemma_entries_ms_update(es.drop_first(), i - 1, e, t);
        assert(entries_ms(es.update(i, e)) =~= entries_ms(es).insert(t));
    }
}

/// Whether `a` and `b` hold the same marker or equal words.
fn opt_token_eq(a: &Option<String>, b: &Option<String>) -> (r: bool)
    ensures
        r == (a.deep_view() == b.deep_view()),
{
    match a {
        None => match b {
            None => true,
            Some(_) => false,
        },
        Some(x) => match b {
            None => false,
            Some(y) => *x == *y,
        },
    }
}

/// A copy of a marker-or-word with the same view.
fn clone_opt_token(a: &Option<String>) -> (r: Option<String>)
    ensures
        r.deep_view() == a.deep_view(),
{
    match a {
        None => None,
        Some(s) => Some(s.clone()),
    }
}

/// The index of the entry for `context`, if the table has one.
fn find_context(entries: &Vec<ContextEntry>, context: &Option<String>) -> (r: Option<usize>)
    ensures
        match r {
            Some(i) => i < entries@.len() && entries@[i as int].context_view()
                == context.deep_view(),
            None => forall|k: int|
                0 <= k < entries@.len() ==> (#[trigger] entries@[k]).context_view()
                    != context.deep_view(),
        },
{
    let mut i: usize = 0;
    while i < entries.len()
        invariant
            i <= entries@.len(),
            forall|k: int|
                0 <= k < i ==> (#[trigger] entries@[k]).context_view() != context.deep_view(),
        decreases entries@.len() - i,
    {
        if opt_token_eq(&entries[i].context, context) {
            return Some(i);
        }
        i = i + 1;
    }
    None
}

/// The index of the successor holding `token`, if the list has one.
fn find_successor(ss: &Vec<SuccessorEntry>, token: &Option<String>) -> (r: Option<usize>)
    ensures
        match r {
            Some(p) => p < ss@.len() && ss@[p as int].token_view() == token.deep_view(),
            None => forall|k: int|
                0 <= k < ss@.len() ==> (#[trigger] ss@[k]).token_view() != token.deep_view(),
        },
{
    let mut p: usize = 0;
    while p < ss.len()
        invariant
            p <= ss@.len(),
            forall|k: int|
                0 <= k < p ==> (#[trigger] ss@[k]).token_view() != token.deep_view(),
        decreases ss@.len() - p,
    {
        if opt_token_eq(&ss[p].token, token) {
            return Some(p);
        }
        p = p + 1;
    }
    None
}

impl Model {
    spec fn base_inv(&self) -> bool {
        &&& entries_wf(self.entries@)
        &&& self.total as nat == entries_sum(self.entries@)
    }

    /// Well-formedness: the representation is consistent, every recorded
    /// successor word is itself a context, and a non-empty table has a
    /// transition out of START.
    pub closed spec fn wf(&self) -> bool {
        &&& self.base_inv()
        &&& successor_closed(self@)
        &&& start_present(self@)
    }

    /// How many transitions have been recorded over all feeds.
    pub closed spec fn total_transitions(&self) -> nat {
        self.total as nat
    }

    /// A fresh model: no contexts, no transitions.
    pub fn new() -> (r: Model)
        ensures
            r.wf(),
            r@ == Multiset::<Transition>::empty(),
            r.total_transitions() == 0,
    {
        let m = Model { entries: Vec::new(), total: 0 };
        proof {
            assert(m@ =~= Multiset::<Transition>::empty());
        }
        m
    }

    /// The number of recorded transitions, as a value a caller can test
    /// before feeding more.
    pub fn total_count(&self) -> (r: u64)
        ensures
            r as nat == self.total_transitions(),
    {
        self.total
    }

    /// Whether the model has never been fed.
    pub fn is_empty(&self) -> (r: bool)
        requires
            self.wf(),
        ensures
            r <==> self@ == Multiset::<Transition>::empty(),
            r <==> self.total_transitions() == 0,
    {
        proof {
            self.lemma_empty_conditions();
        }
        self.entries.len() == 0
    }

    /// An empty entry list, an empty table and a zero total coincide.
    proof fn lemma_empty_conditions(&self)
        requires
            self.base_inv(),
        ensures
            (self.entries@.len() == 0) <==> (self@ == Multiset::<Transition>::empty()),
            (self.entries@.len() == 0) <==> (self.total_transitions() == 0),
    {
        let es = self.entries@;
        if es.len() == 0 {
            assert(self@ =~= Multiset::<Transition>::empty());
        } else {
            let t0 = (es[0].context_view(), es[0].successors@[0].token_view());
            lemma_entries_count_at(es, 0, es[0].successors@[0].token_view());
            lemma_successors_count_found(es[0].context_view(), es[0].successors@, 0);
            assert(self@.count(t0) >= 1);
            assert(Multiset::<Transition>::empty().count(t0) == 0);
            lemma_entries_sum_lower(es, 0);
            lemma_successors_sum_lower(es[0].successors@, 0);
        }
    }

    /// How often the table records `context -> next`. `None` stands for
    /// START as a context and for END as a successor.
    pub fn transition_count(&self, context: &Option<String>, next: &Option<String>) -> (r: u64)
        requires
            self.wf(),
        ensures
            r as nat == self@.count((context.deep_view(), next.deep_view())),
    {
        let u = Ghost((context.deep_view(), next.deep_view()));
        match find_context(&self.entries, context) {
            None => {
                proof {
                    lemma_entries_count_absent(self.entries@, u@);
                }
                0
            },
            Some(i) => {
                proof {
                    lemma_entries_count_at(self.entries@, i as int, next.deep_view());
                }
                match find_successor(&self.entries[i].successors, next) {
                    None => {
                        proof {
                            lemma_successors_count_absent(
                                context.deep_view(),
                                self.entries@[i as int].successors@,
                                next.deep_view(),
                            );
                        }
                        0
                    },
                    Some(p) => {
                        proof {
                            lemma_successors_count_found(
                                context.deep_view(),
                                self.entries@[i as int].successors@,
                                p as int,
                            );
                        }
                        self.entries[i].successors[p].count
                    },
                }
            },
        }
    }

    /// Record one observed transition `context -> next`, raising its count
    /// by one.
    fn record(&mut self, context: &Option<String>, next: &Option<String>)
        requires
            old(self).base_inv(),
            old(self).total < u64::MAX,
        ensures
            final(self).base_inv(),
            final(self)@ == old(self)@.insert((context.deep_view(), next.deep_view())),
            final(self).total as nat == old(self).total as nat + 1,
            final(self).entries@.len() >= 1,
    {
        let ghost t = (context.deep_view(), next.deep_view());
        let ghost es0 = self.entries@;
        match find_context(&self.entries, context) {
            Some(i) => {
                let ghost ss0 = es0[i as int].successors@;
                proof {
                    lemma_entries_sum_lower(es0, i as int);
                }
                match find_successor(&self.entries[i].successors, next) {
                    Some(p) => {
                        proof {
                            lemma_successors_sum_lower(ss0, p as int);
                        }
                        let c = self.entries[i].successors[p].count;
                        self.entries[i].successors[p].count = c + 1;
                        let w = self.entries[i].weight;
                        self.entries[i].weight = w + 1;
                        self.total = self.total + 1;
                        proof {
                            let es1 = self.entries@;
                            let e1 = es1[i as int];
                            assert(es1 =~= es0.update(i as int, e1));
                            assert(e1.successors@ =~= ss0.update(
                                p as int,
                                e1.successors@[p as int],
                            ));
                            lemma_successors_ms_update(
                                es0[i as int].context_view(),
                                ss0,
                                p as int,
                                e1.successors@[p as int],
                            );
                            lemma_successors_sum_update(ss0, p as int, e1.successors@[p as int]);
                            lemma_entries_ms_update(es0, i as int, e1, t);
                            lemma_entries_sum_update(es0, i as int, e1);
                        }
                    },
                    None => {
                        let e = SuccessorEntry { token: clone_opt_token(next), count: 1 };
                        self.entries[i].successors.push(e);
                        let w = self.entries[i].weight;
                        self.entries[i].weight = w + 1;
                        self.total = self.total + 1;
                        proof {
                            let es1 = self.entries@;
                            let e1 = es1[i as int];
                            assert(es1 =~= es0.update(i as int, e1));
                            assert(e1.successors@ =~= ss0.push(e1.successors@.last()));
                            lemma_successors_ms_push(
                                es0[i as int].context_view(),
                                ss0,
                                e1.successors@.last(),
                            );
                            lemma_successors_sum_push(ss0, e1.successors@.last());
                            lemma_entries_ms_update(es0, i as int, e1, t);
                            lemma_entries_sum_update(es0, i as int, e1);
                        }
                    },
                }
            },
            None => {
                let mut ss: Vec<SuccessorEntry> = Vec::new();
                ss.push(SuccessorEntry { token: clone_opt_token(next), count: 1 });
                let e = ContextEntry { context: clone_opt_token(context), successors: ss, weight: 1 };
                self.entries.push(e);
                self.total = self.total + 1;
                proof {
                    let es1 = self.entries@;
                    let e1 = es1[es1.len() - 1];
                    assert(es1 =~= es0.push(e1));
                    lemma_entries_ms_push(es0, e1);
                    lemma_entries_sum_push(es0, e1);
                    let ss1 = e1.successors@;
                    assert(ss1.len() == 1);
                    assert(ss1[0].token_view() == next.deep_view());
                    assert(ss1.drop_first() =~= Seq::<SuccessorEntry>::empty());
                    assert(ss1[0].count == 1);
                    assert(successors_ms(e1.context_view(), ss1) == repeat_transition(
                        (e1.context_view(), ss1[0].token_view()),
                        ss1[0].count as nat,
                    ).add(successors_ms(e1.context_view(), ss1.drop_first())));
                    assert(successors_sum(ss1) == ss1[0].count as nat + successors_sum(
                        ss1.drop_first(),
                    ));
                    assert(repeat_transition(t, 0nat) == Multiset::<Transition>::empty());
                    assert(repeat_transition(t, 1nat) == repeat_transition(t, 0nat).insert(t));
                    assert(successors_ms(e1.context_view(), ss1)
                        =~= Multiset::<Transition>::empty().insert(t));
                    assert(entries_ms(es0).add(successors_ms(e1.context_view(), ss1))
                        =~= entries_ms(es0).insert(t));
                    assert(successors_sum(ss1) == 1);
                    assert forall|j: int, k: int|
                        0 <= j < k < es1.len() implies es1[j].context_view()
                        != es1[k].context_view() by {
                        if k < es1.len() - 1 {
                            assert(es1[j] == es0[j]);
                            assert(es1[k] == es0[k]);
                        } else {
                            assert(es1[j] == es0[j]);
                        }
                    }
                    assert forall|j: int| 0 <= j < es1.len() implies entry_wf(
                        #[trigger] es1[j],
                    ) by {
                        if j < es1.len() - 1 {
                            assert(es1[j] == es0[j]);
                        }
                    }
                }
            },
        }
    }

    /// Feed one token sequence. Records START -> t1 (or START -> END when
    /// the sequence is empty), each adjacent pair, and tn -> END, raising
    /// each recorded pair's count by one; nothing else changes.
    pub fn feed(&mut self, tokens: &Vec<String>)
        requires
            old(self).wf(),
            old(self).total_transitions() + tokens@.len() + 1 <= u64::MAX,
        ensures
            final(self).wf(),
            final(self)@ == old(self)@.add(transitions_of(tokens.deep_view())),
            final(self).total_transitions() == old(self).total_transitions() + tokens@.len() + 1,
    {
        let ghost all = tokens.deep_view();
        let ghost orig = self@;
        let ghost orig_total = self.total as nat;
        let mut prev: Option<String> = None;
        let mut idx: usize = 0;
        proof {
            assert(all.skip(0) =~= all);
        }
        while idx < tokens.len()
            invariant
                self.base_inv(),
                idx <= tokens@.len(),
                tokens.deep_view() == all,
                all.len() == tokens@.len(),
                self.total as nat == orig_total + idx,
                orig_total + tokens@.len() + 1 <= u64::MAX,
                prev.deep_view() == step_context(all, idx as int),
                self@.add(crate::transitions::chain_transitions(prev.deep_view(), all.skip(idx as int)))
                    == orig.add(transitions_of(all)),
            decreases tokens@.len() - idx,
        {
            let ghost before = self@;
            let ghost rest = all.skip(idx as int);
            let tok = tokens[idx].clone();
            let nxt = Some(tok);
            self.record(&prev, &nxt);
            proof {
                assert(all[idx as int] == tokens@[idx as int].deep_view());
                assert(rest[0] == all[idx as int]);
                assert(rest.drop_first() =~= all.skip(idx as int + 1));
                assert(crate::transitions::chain_transitions(prev.deep_view(), rest)
                    == Multiset::singleton((prev.deep_view(), Some(all[idx as int]))).add(
                    crate::transitions::chain_transitions(
                        Some(all[idx as int]),
                        all.skip(idx as int + 1),
                    ),
                ));
                assert(self@.add(
                    crate::transitions::chain_transitions(
                        nxt.deep_view(),
                        all.skip(idx as int + 1),
                    ),
                ) =~= orig.add(transitions_of(all)));
            }
            prev = nxt;
            idx = idx + 1;
        }
        let ghost before_last = self@;
        self.record(&prev, &None);
        proof {
            assert(all.skip(idx as int) =~= Seq::<Seq<char>>::empty());
            assert(crate::transitions::chain_transitions(prev.deep_view(), all.skip(idx as int))
                == Multiset::singleton((prev.deep_view(), None::<Seq<char>>)));
            assert(self@ =~= orig.add(transitions_of(all)));
            lemma_transitions_closed(all);
            lemma_closed_add(orig, transitions_of(all));
            lemma_feed_has_start(all);
            assert(self@.count((None::<Seq<char>>, crate::transitions::head_token(all))) > 0);
        }
    }

    /// Feed one raw line of text: tokenize it on whitespace and feed the
    /// token sequence.
    pub fn feed_line(&mut self, line: &str)
        requires
            old(self).wf(),
            old(self).total_transitions() + line@.len() + 1 <= u64::MAX,
        ensures
            final(self).wf(),
            final(self)@ == old(self)@.add(transitions_of(spec_tokenize(line@))),
            final(self).total_transitions() == old(self).total_transitions() + spec_tokenize(
                line@,
            ).len() + 1,
    {
        proof {
            lemma_token_count_le(line@);
        }
        let toks = tokenize(line);
        self.feed(&toks);
    }

    /// Sample one successor of the entry `e`, each observed successor drawn
    /// with probability proportional to its count.
    fn sample_successor(e: &ContextEntry) -> (r: Option<String>)
        requires
            entry_wf(*e),
        ensures
            exists|p: int|
                0 <= p < e.successors@.len() && (#[trigger] e.successors@[p]).token_view()
                    == r.deep_view(),
    {
        proof {
            lemma_successors_sum_lower(e.successors@, 0);
        }
        let draw = random_below(e.weight);
        let mut acc: u64 = 0;
        let mut p: usize = 0;
        proof {
            assert(e.successors@.skip(0) =~= e.successors@);
        }
        while p < e.successors.len()
            invariant
                entry_wf(*e),
                p <= e.successors@.len(),
                draw < e.weight,
                acc <= draw,
                acc as nat + successors_sum(e.successors@.skip(p as int)) == e.weight as nat,
            decreases e.successors@.len() - p,
        {
            let ghost rest = e.successors@.skip(p as int);
            proof {
                assert(rest[0] == e.successors@[p as int]);
                assert(rest.drop_first() =~= e.successors@.skip(p as int + 1));
            }
            let c = e.successors[p].count;
            if draw < acc + c {
                return clone_opt_token(&e.successors[p].token);
            }
            acc = acc + c;
            p = p + 1;
        }
        proof {
            assert(e.successors@.skip(p as int) =~= Seq::<SuccessorEntry>::empty());
            assert(false);
        }
        unreached()
    }

    /// Generate one token sequence by walking the table from START,
    /// sampling each next token in proportion to its recorded count, until
    /// END is drawn. Fails exactly when the model was never fed. Every
    /// returned word extends a transition the table holds, and unless the
    /// walk was cut off at the step limit, the walk was ended by a recorded
    /// transition to END.
    pub fn generate(&self) -> (r: Result<Vec<String>, GenerateError>)
        requires
            self.wf(),
        ensures
            r is Err <==> self@ == Multiset::<Transition>::empty(),
            r matches Ok(ws) ==> is_walk(self@, ws.deep_view()) && (ws@.len()
                < GENERATION_STEP_LIMIT as nat ==> is_generated(self@, ws.deep_view())),
    {
        proof {
            self.lemma_empty_conditions();
        }
        if self.entries.len() == 0 {
            return Err(GenerateError::EmptyModel);
        }
        let mut words: Vec<String> = Vec::new();
        let mut context: Option<String> = None;
        let mut fuel: u64 = GENERATION_STEP_LIMIT;
        loop
            invariant
                self.wf(),
                self@ != Multiset::<Transition>::empty(),
                words@.len() + fuel as nat == GENERATION_STEP_LIMIT as nat,
                context.deep_view() == step_context(words.deep_view(), words@.len() as int),
                is_walk(self@, words.deep_view()),
                exists|n: Option<Seq<char>>| self@.count((context.deep_view(), n)) > 0,
            decreases fuel,
        {
            if fuel == 0 {
                return Ok(words);
            }
            fuel = fuel - 1;
            let i = match find_context(&self.entries, &context) {
                Some(i) => i,
                None => {
                    proof {
                        let n = choose|n: Option<Seq<char>>|
                            self@.count((context.deep_view(), n)) > 0;
                        lemma_entries_count_absent(self.entries@, (context.deep_view(), n));
                    }
                    unreached()
                },
            };
            let next = Self::sample_successor(&self.entries[i]);
            proof {
                let ghost ss = self.entries@[i as int].successors@;
                let p = choose|p: int|
                    0 <= p < ss.len() && (#[trigger] ss[p]).token_view() == next.deep_view();
                lemma_entries_count_at(self.entries@, i as int, next.deep_view());
                lemma_successors_count_found(
                    self.entries@[i as int].context_view(),
                    self.entries@[i as int].successors@,
                    p,
                );
                assert(self@.count((context.deep_view(), next.deep_view())) > 0);
            }
            match next {
                None => {
                    return Ok(words);
                },
                Some(w) => {
                    let ghost old_ws = words.deep_view();
                    let w2 = w.clone();
                    words.push(w);
                    context = Some(w2);
                    proof {
                        assert(words.deep_view() =~= old_ws.push(context.deep_view()->Some_0));
                        let ws = words.deep_view();
                        assert forall|k: int| 0 <= k < ws.len() implies self@.count(
                            (step_context(ws, k), Some(ws[k])),
                        ) > 0 by {
                            if k < ws.len() - 1 {
                                assert(step_context(ws, k) == step_context(old_ws, k));
                                assert(ws[k] == old_ws[k]);
                            } else {
                                assert(step_context(ws, k) == step_context(
                                    old_ws,
                                    old_ws.len() as int,
                                ));
                            }
                        }
                    }
                },
            }
        }
    }

    /// Generate one line of text: a generated token sequence rejoined with
    /// single spaces. Fails exactly when the model was never fed. The text
    /// joins a walk through the table, and unless it is long enough to have
    /// hit the step limit, a complete generated sequence.
    pub fn generate_text(&self) -> (r: Result<String, GenerateError>)
        requires
            self.wf(),
        ensures
            r is Err <==> self@ == Multiset::<Transition>::empty(),
            r matches Ok(s) ==> exists|ws: Seq<Seq<char>>|
                #[trigger] is_walk(self@, ws) && s@ == spec_join(ws),
            r matches Ok(s) ==> (s@.len() + 1 < GENERATION_STEP_LIMIT as nat ==> exists|
                ws: Seq<Seq<char>>,
            | #[trigger] is_generated(self@, ws) && s@ == spec_join(ws)),
    {
        match self.generate() {
            Err(e) => Err(e),
            Ok(words) => {
                let s = join_tokens(&words);
                proof {
                    let ws = words.deep_view();
                    assert(is_walk(self@, ws) && s@ == spec_join(ws));
                    crate::tokenizer::lemma_join_len(ws);
                    if s@.len() + 1 < GENERATION_STEP_LIMIT as nat {
                        assert(is_generated(self@, ws) && s@ == spec_join(ws));
                    }
                }
                Ok(s)
            },
        }
    }
}

} // verus!
