use vstd::prelude::*;

use crate::followers::{outcome_view, sum_in, Followers};
use crate::random::random_below;
use crate::token::Token;
use crate::training::{
    lemma_walk_start, lemma_walk_step, lemma_window_start, lemma_window_step,
    line_count, line_visits, observed, tokens_view, visits, walk_context, window,
};

verus! {

/// One slot of a context: before the sequence began, or a token seen.
#[derive(Clone, Debug, PartialEq, Eq, Hash)]
pub enum KeyPosition<T: Token> {
    Beginning,
    Body(T),
}

/// The value a slot stands for: `None` before the sequence began, else the
/// token's view.
pub open spec fn slot_view<T: Token>(p: KeyPosition<T>) -> Option<T::V> {
    match p {
        KeyPosition::Beginning => None,
        KeyPosition::Body(t) => Some(t@),
    }
}

/// The values a context's slots stand for.
pub open spec fn key_view<T: Token>(k: Seq<KeyPosition<T>>) -> Seq<Option<T::V>> {
    k.map_values(|p: KeyPosition<T>| slot_view(p))
}

/// Whether some entry of `g` has the context `ctx`.
pub open spec fn holds_key<T: Token>(
    g: Seq<(Vec<KeyPosition<T>>, Followers<T>)>,
    ctx: Seq<Option<T::V>>,
) -> bool {
    exists|i: int| 0 <= i < g.len() && #[trigger] key_view(g[i].0@) == ctx
}

/// An entry of `g` with the context `ctx`, where there is one.
pub open spec fn index_of_key<T: Token>(
    g: Seq<(Vec<KeyPosition<T>>, Followers<T>)>,
    ctx: Seq<Option<T::V>>,
) -> int {
    choose|i: int| 0 <= i < g.len() && #[trigger] key_view(g[i].0@) == ctx
}

/// `generate_from_token` was handed a context whose length is not the
/// chain's order.
#[derive(Debug, PartialEq, Eq)]
pub struct ContextLengthError {
    pub expected: usize,
    pub found: usize,
}

/// A Markov chain of fixed order: for each context of `order` slots, how
/// often each outcome followed it in the sequences trained so far.
pub struct MarkovChain<T: Token> {
    order: usize,
    graph: Vec<(Vec<KeyPosition<T>>, Followers<T>)>,
    observations: u64,
    lines: Ghost<Seq<Seq<T::V>>>,
}

fn duplicate_position<T: Token>(p: &KeyPosition<T>) -> (r: KeyPosition<T>)
    ensures
        slot_view(r) == slot_view(*p),
{
    match p {
        KeyPosition::Beginning => KeyPosition::Beginning,
        KeyPosition::Body(t) => KeyPosition::Body(t.duplicate()),
    }
}

fn same_position<T: Token>(a: &KeyPosition<T>, b: &KeyPosition<T>) -> (r: bool)
    ensures
        r == (slot_view(*a) == slot_view(*b)),
{
    match (a, b) {
        (KeyPosition::Beginning, KeyPosition::Beginning) => true,
        (KeyPosition::Body(x), KeyPosition::Body(y)) => x.same(y),
        _ => false,
    }
}

/// Whether two contexts stand for the same slots.
fn same_key<T: Token>(a: &[KeyPosition<T>], b: &[KeyPosition<T>]) -> (r: bool)
    ensures
        r == (key_view(a@) == key_view(b@)),
{
    if a.len() != b.len() {
        proof {
            assert(key_view(a@).len() != key_view(b@).len());
        }
        return false;
    }
    let mut i: usize = 0;
    while i < a.len()
        invariant
            a.len() == b.len(),
            0 <= i <= a.len(),
            forall|j: int| 0 <= j < i ==> slot_view(#[trigger] a@[j]) == slot_view(b@[j]),
        decreases a.len() - i,
    {
        if !same_position(&a[i], &b[i]) {
            proof {
                assert(key_view(a@)[i as int] != key_view(b@)[i as int]);
            }
            return false;
        }
        i = i + 1;
    }
    proof {
        assert(key_view(a@) =~= key_view(b@));
    }
    true
}

/// A context's slots copied from `key`, the first `skip` left out.
fn copy_key<T: Token>(key: &[KeyPosition<T>], skip: usize) -> (r: Vec<KeyPosition<T>>)
    requires
        skip <= key@.len(),
    ensures
        key_view(r@) == key_view(key@).subrange(skip as int, key@.len() as int),
{
    let mut r: Vec<KeyPosition<T>> = Vec::new();
    let mut i: usize = skip;
    while i < key.len()
        invariant
            skip <= i <= key@.len(),
            key_view(r@) == key_view(key@).subrange(skip as int, i as int),
        decreases key@.len() - i,
    {
        let p = duplicate_position(&key[i]);
        let ghost before = r@;
        r.push(p);
        proof {
            assert(r@ =~= before.push(p));
            assert(key_view(r@) =~= key_view(before).push(slot_view(p)));
            assert(key_view(r@) =~= key_view(key@).subrange(skip as int, i + 1));
        }
        i = i + 1;
    }
    r
}

/// The context that follows `key` once `t` has been seen.
fn slide<T: Token>(key: &[KeyPosition<T>], t: &T) -> (r: Vec<KeyPosition<T>>)
    requires
        key@.len() > 0,
    ensures
        key_view(r@) == key_view(key@).drop_first().push(Some(t@)),
{
    let mut r = copy_key(key, 1);
    r.push(KeyPosition::Body(t.duplicate()));
    proof {
        assert(key_view(r@) =~= key_view(key@).drop_first().push(Some(t@)));
    }
    r
}

impl<T: Token> MarkovChain<T> {
    /// The number of slots in each context.
    pub closed spec fn order_spec(&self) -> nat {
        self.order as nat
    }

    /// The contexts with their counters, in order of first sight.
    pub closed spec fn entries(&self) -> Seq<(Vec<KeyPosition<T>>, Followers<T>)> {
        self.graph@
    }

    /// The sequences trained so far, in order.
    pub closed spec fn history(&self) -> Seq<Seq<T::V>> {
        self.lines@
    }

    /// The number of observations recorded over all contexts.
    pub closed spec fn observation_count(&self) -> nat {
        self.observations as nat
    }

    /// The context of entry `i`.
    pub open spec fn key_of(&self, i: int) -> Seq<Option<T::V>> {
        key_view(self.entries()[i].0@)
    }

    /// Whether the graph holds the context `ctx`.
    pub open spec fn has_context(&self, ctx: Seq<Option<T::V>>) -> bool {
        holds_key(self.entries(), ctx)
    }

    /// The index of the entry for `ctx`, where there is one.
    pub open spec fn context_index(&self, ctx: Seq<Option<T::V>>) -> int {
        index_of_key(self.entries(), ctx)
    }

    /// The counter of `ctx`, where the graph holds `ctx`.
    pub open spec fn followers_of(&self, ctx: Seq<Option<T::V>>) -> Followers<T> {
        self.entries()[self.context_index(ctx)].1
    }

    /// How often `o` followed `ctx` (zero for a context the graph lacks).
    pub open spec fn count(&self, ctx: Seq<Option<T::V>>, o: Option<T::V>) -> nat {
        if self.has_context(ctx) {
            self.followers_of(ctx).count_of(o)
        } else {
            0
        }
    }

    /// How often `ctx` was seen (zero for a context the graph lacks).
    pub open spec fn visit_count(&self, ctx: Seq<Option<T::V>>) -> nat {
        if self.has_context(ctx) {
            self.followers_of(ctx).total_count()
        } else {
            0
        }
    }

    /// Whether a walk may stop at `ctx`: the graph lacks it, or sequences
    /// were seen to end there.
    pub open spec fn may_stop_at(&self, ctx: Seq<Option<T::V>>) -> bool {
        !self.has_context(ctx) || self.count(ctx, None) > 0
    }

    /// Whether `out` is what a walk from `start` of at most `max` steps can
    /// produce: each token was seen after the context it was drawn in, and a
    /// walk shorter than `max` ends where it may stop.
    pub open spec fn is_walk(&self, start: Seq<Option<T::V>>, out: Seq<T::V>, max: nat) -> bool {
        &&& out.len() <= max
        &&& forall|i: int|
            0 <= i < out.len() ==> self.count(
                #[trigger] walk_context(self.order_spec(), start, out, i),
                Some(out[i]),
            ) > 0
        &&& out.len() < max ==> self.may_stop_at(
            walk_context(self.order_spec(), start, out, out.len() as int),
        )
    }

    /// The graph's shape: a positive order, keys of that length held once
    /// each, and counters that are well formed, non-empty and within the
    /// number of observations.
    pub open spec fn graph_wf(&self) -> bool {
        &&& self.order_spec() > 0
        &&& forall|i: int|
            0 <= i < self.entries().len() ==> (#[trigger] self.entries()[i]).0@.len()
                == self.order_spec()
        &&& forall|i: int, j: int|
            0 <= i < j < self.entries().len() ==> #[trigger] self.key_of(i) != #[trigger] self.key_of(
                j,
            )
        &&& forall|i: int|
            0 <= i < self.entries().len() ==> {
                &&& (#[trigger] self.entries()[i]).1.wf()
                &&& self.entries()[i].1.total_count() > 0
                &&& self.entries()[i].1.total_count() <= self.observation_count()
            }
    }

    /// The graph is well formed and holds exactly what training on the
    /// history observed.
    pub open spec fn wf(&self) -> bool {
        &&& self.graph_wf()
        &&& forall|ctx: Seq<Option<T::V>>, o: Option<T::V>| #[trigger]
            self.count(ctx, o) == observed(self.order_spec(), self.history(), ctx, o)
        &&& forall|ctx: Seq<Option<T::V>>| #[trigger]
            self.visit_count(ctx) == visits(self.order_spec(), self.history(), ctx)
    }

    /// With keys held once each, the entry for a context is the one whose key
    /// it is.
    proof fn lemma_context_index(&self, i: int)
        requires
            self.graph_wf(),
            0 <= i < self.entries().len(),
        ensures
            self.has_context(self.key_of(i)),
            self.context_index(self.key_of(i)) == i,
    {
        let ctx = self.key_of(i);
        assert(self.has_context(ctx));
        let k = self.context_index(ctx);
        if k != i {
            if k < i {
                assert(self.key_of(k) != self.key_of(i));
            } else {
                assert(self.key_of(i) != self.key_of(k));
            }
        }
    }

    /// Every context's counter sums to the number of times training visited
    /// that context, over all the sequences trained so far; a context the
    /// graph lacks was never visited.
    pub proof fn lemma_context_total(&self, ctx: Seq<Option<T::V>>)
        requires
            self.wf(),
        ensures
            self.has_context(ctx) ==> sum_in(self.followers_of(ctx).entries()) == visits(
                self.order_spec(),
                self.history(),
                ctx,
            ) && visits(self.order_spec(), self.history(), ctx) > 0,
            !self.has_context(ctx) ==> visits(self.order_spec(), self.history(), ctx) == 0,
    {
        assert(self.visit_count(ctx) == visits(self.order_spec(), self.history(), ctx));
    }

    /// A chain that was never trained generates nothing, from any context.
    pub proof fn lemma_untrained_walk_is_empty(&self, start: Seq<Option<T::V>>, out: Seq<T::V>, max: nat)
        requires
            self.wf(),
            self.history().len() == 0,
            self.is_walk(start, out, max),
        ensures
            out.len() == 0,
    {
        if out.len() > 0 {
            let ctx = walk_context(self.order_spec(), start, out, 0);
            let o = Some(out[0]);
            assert(self.count(ctx, o) == observed(self.order_spec(), self.history(), ctx, o));
        }
    }

    /// An empty chain of the given order.
    pub fn new(order: usize) -> (r: Self)
        requires
            order > 0,
        ensures
            r.wf(),
            r.order_spec() == order,
            r.history() == Seq::<Seq<T::V>>::empty(),
            r.observation_count() == 0,
            r.entries().len() == 0,
    {
        MarkovChain { order, graph: Vec::new(), observations: 0, lines: Ghost(Seq::empty()) }
    }

    /// The number of slots in each context.
    pub fn order(&self) -> (r: usize)
        ensures
            r == self.order_spec(),
    {
        self.order
    }

    /// The number of observations recorded over all contexts.
    pub fn observations(&self) -> (r: u64)
        ensures
            r == self.observation_count(),
    {
        self.observations
    }

    /// The number of contexts in the graph.
    pub fn len(&self) -> (r: usize)
        ensures
            r == self.entries().len(),
    {
        self.graph.len()
    }

    /// The counter of the context `key`, if the graph holds it.
    pub fn followers(&self, key: &[KeyPosition<T>]) -> (r: Option<&Followers<T>>)
        requires
            self.graph_wf(),
        ensures
            r.is_some() == self.has_context(key_view(key@)),
            r.is_some() ==> *r.unwrap() == self.followers_of(key_view(key@)),
    {
        match self.find(key) {
            Some(i) => Some(&self.graph[i].1),
            None => None,
        }
    }

    /// The index of the entry for the context `key`, if the graph holds it.
    fn find(&self, key: &[KeyPosition<T>]) -> (r: Option<usize>)
        requires
            self.graph_wf(),
        ensures
            r.is_some() == self.has_context(key_view(key@)),
            r.is_some() ==> r.unwrap() == self.context_index(key_view(key@)) && r.unwrap()
                < self.entries().len(),
    {
        let mut i: usize = 0;
        while i < self.graph.len()
            invariant
                self.graph_wf(),
                0 <= i <= self.entries().len(),
                forall|j: int| 0 <= j < i ==> #[trigger] self.key_of(j) != key_view(key@),
            decreases self.entries().len() - i,
        {
            if same_key(self.graph[i].0.as_slice(), key) {
                proof {
                    self.lemma_context_index(i as int);
                }
                return Some(i);
            }
            i = i + 1;
        }
        proof {
            assert forall|j: int| 0 <= j < self.entries().len() implies key_view(self.entries()[j].0@)
                != key_view(key@) by {
                assert(self.key_of(j) != key_view(key@));
            }
        }
        None
    }

    /// Records one observation of `value` after the context `key`.
    fn update_entry(&mut self, key: Vec<KeyPosition<T>>, value: Option<T>)
        requires
            old(self).graph_wf(),
            key@.len() == old(self).order_spec(),
            old(self).observation_count() < u64::MAX,
        ensures
            final(self).graph_wf(),
            final(self).order_spec() == old(self).order_spec(),
            final(self).history() == old(self).history(),
            final(self).observation_count() == old(self).observation_count() + 1,
            forall|ctx: Seq<Option<T::V>>, o: Option<T::V>| #[trigger]
                final(self).count(ctx, o) == old(self).count(ctx, o) + if ctx == key_view(key@) && o
                    == outcome_view(value) {
                    1nat
                } else {
                    0nat
                },
            forall|ctx: Seq<Option<T::V>>| #[trigger]
                final(self).visit_count(ctx) == old(self).visit_count(ctx) + if ctx == key_view(
                    key@,
                ) {
                    1nat
                } else {
                    0nat
                },
    {
        let ghost kv = key_view(key@);
        let ghost v = outcome_view(value);
        let ghost prev = *self;
        match self.find(key.as_slice()) {
            Some(i) => {
                proof {
                    prev.lemma_context_index(i as int);
                }
                self.graph[i].1.add(value);
                self.observations = self.observations + 1;
                proof {
                    assert forall|j: int| 0 <= j < self.entries().len() implies #[trigger] self.key_of(j)
                        == prev.key_of(j) && (j != i ==> self.entries()[j] == prev.entries()[j]) by {}
                    assert(self.graph_wf());
                    assert forall|ctx: Seq<Option<T::V>>| #[trigger] self.has_context(ctx)
                        == prev.has_context(ctx) && (prev.has_context(ctx) ==> self.context_index(ctx)
                        == prev.context_index(ctx)) by {
                        if prev.has_context(ctx) {
                            let k = prev.context_index(ctx);
                            assert(self.key_of(k) == ctx);
                            self.lemma_context_index(k);
                        }
                        if self.has_context(ctx) {
                            let k = self.context_index(ctx);
                            assert(prev.key_of(k) == ctx);
                        }
                    }
                    assert forall|ctx: Seq<Option<T::V>>, o: Option<T::V>| #[trigger]
                        self.count(ctx, o) == prev.count(ctx, o) + if ctx == kv && o == v {
                            1nat
                        } else {
                            0nat
                        } by {
                        assert(self.has_context(ctx) == prev.has_context(ctx));
                    }
                    assert forall|ctx: Seq<Option<T::V>>| #[trigger]
                        self.visit_count(ctx) == prev.visit_count(ctx) + if ctx == kv {
                            1nat
                        } else {
                            0nat
                        } by {
                        assert(self.has_context(ctx) == prev.has_context(ctx));
                    }
                }
            },
            None => {
                let mut f: Followers<T> = Followers::new();
                f.add(value);
                let ghost n = self.graph@.len();
                self.graph.push((key, f));
                self.observations = self.observations + 1;
                proof {
                    assert forall|j: int| 0 <= j < n implies #[trigger] self.key_of(j) == prev.key_of(j)
                        && self.entries()[j] == prev.entries()[j] by {}
                    assert(self.key_of(n as int) == kv);
                    assert(self.graph_wf());
                    self.lemma_context_index(n as int);
                    assert forall|ctx: Seq<Option<T::V>>| ctx != kv implies #[trigger] self.has_context(ctx)
                        == prev.has_context(ctx) && (prev.has_context(ctx) ==> self.context_index(ctx)
                        == prev.context_index(ctx)) by {
                        if prev.has_context(ctx) {
                            let k = prev.context_index(ctx);
                            assert(self.key_of(k) == ctx);
                            self.lemma_context_index(k);
                        }
                        if self.has_context(ctx) {
                            let k = self.context_index(ctx);
                            assert(k != n);
                            assert(prev.key_of(k) == ctx);
                        }
                    }
                    assert forall|ctx: Seq<Option<T::V>>, o: Option<T::V>| #[trigger]
                        self.count(ctx, o) == prev.count(ctx, o) + if ctx == kv && o == v {
                            1nat
                        } else {
                            0nat
                        } by {
                        if ctx != kv {
                            assert(self.has_context(ctx) == prev.has_context(ctx));
                        }
                    }
                    assert forall|ctx: Seq<Option<T::V>>| #[trigger]
                        self.visit_count(ctx) == prev.visit_count(ctx) + if ctx == kv {
                            1nat
                        } else {
                            0nat
                        } by {
                        if ctx != kv {
                            assert(self.has_context(ctx) == prev.has_context(ctx));
                        }
                    }
                }
            },
        }
    }

    /// Trains the chain on one sequence. The window starts as `order` start
    /// slots; each token is recorded after the current window, which then
    /// slides on by that token; the end of the sequence is recorded after
    /// the last window.
    pub fn train(&mut self, tokens: &[T]) -> (r: &mut Self)
        requires
            old(self).wf(),
            old(self).observation_count() + tokens@.len() + 1 <= u64::MAX,
        ensures
            r.wf(),
            r.order_spec() == old(self).order_spec(),
            r.history() == old(self).history().push(tokens_view(tokens@)),
            r.observation_count() == old(self).observation_count() + tokens@.len() + 1,
            *final(self) == *final(r),
    {
        let ghost h = self.lines@;
        let ghost toks = tokens_view(tokens@);
        let ghost ord = self.order as nat;
        let ghost start = self.observations as nat;
        let mut key: Vec<KeyPosition<T>> = Vec::new();
        let mut j: usize = 0;
        while j < self.order
            invariant
                0 <= j <= self.order,
                key_view(key@) == Seq::new(j as nat, |k: int| None::<T::V>),
            decreases self.order - j,
        {
            let ghost before = key@;
            key.push(KeyPosition::Beginning);
            proof {
                assert(key@ =~= before.push(KeyPosition::Beginning));
                assert(key_view(key@) =~= key_view(before).push(None));
                assert(key_view(key@) =~= Seq::new((j + 1) as nat, |k: int| None::<T::V>));
            }
            j = j + 1;
        }
        proof {
            lemma_window_start(ord, toks);
        }
        let mut i: usize = 0;
        while i < tokens.len()
            invariant
                self.graph_wf(),
                self.order_spec() == ord,
                self.history() == h,
                self.observation_count() == start + i,
                start + tokens@.len() + 1 <= u64::MAX,
                toks == tokens_view(tokens@),
                0 <= i <= tokens@.len(),
                key_view(key@) == window(ord, toks, i as int),
                forall|ctx: Seq<Option<T::V>>, o: Option<T::V>| #[trigger]
                    self.count(ctx, o) == observed(ord, h, ctx, o) + line_count(
                        ord,
                        toks,
                        ctx,
                        o,
                        i as int,
                    ),
                forall|ctx: Seq<Option<T::V>>| #[trigger]
                    self.visit_count(ctx) == visits(ord, h, ctx) + line_visits(
                        ord,
                        toks,
                        ctx,
                        i as int,
                    ),
            decreases tokens@.len() - i,
        {
            let here = copy_key(key.as_slice(), 0);
            proof {
                assert(key_view(here@) =~= key_view(key@));
                assert(here@.len() == key_view(here@).len());
            }
            self.update_entry(here, Some(tokens[i].duplicate()));
            key = slide(key.as_slice(), &tokens[i]);
            proof {
                lemma_window_step(ord, toks, i as int);
            }
            i = i + 1;
        }
        proof {
            assert(key@.len() == key_view(key@).len());
        }
        let ghost before = *self;
        let ghost last = key_view(key@);
        self.update_entry(key, None);
        let ghost mid = *self;
        self.lines = Ghost(h.push(toks));
        proof {
            let hp = h.push(toks);
            assert(hp.drop_last() =~= h);
            assert forall|ctx: Seq<Option<T::V>>, o: Option<T::V>| #[trigger]
                self.count(ctx, o) == observed(ord, hp, ctx, o) by {
                assert(mid.count(ctx, o) == before.count(ctx, o) + if ctx == last && o == None::<
                    T::V,
                > {
                    1nat
                } else {
                    0nat
                });
            }
            assert forall|ctx: Seq<Option<T::V>>| #[trigger]
                self.visit_count(ctx) == visits(ord, hp, ctx) by {
                assert(mid.visit_count(ctx) == before.visit_count(ctx) + if ctx == last {
                    1nat
                } else {
                    0nat
                });
            }
            assert forall|i: int| 0 <= i < self.entries().len() implies #[trigger] self.key_of(i)
                == mid.key_of(i) by {}
        }
        self
    }

    /// A walk of at most `max` steps from the context `token`: at each step
    /// the counter of the current context draws the next outcome; the walk
    /// stops at an end, at a context the graph lacks, or after `max` tokens.
    pub fn generate_from_token(&self, token: &[KeyPosition<T>], max: usize) -> (r: Result<
        Vec<T>,
        ContextLengthError,
    >)
        requires
            self.wf(),
        ensures
            token@.len() != self.order_spec() ==> r == Err::<Vec<T>, ContextLengthError>(
                (ContextLengthError { expected: self.order_spec() as usize, found: token@.len() as usize }),
            ),
            token@.len() == self.order_spec() ==> r.is_ok() && self.is_walk(
                key_view(token@),
                tokens_view(r.unwrap()@),
                max as nat,
            ),
    {
        if token.len() != self.order {
            return Err(ContextLengthError { expected: self.order, found: token.len() });
        }
        let ghost start = key_view(token@);
        let ghost ord = self.order_spec();
        let mut key = copy_key(token, 0);
        let mut out: Vec<T> = Vec::new();
        let mut stop = false;
        proof {
            assert(key_view(key@) =~= start);
            assert(tokens_view(out@) =~= Seq::<T::V>::empty());
            lemma_walk_start(ord, start);
        }
        while !stop && out.len() < max
            invariant
                self.wf(),
                ord == self.order_spec(),
                ord > 0,
                start.len() == ord,
                out@.len() <= max,
                key_view(key@) == walk_context(ord, start, tokens_view(out@), out@.len() as int),
                forall|i: int|
                    0 <= i < out@.len() ==> self.count(
                        #[trigger] walk_context(ord, start, tokens_view(out@), i),
                        Some(tokens_view(out@)[i]),
                    ) > 0,
                stop ==> self.may_stop_at(
                    walk_context(ord, start, tokens_view(out@), out@.len() as int),
                ),
            decreases max - out@.len() + if stop {
                0int
            } else {
                1int
            },
        {
            match self.followers(key.as_slice()) {
                None => {
                    stop = true;
                },
                Some(f) => {
                    proof {
                        assert(key@.len() == key_view(key@).len());
                    }
                    match f.random_follower() {
                        None => {
                            stop = true;
                        },
                        Some(tok) => {
                            let t = tok.duplicate();
                            let ghost before = tokens_view(out@);
                            key = slide(key.as_slice(), &t);
                            out.push(t);
                            proof {
                                assert(tokens_view(out@) =~= before.push(t@));
                                lemma_walk_step(ord, start, before, t@);
                            }
                        },
                    }
                },
            }
        }
        Ok(out)
    }

    /// A walk of at most `max` steps from the context of start slots alone,
    /// as at the beginning of a sequence.
    pub fn generate(&self, max: usize) -> (r: Vec<T>)
        requires
            self.wf(),
        ensures
            self.is_walk(Seq::new(self.order_spec(), |i: int| None::<T::V>), tokens_view(r@), max as nat),
    {
        let mut start: Vec<KeyPosition<T>> = Vec::new();
        let mut j: usize = 0;
        while j < self.order
            invariant
                0 <= j <= self.order,
                key_view(start@) == Seq::new(j as nat, |k: int| None::<T::V>),
            decreases self.order - j,
        {
            let ghost before = start@;
            start.push(KeyPosition::Beginning);
            proof {
                assert(start@ =~= before.push(KeyPosition::Beginning));
                assert(key_view(start@) =~= key_view(before).push(None));
                assert(key_view(start@) =~= Seq::new((j + 1) as nat, |k: int| None::<T::V>));
            }
            j = j + 1;
        }
        proof {
            assert(start@.len() == key_view(start@).len());
        }
        match self.generate_from_token(start.as_slice(), max) {
            Ok(out) => out,
            Err(_) => Vec::new(),
        }
    }

    /// A walk of at most `max` steps from a context of the graph chosen
    /// uniformly at random, returned with that context; `None` when the graph
    /// holds no context.
    pub fn generate_from_rnd_token(&self, max: usize) -> (r: Option<(&[KeyPosition<T>], Vec<T>)>)
        requires
            self.wf(),
        ensures
            r.is_none() == (self.entries().len() == 0),
            r.is_some() ==> {
                let (key, out) = r.unwrap();
                &&& self.has_context(key_view(key@))
                &&& self.is_walk(key_view(key@), tokens_view(out@), max as nat)
            },
    {
        if self.graph.len() == 0 {
            return None;
        }
        let index = random_below(self.graph.len() as u64) as usize;
        let key = self.graph[index].0.as_slice();
        proof {
            assert(key_view(key@) == self.key_of(index as int));
        }
        match self.generate_from_token(key, max) {
            Ok(out) => Some((key, out)),
            Err(_) => None,
        }
    }
}

} // verus!
