use vstd::prelude::*;

use crate::random::random_below;
use crate::token::Token;

verus! {

/// The value an outcome stands for: a token's view, or `None` for the end
/// of a sequence.
pub open spec fn outcome_view<T: View>(o: Option<T>) -> Option<T::V> {
    match o {
        Some(t) => Some(t@),
        None => None,
    }
}

/// How often the entries record the outcome `o`.
pub open spec fn count_in<T: View>(s: Seq<(Option<T>, u64)>, o: Option<T::V>) -> nat
    decreases s.len(),
{
    if s.len() == 0 {
        0
    } else {
        count_in(s.drop_last(), o) + if outcome_view(s.last().0) == o {
            s.last().1 as nat
        } else {
            0
        }
    }
}

/// The sum of all counts in the entries.
pub open spec fn sum_in<T: View>(s: Seq<(Option<T>, u64)>) -> nat
    decreases s.len(),
{
    if s.len() == 0 {
        0
    } else {
        sum_in(s.drop_last()) + s.last().1 as nat
    }
}

/// The sum of the counts of the first `i` entries.
pub open spec fn prefix_sum<T: View>(s: Seq<(Option<T>, u64)>, i: int) -> nat {
    sum_in(s.take(i))
}

/// The entry that a draw `r` selects: the one whose cumulative range
/// `[prefix_sum(i), prefix_sum(i + 1))` holds `r`.
pub open spec fn pick_index<T: View>(s: Seq<(Option<T>, u64)>, r: int) -> int
    decreases s.len(),
{
    if s.len() <= 1 {
        0
    } else if r >= sum_in(s.drop_last()) {
        s.len() - 1
    } else {
        pick_index(s.drop_last(), r)
    }
}

proof fn lemma_take_drop_last<A>(s: Seq<A>, i: int)
    requires
        0 <= i < s.len(),
    ensures
        s.take(i + 1).drop_last() =~= s.take(i),
        s.drop_last().take(i) =~= s.take(i),
{
}

proof fn lemma_prefix_step<T: View>(s: Seq<(Option<T>, u64)>, i: int)
    requires
        0 <= i < s.len(),
    ensures
        prefix_sum(s, i + 1) == prefix_sum(s, i) + s[i].1 as nat,
{
    lemma_take_drop_last(s, i);
}

proof fn lemma_prefix_full<T: View>(s: Seq<(Option<T>, u64)>)
    ensures
        prefix_sum(s, s.len() as int) == sum_in(s),
{
    assert(s.take(s.len() as int) =~= s);
}

proof fn lemma_prefix_monotone<T: View>(s: Seq<(Option<T>, u64)>, i: int, j: int)
    requires
        0 <= i <= j <= s.len(),
    ensures
        prefix_sum(s, i) <= prefix_sum(s, j),
    decreases j - i,
{
    if i < j {
        lemma_prefix_monotone(s, i, j - 1);
        lemma_prefix_step(s, j - 1);
    }
}

/// The draw `r` selects entry `i` exactly when `r` lies in that entry's
/// cumulative range.
proof fn lemma_pick_index<T: View>(s: Seq<(Option<T>, u64)>, r: int, i: int)
    requires
        0 <= i < s.len(),
        prefix_sum(s, i) <= r < prefix_sum(s, i + 1),
    ensures
        pick_index(s, r) == i,
    decreases s.len(),
{
    if s.len() > 1 {
        let d = s.drop_last();
        lemma_prefix_full(d);
        assert(s.take(s.len() - 1) =~= d);
        if i == s.len() - 1 {
        } else {
            lemma_prefix_monotone(s, i + 1, s.len() - 1);
            assert(d.take(i) =~= s.take(i));
            assert(d.take(i + 1) =~= s.take(i + 1));
            lemma_pick_index(d, r, i);
        }
    }
}

proof fn lemma_count_update<T: View>(s: Seq<(Option<T>, u64)>, i: int, e: (Option<T>, u64), o: Option<T::V>)
    requires
        0 <= i < s.len(),
    ensures
        count_in(s.update(i, e), o) + (if outcome_view(s[i].0) == o { s[i].1 as nat } else { 0 })
            == count_in(s, o) + (if outcome_view(e.0) == o { e.1 as nat } else { 0 }),
        sum_in(s.update(i, e)) + s[i].1 as nat == sum_in(s) + e.1 as nat,
    decreases s.len(),
{
    let u = s.update(i, e);
    if i < s.len() - 1 {
        assert(u.drop_last() =~= s.drop_last().update(i, e));
        lemma_count_update(s.drop_last(), i, e, o);
    } else {
        assert(u.drop_last() =~= s.drop_last());
    }
}

proof fn lemma_count_positive<T: View>(s: Seq<(Option<T>, u64)>, i: int)
    requires
        0 <= i < s.len(),
    ensures
        count_in(s, outcome_view(s[i].0)) >= s[i].1,
    decreases s.len(),
{
    if i < s.len() - 1 {
        lemma_count_positive(s.drop_last(), i);
    }
}

proof fn lemma_count_absent<T: View>(s: Seq<(Option<T>, u64)>, o: Option<T::V>)
    requires
        forall|j: int| 0 <= j < s.len() ==> outcome_view(#[trigger] s[j].0) != o,
    ensures
        count_in(s, o) == 0,
    decreases s.len(),
{
    if s.len() > 0 {
        lemma_count_absent(s.drop_last(), o);
    }
}

/// How often each outcome was seen after one context: a count per outcome
/// (a token, or `None` for the end of a sequence) and their running sum.
pub struct Followers<T: Token> {
    occurs: Vec<(Option<T>, u64)>,
    freq_sum: u64,
}

impl<T: Token> Followers<T> {
    /// The recorded outcomes with their counts, in order of first sight.
    pub closed spec fn entries(&self) -> Seq<(Option<T>, u64)> {
        self.occurs@
    }

    /// The stored number of observations.
    pub closed spec fn total_count(&self) -> nat {
        self.freq_sum as nat
    }

    /// How often `o` was observed.
    pub open spec fn count_of(&self, o: Option<T::V>) -> nat {
        count_in(self.entries(), o)
    }

    /// Outcomes are recorded once each, with a positive count, and the stored
    /// total is the sum of the counts.
    pub open spec fn wf(&self) -> bool {
        &&& self.total_count() == sum_in(self.entries())
        &&& forall|i: int| 0 <= i < self.entries().len() ==> #[trigger] self.entries()[i].1 > 0
        &&& forall|i: int, j: int|
            0 <= i < j < self.entries().len() ==> outcome_view(#[trigger] self.entries()[i].0)
                != outcome_view(#[trigger] self.entries()[j].0)
    }

    /// An empty counter.
    pub fn new() -> (r: Self)
        ensures
            r.wf(),
            r.total_count() == 0,
            r.entries().len() == 0,
            forall|o: Option<T::V>| r.count_of(o) == 0,
    {
        Followers { occurs: Vec::new(), freq_sum: 0 }
    }

    /// Records one observation of `follower`.
    pub fn add(&mut self, follower: Option<T>) -> (r: &Self)
        requires
            old(self).wf(),
            old(self).total_count() < u64::MAX,
        ensures
            final(self).wf(),
            final(self).total_count() == old(self).total_count() + 1,
            final(self).count_of(outcome_view(follower)) == old(self).count_of(outcome_view(follower)) + 1,
            forall|o: Option<T::V>|
                o != outcome_view(follower) ==> #[trigger] final(self).count_of(o) == old(
                    self,
                ).count_of(o),
            old(self).count_of(outcome_view(follower)) == 0 ==> final(self).entries()
                == old(self).entries().push((follower, 1u64)),
            old(self).count_of(outcome_view(follower)) > 0 ==> exists|k: int|
                0 <= k < old(self).entries().len() && outcome_view(old(self).entries()[k].0)
                    == outcome_view(follower) && #[trigger] final(self).entries()
                    == old(self).entries().update(
                    k,
                    (old(self).entries()[k].0, (old(self).entries()[k].1 + 1) as u64),
                ),
            *r == *final(self),
    {
        let ghost s = self.occurs@;
        let ghost v = outcome_view(follower);
        let mut i: usize = 0;
        while i < self.occurs.len()
            invariant
                self.occurs@ == s,
                old(self).occurs@ == s,
                self.freq_sum == old(self).freq_sum,
                self.wf(),
                self.freq_sum < u64::MAX,
                v == outcome_view(follower),
                0 <= i <= s.len(),
                forall|j: int| 0 <= j < i ==> outcome_view(#[trigger] s[j].0) != v,
            decreases s.len() - i,
        {
            if same_outcome(&self.occurs[i].0, &follower) {
                let c = self.occurs[i].1;
                proof {
                    lemma_count_update(s, i as int, (s[i as int].0, 0u64), v);
                }
                self.occurs[i].1 = c + 1;
                proof {
                    let e = (s[i as int].0, (c + 1) as u64);
                    assert(self.occurs@ =~= s.update(i as int, e));
                    assert forall|o: Option<T::V>| #[trigger] count_in(self.occurs@, o)
                        == count_in(s, o) + (if o == v { 1nat } else { 0 }) by {
                        lemma_count_update(s, i as int, e, o);
                    }
                    lemma_count_update(s, i as int, e, v);
                }
                self.freq_sum = self.freq_sum + 1;
                proof {
                    lemma_count_positive(s, i as int);
                    assert(self.entries() == s.update(i as int, (s[i as int].0, (s[i as int].1 + 1) as u64)));
                }
                return self;
            }
            assert(outcome_view(s[i as int].0) != v);
            i = i + 1;
        }
        proof {
            lemma_count_absent(s, v);
        }
        self.occurs.push((follower, 1));
        proof {
            assert(self.occurs@ == s.push((follower, 1u64)));
        }
        self.freq_sum = self.freq_sum + 1;
        proof {
            assert(self.occurs@.drop_last() =~= s);
        }
        self
    }

    /// The recorded outcomes with their counts.
    pub fn occurs(&self) -> (r: &Vec<(Option<T>, u64)>)
        ensures
            r@ == self.entries(),
    {
        &self.occurs
    }

    /// The number of observations recorded.
    pub fn total(&self) -> (r: u64)
        ensures
            r == self.total_count(),
    {
        self.freq_sum
    }

    /// The outcome that the draw `r` selects: walking the entries in order,
    /// the first whose cumulative count exceeds `r`. Each outcome is selected
    /// by as many draws in `[0, total)` as its count.
    pub fn follower_at(&self, r: u64) -> (o: &Option<T>)
        requires
            self.wf(),
            r < self.total_count(),
        ensures
            *o == self.entries()[pick_index(self.entries(), r as int)].0,
    {
        let ghost s = self.occurs@;
        proof {
            lemma_prefix_full(s);
        }
        let mut i: usize = 0;
        let mut acc: u64 = 0;
        while i < self.occurs.len()
            invariant
                self.occurs@ == s,
                self.wf(),
                r < self.total_count(),
                0 <= i <= s.len(),
                acc == prefix_sum(s, i as int),
                acc <= r,
                prefix_sum(s, s.len() as int) == self.total_count(),
            decreases s.len() - i,
        {
            proof {
                lemma_prefix_step(s, i as int);
                lemma_prefix_monotone(s, i as int + 1, s.len() as int);
            }
            let c = self.occurs[i].1;
            if r < acc + c {
                proof {
                    lemma_pick_index(s, r as int, i as int);
                }
                return &self.occurs[i].0;
            }
            acc = acc + c;
            i = i + 1;
        }
        proof {
            assert(false);
        }
        &self.occurs[0].0
    }

    /// A random outcome, each chosen with probability proportional to its
    /// count.
    pub fn random_follower(&self) -> (o: &Option<T>)
        requires
            self.wf(),
            self.total_count() > 0,
        ensures
            self.count_of(outcome_view(*o)) > 0,
    {
        let r = random_below(self.freq_sum);
        let o = self.follower_at(r);
        proof {
            let s = self.entries();
            let i = pick_index(s, r as int);
            lemma_selection(s, r as int);
            lemma_count_positive(s, i);
        }
        o
    }
}

/// Every draw below the total selects an entry of the sequence.
proof fn lemma_selection<T: View>(s: Seq<(Option<T>, u64)>, r: int)
    requires
        0 <= r < sum_in(s),
    ensures
        0 <= pick_index(s, r) < s.len(),
        prefix_sum(s, pick_index(s, r)) <= r < prefix_sum(s, pick_index(s, r) + 1),
    decreases s.len(),
{
    let d = s.drop_last();
    lemma_take_drop_last(s, s.len() - 1);
    lemma_prefix_full(s);
    lemma_prefix_full(d);
    assert(s.take(s.len() - 1) =~= d);
    if s.len() > 1 && r < sum_in(d) {
        lemma_selection(d, r);
        let i = pick_index(d, r);
        assert(d.take(i) =~= s.take(i));
        assert(d.take(i + 1) =~= s.take(i + 1));
    } else if s.len() == 1 {
        assert(s.take(0) =~= Seq::<(Option<T>, u64)>::empty());
    }
}

/// With each outcome recorded once, an outcome's count is the count of its
/// entry.
proof fn lemma_count_exact<T: View>(s: Seq<(Option<T>, u64)>, i: int)
    requires
        0 <= i < s.len(),
        forall|a: int, b: int|
            0 <= a < b < s.len() ==> outcome_view(#[trigger] s[a].0) != outcome_view(#[trigger] s[b].0),
    ensures
        count_in(s, outcome_view(s[i].0)) == s[i].1,
    decreases s.len(),
{
    let d = s.drop_last();
    if i == s.len() - 1 {
        assert forall|j: int| 0 <= j < d.len() implies outcome_view(#[trigger] d[j].0) != outcome_view(
            s[i].0,
        ) by {
            assert(d[j] == s[j]);
        }
        lemma_count_absent(d, outcome_view(s[i].0));
    } else {
        assert(outcome_view(s[i].0) != outcome_view(s[s.len() - 1].0));
        lemma_count_exact(d, i);
    }
}

/// Sampling is exact: among the draws `r` in `[0, total)`, the outcome of
/// entry `i` is selected by those in `[prefix_sum(i), prefix_sum(i + 1))`
/// and by no other, and there are as many of them as the outcome's count.
/// A uniform draw thus selects each outcome with probability count / total.
pub proof fn lemma_draw_selects_by_count<T: Token>(f: Followers<T>, i: int, r: int)
    requires
        f.wf(),
        0 <= i < f.entries().len(),
        0 <= r < f.total_count(),
    ensures
        (pick_index(f.entries(), r) == i) <==> (prefix_sum(f.entries(), i) <= r < prefix_sum(
            f.entries(),
            i + 1,
        )),
        prefix_sum(f.entries(), i + 1) - prefix_sum(f.entries(), i) == f.count_of(
            outcome_view(f.entries()[i].0),
        ),
        prefix_sum(f.entries(), f.entries().len() as int) == f.total_count(),
{
    let s = f.entries();
    lemma_prefix_step(s, i);
    lemma_prefix_full(s);
    lemma_count_exact(s, i);
    if prefix_sum(s, i) <= r < prefix_sum(s, i + 1) {
        lemma_pick_index(s, r, i);
    }
    lemma_selection(s, r);
    let j = pick_index(s, r);
    if j < i {
        lemma_prefix_monotone(s, j + 1, i);
    } else if j > i {
        lemma_prefix_monotone(s, i + 1, j);
    }
}

impl<T: Token> Default for Followers<T> {
    /// An empty counter.
    fn default() -> (r: Self)
        ensures
            r.wf(),
            r.total_count() == 0,
            r.entries().len() == 0,
    {
        Followers::new()
    }
}

/// Whether two outcomes stand for the same value.
fn same_outcome<T: Token>(a: &Option<T>, b: &Option<T>) -> (r: bool)
    ensures
        r == (outcome_view(*a) == outcome_view(*b)),
{
    match (a, b) {
        (Some(x), Some(y)) => x.same(y),
        (None, None) => true,
        _ => false,
    }
}

} // verus!
