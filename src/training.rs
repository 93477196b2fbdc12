use vstd::prelude::*;

verus! {

/// The views of a sequence of tokens.
pub open spec fn tokens_view<T: View>(s: Seq<T>) -> Seq<T::V> {
    s.map_values(|t: T| t@)
}

/// A sequence preceded by `order` start slots (`None`), each token in a
/// slot of its own (`Some`).
pub open spec fn padded<V>(order: nat, toks: Seq<V>) -> Seq<Option<V>> {
    Seq::new(order, |i: int| None::<V>) + toks.map_values(|t: V| Some(t))
}

/// The context that precedes position `i` of `toks` (the `order` slots
/// before it, start slots included).
pub open spec fn window<V>(order: nat, toks: Seq<V>, i: int) -> Seq<Option<V>> {
    padded(order, toks).subrange(i, i + order)
}

/// What follows position `i` of `toks`: the token there, or `None` (the end
/// of the sequence) at `i == toks.len()`.
pub open spec fn follower_of<V>(toks: Seq<V>, i: int) -> Option<V> {
    if i < toks.len() {
        Some(toks[i])
    } else {
        None
    }
}

/// Among the first `n` positions of `toks`, how many have context `ctx` and
/// are followed by `o`.
pub open spec fn line_count<V>(order: nat, toks: Seq<V>, ctx: Seq<Option<V>>, o: Option<V>, n: int) -> nat
    decreases n,
{
    if n <= 0 {
        0
    } else {
        line_count(order, toks, ctx, o, n - 1) + if window(order, toks, n - 1) == ctx
            && follower_of(toks, n - 1) == o {
            1nat
        } else {
            0nat
        }
    }
}

/// Among the first `n` positions of `toks`, how many have context `ctx`.
pub open spec fn line_visits<V>(order: nat, toks: Seq<V>, ctx: Seq<Option<V>>, n: int) -> nat
    decreases n,
{
    if n <= 0 {
        0
    } else {
        line_visits(order, toks, ctx, n - 1) + if window(order, toks, n - 1) == ctx {
            1nat
        } else {
            0nat
        }
    }
}

/// How often training on each of `lines` in turn observes `o` after `ctx`:
/// each line counts its `len() + 1` positions, the last followed by the end.
pub open spec fn observed<V>(order: nat, lines: Seq<Seq<V>>, ctx: Seq<Option<V>>, o: Option<V>) -> nat
    decreases lines.len(),
{
    if lines.len() == 0 {
        0
    } else {
        observed(order, lines.drop_last(), ctx, o) + line_count(
            order,
            lines.last(),
            ctx,
            o,
            lines.last().len() + 1int,
        )
    }
}

/// How often training on each of `lines` in turn visits the context `ctx`.
pub open spec fn visits<V>(order: nat, lines: Seq<Seq<V>>, ctx: Seq<Option<V>>) -> nat
    decreases lines.len(),
{
    if lines.len() == 0 {
        0
    } else {
        visits(order, lines.drop_last(), ctx) + line_visits(
            order,
            lines.last(),
            ctx,
            lines.last().len() + 1int,
        )
    }
}

/// The context after `i` steps of a walk that started at `start` and has
/// produced `out`.
pub open spec fn walk_context<V>(order: nat, start: Seq<Option<V>>, out: Seq<V>, i: int) -> Seq<
    Option<V>,
> {
    (start + out.map_values(|t: V| Some(t))).subrange(i, i + order)
}

/// Sliding the window one position on drops its oldest slot and appends the
/// token at that position.
pub proof fn lemma_window_step<V>(order: nat, toks: Seq<V>, i: int)
    requires
        order > 0,
        0 <= i < toks.len(),
    ensures
        window(order, toks, i + 1) == window(order, toks, i).drop_first().push(Some(toks[i])),
{
    let p = padded(order, toks);
    assert(p[i + order] == Some(toks[i]));
    assert(window(order, toks, i + 1) =~= window(order, toks, i).drop_first().push(Some(toks[i])));
}

/// The first context of every sequence is made of start slots alone.
pub proof fn lemma_window_start<V>(order: nat, toks: Seq<V>)
    ensures
        window(order, toks, 0) == Seq::new(order, |i: int| None::<V>),
{
    assert(window(order, toks, 0) =~= Seq::new(order, |i: int| None::<V>));
}

/// One step of a walk drops the oldest slot of the context and appends the
/// token produced.
pub proof fn lemma_walk_step<V>(order: nat, start: Seq<Option<V>>, out: Seq<V>, t: V)
    requires
        order > 0,
        start.len() == order,
    ensures
        walk_context(order, start, out.push(t), out.len() + 1int) == walk_context(
            order,
            start,
            out,
            out.len() as int,
        ).drop_first().push(Some(t)),
        forall|i: int|
            0 <= i <= out.len() ==> #[trigger] walk_context(order, start, out.push(t), i)
                == walk_context(order, start, out, i),
{
    let a = start + out.map_values(|x: V| Some(x));
    let b = start + out.push(t).map_values(|x: V| Some(x));
    assert(b =~= a.push(Some(t)));
    assert(walk_context(order, start, out.push(t), out.len() + 1int) =~= walk_context(
        order,
        start,
        out,
        out.len() as int,
    ).drop_first().push(Some(t)));
    assert forall|i: int| 0 <= i <= out.len() implies #[trigger] walk_context(
        order,
        start,
        out.push(t),
        i,
    ) == walk_context(order, start, out, i) by {
        assert(walk_context(order, start, out.push(t), i) =~= walk_context(order, start, out, i));
    }
}

/// A walk starts at its start context.
pub proof fn lemma_walk_start<V>(order: nat, start: Seq<Option<V>>)
    requires
        start.len() == order,
    ensures
        walk_context(order, start, Seq::<V>::empty(), 0) == start,
{
    assert(walk_context(order, start, Seq::<V>::empty(), 0) =~= start);
}

} // verus!
