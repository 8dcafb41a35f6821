//! Building a store again from its pairs: inserting every pair of a store, in their
//! order, into an empty store gives the store back, but for the nested stores that hold
//! no value.

use vstd::prelude::*;
use crate::component::Component;
use crate::error::DBError;
use crate::model::{
    entry, flatten, holds, inserted, leaves, lemma_rank_is, put, rank, sorted, under, wf,
    NodeView, Pairs, StoreView,
};

verus! {

/// The store without the nested stores that hold no value, at any depth.
pub open spec fn pruned<C, T>(s: StoreView<C, T>) -> StoreView<C, T>
    decreases s,
{
    if s.len() == 0 {
        Seq::empty()
    } else {
        let head = pruned(s.drop_last());
        match s.last().1 {
            NodeView::Value(_) => head.push(s.last()),
            NodeView::Subtree(sub) => {
                let p = pruned(sub);
                if p.len() == 0 {
                    head
                } else {
                    head.push((s.last().0, NodeView::Subtree(p)))
                }
            },
        }
    }
}

/// The store after the pairs `f` are inserted in their order, or the first error.
pub open spec fn inserted_all<K: Component, T>(s: StoreView<K::V, T>, f: Pairs<K::V, T>) -> Result<StoreView<K::V, T>, DBError>
    decreases f.len(),
{
    if f.len() == 0 {
        Ok(s)
    } else {
        match inserted_all::<K, T>(s, f.drop_last()) {
            Ok(t) => inserted::<K, T>(t, f.last().0, f.last().1),
            Err(e) => Err(e),
        }
    }
}

/// Every component of the store comes before `c`.
pub open spec fn all_before<K: Component, T>(s: StoreView<K::V, T>, c: K::V) -> bool {
    forall|i: int| 0 <= i < s.len() ==> K::before(#[trigger] s[i].0, c)
}

/// Every key of the pairs has a component.
pub open spec fn keys_nonempty<C, T>(f: Pairs<C, T>) -> bool {
    forall|i: int| 0 <= i < f.len() ==> (#[trigger] f[i]).0.len() > 0
}

/// Every key among the pairs of a store has a component.
pub proof fn lemma_flatten_keys<C, T>(s: StoreView<C, T>)
    ensures
        keys_nonempty(flatten(s)),
    decreases s,
{
    if s.len() > 0 {
        lemma_flatten_keys(s.drop_last());
        let head = flatten(s.drop_last());
        let tail = leaves(s.last());
        assert(flatten(s) == head + tail);
        match s.last().1 {
            NodeView::Value(_) => {},
            NodeView::Subtree(sub) => {
                lemma_flatten_keys(sub);
            },
        }
        assert forall|i: int| 0 <= i < tail.len() implies (#[trigger] tail[i]).0.len() > 0 by {}
        assert forall|i: int| 0 <= i < flatten(s).len() implies (#[trigger] flatten(s)[i]).0.len() > 0 by {
            if i < head.len() {
                assert(flatten(s)[i] == head[i]);
            } else {
                assert(flatten(s)[i] == tail[i - head.len()]);
            }
        }
    }
}

/// A pruned store has the pairs of the store, and is empty only if there are none.
pub proof fn lemma_pruned_flatten<C, T>(s: StoreView<C, T>)
    ensures
        flatten(pruned(s)) == flatten(s),
        pruned(s).len() == 0 <==> flatten(s).len() == 0,
    decreases s,
{
    if s.len() > 0 {
        let head = pruned(s.drop_last());
        lemma_pruned_flatten(s.drop_last());
        assert(flatten(s) == flatten(s.drop_last()) + leaves(s.last()));
        match s.last().1 {
            NodeView::Value(v) => {
                assert(head.push(s.last()).drop_last() =~= head);
                assert(leaves(s.last()).len() == 1);
            },
            NodeView::Subtree(sub) => {
                lemma_pruned_flatten(sub);
                let p = pruned(sub);
                assert(leaves(s.last()) == under(seq![s.last().0], flatten(sub)));
                if p.len() == 0 {
                    assert(leaves(s.last()) =~= Seq::empty());
                    assert(flatten(s) =~= flatten(s.drop_last()));
                } else {
                    let e = (s.last().0, NodeView::Subtree(p));
                    assert(head.push(e).drop_last() =~= head);
                    assert(head.push(e).last() == e);
                    assert(leaves(e) == under(seq![s.last().0], flatten(p)));
                    assert(leaves(e).len() > 0);
                    assert(flatten(pruned(s)) == flatten(head) + leaves(e));
                }
            },
        }
    }
}

/// Pruning keeps the components in their order.
pub proof fn lemma_pruned_before<K: Component, T>(s: StoreView<K::V, T>, c: K::V)
    requires
        all_before::<K, T>(s, c),
    ensures
        all_before::<K, T>(pruned(s), c),
    decreases s,
{
    if s.len() > 0 {
        assert forall|i: int| 0 <= i < s.drop_last().len() implies K::before(#[trigger] s.drop_last()[i].0, c) by {
            assert(s.drop_last()[i] == s[i]);
        }
        lemma_pruned_before::<K, T>(s.drop_last(), c);
        assert(K::before(s[s.len() - 1].0, c));
    }
}

/// A pruned store is well formed where the store is.
pub proof fn lemma_pruned_wf<K: Component, T>(s: StoreView<K::V, T>)
    requires
        wf::<K, T>(s),
    ensures
        wf::<K, T>(pruned(s)),
    decreases s,
{
    if s.len() > 0 {
        let rest = s.drop_last();
        let head = pruned(rest);
        let c = s.last().0;
        assert forall|i: int, j: int| 0 <= i < j < rest.len() implies K::before(#[trigger] rest[i].0, #[trigger] rest[j].0) by {
            assert(rest[i] == s[i] && rest[j] == s[j]);
        }
        assert forall|i: int| 0 <= i < rest.len() implies (#[trigger] rest[i].1 matches NodeView::Subtree(sub) ==> wf::<K, T>(
            sub,
        )) by {
            assert(rest[i] == s[i]);
        }
        lemma_pruned_wf::<K, T>(rest);
        assert forall|i: int| 0 <= i < rest.len() implies K::before(#[trigger] rest[i].0, c) by {
            assert(rest[i] == s[i]);
        }
        lemma_pruned_before::<K, T>(rest, c);
        match s.last().1 {
            NodeView::Value(_) => {},
            NodeView::Subtree(sub) => {
                assert(s[s.len() - 1].1 == NodeView::<K::V, T>::Subtree(sub));
                lemma_pruned_wf::<K, T>(sub);
            },
        }
    }
}

/// Where every component of a sorted store comes before `c`, the place of `c` is its
/// end, and the store has no entry for `c`.
pub proof fn lemma_rank_at_end<K: Component, T>(s: StoreView<K::V, T>, c: K::V)
    requires
        sorted::<K, T>(s),
        all_before::<K, T>(s, c),
    ensures
        rank::<K, T>(s, c) == s.len(),
        !holds::<K, T>(s, c),
{
    lemma_rank_is::<K, T>(s, c, s.len() as int);
}

/// Where every component of a sorted store comes before `c`, and an entry for `c` is
/// pushed at its end, the place of `c` is that entry.
pub proof fn lemma_rank_of_last<K: Component, T>(s: StoreView<K::V, T>, c: K::V, n: NodeView<K::V, T>)
    requires
        sorted::<K, T>(s),
        all_before::<K, T>(s, c),
    ensures
        sorted::<K, T>(s.push((c, n))),
        rank::<K, T>(s.push((c, n)), c) == s.len(),
        holds::<K, T>(s.push((c, n)), c),
        entry::<K, T>(s.push((c, n)), c) == Some(n),
{
    let t = s.push((c, n));
    assert forall|i: int, j: int| 0 <= i < j < t.len() implies K::before(#[trigger] t[i].0, #[trigger] t[j].0) by {
        assert(t[i] == s[i]);
        if j < s.len() {
            assert(t[j] == s[j]);
        }
    }
    K::lemma_irreflexive(c);
    assert forall|j: int| 0 <= j < s.len() implies K::before(#[trigger] t[j].0, c) by {
        assert(t[j] == s[j]);
    }
    lemma_rank_is::<K, T>(t, c, s.len() as int);
}

/// Inserting pairs one list after another.
pub proof fn lemma_inserted_all_append<K: Component, T>(s: StoreView<K::V, T>, f: Pairs<K::V, T>, g: Pairs<K::V, T>)
    ensures
        inserted_all::<K, T>(s, f + g) == match inserted_all::<K, T>(s, f) {
            Ok(t) => inserted_all::<K, T>(t, g),
            Err(e) => Err(e),
        },
    decreases g.len(),
{
    if g.len() == 0 {
        assert(f + g =~= f);
    } else {
        assert((f + g).drop_last() =~= f + g.drop_last());
        lemma_inserted_all_append::<K, T>(s, f, g.drop_last());
    }
}

/// Where a whole list can be inserted, so can each of its starts.
pub proof fn lemma_inserted_all_start<K: Component, T>(s: StoreView<K::V, T>, f: Pairs<K::V, T>, k: int)
    requires
        0 <= k <= f.len(),
        inserted_all::<K, T>(s, f) is Ok,
    ensures
        inserted_all::<K, T>(s, f.take(k)) is Ok,
    decreases f.len() - k,
{
    if k < f.len() {
        lemma_inserted_all_start::<K, T>(s, f, k + 1);
        assert(f.take(k + 1).drop_last() =~= f.take(k));
    } else {
        assert(f.take(k) =~= f);
    }
}

/// Inserting pairs under `c` into a store whose last entry is a nested store under `c`
/// inserts them into that nested store.
pub proof fn lemma_insert_into_last<K: Component, T>(
    t: StoreView<K::V, T>,
    c: K::V,
    x: StoreView<K::V, T>,
    g: Pairs<K::V, T>,
)
    requires
        sorted::<K, T>(t),
        all_before::<K, T>(t, c),
        keys_nonempty(g),
        inserted_all::<K, T>(x, g) is Ok,
    ensures
        inserted_all::<K, T>(t.push((c, NodeView::Subtree(x))), under(seq![c], g)) == Ok::<_, DBError>(
            t.push((c, NodeView::Subtree(inserted_all::<K, T>(x, g)->Ok_0))),
        ),
    decreases g.len(),
{
    let start = t.push((c, NodeView::Subtree(x)));
    if g.len() == 0 {
        assert(under(seq![c], g) =~= Seq::empty());
    } else {
        let g0 = g.drop_last();
        assert(under(seq![c], g).drop_last() =~= under(seq![c], g0));
        assert forall|i: int| 0 <= i < g0.len() implies (#[trigger] g0[i]).0.len() > 0 by {
            assert(g0[i] == g[i]);
        }
        assert(inserted_all::<K, T>(x, g0) is Ok);
        lemma_insert_into_last::<K, T>(t, c, x, g0);
        let y0 = inserted_all::<K, T>(x, g0)->Ok_0;
        let mid = t.push((c, NodeView::Subtree(y0)));
        let p = g.last().0;
        let v = g.last().1;
        let path = seq![c] + p;
        assert(under(seq![c], g).last() == (path, v));
        assert(g[g.len() - 1].0.len() > 0);
        assert(path.len() > 1);
        assert(path[0] == c);
        assert(path.drop_first() =~= p);
        assert(inserted_all::<K, T>(start, under(seq![c], g).drop_last()) == Ok::<_, DBError>(mid));
        lemma_rank_of_last::<K, T>(t, c, NodeView::Subtree(y0));
        let y = inserted::<K, T>(y0, p, v)->Ok_0;
        assert(inserted_all::<K, T>(x, g) == inserted::<K, T>(y0, p, v));
        assert(put::<K, T>(mid, c, NodeView::Subtree(y)) =~= t.push((c, NodeView::Subtree(y))));
        assert(inserted::<K, T>(mid, path, v) == Ok::<_, DBError>(t.push((c, NodeView::Subtree(y)))));
    }
}

/// Inserting pairs under `c` into a store whose components all come before `c` makes a
/// nested store under `c` at its end, with those pairs.
pub proof fn lemma_insert_makes_last<K: Component, T>(t: StoreView<K::V, T>, c: K::V, g: Pairs<K::V, T>)
    requires
        sorted::<K, T>(t),
        all_before::<K, T>(t, c),
        keys_nonempty(g),
        g.len() > 0,
        inserted_all::<K, T>(Seq::empty(), g) is Ok,
    ensures
        inserted_all::<K, T>(t, under(seq![c], g)) == Ok::<_, DBError>(
            t.push((c, NodeView::Subtree(inserted_all::<K, T>(Seq::empty(), g)->Ok_0))),
        ),
    decreases g.len(),
{
    let g0 = g.drop_last();
    let p = g.last().0;
    let v = g.last().1;
    let path = seq![c] + p;
    assert(under(seq![c], g).drop_last() =~= under(seq![c], g0));
    assert(under(seq![c], g).last() == (path, v));
    assert(g[g.len() - 1].0.len() > 0);
    assert(path[0] == c);
    assert(path.drop_first() =~= p);
    let whole = under(seq![c], g);
    assert(path.len() > 1);
    if g0.len() == 0 {
        assert(whole.drop_last() =~= Seq::empty());
        assert(inserted_all::<K, T>(t, whole.drop_last()) == Ok::<_, DBError>(t));
        assert(inserted_all::<K, T>(Seq::empty(), g0) == Ok::<StoreView<K::V, T>, DBError>(Seq::empty()));
        lemma_rank_at_end::<K, T>(t, c);
        assert(entry::<K, T>(t, c) is None);
        let y = inserted::<K, T>(Seq::empty(), p, v)->Ok_0;
        assert(inserted_all::<K, T>(Seq::empty(), g) == inserted::<K, T>(Seq::empty(), p, v));
        assert(put::<K, T>(t, c, NodeView::Subtree(y)) =~= t.push((c, NodeView::Subtree(y))));
        assert(inserted::<K, T>(t, path, v) == Ok::<_, DBError>(t.push((c, NodeView::Subtree(y)))));
    } else {
        assert forall|i: int| 0 <= i < g0.len() implies (#[trigger] g0[i]).0.len() > 0 by {
            assert(g0[i] == g[i]);
        }
        assert(inserted_all::<K, T>(Seq::empty(), g0) is Ok);
        lemma_insert_makes_last::<K, T>(t, c, g0);
        let y0 = inserted_all::<K, T>(Seq::empty(), g0)->Ok_0;
        let mid = t.push((c, NodeView::Subtree(y0)));
        assert(inserted_all::<K, T>(t, whole.drop_last()) == Ok::<_, DBError>(mid));
        lemma_rank_of_last::<K, T>(t, c, NodeView::Subtree(y0));
        let y = inserted::<K, T>(y0, p, v)->Ok_0;
        assert(inserted_all::<K, T>(Seq::empty(), g) == inserted::<K, T>(y0, p, v));
        assert(put::<K, T>(mid, c, NodeView::Subtree(y)) =~= t.push((c, NodeView::Subtree(y))));
        assert(inserted::<K, T>(mid, path, v) == Ok::<_, DBError>(t.push((c, NodeView::Subtree(y)))));
    }
}

/// Inserting every pair of a well-formed store, in their order, into an empty store gives
/// the store back, but for the nested stores that hold no value.
pub proof fn lemma_rebuild<K: Component, T>(s: StoreView<K::V, T>)
    requires
        wf::<K, T>(s),
    ensures
        inserted_all::<K, T>(Seq::empty(), flatten(s)) == Ok::<_, DBError>(pruned(s)),
    decreases s,
{
    if s.len() > 0 {
        let rest = s.drop_last();
        let c = s.last().0;
        assert forall|i: int, j: int| 0 <= i < j < rest.len() implies K::before(#[trigger] rest[i].0, #[trigger] rest[j].0) by {
            assert(rest[i] == s[i] && rest[j] == s[j]);
        }
        assert forall|i: int| 0 <= i < rest.len() implies (#[trigger] rest[i].1 matches NodeView::Subtree(sub) ==> wf::<K, T>(
            sub,
        )) by {
            assert(rest[i] == s[i]);
        }
        lemma_rebuild::<K, T>(rest);
        let head = pruned(rest);
        lemma_pruned_wf::<K, T>(rest);
        assert forall|i: int| 0 <= i < rest.len() implies K::before(#[trigger] rest[i].0, c) by {
            assert(rest[i] == s[i]);
        }
        lemma_pruned_before::<K, T>(rest, c);
        lemma_inserted_all_append::<K, T>(Seq::empty(), flatten(rest), leaves(s.last()));
        match s.last().1 {
            NodeView::Value(v) => {
                let one = seq![(seq![c], v)];
                assert(one.drop_last() =~= Seq::empty());
                assert(inserted_all::<K, T>(head, one.drop_last()) == Ok::<_, DBError>(head));
                lemma_rank_at_end::<K, T>(head, c);
                assert(put::<K, T>(head, c, NodeView::Value(v)) =~= head.push(s.last()));
            },
            NodeView::Subtree(sub) => {
                assert(s[s.len() - 1].1 == NodeView::<K::V, T>::Subtree(sub));
                lemma_rebuild::<K, T>(sub);
                lemma_pruned_flatten(sub);
                lemma_flatten_keys(sub);
                let g = flatten(sub);
                if g.len() == 0 {
                    assert(under(seq![c], g) =~= Seq::empty());
                } else {
                    lemma_insert_makes_last::<K, T>(head, c, g);
                }
            },
        }
    }
}

} // verus!
