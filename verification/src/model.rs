//! The mathematical model of a store: a list of entries in the order of their components,
//! each entry a value or a nested list of the same kind.

use vstd::prelude::*;
use crate::component::Component;
use crate::error::DBError;

verus! {

/// What one entry of a store holds.
pub enum NodeView<C, T> {
    /// A stored value.
    Value(T),
    /// A nested store.
    Subtree(Seq<(C, NodeView<C, T>)>),
}

/// A store: its entries, each a component and what stands under it.
pub type StoreView<C, T> = Seq<(C, NodeView<C, T>)>;

/// The pairs of a full key and a value that a traversal of a store gives.
pub type Pairs<C, T> = Seq<(Seq<C>, T)>;

/// The number of entries of `s` whose component comes before `c`. In a sorted store this
/// is the place of `c`: where its entry stands, or where it would have to be put.
pub open spec fn rank<K: Component, T>(s: StoreView<K::V, T>, c: K::V) -> int
    decreases s.len(),
{
    if s.len() == 0 {
        0
    } else {
        rank::<K, T>(s.drop_last(), c) + if K::before(s.last().0, c) {
            1int
        } else {
            0int
        }
    }
}

/// The store has an entry for the component `c`.
pub open spec fn holds<K: Component, T>(s: StoreView<K::V, T>, c: K::V) -> bool {
    let i = rank::<K, T>(s, c);
    0 <= i < s.len() && s[i].0 == c
}

/// What stands under the component `c`, if the store has an entry for it.
pub open spec fn entry<K: Component, T>(s: StoreView<K::V, T>, c: K::V) -> Option<NodeView<K::V, T>> {
    if holds::<K, T>(s, c) {
        Some(s[rank::<K, T>(s, c)].1)
    } else {
        None
    }
}

/// The store with `n` under the component `c`: in place of what stood there, or as a new
/// entry at the place of `c`.
pub open spec fn put<K: Component, T>(s: StoreView<K::V, T>, c: K::V, n: NodeView<K::V, T>) -> StoreView<K::V, T> {
    if holds::<K, T>(s, c) {
        s.update(rank::<K, T>(s, c), (c, n))
    } else {
        s.insert(rank::<K, T>(s, c), (c, n))
    }
}

/// The store without the entry for the component `c`.
pub open spec fn cut<K: Component, T>(s: StoreView<K::V, T>, c: K::V) -> StoreView<K::V, T> {
    if holds::<K, T>(s, c) {
        s.remove(rank::<K, T>(s, c))
    } else {
        s
    }
}

/// The entries stand in the strict order of their components, so no component occurs twice.
pub open spec fn sorted<K: Component, T>(s: StoreView<K::V, T>) -> bool {
    forall|i: int, j: int| 0 <= i < j < s.len() ==> K::before(#[trigger] s[i].0, #[trigger] s[j].0)
}

/// The store and every store nested in it are sorted.
pub open spec fn wf<K: Component, T>(s: StoreView<K::V, T>) -> bool
    decreases s,
{
    &&& sorted::<K, T>(s)
    &&& forall|i: int| 0 <= i < s.len() ==> (#[trigger] s[i].1 matches NodeView::Subtree(sub) ==> wf::<K, T>(sub))
}

/// What the path leads to: the value or the nested store under its last component, reached
/// through nested stores only. `None` where a component is missing on the way, or where a
/// value stands before the path ends.
pub open spec fn node_at<K: Component, T>(s: StoreView<K::V, T>, path: Seq<K::V>) -> Option<NodeView<K::V, T>>
    decreases path.len(),
{
    if path.len() == 0 {
        None
    } else {
        match entry::<K, T>(s, path[0]) {
            None => None,
            Some(n) => if path.len() == 1 {
                Some(n)
            } else {
                match n {
                    NodeView::Subtree(sub) => node_at::<K, T>(sub, path.drop_first()),
                    NodeView::Value(_) => None,
                }
            },
        }
    }
}

/// The value that the path leads to, if it leads to a value.
pub open spec fn lookup<K: Component, T>(s: StoreView<K::V, T>, path: Seq<K::V>) -> Option<T> {
    match node_at::<K, T>(s, path) {
        Some(NodeView::Value(v)) => Some(v),
        _ => None,
    }
}

/// The store after the value `v` is inserted at `path`, or why it cannot be.
///
/// At the last component of the path a value is created or replaced; a nested store there
/// is an error. On the way, a missing component gets a new nested store; a value there is
/// an error.
pub open spec fn inserted<K: Component, T>(s: StoreView<K::V, T>, path: Seq<K::V>, v: T) -> Result<StoreView<K::V, T>, DBError>
    decreases path.len(),
{
    if path.len() == 0 {
        Ok(s)
    } else if path.len() == 1 {
        match entry::<K, T>(s, path[0]) {
            Some(NodeView::Subtree(_)) => Err(DBError::InsertValueToDirectory),
            _ => Ok(put::<K, T>(s, path[0], NodeView::Value(v))),
        }
    } else {
        match entry::<K, T>(s, path[0]) {
            Some(NodeView::Value(_)) => Err(DBError::MultiKeyExtendValueKey),
            Some(NodeView::Subtree(sub)) => match inserted::<K, T>(sub, path.drop_first(), v) {
                Ok(sub2) => Ok(put::<K, T>(s, path[0], NodeView::Subtree(sub2))),
                Err(e) => Err(e),
            },
            None => match inserted::<K, T>(Seq::empty(), path.drop_first(), v) {
                Ok(sub2) => Ok(put::<K, T>(s, path[0], NodeView::Subtree(sub2))),
                Err(e) => Err(e),
            },
        }
    }
}

/// The store after the value at `path` is removed, and that value. Where the path leads
/// to no value the store stays as it is. A nested store that becomes empty stays.
pub open spec fn removed<K: Component, T>(s: StoreView<K::V, T>, path: Seq<K::V>) -> (StoreView<K::V, T>, Option<T>)
    decreases path.len(),
{
    if path.len() == 0 {
        (s, None)
    } else if path.len() == 1 {
        match entry::<K, T>(s, path[0]) {
            Some(NodeView::Value(v)) => (cut::<K, T>(s, path[0]), Some(v)),
            _ => (s, None),
        }
    } else {
        match entry::<K, T>(s, path[0]) {
            Some(NodeView::Subtree(sub)) => {
                let (sub2, v) = removed::<K, T>(sub, path.drop_first());
                (put::<K, T>(s, path[0], NodeView::Subtree(sub2)), v)
            },
            _ => (s, None),
        }
    }
}

/// The pairs `f` with `prefix` put before each key.
pub open spec fn under<C, T>(prefix: Seq<C>, f: Pairs<C, T>) -> Pairs<C, T> {
    f.map_values(|p: (Seq<C>, T)| (prefix + p.0, p.1))
}

/// Every value of the store with its full key: the entries in their order, and for a
/// nested store its own pairs, in their order, under the component of its entry.
pub open spec fn flatten<C, T>(s: StoreView<C, T>) -> Pairs<C, T>
    decreases s,
{
    if s.len() == 0 {
        Seq::empty()
    } else {
        flatten(s.drop_last()) + leaves(s.last())
    }
}

/// The pairs of one entry.
pub open spec fn leaves<C, T>(e: (C, NodeView<C, T>)) -> Pairs<C, T>
    decreases e,
{
    match e.1 {
        NodeView::Value(v) => seq![(seq![e.0], v)],
        NodeView::Subtree(sub) => under(seq![e.0], flatten(sub)),
    }
}

/// What `path` stands for: the one pair of a value, the pairs of a nested store under
/// `path`, or nothing where the path leads nowhere.
pub open spec fn values_at<K: Component, T>(s: StoreView<K::V, T>, path: Seq<K::V>) -> Pairs<K::V, T> {
    match node_at::<K, T>(s, path) {
        None => Seq::empty(),
        Some(NodeView::Value(v)) => seq![(path, v)],
        Some(NodeView::Subtree(sub)) => under(path, flatten(sub)),
    }
}

/// The rank of `c` lies within the store.
pub proof fn lemma_rank_range<K: Component, T>(s: StoreView<K::V, T>, c: K::V)
    ensures
        0 <= rank::<K, T>(s, c) <= s.len(),
    decreases s.len(),
{
    if s.len() > 0 {
        lemma_rank_range::<K, T>(s.drop_last(), c);
    }
}

/// In a sorted store the entries before position `i` come before `c` and the entry at `i`
/// does not: then `i` is the rank of `c`.
pub proof fn lemma_rank_is<K: Component, T>(s: StoreView<K::V, T>, c: K::V, i: int)
    requires
        sorted::<K, T>(s),
        0 <= i <= s.len(),
        forall|j: int| 0 <= j < i ==> K::before(#[trigger] s[j].0, c),
        i < s.len() ==> !K::before(s[i].0, c),
    ensures
        rank::<K, T>(s, c) == i,
    decreases s.len(),
{
    if s.len() > 0 {
        let t = s.drop_last();
        if i == s.len() {
            lemma_rank_is::<K, T>(t, c, i - 1);
        } else {
            if i < s.len() - 1 && K::before(s.last().0, c) {
                K::lemma_transitive(s[i].0, s.last().0, c);
            }
            lemma_rank_is::<K, T>(t, c, i);
        }
    }
}

/// In a sorted store the rank of `c` parts the entries: those before it come before `c`,
/// and those from it on come after `c`, but for an entry of `c` itself, which stands at
/// the rank.
pub proof fn lemma_rank_parts<K: Component, T>(s: StoreView<K::V, T>, c: K::V)
    requires
        sorted::<K, T>(s),
    ensures
        0 <= rank::<K, T>(s, c) <= s.len(),
        forall|j: int| 0 <= j < rank::<K, T>(s, c) ==> K::before(#[trigger] s[j].0, c),
        forall|j: int| rank::<K, T>(s, c) <= j < s.len() ==> !K::before(#[trigger] s[j].0, c),
        forall|j: int| rank::<K, T>(s, c) < j < s.len() ==> K::before(c, #[trigger] s[j].0),
        forall|j: int| 0 <= j < s.len() && #[trigger] s[j].0 == c ==> j == rank::<K, T>(s, c),
        !holds::<K, T>(s, c) ==> forall|j: int| rank::<K, T>(s, c) <= j < s.len() ==> K::before(c, #[trigger] s[j].0),
    decreases s.len(),
{
    let r = rank::<K, T>(s, c);
    lemma_rank_range::<K, T>(s, c);
    if s.len() > 0 {
        let t = s.drop_last();
        lemma_rank_parts::<K, T>(t, c);
        let rt = rank::<K, T>(t, c);
        if K::before(s.last().0, c) {
            // every entry comes before the last, hence before `c`
            assert forall|j: int| 0 <= j < s.len() implies K::before(#[trigger] s[j].0, c) by {
                if j < s.len() - 1 {
                    K::lemma_transitive(s[j].0, s.last().0, c);
                }
            }
            if rt < t.len() {
                assert(K::before(t[rt].0, c));
                assert(false);
            }
        }
        assert forall|j: int| 0 <= j < r implies K::before(#[trigger] s[j].0, c) by {
            if j < t.len() {
                assert(s[j] == t[j]);
            }
        }
        assert forall|j: int| r <= j < s.len() implies !K::before(#[trigger] s[j].0, c) by {
            if j < t.len() {
                assert(s[j] == t[j]);
            }
        }
        assert forall|j: int| 0 <= j < s.len() && #[trigger] s[j].0 == c implies j == r by {
            K::lemma_irreflexive(c);
            if j < r {
                assert(K::before(s[j].0, c));
            } else if j > r {
                assert(K::before(s[r].0, s[j].0));
                assert(!K::before(s[r].0, c));
            }
        }
        assert forall|j: int| r <= j < s.len() && (j > r || !holds::<K, T>(s, c)) implies K::before(c, #[trigger] s[j].0) by {
            K::lemma_connected(c, s[j].0);
            assert(!K::before(s[j].0, c));
            if s[j].0 == c {
                assert(j == r);
            }
        }
    }
}

/// Putting a well-formed entry into a well-formed store leaves it well formed.
pub proof fn lemma_put_wf<K: Component, T>(s: StoreView<K::V, T>, c: K::V, n: NodeView<K::V, T>)
    requires
        wf::<K, T>(s),
        n matches NodeView::Subtree(sub) ==> wf::<K, T>(sub),
    ensures
        wf::<K, T>(put::<K, T>(s, c, n)),
{
    lemma_rank_parts::<K, T>(s, c);
    let r = rank::<K, T>(s, c);
    let p = put::<K, T>(s, c, n);
    if holds::<K, T>(s, c) {
        assert forall|i: int, j: int| 0 <= i < j < p.len() implies K::before(#[trigger] p[i].0, #[trigger] p[j].0) by {
            assert(p[i].0 == s[i].0);
            assert(p[j].0 == s[j].0);
        }
        assert forall|i: int| 0 <= i < p.len() implies (#[trigger] p[i].1 matches NodeView::Subtree(sub) ==> wf::<K, T>(sub)) by {
            if i != r {
                assert(p[i] == s[i]);
            }
        }
    } else {
        assert forall|i: int, j: int| 0 <= i < j < p.len() implies K::before(#[trigger] p[i].0, #[trigger] p[j].0) by {
            let si = if i < r { i } else { i - 1 };
            let sj = if j < r { j } else { j - 1 };
            if i == r {
                assert(p[j] == s[sj]);
            } else if j == r {
                assert(p[i] == s[si]);
            } else {
                assert(p[i] == s[si]);
                assert(p[j] == s[sj]);
            }
        }
        assert forall|i: int| 0 <= i < p.len() implies (#[trigger] p[i].1 matches NodeView::Subtree(sub) ==> wf::<K, T>(sub)) by {
            if i < r {
                assert(p[i] == s[i]);
            } else if i > r {
                assert(p[i] == s[i - 1]);
            }
        }
    }
}

/// Cutting an entry out of a well-formed store leaves it well formed.
pub proof fn lemma_cut_wf<K: Component, T>(s: StoreView<K::V, T>, c: K::V)
    requires
        wf::<K, T>(s),
    ensures
        wf::<K, T>(cut::<K, T>(s, c)),
{
    let r = rank::<K, T>(s, c);
    let p = cut::<K, T>(s, c);
    if holds::<K, T>(s, c) {
        assert forall|i: int, j: int| 0 <= i < j < p.len() implies K::before(#[trigger] p[i].0, #[trigger] p[j].0) by {
            let si = if i < r { i } else { i + 1 };
            let sj = if j < r { j } else { j + 1 };
            assert(p[i] == s[si]);
            assert(p[j] == s[sj]);
        }
        assert forall|i: int| 0 <= i < p.len() implies (#[trigger] p[i].1 matches NodeView::Subtree(sub) ==> wf::<K, T>(sub)) by {
            let si = if i < r { i } else { i + 1 };
            assert(p[i] == s[si]);
        }
    }
}

/// In a sorted store, `put` places its node under its component and leaves what stands
/// under every other component as it was.
pub proof fn lemma_entry_put<K: Component, T>(s: StoreView<K::V, T>, c: K::V, n: NodeView<K::V, T>, other: K::V)
    requires
        sorted::<K, T>(s),
    ensures
        sorted::<K, T>(put::<K, T>(s, c, n)),
        entry::<K, T>(put::<K, T>(s, c, n), other) == if other == c {
            Some(n)
        } else {
            entry::<K, T>(s, other)
        },
{
    lemma_rank_parts::<K, T>(s, c);
    lemma_rank_parts::<K, T>(s, other);
    let r = rank::<K, T>(s, c);
    let ro = rank::<K, T>(s, other);
    let p = put::<K, T>(s, c, n);
    K::lemma_irreflexive(c);
    K::lemma_irreflexive(other);
    if holds::<K, T>(s, c) {
        assert forall|i: int, j: int| 0 <= i < j < p.len() implies K::before(#[trigger] p[i].0, #[trigger] p[j].0) by {
            assert(p[i].0 == s[i].0);
            assert(p[j].0 == s[j].0);
        }
        assert forall|j: int| 0 <= j < ro implies K::before(#[trigger] p[j].0, other) by {
            assert(p[j].0 == s[j].0);
        }
        if ro < p.len() {
            assert(p[ro].0 == s[ro].0);
        }
        lemma_rank_is::<K, T>(p, other, ro);
    } else {
        assert forall|i: int, j: int| 0 <= i < j < p.len() implies K::before(#[trigger] p[i].0, #[trigger] p[j].0) by {
            let si = if i < r { i } else { i - 1 };
            let sj = if j < r { j } else { j - 1 };
            if i == r {
                assert(p[j] == s[sj]);
            } else if j == r {
                assert(p[i] == s[si]);
            } else {
                assert(p[i] == s[si]);
                assert(p[j] == s[sj]);
            }
        }
        if other == c {
            assert forall|j: int| 0 <= j < r implies K::before(#[trigger] p[j].0, other) by {
                assert(p[j] == s[j]);
            }
            lemma_rank_is::<K, T>(p, other, r);
        } else if K::before(c, other) {
            // the new entry stands before the place of `other`
            if ro < r {
                assert(!K::before(s[ro].0, other));
                assert(K::before(s[ro].0, c));
                K::lemma_transitive(s[ro].0, c, other);
            }
            assert forall|j: int| 0 <= j < ro + 1 implies K::before(#[trigger] p[j].0, other) by {
                if j < r {
                    assert(p[j] == s[j]);
                } else if j > r {
                    assert(p[j] == s[j - 1]);
                }
            }
            if ro + 1 < p.len() {
                assert(p[ro + 1] == s[ro]);
            }
            lemma_rank_is::<K, T>(p, other, ro + 1);
        } else {
            K::lemma_connected(c, other);
            assert(K::before(other, c));
            // the new entry stands at or after the place of `other`
            if r < ro {
                assert(K::before(s[r].0, other));
                K::lemma_transitive(s[r].0, other, c);
            }
            assert forall|j: int| 0 <= j < ro implies K::before(#[trigger] p[j].0, other) by {
                assert(p[j] == s[j]);
            }
            if ro == r {
                if K::before(c, other) {
                    K::lemma_transitive(c, other, c);
                }
                if ro < s.len() && s[ro].0 == other {
                    assert(!K::before(s[r].0, c));
                }
            } else {
                assert(p[ro] == s[ro]);
            }
            lemma_rank_is::<K, T>(p, other, ro);
        }
    }
}

/// In a sorted store, `cut` takes the entry of its component away and leaves what stands
/// under every other component as it was.
pub proof fn lemma_entry_cut<K: Component, T>(s: StoreView<K::V, T>, c: K::V, other: K::V)
    requires
        sorted::<K, T>(s),
    ensures
        sorted::<K, T>(cut::<K, T>(s, c)),
        entry::<K, T>(cut::<K, T>(s, c), other) == if other == c {
            None
        } else {
            entry::<K, T>(s, other)
        },
{
    lemma_rank_parts::<K, T>(s, c);
    lemma_rank_parts::<K, T>(s, other);
    let r = rank::<K, T>(s, c);
    let ro = rank::<K, T>(s, other);
    let p = cut::<K, T>(s, c);
    K::lemma_irreflexive(c);
    K::lemma_irreflexive(other);
    if holds::<K, T>(s, c) {
        assert forall|i: int, j: int| 0 <= i < j < p.len() implies K::before(#[trigger] p[i].0, #[trigger] p[j].0) by {
            let si = if i < r { i } else { i + 1 };
            let sj = if j < r { j } else { j + 1 };
            assert(p[i] == s[si]);
            assert(p[j] == s[sj]);
        }
        if other == c {
            assert forall|j: int| 0 <= j < r implies K::before(#[trigger] p[j].0, other) by {
                assert(p[j] == s[j]);
            }
            if r < p.len() {
                assert(p[r] == s[r + 1]);
                assert(K::before(c, s[r + 1].0));
                if K::before(s[r + 1].0, c) {
                    K::lemma_transitive(c, s[r + 1].0, c);
                }
            }
            lemma_rank_is::<K, T>(p, other, r);
        } else if ro <= r {
            assert forall|j: int| 0 <= j < ro implies K::before(#[trigger] p[j].0, other) by {
                assert(p[j] == s[j]);
            }
            if ro < r {
                assert(p[ro] == s[ro]);
            } else if ro < p.len() {
                // the entry of `c` stood at the place of `other`, which comes before `c`
                assert(p[ro] == s[ro + 1]);
                assert(!K::before(c, other));
                if K::before(s[ro + 1].0, other) {
                    assert(K::before(c, s[ro + 1].0));
                    K::lemma_transitive(c, s[ro + 1].0, other);
                }
                if s[ro + 1].0 == other {
                    assert(ro + 1 == ro);
                }
            }
            lemma_rank_is::<K, T>(p, other, ro);
        } else {
            assert forall|j: int| 0 <= j < ro - 1 implies K::before(#[trigger] p[j].0, other) by {
                if j < r {
                    assert(p[j] == s[j]);
                } else {
                    assert(p[j] == s[j + 1]);
                }
            }
            if ro - 1 < p.len() {
                assert(p[ro - 1] == s[ro]);
            }
            lemma_rank_is::<K, T>(p, other, ro - 1);
        }
    }
}

} // verus!
