//! What holds of keys and of stores whatever their contents.

use vstd::prelude::*;
use crate::component::{lemma_order_strict_total, order_of, Component, Textual};
use crate::error::{DBError, KeyError};
use crate::key::{key_before, key_text, parsed_key};
use crate::order::{lemma_lex_connected, lemma_lex_irreflexive, lemma_lex_transitive};
use crate::rebuild::{all_before, lemma_flatten_keys, lemma_rank_at_end};
use crate::model::{
    entry, flatten, holds, inserted, leaves, lemma_entry_cut, lemma_entry_put, lemma_put_wf,
    lookup, put, rank, removed, sorted, wf, NodeView, Pairs, StoreView,
};
use crate::text::lemma_split_join;

verus! {

/// A key read back from its text is the key itself: for every key, which has at least one
/// component, and every divider that occurs in the text of none of its components.
pub proof fn lemma_key_text_round_trip<K: Textual>(cs: Seq<K::V>, d: char)
    requires
        cs.len() > 0,
        forall|i: int| 0 <= i < cs.len() ==> !K::text(#[trigger] cs[i]).contains(d),
    ensures
        parsed_key::<K>(key_text::<K>(cs, d), d) == Ok::<_, KeyError>(cs),
{
    let ps = cs.map_values(|c: K::V| K::text(c));
    assert forall|i: int| 0 <= i < ps.len() implies !(#[trigger] ps[i]).contains(d) by {
        assert(ps[i] == K::text(cs[i]));
    }
    lemma_split_join(ps, d);
    assert forall|i: int| 0 <= i < ps.len() implies K::parsed(#[trigger] ps[i]) == Some(cs[i]) by {
        K::lemma_text_parses(cs[i]);
    }
    assert(ps.map_values(|p: Seq<char>| K::parsed(p).unwrap()) =~= cs);
}

/// An insertion that succeeds leaves the store well formed.
pub proof fn lemma_insert_wf<K: Component, T>(s: StoreView<K::V, T>, path: Seq<K::V>, v: T)
    requires
        wf::<K, T>(s),
        inserted::<K, T>(s, path, v) is Ok,
    ensures
        wf::<K, T>(inserted::<K, T>(s, path, v)->Ok_0),
    decreases path.len(),
{
    if path.len() == 1 {
        lemma_put_wf::<K, T>(s, path[0], NodeView::Value(v));
    } else if path.len() > 1 {
        let sub = match entry::<K, T>(s, path[0]) {
            Some(NodeView::Subtree(sub)) => sub,
            _ => Seq::empty(),
        };
        if holds::<K, T>(s, path[0]) {
            assert(s[rank::<K, T>(s, path[0])].1 == NodeView::<K::V, T>::Subtree(sub));
        }
        lemma_insert_wf::<K, T>(sub, path.drop_first(), v);
        lemma_put_wf::<K, T>(s, path[0], NodeView::Subtree(inserted::<K, T>(sub, path.drop_first(), v)->Ok_0));
    }
}

/// An insertion fails in two ways only: with a value for a place where a nested store
/// stands, or with a key that goes on where a value stands.
pub proof fn lemma_insert_errors<K: Component, T>(s: StoreView<K::V, T>, path: Seq<K::V>, v: T)
    ensures
        inserted::<K, T>(s, path, v) matches Err(e) ==> e == DBError::InsertValueToDirectory || e
            == DBError::MultiKeyExtendValueKey,
    decreases path.len(),
{
    if path.len() > 1 {
        match entry::<K, T>(s, path[0]) {
            Some(NodeView::Subtree(sub)) => {
                lemma_insert_errors::<K, T>(sub, path.drop_first(), v);
            },
            _ => {
                lemma_insert_errors::<K, T>(Seq::empty(), path.drop_first(), v);
            },
        }
    }
}

/// After a value is inserted at a key, the key leads to that value.
pub proof fn lemma_insert_then_get<K: Component, T>(s: StoreView<K::V, T>, path: Seq<K::V>, v: T)
    requires
        wf::<K, T>(s),
        path.len() > 0,
        inserted::<K, T>(s, path, v) is Ok,
    ensures
        lookup::<K, T>(inserted::<K, T>(s, path, v)->Ok_0, path) == Some(v),
    decreases path.len(),
{
    if path.len() == 1 {
        lemma_entry_put::<K, T>(s, path[0], NodeView::Value(v), path[0]);
    } else {
        let sub = match entry::<K, T>(s, path[0]) {
            Some(NodeView::Subtree(sub)) => sub,
            _ => Seq::empty(),
        };
        if holds::<K, T>(s, path[0]) {
            assert(s[rank::<K, T>(s, path[0])].1 == NodeView::<K::V, T>::Subtree(sub));
        }
        let sub2 = inserted::<K, T>(sub, path.drop_first(), v)->Ok_0;
        lemma_insert_then_get::<K, T>(sub, path.drop_first(), v);
        lemma_entry_put::<K, T>(s, path[0], NodeView::Subtree(sub2), path[0]);
    }
}

/// A value can always be inserted again where one was inserted, and the key then leads
/// to the later value.
pub proof fn lemma_insert_overwrites<K: Component, T>(s: StoreView<K::V, T>, path: Seq<K::V>, v: T, later: T)
    requires
        wf::<K, T>(s),
        path.len() > 0,
        inserted::<K, T>(s, path, v) is Ok,
    ensures
        inserted::<K, T>(inserted::<K, T>(s, path, v)->Ok_0, path, later) is Ok,
        lookup::<K, T>(inserted::<K, T>(inserted::<K, T>(s, path, v)->Ok_0, path, later)->Ok_0, path) == Some(
            later,
        ),
{
    let s2 = inserted::<K, T>(s, path, v)->Ok_0;
    lemma_insert_wf::<K, T>(s, path, v);
    lemma_insert_then_get::<K, T>(s, path, v);
    lemma_insert_at_value::<K, T>(s2, path, later);
    lemma_insert_then_get::<K, T>(s2, path, later);
}

/// Where a key leads to a value, a value can be inserted at it.
proof fn lemma_insert_at_value<K: Component, T>(s: StoreView<K::V, T>, path: Seq<K::V>, v: T)
    requires
        lookup::<K, T>(s, path) is Some,
    ensures
        inserted::<K, T>(s, path, v) is Ok,
    decreases path.len(),
{
    if path.len() > 1 {
        match entry::<K, T>(s, path[0]) {
            Some(NodeView::Subtree(sub)) => {
                lemma_insert_at_value::<K, T>(sub, path.drop_first(), v);
            },
            _ => {},
        }
    }
}

/// After a value is inserted at a key of more than one component, a value cannot be
/// inserted at a shorter key that the key starts with: a nested store stands there.
pub proof fn lemma_value_over_subtree<K: Component, T>(s: StoreView<K::V, T>, path: Seq<K::V>, v: T, k: int, other: T)
    requires
        wf::<K, T>(s),
        0 < k < path.len(),
        inserted::<K, T>(s, path, v) is Ok,
    ensures
        inserted::<K, T>(inserted::<K, T>(s, path, v)->Ok_0, path.take(k), other) == Err::<StoreView<K::V, T>, _>(
            DBError::InsertValueToDirectory,
        ),
    decreases path.len(),
{
    let sub = match entry::<K, T>(s, path[0]) {
        Some(NodeView::Subtree(sub)) => sub,
        _ => Seq::empty(),
    };
    if holds::<K, T>(s, path[0]) {
        assert(s[rank::<K, T>(s, path[0])].1 == NodeView::<K::V, T>::Subtree(sub));
    }
    let sub2 = inserted::<K, T>(sub, path.drop_first(), v)->Ok_0;
    lemma_entry_put::<K, T>(s, path[0], NodeView::Subtree(sub2), path[0]);
    let short = path.take(k);
    assert(short[0] == path[0]);
    if k > 1 {
        assert(short.drop_first() =~= path.drop_first().take(k - 1));
        lemma_value_over_subtree::<K, T>(sub, path.drop_first(), v, k - 1, other);
    }
}

/// After a value is inserted at a key, a value cannot be inserted at a longer key that
/// starts with the key: a value stands on the way.
pub proof fn lemma_extend_value<K: Component, T>(s: StoreView<K::V, T>, path: Seq<K::V>, v: T, longer: Seq<K::V>, other: T)
    requires
        wf::<K, T>(s),
        0 < path.len() < longer.len(),
        longer.take(path.len() as int) == path,
        inserted::<K, T>(s, path, v) is Ok,
    ensures
        inserted::<K, T>(inserted::<K, T>(s, path, v)->Ok_0, longer, other) == Err::<StoreView<K::V, T>, _>(
            DBError::MultiKeyExtendValueKey,
        ),
    decreases path.len(),
{
    assert(longer[0] == longer.take(path.len() as int)[0]);
    if path.len() == 1 {
        lemma_entry_put::<K, T>(s, path[0], NodeView::Value(v), path[0]);
    } else {
        let sub = match entry::<K, T>(s, path[0]) {
            Some(NodeView::Subtree(sub)) => sub,
            _ => Seq::empty(),
        };
        if holds::<K, T>(s, path[0]) {
            assert(s[rank::<K, T>(s, path[0])].1 == NodeView::<K::V, T>::Subtree(sub));
        }
        let sub2 = inserted::<K, T>(sub, path.drop_first(), v)->Ok_0;
        lemma_entry_put::<K, T>(s, path[0], NodeView::Subtree(sub2), path[0]);
        assert(longer.drop_first().take(path.len() - 1) =~= path.drop_first());
        lemma_extend_value::<K, T>(sub, path.drop_first(), v, longer.drop_first(), other);
    }
}

/// An insertion changes the value that no other key leads to.
pub proof fn lemma_insert_keeps_others<K: Component, T>(s: StoreView<K::V, T>, path: Seq<K::V>, v: T, other: Seq<K::V>)
    requires
        wf::<K, T>(s),
        path.len() > 0,
        other != path,
        inserted::<K, T>(s, path, v) is Ok,
    ensures
        lookup::<K, T>(inserted::<K, T>(s, path, v)->Ok_0, other) == lookup::<K, T>(s, other),
    decreases path.len(),
{
    if other.len() > 0 {
        if path.len() == 1 {
            lemma_entry_put::<K, T>(s, path[0], NodeView::Value(v), other[0]);
            if other[0] == path[0] && other.len() == 1 {
                assert(other =~= path);
            }
        } else {
            let sub = match entry::<K, T>(s, path[0]) {
                Some(NodeView::Subtree(sub)) => sub,
                _ => Seq::empty(),
            };
            if holds::<K, T>(s, path[0]) {
                assert(s[rank::<K, T>(s, path[0])].1 == NodeView::<K::V, T>::Subtree(sub));
            }
            let sub2 = inserted::<K, T>(sub, path.drop_first(), v)->Ok_0;
            lemma_entry_put::<K, T>(s, path[0], NodeView::Subtree(sub2), other[0]);
            if other[0] == path[0] && other.len() > 1 {
                if other.drop_first() == path.drop_first() {
                    assert(other =~= seq![other[0]] + other.drop_first());
                    assert(path =~= seq![path[0]] + path.drop_first());
                }
                lemma_insert_keeps_others::<K, T>(sub, path.drop_first(), v, other.drop_first());
            }
        }
    }
}

/// Removing at a key that leads to no value returns nothing and leaves the store as it
/// is.
pub proof fn lemma_remove_missing<K: Component, T>(s: StoreView<K::V, T>, path: Seq<K::V>)
    requires
        lookup::<K, T>(s, path) is None,
    ensures
        removed::<K, T>(s, path) == (s, None::<T>),
    decreases path.len(),
{
    if path.len() > 1 {
        match entry::<K, T>(s, path[0]) {
            Some(NodeView::Subtree(sub)) => {
                lemma_remove_missing::<K, T>(sub, path.drop_first());
                assert(put::<K, T>(s, path[0], NodeView::Subtree(sub)) =~= s);
            },
            _ => {},
        }
    }
}

/// Removing at a key that leads to a value returns that value, and the key then leads to
/// nothing.
pub proof fn lemma_remove_then_get<K: Component, T>(s: StoreView<K::V, T>, path: Seq<K::V>)
    requires
        wf::<K, T>(s),
        lookup::<K, T>(s, path) is Some,
    ensures
        removed::<K, T>(s, path).1 == lookup::<K, T>(s, path),
        lookup::<K, T>(removed::<K, T>(s, path).0, path) is None,
    decreases path.len(),
{
    if path.len() == 1 {
        lemma_entry_cut::<K, T>(s, path[0], path[0]);
    } else {
        match entry::<K, T>(s, path[0]) {
            Some(NodeView::Subtree(sub)) => {
                assert(s[rank::<K, T>(s, path[0])].1 == NodeView::<K::V, T>::Subtree(sub));
                lemma_remove_then_get::<K, T>(sub, path.drop_first());
                lemma_entry_put::<K, T>(
                    s,
                    path[0],
                    NodeView::Subtree(removed::<K, T>(sub, path.drop_first()).0),
                    path[0],
                );
            },
            _ => {},
        }
    }
}

/// No key comes before itself.
pub proof fn lemma_key_before_irreflexive<K: Component>(a: Seq<K::V>)
    ensures
        !key_before::<K>(a, a),
{
    lemma_order_strict_total::<K>();
    lemma_lex_irreflexive(order_of::<K>(), a);
}

/// A key that comes before a key that comes before a third comes before the third.
pub proof fn lemma_key_before_transitive<K: Component>(a: Seq<K::V>, b: Seq<K::V>, c: Seq<K::V>)
    requires
        key_before::<K>(a, b),
        key_before::<K>(b, c),
    ensures
        key_before::<K>(a, c),
{
    lemma_order_strict_total::<K>();
    lemma_lex_transitive(order_of::<K>(), a, b, c);
}

/// Of two different keys one comes before the other.
pub proof fn lemma_key_before_connected<K: Component>(a: Seq<K::V>, b: Seq<K::V>)
    ensures
        a == b || key_before::<K>(a, b) || key_before::<K>(b, a),
{
    lemma_order_strict_total::<K>();
    lemma_lex_connected(order_of::<K>(), a, b);
}

/// The keys of the pairs stand in the strict order of keys.
pub open spec fn keys_increase<K: Component, T>(f: Pairs<K::V, T>) -> bool {
    forall|i: int, j: int| 0 <= i < j < f.len() ==> key_before::<K>(#[trigger] f[i].0, #[trigger] f[j].0)
}

/// Every key of the pairs starts with a component that comes before `c`.
spec fn heads_before<K: Component, T>(f: Pairs<K::V, T>, c: K::V) -> bool {
    forall|i: int| 0 <= i < f.len() ==> (#[trigger] f[i]).0.len() > 0 && K::before(f[i].0[0], c)
}

proof fn lemma_heads_before<K: Component, T>(s: StoreView<K::V, T>, c: K::V)
    requires
        all_before::<K, T>(s, c),
    ensures
        heads_before::<K, T>(flatten(s), c),
    decreases s.len(),
{
    if s.len() > 0 {
        let rest = s.drop_last();
        assert forall|i: int| 0 <= i < rest.len() implies K::before(#[trigger] rest[i].0, c) by {
            assert(rest[i] == s[i]);
        }
        lemma_heads_before::<K, T>(rest, c);
        let head = flatten(rest);
        let tail = leaves(s.last());
        assert(flatten(s) == head + tail);
        assert(K::before(s[s.len() - 1].0, c));
        match s.last().1 {
            NodeView::Value(_) => {},
            NodeView::Subtree(sub) => {
                lemma_flatten_keys(sub);
            },
        }
        assert forall|i: int| 0 <= i < tail.len() implies (#[trigger] tail[i]).0.len() > 0 && tail[i].0[0]
            == s.last().0 by {}
        assert forall|i: int| 0 <= i < flatten(s).len() implies (#[trigger] flatten(s)[i]).0.len() > 0
            && K::before(flatten(s)[i].0[0], c) by {
            if i < head.len() {
                assert(flatten(s)[i] == head[i]);
            } else {
                assert(flatten(s)[i] == tail[i - head.len()]);
            }
        }
    }
}

/// The pairs of a well-formed store stand in the strict order of their keys: a store
/// always gives its values in the same order, that of the keys.
pub proof fn lemma_flatten_sorted<K: Component, T>(s: StoreView<K::V, T>)
    requires
        wf::<K, T>(s),
    ensures
        keys_increase::<K, T>(flatten(s)),
    decreases s,
{
    if s.len() > 0 {
        let rest = s.drop_last();
        let c = s.last().0;
        assert forall|i: int, j: int| 0 <= i < j < rest.len() implies K::before(#[trigger] rest[i].0, #[trigger] rest[j].0) by {
            assert(rest[i] == s[i] && rest[j] == s[j]);
        }
        assert forall|i: int| 0 <= i < rest.len() implies (#[trigger] rest[i].1 matches NodeView::Subtree(sub) ==> wf::<K, T>(
            sub,
        )) by {
            assert(rest[i] == s[i]);
        }
        lemma_flatten_sorted::<K, T>(rest);
        assert forall|i: int| 0 <= i < rest.len() implies K::before(#[trigger] rest[i].0, c) by {
            assert(rest[i] == s[i]);
        }
        lemma_heads_before::<K, T>(rest, c);
        let head = flatten(rest);
        let tail = leaves(s.last());
        let f = flatten(s);
        assert(f == head + tail);
        match s.last().1 {
            NodeView::Value(_) => {},
            NodeView::Subtree(sub) => {
                assert(s[s.len() - 1].1 == NodeView::<K::V, T>::Subtree(sub));
                lemma_flatten_sorted::<K, T>(sub);
                lemma_flatten_keys(sub);
            },
        }
        assert forall|i: int| 0 <= i < tail.len() implies (#[trigger] tail[i]).0.len() > 0 && tail[i].0[0]
            == c by {}
        assert forall|i: int, j: int| 0 <= i < j < f.len() implies key_before::<K>(#[trigger] f[i].0, #[trigger] f[j].0) by {
            if j < head.len() {
                assert(f[i] == head[i] && f[j] == head[j]);
            } else if i < head.len() {
                assert(f[i] == head[i]);
                assert(f[j] == tail[j - head.len()]);
                K::lemma_irreflexive(c);
            } else {
                let a = i - head.len();
                let b = j - head.len();
                assert(f[i] == tail[a] && f[j] == tail[b]);
                match s.last().1 {
                    NodeView::Value(_) => {},
                    NodeView::Subtree(sub) => {
                        let g = flatten(sub);
                        assert(tail[a].0 == seq![c] + g[a].0);
                        assert(tail[b].0 == seq![c] + g[b].0);
                        assert((seq![c] + g[a].0).drop_first() =~= g[a].0);
                        assert((seq![c] + g[b].0).drop_first() =~= g[b].0);
                        assert(key_before::<K>(g[a].0, g[b].0));
                    },
                }
            }
        }
    }
}

/// A removal changes the value that no other key leads to.
pub proof fn lemma_remove_keeps_others<K: Component, T>(s: StoreView<K::V, T>, path: Seq<K::V>, other: Seq<K::V>)
    requires
        wf::<K, T>(s),
        other != path,
    ensures
        lookup::<K, T>(removed::<K, T>(s, path).0, other) == lookup::<K, T>(s, other),
    decreases path.len(),
{
    if other.len() > 0 && path.len() > 0 {
        if path.len() == 1 {
            lemma_entry_cut::<K, T>(s, path[0], other[0]);
            if other[0] == path[0] && other.len() == 1 {
                assert(other =~= path);
            }
        } else {
            match entry::<K, T>(s, path[0]) {
                Some(NodeView::Subtree(sub)) => {
                    assert(s[rank::<K, T>(s, path[0])].1 == NodeView::<K::V, T>::Subtree(sub));
                    let sub2 = removed::<K, T>(sub, path.drop_first()).0;
                    lemma_entry_put::<K, T>(s, path[0], NodeView::Subtree(sub2), other[0]);
                    if other[0] == path[0] && other.len() > 1 {
                        if other.drop_first() == path.drop_first() {
                            assert(other =~= seq![other[0]] + other.drop_first());
                            assert(path =~= seq![path[0]] + path.drop_first());
                        }
                        lemma_remove_keeps_others::<K, T>(sub, path.drop_first(), other.drop_first());
                    }
                },
                _ => {},
            }
        }
    }
}

/// What stands under a component of a sorted store whose last entry is taken apart: the
/// node of the last entry for its component, and for any other component what stands
/// under it in the rest.
proof fn lemma_entry_of_last<K: Component, T>(s: StoreView<K::V, T>, c: K::V)
    requires
        sorted::<K, T>(s),
        s.len() > 0,
    ensures
        entry::<K, T>(s, c) == if c == s.last().0 {
            Some(s.last().1)
        } else {
            entry::<K, T>(s.drop_last(), c)
        },
{
    let rest = s.drop_last();
    let last = s.last();
    assert forall|i: int, j: int| 0 <= i < j < rest.len() implies K::before(#[trigger] rest[i].0, #[trigger] rest[j].0) by {
        assert(rest[i] == s[i] && rest[j] == s[j]);
    }
    assert forall|i: int| 0 <= i < rest.len() implies K::before(#[trigger] rest[i].0, last.0) by {
        assert(rest[i] == s[i]);
    }
    lemma_rank_at_end::<K, T>(rest, last.0);
    assert(put::<K, T>(rest, last.0, last.1) =~= s);
    lemma_entry_put::<K, T>(rest, last.0, last.1, c);
}

/// Every pair of a well-formed store is a key and the value that the key leads to.
pub proof fn lemma_flatten_leads<K: Component, T>(s: StoreView<K::V, T>, i: int)
    requires
        wf::<K, T>(s),
        0 <= i < flatten(s).len(),
    ensures
        lookup::<K, T>(s, flatten(s)[i].0) == Some(flatten(s)[i].1),
    decreases s,
{
    if s.len() > 0 {
        let rest = s.drop_last();
        let c = s.last().0;
        let head = flatten(rest);
        let tail = leaves(s.last());
        assert(flatten(s) == head + tail);
        let p = flatten(s)[i].0;
        lemma_flatten_keys(s);
        assert(p.len() > 0);
        lemma_entry_of_last::<K, T>(s, p[0]);
        if i < head.len() {
            assert(flatten(s)[i] == head[i]);
            assert forall|a: int, b: int| 0 <= a < b < rest.len() implies K::before(#[trigger] rest[a].0, #[trigger] rest[b].0) by {
                assert(rest[a] == s[a] && rest[b] == s[b]);
            }
            assert forall|a: int| 0 <= a < rest.len() implies (#[trigger] rest[a].1 matches NodeView::Subtree(sub) ==> wf::<K, T>(
                sub,
            )) by {
                assert(rest[a] == s[a]);
            }
            assert forall|a: int| 0 <= a < rest.len() implies K::before(#[trigger] rest[a].0, c) by {
                assert(rest[a] == s[a]);
            }
            lemma_heads_before::<K, T>(rest, c);
            K::lemma_irreflexive(c);
            lemma_flatten_leads::<K, T>(rest, i);
        } else {
            let j = i - head.len();
            assert(flatten(s)[i] == tail[j]);
            match s.last().1 {
                NodeView::Value(_) => {},
                NodeView::Subtree(sub) => {
                    assert(s[s.len() - 1].1 == NodeView::<K::V, T>::Subtree(sub));
                    lemma_flatten_keys(sub);
                    let q = flatten(sub)[j].0;
                    assert(p == seq![c] + q);
                    assert(p.drop_first() =~= q);
                    lemma_flatten_leads::<K, T>(sub, j);
                },
            }
        }
    }
}

/// Every key that leads to a value in a well-formed store is among the pairs of the
/// store, with that value.
pub proof fn lemma_lookup_in_flatten<K: Component, T>(s: StoreView<K::V, T>, path: Seq<K::V>) -> (i: int)
    requires
        wf::<K, T>(s),
        lookup::<K, T>(s, path) is Some,
    ensures
        0 <= i < flatten(s).len(),
        flatten(s)[i] == (path, lookup::<K, T>(s, path)->Some_0),
    decreases s,
{
    if s.len() == 0 {
        0
    } else {
        let rest = s.drop_last();
        let c = s.last().0;
        let head = flatten(rest);
        let tail = leaves(s.last());
        assert(flatten(s) == head + tail);
        lemma_entry_of_last::<K, T>(s, path[0]);
        if path[0] == c {
            match s.last().1 {
                NodeView::Value(_) => {
                    assert(path =~= seq![c]);
                    assert(flatten(s)[head.len() as int] == tail[0]);
                    head.len() as int
                },
                NodeView::Subtree(sub) => {
                    assert(s[s.len() - 1].1 == NodeView::<K::V, T>::Subtree(sub));
                    let j = lemma_lookup_in_flatten::<K, T>(sub, path.drop_first());
                    assert(path =~= seq![c] + path.drop_first());
                    assert(flatten(s)[head.len() + j] == tail[j]);
                    head.len() + j
                },
            }
        } else {
            assert forall|a: int, b: int| 0 <= a < b < rest.len() implies K::before(#[trigger] rest[a].0, #[trigger] rest[b].0) by {
                assert(rest[a] == s[a] && rest[b] == s[b]);
            }
            assert forall|a: int| 0 <= a < rest.len() implies (#[trigger] rest[a].1 matches NodeView::Subtree(sub) ==> wf::<K, T>(
                sub,
            )) by {
                assert(rest[a] == s[a]);
            }
            let i = lemma_lookup_in_flatten::<K, T>(rest, path);
            assert(flatten(s)[i] == head[i]);
            i
        }
    }
}

} // verus!
