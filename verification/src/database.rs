//! The store: a map from one component to a node, kept in the order of the components,
//! and the recursive operations on it.

use vstd::prelude::*;
use crate::component::{Component, Textual};
use crate::error::DBError;
use crate::key::Key;
use crate::model::{
    cut, entry, flatten, holds, inserted, leaves, lemma_cut_wf, lemma_put_wf, lemma_rank_is,
    lookup, node_at, put, rank, removed, sorted, under, values_at, wf, NodeView, Pairs,
    StoreView,
};
use crate::node::{node_view, NodeType};

verus! {

/// The entries of one level of a store, in the strict order of their components.
#[derive(Debug)]
pub struct NodeMap<K: Component, V: Textual> {
    entries: Vec<(K, NodeType<K, V>)>,
}

/// A store: the entries of its first level, and the divider of its text form.
#[derive(Debug)]
pub struct Database<K: Component, V: Textual> {
    pub map: NodeMap<K, V>,
    divider: char,
}

/// The model of a list of entries.
pub open spec fn entries_view<K: Component, V: Textual>(es: Seq<(K, NodeType<K, V>)>) -> StoreView<K::V, V::V>
    decreases es,
{
    Seq::new(
        es.len(),
        |i: int|
            if 0 <= i < es.len() {
                (es[i].0@, node_view(es[i].1))
            } else {
                arbitrary()
            },
    )
}

/// The model of one level of a store.
pub closed spec fn map_view<K: Component, V: Textual>(m: NodeMap<K, V>) -> StoreView<K::V, V::V>
    decreases m,
{
    entries_view(m.entries@)
}

/// The model of a store.
pub closed spec fn db_view<K: Component, V: Textual>(db: Database<K, V>) -> StoreView<K::V, V::V>
    decreases db,
{
    map_view(db.map)
}

impl<K: Component, V: Textual> View for NodeMap<K, V> {
    type V = StoreView<K::V, V::V>;

    open spec fn view(&self) -> StoreView<K::V, V::V> {
        map_view(*self)
    }
}

impl<K: Component, V: Textual> View for Database<K, V> {
    type V = StoreView<K::V, V::V>;

    open spec fn view(&self) -> StoreView<K::V, V::V> {
        db_view(*self)
    }
}

/// The pairs of a key and a value reference, as the model has them.
pub open spec fn pairs_view<K: Component, V: Textual>(ps: Seq<(Key<K>, &V)>) -> Pairs<K::V, V::V> {
    ps.map_values(|p: (Key<K>, &V)| (p.0@, p.1@))
}

/// The model of a list of entries, entry by entry.
proof fn lemma_entries_view<K: Component, V: Textual>(es: Seq<(K, NodeType<K, V>)>)
    ensures
        entries_view(es).len() == es.len(),
        forall|i: int| 0 <= i < es.len() ==> #[trigger] entries_view(es)[i] == (es[i].0@, es[i].1@),
{
}

/// The place of `c` among sorted entries, and whether an entry for it stands there.
fn find<K: Component, V: Textual>(entries: &Vec<(K, NodeType<K, V>)>, c: &K) -> (r: (usize, bool))
    requires
        sorted::<K, V::V>(entries_view(entries@)),
    ensures
        r.0 == rank::<K, V::V>(entries_view(entries@), c@),
        r.1 == holds::<K, V::V>(entries_view(entries@), c@),
        r.0 <= entries.len(),
        r.1 ==> r.0 < entries.len(),
{
    let ghost s = entries_view(entries@);
    let mut i: usize = 0;
    while i < entries.len()
        invariant
            0 <= i <= entries.len(),
            s == entries_view(entries@),
            forall|j: int| 0 <= j < i ==> K::before(#[trigger] s[j].0, c@),
        ensures
            0 <= i <= entries.len(),
            forall|j: int| 0 <= j < i ==> K::before(#[trigger] s[j].0, c@),
            i < entries.len() ==> !K::before(s[i as int].0, c@),
        decreases entries.len() - i,
    {
        if !entries[i].0.precedes(c) {
            break;
        }
        i += 1;
    }
    proof {
        lemma_rank_is::<K, V::V>(s, c@, i as int);
    }
    let found = i < entries.len() && entries[i].0.same(c);
    (i, found)
}

impl<K: Component, V: Textual> NodeMap<K, V> {
    /// The entries stand in the strict order of their components, here and in every
    /// nested store.
    #[verifier::type_invariant]
    pub open spec fn well_formed(&self) -> bool {
        wf::<K, V::V>(self@)
    }

    /// A map without entries.
    pub fn new() -> (r: Self)
        ensures
            r@ == Seq::<(K::V, NodeView<K::V, V::V>)>::empty(),
    {
        let entries: Vec<(K, NodeType<K, V>)> = Vec::new();
        proof {
            assert(entries_view(entries@) =~= Seq::empty());
        }
        NodeMap { entries }
    }

    /// The number of entries.
    pub fn len(&self) -> (r: usize)
        ensures
            r == self@.len(),
    {
        self.entries.len()
    }

    /// Whether the map has no entry.
    pub fn is_empty(&self) -> (r: bool)
        ensures
            r == (self@.len() == 0),
    {
        self.entries.len() == 0
    }

    /// The node under the one component of `key`; `None` where the map has no entry for
    /// it, or where the key has more components than one.
    pub fn get(&self, key: &Key<K>) -> (r: Option<&NodeType<K, V>>)
        ensures
            match r {
                Some(n) => key@.len() == 1 && entry::<K, V::V>(self@, key@[0]) == Some(n@),
                None => key@.len() > 1 || entry::<K, V::V>(self@, key@[0]) is None,
            },
    {
        proof {
            use_type_invariant(self);
        }
        if key.size() != 1 {
            return None;
        }
        let (i, found) = find(&self.entries, key.part(0));
        if found {
            Some(&self.entries[i].1)
        } else {
            None
        }
    }
}

impl<K: Component, V: Textual> Database<K, V> {
    /// The divider of the store's text form.
    pub closed spec fn divider_of(&self) -> char {
        self.divider
    }

    /// An empty store, with `.` as divider.
    pub fn new() -> (r: Database<K, V>)
        ensures
            r@ == Seq::<(K::V, NodeView<K::V, V::V>)>::empty(),
            r.divider_of() == '.',
    {
        Database { map: NodeMap::new(), divider: '.' }
    }

    /// Every store is well formed: its entries stand in the strict order of their
    /// components, and so do those of every nested store.
    pub fn well_formed(&self)
        ensures
            wf::<K, V::V>(self@),
    {
        proof {
            use_type_invariant(&self.map);
        }
    }

    /// Whether the store has no entry at its first level.
    pub fn is_empty(&self) -> (r: bool)
        ensures
            r == (self@.len() == 0),
    {
        self.map.is_empty()
    }

    /// The entries of the first level, which are the field `map`.
    pub fn entries(&self) -> (r: &NodeMap<K, V>)
        ensures
            r@ == self@,
    {
        &self.map
    }

    /// The divider of the store's text form.
    pub fn divider(&self) -> (r: char)
        ensures
            r == self.divider_of(),
    {
        self.divider
    }

    /// Sets the divider of the store's text form.
    pub fn set_divider(&mut self, divider: char)
        ensures
            final(self)@ == old(self)@,
            final(self).divider_of() == divider,
    {
        self.divider = divider;
    }

    /// Inserts `value` at `key`.
    ///
    /// At the last component a value is created or replaced; a nested store there gives
    /// `InsertValueToDirectory`. On the way down a missing component gets a new nested
    /// store; a value there gives `MultiKeyExtendValueKey`. On an error the store is as
    /// before.
    pub fn insert(&mut self, key: Key<K>, value: V) -> (r: Result<(), DBError>)
        ensures
            wf::<K, V::V>(final(self)@),
            final(self).divider_of() == old(self).divider_of(),
            match r {
                Ok(_) => inserted::<K, V::V>(old(self)@, key@, value@) == Ok::<_, DBError>(final(self)@),
                Err(e) => inserted::<K, V::V>(old(self)@, key@, value@) == Err::<StoreView<K::V, V::V>, _>(e)
                    && final(self)@ == old(self)@,
            },
    {
        proof {
            use_type_invariant(&key);
            key.lemma_has_component();
            assert(key@.skip(0) =~= key@);
        }
        self.insert_at(&key, 0, value)
    }

    fn insert_at(&mut self, key: &Key<K>, d: usize, value: V) -> (r: Result<(), DBError>)
        requires
            d < key@.len(),
        ensures
            wf::<K, V::V>(final(self)@),
            final(self).divider_of() == old(self).divider_of(),
            match r {
                Ok(_) => inserted::<K, V::V>(old(self)@, key@.skip(d as int), value@) == Ok::<_, DBError>(
                    final(self)@,
                ),
                Err(e) => inserted::<K, V::V>(old(self)@, key@.skip(d as int), value@) == Err::<
                    StoreView<K::V, V::V>,
                    _,
                >(e) && final(self)@ == old(self)@,
            },
        decreases key@.len() - d,
    {
        let c = key.part(d);
        let n = key.size();
        proof {
            use_type_invariant(&self.map);
        }
        let ghost s0 = self@;
        let ghost path = key@.skip(d as int);
        let mut entries: Vec<(K, NodeType<K, V>)> = Vec::new();
        proof {
            assert(entries_view(entries@) =~= Seq::empty());
        }
        std::mem::swap(&mut entries, &mut self.map.entries);
        let (i, found) = find(&entries, c);
        proof {
            lemma_entries_view(entries@);
            assert(path[0] == c@);
            assert(path.drop_first() =~= key@.skip(d + 1));
        }
        let r = if d + 1 == n {
            if found {
                if entries[i].1.is_parent() {
                    Err(DBError::InsertValueToDirectory)
                } else {
                    entries[i].1 = NodeType::Value(value);
                    proof {
                        lemma_entries_view(entries@);
                        assert(entries_view(entries@) =~= put::<K, V::V>(s0, c@, NodeView::Value(value@)));
                        lemma_put_wf::<K, V::V>(s0, c@, NodeView::Value(value@));
                    }
                    Ok(())
                }
            } else {
                entries.insert(i, (c.duplicate(), NodeType::Value(value)));
                proof {
                    lemma_entries_view(entries@);
                    assert(entries_view(entries@) =~= put::<K, V::V>(s0, c@, NodeView::Value(value@)));
                    lemma_put_wf::<K, V::V>(s0, c@, NodeView::Value(value@));
                }
                Ok(())
            }
        } else {
            if found && entries[i].1.is_parent() {
                match &mut entries[i].1 {
                    NodeType::Parent(db) => {
                        let r = db.insert_at(key, d + 1, value);
                        proof {
                            lemma_entries_view(entries@);
                            let sub2 = entries@[i as int].1@->Subtree_0;
                            assert(entries_view(entries@) =~= s0.update(i as int, (c@, NodeView::Subtree(sub2))));
                            if r is Ok {
                                lemma_put_wf::<K, V::V>(s0, c@, NodeView::Subtree(sub2));
                            } else {
                                assert(entries_view(entries@) =~= s0);
                            }
                        }
                        r
                    },
                    NodeType::Value(_) => {
                        assert(false);
                        Err(DBError::MultiKeyExtendValueKey)
                    },
                }
            } else if found {
                Err(DBError::MultiKeyExtendValueKey)
            } else {
                let mut parent = Database::new();
                let r = parent.insert_at(key, d + 1, value);
                match r {
                    Ok(_) => {
                        let ghost sub2 = parent@;
                        entries.insert(i, (c.duplicate(), NodeType::Parent(parent)));
                        proof {
                            lemma_entries_view(entries@);
                            assert(entries_view(entries@) =~= put::<K, V::V>(s0, c@, NodeView::Subtree(sub2)));
                            lemma_put_wf::<K, V::V>(s0, c@, NodeView::Subtree(sub2));
                        }
                        Ok(())
                    },
                    Err(e) => Err(e),
                }
            }
        };
        self.map.entries = entries;
        r
    }

    /// The node that the components of `key` from position `d` on lead to.
    fn node_ref(&self, key: &Key<K>, d: usize) -> (r: Option<&NodeType<K, V>>)
        requires
            d < key@.len(),
        ensures
            match r {
                Some(n) => node_at::<K, V::V>(self@, key@.skip(d as int)) == Some(n@),
                None => node_at::<K, V::V>(self@, key@.skip(d as int)) is None,
            },
        decreases key@.len() - d,
    {
        let c = key.part(d);
        let n = key.size();
        proof {
            use_type_invariant(&self.map);
        }
        let (i, found) = find(&self.map.entries, c);
        proof {
            lemma_entries_view(self.map.entries@);
            assert(key@.skip(d as int)[0] == c@);
            assert(key@.skip(d as int).drop_first() =~= key@.skip(d + 1));
        }
        if !found {
            None
        } else if d + 1 == n {
            Some(&self.map.entries[i].1)
        } else {
            match &self.map.entries[i].1 {
                NodeType::Parent(db) => db.node_ref(key, d + 1),
                NodeType::Value(_) => None,
            }
        }
    }

    /// The value at `key`: `None` where a component is missing, where a value stands
    /// before the key ends, or where the key leads to a nested store.
    pub fn get(&self, key: &Key<K>) -> (r: Option<&V>)
        ensures
            match r {
                Some(v) => lookup::<K, V::V>(self@, key@) == Some(v@),
                None => lookup::<K, V::V>(self@, key@) is None,
            },
    {
        proof {
            use_type_invariant(key);
            key.lemma_has_component();
            assert(key@.skip(0) =~= key@);
        }
        match self.node_ref(key, 0) {
            Some(NodeType::Value(value)) => Some(value),
            _ => None,
        }
    }

    /// Removes the value at `key` and returns it. Where the key leads to no value the
    /// store stays as it is. A nested store that becomes empty stays.
    pub fn remove(&mut self, key: &Key<K>) -> (r: Option<V>)
        ensures
            wf::<K, V::V>(final(self)@),
            final(self).divider_of() == old(self).divider_of(),
            final(self)@ == removed::<K, V::V>(old(self)@, key@).0,
            match r {
                Some(v) => removed::<K, V::V>(old(self)@, key@).1 == Some(v@),
                None => removed::<K, V::V>(old(self)@, key@).1 is None,
            },
    {
        proof {
            use_type_invariant(key);
            key.lemma_has_component();
            assert(key@.skip(0) =~= key@);
        }
        self.remove_at(key, 0)
    }

    fn remove_at(&mut self, key: &Key<K>, d: usize) -> (r: Option<V>)
        requires
            d < key@.len(),
        ensures
            wf::<K, V::V>(final(self)@),
            final(self).divider_of() == old(self).divider_of(),
            final(self)@ == removed::<K, V::V>(old(self)@, key@.skip(d as int)).0,
            match r {
                Some(v) => removed::<K, V::V>(old(self)@, key@.skip(d as int)).1 == Some(v@),
                None => removed::<K, V::V>(old(self)@, key@.skip(d as int)).1 is None,
            },
        decreases key@.len() - d,
    {
        let c = key.part(d);
        let n = key.size();
        proof {
            use_type_invariant(&self.map);
        }
        let ghost s0 = self@;
        let ghost path = key@.skip(d as int);
        let mut entries: Vec<(K, NodeType<K, V>)> = Vec::new();
        proof {
            assert(entries_view(entries@) =~= Seq::empty());
        }
        std::mem::swap(&mut entries, &mut self.map.entries);
        let (i, found) = find(&entries, c);
        proof {
            lemma_entries_view(entries@);
            assert(path[0] == c@);
            assert(path.drop_first() =~= key@.skip(d + 1));
        }
        let r = if !found {
            None
        } else if d + 1 == n {
            if entries[i].1.is_value() {
                let node = entries.remove(i);
                proof {
                    lemma_entries_view(entries@);
                    assert(entries_view(entries@) =~= cut::<K, V::V>(s0, c@));
                    lemma_cut_wf::<K, V::V>(s0, c@);
                }
                node.1.get_value()
            } else {
                None
            }
        } else if entries[i].1.is_parent() {
            match &mut entries[i].1 {
                NodeType::Parent(db) => {
                    let r = db.remove_at(key, d + 1);
                    proof {
                        lemma_entries_view(entries@);
                        let sub2 = entries@[i as int].1@->Subtree_0;
                        assert(entries_view(entries@) =~= put::<K, V::V>(s0, c@, NodeView::Subtree(sub2)));
                        lemma_put_wf::<K, V::V>(s0, c@, NodeView::Subtree(sub2));
                    }
                    r
                },
                NodeType::Value(_) => {
                    assert(false);
                    None
                },
            }
        } else {
            None
        };
        self.map.entries = entries;
        r
    }

    /// The pairs that `key` stands for: the one pair of the value at `key`; or, where
    /// `key` leads to a nested store, every value of it with its full key, in the order
    /// of the nested store; or nothing, where `key` leads nowhere.
    pub fn get_values(&self, key: &Key<K>) -> (r: Vec<(Key<K>, &V)>)
        ensures
            pairs_view(r@) == values_at::<K, V::V>(self@, key@),
    {
        proof {
            use_type_invariant(key);
            key.lemma_has_component();
            assert(key@.skip(0) =~= key@);
        }
        let mut result: Vec<(Key<K>, &V)> = Vec::new();
        match self.node_ref(key, 0) {
            None => {
                proof {
                    assert(pairs_view(result@) =~= Seq::empty());
                }
            },
            Some(NodeType::Value(value)) => {
                result.push((key.clone(), value));
                proof {
                    assert(pairs_view(result@) =~= seq![(key@, value@)]);
                }
            },
            Some(NodeType::Parent(parent)) => {
                let temp_keys = parent.generate_key_value_pairs();
                let ghost flat = flatten(parent@);
                let mut j: usize = 0;
                proof {
                    assert(pairs_view(result@) =~= under(key@, flat.take(0)));
                }
                while j < temp_keys.len()
                    invariant
                        j <= temp_keys.len(),
                        pairs_view(temp_keys@) == flat,
                        pairs_view(result@) == under(key@, flat.take(j as int)),
                    decreases temp_keys.len() - j,
                {
                    let ghost before = pairs_view(result@);
                    let mut key_clone = key.clone();
                    key_clone.add(&temp_keys[j].0);
                    result.push((key_clone, temp_keys[j].1));
                    proof {
                        assert(flat[j as int] == (temp_keys@[j as int].0@, temp_keys@[j as int].1@));
                        assert(pairs_view(result@) =~= before.push((key@ + flat[j as int].0, flat[j as int].1)));
                        assert(under(key@, flat.take(j + 1)) =~= under(key@, flat.take(j as int)).push(
                            (key@ + flat[j as int].0, flat[j as int].1),
                        ));
                    }
                    j += 1;
                }
                proof {
                    assert(flat.take(j as int) =~= flat);
                }
            },
        }
        result
    }

    /// Every value of the store with its full key: the entries in the order of their
    /// components, and for a nested store its own pairs, in their order, under the
    /// component of its entry.
    pub fn generate_key_value_pairs(&self) -> (r: Vec<(Key<K>, &V)>)
        ensures
            pairs_view(r@) == flatten(self@),
        decreases self@,
    {
        let mut result: Vec<(Key<K>, &V)> = Vec::new();
        let ghost s = self@;
        let mut i: usize = 0;
        proof {
            lemma_entries_view(self.map.entries@);
            assert(pairs_view(result@) =~= flatten(s.take(0)));
        }
        while i < self.map.entries.len()
            invariant
                i <= self.map.entries.len(),
                s == self@,
                s == entries_view(self.map.entries@),
                s.len() == self.map.entries.len(),
                pairs_view(result@) == flatten(s.take(i as int)),
            decreases self.map.entries.len() - i,
        {
            let ghost before = pairs_view(result@);
            let ghost c = s[i as int].0;
            proof {
                lemma_entries_view(self.map.entries@);
                assert(s.take(i + 1).drop_last() =~= s.take(i as int));
                assert(s.take(i + 1).last() == s[i as int]);
            }
            match &self.map.entries[i].1 {
                NodeType::Value(node_value) => {
                    let key = Key::single(&self.map.entries[i].0);
                    result.push((key, node_value));
                    proof {
                        assert(pairs_view(result@) =~= before + leaves(s[i as int]));
                    }
                },
                NodeType::Parent(parent) => {
                    proof {
                        assert(s[i as int].1 == NodeView::Subtree(parent@));
                        assert(decreases_to!(s => s[i as int]));
                        assert(decreases_to!(s[i as int] => s[i as int].1));
                        assert(decreases_to!(s[i as int].1 => s[i as int].1->Subtree_0));
                        assert(decreases_to!(s => parent@));
                    }
                    let temp_keys = parent.generate_key_value_pairs();
                    let ghost flat = flatten(parent@);
                    let mut j: usize = 0;
                    proof {
                        assert(pairs_view(result@) =~= before + under(seq![c], flat.take(0)));
                    }
                    while j < temp_keys.len()
                        invariant
                            j <= temp_keys.len(),
                            i < self.map.entries.len(),
                            self.map.entries@[i as int].0@ == c,
                            pairs_view(temp_keys@) == flat,
                            pairs_view(result@) == before + under(seq![c], flat.take(j as int)),
                        decreases temp_keys.len() - j,
                    {
                        let ghost so_far = pairs_view(result@);
                        let mut key_clone = Key::single(&self.map.entries[i].0);
                        key_clone.add(&temp_keys[j].0);
                        result.push((key_clone, temp_keys[j].1));
                        proof {
                            assert(flat[j as int] == (temp_keys@[j as int].0@, temp_keys@[j as int].1@));
                            assert(pairs_view(result@) =~= so_far.push((seq![c] + flat[j as int].0, flat[j as int].1)));
                            assert(under(seq![c], flat.take(j + 1)) =~= under(seq![c], flat.take(j as int)).push(
                                (seq![c] + flat[j as int].0, flat[j as int].1),
                            ));
                        }
                        j += 1;
                    }
                    proof {
                        assert(flat.take(j as int) =~= flat);
                        assert(pairs_view(result@) =~= before + leaves(s[i as int]));
                    }
                },
            }
            i += 1;
        }
        proof {
            assert(s.take(i as int) =~= s);
        }
        result
    }
}

impl<K: Component, V: Textual> Default for Database<K, V> {
    fn default() -> (r: Self)
        ensures
            r@ == Seq::<(K::V, NodeView<K::V, V::V>)>::empty(),
            r.divider_of() == '.',
    {
        Database::new()
    }
}

} // verus!
