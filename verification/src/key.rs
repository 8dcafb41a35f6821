//! Keys: non-empty sequences of components.

use vstd::prelude::*;
use vstd::std_specs::cmp::PartialEqSpecImpl;
use crate::component::{order_of, Component, Textual};
use crate::error::KeyError;
use crate::order::{lemma_lex_skip, lex};
use crate::text::{append_text, join, split, split_text, texts};

verus! {

/// The components that the pieces `ps` stand for, where each piece stands for one.
pub open spec fn parsed_parts<K: Textual>(ps: Seq<Seq<char>>) -> Option<Seq<K::V>> {
    if forall|i: int| 0 <= i < ps.len() ==> K::parsed(#[trigger] ps[i]) is Some {
        Some(ps.map_values(|p: Seq<char>| K::parsed(p).unwrap()))
    } else {
        None
    }
}

/// The components of the key that the text `s` stands for: the pieces of `s` between the
/// dividers, each read as a component. A piece that stands for no component is a
/// `ParseError`.
pub open spec fn parsed_key<K: Textual>(s: Seq<char>, d: char) -> Result<Seq<K::V>, KeyError> {
    match parsed_parts::<K>(split(s, d)) {
        Some(cs) => Ok(cs),
        None => Err(KeyError::ParseError),
    }
}

/// The text of a key: the texts of its components with the divider between them.
pub open spec fn key_text<K: Textual>(cs: Seq<K::V>, d: char) -> Seq<char> {
    join(cs.map_values(|c: K::V| K::text(c)), d)
}

/// `a` comes before `b` in the order of keys: the lexicographic order of their components.
pub open spec fn key_before<K: Component>(a: Seq<K::V>, b: Seq<K::V>) -> bool {
    lex(order_of::<K>(), a, b)
}

/// A key: one or more components, and how far a walk over its prefixes has come.
#[derive(Debug)]
pub struct Key<K> {
    multi_key: Vec<K>,
    parent_depth: usize,
}

impl<K: View> View for Key<K> {
    type V = Seq<K::V>;

    closed spec fn view(&self) -> Seq<K::V> {
        self.multi_key@.map_values(|k: K| k@)
    }
}

impl<K> Key<K> {
    /// A key is never empty.
    #[verifier::type_invariant]
    pub closed spec fn is_key(&self) -> bool {
        self.multi_key@.len() > 0
    }

    /// How many prefixes `next` has handed out since it last started over.
    pub closed spec fn depth(&self) -> nat {
        self.parent_depth as nat
    }
}

impl<K: View> Key<K> {
    /// A key has at least one component.
    pub proof fn lemma_has_component(self)
        requires
            self.is_key(),
        ensures
            self@.len() > 0,
    {
    }

    /// The key of the components `multi_key`; `NoKey` where there is none.
    pub fn new_from_vec(multi_key: Vec<K>) -> (r: Result<Key<K>, KeyError>)
        ensures
            match r {
                Ok(key) => multi_key@.len() > 0 && key@ == multi_key@.map_values(|k: K| k@) && key.depth() == 0,
                Err(e) => multi_key@.len() == 0 && e == KeyError::NoKey,
            },
    {
        if multi_key.is_empty() {
            Err(KeyError::NoKey)
        } else {
            Ok(Key { multi_key, parent_depth: 0 })
        }
    }

    /// Whether the key has more than one component.
    pub fn is_multi_key(&self) -> (r: bool)
        ensures
            r == (self@.len() > 1),
    {
        self.multi_key.len() > 1
    }

    fn increment_parent(&mut self)
        requires
            old(self).depth() < old(self)@.len(),
        ensures
            final(self)@ == old(self)@,
            final(self).depth() == old(self).depth() + 1,
    {
        assert(self.parent_depth < self.multi_key.len());
        self.parent_depth += 1;
    }

    /// The number of components, which is at least one.
    pub fn size(&self) -> (r: usize)
        ensures
            r == self@.len(),
            r >= 1,
    {
        proof {
            use_type_invariant(self);
        }
        self.multi_key.len()
    }

    /// The component at `index`.
    pub(crate) fn part(&self, index: usize) -> (r: &K)
        requires
            index < self@.len(),
        ensures
            r@ == self@[index as int],
    {
        &self.multi_key[index]
    }
}

impl<K: Component> Key<K> {
    /// The key that the text `key` stands for, as `new_from_str` reads it.
    pub fn new_from_string(key: String, divider: char) -> (r: Result<Key<K>, KeyError>)
        ensures
            match r {
                Ok(k) => parsed_key::<K>(key@, divider) == Ok::<_, KeyError>(k@) && k.depth() == 0,
                Err(e) => parsed_key::<K>(key@, divider) == Err::<Seq<K::V>, _>(e),
            },
    {
        Key::new_from_str(key.as_str(), divider)
    }

    /// The key that the text `key` stands for: its pieces between the dividers, each read
    /// as a component. The empty text is one empty piece. `ParseError` where a piece
    /// stands for no component.
    pub fn new_from_str(key: &str, divider: char) -> (r: Result<Key<K>, KeyError>)
        ensures
            match r {
                Ok(k) => parsed_key::<K>(key@, divider) == Ok::<_, KeyError>(k@) && k.depth() == 0,
                Err(e) => parsed_key::<K>(key@, divider) == Err::<Seq<K::V>, _>(e),
            },
    {
        let pieces = split_text(key, divider);
        let ghost ps = split(key@, divider);
        let mut vec: Vec<K> = Vec::new();
        let mut i: usize = 0;
        proof {
            crate::text::lemma_split_pieces(key@, divider);
            assert(pieces@.len() == ps.len());
        }
        while i < pieces.len()
            invariant
                i <= pieces.len(),
                ps == split(key@, divider),
                texts(pieces@) == ps,
                vec@.len() == i,
                forall|j: int| 0 <= j < i ==> K::parsed(#[trigger] ps[j]) == Some(vec@[j]@),
            decreases pieces.len() - i,
        {
            assert(texts(pieces@)[i as int] == pieces@[i as int]@);
            match K::from_text(pieces[i].as_str()) {
                Some(parsed) => {
                    vec.push(parsed);
                },
                None => {
                    assert(K::parsed(ps[i as int]) is None);
                    return Err(KeyError::ParseError);
                },
            }
            i += 1;
        }
        proof {
            assert(vec@.map_values(|k: K| k@) =~= ps.map_values(|p: Seq<char>| K::parsed(p).unwrap()));
        }
        Key::new_from_vec(vec)
    }

    /// The text of the key: the texts of its components with `divider` between them.
    pub fn to_string(&self, divider: char) -> (r: String)
        ensures
            r@ == key_text::<K>(self@, divider),
    {
        let mut result = String::new();
        let ghost parts = self@.map_values(|c: K::V| K::text(c));
        let mut i: usize = 0;
        while i < self.multi_key.len()
            invariant
                i <= self.multi_key.len(),
                parts == self@.map_values(|c: K::V| K::text(c)),
                result@ == join(parts.take(i as int), divider),
            decreases self.multi_key.len() - i,
        {
            let ghost head = parts.take(i as int);
            let ghost next = parts.take(i + 1);
            proof {
                assert(next.drop_last() =~= head);
                assert(next.last() == K::text(self.multi_key@[i as int]@));
            }
            if i > 0 {
                result.push(divider);
            }
            let piece = self.multi_key[i].to_text();
            append_text(&mut result, piece.as_str());
            proof {
                if i == 0 {
                    assert(result@ =~= next[0]);
                }
            }
            i += 1;
        }
        proof {
            assert(parts.take(i as int) =~= parts);
        }
        result
    }

    /// The key of the one component `part`.
    pub(crate) fn single(part: &K) -> (r: Key<K>)
        ensures
            r@ == seq![part@],
            r.depth() == 0,
    {
        let mut vec: Vec<K> = Vec::new();
        vec.push(part.duplicate());
        proof {
            assert(vec@.map_values(|k: K| k@) =~= seq![part@]);
        }
        Key { multi_key: vec, parent_depth: 0 }
    }

    /// The key of the first component alone.
    pub fn root(&self) -> (r: Result<Key<K>, KeyError>)
        ensures
            r matches Ok(k) && k@ == seq![self@[0]] && k.depth() == 0,
    {
        proof {
            use_type_invariant(self);
        }
        let mut vec: Vec<K> = Vec::new();
        vec.push(self.multi_key[0].duplicate());
        proof {
            assert(vec@.map_values(|k: K| k@) =~= seq![self@[0]]);
        }
        Key::new_from_vec(vec)
    }

    /// The key of the components after the first; `NoKey` where there is none.
    pub fn remove_root(&self) -> (r: Result<Key<K>, KeyError>)
        ensures
            match r {
                Ok(k) => self@.len() > 1 && k@ == self@.drop_first() && k.depth() == 0,
                Err(e) => self@.len() == 1 && e == KeyError::NoKey,
            },
    {
        proof {
            use_type_invariant(self);
        }
        let mut vec: Vec<K> = Vec::new();
        let mut i: usize = 1;
        while i < self.multi_key.len()
            invariant
                1 <= i <= self.multi_key.len(),
                vec@.map_values(|k: K| k@) == self@.subrange(1, i as int),
            decreases self.multi_key.len() - i,
        {
            let ghost before = vec@.map_values(|k: K| k@);
            vec.push(self.multi_key[i].duplicate());
            proof {
                assert(vec@.map_values(|k: K| k@) =~= before.push(self@[i as int]));
                assert(self@.subrange(1, i + 1) =~= before.push(self@[i as int]));
            }
            i += 1;
        }
        proof {
            assert(self@.subrange(1, i as int) =~= self@.drop_first());
        }
        Key::new_from_vec(vec)
    }

    /// The key of the components before the last; `NoKey` where there is none.
    pub fn parent(&self) -> (r: Result<Key<K>, KeyError>)
        ensures
            match r {
                Ok(k) => self@.len() > 1 && k@ == self@.drop_last() && k.depth() == 0,
                Err(e) => self@.len() == 1 && e == KeyError::NoKey,
            },
    {
        proof {
            use_type_invariant(self);
        }
        let mut vec: Vec<K> = Vec::new();
        let mut i: usize = 0;
        while i < self.multi_key.len() - 1
            invariant
                i <= self.multi_key.len() - 1,
                vec@.map_values(|k: K| k@) == self@.subrange(0, i as int),
            decreases self.multi_key.len() - i,
        {
            let ghost before = vec@.map_values(|k: K| k@);
            vec.push(self.multi_key[i].duplicate());
            proof {
                assert(vec@.map_values(|k: K| k@) =~= before.push(self@[i as int]));
                assert(self@.subrange(0, i + 1) =~= before.push(self@[i as int]));
            }
            i += 1;
        }
        proof {
            assert(self@.subrange(0, i as int) =~= self@.drop_last());
        }
        Key::new_from_vec(vec)
    }

    /// Appends the components of `key`.
    pub fn add(&mut self, key: &Key<K>)
        ensures
            final(self)@ == old(self)@ + key@,
            final(self).depth() == old(self).depth(),
    {
        proof {
            use_type_invariant(&*self);
            use_type_invariant(key);
        }
        let mut parts: Vec<K> = Vec::new();
        parts.push(key.multi_key[0].duplicate());
        std::mem::swap(&mut parts, &mut self.multi_key);
        let mut i: usize = 0;
        while i < key.multi_key.len()
            invariant
                i <= key.multi_key.len(),
                parts@.map_values(|k: K| k@) == old(self)@ + key@.take(i as int),
            decreases key.multi_key.len() - i,
        {
            let ghost before = parts@.map_values(|k: K| k@);
            parts.push(key.multi_key[i].duplicate());
            proof {
                assert(parts@.map_values(|k: K| k@) =~= before.push(key@[i as int]));
                assert(key@.take(i + 1) =~= key@.take(i as int).push(key@[i as int]));
                assert(before.push(key@[i as int]) =~= old(self)@ + key@.take(i + 1));
            }
            i += 1;
        }
        proof {
            assert(key@.take(i as int) =~= key@);
        }
        self.multi_key = parts;
    }

    /// A key with the components of `other`.
    pub fn new_from_key(other: &Key<K>) -> (r: Key<K>)
        ensures
            r@ == other@,
            r.depth() == 0,
    {
        proof {
            use_type_invariant(other);
        }
        let mut parts: Vec<K> = Vec::new();
        let mut i: usize = 0;
        while i < other.multi_key.len()
            invariant
                i <= other.multi_key.len(),
                parts@.map_values(|k: K| k@) == other@.take(i as int),
            decreases other.multi_key.len() - i,
        {
            let ghost before = parts@.map_values(|k: K| k@);
            parts.push(other.multi_key[i].duplicate());
            proof {
                assert(parts@.map_values(|k: K| k@) =~= before.push(other@[i as int]));
                assert(other@.take(i + 1) =~= other@.take(i as int).push(other@[i as int]));
            }
            i += 1;
        }
        proof {
            assert(other@.take(i as int) =~= other@);
        }
        Key { multi_key: parts, parent_depth: 0 }
    }

    /// The key of the component at `index` alone; `None` where the key has no such
    /// component.
    pub fn get_inner_key(&self, index: usize) -> (r: Option<Key<K>>)
        ensures
            match r {
                Some(k) => index < self@.len() && k@ == seq![self@[index as int]] && k.depth() == 0,
                None => index >= self@.len(),
            },
    {
        if index >= self.multi_key.len() {
            None
        } else {
            let mut vec: Vec<K> = Vec::new();
            vec.push(self.multi_key[index].duplicate());
            proof {
                assert(vec@.map_values(|k: K| k@) =~= seq![self@[index as int]]);
            }
            Some(Key { multi_key: vec, parent_depth: 0 })
        }
    }

    /// The key of the first `count` components.
    fn prefix(&self, count: usize) -> (r: Key<K>)
        requires
            1 <= count <= self@.len(),
        ensures
            r@ == self@.take(count as int),
            r.depth() == 0,
    {
        let mut result: Vec<K> = Vec::new();
        let mut i: usize = 0;
        while i < count
            invariant
                i <= count <= self.multi_key.len(),
                result@.map_values(|k: K| k@) == self@.take(i as int),
            decreases count - i,
        {
            let ghost before = result@.map_values(|k: K| k@);
            result.push(self.multi_key[i].duplicate());
            proof {
                assert(result@.map_values(|k: K| k@) =~= before.push(self@[i as int]));
                assert(self@.take(i + 1) =~= before.push(self@[i as int]));
            }
            i += 1;
        }
        Key { multi_key: result, parent_depth: 0 }
    }

    /// The next prefix of the key in a walk from the shortest to the whole key. After the
    /// whole key it gives `None` once and the walk starts over.
    pub fn next(&mut self) -> (r: Option<Key<K>>)
        ensures
            final(self)@ == old(self)@,
            match r {
                Some(k) => {
                    &&& old(self).depth() < old(self)@.len()
                    &&& k@ == old(self)@.take(old(self).depth() as int + 1)
                    &&& k.depth() == 0
                    &&& final(self).depth() == old(self).depth() + 1
                },
                None => old(self).depth() >= old(self)@.len() && final(self).depth() == 0,
            },
    {
        proof {
            use_type_invariant(&*self);
        }
        if self.parent_depth >= self.multi_key.len() {
            self.parent_depth = 0;
            return None;
        }
        let key = self.prefix(self.parent_depth + 1);
        self.increment_parent();
        Some(key)
    }

    /// The prefixes of the key, from the first component alone to the whole key: what a
    /// whole walk with `next` gives, without a walk.
    pub fn prefixes(&self) -> (r: Vec<Key<K>>)
        ensures
            r@.len() == self@.len(),
            forall|i: int| 0 <= i < r@.len() ==> (#[trigger] r@[i])@ == self@.take(i + 1) && r@[i].depth() == 0,
    {
        let mut result: Vec<Key<K>> = Vec::new();
        let mut i: usize = 0;
        while i < self.multi_key.len()
            invariant
                i <= self.multi_key.len(),
                result@.len() == i,
                forall|j: int| 0 <= j < i ==> (#[trigger] result@[j])@ == self@.take(j + 1) && result@[j].depth() == 0,
            decreases self.multi_key.len() - i,
        {
            let key = self.prefix(i + 1);
            result.push(key);
            i += 1;
        }
        result
    }

    /// Whether `self` comes before `other` in the order of keys.
    pub fn precedes(&self, other: &Key<K>) -> (r: bool)
        ensures
            r == key_before::<K>(self@, other@),
    {
        let mut i: usize = 0;
        while i < self.multi_key.len() && i < other.multi_key.len()
            invariant
                i <= self.multi_key.len(),
                i <= other.multi_key.len(),
                self@.take(i as int) == other@.take(i as int),
            decreases self.multi_key.len() - i,
        {
            proof {
                lemma_lex_skip(order_of::<K>(), self@, other@, i as int);
                assert(self@.skip(i as int)[0] == self@[i as int]);
                assert(other@.skip(i as int)[0] == other@[i as int]);
            }
            if !self.multi_key[i].same(&other.multi_key[i]) {
                return self.multi_key[i].precedes(&other.multi_key[i]);
            }
            proof {
                assert(self@.take(i + 1) =~= self@.take(i as int).push(self@[i as int]));
                assert(other@.take(i + 1) =~= other@.take(i as int).push(other@[i as int]));
            }
            i += 1;
        }
        proof {
            lemma_lex_skip(order_of::<K>(), self@, other@, i as int);
        }
        i < other.multi_key.len()
    }
}

impl<K: Component> Clone for Key<K> {
    fn clone(&self) -> (r: Self)
        ensures
            r@ == self@,
            r.depth() == self.depth(),
    {
        let mut key = Key::new_from_key(self);
        proof {
            use_type_invariant(&key);
        }
        key.parent_depth = self.parent_depth;
        key
    }
}

/// Keys are equal where their components are, however far a walk over them has come.
impl<K: Component> PartialEq for Key<K> {
    fn eq(&self, other: &Key<K>) -> (r: bool) {
        if self.multi_key.len() != other.multi_key.len() {
            return false;
        }
        let mut i: usize = 0;
        while i < self.multi_key.len()
            invariant
                i <= self.multi_key.len(),
                self.multi_key.len() == other.multi_key.len(),
                self@.take(i as int) == other@.take(i as int),
            decreases self.multi_key.len() - i,
        {
            if !self.multi_key[i].same(&other.multi_key[i]) {
                assert(self@[i as int] != other@[i as int]);
                return false;
            }
            proof {
                assert(self@.take(i + 1) =~= self@.take(i as int).push(self@[i as int]));
                assert(other@.take(i + 1) =~= other@.take(i as int).push(other@[i as int]));
            }
            i += 1;
        }
        proof {
            assert(self@.take(i as int) =~= self@);
            assert(other@.take(i as int) =~= other@);
        }
        true
    }
}

impl<K: Component> PartialEqSpecImpl for Key<K> {
    open spec fn obeys_eq_spec() -> bool {
        true
    }

    open spec fn eq_spec(&self, other: &Key<K>) -> bool {
        self@ == other@
    }
}

} // verus!
