//! What a type must offer to serve as a stored value or as a part of a key, and how
//! `String` and `usize` offer it.

use vstd::prelude::*;
use crate::decimal::{decimal_text, digits, lemma_decimal_round_trip, parse_decimal, parsed_decimal};
use crate::order::{
    lemma_lex_connected, lemma_lex_irreflexive, lemma_lex_skip, lemma_lex_transitive, lex,
    strict_total,
};
use crate::text::chars_of;

verus! {

/// A type whose values can be written as text and read back from it.
pub trait Textual: View + Sized {
    /// The text that stands for a value.
    spec fn text(v: Self::V) -> Seq<char>;

    /// The value that a text stands for, if it stands for one.
    spec fn parsed(s: Seq<char>) -> Option<Self::V>;

    /// Reading the text of a value gives that value back.
    proof fn lemma_text_parses(v: Self::V)
        ensures
            Self::parsed(Self::text(v)) == Some(v),
    ;

    /// Writes the value as text.
    fn to_text(&self) -> (r: String)
        ensures
            r@ == Self::text(self@),
    ;

    /// Reads a value from text; `None` where the text stands for no value.
    fn from_text(s: &str) -> (r: Option<Self>)
        ensures
            match r {
                Some(x) => Self::parsed(s@) == Some(x@),
                None => Self::parsed(s@) is None,
            },
    ;
}

/// A type whose values can be one part of a key: besides text, a strict total order by
/// which a store keeps its entries, a test for equality, and copies.
pub trait Component: Textual {
    /// `a` comes strictly before `b`.
    spec fn before(a: Self::V, b: Self::V) -> bool;

    /// Nothing comes before itself.
    proof fn lemma_irreflexive(a: Self::V)
        ensures
            !Self::before(a, a),
    ;

    /// What comes before something that comes before a third comes before the third.
    proof fn lemma_transitive(a: Self::V, b: Self::V, c: Self::V)
        requires
            Self::before(a, b),
            Self::before(b, c),
        ensures
            Self::before(a, c),
    ;

    /// Of two different values one comes before the other.
    proof fn lemma_connected(a: Self::V, b: Self::V)
        ensures
            a == b || Self::before(a, b) || Self::before(b, a),
    ;

    /// Whether `self` comes strictly before `other`.
    fn precedes(&self, other: &Self) -> (r: bool)
        ensures
            r == Self::before(self@, other@),
    ;

    /// Whether `self` and `other` are the same component.
    fn same(&self, other: &Self) -> (r: bool)
        ensures
            r == (self@ == other@),
    ;

    /// A copy of the component.
    fn duplicate(&self) -> (r: Self)
        ensures
            r@ == self@,
    ;
}

/// The order of `K` as a relation on the views of its values.
pub open spec fn order_of<K: Component>() -> spec_fn(K::V, K::V) -> bool {
    |a: K::V, b: K::V| K::before(a, b)
}

/// The order of a component type is a strict total order.
pub proof fn lemma_order_strict_total<K: Component>()
    ensures
        strict_total(order_of::<K>()),
{
    let lt = order_of::<K>();
    assert forall|a: K::V| !#[trigger] lt(a, a) by {
        K::lemma_irreflexive(a);
    }
    assert forall|a: K::V, b: K::V, c: K::V| #[trigger] lt(a, b) && #[trigger] lt(b, c) implies lt(a, c) by {
        K::lemma_transitive(a, b, c);
    }
    assert forall|a: K::V, b: K::V| a == b || #[trigger] lt(a, b) || lt(b, a) by {
        K::lemma_connected(a, b);
    }
}

/// The order of characters by code point.
pub open spec fn char_order() -> spec_fn(char, char) -> bool {
    |a: char, b: char| a < b
}

/// Lexicographic order on texts, by code point: the order of `String`.
pub open spec fn chars_before(a: Seq<char>, b: Seq<char>) -> bool {
    lex(char_order(), a, b)
}

proof fn lemma_char_order()
    ensures
        strict_total(char_order()),
{
    let lt = char_order();
    assert forall|a: char, b: char| a == b || #[trigger] lt(a, b) || lt(b, a) by {
    }
}

impl Textual for String {
    open spec fn text(v: Seq<char>) -> Seq<char> {
        v
    }

    open spec fn parsed(s: Seq<char>) -> Option<Seq<char>> {
        Some(s)
    }

    proof fn lemma_text_parses(v: Seq<char>) {
    }

    fn to_text(&self) -> (r: String) {
        self.clone()
    }

    fn from_text(s: &str) -> (r: Option<Self>) {
        Some(s.to_owned())
    }
}

impl Component for String {
    open spec fn before(a: Seq<char>, b: Seq<char>) -> bool {
        chars_before(a, b)
    }

    proof fn lemma_irreflexive(a: Seq<char>) {
        lemma_char_order();
        lemma_lex_irreflexive(char_order(), a);
    }

    proof fn lemma_transitive(a: Seq<char>, b: Seq<char>, c: Seq<char>) {
        lemma_char_order();
        lemma_lex_transitive(char_order(), a, b, c);
    }

    proof fn lemma_connected(a: Seq<char>, b: Seq<char>) {
        lemma_char_order();
        lemma_lex_connected(char_order(), a, b);
    }

    fn precedes(&self, other: &Self) -> (r: bool) {
        let a = chars_of(self.as_str());
        let b = chars_of(other.as_str());
        let mut i: usize = 0;
        while i < a.len() && i < b.len()
            invariant
                i <= a.len(),
                i <= b.len(),
                a@ == self@,
                b@ == other@,
                a@.take(i as int) == b@.take(i as int),
            decreases a.len() - i,
        {
            proof {
                lemma_lex_skip(char_order(), a@, b@, i as int);
                assert(a@.skip(i as int)[0] == a@[i as int]);
                assert(b@.skip(i as int)[0] == b@[i as int]);
            }
            if a[i] != b[i] {
                return a[i] < b[i];
            }
            proof {
                assert(a@.take(i + 1) =~= a@.take(i as int).push(a@[i as int]));
                assert(b@.take(i + 1) =~= b@.take(i as int).push(b@[i as int]));
            }
            i += 1;
        }
        proof {
            lemma_lex_skip(char_order(), a@, b@, i as int);
        }
        i < b.len()
    }

    fn same(&self, other: &Self) -> (r: bool) {
        *self == *other
    }

    fn duplicate(&self) -> (r: Self) {
        self.clone()
    }
}

impl Textual for usize {
    open spec fn text(v: usize) -> Seq<char> {
        digits(v as nat)
    }

    open spec fn parsed(s: Seq<char>) -> Option<usize> {
        match parsed_decimal(s, usize::MAX as nat) {
            Some(n) => Some(n as usize),
            None => None,
        }
    }

    proof fn lemma_text_parses(v: usize) {
        lemma_decimal_round_trip(v as nat, usize::MAX as nat);
    }

    fn to_text(&self) -> (r: String) {
        decimal_text(*self)
    }

    fn from_text(s: &str) -> (r: Option<Self>) {
        parse_decimal(s)
    }
}

impl Component for usize {
    open spec fn before(a: usize, b: usize) -> bool {
        a < b
    }

    proof fn lemma_irreflexive(a: usize) {
    }

    proof fn lemma_transitive(a: usize, b: usize, c: usize) {
    }

    proof fn lemma_connected(a: usize, b: usize) {
    }

    fn precedes(&self, other: &Self) -> (r: bool) {
        *self < *other
    }

    fn same(&self, other: &Self) -> (r: bool) {
        *self == *other
    }

    fn duplicate(&self) -> (r: Self) {
        *self
    }
}

} // verus!
