//! Strict total orders, and the lexicographic order that one induces on sequences.

use vstd::prelude::*;

verus! {

/// `lt` is a strict total order: nothing is below itself, the relation is transitive, and
/// of two different values one is below the other.
pub open spec fn strict_total<A>(lt: spec_fn(A, A) -> bool) -> bool {
    &&& forall|a: A| !#[trigger] lt(a, a)
    &&& forall|a: A, b: A, c: A| #[trigger] lt(a, b) && #[trigger] lt(b, c) ==> lt(a, c)
    &&& forall|a: A, b: A| a == b || #[trigger] lt(a, b) || lt(b, a)
}

/// `a` comes before `b` in the lexicographic order of `lt`: at the first place where they
/// differ `a` holds the smaller item, or `a` ends there and `b` goes on.
pub open spec fn lex<A>(lt: spec_fn(A, A) -> bool, a: Seq<A>, b: Seq<A>) -> bool
    decreases a.len(),
{
    if b.len() == 0 {
        false
    } else if a.len() == 0 {
        true
    } else if a[0] == b[0] {
        lex(lt, a.drop_first(), b.drop_first())
    } else {
        lt(a[0], b[0])
    }
}

/// No sequence comes before itself.
pub proof fn lemma_lex_irreflexive<A>(lt: spec_fn(A, A) -> bool, a: Seq<A>)
    requires
        strict_total(lt),
    ensures
        !lex(lt, a, a),
    decreases a.len(),
{
    if a.len() > 0 {
        lemma_lex_irreflexive(lt, a.drop_first());
    }
}

/// The lexicographic order is transitive.
pub proof fn lemma_lex_transitive<A>(lt: spec_fn(A, A) -> bool, a: Seq<A>, b: Seq<A>, c: Seq<A>)
    requires
        strict_total(lt),
        lex(lt, a, b),
        lex(lt, b, c),
    ensures
        lex(lt, a, c),
    decreases a.len(),
{
    if a.len() > 0 {
        if a[0] == b[0] && b[0] == c[0] {
            lemma_lex_transitive(lt, a.drop_first(), b.drop_first(), c.drop_first());
        } else if a[0] == b[0] {
            assert(lt(b[0], c[0]));
        } else if b[0] == c[0] {
            assert(lt(a[0], b[0]));
        } else {
            assert(lt(a[0], b[0]) && lt(b[0], c[0]));
            assert(lt(a[0], c[0]));
            if a[0] == c[0] {
                assert(!lt(a[0], a[0]));
            }
        }
    }
}

/// Of two different sequences one comes before the other.
pub proof fn lemma_lex_connected<A>(lt: spec_fn(A, A) -> bool, a: Seq<A>, b: Seq<A>)
    requires
        strict_total(lt),
    ensures
        a == b || lex(lt, a, b) || lex(lt, b, a),
    decreases a.len(),
{
    if a.len() == 0 || b.len() == 0 {
        if a.len() == 0 && b.len() == 0 {
            assert(a =~= b);
        }
    } else if a[0] == b[0] {
        lemma_lex_connected(lt, a.drop_first(), b.drop_first());
        if a.drop_first() == b.drop_first() {
            assert(a =~= seq![a[0]] + a.drop_first());
            assert(b =~= seq![b[0]] + b.drop_first());
        }
    } else {
        assert(lt(a[0], b[0]) || lt(b[0], a[0]));
    }
}

/// Two sequences that agree on their first `k` items compare as what follows those items.
pub proof fn lemma_lex_skip<A>(lt: spec_fn(A, A) -> bool, a: Seq<A>, b: Seq<A>, k: int)
    requires
        0 <= k <= a.len(),
        k <= b.len(),
        a.take(k) == b.take(k),
    ensures
        lex(lt, a, b) == lex(lt, a.skip(k), b.skip(k)),
    decreases k,
{
    if k == 0 {
        assert(a.skip(0) =~= a);
        assert(b.skip(0) =~= b);
    } else {
        assert(a.take(k - 1) =~= a.take(k).take(k - 1));
        assert(b.take(k - 1) =~= b.take(k).take(k - 1));
        lemma_lex_skip(lt, a, b, k - 1);
        let a1 = a.skip(k - 1);
        let b1 = b.skip(k - 1);
        assert(a1[0] == a.take(k)[k - 1]);
        assert(b1[0] == b.take(k)[k - 1]);
        assert(a1.drop_first() =~= a.skip(k));
        assert(b1.drop_first() =~= b.skip(k));
    }
}

} // verus!
