//! Characters and strings: conversion, splitting on a character, joining with one.

use vstd::prelude::*;

verus! {

/// `String::push` appends one character to the end of the string.
pub assume_specification[ String::push ](s: &mut String, ch: char)
    ensures
        final(s)@ == old(s)@.push(ch),
;

/// The characters of `s`, in order.
pub fn chars_of(s: &str) -> (r: Vec<char>)
    ensures
        r@ == s@,
{
    let mut out: Vec<char> = Vec::new();
    for c in it: s.chars()
        invariant
            it.seq() == s@,
            out@ == s@.take(it.index()),
    {
        out.push(c);
    }
    out
}

/// The string made of the characters `cs[from..to]`.
pub(crate) fn string_of(cs: &Vec<char>, from: usize, to: usize) -> (r: String)
    requires
        from <= to <= cs.len(),
    ensures
        r@ == cs@.subrange(from as int, to as int),
{
    let mut out = String::new();
    let mut i: usize = from;
    while i < to
        invariant
            from <= i <= to <= cs.len(),
            out@ == cs@.subrange(from as int, i as int),
        decreases to - i,
    {
        out.push(cs[i]);
        i += 1;
    }
    out
}

/// Appends the characters of `s` to `out`.
pub fn append_text(out: &mut String, s: &str)
    ensures
        final(out)@ == old(out)@ + s@,
{
    for c in it: s.chars()
        invariant
            it.seq() == s@,
            out@ == old(out)@ + s@.take(it.index()),
    {
        out.push(c);
    }
}

/// The views of a sequence of strings.
pub open spec fn texts(v: Seq<String>) -> Seq<Seq<char>> {
    v.map_values(|x: String| x@)
}

/// The pieces of `s` between the occurrences of `d`: one more piece than there are
/// occurrences, so at least one, and the empty text gives one empty piece.
pub open spec fn split(s: Seq<char>, d: char) -> Seq<Seq<char>>
    decreases s.len(),
{
    if s.len() == 0 {
        seq![Seq::<char>::empty()]
    } else {
        let head = split(s.drop_last(), d);
        if s.last() == d {
            head.push(Seq::<char>::empty())
        } else {
            head.drop_last().push(head.last().push(s.last()))
        }
    }
}

/// The pieces `ps` with `d` between each two neighbours.
pub open spec fn join(ps: Seq<Seq<char>>, d: char) -> Seq<char>
    decreases ps.len(),
{
    if ps.len() == 0 {
        Seq::<char>::empty()
    } else if ps.len() == 1 {
        ps[0]
    } else {
        join(ps.drop_last(), d).push(d) + ps.last()
    }
}

/// A split has at least one piece, and no piece holds the character split on.
pub proof fn lemma_split_pieces(s: Seq<char>, d: char)
    ensures
        split(s, d).len() >= 1,
        forall|i: int| 0 <= i < split(s, d).len() ==> !(#[trigger] split(s, d)[i]).contains(d),
    decreases s.len(),
{
    if s.len() > 0 {
        lemma_split_pieces(s.drop_last(), d);
        let head = split(s.drop_last(), d);
        if s.last() != d {
            let piece = head.last().push(s.last());
            assert forall|k: int| 0 <= k < piece.len() implies piece[k] != d by {
                if k < head.last().len() {
                    assert(head.last().contains(piece[k]));
                }
            }
        }
    }
}

/// Splitting a text that ends in one more piece without `d`, after a `d`.
pub proof fn lemma_split_append(a: Seq<char>, b: Seq<char>, d: char)
    requires
        !b.contains(d),
    ensures
        split(a.push(d) + b, d) == split(a, d).push(b),
    decreases b.len(),
{
    let whole = a.push(d) + b;
    if b.len() == 0 {
        assert(whole =~= a.push(d));
        assert(whole.drop_last() =~= a);
        assert(b =~= Seq::<char>::empty());
    } else {
        let b0 = b.drop_last();
        assert(whole.drop_last() =~= a.push(d) + b0);
        assert(whole.last() == b.last());
        assert(b.contains(b.last()));
        assert forall|k: int| 0 <= k < b0.len() implies b0[k] != d by {
            assert(b.contains(b[k]));
        }
        lemma_split_append(a, b0, d);
        let head = split(a, d).push(b0);
        assert(head.drop_last() =~= split(a, d));
        assert(head.last().push(b.last()) =~= b);
    }
}

/// A text without `d` is a single piece.
pub proof fn lemma_split_single(b: Seq<char>, d: char)
    requires
        !b.contains(d),
    ensures
        split(b, d) == seq![b],
    decreases b.len(),
{
    if b.len() == 0 {
        assert(b =~= Seq::<char>::empty());
    } else {
        let b0 = b.drop_last();
        assert(b.contains(b.last()));
        assert forall|k: int| 0 <= k < b0.len() implies b0[k] != d by {
            assert(b.contains(b[k]));
        }
        lemma_split_single(b0, d);
        assert(b0.push(b.last()) =~= b);
        assert(seq![b0].last() == b0);
        assert(seq![b0].drop_last() =~= Seq::<Seq<char>>::empty());
        assert(Seq::<Seq<char>>::empty().push(b) =~= seq![b]);
    }
}

/// Splitting undoes joining, where there is at least one piece and no piece holds `d`.
pub proof fn lemma_split_join(ps: Seq<Seq<char>>, d: char)
    requires
        ps.len() >= 1,
        forall|i: int| 0 <= i < ps.len() ==> !(#[trigger] ps[i]).contains(d),
    ensures
        split(join(ps, d), d) == ps,
    decreases ps.len(),
{
    if ps.len() == 1 {
        lemma_split_single(ps[0], d);
        assert(seq![ps[0]] =~= ps);
    } else {
        let head = ps.drop_last();
        assert forall|i: int| 0 <= i < head.len() implies !(#[trigger] head[i]).contains(d) by {
            assert(head[i] == ps[i]);
        }
        lemma_split_join(head, d);
        lemma_split_append(join(head, d), ps.last(), d);
        assert(head.push(ps.last()) =~= ps);
    }
}

/// The pieces of `s` between the occurrences of `d`, as strings.
pub fn split_text(s: &str, d: char) -> (r: Vec<String>)
    ensures
        texts(r@) == split(s@, d),
{
    let cs = chars_of(s);
    let mut out: Vec<String> = Vec::new();
    let mut start: usize = 0;
    let mut i: usize = 0;
    proof {
        assert(cs@.take(0) =~= Seq::<char>::empty());
        assert(texts(out@).push(cs@.subrange(0, 0)) =~= seq![Seq::<char>::empty()]);
    }
    while i < cs.len()
        invariant
            start <= i <= cs.len(),
            texts(out@).push(cs@.subrange(start as int, i as int)) == split(cs@.take(i as int), d),
        decreases cs.len() - i,
    {
        let ghost before = texts(out@);
        let ghost prefix = cs@.take(i as int);
        let ghost next = cs@.take(i + 1);
        proof {
            assert(next.drop_last() =~= prefix);
            assert(next.last() == cs@[i as int]);
            assert(before.push(cs@.subrange(start as int, i as int)).drop_last() =~= before);
        }
        if cs[i] == d {
            let piece = string_of(&cs, start, i);
            out.push(piece);
            start = i + 1;
            proof {
                assert(texts(out@) =~= before.push(piece@));
                assert(cs@.subrange(start as int, i + 1) =~= Seq::<char>::empty());
            }
        } else {
            proof {
                assert(cs@.subrange(start as int, i + 1) =~= cs@.subrange(start as int, i as int).push(
                    cs@[i as int],
                ));
            }
        }
        i += 1;
    }
    let last = string_of(&cs, start, i);
    let ghost before = texts(out@);
    out.push(last);
    proof {
        assert(cs@.take(i as int) =~= cs@);
        assert(texts(out@) =~= before.push(last@));
    }
    out
}

} // verus!
