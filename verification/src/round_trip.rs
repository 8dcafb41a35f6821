//! Writing a store and reading the text back gives the pairs of the store.

use vstd::prelude::*;
use crate::component::{Component, Textual};
use crate::error::DBError;
use crate::format::{
    begins_with, default_divider, first_index, header, lines_of, pair_line, pair_lines, read_line,
    read_lines, read_text, split_setting, start_state, strip_cr, written, ReadState,
};
use crate::key::key_text;
use crate::laws::lemma_key_text_round_trip;
use crate::model::{flatten, inserted, wf, Pairs, StoreView};
use crate::rebuild::{
    inserted_all, keys_nonempty, lemma_flatten_keys, lemma_inserted_all_start, lemma_pruned_flatten,
    lemma_rebuild, pruned,
};
use crate::text::{join, lemma_split_join, split};

verus! {

/// The line of one value without the line feed that ends it.
pub open spec fn data_line<K: Component, V: Textual>(p: (Seq<K::V>, V::V), d: char) -> Seq<char> {
    key_text::<K>(p.0, d).push('\t') + V::text(p.1)
}

/// A pair whose line can be read back with the divider `d`.
///
/// No component has the divider in its text. The text of the key has no tab and no line
/// feed and does not start with `#`. The text of the value has no line feed and does not
/// end in a carriage return. And without a line that names the divider, which is so for
/// the default divider, the text of the key does not start with `split:`.
pub open spec fn pair_portable<K: Component, V: Textual>(p: (Seq<K::V>, V::V), d: char) -> bool {
    let kt = key_text::<K>(p.0, d);
    let vt = V::text(p.1);
    &&& forall|j: int| 0 <= j < p.0.len() ==> !K::text(#[trigger] p.0[j]).contains(d)
    &&& !kt.contains('\t')
    &&& !kt.contains('\n')
    &&& kt.len() > 0 ==> kt[0] != '#'
    &&& !vt.contains('\n')
    &&& vt.len() > 0 ==> vt.last() != '\r'
    &&& d == default_divider() ==> !begins_with(kt, split_setting())
}

/// A store whose text can be read back with the divider `d`: the divider is neither a
/// line feed nor a carriage return, and every pair of the store is portable.
pub open spec fn portable<K: Component, V: Textual>(s: StoreView<K::V, V::V>, d: char) -> bool {
    &&& d != '\n'
    &&& d != '\r'
    &&& forall|i: int| 0 <= i < flatten(s).len() ==> pair_portable::<K, V>(#[trigger] flatten(s)[i], d)
}

/// The lines `ls`, each ended by a line feed.
pub open spec fn lines_text(ls: Seq<Seq<char>>) -> Seq<char>
    decreases ls.len(),
{
    if ls.len() == 0 {
        Seq::<char>::empty()
    } else {
        lines_text(ls.drop_last()) + ls.last().push('\n')
    }
}

/// The lines of the pairs `f`, without their line feeds.
pub open spec fn data_lines<K: Component, V: Textual>(f: Pairs<K::V, V::V>, d: char) -> Seq<Seq<char>> {
    f.map_values(|p: (Seq<K::V>, V::V)| data_line::<K, V>(p, d))
}

/// The line that names the divider, without its line feed; none for the default.
pub open spec fn header_lines(d: char) -> Seq<Seq<char>> {
    if d == default_divider() {
        Seq::<Seq<char>>::empty()
    } else {
        seq![split_setting().push(d)]
    }
}

proof fn lemma_join_lines(ls: Seq<Seq<char>>)
    requires
        ls.len() > 0,
    ensures
        join(ls, '\n') == lines_text(ls.drop_last()) + ls.last(),
    decreases ls.len(),
{
    if ls.len() == 1 {
        assert(lines_text(ls.drop_last()) =~= Seq::<char>::empty());
        assert(lines_text(ls.drop_last()) + ls.last() =~= ls[0]);
    } else {
        lemma_join_lines(ls.drop_last());
        let head = ls.drop_last();
        assert(join(ls, '\n') == join(head, '\n').push('\n') + ls.last());
        assert(lines_text(head) == lines_text(head.drop_last()) + head.last().push('\n'));
        assert(join(head, '\n').push('\n') =~= lines_text(head.drop_last()) + head.last().push('\n'));
    }
}

proof fn lemma_lines_text_append(a: Seq<Seq<char>>, b: Seq<Seq<char>>)
    ensures
        lines_text(a + b) == lines_text(a) + lines_text(b),
    decreases b.len(),
{
    if b.len() == 0 {
        assert(a + b =~= a);
        assert(lines_text(a) + lines_text(b) =~= lines_text(a));
    } else {
        assert((a + b).drop_last() =~= a + b.drop_last());
        lemma_lines_text_append(a, b.drop_last());
        assert(lines_text(a + b) =~= lines_text(a) + lines_text(b));
    }
}

proof fn lemma_pair_lines<K: Component, V: Textual>(f: Pairs<K::V, V::V>, d: char)
    ensures
        pair_lines::<K, V>(f, d) == lines_text(data_lines::<K, V>(f, d)),
    decreases f.len(),
{
    if f.len() > 0 {
        lemma_pair_lines::<K, V>(f.drop_last(), d);
        assert(data_lines::<K, V>(f, d).drop_last() =~= data_lines::<K, V>(f.drop_last(), d));
        assert(data_lines::<K, V>(f, d).last() == data_line::<K, V>(f.last(), d));
        assert(pair_line::<K, V>(f.last(), d) =~= data_line::<K, V>(f.last(), d).push('\n'));
    }
}

/// The text of a store is its lines, each ended by a line feed.
proof fn lemma_written_lines<K: Component, V: Textual>(s: StoreView<K::V, V::V>, d: char)
    ensures
        written::<K, V>(s, d) == join(
            (header_lines(d) + data_lines::<K, V>(flatten(s), d)).push(Seq::<char>::empty()),
            '\n',
        ),
{
    let all = header_lines(d) + data_lines::<K, V>(flatten(s), d);
    lemma_pair_lines::<K, V>(flatten(s), d);
    lemma_lines_text_append(header_lines(d), data_lines::<K, V>(flatten(s), d));
    if d == default_divider() {
        assert(lines_text(header_lines(d)) =~= header(d));
    } else {
        let h = header_lines(d);
        assert(h.drop_last() =~= Seq::<Seq<char>>::empty());
        assert(lines_text(h.drop_last()) =~= Seq::<char>::empty());
        assert(lines_text(h) =~= header(d));
    }
    lemma_join_lines(all.push(Seq::<char>::empty()));
    assert(all.push(Seq::<char>::empty()).drop_last() =~= all);
    assert(lines_text(all) + Seq::<char>::empty() =~= lines_text(all));
}

/// The lines of a text made of lines that hold no line feed and end in no carriage return
/// are those lines.
proof fn lemma_lines_of_lines(all: Seq<Seq<char>>)
    requires
        forall|i: int| 0 <= i < all.len() ==> !(#[trigger] all[i]).contains('\n'),
        forall|i: int| 0 <= i < all.len() ==> strip_cr(#[trigger] all[i]) == all[i],
    ensures
        lines_of(join(all.push(Seq::<char>::empty()), '\n')) == all,
{
    let ps = all.push(Seq::<char>::empty());
    assert forall|i: int| 0 <= i < ps.len() implies !(#[trigger] ps[i]).contains('\n') by {
        if i < all.len() {
            assert(ps[i] == all[i]);
        }
    }
    lemma_split_join(ps, '\n');
    assert(ps.drop_last() =~= all);
    assert(all.map_values(|l: Seq<char>| strip_cr(l)) =~= all);
}

/// The first `c` after a text that holds none stands right after that text.
proof fn lemma_first_index_after(kt: Seq<char>, rest: Seq<char>, c: char)
    requires
        !kt.contains(c),
    ensures
        first_index(kt.push(c) + rest, c) == kt.len(),
    decreases kt.len(),
{
    let line = kt.push(c) + rest;
    if kt.len() == 0 {
        assert(line[0] == c);
    } else {
        assert(line[0] == kt[0]);
        assert(kt.contains(kt[0]));
        let kt1 = kt.drop_first();
        assert forall|k: int| 0 <= k < kt1.len() implies kt1[k] != c by {
            assert(kt.contains(kt[k + 1]));
        }
        assert(line.drop_first() =~= kt1.push(c) + rest);
        lemma_first_index_after(kt1, rest, c);
    }
}

/// Reading the line of a portable pair inserts the pair.
proof fn lemma_read_data_line<K: Component, V: Textual>(st: ReadState<K::V, V::V>, p: (Seq<K::V>, V::V))
    requires
        p.0.len() > 0,
        pair_portable::<K, V>(p, st.divider),
        st.settings_read == (st.divider != default_divider()),
        inserted::<K, V::V>(st.store, p.0, p.1) is Ok,
    ensures
        read_line::<K, V>(st, data_line::<K, V>(p, st.divider)) == Ok::<_, DBError>(
            ReadState {
                store: inserted::<K, V::V>(st.store, p.0, p.1)->Ok_0,
                divider: st.divider,
                settings_read: st.settings_read,
            },
        ),
{
    let d = st.divider;
    let kt = key_text::<K>(p.0, d);
    let vt = V::text(p.1);
    let line = data_line::<K, V>(p, d);
    assert(line.len() > 0);
    if kt.len() > 0 {
        assert(line[0] == kt[0]);
    } else {
        assert(line[0] == '\t');
    }
    lemma_first_index_after(kt, vt, '\t');
    if begins_with(line, split_setting()) {
        let pat = split_setting();
        if kt.len() >= pat.len() {
            assert(kt.take(pat.len() as int) =~= line.take(pat.len() as int));
        } else {
            assert(line.take(pat.len() as int)[kt.len() as int] == '\t');
        }
    }
    assert(line.take(kt.len() as int) =~= kt);
    assert(line.skip(kt.len() as int + 1) =~= vt);
    V::lemma_text_parses(p.1);
    lemma_key_text_round_trip::<K>(p.0, d);
}

/// Reading the line that names a divider sets the divider.
proof fn lemma_read_header<K: Component, V: Textual>(d: char)
    ensures
        read_line::<K, V>(start_state(), split_setting().push(d)) == Ok::<_, DBError>(
            ReadState::<K::V, V::V> { store: Seq::empty(), divider: d, settings_read: true },
        ),
{
    let line = split_setting().push(d);
    assert(line.take(split_setting().len() as int) =~= split_setting());
    assert(line[0] == 's');
}

/// Reading the lines of the first `k` pairs of a list that can be inserted into an empty
/// store inserts those pairs.
proof fn lemma_read_data_lines<K: Component, V: Textual>(f: Pairs<K::V, V::V>, d: char, k: int)
    requires
        0 <= k <= f.len(),
        keys_nonempty(f),
        forall|i: int| 0 <= i < f.len() ==> pair_portable::<K, V>(#[trigger] f[i], d),
        inserted_all::<K, V::V>(Seq::empty(), f) is Ok,
    ensures
        inserted_all::<K, V::V>(Seq::empty(), f.take(k)) is Ok,
        read_lines::<K, V>(header_lines(d) + data_lines::<K, V>(f.take(k), d)) == Ok::<_, DBError>(
            ReadState {
                store: inserted_all::<K, V::V>(Seq::empty(), f.take(k))->Ok_0,
                divider: d,
                settings_read: d != default_divider(),
            },
        ),
    decreases k,
{
    lemma_inserted_all_start::<K, V::V>(Seq::empty(), f, k);
    let lines = header_lines(d) + data_lines::<K, V>(f.take(k), d);
    if k == 0 {
        assert(f.take(0) =~= Seq::empty());
        assert(lines =~= header_lines(d));
        if d != default_divider() {
            assert(lines.drop_last() =~= Seq::<Seq<char>>::empty());
            assert(read_lines::<K, V>(lines.drop_last()) == Ok::<_, DBError>(start_state::<K::V, V::V>()));
            lemma_read_header::<K, V>(d);
        }
    } else {
        lemma_read_data_lines::<K, V>(f, d, k - 1);
        let before = f.take(k - 1);
        let p = f[k - 1];
        assert(f.take(k).drop_last() =~= before);
        assert(f.take(k).last() == p);
        assert(lines.drop_last() =~= header_lines(d) + data_lines::<K, V>(before, d));
        assert(lines.last() == data_line::<K, V>(p, d));
        let st = ReadState::<K::V, V::V> {
            store: inserted_all::<K, V::V>(Seq::empty(), before)->Ok_0,
            divider: d,
            settings_read: d != default_divider(),
        };
        assert(inserted_all::<K, V::V>(Seq::empty(), f.take(k)) == inserted::<K, V::V>(st.store, p.0, p.1));
        lemma_read_data_line::<K, V>(st, p);
    }
}

/// The line of a portable pair holds no line feed and ends in no carriage return.
proof fn lemma_data_line_clean<K: Component, V: Textual>(p: (Seq<K::V>, V::V), d: char)
    requires
        pair_portable::<K, V>(p, d),
    ensures
        !data_line::<K, V>(p, d).contains('\n'),
        strip_cr(data_line::<K, V>(p, d)) == data_line::<K, V>(p, d),
{
    let kt = key_text::<K>(p.0, d);
    let vt = V::text(p.1);
    let line = data_line::<K, V>(p, d);
    assert forall|k: int| 0 <= k < line.len() implies line[k] != '\n' by {
        if k < kt.len() {
            assert(kt.contains(kt[k]));
        } else if k > kt.len() {
            assert(vt.contains(vt[k - kt.len() - 1]));
        }
    }
    if vt.len() > 0 {
        assert(line.last() == vt.last());
    } else {
        assert(line.last() == '\t');
    }
}

/// Writing a store and reading the text back gives the pairs of the store, in their
/// order, and the divider: for every well-formed store and every divider with which the
/// store is portable. The store that is read is the store that was written without the
/// nested stores that hold no value.
pub proof fn lemma_write_then_read<K: Component, V: Textual>(s: StoreView<K::V, V::V>, d: char)
    requires
        wf::<K, V::V>(s),
        portable::<K, V>(s, d),
    ensures
        read_text::<K, V>(written::<K, V>(s, d)) matches Ok(st) && st.store == pruned(s) && st.divider == d
            && flatten(st.store) == flatten(s),
{
    let f = flatten(s);
    let all = header_lines(d) + data_lines::<K, V>(f, d);
    lemma_written_lines::<K, V>(s, d);
    assert forall|i: int| 0 <= i < all.len() implies !(#[trigger] all[i]).contains('\n') && strip_cr(all[i])
        == all[i] by {
        if i < header_lines(d).len() {
            let line = split_setting().push(d);
            assert(all[i] == line);
            assert forall|k: int| 0 <= k < line.len() implies line[k] != '\n' by {}
            assert(line.last() == d);
        } else {
            let j = i - header_lines(d).len();
            assert(all[i] == data_line::<K, V>(f[j], d));
            lemma_data_line_clean::<K, V>(f[j], d);
        }
    }
    lemma_lines_of_lines(all);
    lemma_rebuild::<K, V::V>(s);
    lemma_flatten_keys(s);
    lemma_read_data_lines::<K, V>(f, d, f.len() as int);
    assert(f.take(f.len() as int) =~= f);
    lemma_pruned_flatten(s);
}

} // verus!
