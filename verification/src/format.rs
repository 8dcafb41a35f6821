//! The text form of a store: an optional line that names the divider, then one line for
//! each value, a key and the value with a tab between them.

use vstd::prelude::*;
use crate::component::{Component, Textual};
use crate::database::{pairs_view, Database};
use crate::error::{DBError, KeyError};
use crate::key::{key_text, parsed_key, Key};
use crate::model::{flatten, inserted, values_at, wf, Pairs, StoreView};
use crate::text::{append_text, chars_of, lemma_split_pieces, split, split_text, string_of, texts};

verus! {

/// The word that opens the line that names the divider.
pub open spec fn split_setting() -> Seq<char> {
    seq!['s', 'p', 'l', 'i', 't', ':']
}

/// The divider that a store has unless its text names another.
pub open spec fn default_divider() -> char {
    '.'
}

/// `l` starts with `pat`.
pub open spec fn begins_with(l: Seq<char>, pat: Seq<char>) -> bool {
    pat.len() <= l.len() && l.take(pat.len() as int) == pat
}

/// The position of the first `c` in `l`, or the length of `l` where it holds none.
pub open spec fn first_index(l: Seq<char>, c: char) -> int
    decreases l.len(),
{
    if l.len() == 0 {
        0
    } else if l[0] == c {
        0
    } else {
        1 + first_index(l.drop_first(), c)
    }
}

/// A line without the carriage return that it may end in.
pub open spec fn strip_cr(l: Seq<char>) -> Seq<char> {
    if l.len() > 0 && l.last() == '\r' {
        l.drop_last()
    } else {
        l
    }
}

/// The lines of a text. A line ends at a line feed, and a carriage return just before the
/// line feed is no part of it. What follows the last line feed is a line if it is not
/// empty.
pub open spec fn lines_of(text: Seq<char>) -> Seq<Seq<char>> {
    let ps = split(text, '\n');
    let body = ps.drop_last().map_values(|l: Seq<char>| strip_cr(l));
    if ps.last().len() == 0 {
        body
    } else {
        body.push(ps.last())
    }
}

/// What reading has come to: the store so far, the divider, and whether a line has named
/// the divider.
pub struct ReadState<C, T> {
    pub store: StoreView<C, T>,
    pub divider: char,
    pub settings_read: bool,
}

/// The state before the first line.
pub open spec fn start_state<C, T>() -> ReadState<C, T> {
    ReadState { store: Seq::empty(), divider: default_divider(), settings_read: false }
}

/// Reading one line.
///
/// An empty line and a line that starts with `#` change nothing. Until a line has named
/// the divider, a line that starts with `split:` must have seven characters, and the
/// seventh becomes the divider; with any other length the text is corrupt. Every other
/// line is a key, a tab, and a value: without a tab the text is corrupt; a value or a key
/// that cannot be read is a `ParseError`; and the value is inserted at the key.
pub open spec fn read_line<K: Component, V: Textual>(st: ReadState<K::V, V::V>, line: Seq<char>) -> Result<ReadState<K::V, V::V>, DBError> {
    if line.len() == 0 || line[0] == '#' {
        Ok(st)
    } else if !st.settings_read && begins_with(line, split_setting()) {
        if line.len() == 7 {
            Ok(ReadState { store: st.store, divider: line.last(), settings_read: true })
        } else {
            Err(DBError::CorruptDBFile)
        }
    } else {
        let tab = first_index(line, '\t');
        if tab == line.len() {
            Err(DBError::CorruptDBFile)
        } else {
            match V::parsed(line.skip(tab + 1)) {
                None => Err(DBError::KeyError(KeyError::ParseError)),
                Some(v) => match parsed_key::<K>(line.take(tab), st.divider) {
                    Err(e) => Err(DBError::KeyError(e)),
                    Ok(path) => match inserted::<K, V::V>(st.store, path, v) {
                        Ok(store) => Ok(ReadState { store, divider: st.divider, settings_read: st.settings_read }),
                        Err(e) => Err(e),
                    },
                },
            }
        }
    }
}

/// Reading lines in their order, up to the first error.
pub open spec fn read_lines<K: Component, V: Textual>(lines: Seq<Seq<char>>) -> Result<ReadState<K::V, V::V>, DBError>
    decreases lines.len(),
{
    if lines.len() == 0 {
        Ok(start_state())
    } else {
        match read_lines::<K, V>(lines.drop_last()) {
            Err(e) => Err(e),
            Ok(st) => read_line::<K, V>(st, lines.last()),
        }
    }
}

/// The store that a text stands for, or why it stands for none.
pub open spec fn read_text<K: Component, V: Textual>(text: Seq<char>) -> Result<ReadState<K::V, V::V>, DBError> {
    read_lines::<K, V>(lines_of(text))
}

/// The line of one value: the text of its key, a tab, the text of the value, a line feed.
pub open spec fn pair_line<K: Component, V: Textual>(p: (Seq<K::V>, V::V), d: char) -> Seq<char> {
    (key_text::<K>(p.0, d).push('\t') + V::text(p.1)).push('\n')
}

/// The lines of the pairs `f`, in their order.
pub open spec fn pair_lines<K: Component, V: Textual>(f: Pairs<K::V, V::V>, d: char) -> Seq<char>
    decreases f.len(),
{
    if f.len() == 0 {
        Seq::<char>::empty()
    } else {
        pair_lines::<K, V>(f.drop_last(), d) + pair_line::<K, V>(f.last(), d)
    }
}

/// The line that names the divider; no line for the default divider.
pub open spec fn header(d: char) -> Seq<char> {
    if d == default_divider() {
        Seq::<char>::empty()
    } else {
        split_setting().push(d).push('\n')
    }
}

/// The text of a store with the divider `d`.
pub open spec fn written<K: Component, V: Textual>(s: StoreView<K::V, V::V>, d: char) -> Seq<char> {
    header(d) + pair_lines::<K, V>(flatten(s), d)
}

/// The key text and the value text of each pair.
pub open spec fn rows_of<K: Component, V: Textual>(f: Pairs<K::V, V::V>, d: char) -> Seq<(Seq<char>, Seq<char>)> {
    f.map_values(|p: (Seq<K::V>, V::V)| (key_text::<K>(p.0, d), V::text(p.1)))
}

/// The views of a list of rows.
pub open spec fn rows_view(rows: Seq<(String, String)>) -> Seq<(Seq<char>, Seq<char>)> {
    rows.map_values(|r: (String, String)| (r.0@, r.1@))
}

/// Once reading has failed, more lines change nothing.
pub proof fn lemma_read_error_stays<K: Component, V: Textual>(lines: Seq<Seq<char>>, k: int)
    requires
        0 <= k <= lines.len(),
        read_lines::<K, V>(lines.take(k)) is Err,
    ensures
        read_lines::<K, V>(lines) == read_lines::<K, V>(lines.take(k)),
    decreases lines.len() - k,
{
    if k < lines.len() {
        assert(lines.take(k + 1).drop_last() =~= lines.take(k));
        lemma_read_error_stays::<K, V>(lines, k + 1);
    } else {
        assert(lines.take(k) =~= lines);
    }
}

/// Whether `l` starts with `pat`.
fn starts_with(l: &Vec<char>, pat: &Vec<char>) -> (r: bool)
    ensures
        r == begins_with(l@, pat@),
{
    if pat.len() > l.len() {
        return false;
    }
    let mut j: usize = 0;
    while j < pat.len()
        invariant
            j <= pat.len() <= l.len(),
            forall|k: int| 0 <= k < j ==> l@[k] == pat@[k],
        decreases pat.len() - j,
    {
        if l[j] != pat[j] {
            proof {
                assert(l@.take(pat.len() as int)[j as int] != pat@[j as int]);
            }
            return false;
        }
        j += 1;
    }
    proof {
        assert(l@.take(pat.len() as int) =~= pat@);
    }
    true
}

/// The position of the first `c` in `l`, or the length of `l`.
fn find_first(l: &Vec<char>, c: char) -> (r: usize)
    ensures
        r == first_index(l@, c),
        r <= l.len(),
{
    let mut i: usize = 0;
    proof {
        assert(l@.skip(0) =~= l@);
    }
    while i < l.len() && l[i] != c
        invariant
            i <= l.len(),
            first_index(l@, c) == i + first_index(l@.skip(i as int), c),
        decreases l.len() - i,
    {
        proof {
            assert(l@.skip(i as int)[0] == l@[i as int]);
            assert(l@.skip(i as int).drop_first() =~= l@.skip(i + 1));
        }
        i += 1;
    }
    proof {
        if i < l.len() {
            assert(l@.skip(i as int)[0] == l@[i as int]);
        }
    }
    i
}

fn setting_chars() -> (r: Vec<char>)
    ensures
        r@ == split_setting(),
{
    let mut v: Vec<char> = Vec::new();
    v.push('s');
    v.push('p');
    v.push('l');
    v.push('i');
    v.push('t');
    v.push(':');
    proof {
        assert(v@ =~= split_setting());
    }
    v
}

impl<K: Component, V: Textual> Database<K, V> {
    /// What the store and the flag amount to as a state of reading.
    pub open spec fn read_state(&self, settings_read: bool) -> ReadState<K::V, V::V> {
        ReadState { store: self@, divider: self.divider_of(), settings_read }
    }

    /// Reads one line into the store.
    pub fn read_line(&mut self, settings_read: &mut bool, line: &Vec<char>) -> (r: Result<(), DBError>)
        ensures
            wf::<K, V::V>(final(self)@),
            match read_line::<K, V>(old(self).read_state(*old(settings_read)), line@) {
                Ok(st) => r is Ok && final(self).read_state(*final(settings_read)) == st,
                Err(e) => r == Err::<(), _>(e),
            },
    {
        self.well_formed();
        if line.len() == 0 || line[0] == '#' {
            return Ok(());
        }
        if !*settings_read {
            let pat = setting_chars();
            if starts_with(line, &pat) {
                if line.len() == 7 {
                    self.set_divider(line[6]);
                    *settings_read = true;
                    return Ok(());
                } else {
                    return Err(DBError::CorruptDBFile);
                }
            }
        }
        let tab = find_first(line, '\t');
        if tab == line.len() {
            return Err(DBError::CorruptDBFile);
        }
        let key_part = string_of(line, 0, tab);
        let value_part = string_of(line, tab + 1, line.len());
        proof {
            assert(line@.subrange(0, tab as int) =~= line@.take(tab as int));
            assert(line@.subrange(tab + 1, line.len() as int) =~= line@.skip(tab + 1));
        }
        match V::from_text(value_part.as_str()) {
            Some(parsed_value) => {
                match Key::<K>::new_from_string(key_part, self.divider()) {
                    Ok(key) => self.insert(key, parsed_value),
                    Err(e) => Err(DBError::KeyError(e)),
                }
            },
            None => Err(DBError::KeyError(KeyError::ParseError)),
        }
    }

    /// The store that the text stands for.
    ///
    /// The text is read line by line, as `read_line` says, from an empty store with the
    /// default divider. The first line that cannot be read ends the reading with its
    /// error.
    pub fn read(text: &str) -> (r: Result<Database<K, V>, DBError>)
        ensures
            match read_text::<K, V>(text@) {
                Ok(st) => r matches Ok(db) && db.read_state(st.settings_read) == st && wf::<K, V::V>(db@),
                Err(e) => r matches Err(e2) && e2 == e,
            },
    {
        let pieces = split_text(text, '\n');
        let ghost ps = split(text@, '\n');
        let ghost body = ps.drop_last().map_values(|l: Seq<char>| strip_cr(l));
        let ghost lines = lines_of(text@);
        proof {
            lemma_split_pieces(text@, '\n');
        }
        let mut database: Database<K, V> = Database::new();
        let mut settings_read = false;
        let last: usize = pieces.len() - 1;
        let mut i: usize = 0;
        proof {
            assert(body.take(0) =~= Seq::<Seq<char>>::empty());
        }
        while i < last
            invariant
                i <= last,
                last + 1 == pieces.len(),
                texts(pieces@) == ps,
                body == ps.drop_last().map_values(|l: Seq<char>| strip_cr(l)),
                lines == lines_of(text@),
                ps == split(text@, '\n'),
                read_lines::<K, V>(body.take(i as int)) == Ok::<_, DBError>(database.read_state(settings_read)),
            decreases last - i,
        {
            let mut line = chars_of(pieces[i].as_str());
            proof {
                assert(texts(pieces@)[i as int] == pieces@[i as int]@);
                assert(body.take(i + 1).drop_last() =~= body.take(i as int));
                assert(body.take(i + 1).last() == strip_cr(ps[i as int]));
            }
            if line.len() > 0 && line[line.len() - 1] == '\r' {
                line.pop();
            }
            assert(line@ =~= strip_cr(ps[i as int]));
            match database.read_line(&mut settings_read, &line) {
                Ok(_) => {},
                Err(e) => {
                    proof {
                        if ps.last().len() == 0 {
                            assert(lines == body);
                        } else {
                            assert(lines.take(body.len() as int) =~= body);
                            assert(lines.take(i + 1) =~= body.take(i + 1));
                        }
                        lemma_read_error_stays::<K, V>(lines, i + 1);
                    }
                    return Err(e);
                },
            }
            i += 1;
        }
        proof {
            assert(body.take(i as int) =~= body);
            assert(texts(pieces@)[last as int] == pieces@[last as int]@);
        }
        let line = chars_of(pieces[last].as_str());
        if line.len() > 0 {
            proof {
                assert(lines.drop_last() =~= body);
            }
            match database.read_line(&mut settings_read, &line) {
                Ok(_) => {},
                Err(e) => {
                    return Err(e);
                },
            }
        }
        database.well_formed();
        Ok(database)
    }

    /// The text of the store: a line that names the divider, unless it is the default,
    /// and the line of each value in the order of `generate_key_value_pairs`.
    pub fn write(&self) -> (r: String)
        ensures
            r@ == written::<K, V>(self@, self.divider_of()),
    {
        let mut contents = String::new();
        let divider = self.divider();
        if divider != '.' {
            append_text(&mut contents, "split:");
            contents.push(divider);
            contents.push('\n');
            proof {
                reveal_strlit("split:");
                assert(contents@ =~= header(divider));
            }
        }
        let key_value_pairs = self.generate_key_value_pairs();
        let ghost f = flatten(self@);
        let mut i: usize = 0;
        proof {
            assert(contents@ =~= header(divider) + pair_lines::<K, V>(f.take(0), divider));
        }
        while i < key_value_pairs.len()
            invariant
                i <= key_value_pairs.len(),
                pairs_view(key_value_pairs@) == f,
                contents@ == header(divider) + pair_lines::<K, V>(f.take(i as int), divider),
            decreases key_value_pairs.len() - i,
        {
            let ghost before = contents@;
            proof {
                assert(f[i as int] == (key_value_pairs@[i as int].0@, key_value_pairs@[i as int].1@));
                assert(f.take(i + 1).drop_last() =~= f.take(i as int));
                assert(f.take(i + 1).last() == f[i as int]);
            }
            let key_part = key_value_pairs[i].0.to_string(divider);
            append_text(&mut contents, key_part.as_str());
            contents.push('\t');
            let value_part = key_value_pairs[i].1.to_text();
            append_text(&mut contents, value_part.as_str());
            contents.push('\n');
            proof {
                assert(contents@ =~= before + pair_line::<K, V>(f[i as int], divider));
                assert(contents@ =~= header(divider) + pair_lines::<K, V>(f.take(i + 1), divider));
            }
            i += 1;
        }
        proof {
            assert(f.take(i as int) =~= f);
        }
        contents
    }

    /// The key text and the value text of each pair, for a table.
    fn rows(&self, pairs: &Vec<(Key<K>, &V)>) -> (r: Vec<(String, String)>)
        ensures
            rows_view(r@) == rows_of::<K, V>(pairs_view(pairs@), self.divider_of()),
    {
        let divider = self.divider();
        let ghost f = pairs_view(pairs@);
        let mut contents: Vec<(String, String)> = Vec::new();
        let mut i: usize = 0;
        proof {
            assert(rows_view(contents@) =~= rows_of::<K, V>(f.take(0), divider));
        }
        while i < pairs.len()
            invariant
                i <= pairs.len(),
                f == pairs_view(pairs@),
                divider == self.divider_of(),
                rows_view(contents@) == rows_of::<K, V>(f.take(i as int), divider),
            decreases pairs.len() - i,
        {
            let ghost before = rows_view(contents@);
            let key_part = pairs[i].0.to_string(divider);
            let value_part = pairs[i].1.to_text();
            contents.push((key_part, value_part));
            proof {
                assert(f[i as int] == (pairs@[i as int].0@, pairs@[i as int].1@));
                assert(rows_view(contents@) =~= before.push((key_part@, value_part@)));
                assert(rows_of::<K, V>(f.take(i + 1), divider) =~= rows_of::<K, V>(f.take(i as int), divider).push(
                    (key_part@, value_part@),
                ));
            }
            i += 1;
        }
        proof {
            assert(f.take(i as int) =~= f);
        }
        contents
    }

    /// The rows of a table of what `key` stands for: the key text and the value text of
    /// each pair of `get_values`.
    pub fn get_values_rows(&self, key: &Key<K>) -> (r: Vec<(String, String)>)
        ensures
            rows_view(r@) == rows_of::<K, V>(values_at::<K, V::V>(self@, key@), self.divider_of()),
    {
        let key_value_pairs = self.get_values(key);
        self.rows(&key_value_pairs)
    }

    /// The rows of a table of the whole store: the key text and the value text of each
    /// pair of `generate_key_value_pairs`.
    pub fn print_rows(&self) -> (r: Vec<(String, String)>)
        ensures
            rows_view(r@) == rows_of::<K, V>(flatten(self@), self.divider_of()),
    {
        let key_value_pairs = self.generate_key_value_pairs();
        self.rows(&key_value_pairs)
    }
}

} // verus!
