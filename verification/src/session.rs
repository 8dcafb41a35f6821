//! An interactive session: what a line of input asks for, and what the store answers.

use vstd::prelude::*;
use crate::database::{pairs_view, Database};
use crate::error::{DBError, KeyError};
use crate::format::written;
use crate::key::{key_text, parsed_key, Key};
use crate::laws::lemma_insert_errors;
use crate::model::{inserted, removed, values_at, Pairs, StoreView};
use crate::text::{append_text, chars_of, lemma_split_pieces, split, split_text, string_of, texts};

verus! {

/// Whether a character is white space, as `char::is_whitespace` tells.
pub uninterp spec fn is_white(c: char) -> bool;

/// `char::is_whitespace` tells whether a character is white space. Which characters are
/// is not said here: the answer is only given a name.
pub assume_specification[ char::is_whitespace ](c: char) -> (r: bool)
    ensures
        r == is_white(c),
;

/// A text without the white space that it starts with.
pub open spec fn trim_start(s: Seq<char>) -> Seq<char>
    decreases s.len(),
{
    if s.len() > 0 && is_white(s[0]) {
        trim_start(s.drop_first())
    } else {
        s
    }
}

/// A text without the white space that it ends in.
pub open spec fn trim_end(s: Seq<char>) -> Seq<char>
    decreases s.len(),
{
    if s.len() > 0 && is_white(s.last()) {
        trim_end(s.drop_last())
    } else {
        s
    }
}

/// A text without the white space around it.
pub open spec fn trimmed(s: Seq<char>) -> Seq<char> {
    trim_end(trim_start(s))
}

/// A text without the line feeds and carriage returns that it ends in.
pub open spec fn trim_line_end(s: Seq<char>) -> Seq<char>
    decreases s.len(),
{
    if s.len() > 0 && (s.last() == '\n' || s.last() == '\r') {
        trim_line_end(s.drop_last())
    } else {
        s
    }
}

/// What a line of input asks for.
#[derive(Debug)]
pub enum Command {
    /// The input has ended.
    Nothing,
    /// Insert `value` at the key that `key` stands for.
    Add { key: String, value: String },
    /// `add` without the arguments that it needs.
    AddUsage,
    /// Show the values that the key stands for.
    Get { key: String },
    /// `get` without the arguments that it needs.
    GetUsage,
    /// Show the text of the store.
    Print,
    /// Remove the value at the key.
    Remove { key: String },
    /// `remove` without the arguments that it needs.
    RemoveUsage,
    /// End the session.
    Exit,
    /// A word that is no command.
    Unsupported(String),
}

/// What a line of input asks for, as the model has it.
pub enum CommandView {
    Nothing,
    Add { key: Seq<char>, value: Seq<char> },
    AddUsage,
    Get { key: Seq<char> },
    GetUsage,
    Print,
    Remove { key: Seq<char> },
    RemoveUsage,
    Exit,
    Unsupported(Seq<char>),
}

impl View for Command {
    type V = CommandView;

    open spec fn view(&self) -> CommandView {
        match self {
            Command::Nothing => CommandView::Nothing,
            Command::Add { key, value } => CommandView::Add { key: key@, value: value@ },
            Command::AddUsage => CommandView::AddUsage,
            Command::Get { key } => CommandView::Get { key: key@ },
            Command::GetUsage => CommandView::GetUsage,
            Command::Print => CommandView::Print,
            Command::Remove { key } => CommandView::Remove { key: key@ },
            Command::RemoveUsage => CommandView::RemoveUsage,
            Command::Exit => CommandView::Exit,
            Command::Unsupported(word) => CommandView::Unsupported(word@),
        }
    }
}

/// What the line `buffer` asks for.
///
/// A line without any character is the end of the input. Else the line is split at every
/// space, and its first piece, without the white space around it, is the command.
/// `add` needs five pieces: `-k` as the second, but for white space around it, the key
/// as the third, `-v` as the fourth, and the value as the fifth, without the line ends
/// after it. `get` and `remove` need three pieces: `-k` and the key. The key is taken
/// without the white space around it.
pub open spec fn parsed_command(buffer: Seq<char>) -> CommandView {
    let parts = split(buffer, ' ');
    let word = trimmed(parts[0]);
    if buffer.len() == 0 {
        CommandView::Nothing
    } else if word == "add"@ {
        if parts.len() != 5 || trimmed(parts[1]) != "-k"@ || parts[3] != "-v"@ {
            CommandView::AddUsage
        } else {
            CommandView::Add { key: trimmed(parts[2]), value: trim_line_end(parts[4]) }
        }
    } else if word == "get"@ {
        if parts.len() != 3 || trimmed(parts[1]) != "-k"@ {
            CommandView::GetUsage
        } else {
            CommandView::Get { key: trimmed(parts[2]) }
        }
    } else if word == "print"@ {
        CommandView::Print
    } else if word == "remove"@ {
        if parts.len() != 3 || trimmed(parts[1]) != "-k"@ {
            CommandView::RemoveUsage
        } else {
            CommandView::Remove { key: trimmed(parts[2]) }
        }
    } else if word == "exit"@ {
        CommandView::Exit
    } else {
        CommandView::Unsupported(word)
    }
}

/// How a session goes on after a command.
#[derive(Debug)]
pub enum Outcome {
    /// The session goes on.
    Continue,
    /// The session ends as asked.
    Exit,
    /// The session ends with an error.
    Fail(DBError),
}

/// The answer to a command: what to show, what to complain of, and how to go on.
#[derive(Debug)]
pub struct Reply {
    pub output: String,
    pub complaint: String,
    pub outcome: Outcome,
}

/// The lines that show the pairs `f`: a key, a colon and a tab, and the value.
pub open spec fn listing(f: Pairs<Seq<char>, Seq<char>>) -> Seq<char>
    decreases f.len(),
{
    if f.len() == 0 {
        Seq::<char>::empty()
    } else {
        listing(f.drop_last()) + key_text::<String>(f.last().0, '.') + ":\t"@ + f.last().1.push('\n')
    }
}

/// The store after a command, and what is shown, what is complained of, and how the
/// session goes on.
pub open spec fn answered(
    store: StoreView<Seq<char>, Seq<char>>,
    divider: char,
    command: CommandView,
) -> (StoreView<Seq<char>, Seq<char>>, Seq<char>, Seq<char>, Outcome) {
    let none = Seq::<char>::empty();
    match command {
        CommandView::Nothing => (store, none, "No Command Entered\n"@, Outcome::Continue),
        CommandView::AddUsage => (store, none, "Add requires -k <key> -v <value>\n"@, Outcome::Continue),
        CommandView::GetUsage => (store, none, "Get requires -k <key> \n"@, Outcome::Continue),
        CommandView::RemoveUsage => (store, none, "Remove requires -k <key> \n"@, Outcome::Continue),
        CommandView::Unsupported(word) => (store, none, "Unsupported command "@ + word.push('\n'), Outcome::Continue),
        CommandView::Exit => (store, none, none, Outcome::Exit),
        CommandView::Print => (store, written::<String, String>(store, divider), none, Outcome::Continue),
        CommandView::Add { key, value } => match parsed_key::<String>(key, '.') {
            Err(e) => (store, none, none, Outcome::Fail(DBError::KeyError(e))),
            Ok(path) => match inserted::<String, Seq<char>>(store, path, value) {
                Ok(next) => (next, none, none, Outcome::Continue),
                Err(e) => (store, "Insert Error: "@ + e.message_text(), none, Outcome::Fail(e)),
            },
        },
        CommandView::Get { key } => match parsed_key::<String>(key, '.') {
            Err(e) => (store, none, none, Outcome::Fail(DBError::KeyError(e))),
            Ok(path) => (store, listing(values_at::<String, Seq<char>>(store, path)), none, Outcome::Continue),
        },
        CommandView::Remove { key } => match parsed_key::<String>(key, '.') {
            Err(e) => (store, none, none, Outcome::Fail(DBError::KeyError(e))),
            Ok(path) => {
                let (next, value) = removed::<String, Seq<char>>(store, path);
                match value {
                    Some(v) => (next, "Removed: "@ + v.push('\n'), none, Outcome::Continue),
                    None => (next, none, none, Outcome::Continue),
                }
            },
        },
    }
}

/// The characters of `piece` without the white space around them.
fn trim(piece: &String) -> (r: String)
    ensures
        r@ == trimmed(piece@),
{
    let s = chars_of(piece.as_str());
    let mut i: usize = 0;
    proof {
        assert(s@.skip(0) =~= s@);
    }
    while i < s.len() && s[i].is_whitespace()
        invariant
            i <= s.len(),
            trim_start(s@) == trim_start(s@.skip(i as int)),
        decreases s.len() - i,
    {
        proof {
            assert(s@.skip(i as int)[0] == s@[i as int]);
            assert(s@.skip(i as int).drop_first() =~= s@.skip(i + 1));
        }
        i += 1;
    }
    proof {
        if i < s.len() {
            assert(s@.skip(i as int)[0] == s@[i as int]);
        }
        assert(s@.skip(i as int) =~= s@.subrange(i as int, s.len() as int));
    }
    let mut j: usize = s.len();
    while j > i && s[j - 1].is_whitespace()
        invariant
            i <= j <= s.len(),
            trimmed(s@) == trim_end(s@.subrange(i as int, j as int)),
        decreases j,
    {
        proof {
            assert(s@.subrange(i as int, j as int).last() == s@[j - 1]);
            assert(s@.subrange(i as int, j as int).drop_last() =~= s@.subrange(i as int, j - 1));
        }
        j -= 1;
    }
    proof {
        if j > i {
            assert(s@.subrange(i as int, j as int).last() == s@[j - 1]);
        }
    }
    string_of(&s, i, j)
}

/// The characters of `piece` without the line feeds and carriage returns at its end.
fn trim_ends(piece: &String) -> (r: String)
    ensures
        r@ == trim_line_end(piece@),
{
    let s = chars_of(piece.as_str());
    let mut j: usize = s.len();
    proof {
        assert(s@.subrange(0, j as int) =~= s@);
    }
    while j > 0 && (s[j - 1] == '\n' || s[j - 1] == '\r')
        invariant
            j <= s.len(),
            trim_line_end(s@) == trim_line_end(s@.subrange(0, j as int)),
        decreases j,
    {
        proof {
            assert(s@.subrange(0, j as int).last() == s@[j - 1]);
            assert(s@.subrange(0, j as int).drop_last() =~= s@.subrange(0, j - 1));
        }
        j -= 1;
    }
    proof {
        if j > 0 {
            assert(s@.subrange(0, j as int).last() == s@[j - 1]);
        }
    }
    string_of(&s, 0, j)
}

/// Whether the string is the word.
fn is_word(s: &String, word: &str) -> (r: bool)
    ensures
        r == (s@ == word@),
{
    let w = word.to_owned();
    *s == w
}

/// What the line `buffer` asks for.
pub fn parse_command(buffer: &str) -> (r: Command)
    ensures
        r@ == parsed_command(buffer@),
{
    let parts = split_text(buffer, ' ');
    proof {
        lemma_split_pieces(buffer@, ' ');
        let ps = split(buffer@, ' ');
        assert forall|i: int| 0 <= i < ps.len() implies #[trigger] parts@[i]@ == ps[i] by {
            assert(texts(parts@)[i] == parts@[i]@);
        }
    }
    if buffer.is_empty() {
        return Command::Nothing;
    }
    let word = trim(&parts[0]);
    if is_word(&word, "add") {
        if parts.len() != 5 {
            return Command::AddUsage;
        }
        let flag = trim(&parts[1]);
        if !is_word(&flag, "-k") || !is_word(&parts[3], "-v") {
            return Command::AddUsage;
        }
        Command::Add { key: trim(&parts[2]), value: trim_ends(&parts[4]) }
    } else if is_word(&word, "get") {
        if parts.len() != 3 {
            return Command::GetUsage;
        }
        let flag = trim(&parts[1]);
        if !is_word(&flag, "-k") {
            return Command::GetUsage;
        }
        Command::Get { key: trim(&parts[2]) }
    } else if is_word(&word, "print") {
        Command::Print
    } else if is_word(&word, "remove") {
        if parts.len() != 3 {
            return Command::RemoveUsage;
        }
        let flag = trim(&parts[1]);
        if !is_word(&flag, "-k") {
            return Command::RemoveUsage;
        }
        Command::Remove { key: trim(&parts[2]) }
    } else if is_word(&word, "exit") {
        Command::Exit
    } else {
        Command::Unsupported(word)
    }
}

fn text(s: &str) -> (r: String)
    ensures
        r@ == s@,
{
    s.to_owned()
}

/// The lines that show what `key` stands for in the store: for each pair of
/// `get_values`, the key, a colon and a tab, and the value.
pub fn get_listing(database: &Database<String, String>, key: &Key<String>) -> (r: String)
    ensures
        r@ == listing(values_at::<String, Seq<char>>(database@, key@)),
{
    let pairs = database.get_values(key);
    let ghost f = pairs_view(pairs@);
    let mut out = String::new();
    let mut i: usize = 0;
    proof {
        assert(f.take(0) =~= Seq::empty());
    }
    while i < pairs.len()
        invariant
            i <= pairs.len(),
            f == pairs_view(pairs@),
            out@ == listing(f.take(i as int)),
        decreases pairs.len() - i,
    {
        let ghost before = out@;
        proof {
            assert(f[i as int] == (pairs@[i as int].0@, pairs@[i as int].1@));
            assert(f.take(i + 1).drop_last() =~= f.take(i as int));
            assert(f.take(i + 1).last() == f[i as int]);
        }
        let key_part = pairs[i].0.to_string('.');
        append_text(&mut out, key_part.as_str());
        append_text(&mut out, ":\t");
        append_text(&mut out, pairs[i].1.as_str());
        out.push('\n');
        proof {
            assert(out@ =~= before + key_text::<String>(f[i as int].0, '.') + ":\t"@ + f[i as int].1.push('\n'));
        }
        i += 1;
    }
    proof {
        assert(f.take(i as int) =~= f);
    }
    out
}

/// What is shown when an insertion has failed: `Insert Error: ` and the message of the
/// error.
pub fn insert_error_text(error: &DBError) -> (r: String)
    ensures
        !(error is IOError) ==> r@ == "Insert Error: "@ + error.message_text(),
{
    let mut output = text("Insert Error: ");
    let message = error.message();
    append_text(&mut output, message.as_str());
    output
}

/// What is shown when a value has been removed: `Removed: `, the value, and a line feed.
pub fn removed_text(value: &str) -> (r: String)
    ensures
        r@ == "Removed: "@ + value@.push('\n'),
{
    let mut output = text("Removed: ");
    append_text(&mut output, value);
    output.push('\n');
    proof {
        assert(output@ =~= "Removed: "@ + value@.push('\n'));
    }
    output
}

/// Does what the command asks for, and answers.
///
/// A command that cannot be understood changes nothing and complains. `add` inserts;
/// where that fails it shows the error, and the session fails with it. `get` shows the
/// pairs that the key stands for. `remove` removes, and shows the value that was there.
/// `print` shows the text of the store.
pub fn perform(database: &mut Database<String, String>, command: Command) -> (r: Reply)
    ensures
        final(database).divider_of() == old(database).divider_of(),
        (final(database)@, r.output@, r.complaint@, r.outcome) == answered(
            old(database)@,
            old(database).divider_of(),
            command@,
        ),
{
    match command {
        Command::Nothing => Reply {
            output: String::new(),
            complaint: text("No Command Entered\n"),
            outcome: Outcome::Continue,
        },
        Command::AddUsage => Reply {
            output: String::new(),
            complaint: text("Add requires -k <key> -v <value>\n"),
            outcome: Outcome::Continue,
        },
        Command::GetUsage => Reply {
            output: String::new(),
            complaint: text("Get requires -k <key> \n"),
            outcome: Outcome::Continue,
        },
        Command::RemoveUsage => Reply {
            output: String::new(),
            complaint: text("Remove requires -k <key> \n"),
            outcome: Outcome::Continue,
        },
        Command::Unsupported(word) => {
            let mut complaint = text("Unsupported command ");
            append_text(&mut complaint, word.as_str());
            complaint.push('\n');
            proof {
                assert(complaint@ =~= "Unsupported command "@ + word@.push('\n'));
            }
            Reply { output: String::new(), complaint, outcome: Outcome::Continue }
        },
        Command::Exit => Reply { output: String::new(), complaint: String::new(), outcome: Outcome::Exit },
        Command::Print => Reply {
            output: database.write(),
            complaint: String::new(),
            outcome: Outcome::Continue,
        },
        Command::Add { key, value } => {
            match Key::<String>::new_from_string(key, '.') {
                Err(e) => Reply {
                    output: String::new(),
                    complaint: String::new(),
                    outcome: Outcome::Fail(DBError::KeyError(e)),
                },
                Ok(multi_key) => match database.insert(multi_key, value) {
                    Ok(_) => Reply {
                        output: String::new(),
                        complaint: String::new(),
                        outcome: Outcome::Continue,
                    },
                    Err(e) => {
                        proof {
                            lemma_insert_errors::<String, Seq<char>>(old(database)@, multi_key@, value@);
                        }
                        let output = insert_error_text(&e);
                        Reply { output, complaint: String::new(), outcome: Outcome::Fail(e) }
                    },
                },
            }
        },
        Command::Get { key } => {
            match Key::<String>::new_from_string(key, '.') {
                Err(e) => Reply {
                    output: String::new(),
                    complaint: String::new(),
                    outcome: Outcome::Fail(DBError::KeyError(e)),
                },
                Ok(multi_key) => Reply {
                    output: get_listing(database, &multi_key),
                    complaint: String::new(),
                    outcome: Outcome::Continue,
                },
            }
        },
        Command::Remove { key } => {
            match Key::<String>::new_from_string(key, '.') {
                Err(e) => Reply {
                    output: String::new(),
                    complaint: String::new(),
                    outcome: Outcome::Fail(DBError::KeyError(e)),
                },
                Ok(multi_key) => match database.remove(&multi_key) {
                    Some(value) => Reply {
                        output: removed_text(value.as_str()),
                        complaint: String::new(),
                        outcome: Outcome::Continue,
                    },
                    None => Reply {
                        output: String::new(),
                        complaint: String::new(),
                        outcome: Outcome::Continue,
                    },
                },
            }
        },
    }
}

} // verus!
