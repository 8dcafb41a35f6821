use multi_key_db::database::Database;
use multi_key_db::error::DBError;
use multi_key_db::key::Key;
use multi_key_db::session::{
    get_listing, insert_error_text, parse_command, perform, removed_text, Command, Outcome, Reply,
};

fn text_key(text: &str) -> Key<String> {
    Key::new_from_str(text, '.').unwrap()
}

fn parts(reply: &Reply) -> (&str, &str) {
    (reply.output.as_str(), reply.complaint.as_str())
}

#[test]
fn command_of_no_input() {
    assert!(matches!(parse_command(""), Command::Nothing));
}

#[test]
fn command_add() {
    match parse_command("add -k a.b -v some\n") {
        Command::Add { key, value } => {
            assert_eq!("a.b", key);
            assert_eq!("some", value);
        }
        _ => panic!("not an add"),
    }
    match parse_command("add\t -k\t \ta.b\t -v v\r\n\r\n") {
        Command::Add { key, value } => {
            assert_eq!("a.b", key);
            assert_eq!("v", value);
        }
        _ => panic!("not an add"),
    }
    match parse_command("add -k a -v \tv\n") {
        Command::Add { key, value } => {
            assert_eq!("a", key);
            assert_eq!("\tv", value);
        }
        _ => panic!("not an add"),
    }
}

#[test]
fn command_add_usage() {
    for line in [
        "add\n",
        "add -k a\n",
        "add -k a -v\n",
        "add -k a -v b c\n",
        "add -x a -v b\n",
        "add -k a -x b\n",
        "add -k a -v\t b\n",
        "add  -k a -v b\n",
    ] {
        assert!(matches!(parse_command(line), Command::AddUsage), "{:?}", line);
    }
}

#[test]
fn command_get_and_remove() {
    match parse_command("get -k a.b\n") {
        Command::Get { key } => assert_eq!("a.b", key),
        _ => panic!("not a get"),
    }
    match parse_command("remove -k a.b\r\n") {
        Command::Remove { key } => assert_eq!("a.b", key),
        _ => panic!("not a remove"),
    }
    assert!(matches!(parse_command("get\n"), Command::GetUsage));
    assert!(matches!(parse_command("get -k\n"), Command::GetUsage));
    assert!(matches!(parse_command("get -v a\n"), Command::GetUsage));
    assert!(matches!(parse_command("get -k a b\n"), Command::GetUsage));
    assert!(matches!(parse_command("remove\n"), Command::RemoveUsage));
    assert!(matches!(parse_command("remove -v a\n"), Command::RemoveUsage));
}

#[test]
fn command_words() {
    assert!(matches!(parse_command("print\n"), Command::Print));
    assert!(matches!(parse_command("print anything else\n"), Command::Print));
    assert!(matches!(parse_command("exit\n"), Command::Exit));
    assert!(matches!(parse_command("exit"), Command::Exit));
    match parse_command("Exit\n") {
        Command::Unsupported(word) => assert_eq!("Exit", word),
        _ => panic!("not unsupported"),
    }
    match parse_command("\n") {
        Command::Unsupported(word) => assert_eq!("", word),
        _ => panic!("not unsupported"),
    }
    match parse_command("\u{3000}list\u{a0} now\n") {
        Command::Unsupported(word) => assert_eq!("list", word),
        _ => panic!("not unsupported"),
    }
}

#[test]
fn perform_complains() {
    let mut db = Database::<String, String>::new();
    let reply = perform(&mut db, Command::Nothing);
    assert_eq!(("", "No Command Entered\n"), parts(&reply));
    assert!(matches!(reply.outcome, Outcome::Continue));
    let reply = perform(&mut db, Command::AddUsage);
    assert_eq!(("", "Add requires -k <key> -v <value>\n"), parts(&reply));
    let reply = perform(&mut db, Command::GetUsage);
    assert_eq!(("", "Get requires -k <key> \n"), parts(&reply));
    let reply = perform(&mut db, Command::RemoveUsage);
    assert_eq!(("", "Remove requires -k <key> \n"), parts(&reply));
    let reply = perform(&mut db, Command::Unsupported("list".into()));
    assert_eq!(("", "Unsupported command list\n"), parts(&reply));
    assert!(matches!(reply.outcome, Outcome::Continue));
    assert!(db.is_empty());
}

#[test]
fn perform_a_session() {
    let mut db = Database::<String, String>::new();
    let reply = perform(&mut db, parse_command("add -k b.c -v 2\n"));
    assert_eq!(("", ""), parts(&reply));
    assert!(matches!(reply.outcome, Outcome::Continue));
    perform(&mut db, parse_command("add -k a -v 1\n"));
    perform(&mut db, parse_command("add -k b.d -v 3\n"));
    assert_eq!(Some(&"2".to_string()), db.get(&text_key("b.c")));

    let reply = perform(&mut db, parse_command("get -k b\n"));
    assert_eq!(("b.c:\t2\nb.d:\t3\n", ""), parts(&reply));
    let reply = perform(&mut db, parse_command("get -k a\n"));
    assert_eq!(("a:\t1\n", ""), parts(&reply));
    let reply = perform(&mut db, parse_command("get -k x\n"));
    assert_eq!(("", ""), parts(&reply));

    let reply = perform(&mut db, parse_command("print\n"));
    assert_eq!(("a\t1\nb.c\t2\nb.d\t3\n", ""), parts(&reply));

    let reply = perform(&mut db, parse_command("remove -k b.c\n"));
    assert_eq!(("Removed: 2\n", ""), parts(&reply));
    assert!(matches!(reply.outcome, Outcome::Continue));
    let reply = perform(&mut db, parse_command("remove -k b.c\n"));
    assert_eq!(("", ""), parts(&reply));
    assert_eq!(None, db.get(&text_key("b.c")));

    let reply = perform(&mut db, parse_command("exit\n"));
    assert_eq!(("", ""), parts(&reply));
    assert!(matches!(reply.outcome, Outcome::Exit));
}

#[test]
fn perform_failed_insert_ends_the_session() {
    let mut db = Database::<String, String>::new();
    perform(&mut db, parse_command("add -k a.b -v 1\n"));
    let reply = perform(&mut db, parse_command("add -k a -v 2\n"));
    assert_eq!(
        (
            "Insert Error: Trying to insert value, into a Key that's a directory\n",
            ""
        ),
        parts(&reply)
    );
    assert!(matches!(
        reply.outcome,
        Outcome::Fail(DBError::InsertValueToDirectory)
    ));
    let reply = perform(&mut db, parse_command("add -k a.b.c -v 2\n"));
    assert_eq!(
        (
            "Insert Error: Trying to insert MultiKey trying to extend Key that has a value.\n",
            ""
        ),
        parts(&reply)
    );
    assert!(matches!(
        reply.outcome,
        Outcome::Fail(DBError::MultiKeyExtendValueKey)
    ));
    assert_eq!(Some(&"1".to_string()), db.get(&text_key("a.b")));
}

#[test]
fn listing_of_values() {
    let mut db = Database::<String, String>::new();
    db.insert(text_key("a.b"), "1".into()).unwrap();
    db.insert(text_key("a.c"), "".into()).unwrap();
    assert_eq!("a.b:\t1\na.c:\t\n", get_listing(&db, &text_key("a")));
    assert_eq!("a.b:\t1\n", get_listing(&db, &text_key("a.b")));
    assert_eq!("", get_listing(&db, &text_key("b")));
}

#[test]
fn command_trims_as_the_standard_library_does() {
    for space in [
        '\t', '\n', '\u{b}', '\u{c}', '\r', '\u{85}', '\u{a0}', '\u{1680}', '\u{2000}', '\u{200a}',
        '\u{2028}', '\u{2029}', '\u{202f}', '\u{205f}', '\u{3000}', '\u{200b}', '\u{180e}', '\u{feff}',
        '_', '\u{0}',
    ] {
        let word = format!("{0}{0}word{0}", space);
        let expected = word.trim().to_string();
        match parse_command(&word) {
            Command::Unsupported(found) => assert_eq!(expected, found, "{:?}", space),
            _ => panic!("not unsupported"),
        }
        let line = format!("get {0}-k{0} {0}key{0}{0}", space);
        match parse_command(&line) {
            Command::Get { key } => {
                assert_eq!("-k", format!("{0}-k{0}", space).trim(), "{:?}", space);
                assert_eq!(format!("{0}key{0}{0}", space).trim(), key, "{:?}", space);
            }
            Command::GetUsage => {
                assert_ne!("-k", format!("{0}-k{0}", space).trim(), "{:?}", space);
            }
            _ => panic!("not a get"),
        }
    }
}

#[test]
fn texts_of_a_session() {
    assert_eq!("Removed: v\n", removed_text("v"));
    assert_eq!("Removed: \n", removed_text(""));
    assert_eq!(
        "Insert Error: Trying to insert value, into a Key that's a directory\n",
        insert_error_text(&DBError::InsertValueToDirectory)
    );
    assert_eq!(
        "Insert Error: Database is corrupted.\n",
        insert_error_text(&DBError::CorruptDBFile)
    );
}
