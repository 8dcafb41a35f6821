use multi_key_db::database::Database;
use multi_key_db::error::{DBError, KeyError};
use multi_key_db::key::Key;
use multi_key_db::node::NodeType;
use std::io::BufRead;

type Result<T> = std::result::Result<T, DBError>;

fn text_key(text: &str) -> Key<String> {
    Key::new_from_str(text, '.').unwrap()
}

fn pairs(db: &Database<String, String>, divider: char) -> Vec<(String, String)> {
    db.generate_key_value_pairs()
        .into_iter()
        .map(|(key, value)| (key.to_string(divider), value.clone()))
        .collect()
}

#[test]
fn database_new_from_file_successful() -> Result<()> {
    let result = Database::<String, String>::read("1.2.3.4.key\tvalue5");

    assert!(result.is_ok());
    let db = result.unwrap();
    assert_eq!(1, db.map.len());

    let one = db.map.get(&Key::new_from_str("1", '.')?).unwrap();
    assert_eq!(&NodeType::Parent(Database::new()), one);
    let db_one = one.get_parent_ref().unwrap();
    assert_eq!(1, db_one.map.len());

    let two = db_one.map.get(&Key::new_from_str("2", '.')?).unwrap();
    assert_eq!(&NodeType::Parent(Database::new()), two);
    let db_two = two.get_parent_ref().unwrap();
    assert_eq!(1, db_two.map.len());

    let three = db_two.map.get(&Key::new_from_str("3", '.')?).unwrap();
    assert_eq!(&NodeType::Parent(Database::new()), three);
    let db_three = three.get_parent_ref().unwrap();
    assert_eq!(1, db_three.map.len());

    let four = db_three.map.get(&Key::new_from_str("4", '.')?).unwrap();
    assert_eq!(&NodeType::Parent(Database::new()), four);
    let db_four = four.get_parent_ref().unwrap();
    assert_eq!(1, db_four.map.len());

    let key = db_four.map.get(&Key::new_from_str("key", '.')?).unwrap();
    assert_eq!(&NodeType::Value("".into()), key);
    let value = key.get_value_ref().unwrap();
    assert_eq!("value5", value);

    Ok(())
}

#[test]
fn database_new_from_file_corrupt_db() {
    let result = Database::<usize, usize>::read("CorruptDB");
    assert!(result.is_err());
    assert_eq!(DBError::CorruptDBFile, result.err().unwrap());
}

#[test]
fn one_value_scenario() {
    let mut db = Database::<String, String>::new();
    db.insert(text_key("work.team.git"), "github.com/example-repo".into())
        .unwrap();
    let flat = db.generate_key_value_pairs();
    assert_eq!(1, flat.len());
    assert_eq!(
        Key::new_from_vec(vec!["work".to_string(), "team".to_string(), "git".to_string()]).unwrap(),
        flat[0].0
    );
    assert_eq!("github.com/example-repo", flat[0].1);
    let text = db.write();
    assert_eq!("work.team.git\tgithub.com/example-repo\n", text);
    let back = Database::<String, String>::read(&text).unwrap();
    assert_eq!(
        Some(&"github.com/example-repo".to_string()),
        back.get(&Key::new_from_str("work.team.git", '.').unwrap())
    );
}

#[test]
fn write_of_empty_store_is_empty() {
    let db = Database::<String, String>::new();
    assert_eq!("", db.write());
}

#[test]
fn write_names_another_divider() {
    let mut db = Database::<String, String>::new();
    db.insert(text_key("a.b"), "1".into()).unwrap();
    db.insert(text_key("c"), "2".into()).unwrap();
    db.set_divider('/');
    assert_eq!('/', db.divider());
    assert_eq!("split:/\na/b\t1\nc\t2\n", db.write());
}

#[test]
fn write_then_read_gives_the_same_pairs() {
    let mut db = Database::<String, String>::new();
    db.insert(text_key("b.z"), "1".into()).unwrap();
    db.insert(text_key("c"), "two words".into()).unwrap();
    db.insert(text_key("a.y.k"), "".into()).unwrap();
    db.insert(text_key("b.a"), "tab\tinside".into()).unwrap();
    db.insert(text_key("a.x"), "5".into()).unwrap();
    let back = Database::<String, String>::read(&db.write()).unwrap();
    assert_eq!(pairs(&db, '.'), pairs(&back, '.'));
    assert_eq!('.', back.divider());
    db.set_divider('|');
    let text = db.write();
    assert!(text.starts_with("split:|\n"));
    let again = Database::<String, String>::read(&text).unwrap();
    assert_eq!('|', again.divider());
    assert_eq!(pairs(&db, '|'), pairs(&again, '|'));
}

#[test]
fn write_then_read_of_numbers() {
    let mut db = Database::<usize, usize>::new();
    db.insert(Key::new_from_vec(vec![10, 2]).unwrap(), 7).unwrap();
    db.insert(Key::new_from_vec(vec![9]).unwrap(), 0).unwrap();
    db.insert(Key::new_from_vec(vec![10, 1]).unwrap(), usize::MAX).unwrap();
    let text = db.write();
    assert_eq!(format!("9\t0\n10.1\t{}\n10.2\t7\n", usize::MAX), text);
    let back = Database::<usize, usize>::read(&text).unwrap();
    assert_eq!(text, back.write());
}

#[test]
fn write_then_read_drops_empty_subtrees() {
    let mut db = Database::<String, String>::new();
    db.insert(text_key("a.b"), "1".into()).unwrap();
    db.insert(text_key("c"), "2".into()).unwrap();
    db.remove(&text_key("a.b"));
    assert_eq!(2, db.map.len());
    let back = Database::<String, String>::read(&db.write()).unwrap();
    assert_eq!(1, back.map.len());
    assert_eq!(pairs(&db, '.'), pairs(&back, '.'));
}

#[test]
fn read_of_empty_text_is_empty() {
    let db = Database::<String, String>::read("").unwrap();
    assert!(db.is_empty());
    assert_eq!('.', db.divider());
}

#[test]
fn read_skips_blank_lines_and_comments() {
    let db = Database::<String, String>::read("\n# a comment\n\na\t1\n#b\t2\n\n").unwrap();
    assert_eq!(vec![("a".to_string(), "1".to_string())], pairs(&db, '.'));
}

#[test]
fn read_takes_lines_in_any_order() {
    let db = Database::<String, String>::read("b\t2\na.c\t3\na.b\t1\n").unwrap();
    assert_eq!(
        vec![
            ("a.b".to_string(), "1".to_string()),
            ("a.c".to_string(), "3".to_string()),
            ("b".to_string(), "2".to_string()),
        ],
        pairs(&db, '.')
    );
}

#[test]
fn read_later_line_overwrites() {
    let db = Database::<String, String>::read("a\t1\na\t2\n").unwrap();
    assert_eq!(vec![("a".to_string(), "2".to_string())], pairs(&db, '.'));
}

#[test]
fn read_takes_carriage_returns_off_line_ends() {
    let db = Database::<String, String>::read("a\t1\r\nb\t2\r\nc\t3\r").unwrap();
    assert_eq!(
        vec![
            ("a".to_string(), "1".to_string()),
            ("b".to_string(), "2".to_string()),
            ("c".to_string(), "3\r".to_string()),
        ],
        pairs(&db, '.')
    );
}

#[test]
fn read_splits_at_the_first_tab() {
    let db = Database::<String, String>::read("a\tb\tc\n\tv\n").unwrap();
    assert_eq!(
        vec![
            ("".to_string(), "v".to_string()),
            ("a".to_string(), "b\tc".to_string()),
        ],
        pairs(&db, '.')
    );
}

#[test]
fn read_split_line_sets_the_divider() {
    let db = Database::<String, String>::read("split:/\na/b\t1\nc.d\t2\n").unwrap();
    assert_eq!('/', db.divider());
    assert_eq!(Some(&"1".to_string()), db.get(&Key::new_from_str("a/b", '/').unwrap()));
    assert_eq!(Some(&"2".to_string()), db.get(&Key::new_from_str("c.d", '/').unwrap()));
    assert_eq!(2, db.map.len());
}

#[test]
fn read_split_line_may_hold_any_character() {
    let db = Database::<String, String>::read("split:→\na→b\t1\n").unwrap();
    assert_eq!('→', db.divider());
    assert_eq!(Some(&"1".to_string()), db.get(&text_key("a.b")));
}

#[test]
fn read_split_line_of_other_length_is_corrupt() {
    assert_eq!(
        Err(DBError::CorruptDBFile),
        Database::<String, String>::read("split:\na\t1\n").map(|_| ())
    );
    assert_eq!(
        Err(DBError::CorruptDBFile),
        Database::<String, String>::read("split:ab\na\t1\n").map(|_| ())
    );
    assert_eq!(
        Err(DBError::CorruptDBFile),
        Database::<String, String>::read("split:a\tb\n").map(|_| ())
    );
}

#[test]
fn read_line_that_holds_split_later_is_a_line_like_others() {
    let db = Database::<String, String>::read("a\tsplit:\nxsplit:\tb\n").unwrap();
    assert_eq!('.', db.divider());
    assert_eq!(
        vec![
            ("a".to_string(), "split:".to_string()),
            ("xsplit:".to_string(), "b".to_string()),
        ],
        pairs(&db, '.')
    );
    assert_eq!(
        Err(DBError::CorruptDBFile),
        Database::<String, String>::read("xsplit:\n").map(|_| ())
    );
}

#[test]
fn write_then_read_of_values_that_look_like_settings() {
    let mut db = Database::<String, String>::new();
    db.insert(text_key("a"), "split:/".into()).unwrap();
    db.insert(text_key("b"), "#".into()).unwrap();
    let back = Database::<String, String>::read(&db.write()).unwrap();
    assert_eq!('.', back.divider());
    assert_eq!(pairs(&db, '.'), pairs(&back, '.'));
}

#[test]
fn write_then_read_fails_for_a_key_that_starts_a_comment() {
    let mut db = Database::<String, String>::new();
    db.insert(text_key("#a"), "1".into()).unwrap();
    let back = Database::<String, String>::read(&db.write()).unwrap();
    assert!(back.is_empty());
}

#[test]
fn read_second_split_line_is_a_line_like_others() {
    assert_eq!(
        Err(DBError::CorruptDBFile),
        Database::<String, String>::read("split:/\nsplit:-\n").map(|_| ())
    );
    let db = Database::<String, String>::read("split:/\nsplit:-\tv\n").unwrap();
    assert_eq!('/', db.divider());
    assert_eq!(vec![("split:-".to_string(), "v".to_string())], pairs(&db, '/'));
}

#[test]
fn read_split_line_may_follow_values() {
    let db = Database::<String, String>::read("a.b\t1\nsplit:/\nc/d\t2\n").unwrap();
    assert_eq!('/', db.divider());
    assert_eq!(Some(&"1".to_string()), db.get(&text_key("a.b")));
    assert_eq!(Some(&"2".to_string()), db.get(&text_key("c.d")));
}

#[test]
fn read_line_without_tab_is_corrupt() {
    assert_eq!(
        Err(DBError::CorruptDBFile),
        Database::<String, String>::read("a\t1\nno tab here\nb\t2\n").map(|_| ())
    );
}

#[test]
fn read_value_that_does_not_parse() {
    let result = Database::<String, usize>::read("a\tnot a number\n");
    assert_eq!(Err(DBError::KeyError(KeyError::ParseError)), result.map(|_| ()));
}

#[test]
fn read_key_that_does_not_parse() {
    let result = Database::<usize, String>::read("1.x\tv\n");
    assert_eq!(Err(DBError::KeyError(KeyError::ParseError)), result.map(|_| ()));
}

#[test]
fn read_value_over_subtree_fails() {
    let result = Database::<String, String>::read("a.b\t1\na\t2\n");
    assert_eq!(Err(DBError::InsertValueToDirectory), result.map(|_| ()));
}

#[test]
fn read_extend_value_fails() {
    let result = Database::<String, String>::read("a\t1\na.b\t2\n");
    assert_eq!(Err(DBError::MultiKeyExtendValueKey), result.map(|_| ()));
}

#[test]
fn read_line_by_line() {
    let mut db = Database::<String, String>::new();
    let mut settings_read = false;
    let line = |text: &str| -> Vec<char> { text.chars().collect() };
    assert_eq!(Ok(()), db.read_line(&mut settings_read, &line("")));
    assert_eq!(Ok(()), db.read_line(&mut settings_read, &line("# split:x")));
    assert!(!settings_read);
    assert_eq!(Ok(()), db.read_line(&mut settings_read, &line("split:-")));
    assert!(settings_read);
    assert_eq!('-', db.divider());
    assert_eq!(Ok(()), db.read_line(&mut settings_read, &line("a-b\tv")));
    assert_eq!(
        Err(DBError::CorruptDBFile),
        db.read_line(&mut settings_read, &line("oops"))
    );
    assert_eq!(Some(&"v".to_string()), db.get(&text_key("a.b")));
}

#[test]
fn rows_of_the_store() {
    let mut db = Database::<String, usize>::new();
    db.insert(text_key("a.b"), 1).unwrap();
    db.insert(text_key("a.c"), 20).unwrap();
    db.insert(text_key("d"), 3).unwrap();
    db.set_divider(':');
    assert_eq!(
        vec![
            ("a:b".to_string(), "1".to_string()),
            ("a:c".to_string(), "20".to_string()),
            ("d".to_string(), "3".to_string()),
        ],
        db.print_rows()
    );
    assert_eq!(
        vec![
            ("a:b".to_string(), "1".to_string()),
            ("a:c".to_string(), "20".to_string()),
        ],
        db.get_values_rows(&text_key("a"))
    );
    assert_eq!(
        vec![("d".to_string(), "3".to_string())],
        db.get_values_rows(&text_key("d"))
    );
    assert!(db.get_values_rows(&text_key("x")).is_empty());
}

#[test]
fn read_takes_lines_as_a_buffered_reader_does() {
    for text in [
        "",
        "\n",
        "\r\n",
        "a\t1",
        "a\t1\n",
        "a\t1\r\n",
        "a\t1\r",
        "a\t1\r\r\n",
        "a\t1\n\nb\t2",
        "a\t1\n\r\nb\t2\n\n",
        "a\t1\r\nb\t2\r\n",
        "a\t\r\nb\t\r",
        "split:/\r\na/b\t1\n",
        "split:\r\n",
        "\r",
        "a\t1\n\r",
    ] {
        let whole = Database::<String, String>::read(text).map(|db| (db.write(), db.divider()));
        let mut db = Database::<String, String>::new();
        let mut settings_read = false;
        let mut by_line = Ok(());
        for line in std::io::Cursor::new(text.as_bytes()).lines() {
            let line: Vec<char> = line.unwrap().chars().collect();
            by_line = db.read_line(&mut settings_read, &line);
            if by_line.is_err() {
                break;
            }
        }
        let by_line = by_line.map(|_| (db.write(), db.divider()));
        assert_eq!(by_line, whole, "{:?}", text);
    }
}
