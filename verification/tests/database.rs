use multi_key_db::database::Database;
use multi_key_db::error::DBError;
use multi_key_db::key::Key;
use multi_key_db::node::NodeType;

type Result<T> = std::result::Result<T, DBError>;

fn text_key(text: &str) -> Key<String> {
    Key::new_from_str(text, '.').unwrap()
}

fn pairs(db: &Database<String, String>) -> Vec<(String, String)> {
    db.generate_key_value_pairs()
        .into_iter()
        .map(|(key, value)| (key.to_string('.'), value.clone()))
        .collect()
}

#[test]
fn database_default() {
    let db = Database::<usize, usize>::new();
    assert_eq!(0, db.map.len());
}

#[test]
fn database_insert() -> Result<()> {
    let mut db = Database::<usize, String>::new();
    let key = Key::<usize>::new_from_str("1.2.3.4.5", '.')?;

    let result = db.insert(key, "value-string".into());

    assert_eq!((), result.unwrap());

    assert_eq!(1, db.map.len());

    let one = db.map.get(&Key::new_from_str("1", '.')?).unwrap();
    assert_eq!(&NodeType::Parent(Database::new()), one);
    let db_one = one.get_parent_ref().unwrap();
    assert_eq!(1, db_one.map.len());

    let two = db_one.map.get(&Key::new_from_str("2", '.')?).unwrap();
    assert_eq!(&NodeType::Parent(Database::new()), two);
    let db_two = two.get_parent_ref().unwrap();
    assert_eq!(1, db_two.map.len());

    let three = db_two.map.get(&Key::new_from_str("3", '.')?).unwrap();
    assert_eq!(&NodeType::Parent(Database::new()), three);
    let db_three = three.get_parent_ref().unwrap();
    assert_eq!(1, db_three.map.len());

    let four = db_three.map.get(&Key::new_from_str("4", '.')?).unwrap();
    assert_eq!(&NodeType::Parent(Database::new()), four);
    let db_four = four.get_parent_ref().unwrap();
    assert_eq!(1, db_four.map.len());

    let five = db_four.map.get(&Key::new_from_str("5", '.')?).unwrap();
    assert_eq!(&NodeType::Value("".into()), five);
    let value = five.get_value_ref().unwrap();
    assert_eq!("value-string", value);

    Ok(())
}

#[test]
fn database_insert_root_insert_repeat() -> Result<()> {
    let mut db = Database::<usize, String>::new();
    let key = Key::new_from_str("1.2.3.4.5", '.')?;
    let root = Key::new_from_str("1.2.3.4", '.')?;

    let result = db.insert(key, "leaf".into());

    assert_eq!((), result.unwrap());
    assert_eq!(
        "leaf",
        db.get(&Key::new_from_str("1.2.3.4.5", '.')?).unwrap()
    );

    let root_result = db.insert(root, "root".into());

    assert!(root_result.is_err());
    assert_eq!(DBError::InsertValueToDirectory, root_result.err().unwrap());

    Ok(())
}

#[test]
fn database_insert_key_value_key() -> Result<()> {
    let mut db = Database::<usize, String>::new();
    let key = Key::new_from_str("1.2.3.4.5", '.')?;
    let root = Key::new_from_str("1.2.3.4", '.')?;

    let result = db.insert(root, "leaf".into());

    assert_eq!((), result.unwrap());
    assert_eq!("leaf", db.get(&Key::new_from_str("1.2.3.4", '.')?).unwrap());

    let key_result = db.insert(key, "root".into());

    assert!(key_result.is_err());
    assert_eq!(DBError::MultiKeyExtendValueKey, key_result.err().unwrap());

    Ok(())
}

#[test]
fn new_store_is_empty() {
    let db = Database::<String, String>::new();
    assert!(db.is_empty());
    assert_eq!('.', db.divider());
    assert!(db.generate_key_value_pairs().is_empty());
    let other = Database::<String, String>::default();
    assert!(other.is_empty());
    assert_eq!('.', other.divider());
}

#[test]
fn insert_then_get_returns_the_value() {
    let mut db = Database::<String, String>::new();
    db.insert(text_key("a.b.c"), "one".into()).unwrap();
    assert_eq!(Some(&"one".to_string()), db.get(&text_key("a.b.c")));
    assert!(!db.is_empty());
}

#[test]
fn insert_again_overwrites() {
    let mut db = Database::<String, String>::new();
    db.insert(text_key("a.b"), "one".into()).unwrap();
    db.insert(text_key("a.b"), "two".into()).unwrap();
    assert_eq!(Some(&"two".to_string()), db.get(&text_key("a.b")));
    assert_eq!(vec![("a.b".to_string(), "two".to_string())], pairs(&db));
}

#[test]
fn insert_value_over_subtree_fails() {
    let mut db = Database::<String, String>::new();
    db.insert(text_key("a.b"), "one".into()).unwrap();
    let result = db.insert(text_key("a"), "two".into());
    assert_eq!(Err(DBError::InsertValueToDirectory), result);
    assert_eq!(vec![("a.b".to_string(), "one".to_string())], pairs(&db));
}

#[test]
fn extend_value_as_subtree_fails() {
    let mut db = Database::<String, String>::new();
    db.insert(text_key("a"), "one".into()).unwrap();
    let result = db.insert(text_key("a.b"), "two".into());
    assert_eq!(Err(DBError::MultiKeyExtendValueKey), result);
    assert_eq!(vec![("a".to_string(), "one".to_string())], pairs(&db));
}

#[test]
fn failed_insert_deep_in_the_store_changes_nothing() {
    let mut db = Database::<String, String>::new();
    db.insert(text_key("a.b.c"), "one".into()).unwrap();
    db.insert(text_key("a.d"), "two".into()).unwrap();
    assert_eq!(
        Err(DBError::MultiKeyExtendValueKey),
        db.insert(text_key("a.b.c.e"), "three".into())
    );
    assert_eq!(
        Err(DBError::InsertValueToDirectory),
        db.insert(text_key("a.b"), "three".into())
    );
    assert_eq!(
        vec![
            ("a.b.c".to_string(), "one".to_string()),
            ("a.d".to_string(), "two".to_string())
        ],
        pairs(&db)
    );
}

#[test]
fn get_of_missing_key_is_none() {
    let mut db = Database::<String, String>::new();
    db.insert(text_key("a.b"), "one".into()).unwrap();
    assert_eq!(None, db.get(&text_key("x")));
    assert_eq!(None, db.get(&text_key("a.x")));
    assert_eq!(None, db.get(&text_key("x.b")));
}

#[test]
fn get_of_subtree_is_none() {
    let mut db = Database::<String, String>::new();
    db.insert(text_key("a.b.c"), "one".into()).unwrap();
    assert_eq!(None, db.get(&text_key("a")));
    assert_eq!(None, db.get(&text_key("a.b")));
}

#[test]
fn get_below_a_value_is_none() {
    let mut db = Database::<String, String>::new();
    db.insert(text_key("a"), "one".into()).unwrap();
    assert_eq!(None, db.get(&text_key("a.b")));
    assert_eq!(None, db.get(&text_key("a.b.c")));
}

#[test]
fn remove_returns_the_value() {
    let mut db = Database::<String, String>::new();
    db.insert(text_key("a.b"), "one".into()).unwrap();
    db.insert(text_key("c"), "two".into()).unwrap();
    assert_eq!(Some("one".to_string()), db.remove(&text_key("a.b")));
    assert_eq!(None, db.get(&text_key("a.b")));
    assert_eq!(Some("two".to_string()), db.remove(&text_key("c")));
    assert!(pairs(&db).is_empty());
}

#[test]
fn remove_of_missing_key_changes_nothing() {
    let mut db = Database::<String, String>::new();
    db.insert(text_key("a.b"), "one".into()).unwrap();
    db.insert(text_key("c"), "two".into()).unwrap();
    let before = pairs(&db);
    assert_eq!(None, db.remove(&text_key("x")));
    assert_eq!(None, db.remove(&text_key("a.x")));
    assert_eq!(None, db.remove(&text_key("a.b.x")));
    assert_eq!(None, db.remove(&text_key("c.x")));
    assert_eq!(before, pairs(&db));
}

#[test]
fn remove_of_subtree_changes_nothing() {
    let mut db = Database::<String, String>::new();
    db.insert(text_key("a.b"), "one".into()).unwrap();
    let before = pairs(&db);
    assert_eq!(None, db.remove(&text_key("a")));
    assert_eq!(before, pairs(&db));
}

#[test]
fn remove_leaves_the_empty_subtree() {
    let mut db = Database::<String, String>::new();
    db.insert(text_key("a.b"), "one".into()).unwrap();
    assert_eq!(Some("one".to_string()), db.remove(&text_key("a.b")));
    assert!(!db.is_empty());
    assert_eq!(1, db.map.len());
    let node = db.map.get(&text_key("a")).unwrap();
    assert!(node.is_parent());
    assert!(node.get_parent_ref().unwrap().is_empty());
    assert!(pairs(&db).is_empty());
    assert!(db.get_values(&text_key("a")).is_empty());
    assert_eq!(
        Err(DBError::InsertValueToDirectory),
        db.insert(text_key("a"), "two".into())
    );
}

#[test]
fn flatten_goes_in_key_order_at_every_level() {
    let mut db = Database::<String, String>::new();
    db.insert(text_key("b.z"), "1".into()).unwrap();
    db.insert(text_key("c"), "2".into()).unwrap();
    db.insert(text_key("a.y.k"), "3".into()).unwrap();
    db.insert(text_key("b.a"), "4".into()).unwrap();
    db.insert(text_key("a.x"), "5".into()).unwrap();
    db.insert(text_key("a.y.j"), "6".into()).unwrap();
    assert_eq!(
        vec![
            ("a.x".to_string(), "5".to_string()),
            ("a.y.j".to_string(), "6".to_string()),
            ("a.y.k".to_string(), "3".to_string()),
            ("b.a".to_string(), "4".to_string()),
            ("b.z".to_string(), "1".to_string()),
            ("c".to_string(), "2".to_string()),
        ],
        pairs(&db)
    );
}

#[test]
fn number_components_go_in_number_order() {
    let mut db = Database::<usize, usize>::new();
    db.insert(Key::new_from_vec(vec![10]).unwrap(), 1).unwrap();
    db.insert(Key::new_from_vec(vec![9]).unwrap(), 2).unwrap();
    db.insert(Key::new_from_vec(vec![100, 2]).unwrap(), 3).unwrap();
    db.insert(Key::new_from_vec(vec![100, 1]).unwrap(), 4).unwrap();
    let found: Vec<(String, usize)> = db
        .generate_key_value_pairs()
        .into_iter()
        .map(|(key, value)| (key.to_string('.'), *value))
        .collect();
    assert_eq!(
        vec![
            ("9".to_string(), 2),
            ("10".to_string(), 1),
            ("100.1".to_string(), 4),
            ("100.2".to_string(), 3),
        ],
        found
    );
}

#[test]
fn text_components_go_in_code_point_order() {
    let mut db = Database::<String, String>::new();
    for name in ["b", "", "ab", "a", "B", "é", "aa"] {
        db.insert(Key::new_from_vec(vec![name.to_string()]).unwrap(), name.into())
            .unwrap();
    }
    let found: Vec<String> = db
        .generate_key_value_pairs()
        .into_iter()
        .map(|(_, value)| value.clone())
        .collect();
    assert_eq!(vec!["", "B", "a", "aa", "ab", "b", "é"], found);
}

#[test]
fn get_values_of_a_value_is_one_pair() {
    let mut db = Database::<String, String>::new();
    db.insert(text_key("a.b"), "one".into()).unwrap();
    let found = db.get_values(&text_key("a.b"));
    assert_eq!(1, found.len());
    assert_eq!(text_key("a.b"), found[0].0);
    assert_eq!("one", found[0].1);
}

#[test]
fn get_values_of_a_subtree_has_full_keys() {
    let mut db = Database::<String, String>::new();
    db.insert(text_key("a.b.d"), "1".into()).unwrap();
    db.insert(text_key("a.b.c"), "2".into()).unwrap();
    db.insert(text_key("a.e"), "3".into()).unwrap();
    db.insert(text_key("f"), "4".into()).unwrap();
    let found: Vec<(String, String)> = db
        .get_values(&text_key("a"))
        .into_iter()
        .map(|(key, value)| (key.to_string('.'), value.clone()))
        .collect();
    assert_eq!(
        vec![
            ("a.b.c".to_string(), "2".to_string()),
            ("a.b.d".to_string(), "1".to_string()),
            ("a.e".to_string(), "3".to_string()),
        ],
        found
    );
    let deeper: Vec<(String, String)> = db
        .get_values(&text_key("a.b"))
        .into_iter()
        .map(|(key, value)| (key.to_string('.'), value.clone()))
        .collect();
    assert_eq!(
        vec![
            ("a.b.c".to_string(), "2".to_string()),
            ("a.b.d".to_string(), "1".to_string()),
        ],
        deeper
    );
}

#[test]
fn get_values_of_a_missing_key_is_empty() {
    let mut db = Database::<String, String>::new();
    db.insert(text_key("a.b"), "one".into()).unwrap();
    assert!(db.get_values(&text_key("x")).is_empty());
    assert!(db.get_values(&text_key("a.x")).is_empty());
    assert!(db.get_values(&text_key("a.b.c")).is_empty());
}

#[test]
fn map_get_takes_one_component() {
    let mut db = Database::<String, String>::new();
    db.insert(text_key("a.b"), "one".into()).unwrap();
    assert!(db.map.get(&text_key("a")).is_some());
    assert!(db.map.get(&text_key("a.b")).is_none());
    assert!(db.map.get(&text_key("b")).is_none());
    assert!(!db.map.is_empty());
    assert_eq!(1, db.entries().len());
    assert!(db.entries().get(&text_key("a")).is_some());
}

#[test]
fn node_accessors() {
    let mut db = Database::<String, String>::new();
    db.insert(text_key("a.b"), "one".into()).unwrap();
    let value: NodeType<String, String> = NodeType::Value("v".into());
    assert!(value.is_value());
    assert!(!value.is_parent());
    assert_eq!(Some(&"v".to_string()), value.get_value_ref());
    assert!(value.get_parent_ref().is_none());
    assert_eq!(Some("v".to_string()), value.get_value());
    let parent = NodeType::Parent(db);
    assert!(parent.is_parent());
    assert!(!parent.is_value());
    assert!(parent.get_value_ref().is_none());
    assert_eq!(1, parent.get_parent_ref().unwrap().map.len());
    assert_ne!(parent, NodeType::Value("v".into()));
    let inner = parent.get_parent().unwrap();
    assert_eq!(Some(&"one".to_string()), inner.get(&text_key("a.b")));
    let other: NodeType<String, String> = NodeType::Value("w".into());
    assert_eq!(other, NodeType::Value("v".into()));
    assert!(other.get_parent().is_none());
}
