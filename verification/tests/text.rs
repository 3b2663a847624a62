use gradebook::schema::schema_migrations;
use gradebook::sorting::{sort_order, SortKey};
use gradebook::text::{push_decimal, text_eq, text_less};

#[test]
fn text_order_is_binary_collation() {
    assert!(text_less("", "a"));
    assert!(!text_less("a", ""));
    assert!(text_less("Zebra", "apple"));
    assert!(text_less("abc", "abd"));
    assert!(text_less("ab", "abc"));
    assert!(!text_less("abc", "abc"));
    assert!(text_less("z", "é"));
    assert!(text_eq("héllo", "héllo"));
    assert!(!text_eq("hello", "hell"));
}

#[test]
fn decimal_rendering() {
    let mut s = String::from("n=");
    push_decimal(&mut s, 0);
    assert_eq!(s, "n=0");
    let mut s = String::new();
    push_decimal(&mut s, 1234567890);
    assert_eq!(s, "1234567890");
    let mut s = String::new();
    push_decimal(&mut s, u64::MAX);
    assert_eq!(s, "18446744073709551615");
}

fn key(a: Option<&str>, b: Option<&str>) -> SortKey {
    SortKey { first: a.map(|s| s.to_string()), second: b.map(|s| s.to_string()) }
}

#[test]
fn sort_order_puts_null_first_and_keeps_ties() {
    let keys = vec![
        key(Some("b"), Some("x")),
        key(None, Some("z")),
        key(Some("a"), None),
        key(Some("b"), Some("x")),
        key(Some("a"), Some("a")),
        key(None, None),
    ];
    assert_eq!(sort_order(&keys), vec![5, 1, 2, 4, 0, 3]);
    assert!(sort_order(&Vec::new()).is_empty());
}

#[test]
fn migrations_add_missing_name_columns() {
    let cols = |v: &[&str]| v.iter().map(|s| s.to_string()).collect::<Vec<String>>();
    assert_eq!(
        schema_migrations(&cols(&["id", "email", "password", "role"])),
        vec![
            "ALTER TABLE users ADD COLUMN firstname TEXT".to_string(),
            "ALTER TABLE users ADD COLUMN lastname TEXT".to_string()
        ]
    );
    assert_eq!(
        schema_migrations(&cols(&["id", "lastname"])),
        vec!["ALTER TABLE users ADD COLUMN firstname TEXT".to_string()]
    );
    assert_eq!(
        schema_migrations(&cols(&["firstname", "id"])),
        vec!["ALTER TABLE users ADD COLUMN lastname TEXT".to_string()]
    );
    assert!(schema_migrations(&cols(&["id", "firstname", "lastname"])).is_empty());
}

#[test]
fn migrations_run_once() {
    let mut cols = vec!["id".to_string(), "email".to_string()];
    for stmt in schema_migrations(&cols) {
        cols.push(stmt.split_whitespace().nth(5).unwrap().to_string());
    }
    assert!(schema_migrations(&cols).is_empty());
}
