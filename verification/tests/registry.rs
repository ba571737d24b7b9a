use book_registry::book::Book;
use book_registry::registry::Registry;

fn titles(r: &Registry) -> Vec<String> {
    r.list().iter().map(|b| b.title.clone()).collect()
}

fn triples(r: &Registry) -> Vec<(u32, String, String)> {
    r.list()
        .iter()
        .map(|b| (b.id, b.title.clone(), b.author.clone()))
        .collect()
}

#[test]
fn new_registry_is_empty() {
    let r = Registry::new();
    assert!(r.list().is_empty());
    assert!(r.get(1).is_none());
    assert!(!r.contains(1));
}

#[test]
fn seeded_registry_holds_three_records() {
    let r = Registry::seeded();
    assert_eq!(
        triples(&r),
        vec![
            (1, "Antigone".to_string(), "Sophocles".to_string()),
            (2, "Beloved".to_string(), "Toni Morrison".to_string()),
            (3, "Candide".to_string(), "Voltaire".to_string()),
        ]
    );
}

#[test]
fn seed_upsert_list_delete_get() {
    let mut r = Registry::seeded();
    let stored = r.upsert(Book::new(4, "Dune", "Herbert"));
    assert_eq!(stored.id, 4);
    assert_eq!(stored.title, "Dune");
    assert_eq!(stored.author, "Herbert");
    assert_eq!(titles(&r), vec!["Antigone", "Beloved", "Candide", "Dune"]);
    assert!(r.delete(2));
    assert!(r.get(2).is_none());
    assert!(!r.delete(2));
    assert!(r.get(2).is_none());
    assert_eq!(titles(&r), vec!["Antigone", "Candide", "Dune"]);
}

#[test]
fn get_returns_the_last_upsert() {
    let mut r = Registry::new();
    r.upsert(Book::new(7, "First", "A"));
    r.upsert(Book::new(8, "Other", "B"));
    r.upsert(Book::new(7, "Second", "C"));
    let b = r.get(7).unwrap();
    assert_eq!((b.id, b.title.as_str(), b.author.as_str()), (7, "Second", "C"));
    assert!(r.delete(7));
    assert!(r.get(7).is_none());
    r.upsert(Book::new(7, "Third", "D"));
    let b = r.get(7).unwrap();
    assert_eq!((b.id, b.title.as_str(), b.author.as_str()), (7, "Third", "D"));
    let o = r.get(8).unwrap();
    assert_eq!((o.id, o.title.as_str(), o.author.as_str()), (8, "Other", "B"));
}

#[test]
fn list_is_sorted_whatever_the_insertion_order() {
    let mut a = Registry::new();
    a.upsert(Book::new(1, "Zorba", "K"));
    a.upsert(Book::new(2, "Emma", "A"));
    a.upsert(Book::new(3, "Middlemarch", "E"));
    let mut b = Registry::new();
    b.upsert(Book::new(3, "Middlemarch", "E"));
    b.upsert(Book::new(1, "Zorba", "K"));
    b.upsert(Book::new(2, "Emma", "A"));
    assert_eq!(titles(&a), vec!["Emma", "Middlemarch", "Zorba"]);
    assert_eq!(triples(&a), triples(&b));
    assert_eq!(triples(&a), triples(&a));
}

#[test]
fn list_orders_by_code_point() {
    let mut r = Registry::new();
    r.upsert(Book::new(1, "b", ""));
    r.upsert(Book::new(2, "B", ""));
    r.upsert(Book::new(3, "", ""));
    r.upsert(Book::new(4, "Ba", ""));
    r.upsert(Book::new(5, "\u{e9}t\u{e9}", ""));
    r.upsert(Book::new(6, "z", ""));
    assert_eq!(titles(&r), vec!["", "B", "Ba", "b", "z", "\u{e9}t\u{e9}"]);
}

#[test]
fn list_orders_equal_titles_by_id() {
    let mut r = Registry::new();
    r.upsert(Book::new(2, "Same", "x"));
    r.upsert(Book::new(9, "Same", "w"));
    r.upsert(Book::new(1, "Same", "y"));
    r.upsert(Book::new(3, "Other", "z"));
    assert_eq!(
        triples(&r),
        vec![
            (3, "Other".to_string(), "z".to_string()),
            (1, "Same".to_string(), "y".to_string()),
            (2, "Same".to_string(), "x".to_string()),
            (9, "Same".to_string(), "w".to_string()),
        ]
    );
}

#[test]
fn list_twice_gives_the_same_sequence() {
    let mut r = Registry::seeded();
    r.upsert(Book::new(10, "Beloved", "Someone Else"));
    r.upsert(Book::new(5, "Antigone", "Anouilh"));
    let first = triples(&r);
    let second = triples(&r);
    assert_eq!(first, second);
    assert_eq!(
        first.iter().map(|t| t.0).collect::<Vec<u32>>(),
        vec![1, 5, 2, 10, 3]
    );
}

#[test]
fn upsert_twice_is_upsert_once() {
    let mut once = Registry::seeded();
    once.upsert(Book::new(2, "Beloved", "Morrison"));
    let mut twice = Registry::seeded();
    twice.upsert(Book::new(2, "Beloved", "Morrison"));
    twice.upsert(Book::new(2, "Beloved", "Morrison"));
    assert_eq!(triples(&once), triples(&twice));
    assert_eq!(once.list().len(), 3);
}

#[test]
fn upsert_replaces_in_place() {
    let mut r = Registry::seeded();
    r.upsert(Book::new(1, "Zadig", "Voltaire"));
    assert_eq!(titles(&r), vec!["Beloved", "Candide", "Zadig"]);
    assert_eq!(r.get(1).unwrap().author, "Voltaire");
}

#[test]
fn delete_of_an_absent_id_changes_nothing() {
    let mut r = Registry::seeded();
    let before = triples(&r);
    assert!(!r.delete(9));
    assert_eq!(triples(&r), before);
}

#[test]
fn delete_removes_only_the_given_id() {
    let mut r = Registry::seeded();
    assert!(r.contains(1));
    assert!(r.delete(1));
    assert!(!r.contains(1));
    assert_eq!(titles(&r), vec!["Beloved", "Candide"]);
}

#[test]
fn upserts_of_two_ids_are_both_visible_in_either_order() {
    let mut a = Registry::new();
    a.upsert(Book::new(1, "One", "x"));
    a.upsert(Book::new(2, "Two", "y"));
    let mut b = Registry::new();
    b.upsert(Book::new(2, "Two", "y"));
    b.upsert(Book::new(1, "One", "x"));
    assert_eq!(triples(&a), triples(&b));
    assert_eq!(a.list().len(), 2);
}

#[test]
fn upserts_of_one_id_leave_one_whole_record() {
    let mut r = Registry::new();
    r.upsert(Book::new(1, "One", "x"));
    r.upsert(Book::new(1, "Uno", "y"));
    assert_eq!(triples(&r), vec![(1, "Uno".to_string(), "y".to_string())]);
}

#[test]
fn a_record_read_out_is_a_copy() {
    let mut r = Registry::seeded();
    let mut b = r.get(3).unwrap();
    b.title.push_str(" (changed)");
    assert_eq!(r.get(3).unwrap().title, "Candide");
    r.upsert(b);
    assert_eq!(r.get(3).unwrap().title, "Candide (changed)");
}
