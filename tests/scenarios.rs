use todo_list::TodoList;

fn sorted(mut v: Vec<String>) -> Vec<String> {
    v.sort();
    v
}

#[test]
fn three_added_one_done() {
    let mut todo = TodoList::new();
    todo.add(String::from("A"));
    todo.add(String::from("B"));
    todo.add(String::from("C"));
    assert_eq!(todo.mark(String::from("C"), false), Ok(String::from("C")));
    let (pending, done) = todo.list();
    assert_eq!(sorted(pending), vec![String::from("A"), String::from("B")]);
    assert_eq!(done, vec![String::from("C")]);
}

#[test]
fn mark_on_empty_fails_and_lists_nothing() {
    let mut todo = TodoList::new();
    assert_eq!(todo.mark(String::from("X"), false), Err(String::from("X")));
    let (pending, done) = todo.list();
    assert!(pending.is_empty());
    assert!(done.is_empty());
    assert_eq!(todo.len(), 0);
    assert_eq!(todo.get("X"), None);
}

#[test]
fn add_after_done_keeps_done() {
    let mut todo = TodoList::new();
    todo.add(String::from("A"));
    todo.mark(String::from("A"), false).unwrap();
    todo.add(String::from("A"));
    assert_eq!(todo.get("A"), Some(false));
    assert_eq!(todo.len(), 1);
}

#[test]
fn add_twice_same_as_once() {
    let mut once = TodoList::new();
    once.add(String::from("k"));
    let mut twice = TodoList::new();
    twice.add(String::from("k"));
    twice.add(String::from("k"));
    assert_eq!(once.get("k"), twice.get("k"));
    assert_eq!(once.len(), twice.len());
    assert_eq!(twice.list(), (vec![String::from("k")], Vec::new()));
}

#[test]
fn mark_toggles_both_ways() {
    let mut todo = TodoList::new();
    todo.add(String::from("t"));
    assert_eq!(todo.mark(String::from("t"), true), Ok(String::from("t")));
    assert_eq!(todo.get("t"), Some(true));
    assert_eq!(todo.mark(String::from("t"), false), Ok(String::from("t")));
    assert_eq!(todo.get("t"), Some(false));
    assert_eq!(todo.mark(String::from("t"), true), Ok(String::from("t")));
    assert_eq!(todo.get("t"), Some(true));
}

#[test]
fn mark_unknown_leaves_registry_unchanged() {
    let mut todo = TodoList::new();
    todo.add(String::from("a"));
    todo.mark(String::from("a"), false).unwrap();
    todo.add(String::from("b"));
    let before = todo.list();
    assert_eq!(todo.mark(String::from("c"), true), Err(String::from("c")));
    assert_eq!(todo.list(), before);
    assert_eq!(todo.len(), 2);
    assert_eq!(todo.get("c"), None);
}

#[test]
fn listing_is_a_partition() {
    let mut todo = TodoList::new();
    for k in ["one", "two", "three", "four", "five"] {
        todo.add(String::from(k));
    }
    todo.mark(String::from("two"), false).unwrap();
    todo.mark(String::from("four"), false).unwrap();
    todo.add(String::from("two"));
    let (pending, done) = todo.list();
    assert_eq!(pending.len() + done.len(), todo.len());
    assert_eq!(
        sorted(pending.clone()),
        vec![String::from("five"), String::from("one"), String::from("three")]
    );
    assert_eq!(sorted(done.clone()), vec![String::from("four"), String::from("two")]);
    for k in &pending {
        assert!(!done.contains(k));
    }
}

#[test]
fn empty_key_is_an_ordinary_key() {
    let mut todo = TodoList::new();
    todo.add(String::new());
    assert_eq!(todo.get(""), Some(true));
    assert_eq!(todo.mark(String::new(), false), Ok(String::new()));
    assert_eq!(todo.list(), (Vec::new(), vec![String::new()]));
}
