use carte::tags::Tags;

fn tags(words: &[&str]) -> Tags {
    let mut t = Tags::new();
    for w in words {
        t.insert(w.to_string());
    }
    t
}

fn sorted(t: &Tags) -> Vec<String> {
    let mut v = t.to_vec();
    v.sort();
    v
}

#[test]
fn new_tags_are_empty() {
    let t = Tags::new();
    assert_eq!(t.len(), 0);
    assert!(t.is_empty());
    assert!(!t.contains(&"cat".to_string()));
}

#[test]
fn insert_reports_new_tags_only() {
    let mut t = Tags::new();
    assert!(t.insert("cat".to_string()));
    assert!(t.insert("sun".to_string()));
    assert!(!t.insert("cat".to_string()));
    assert_eq!(t.len(), 2);
    assert!(t.contains(&"cat".to_string()));
    assert!(t.contains(&"sun".to_string()));
    assert!(!t.contains(&"beach".to_string()));
}

#[test]
fn set_operations() {
    let a = tags(&["cat", "beach", "sun"]);
    let b = tags(&["garden", "cat"]);
    assert_eq!(sorted(&a.intersection(&b)), vec!["cat"]);
    assert_eq!(sorted(&a.union(&b)), vec!["beach", "cat", "garden", "sun"]);
    assert_eq!(sorted(&a.difference(&b)), vec!["beach", "sun"]);
    assert_eq!(sorted(&b.difference(&a)), vec!["garden"]);
    assert_eq!(a.intersection(&b).len(), b.intersection(&a).len());
}

#[test]
fn clone_keeps_the_tags() {
    let a = tags(&["x", "y", ""]);
    let c = a.clone();
    assert_eq!(sorted(&c), vec!["", "x", "y"]);
    assert_eq!(c.len(), 3);
}

#[test]
fn tags_with_unicode() {
    let a = tags(&["été", "plage"]);
    assert!(a.contains(&"été".to_string()));
    assert!(!a.contains(&"ete".to_string()));
}
