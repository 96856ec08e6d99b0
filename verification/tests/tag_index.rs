use lib::structures::indices::tag_index::TagIndex;

fn sorted(mut items: Vec<String>) -> Vec<String> {
    items.sort();
    items
}

fn strings(items: &[&str]) -> Vec<String> {
    items.iter().map(|s| s.to_string()).collect()
}

#[test]
fn every_segment_becomes_a_node() {
    let mut index = TagIndex::new();
    assert!(index.add("phont:euphont/express:clothes/dress"));
    assert!(!index.add("phont:euphont/express:clothes/dress"));
    assert!(index.has("phont:euphont"));
    assert!(index.has("phont:euphont/express:clothes"));
    assert!(!index.has_exact("phont:euphont"));
    assert!(index.has_exact("phont:euphont/express:clothes/dress"));
    assert_eq!(index.path_count(), 1);
    assert!(index.add("phont:euphont"));
    assert!(index.has_exact("phont:euphont"));
    assert_eq!(index.path_count(), 2);
}

#[test]
fn invalid_paths_are_rejected() {
    let mut index = TagIndex::new();
    assert!(!index.add(""));
    assert!(!index.add("a//b"));
    assert!(!index.add("kind:"));
    assert!(!index.add("/a"));
    assert!(index.is_empty());
    assert!(index.add("a/"));
    assert!(index.has_exact("a"));
    assert!(!index.has(""));
    assert!(!index.has("a//"));
}

#[test]
fn removal_takes_the_subtree_and_prunes() {
    let mut index = TagIndex::new();
    index.add("a/b/c");
    index.add("a/b/d");
    index.add("x");
    assert!(index.remove("a/b/c"));
    assert!(index.has("a/b"));
    assert!(index.has_exact("a/b/d"));
    assert!(!index.has("a/b/c"));
    assert!(index.remove("a/b/d"));
    assert!(!index.has("a"));
    assert!(!index.remove("a"));
    assert_eq!(index.paths(), strings(&["x"]));
    index.add("p/q");
    index.add("p");
    assert!(index.remove("p/q"));
    assert!(index.has_exact("p"));
    assert!(index.remove("p"));
    assert!(!index.has("p"));
}

#[test]
fn removing_an_inner_node_removes_below_it() {
    let mut index = TagIndex::new();
    index.add("t:a/b");
    index.add("t:a/c/d");
    index.add("t:e");
    assert!(index.remove("t:a"));
    assert_eq!(index.path_count(), 1);
    assert_eq!(index.paths(), strings(&["t:e"]));
}

#[test]
fn level_queries() {
    let mut index = TagIndex::new();
    index.add("color:red/shade:dark");
    index.add("color:blue");
    index.add("size:red");
    index.add("plain");
    assert!(index.has_tag("red"));
    assert!(index.has_tag("plain"));
    assert!(!index.has_tag("dark"));
    assert!(index.has_type("color"));
    assert!(!index.has_type(""));
    assert!(!index.has_type("shade"));
    assert!(index.has_tag_any_depth("dark"));
    assert!(index.has_type_any_depth("shade"));
    assert!(!index.has_type_any_depth(""));
    assert!(!index.has_tag_any_depth("green"));
    assert_eq!(index.tag_count(), 3);
    assert_eq!(index.type_count(), 2);
    assert_eq!(sorted(index.tags()), strings(&["blue", "plain", "red"]));
    assert_eq!(sorted(index.types()), strings(&["color", "size"]));
    assert_eq!(sorted(index.tags_of_type("color")), strings(&["blue", "red"]));
    assert_eq!(sorted(index.types_of_tag("red")), strings(&["color", "size"]));
    assert!(index.types_of_tag("plain").is_empty());
    assert_eq!(index.entries().len(), 4);
}

#[test]
fn remove_by_tag_and_type() {
    let mut index = TagIndex::new();
    index.add("color:red/shade:dark");
    index.add("size:red");
    index.add("color:blue");
    index.add("plain");
    assert!(index.remove_tag("red"));
    assert!(!index.remove_tag("red"));
    assert_eq!(sorted(index.paths()), strings(&["color:blue", "plain"]));
    assert!(index.remove_type(""));
    assert_eq!(index.paths(), strings(&["color:blue"]));
    assert!(index.remove_type("color"));
    assert!(index.is_empty());
    assert!(!index.remove_type("color"));
}

#[test]
fn listing_paths() {
    let mut index = TagIndex::new();
    index.add_all(&["a:b/c", "a:b/d:e", "f", "bad//path", "a:b"]);
    assert_eq!(sorted(index.paths()), strings(&["a:b", "a:b/c", "a:b/d:e", "f"]));
    assert_eq!(sorted(index.paths_with_prefix("a:b", false)), strings(&["c", "d:e"]));
    assert_eq!(sorted(index.paths_with_prefix("a:b/", true)), strings(&["a:b/c", "a:b/d:e"]));
    assert!(index.paths_with_prefix("zzz", true).is_empty());
    let sub = index.sub_index("a:b").unwrap();
    assert_eq!(sub.path_count(), 3);
    assert_eq!(sorted(sub.paths()), strings(&["c", "d:e"]));
    assert!(index.sub_index("a:b/q").is_none());
}

#[test]
fn bare_segments_and_colons() {
    let mut index = TagIndex::new();
    assert!(index.add(":x"));
    assert!(index.has_exact("x"));
    assert!(index.add("k:a:b"));
    assert!(index.has_tag("a:b"));
    assert_eq!(sorted(index.tags_of_type("k")), strings(&["a:b"]));
    index.clear();
    assert!(index.is_empty());
    assert_eq!(index.path_count(), 0);
    assert_eq!(TagIndex::default().path_count(), 0);
}
