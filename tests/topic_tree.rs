use mqtop::topic_tree::TopicTree;

#[test]
fn test_insert_and_count() {
    let mut tree = TopicTree::new();

    tree.insert("sensors/temp/living_room", 10);
    tree.insert("sensors/temp/bedroom", 15);
    tree.insert("sensors/humidity/living_room", 8);

    assert_eq!(tree.topic_count(), 3);
    assert_eq!(tree.total_messages(), 3);
}

#[test]
fn test_multiple_messages_same_topic() {
    let mut tree = TopicTree::new();

    tree.insert("sensors/temp", 10);
    tree.insert("sensors/temp", 12);
    tree.insert("sensors/temp", 11);

    assert_eq!(tree.topic_count(), 1);
    assert_eq!(tree.total_messages(), 3);

    let stats = tree.get_topic_stats("sensors/temp").unwrap();
    assert_eq!(stats.0, 3);
    assert_eq!(stats.1, 33);
}

#[test]
fn test_hierarchical_structure() {
    let mut tree = TopicTree::new();

    tree.insert("a/b/c", 1);
    tree.insert("a/b/d", 1);
    tree.insert("a/e", 1);

    let mut expanded: Vec<String> = Vec::new();
    let visible = tree.get_visible_topics(&expanded);

    assert_eq!(visible.len(), 1);
    assert_eq!(visible[0].segment, "a");
    assert!(visible[0].has_children);

    expanded.push("a".to_string());
    let visible = tree.get_visible_topics(&expanded);

    assert_eq!(visible.len(), 3);
}

#[test]
fn test_search() {
    let mut tree = TopicTree::new();

    tree.insert("sensors/temperature/room1", 1);
    tree.insert("sensors/temperature/room2", 1);
    tree.insert("sensors/humidity/room1", 1);
    tree.insert("devices/light/kitchen", 1);

    let results = tree.search("temp");
    assert_eq!(results.len(), 2);

    let results = tree.search("room1");
    assert_eq!(results.len(), 2);

    let results = tree.search("kitchen");
    assert_eq!(results.len(), 1);
}

#[test]
fn test_case_insensitive_search() {
    let mut tree = TopicTree::new();
    tree.insert("Sensors/Temperature", 1);

    let results = tree.search("sensors");
    assert_eq!(results.len(), 1);

    let results = tree.search("TEMPERATURE");
    assert_eq!(results.len(), 1);
    assert_eq!(results[0], "Sensors/Temperature");
}

#[test]
fn distinct_topics_counted_once() {
    let mut tree = TopicTree::new();
    for t in ["x/y", "x", "x/y", "z", "x", "x/y/"] {
        tree.insert_at(t, 5, 7);
    }
    assert_eq!(tree.topic_count(), 4);
    assert_eq!(tree.total_messages(), 6);
    assert_eq!(tree.get_topic_stats("x/y"), Some((2, 10, Some(7))));
    // an interior node that received nothing is no topic
    tree.insert_at("p/q", 1, 1);
    assert_eq!(tree.get_topic_stats("p"), None);
    assert_eq!(tree.get_topic_stats("nothing"), None);
    tree.clear();
    assert_eq!(tree.topic_count(), 0);
    assert_eq!(tree.total_messages(), 0);
    assert!(tree.get_visible_topics(&[]).is_empty());
}

#[test]
fn visible_rows_are_ordered_and_deepen() {
    let mut tree = TopicTree::new();
    tree.insert_at("b/2", 1, 0);
    tree.insert_at("a/1", 1, 0);
    tree.insert_at("b/1", 1, 0);
    let rows = tree.get_visible_topics(&["b".to_string()]);
    let paths: Vec<&str> = rows.iter().map(|r| r.full_path.as_str()).collect();
    assert_eq!(paths, vec!["a", "b", "b/1", "b/2"]);
    assert_eq!(rows[0].depth, 0);
    assert_eq!(rows[2].depth, 1);
    assert!(rows[1].is_expanded);
    assert!(!rows[0].is_expanded);
    // collapsed: top level only, all at depth zero
    let rows = tree.get_visible_topics(&[]);
    assert_eq!(rows.len(), 2);
    assert!(rows.iter().all(|r| r.depth == 0));
}

#[test]
fn search_lowered_matches_exact_substring() {
    let mut tree = TopicTree::new();
    tree.insert_at("ab/cd", 1, 0);
    assert_eq!(tree.search_lowered(&"b/c".to_string()), vec!["ab/cd".to_string()]);
    assert!(tree.search_lowered(&"B/C".to_string()).is_empty());
    assert_eq!(tree.search("").len(), 1);
}

#[test]
fn display_filters() {
    let mut tree = TopicTree::new();
    tree.insert_at("a/x", 1, 0);
    tree.insert_at("b/y", 1, 0);
    let expanded = vec!["a".to_string(), "b".to_string()];
    let rows = tree.get_visible_topics(&expanded);
    assert_eq!(rows.len(), 4);
    let starred = vec!["b/y".to_string(), "a".to_string()];
    let kept = mqtop::topic_tree::filter_rows(rows, Some(&starred), None);
    let paths: Vec<&str> = kept.iter().map(|r| r.full_path.as_str()).collect();
    assert_eq!(paths, vec!["a", "b/y"]);
    let rows = tree.get_visible_topics(&expanded);
    let kept = mqtop::topic_tree::filter_rows(rows, None, Some("+/y"));
    let paths: Vec<&str> = kept.iter().map(|r| r.full_path.as_str()).collect();
    assert_eq!(paths, vec!["b/y"]);
    let rows = tree.get_visible_topics(&expanded);
    assert_eq!(mqtop::topic_tree::filter_rows(rows, None, None).len(), 4);
}
