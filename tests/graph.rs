use emoji_graph::{edge_rows, get_tags, node_rows, EdgeAggregator, EdgeRow, EmoticonMap, NodeIndex, Tag, TagType};

fn tag(text: &str, t: TagType) -> Tag {
    Tag::new(text.to_string(), t)
}

#[test]
fn observe_assigns_dense_ids_and_counts() {
    let mut n = NodeIndex::new();
    assert_eq!(n.observe(tag("a", TagType::Hashtag)), 0);
    assert_eq!(n.observe(tag("b", TagType::Hashtag)), 1);
    assert_eq!(n.observe(tag("a", TagType::Hashtag)), 0);
    assert_eq!(n.observe(tag("a", TagType::Emoticon)), 2);
    assert_eq!(n.len(), 3);
    assert_eq!(n.observed(), 4);
    assert_eq!(n.entry(0).1.count, 2);
    assert_eq!(n.entry(1).1.count, 1);
    assert_eq!(n.lookup(&tag("a", TagType::Emoticon)), Some(2));
    assert_eq!(n.lookup(&tag("zz", TagType::Emoji)), None);
}

#[test]
fn ids_stay_stable_across_observations() {
    let mut n = NodeIndex::new();
    let first = n.observe(tag("x", TagType::Emoji));
    for t in ["p", "q", "r", "p"] {
        n.observe(tag(t, TagType::Emoji));
    }
    assert_eq!(n.observe(tag("x", TagType::Emoji)), first);
}

#[test]
fn node_retention_keeps_ids() {
    let mut n = NodeIndex::new();
    for t in ["a", "b", "b", "c", "c", "c"] {
        n.observe(tag(t, TagType::Hashtag));
    }
    n.retain_min_count(2);
    assert_eq!(n.len(), 2);
    assert_eq!(n.lookup(&tag("a", TagType::Hashtag)), None);
    assert_eq!(n.lookup(&tag("b", TagType::Hashtag)), Some(1));
    assert_eq!(n.lookup(&tag("c", TagType::Hashtag)), Some(2));
    n.retain_min_count(2);
    assert_eq!(n.len(), 2);
    n.retain_min_count(3);
    assert_eq!(n.len(), 1);
    assert_eq!(n.lookup(&tag("c", TagType::Hashtag)), Some(2));
}

#[test]
fn observe_tags_and_record_ids() {
    let mut n = NodeIndex::new();
    let tags = vec![tag("a", TagType::Emoji), tag("b", TagType::Emoji), tag("a", TagType::Emoji)];
    n.observe_tags(&tags);
    assert_eq!(n.entry(0).1.count, 2);
    let probe = vec![tag("b", TagType::Emoji), tag("c", TagType::Emoji), tag("a", TagType::Emoji)];
    assert_eq!(n.record_ids(&probe), vec![1, 0]);
}

#[test]
fn edge_order_does_not_matter() {
    let mut e = EdgeAggregator::new();
    e.observe_record(&vec![3, 1]);
    e.observe_record(&vec![1, 3]);
    assert_eq!(e.count_of((1, 3)), Some(2));
    assert_eq!(e.count_of((3, 1)), None);
    assert_eq!(e.len(), 1);
}

#[test]
fn no_self_pairs_and_positional_duplicates() {
    let mut e = EdgeAggregator::new();
    e.observe_record(&vec![0, 0]);
    assert_eq!(e.len(), 0);
    e.observe_record(&vec![0, 0, 1]);
    assert_eq!(e.count_of((0, 1)), Some(2));
    assert_eq!(e.count_of((0, 0)), None);
}

#[test]
fn edges_of_three_ids() {
    let mut e = EdgeAggregator::new();
    e.observe_record(&vec![2, 0, 1]);
    assert_eq!(e.count_of((0, 2)), Some(1));
    assert_eq!(e.count_of((1, 2)), Some(1));
    assert_eq!(e.count_of((0, 1)), Some(1));
    assert_eq!(e.total_increments(), 3);
}

#[test]
fn edge_retention_thresholds() {
    let mut e = EdgeAggregator::new();
    e.observe_record(&vec![0, 1]);
    e.observe_record(&vec![0, 1]);
    e.observe_record(&vec![1, 2]);
    e.retain_min_count(2);
    assert_eq!(e.len(), 1);
    assert_eq!(e.count_of((0, 1)), Some(2));
    e.retain_min_count(2);
    assert_eq!(e.len(), 1);
    e.retain_min_count(3);
    assert_eq!(e.len(), 0);
}

fn run(node_min: u64, edge_min: u64) -> (Vec<(usize, TagType, String, u64)>, Vec<EdgeRow>) {
    let records = [
        ("\u{1F600} \u{1F600}", "", ""),
        ("\u{1F600}", ":)", "#fun"),
        ("\u{1F602}", "", "#fun"),
    ];
    let map = EmoticonMap::new();
    let mut nodes = NodeIndex::new();
    for (e, m, h) in records.iter() {
        nodes.observe_tags(&get_tags(e, m, h, &map, false));
    }
    nodes.retain_min_count(node_min);
    let mut edges = EdgeAggregator::new();
    for (e, m, h) in records.iter() {
        let ids = nodes.record_ids(&get_tags(e, m, h, &map, false));
        edges.observe_record(&ids);
    }
    edges.retain_min_count(edge_min);
    let rows = node_rows(&nodes);
    let erows = edge_rows(&edges, &rows);
    let table = rows
        .iter()
        .map(|r| (r.row, r.expression_type, r.text.clone(), r.weight))
        .collect();
    (table, erows)
}

#[test]
fn end_to_end_three_records() {
    let (table, edges) = run(1, 1);
    assert_eq!(
        table,
        vec![
            (1, TagType::Emoji, "\u{1F600}".to_string(), 3),
            (2, TagType::Hashtag, "#fun".to_string(), 2),
            (3, TagType::Emoticon, ":)".to_string(), 1),
            (4, TagType::Emoji, "\u{1F602}".to_string(), 1),
        ]
    );
    assert_eq!(
        edges,
        vec![
            EdgeRow { node_1: 1, node_2: 3, weight: 1 },
            EdgeRow { node_1: 1, node_2: 2, weight: 1 },
            EdgeRow { node_1: 2, node_2: 3, weight: 1 },
            EdgeRow { node_1: 2, node_2: 4, weight: 1 },
        ]
    );
    let (_, none) = run(1, 2);
    assert!(none.is_empty());
}

#[test]
fn node_rows_sort_by_count_then_first_seen() {
    let mut n = NodeIndex::new();
    for t in ["a", "b", "b", "c", "d", "d"] {
        n.observe(tag(t, TagType::Hashtag));
    }
    let rows = node_rows(&n);
    let got: Vec<(usize, usize, String, u64)> =
        rows.iter().map(|r| (r.row, r.id, r.text.clone(), r.weight)).collect();
    assert_eq!(
        got,
        vec![
            (1, 1, "b".to_string(), 2),
            (2, 3, "d".to_string(), 2),
            (3, 0, "a".to_string(), 1),
            (4, 2, "c".to_string(), 1),
        ]
    );
}

#[test]
fn edge_rows_translate_ids_to_rows() {
    let mut n = NodeIndex::new();
    for t in ["a", "b", "b", "c", "c", "c"] {
        n.observe(tag(t, TagType::Hashtag));
    }
    let rows = node_rows(&n);
    let mut e = EdgeAggregator::new();
    e.observe_record(&vec![0, 2]);
    e.observe_record(&vec![1, 2]);
    e.observe_record(&vec![1, 2]);
    e.observe_record(&vec![0, 7]);
    let er = edge_rows(&e, &rows);
    assert_eq!(
        er,
        vec![
            EdgeRow { node_1: 1, node_2: 2, weight: 2 },
            EdgeRow { node_1: 1, node_2: 3, weight: 1 },
        ]
    );
}
