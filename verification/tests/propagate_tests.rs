use ripple_reader::propagate::propagated_captions;

fn graph(n: usize, edges: &[(usize, usize, i64)]) -> Vec<Vec<(usize, i64)>> {
    let mut adj = vec![Vec::new(); n];
    for &(a, b, w) in edges {
        adj[a].push((b, w));
        adj[b].push((a, w));
    }
    adj
}

fn caps(v: &[Option<&str>]) -> Vec<Option<String>> {
    v.iter().map(|c| c.map(|s| s.to_string())).collect()
}

fn types(v: &[&str]) -> Vec<String> {
    v.iter().map(|s| s.to_string()).collect()
}

#[test]
fn nearest_anchor_caption_spreads() {
    let adj = graph(4, &[(0, 1, 10), (1, 2, 10), (2, 3, 500)]);
    let r = propagated_captions(&adj, &caps(&[Some("F:1"), None, None, Some("T:2")]), &types(&["image", "image", "image", "table"]));
    assert_eq!(r, caps(&[Some("F:1"), Some("F:1"), Some("F:1"), Some("T:2")]));
}

#[test]
fn tied_anchors_leave_block_uncaptioned() {
    let adj = graph(3, &[(0, 1, 50), (1, 2, 60)]);
    let r = propagated_captions(&adj, &caps(&[Some("F:1"), None, Some("F:2")]), &types(&["image", "image", "image"]));
    assert_eq!(r, caps(&[Some("F:1"), None, Some("F:2")]));
}

#[test]
fn anchors_are_barriers() {
    let adj = graph(3, &[(0, 1, 10), (1, 2, 10)]);
    let r = propagated_captions(&adj, &caps(&[Some("F:1"), Some("F:2"), None]), &types(&["image", "image", "image"]));
    assert_eq!(r, caps(&[Some("F:1"), Some("F:2"), Some("F:2")]));
}

#[test]
fn mistyped_caption_is_replaced_and_lone_components_stay() {
    let adj = graph(4, &[(0, 1, 10)]);
    let r = propagated_captions(
        &adj,
        &caps(&[Some("F:3"), Some("T:7"), None, Some("T:9")]),
        &types(&["image", "image", "image", "image"]),
    );
    assert_eq!(r, caps(&[Some("F:3"), Some("F:3"), None, Some("T:9")]));
}
