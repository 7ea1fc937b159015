use wikipath::order::sorted_unique;
use wikipath::path::{bidi_dijkstra, merge};

#[test]
fn sample_merge() {
    assert_eq!(merge(&[1, 3, 5, 7], &[4, 5, 6, 7]), Some(&5))
}

#[test]
fn empty_merge() {
    assert_eq!(merge(&[1, 3, 5], &[2, 4, 6]), None)
}

fn try_path(edges: &[(u32, u32)], from: u32, to: u32) -> Option<Vec<u32>> {
    let links_from = |f: u32| edges.iter().filter(|&&(a, _)| a == f).map(|&(_, b)| b).collect::<Vec<u32>>();
    let links_to = |t: u32| edges.iter().filter(|&&(_, b)| b == t).map(|&(a, _)| a).collect::<Vec<u32>>();
    bidi_dijkstra(from, to, links_from, links_to)
}

#[test]
fn sample_path() {
    let edges = [(1, 2), (1, 3), (2, 3), (3, 4), (4, 5), (5, 1), (5, 2)];

    assert_eq!(try_path(&edges[..], 1, 5), Some(vec![1, 3, 4, 5]))
}

#[test]
fn merge_with_empty_side() {
    assert_eq!(merge(&[], &[1, 2]), None);
    assert_eq!(merge(&[4], &[]), None);
}

#[test]
fn merge_finds_smallest_common() {
    assert_eq!(merge(&[2, 4, 8, 9], &[1, 8, 9]), Some(&8));
    assert_eq!(merge(&[1, 1, 2], &[1]), Some(&1));
}

#[test]
fn path_to_itself() {
    let edges = [(1, 2), (2, 1)];
    assert_eq!(try_path(&edges[..], 7, 7), Some(vec![7]));
    assert_eq!(try_path(&edges[..], 1, 1), Some(vec![1]));
}

#[test]
fn path_follows_edges() {
    let edges = [(1, 2), (2, 3), (3, 4), (4, 5), (5, 6), (10, 11)];
    let p = try_path(&edges[..], 1, 6).unwrap();
    assert_eq!(p.first(), Some(&1));
    assert_eq!(p.last(), Some(&6));
    for w in p.windows(2) {
        assert!(edges.contains(&(w[0], w[1])));
    }
    assert_eq!(p, vec![1, 2, 3, 4, 5, 6]);
}

#[test]
fn no_path_between_components() {
    let edges = [(1, 2), (2, 3), (10, 11)];
    assert_eq!(try_path(&edges[..], 1, 11), None);
    assert_eq!(try_path(&edges[..], 3, 1), None);
}

#[test]
fn sorted_unique_dedups() {
    assert_eq!(sorted_unique(vec![3, 1, 3, 2, 1]), vec![1, 2, 3]);
    assert_eq!(sorted_unique(vec![]), Vec::<u32>::new());
}
