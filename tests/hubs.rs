use hub_finder::hubs::extract_hubs;
use kodama::{linkage, Method};

fn cluster(mut matrix: Vec<f32>, singles: usize, wanted: usize) -> Option<Vec<usize>> {
    let dend = linkage(&mut matrix, singles, Method::Average);
    let steps: Vec<(usize, usize)> =
        dend.steps().iter().map(|s| (s.cluster1, s.cluster2)).collect();
    extract_hubs(&steps, singles, wanted)
}

#[test]
fn test_simple_clustering() {
    // 0-1 close, 2-3 close, 4 far from everyone.
    let mat: Vec<f32> = vec![1.0, 6.1, 6.5, 10.1, 5.0, 6.2, 10.0, 1.5, 8.0, 7.0];
    let all_sorted_singles = cluster(mat, 5, 5);
    assert_eq!(all_sorted_singles, Some(vec![4, 2, 3, 0, 1]));
}

#[test]
fn walk_takes_whole_steps() {
    // Root joins leaf 4 with cluster 7, then 7 joins clusters 5 and 6,
    // 6 joins leaves 2 and 3, 5 joins leaves 0 and 1.
    let steps = vec![(0, 1), (2, 3), (5, 6), (4, 7)];
    assert_eq!(extract_hubs(&steps, 5, 1), Some(vec![4]));
    assert_eq!(extract_hubs(&steps, 5, 2), Some(vec![4, 2, 3]));
    assert_eq!(extract_hubs(&steps, 5, 3), Some(vec![4, 2, 3]));
    assert_eq!(extract_hubs(&steps, 5, 4), Some(vec![4, 2, 3, 0, 1]));
    assert_eq!(extract_hubs(&steps, 5, 0), Some(vec![]));
}

#[test]
fn walk_fails_when_leaves_run_out() {
    let steps = vec![(0, 1), (2, 3), (5, 6), (4, 7)];
    assert_eq!(extract_hubs(&steps, 5, 6), None);
    assert_eq!(extract_hubs(&[], 1, 1), None);
}

#[test]
fn walk_length_is_k_or_one_more() {
    let mat: Vec<f32> = vec![1.0, 6.1, 6.5, 10.1, 5.0, 6.2, 10.0, 1.5, 8.0, 7.0];
    for k in 1..=5 {
        let hubs = cluster(mat.clone(), 5, k).unwrap();
        assert!(hubs.len() == k || hubs.len() == k + 1);
        let mut seen = hubs.clone();
        seen.sort();
        seen.dedup();
        assert_eq!(seen.len(), hubs.len());
        assert!(hubs.iter().all(|&h| h < 5));
    }
}
