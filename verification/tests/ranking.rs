use mfsk_core::select::{
    best_of, first_peak_above, last_peak, merge_best, nth_smallest, rank_admitted, rank_desc,
    robust_median, settle, split_in_half, suppress, WithinDistance,
};

#[test]
fn ranking_is_stable() {
    assert_eq!(rank_desc(&[5, 9, 5, 1, 9]), vec![1, 4, 0, 2, 3]);
    assert_eq!(rank_desc(&[]), Vec::<usize>::new());
    assert_eq!(best_of(&[5, 9, 5, 1, 9], 3), vec![1, 4, 0]);
    assert_eq!(best_of(&[5, 9], 3), vec![1, 0]);
    assert_eq!(
        rank_admitted(&[5, 9, 5, 1, 9], &[true, false, true, true, true]),
        vec![4, 0, 2, 3]
    );
}

#[test]
fn divided_ranking_equals_the_whole() {
    let keys: Vec<u32> = (0..23).map(|i: u32| (i * 7919) % 10).collect();
    for limit in 0..25usize {
        let (head, tail) = split_in_half(keys.clone());
        let mid = head.len();
        assert_eq!((mid, tail.len()), (11, 12));
        let h = best_of(&head, limit);
        let t = best_of(&tail, limit);
        let hk: Vec<u32> = h.iter().map(|&i| head[i]).collect();
        let tk: Vec<u32> = t.iter().map(|&i| tail[i]).collect();
        let merged: Vec<usize> = merge_best(&hk, &tk, limit)
            .into_iter()
            .map(|x| if x < h.len() { h[x] } else { mid + t[x - h.len()] })
            .collect();
        assert_eq!(merged, best_of(&keys, limit), "limit {limit}");
    }
}

#[test]
fn neighbours_of_better_ones_are_dropped() {
    let positions = [10i64, 12, 30, 11, 50];
    let near = WithinDistance { positions: &positions, radius: 2 };
    assert_eq!(suppress(&near, &[3, 0, 2, 1, 4], 10), vec![3, 2, 4]);
    assert_eq!(suppress(&near, &[3, 0, 2, 1, 4], 2), vec![3, 2]);
}

#[test]
fn the_weaker_neighbour_is_silenced() {
    let positions = [0i64, 1, 10];
    let near = WithinDistance { positions: &positions, radius: 1 };
    let mut keys = vec![7u32, 9, 8];
    settle(&near, &mut keys, 0);
    assert_eq!(keys, vec![0, 9, 8]);
}

#[test]
fn peaks() {
    assert_eq!(first_peak_above(&[1, 5, 5, 2], 4), Some(1));
    assert_eq!(first_peak_above(&[1, 5, 5, 2], 5), None);
    assert_eq!(last_peak(&[1, 5, 5, 2]), 2);
    assert_eq!(nth_smallest(&[9, 3, 7, 3], 2), 7);
    assert_eq!(robust_median(&[0, 0, 8, 4, 6], 0), Some(6));
    assert_eq!(robust_median(&[0, 0], 0), None);
}
