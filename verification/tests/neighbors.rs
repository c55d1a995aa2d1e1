use pcisph::config::NUM_NEIGHBORS;
use pcisph::neighbors::{select_neighbors, Neighbor};

fn pairs(list: &Vec<Neighbor<f32>>) -> Vec<(usize, f32)> {
    list.iter().map(|n| (n.index, n.r)).collect()
}

#[test]
fn the_cap_is_sixty_four() {
    assert_eq!(NUM_NEIGHBORS, 64);
}

#[test]
fn select_keeps_measured_candidates_in_scan_order() {
    let cands = vec![7, 3, 9, 4, 1];
    let measured = vec![Some(0.1_f32), None, Some(0.15), None, Some(0.05)];
    let list = select_neighbors(&cands, &measured);
    assert_eq!(pairs(&list), vec![(7, 0.1), (9, 0.15), (1, 0.05)]);
}

#[test]
fn select_of_nothing_is_empty() {
    let list = select_neighbors::<f32>(&Vec::new(), &Vec::new());
    assert!(list.is_empty());
    let list = select_neighbors::<f32>(&vec![1, 2, 3], &vec![None, None, None]);
    assert!(list.is_empty());
}

#[test]
fn select_treats_a_short_report_as_out_of_range() {
    let cands = vec![7, 3, 9, 4];
    let measured = vec![None, Some(0.5_f32)];
    let list = select_neighbors(&cands, &measured);
    assert_eq!(pairs(&list), vec![(3, 0.5)]);
    let list = select_neighbors::<f32>(&cands, &Vec::new());
    assert!(list.is_empty());
}

#[test]
fn select_ignores_measurements_beyond_the_candidates() {
    let cands = vec![5];
    let measured = vec![Some(1_u32), Some(2), Some(3)];
    let list = select_neighbors(&cands, &measured);
    assert_eq!(list.len(), 1);
    assert_eq!((list[0].index, list[0].r), (5, 1));
}

#[test]
fn select_keeps_the_first_found_up_to_the_cap() {
    // 100 candidates, every other one measured from the start, then all.
    let cands: Vec<usize> = (0..100).map(|k| 1000 + k).collect();
    let measured: Vec<Option<u32>> = (0..100_u32).map(Some).collect();
    let list = select_neighbors(&cands, &measured);
    assert_eq!(list.len(), 64);
    for k in 0..64 {
        assert_eq!(list[k].index, 1000 + k);
        assert_eq!(list[k].r, k as u32);
    }
    // A nearer candidate found late does not displace an earlier one.
    let measured: Vec<Option<u32>> = (0..100_u32).map(|k| Some(100 - k)).collect();
    let list = select_neighbors(&cands, &measured);
    assert_eq!(list.len(), 64);
    assert_eq!(list[63].index, 1063);
    assert_eq!(list[63].r, 37);
}

#[test]
fn select_at_exactly_the_cap_drops_nothing() {
    let cands: Vec<usize> = (0..80).collect();
    let measured: Vec<Option<u32>> = (0..80_u32).map(|k| if k < 64 { Some(k) } else { None }).collect();
    let list = select_neighbors(&cands, &measured);
    assert_eq!(list.len(), 64);
    let measured: Vec<Option<u32>> = (0..80_u32).map(|k| if k < 65 { Some(k) } else { None }).collect();
    let list = select_neighbors(&cands, &measured);
    assert_eq!(list.len(), 64);
    assert_eq!(list[63].index, 63);
}
