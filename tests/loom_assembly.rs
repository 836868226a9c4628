use loom_weave::loom::{assemble, assemble_level, attach, mirror_thread, spin_threads};

#[test]
fn shared_endpoint_chains_form_one_thread() {
    let levels = vec![vec![vec![1, 2, 3], vec![3, 4, 5]]];
    assert_eq!(spin_threads(&levels), vec![vec![1, 2, 3, 4, 5]]);
}

#[test]
fn attach_in_each_orientation() {
    assert_eq!(attach(&vec![1, 2, 3], &vec![3, 4]), Some(vec![1, 2, 3, 4]));
    assert_eq!(attach(&vec![1, 2, 3], &vec![4, 3]), Some(vec![1, 2, 3, 4]));
    assert_eq!(attach(&vec![1, 2, 3], &vec![0, 1]), Some(vec![0, 1, 2, 3]));
    assert_eq!(attach(&vec![1, 2, 3], &vec![1, 0]), Some(vec![0, 1, 2, 3]));
    assert_eq!(attach(&vec![1, 2, 3], &vec![5, 6]), None);
    assert_eq!(attach(&vec![], &vec![5, 6]), None);
}

#[test]
fn a_thread_is_matched_once_per_level() {
    let mut threads = vec![vec![1, 2]];
    assemble_level(&mut threads, &vec![vec![2, 3], vec![1, 0]]);
    assert_eq!(threads, vec![vec![1, 2, 3], vec![1, 0]]);
    assemble_level(&mut threads, &vec![vec![0, 9]]);
    assert_eq!(threads, vec![vec![1, 2, 3], vec![1, 0, 9]]);
}

#[test]
fn unmatched_chain_starts_a_thread() {
    let mut threads: Vec<Vec<u32>> = vec![];
    assemble_level(&mut threads, &vec![vec![1, 2], vec![5, 6]]);
    assert_eq!(threads, vec![vec![1, 2], vec![5, 6]]);
}

#[test]
fn mirror_closes_thread() {
    let mirror: Vec<u32> = (0..20).map(|n| n + 10).collect();
    let r = mirror_thread(&vec![1, 2, 3], &mirror);
    assert_eq!(r, vec![1, 2, 3, 13, 12, 11]);
    assert_eq!(r.len() % 2, 0);
}

#[test]
fn assemble_orders_by_length() {
    let mirror: Vec<u32> = (0..40).map(|n| n + 20).collect();
    let levels = vec![vec![vec![1, 2, 3], vec![7, 8]], vec![vec![3, 4]]];
    let loom = assemble(&levels, &mirror);
    assert_eq!(loom.len(), 2);
    assert_eq!(loom[0].data, vec![7, 8, 28, 27]);
    assert_eq!(loom[1].data, vec![1, 2, 3, 4, 24, 23, 22, 21]);
    assert!(loom.iter().all(|c| !c.joined));
}
