use nxdl::blocks::{
    check_size, expected_size, object_offsets, plan_file, sum_of, FileStep,
};
use nxdl::resume::{create_progress, mark_done, read_progress, sidecar_nxl};

#[test]
fn sizes_are_added_up() {
    assert_eq!(sum_of(&[]), 0);
    assert_eq!(sum_of(&[1, 2, 3]), 6);
    assert_eq!(sum_of(&[u64::MAX, u64::MAX]), 2 * (u64::MAX as u128));
}

#[test]
fn offsets_follow_the_sizes() {
    assert_eq!(object_offsets(&[5, 0, 7], 3), vec![0, 5, 5]);
    assert_eq!(object_offsets(&[5, 0, 7], 2), vec![0, 5]);
    assert_eq!(object_offsets(&[5, 0, 7], 0), Vec::<u64>::new());
    // One offset behind the last size, and none after that.
    assert_eq!(object_offsets(&[5, 6], 4), vec![0, 5, 11]);
    assert_eq!(object_offsets(&[], 3), vec![0]);
    // The size of the last block is not added.
    assert_eq!(object_offsets(&[1, u64::MAX], 2), vec![0, 1]);
}

#[test]
fn blocks_without_a_size_should_be_empty() {
    assert_eq!(expected_size(&[3, 4], 1), 4);
    assert_eq!(expected_size(&[3, 4], 2), 0);
    assert!(check_size("id", 2, b"ab").is_ok());
    assert_eq!(
        check_size("id", 3, b"ab").unwrap_err().message(),
        "object id decompressed size mismatch: expected 3, got 2"
    );
}

#[test]
fn a_file_without_a_sidecar_starts_anew() {
    let plan = plan_file(3, &[1, 2, 3], 6, None, Some(6));
    assert_eq!(plan.completed, vec![false; 3]);
    assert!(!plan.stale && !plan.resuming);
    assert_eq!((plan.already_done, plan.done_count), (0, 0));
    assert_eq!(plan.pending, vec![0, 1, 2]);
    assert_eq!(plan.step, FileStep::Parallel { workers: 3 });
    let single = plan_file(1, &[6], 6, None, None);
    assert_eq!(single.step, FileStep::Single);
    let empty = plan_file(0, &[], 0, None, None);
    assert_eq!(empty.step, FileStep::Finished);
    assert!(!empty.resuming);
    let many = plan_file(9, &[1; 9], 9, None, None);
    assert_eq!(many.step, FileStep::Parallel { workers: 5 });
}

#[test]
fn a_sidecar_is_gone_on_from() {
    let mut sidecar = create_progress(4, 10, &sidecar_nxl());
    mark_done(&mut sidecar, 1).unwrap();
    mark_done(&mut sidecar, 3).unwrap();
    let saved = read_progress(&sidecar, &sidecar_nxl());
    // The last block has no size and counts for nothing.
    let plan = plan_file(4, &[1, 2, 7], 10, saved, Some(10));
    assert_eq!(plan.completed, vec![false, true, false, true]);
    assert!(plan.resuming && !plan.stale);
    assert_eq!((plan.already_done, plan.done_count), (2, 2));
    assert_eq!(plan.pending, vec![0, 2]);
    assert_eq!(plan.step, FileStep::Parallel { workers: 2 });
}

#[test]
fn a_finished_file_needs_nothing() {
    let plan = plan_file(2, &[1, 2], 3, Some((vec![1, 1], 2, 3)), Some(3));
    assert_eq!(plan.step, FileStep::Finished);
    assert!(plan.pending.is_empty());
    let one = plan_file(1, &[3], 3, Some((vec![0], 1, 3)), Some(3));
    assert_eq!(one.step, FileStep::Single);
    assert!(!one.stale && !one.resuming);
}

#[test]
fn a_sidecar_that_does_not_fit_is_stale() {
    let saved = || Some((vec![1, 1], 2, 3));
    for plan in [
        plan_file(3, &[1, 1, 1], 3, saved(), Some(3)),
        plan_file(2, &[1, 2], 4, saved(), Some(4)),
        plan_file(2, &[1, 2], 3, saved(), Some(2)),
        plan_file(2, &[1, 2], 3, saved(), None),
    ] {
        assert!(plan.stale && !plan.resuming);
        assert_eq!(plan.done_count, 0);
        assert_eq!(plan.pending.len(), plan.completed.len());
    }
}

#[test]
fn blocks_written_in_any_order_make_the_file() {
    let blocks: Vec<Vec<u8>> = vec![vec![1; 3], vec![], vec![2; 5], vec![3; 1]];
    let sizes: Vec<u64> = blocks.iter().map(|b| b.len() as u64).collect();
    let total: usize = sum_of(&sizes) as usize;
    let offsets = object_offsets(&sizes, blocks.len());
    let joined: Vec<u8> = blocks.concat();
    for order in [[0, 1, 2, 3], [3, 2, 1, 0], [2, 0, 3, 1]] {
        let mut file = vec![0xEE; total];
        let mut sidecar = create_progress(4, total as u64, &sidecar_nxl());
        let mut runs = 0;
        // One block per run: each run goes on where the last one broke off.
        loop {
            let saved = read_progress(&sidecar, &sidecar_nxl());
            let plan = plan_file(4, &sizes, total as u64, saved, Some(total as u64));
            if plan.step == FileStep::Finished {
                break;
            }
            let i = *order.iter().find(|i| plan.pending.contains(i)).unwrap();
            let at = offsets[i] as usize;
            file[at..at + blocks[i].len()].copy_from_slice(&blocks[i]);
            mark_done(&mut sidecar, i as u32).unwrap();
            runs += 1;
        }
        assert_eq!(runs, 4);
        assert_eq!(file, joined);
    }
}
