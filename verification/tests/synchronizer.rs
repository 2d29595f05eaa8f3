use magic_loc_central::proto::RangeReport;
use magic_loc_central::synchronizer::{drain, synchronize, Synchronizer};
use std::collections::VecDeque;

fn report(tag: u16, key: u64) -> RangeReport {
    RangeReport { tag_addr: tag, system_ts: 0, seq_num: 0, trigger_txts: key, ranges: [0; 8] }
}

fn fifos_of(keys: &[&[u64]]) -> Vec<VecDeque<RangeReport>> {
    let mut fifos = Vec::new();
    for (tag, queue) in keys.iter().enumerate() {
        let mut fifo = VecDeque::new();
        for key in queue.iter() {
            fifo.push_back(report(tag as u16, *key));
        }
        fifos.push(fifo);
    }
    fifos
}

fn keys_of(fifos: &Vec<VecDeque<RangeReport>>) -> Vec<Vec<u64>> {
    fifos.iter().map(|f| f.iter().map(|r| r.trigger_txts).collect()).collect()
}

#[test]
fn three_queues_share_one_key() {
    let mut fifos = fifos_of(&[&[5, 7, 9], &[9, 10], &[7, 9]]);
    let batch = synchronize(&mut fifos).unwrap();
    assert_eq!(batch.len(), 3);
    for (i, r) in batch.iter().enumerate() {
        assert_eq!(r.trigger_txts, 9);
        assert_eq!(r.tag_addr, i as u16);
    }
    assert_eq!(keys_of(&fifos), vec![vec![], vec![10], vec![]]);
    assert!(synchronize(&mut fifos).is_none());
    assert_eq!(keys_of(&fifos), vec![vec![], vec![10], vec![]]);
}

#[test]
fn three_queues_drained_give_exactly_one_batch() {
    let mut fifos = fifos_of(&[&[5, 7, 9], &[9, 10], &[7, 9]]);
    let batches = drain(&mut fifos);
    assert_eq!(batches.len(), 1);
    assert!(batches[0].iter().all(|r| r.trigger_txts == 9));
    assert_eq!(keys_of(&fifos), vec![vec![], vec![10], vec![]]);
}

#[test]
fn empty_queue_blocks_everything() {
    let mut fifos = fifos_of(&[&[1, 2, 3], &[], &[1, 2, 3]]);
    assert!(synchronize(&mut fifos).is_none());
    assert_eq!(keys_of(&fifos), vec![vec![1, 2, 3], vec![], vec![1, 2, 3]]);
    assert!(drain(&mut fifos).is_empty());
}

#[test]
fn no_queues_give_nothing() {
    let mut fifos: Vec<VecDeque<RangeReport>> = Vec::new();
    assert!(synchronize(&mut fifos).is_none());
}

#[test]
fn no_common_key_leaves_queues_alone() {
    let mut fifos = fifos_of(&[&[1, 2], &[3, 4]]);
    assert!(synchronize(&mut fifos).is_none());
    assert_eq!(keys_of(&fifos), vec![vec![1, 2], vec![3, 4]]);
}

#[test]
fn first_key_of_first_queue_wins_a_tie() {
    let mut fifos = fifos_of(&[&[4, 8, 6], &[6, 8, 4]]);
    let batch = synchronize(&mut fifos).unwrap();
    assert!(batch.iter().all(|r| r.trigger_txts == 4));
    assert_eq!(keys_of(&fifos), vec![vec![8, 6], vec![]]);
}

#[test]
fn repeated_key_in_one_queue_still_matches() {
    let mut fifos = fifos_of(&[&[2, 2], &[1, 2]]);
    let batches = drain(&mut fifos);
    assert_eq!(batches.len(), 1);
    assert_eq!(keys_of(&fifos), vec![vec![2], vec![]]);
}

#[test]
fn drain_draws_every_batch_in_order() {
    let mut fifos = fifos_of(&[&[1, 2, 3], &[1, 2, 3]]);
    let batches = drain(&mut fifos);
    let keys: Vec<u64> = batches.iter().map(|b| b[0].trigger_txts).collect();
    assert_eq!(keys, vec![1, 2, 3]);
    assert_eq!(keys_of(&fifos), vec![Vec::<u64>::new(), vec![]]);
}

#[test]
fn synchronizer_pushes_and_draws() {
    let mut sync = Synchronizer::new(2);
    assert_eq!(sync.fifos.len(), 2);
    sync.push(0, report(0, 11));
    assert!(sync.try_synchronize().is_none());
    sync.push(1, report(1, 10));
    sync.push(1, report(1, 11));
    let batch = sync.try_synchronize().unwrap();
    assert_eq!(batch, vec![report(0, 11), report(1, 11)]);
    assert!(sync.fifos[0].is_empty());
    assert!(sync.fifos[1].is_empty());
    assert!(sync.try_synchronize().is_none());
}
