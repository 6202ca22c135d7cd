use std::collections::HashMap;

use candle_vllm::engine::{CacheConfig, EngineError, LLMEngine, PreparedInputs};
use candle_vllm::sequence::{Sequence, SequenceGroup};
use tokenizers::{Encoding, Token};

fn engine(block_size: usize, window: Option<usize>) -> LLMEngine {
    match LLMEngine::new(CacheConfig { block_size }, window) {
        Ok(e) => e,
        Err(_) => panic!("engine rejected"),
    }
}

fn seq(id: usize, tokens: Vec<usize>, block_size: usize, is_prompt: bool) -> Sequence {
    Sequence { id, token_ids: tokens, block_size, is_prompt }
}

fn group(group_id: usize, seqs: Vec<Sequence>) -> SequenceGroup {
    SequenceGroup { group_id, arrival_time: 0, seqs }
}

fn prompt(e: &LLMEngine, groups: &Vec<SequenceGroup>, tables: &HashMap<usize, Vec<usize>>) -> PreparedInputs {
    e.prepare_prompt(groups, tables)
}

#[test]
fn prefill_resolves_slots_through_the_table() {
    let e = engine(2, None);
    let groups = vec![group(0, vec![seq(7, vec![10, 20, 30], 2, true)])];
    let mut tables = HashMap::new();
    tables.insert(7usize, vec![4usize, 5]);
    let r = prompt(&e, &groups, &tables);
    assert!(r.is_prompt);
    assert_eq!(r.slot_mapping, vec![vec![8i64, 9, 10]]);
    assert_eq!(r.tokens, vec![vec![10usize, 20, 30]]);
    assert_eq!(r.positions, vec![vec![0usize, 1, 2]]);
    assert_eq!(r.prompt_lens, vec![3usize]);
    assert!(r.context_lens.is_none());
    assert!(r.block_tables.is_none());
    assert!(r.max_context_len.is_none());
}

#[test]
fn prefill_without_table_is_all_pad() {
    let e = engine(2, None);
    let groups = vec![group(0, vec![seq(7, vec![10, 20, 30], 2, true)])];
    let tables = HashMap::new();
    let r = prompt(&e, &groups, &tables);
    assert_eq!(r.slot_mapping, vec![vec![-1i64, -1, -1]]);
    assert_eq!(r.tokens, vec![vec![10usize, 20, 30]]);
}

#[test]
fn prefill_pads_rows_to_longest_prompt() {
    let e = engine(4, None);
    let groups = vec![
        group(0, vec![seq(1, vec![5, 6, 7], 4, true)]),
        group(1, vec![seq(2, vec![8], 4, true), seq(3, vec![9, 9], 4, true)]),
    ];
    let mut tables = HashMap::new();
    tables.insert(1usize, vec![3usize]);
    tables.insert(2usize, vec![0usize]);
    let r = prompt(&e, &groups, &tables);
    assert_eq!(r.tokens, vec![vec![5usize, 6, 7], vec![8, 0, 0], vec![9, 9, 0]]);
    assert_eq!(r.positions, vec![vec![0usize, 1, 2], vec![0, 0, 0], vec![0, 1, 0]]);
    assert_eq!(r.slot_mapping, vec![vec![12i64, 13, 14], vec![0, -1, -1], vec![-1, -1, -1]]);
    assert_eq!(r.prompt_lens, vec![3usize, 1, 2]);
}

#[test]
fn prefill_pads_positions_before_the_window() {
    let e = engine(2, Some(2));
    let groups = vec![group(0, vec![seq(7, vec![10, 20, 30], 2, true)])];
    let mut tables = HashMap::new();
    tables.insert(7usize, vec![4usize, 5]);
    let r = prompt(&e, &groups, &tables);
    assert_eq!(r.slot_mapping, vec![vec![-1i64, 9, 10]]);
}

#[test]
fn prefill_of_empty_batch_is_empty() {
    let e = engine(2, None);
    let r = prompt(&e, &vec![], &HashMap::new());
    assert!(r.tokens.is_empty());
    assert!(r.slot_mapping.is_empty());
}

#[test]
fn decode_resolves_newest_position() {
    let e = engine(4, None);
    let groups = vec![group(0, vec![seq(3, (0..10).collect(), 4, false)])];
    let mut tables = HashMap::new();
    tables.insert(3usize, vec![4usize, 5, 6]);
    let r = e.prepare_decode(&groups, &tables);
    assert!(!r.is_prompt);
    assert_eq!(r.tokens, vec![vec![9usize]]);
    assert_eq!(r.positions, vec![vec![9usize]]);
    assert_eq!(r.slot_mapping, vec![vec![25i64]]);
    assert_eq!(r.context_lens, Some(vec![10usize]));
    assert_eq!(r.max_context_len, Some(10));
    assert_eq!(r.block_tables, Some(vec![vec![4usize, 5, 6]]));
    assert!(r.prompt_lens.is_empty());
}

#[test]
fn decode_keeps_window_blocks_and_caps_context() {
    let e = engine(4, Some(5));
    let groups = vec![group(0, vec![seq(3, (0..10).collect(), 4, false)])];
    let mut tables = HashMap::new();
    tables.insert(3usize, vec![4usize, 5, 6]);
    let r = e.prepare_decode(&groups, &tables);
    assert_eq!(r.block_tables, Some(vec![vec![5usize, 6]]));
    assert_eq!(r.context_lens, Some(vec![5usize]));
    assert_eq!(r.max_context_len, Some(5));
    assert_eq!(r.slot_mapping, vec![vec![25i64]]);
}

#[test]
fn decode_window_keeps_at_most_the_whole_table() {
    let e = engine(4, Some(100));
    let groups = vec![group(0, vec![seq(3, (0..6).collect(), 4, false)])];
    let mut tables = HashMap::new();
    tables.insert(3usize, vec![8usize, 2]);
    let r = e.prepare_decode(&groups, &tables);
    assert_eq!(r.block_tables, Some(vec![vec![8usize, 2]]));
    assert_eq!(r.slot_mapping, vec![vec![9i64]]);
}

#[test]
fn decode_window_smaller_than_a_block_keeps_one() {
    let e = engine(4, Some(3));
    let groups = vec![group(0, vec![seq(3, (0..10).collect(), 4, false)])];
    let mut tables = HashMap::new();
    tables.insert(3usize, vec![4usize, 5, 6]);
    let r = e.prepare_decode(&groups, &tables);
    assert_eq!(r.block_tables, Some(vec![vec![6usize]]));
    assert_eq!(r.context_lens, Some(vec![3usize]));
}

#[test]
fn decode_pads_block_tables_with_block_zero() {
    let e = engine(2, None);
    let groups = vec![group(0, vec![seq(1, vec![1, 2, 3], 2, false), seq(2, vec![4], 2, false)])];
    let mut tables = HashMap::new();
    tables.insert(1usize, vec![7usize, 9]);
    tables.insert(2usize, vec![3usize]);
    let r = e.prepare_decode(&groups, &tables);
    assert_eq!(r.tokens, vec![vec![3usize], vec![4]]);
    assert_eq!(r.positions, vec![vec![2usize], vec![0]]);
    assert_eq!(r.slot_mapping, vec![vec![18i64], vec![6]]);
    assert_eq!(r.block_tables, Some(vec![vec![7usize, 9], vec![3, 0]]));
    assert_eq!(r.context_lens, Some(vec![3usize, 1]));
    assert_eq!(r.max_context_len, Some(3));
}

#[test]
fn zero_block_size_is_rejected() {
    match LLMEngine::new(CacheConfig { block_size: 0 }, None) {
        Err(e) => assert_eq!(e, EngineError::ZeroBlockSize),
        Ok(_) => panic!("accepted a zero block size"),
    }
}

#[test]
fn new_engine_keeps_its_configuration() {
    let e = engine(16, Some(4096));
    assert_eq!(e.get_block_size(), 16);
    assert_eq!(e.get_sliding_window(), Some(4096));
}

#[test]
fn add_request_assigns_fresh_ids() {
    let mut e = engine(4, None);
    e.add_request(&vec![11u32, 12, 13], 100);
    e.add_request(&vec![14u32], 101);
    let waiting = e.take_waiting();
    assert_eq!(waiting.len(), 2);
    assert_eq!(waiting[0].group_id, 0);
    assert_eq!(waiting[1].group_id, 1);
    assert_eq!(waiting[0].arrival_time, 100);
    assert_eq!(waiting[0].seqs.len(), 1);
    assert_eq!(waiting[0].seqs[0].id, 0);
    assert_eq!(waiting[1].seqs[0].id, 1);
    assert_eq!(waiting[0].seqs[0].token_ids, vec![11usize, 12, 13]);
    assert_eq!(waiting[0].seqs[0].block_size, 4);
    assert!(waiting[0].seqs[0].is_prompt);
    assert!(e.take_waiting().is_empty());
}

#[test]
fn step_requeues_ignored_groups_and_classifies() {
    let mut e = engine(2, None);
    let mut tables = HashMap::new();
    tables.insert(7usize, vec![4usize, 5]);
    let scheduled = vec![group(0, vec![seq(7, vec![10, 20, 30], 2, true)])];
    let ignored = vec![group(5, vec![seq(9, vec![1], 2, true)])];
    let r = e.prepare_step(&scheduled, ignored, &tables);
    match r {
        Some(p) => {
            assert!(p.is_prompt);
            assert_eq!(p.slot_mapping, vec![vec![8i64, 9, 10]]);
        }
        None => panic!("no batch prepared"),
    }
    let decode = vec![group(0, vec![seq(7, vec![10, 20, 30], 2, false)])];
    match e.prepare_step(&decode, vec![], &tables) {
        Some(p) => {
            assert!(!p.is_prompt);
            assert_eq!(p.slot_mapping, vec![vec![10i64]]);
        }
        None => panic!("no batch prepared"),
    }
    assert!(e.prepare_step(&vec![], vec![], &tables).is_none());
    let waiting = e.take_waiting();
    assert_eq!(waiting.len(), 1);
    assert_eq!(waiting[0].group_id, 5);
}

#[test]
fn add_request_takes_the_encoding_ids() {
    let mut e = engine(2, None);
    let enc = Encoding::from_tokens(
        vec![Token::new(31, "a".to_string(), (0, 1)), Token::new(7, "b".to_string(), (1, 2))],
        0,
    );
    let ids = enc.get_ids().to_vec();
    e.add_request(&ids, 5);
    let waiting = e.take_waiting();
    assert_eq!(waiting.len(), 1);
    assert_eq!(waiting[0].seqs[0].token_ids, vec![31usize, 7]);
    assert_eq!(waiting[0].arrival_time, 5);
}
