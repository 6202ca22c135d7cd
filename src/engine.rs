//! The step driver: admits requests, keeps groups that wait for the
//! scheduler, and turns each scheduled batch into padded model inputs.
use std::collections::HashMap;

use vstd::prelude::*;

use crate::addressing::{slot_of, PAD_SLOT_ID};
use crate::prepare::{
    lemma_seq_max_bounds, lemma_seq_max_step, pad_row, padded, position_row,
    prompt_slot_mapping, prompt_slots, seq_max, table_fits, table_slot,
};
use crate::sequence::{flat_seqs, sequence_order, Sequence, SequenceGroup};

verus! {

broadcast use vstd::std_specs::hash::group_hash_axioms;

/// Cache layout settings the engine reads.
pub struct CacheConfig {
    /// Tokens per cache block.
    pub block_size: usize,
}

/// A rejected engine configuration.
#[derive(Clone, Copy, Debug, PartialEq, Eq, Structural)]
pub enum EngineError {
    /// A block must hold at least one token.
    ZeroBlockSize,
}

/// The padded batch handed to the model: one row per sequence, in traversal
/// order.
pub struct PreparedInputs {
    pub tokens: Vec<Vec<usize>>,
    pub positions: Vec<Vec<usize>>,
    pub slot_mapping: Vec<Vec<i64>>,
    pub prompt_lens: Vec<usize>,
    pub max_context_len: Option<usize>,
    pub context_lens: Option<Vec<usize>>,
    pub block_tables: Option<Vec<Vec<usize>>>,
    pub is_prompt: bool,
}

/// The block table of sequence `id`, if one has been allocated.
pub open spec fn table_of(tables: Map<usize, Vec<usize>>, id: usize) -> Option<Seq<usize>> {
    if tables.contains_key(id) {
        Some(tables[id]@)
    } else {
        None
    }
}

/// The prompt length of each sequence.
pub open spec fn token_lens(seqs: Seq<Sequence>) -> Seq<int> {
    seqs.map_values(|s: Sequence| s.token_ids@.len() as int)
}

/// Every allocated table covers its sequence's prompt.
pub open spec fn prompt_ready(seqs: Seq<Sequence>, tables: Map<usize, Vec<usize>>, block_size: usize) -> bool {
    forall|k: int|
        0 <= k < seqs.len() && tables.contains_key(#[trigger] seqs[k].id) ==> table_fits(
            tables[seqs[k].id]@,
            seqs[k].token_ids@.len() as int,
            block_size as int,
        )
}

/// `r` is the prefill batch of `seqs`.
pub open spec fn prompt_inputs(
    r: PreparedInputs,
    seqs: Seq<Sequence>,
    tables: Map<usize, Vec<usize>>,
    block_size: usize,
    window: Option<usize>,
) -> bool {
    let width = seq_max(token_lens(seqs)) as nat;
    &&& r.is_prompt
    &&& r.tokens@.len() == seqs.len()
    &&& r.positions@.len() == seqs.len()
    &&& r.slot_mapping@.len() == seqs.len()
    &&& r.prompt_lens@.len() == seqs.len()
    &&& r.max_context_len is None
    &&& r.context_lens is None
    &&& r.block_tables is None
    &&& forall|k: int|
        0 <= k < seqs.len() ==> {
            let s = #[trigger] seqs[k];
            let len = s.token_ids@.len();
            &&& r.prompt_lens@[k] == len
            &&& r.tokens@[k]@ == padded(s.token_ids@, width, 0usize)
            &&& r.positions@[k]@ == padded(Seq::new(len, |i: int| i as usize), width, 0usize)
            &&& r.slot_mapping@[k]@ == padded(
                prompt_slots(len, table_of(tables, s.id), block_size as int, window),
                width,
                PAD_SLOT_ID,
            )
        }
}

/// How many trailing blocks a window of `window` tokens keeps: `ceil(window / block_size)`.
pub open spec fn window_blocks(window: int, block_size: int) -> int {
    window / block_size + if window % block_size == 0 { 0int } else { 1int }
}

/// The block table a decode step hands to the model: the whole table, or
/// its last `ceil(window / block_size)` entries under a sliding window.
pub open spec fn decode_table(table: Seq<usize>, window: Option<usize>, block_size: int) -> Seq<usize> {
    match window {
        Some(w) => {
            let keep = if table.len() < window_blocks(w as int, block_size) {
                table.len() as int
            } else {
                window_blocks(w as int, block_size)
            };
            table.subrange(table.len() - keep, table.len() as int)
        },
        None => table,
    }
}

/// Tokens of history a decode step attends to.
pub open spec fn context_len(len: int, window: Option<usize>) -> int {
    match window {
        Some(w) => if len < w { len } else { w as int },
        None => len,
    }
}

/// The slot of the newest token of a sequence of `len` tokens.
pub open spec fn decode_slot(table: Seq<usize>, len: int, block_size: int) -> int {
    slot_of(table[(len - 1) / block_size] as int, (len - 1) % block_size, block_size)
}

/// Every sequence has a table covering it and at least one token.
pub open spec fn decode_ready(seqs: Seq<Sequence>, tables: Map<usize, Vec<usize>>, block_size: usize) -> bool {
    forall|k: int|
        0 <= k < seqs.len() ==> {
            &&& tables.contains_key(#[trigger] seqs[k].id)
            &&& seqs[k].token_ids@.len() >= 1
            &&& table_fits(tables[seqs[k].id]@, seqs[k].token_ids@.len() as int, block_size as int)
        }
}

/// The context length of each sequence.
pub open spec fn context_lens_of(seqs: Seq<Sequence>, window: Option<usize>) -> Seq<int> {
    seqs.map_values(|s: Sequence| context_len(s.token_ids@.len() as int, window))
}

/// The length of each sequence's decode table.
pub open spec fn decode_table_lens(
    seqs: Seq<Sequence>,
    tables: Map<usize, Vec<usize>>,
    window: Option<usize>,
    block_size: usize,
) -> Seq<int> {
    seqs.map_values(|s: Sequence| decode_table(tables[s.id]@, window, block_size as int).len() as int)
}

/// `r` is the decode batch of `seqs`.
pub open spec fn decode_inputs(
    r: PreparedInputs,
    seqs: Seq<Sequence>,
    tables: Map<usize, Vec<usize>>,
    block_size: usize,
    window: Option<usize>,
) -> bool {
    let width = seq_max(decode_table_lens(seqs, tables, window, block_size)) as nat;
    &&& !r.is_prompt
    &&& r.tokens@.len() == seqs.len()
    &&& r.positions@.len() == seqs.len()
    &&& r.slot_mapping@.len() == seqs.len()
    &&& r.prompt_lens@.len() == 0
    &&& r.max_context_len == Some(seq_max(context_lens_of(seqs, window)) as usize)
    &&& r.context_lens matches Some(c) && c@.len() == seqs.len()
    &&& r.block_tables matches Some(b) && b@.len() == seqs.len()
    &&& forall|k: int|
        0 <= k < seqs.len() ==> {
            let s = #[trigger] seqs[k];
            let len = s.token_ids@.len() as int;
            let table = tables[s.id]@;
            &&& r.tokens@[k]@ == seq![s.token_ids@[len - 1]]
            &&& r.positions@[k]@ == seq![(len - 1) as usize]
            &&& r.slot_mapping@[k]@ == seq![decode_slot(table, len, block_size as int) as i64]
            &&& r.context_lens.unwrap()@[k] == context_len(len, window)
            &&& r.block_tables.unwrap()@[k]@ == padded(decode_table(table, window, block_size as int), width, 0usize)
        }
}


/// The table a decode step hands to the model; see `decode_table`.
pub fn window_table(table: &Vec<usize>, window: Option<usize>, block_size: usize) -> (r: Vec<usize>)
    requires
        block_size > 0,
    ensures
        r@ == decode_table(table@, window, block_size as int),
{
    let n = table.len();
    let keep: usize = match window {
        Some(w) => {
            let q = w / block_size;
            let blocks = if w % block_size == 0 {
                q
            } else {
                assert(q < w) by (nonlinear_arith)
                    requires
                        block_size > 0,
                        q == w / block_size,
                        w % block_size != 0,
                ;
                q + 1
            };
            if n < blocks { n } else { blocks }
        },
        None => n,
    };
    let mut r: Vec<usize> = Vec::new();
    let mut i: usize = n - keep;
    while i < n
        invariant
            keep <= n,
            n == table@.len(),
            n - keep <= i <= n,
            r@ == table@.subrange(n - keep, i as int),
        decreases n - i,
    {
        r.push(table[i]);
        i = i + 1;
        assert(r@ =~= table@.subrange(n - keep, i as int));
    }
    assert(window is None ==> table@.subrange(0, n as int) =~= table@);
    r
}

/// Tokens of history a decode step attends to; see `context_len`.
pub fn context_length(len: usize, window: Option<usize>) -> (r: usize)
    ensures
        r == context_len(len as int, window),
{
    match window {
        Some(w) => if len < w { len } else { w },
        None => len,
    }
}

/// Drives inference steps: hands out fresh sequence and group ids, keeps the
/// groups waiting to be handed to the scheduler, and prepares batches.
pub struct LLMEngine {
    seq_id: usize,
    group_id: usize,
    cache_config: CacheConfig,
    sliding_window: Option<usize>,
    waiting: Vec<SequenceGroup>,
}

impl LLMEngine {
    /// Tokens per cache block.
    pub closed spec fn block_size(&self) -> usize {
        self.cache_config.block_size
    }

    /// The configured sliding window, in tokens.
    pub closed spec fn window(&self) -> Option<usize> {
        self.sliding_window
    }

    /// The id the next admitted sequence gets.
    pub closed spec fn next_seq_id(&self) -> usize {
        self.seq_id
    }

    /// The id the next admitted group gets.
    pub closed spec fn next_group_id(&self) -> usize {
        self.group_id
    }

    /// Groups admitted or returned unscheduled, waiting for the scheduler.
    pub closed spec fn waiting(&self) -> Seq<SequenceGroup> {
        self.waiting@
    }

    /// The block size is positive.
    pub closed spec fn wf(&self) -> bool {
        self.cache_config.block_size > 0
    }

    /// An engine with no request admitted yet; a zero block size is rejected.
    pub fn new(cache_config: CacheConfig, sliding_window: Option<usize>) -> (r: Result<Self, EngineError>)
        ensures
            cache_config.block_size == 0 <==> r is Err,
            r matches Err(e) ==> e == EngineError::ZeroBlockSize,
            r matches Ok(engine) ==> {
                &&& engine.wf()
                &&& engine.block_size() == cache_config.block_size
                &&& engine.window() == sliding_window
                &&& engine.next_seq_id() == 0
                &&& engine.next_group_id() == 0
                &&& engine.waiting().len() == 0
            },
    {
        if cache_config.block_size == 0 {
            return Err(EngineError::ZeroBlockSize);
        }
        Ok(LLMEngine { seq_id: 0, group_id: 0, cache_config, sliding_window, waiting: Vec::new() })
    }

    /// Tokens per cache block.
    pub fn get_block_size(&self) -> (r: usize)
        ensures
            r == self.block_size(),
    {
        self.cache_config.block_size
    }

    /// The configured sliding window, in tokens.
    pub fn get_sliding_window(&self) -> (r: Option<usize>)
        ensures
            r == self.window(),
    {
        self.sliding_window
    }

    /// The id the next admitted sequence gets.
    pub fn get_next_seq_id(&self) -> (r: usize)
        ensures
            r == self.next_seq_id(),
    {
        self.seq_id
    }

    /// The id the next admitted group gets.
    pub fn get_next_group_id(&self) -> (r: usize)
        ensures
            r == self.next_group_id(),
    {
        self.group_id
    }

    /// Prefill batch: for each sequence in traversal order, its tokens, the
    /// positions `0..len`, and its slot mapping (all PAD where no table is
    /// allocated; PAD before the sliding window start), each padded to the
    /// longest prompt with 0 or PAD.
    pub fn prepare_prompt(&self, groups: &Vec<SequenceGroup>, tables: &HashMap<usize, Vec<usize>>) -> (r:
        PreparedInputs)
        requires
            self.wf(),
            prompt_ready(flat_seqs(groups@), tables@, self.block_size()),
        ensures
            prompt_inputs(r, flat_seqs(groups@), tables@, self.block_size(), self.window()),
    {
        let block_size = self.cache_config.block_size;
        let order = sequence_order(groups);
        let ghost seqs = flat_seqs(groups@);
        let ghost lens = token_lens(seqs);
        let mut width: usize = 0;
        let mut k: usize = 0;
        while k < order.len()
            invariant
                k <= order@.len(),
                order@.len() == seqs.len(),
                lens == token_lens(seqs),
                seqs == flat_seqs(groups@),
                forall|q: int|
                    0 <= q < order@.len() ==> {
                        let (g, j) = #[trigger] order@[q];
                        &&& g < groups@.len()
                        &&& j < groups@[g as int].seqs@.len()
                        &&& groups@[g as int].seqs@[j as int] == seqs[q]
                    },
                width as int == seq_max(lens.take(k as int)),
            decreases order@.len() - k,
        {
            let (g, j) = order[k];
            let len = groups[g].seqs[j].token_ids.len();
            proof {
                lemma_seq_max_step(lens, k as int);
            }
            if len > width {
                width = len;
            }
            k = k + 1;
        }
        assert(lens.take(k as int) =~= lens);
        proof {
            lemma_seq_max_bounds(lens);
        }
        let mut tokens: Vec<Vec<usize>> = Vec::new();
        let mut positions: Vec<Vec<usize>> = Vec::new();
        let mut slot_mapping: Vec<Vec<i64>> = Vec::new();
        let mut prompt_lens: Vec<usize> = Vec::new();
        let mut k: usize = 0;
        while k < order.len()
            invariant
                k <= order@.len(),
                order@.len() == seqs.len(),
                lens == token_lens(seqs),
                seqs == flat_seqs(groups@),
                block_size == self.block_size(),
                block_size > 0,
                prompt_ready(seqs, tables@, block_size),
                forall|q: int|
                    0 <= q < order@.len() ==> {
                        let (g, j) = #[trigger] order@[q];
                        &&& g < groups@.len()
                        &&& j < groups@[g as int].seqs@.len()
                        &&& groups@[g as int].seqs@[j as int] == seqs[q]
                    },
                width as int == seq_max(lens),
                forall|q: int| 0 <= q < lens.len() ==> #[trigger] lens[q] <= seq_max(lens),
                tokens@.len() == k,
                positions@.len() == k,
                slot_mapping@.len() == k,
                prompt_lens@.len() == k,
                forall|q: int|
                    0 <= q < k ==> {
                        let s = #[trigger] seqs[q];
                        let len = s.token_ids@.len();
                        &&& prompt_lens@[q] == len
                        &&& tokens@[q]@ == padded(s.token_ids@, width as nat, 0usize)
                        &&& positions@[q]@ == padded(Seq::new(len, |i: int| i as usize), width as nat, 0usize)
                        &&& slot_mapping@[q]@ == padded(
                            prompt_slots(len, table_of(tables@, s.id), block_size as int, self.window()),
                            width as nat,
                            PAD_SLOT_ID,
                        )
                    },
            decreases order@.len() - k,
        {
            let (g, j) = order[k];
            let seq = &groups[g].seqs[j];
            let len = seq.token_ids.len();
            assert(seqs[k as int] == *seq);
            assert(lens[k as int] == len);
            tokens.push(pad_row(&seq.token_ids, width, 0));
            positions.push(position_row(len, width));
            let table = tables.get(&seq.id);
            assert(table_of(tables@, seq.id) == match table {
                Some(t) => Some(t@),
                None => None::<Seq<usize>>,
            });
            let slots = prompt_slot_mapping(len, table, block_size, self.sliding_window);
            slot_mapping.push(pad_row(&slots, width, PAD_SLOT_ID));
            prompt_lens.push(len);
            k = k + 1;
        }
        PreparedInputs {
            tokens,
            positions,
            slot_mapping,
            prompt_lens,
            max_context_len: None,
            context_lens: None,
            block_tables: None,
            is_prompt: true,
        }
    }
    /// Decode batch: for each sequence in traversal order, its last token,
    /// its last position, the slot of that position, its context length, and
    /// its block table (the last `ceil(window / block_size)` entries under a
    /// sliding window), block tables padded to the longest with block 0.
    pub fn prepare_decode(&self, groups: &Vec<SequenceGroup>, tables: &HashMap<usize, Vec<usize>>) -> (r:
        PreparedInputs)
        requires
            self.wf(),
            decode_ready(flat_seqs(groups@), tables@, self.block_size()),
        ensures
            decode_inputs(r, flat_seqs(groups@), tables@, self.block_size(), self.window()),
    {
        let block_size = self.cache_config.block_size;
        let window = self.sliding_window;
        let order = sequence_order(groups);
        let ghost seqs = flat_seqs(groups@);
        let ghost ctx = context_lens_of(seqs, window);
        let ghost tlens = decode_table_lens(seqs, tables@, window, block_size);
        let mut tokens: Vec<Vec<usize>> = Vec::new();
        let mut positions: Vec<Vec<usize>> = Vec::new();
        let mut slot_mapping: Vec<Vec<i64>> = Vec::new();
        let mut context_lens: Vec<usize> = Vec::new();
        let mut raw_tables: Vec<Vec<usize>> = Vec::new();
        let mut max_context: usize = 0;
        let mut width: usize = 0;
        let mut k: usize = 0;
        while k < order.len()
            invariant
                k <= order@.len(),
                order@.len() == seqs.len(),
                seqs == flat_seqs(groups@),
                ctx == context_lens_of(seqs, window),
                tlens == decode_table_lens(seqs, tables@, window, block_size),
                block_size == self.block_size(),
                window == self.window(),
                block_size > 0,
                decode_ready(seqs, tables@, block_size),
                forall|q: int|
                    0 <= q < order@.len() ==> {
                        let (g, j) = #[trigger] order@[q];
                        &&& g < groups@.len()
                        &&& j < groups@[g as int].seqs@.len()
                        &&& groups@[g as int].seqs@[j as int] == seqs[q]
                    },
                max_context as int == seq_max(ctx.take(k as int)),
                width as int == seq_max(tlens.take(k as int)),
                tokens@.len() == k,
                positions@.len() == k,
                slot_mapping@.len() == k,
                context_lens@.len() == k,
                raw_tables@.len() == k,
                forall|q: int|
                    0 <= q < k ==> {
                        let s = #[trigger] seqs[q];
                        let len = s.token_ids@.len() as int;
                        let table = tables@[s.id]@;
                        &&& tokens@[q]@ == seq![s.token_ids@[len - 1]]
                        &&& positions@[q]@ == seq![(len - 1) as usize]
                        &&& slot_mapping@[q]@ == seq![decode_slot(table, len, block_size as int) as i64]
                        &&& context_lens@[q] == context_len(len, window)
                        &&& raw_tables@[q]@ == decode_table(table, window, block_size as int)
                    },
            decreases order@.len() - k,
        {
            let (g, j) = order[k];
            let seq = &groups[g].seqs[j];
            assert(seqs[k as int] == *seq);
            assert(tables@.contains_key(seqs[k as int].id));
            let len = seq.token_ids.len();
            let position = len - 1;
            tokens.push(vec![seq.token_ids[position]]);
            positions.push(vec![position]);
            let c = context_length(len, window);
            context_lens.push(c);
            let table = tables.get(&seq.id);
            match table {
                Some(t) => {
                    let slot = table_slot(t, len, block_size, position);
                    slot_mapping.push(vec![slot]);
                    let kept = window_table(t, window, block_size);
                    proof {
                        lemma_seq_max_step(ctx, k as int);
                        lemma_seq_max_step(tlens, k as int);
                    }
                    if c > max_context {
                        max_context = c;
                    }
                    if kept.len() > width {
                        width = kept.len();
                    }
                    raw_tables.push(kept);
                },
                None => {
                    assert(false);
                },
            }
            k = k + 1;
        }
        assert(ctx.take(k as int) =~= ctx);
        assert(tlens.take(k as int) =~= tlens);
        proof {
            lemma_seq_max_bounds(tlens);
        }
        let mut block_tables: Vec<Vec<usize>> = Vec::new();
        let mut k: usize = 0;
        while k < raw_tables.len()
            invariant
                k <= raw_tables@.len(),
                raw_tables@.len() == seqs.len(),
                tlens == decode_table_lens(seqs, tables@, window, block_size),
                width as int == seq_max(tlens),
                forall|q: int| 0 <= q < tlens.len() ==> #[trigger] tlens[q] <= seq_max(tlens),
                forall|q: int|
                    0 <= q < raw_tables@.len() ==> (#[trigger] raw_tables@[q])@ == decode_table(
                        tables@[seqs[q].id]@,
                        window,
                        block_size as int,
                    ),
                block_tables@.len() == k,
                forall|q: int|
                    0 <= q < k ==> (#[trigger] block_tables@[q])@ == padded(
                        decode_table(tables@[seqs[q].id]@, window, block_size as int),
                        width as nat,
                        0usize,
                    ),
            decreases raw_tables@.len() - k,
        {
            assert(tlens[k as int] == raw_tables@[k as int]@.len());
            block_tables.push(pad_row(&raw_tables[k], width, 0));
            k = k + 1;
        }
        PreparedInputs {
            tokens,
            positions,
            slot_mapping,
            prompt_lens: Vec::new(),
            max_context_len: Some(max_context),
            context_lens: Some(context_lens),
            block_tables: Some(block_tables),
            is_prompt: false,
        }
    }
    /// Admits a prompt: wraps it into one prompt-phase sequence and one
    /// singleton group with fresh ids, and queues the group for the scheduler.
    pub fn add_request(&mut self, prompt_ids: &Vec<u32>, arrival_time: u64)
        requires
            old(self).next_seq_id() < usize::MAX,
            old(self).next_group_id() < usize::MAX,
        ensures
            final(self).wf() == old(self).wf(),
            final(self).block_size() == old(self).block_size(),
            final(self).window() == old(self).window(),
            final(self).next_seq_id() == old(self).next_seq_id() + 1,
            final(self).next_group_id() == old(self).next_group_id() + 1,
            final(self).waiting().len() == old(self).waiting().len() + 1,
            final(self).waiting().drop_last() == old(self).waiting(),
            ({
                let g = final(self).waiting().last();
                &&& g.group_id == old(self).next_group_id()
                &&& g.arrival_time == arrival_time
                &&& g.seqs@.len() == 1
                &&& g.seqs@[0].id == old(self).next_seq_id()
                &&& g.seqs@[0].token_ids@ == prompt_ids@.map_values(|t: u32| t as usize)
                &&& g.seqs@[0].block_size == old(self).block_size()
                &&& g.seqs@[0].is_prompt
            }),
    {
        let mut token_ids: Vec<usize> = Vec::new();
        let mut i: usize = 0;
        while i < prompt_ids.len()
            invariant
                i <= prompt_ids@.len(),
                token_ids@ == prompt_ids@.take(i as int).map_values(|t: u32| t as usize),
            decreases prompt_ids@.len() - i,
        {
            token_ids.push(prompt_ids[i] as usize);
            i = i + 1;
            assert(token_ids@ =~= prompt_ids@.take(i as int).map_values(|t: u32| t as usize));
        }
        assert(prompt_ids@.take(i as int) =~= prompt_ids@);
        let seq = Sequence {
            id: self.seq_id,
            token_ids,
            block_size: self.cache_config.block_size,
            is_prompt: true,
        };
        self.seq_id = self.seq_id + 1;
        let group = SequenceGroup { group_id: self.group_id, arrival_time, seqs: vec![seq] };
        self.group_id = self.group_id + 1;
        self.waiting.push(group);
        assert(self.waiting@.drop_last() =~= old(self).waiting@);
    }

    /// Hands every waiting group over, in the order they were queued.
    pub fn take_waiting(&mut self) -> (r: Vec<SequenceGroup>)
        ensures
            r@ == old(self).waiting(),
            final(self).waiting().len() == 0,
            final(self).wf() == old(self).wf(),
            final(self).block_size() == old(self).block_size(),
            final(self).window() == old(self).window(),
            final(self).next_seq_id() == old(self).next_seq_id(),
            final(self).next_group_id() == old(self).next_group_id(),
    {
        let mut r: Vec<SequenceGroup> = Vec::new();
        std::mem::swap(&mut r, &mut self.waiting);
        r
    }

    /// One scheduling round: groups the scheduler could not place are queued
    /// again (never dropped); an empty batch prepares nothing; otherwise the
    /// batch is a prefill batch when its first sequence is still in its
    /// prompt phase, and a decode batch when not.
    pub fn prepare_step(
        &mut self,
        scheduled: &Vec<SequenceGroup>,
        ignored: Vec<SequenceGroup>,
        tables: &HashMap<usize, Vec<usize>>,
    ) -> (r: Option<PreparedInputs>)
        requires
            old(self).wf(),
            flat_seqs(scheduled@).len() > 0 && flat_seqs(scheduled@)[0].is_prompt ==> prompt_ready(
                flat_seqs(scheduled@),
                tables@,
                old(self).block_size(),
            ),
            flat_seqs(scheduled@).len() > 0 && !flat_seqs(scheduled@)[0].is_prompt ==> decode_ready(
                flat_seqs(scheduled@),
                tables@,
                old(self).block_size(),
            ),
        ensures
            final(self).waiting() == old(self).waiting() + ignored@,
            final(self).wf(),
            final(self).block_size() == old(self).block_size(),
            final(self).window() == old(self).window(),
            final(self).next_seq_id() == old(self).next_seq_id(),
            final(self).next_group_id() == old(self).next_group_id(),
            flat_seqs(scheduled@).len() == 0 <==> r is None,
            r matches Some(p) ==> if flat_seqs(scheduled@)[0].is_prompt {
                prompt_inputs(p, flat_seqs(scheduled@), tables@, old(self).block_size(), old(self).window())
            } else {
                decode_inputs(p, flat_seqs(scheduled@), tables@, old(self).block_size(), old(self).window())
            },
    {
        let mut ignored = ignored;
        self.waiting.append(&mut ignored);
        let order = sequence_order(scheduled);
        if order.len() == 0 {
            return None;
        }
        let (g, j) = order[0];
        if scheduled[g].seqs[j].is_prompt {
            Some(self.prepare_prompt(scheduled, tables))
        } else {
            Some(self.prepare_decode(scheduled, tables))
        }
    }
}


/// Under a sliding window of `window` tokens, a decode-step block table keeps
/// exactly `min(table length, ceil(window / block_size))` entries, the last
/// ones of the full table; `window_blocks` is that ceiling.
pub proof fn lemma_decode_table_window(table: Seq<usize>, window: usize, block_size: int)
    requires
        0 < block_size,
    ensures
        decode_table(table, Some(window), block_size).len() == if table.len() < window_blocks(
            window as int,
            block_size,
        ) {
            table.len() as int
        } else {
            window_blocks(window as int, block_size)
        },
        decode_table(table, Some(window), block_size) == table.subrange(
            table.len() - decode_table(table, Some(window), block_size).len(),
            table.len() as int,
        ),
        window_blocks(window as int, block_size) * block_size >= window,
        (window_blocks(window as int, block_size) - 1) * block_size < window,
{
    let w = window as int;
    let q = w / block_size;
    let r = w % block_size;
    vstd::arithmetic::div_mod::lemma_fundamental_div_mod(w, block_size);
    assert(0 <= r < block_size);
    assert(q >= 0) by (nonlinear_arith)
        requires
            w >= 0,
            0 < block_size,
            w == block_size * q + r,
            0 <= r < block_size,
    ;
    if r == 0 {
        assert(q * block_size == w) by (nonlinear_arith)
            requires
                w == block_size * q + r,
                r == 0,
        ;
        assert((q - 1) * block_size < w) by (nonlinear_arith)
            requires
                q * block_size == w,
                0 < block_size,
        ;
    } else {
        assert((q + 1) * block_size >= w && q * block_size < w) by (nonlinear_arith)
            requires
                w == block_size * q + r,
                0 < r < block_size,
        ;
    }
}

} // verus!
