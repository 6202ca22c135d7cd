//! Batch preparation: per-sequence token, position and slot rows for a
//! prefill step or a decode step, padded to a common width.
use vstd::prelude::*;

use crate::addressing::{slot_of, PAD_SLOT_ID};

verus! {

/// Count of leading prompt positions that fall outside the sliding window.
pub open spec fn window_start(len: int, window: Option<usize>) -> int {
    match window {
        Some(w) => if len > w { len - w } else { 0 },
        None => 0,
    }
}

/// The slot of prompt position `i`: PAD before the window start, else the
/// slot inside the block that the table lists for `i`.
pub open spec fn prompt_slot(table: Seq<usize>, i: int, block_size: int, start: int) -> int {
    if i < start {
        PAD_SLOT_ID as int
    } else {
        slot_of(table[i / block_size] as int, i % block_size, block_size)
    }
}

/// The unpadded slot mapping of a prompt of `len` tokens; all PAD where no
/// table has been allocated.
pub open spec fn prompt_slots(len: nat, table: Option<Seq<usize>>, block_size: int, window: Option<usize>) -> Seq<i64> {
    match table {
        None => Seq::new(len, |i: int| PAD_SLOT_ID),
        Some(t) => Seq::new(len, |i: int| prompt_slot(t, i, block_size, window_start(len as int, window)) as i64),
    }
}

/// `row` followed by `fill` up to `width` entries.
pub open spec fn padded<T>(row: Seq<T>, width: nat, fill: T) -> Seq<T> {
    row + Seq::new((width - row.len()) as nat, |i: int| fill)
}

/// The table has a block for each of the first `len` positions, and every
/// slot of its blocks is a non-negative `i64`.
pub open spec fn table_fits(table: Seq<usize>, len: int, block_size: int) -> bool {
    &&& len <= table.len() * block_size
    &&& forall|j: int| 0 <= j < table.len() ==> #[trigger] table[j] * block_size + block_size <= i64::MAX
}

/// The largest entry of `s`, or 0 when `s` is empty.
pub open spec fn seq_max(s: Seq<int>) -> int
    decreases s.len(),
{
    if s.len() == 0 {
        0
    } else {
        let m = seq_max(s.drop_last());
        if s.last() > m { s.last() } else { m }
    }
}

/// Every entry of `s` is at most `seq_max(s)`, which is non-negative.
pub proof fn lemma_seq_max_bounds(s: Seq<int>)
    ensures
        seq_max(s) >= 0,
        forall|k: int| 0 <= k < s.len() ==> #[trigger] s[k] <= seq_max(s),
    decreases s.len(),
{
    if s.len() > 0 {
        lemma_seq_max_bounds(s.drop_last());
        assert forall|k: int| 0 <= k < s.len() implies #[trigger] s[k] <= seq_max(s) by {
            if k < s.len() - 1 {
                assert(s.drop_last()[k] == s[k]);
            }
        }
    }
}

/// The maximum of a prefix one longer takes in the new entry.
pub proof fn lemma_seq_max_step(s: Seq<int>, k: int)
    requires
        0 <= k < s.len(),
    ensures
        seq_max(s.take(k + 1)) == if s[k] > seq_max(s.take(k)) { s[k] } else { seq_max(s.take(k)) },
{
    assert(s.take(k + 1).drop_last() =~= s.take(k));
}

/// Position `i` of a sequence lies in the block that the table lists at
/// `i / block_size`.
pub proof fn lemma_block_index_in_table(table_len: int, len: int, block_size: int, i: int)
    requires
        0 < block_size,
        0 <= i < len,
        len <= table_len * block_size,
    ensures
        0 <= i / block_size < table_len,
        0 <= i % block_size < block_size,
{
    assert(0 <= i / block_size < table_len) by (nonlinear_arith)
        requires
            0 < block_size,
            0 <= i < len,
            len <= table_len * block_size,
    ;
}

/// The slot of position `i`, through the table.
pub fn table_slot(table: &Vec<usize>, len: usize, block_size: usize, i: usize) -> (r: i64)
    requires
        0 < block_size,
        i < len,
        table_fits(table@, len as int, block_size as int),
    ensures
        r as int == slot_of(table@[(i / block_size) as int] as int, (i % block_size) as int, block_size as int),
        0 <= r,
{
    proof {
        lemma_block_index_in_table(table@.len() as int, len as int, block_size as int, i as int);
    }
    let b = table[i / block_size];
    let off = i % block_size;
    assert(b * block_size + block_size <= i64::MAX);
    assert(b * block_size + off <= i64::MAX) by (nonlinear_arith)
        requires
            b * block_size + block_size <= i64::MAX,
            off < block_size,
    ;
    assert(b as u64 * block_size as u64 == b * block_size) by (nonlinear_arith)
        requires
            b * block_size <= i64::MAX,
    ;
    let s: u64 = b as u64 * block_size as u64 + off as u64;
    s as i64
}

/// The unpadded slot mapping of a prompt of `len` tokens.
pub fn prompt_slot_mapping(
    len: usize,
    table: Option<&Vec<usize>>,
    block_size: usize,
    window: Option<usize>,
) -> (r: Vec<i64>)
    requires
        0 < block_size,
        table matches Some(t) ==> table_fits(t@, len as int, block_size as int),
    ensures
        r@ == prompt_slots(
            len as nat,
            match table {
                Some(t) => Some(t@),
                None => None,
            },
            block_size as int,
            window,
        ),
{
    let ghost tv = match table {
        Some(t) => Some(t@),
        None => None::<Seq<usize>>,
    };
    let ghost want = prompt_slots(len as nat, tv, block_size as int, window);
    let start: usize = match window {
        Some(w) => if len > w { len - w } else { 0 },
        None => 0,
    };
    let mut r: Vec<i64> = Vec::new();
    let mut i: usize = 0;
    while i < len
        invariant
            i <= len,
            0 < block_size,
            start as int == window_start(len as int, window),
            want == prompt_slots(len as nat, tv, block_size as int, window),
            tv == match table {
                Some(t) => Some(t@),
                None => None::<Seq<usize>>,
            },
            table matches Some(t) ==> table_fits(t@, len as int, block_size as int),
            r@ == want.take(i as int),
        decreases len - i,
    {
        let s: i64 = match table {
            None => PAD_SLOT_ID,
            Some(t) => if i < start { PAD_SLOT_ID } else { table_slot(t, len, block_size, i) },
        };
        r.push(s);
        i = i + 1;
        assert(r@ =~= want.take(i as int));
    }
    assert(want.take(i as int) =~= want);
    r
}

/// `row` followed by `fill` up to `width` entries.
pub fn pad_row<T: Copy>(row: &Vec<T>, width: usize, fill: T) -> (r: Vec<T>)
    requires
        row@.len() <= width,
    ensures
        r@ == padded(row@, width as nat, fill),
{
    let mut r: Vec<T> = Vec::new();
    let mut i: usize = 0;
    while i < width
        invariant
            i <= width,
            row@.len() <= width,
            r@ == padded(row@, width as nat, fill).take(i as int),
        decreases width - i,
    {
        if i < row.len() {
            r.push(row[i]);
        } else {
            r.push(fill);
        }
        i = i + 1;
        assert(r@ =~= padded(row@, width as nat, fill).take(i as int));
    }
    assert(padded(row@, width as nat, fill).take(i as int) =~= padded(row@, width as nat, fill));
    r
}

/// Positions `0..len`, then zeros up to `width`.
pub fn position_row(len: usize, width: usize) -> (r: Vec<usize>)
    requires
        len <= width,
    ensures
        r@ == padded(Seq::new(len as nat, |i: int| i as usize), width as nat, 0usize),
{
    let ghost want = padded(Seq::new(len as nat, |i: int| i as usize), width as nat, 0usize);
    let mut r: Vec<usize> = Vec::new();
    let mut i: usize = 0;
    while i < width
        invariant
            i <= width,
            len <= width,
            want == padded(Seq::new(len as nat, |i: int| i as usize), width as nat, 0usize),
            r@ == want.take(i as int),
        decreases width - i,
    {
        if i < len {
            r.push(i);
        } else {
            r.push(0);
        }
        i = i + 1;
        assert(r@ =~= want.take(i as int));
    }
    assert(want.take(i as int) =~= want);
    r
}


/// For a sequence with an allocated table, the unpadded slot mapping has one
/// entry per prompt token, and each resolved entry lies inside the block that
/// the table lists at that position's index; entries before the window start
/// are PAD.
pub proof fn lemma_prompt_slots_in_blocks(len: nat, table: Seq<usize>, block_size: int, window: Option<usize>)
    requires
        0 < block_size,
        table_fits(table, len as int, block_size),
    ensures
        prompt_slots(len, Some(table), block_size, window).len() == len,
        forall|i: int|
            0 <= i < len ==> {
                let sl = #[trigger] prompt_slots(len, Some(table), block_size, window)[i] as int;
                if i < window_start(len as int, window) {
                    sl == PAD_SLOT_ID as int
                } else {
                    &&& 0 <= i / block_size < table.len()
                    &&& table[i / block_size] * block_size <= sl
                    &&& sl < table[i / block_size] * block_size + block_size
                }
            },
{
    assert forall|i: int| 0 <= i < len implies {
        let sl = #[trigger] prompt_slots(len, Some(table), block_size, window)[i] as int;
        if i < window_start(len as int, window) {
            sl == PAD_SLOT_ID as int
        } else {
            &&& 0 <= i / block_size < table.len()
            &&& table[i / block_size] * block_size <= sl
            &&& sl < table[i / block_size] * block_size + block_size
        }
    } by {
        if i >= window_start(len as int, window) {
            lemma_block_index_in_table(table.len() as int, len as int, block_size, i);
            let b = table[i / block_size] as int;
            assert(b * block_size + block_size <= i64::MAX);
            assert(b * block_size + i % block_size <= i64::MAX);
            assert(0 <= b * block_size) by (nonlinear_arith)
                requires
                    0 <= b,
                    0 < block_size,
            ;
        }
    }
}

} // verus!
