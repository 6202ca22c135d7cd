//! Block transfer engine: swapping blocks between two cache buffers and
//! replicating blocks inside cache buffers for copy-on-write forks.
//!
//! A `CacheBuffer` is the byte image of one cache tensor together with where it
//! lives; block `b` of a buffer occupies `block_bytes` bytes starting at
//! `start_offset + b * block_bytes`.
use vstd::prelude::*;

use crate::addressing::{block_byte_offset, block_size_in_bytes, block_start};

verus! {

/// Where a buffer lives.
#[derive(Clone, Copy, Debug, PartialEq, Eq, Structural)]
pub enum DeviceLocation {
    Cpu,
    Cuda { gpu_id: usize },
    Metal { gpu_id: usize },
}

/// The direction of a supported swap.
#[derive(Clone, Copy, Debug, PartialEq, Eq, Structural)]
pub enum SwapKind {
    DeviceToDevice,
    HostToDevice,
    DeviceToHost,
}

/// A rejected transfer configuration.
#[derive(Clone, Copy, Debug, PartialEq, Eq, Structural)]
pub enum TransferError {
    /// A device-to-device swap between two different ordinals.
    DeviceMismatch { src_ordinal: usize, dst_ordinal: usize },
    /// A pairing of locations that swapping does not serve.
    UnsupportedPairing { src: DeviceLocation, dst: DeviceLocation },
    /// Cache buffers of one replication call on different locations.
    MixedDevices { first: DeviceLocation, other: DeviceLocation },
}

/// One cache tensor: its location, element width, leading dimension, the
/// start of its view inside the backing allocation, and the allocation's bytes.
pub struct CacheBuffer {
    pub location: DeviceLocation,
    pub element_size: usize,
    pub block_dim: usize,
    pub start_offset: usize,
    pub bytes: Vec<u8>,
}

impl CacheBuffer {
    /// Bytes of one block of this buffer.
    pub open spec fn block_bytes(&self) -> int {
        self.element_size * self.block_dim
    }

    /// Block `block_id` lies inside the allocation.
    pub open spec fn holds_block(&self, block_id: int) -> bool {
        0 <= block_id && block_start(self.start_offset as int, block_id, self.block_bytes())
            + self.block_bytes() <= self.bytes@.len()
    }

    /// The bytes of block `block_id`.
    pub open spec fn block_view(&self, block_id: int) -> Seq<u8> {
        let at = block_start(self.start_offset as int, block_id, self.block_bytes());
        self.bytes@.subrange(at, at + self.block_bytes())
    }

    /// The width of one block fits the machine.
    pub open spec fn well_formed(&self) -> bool {
        self.element_size * self.block_dim <= usize::MAX
    }

    /// Bytes of one block of this buffer.
    pub fn block_size_in_bytes(&self) -> (r: usize)
        requires
            self.well_formed(),
        ensures
            r == self.block_bytes(),
    {
        block_size_in_bytes(self.element_size, self.block_dim)
    }
}

/// Which pairs of locations a swap serves, and the error for the others.
pub open spec fn swap_pairing(src: DeviceLocation, dst: DeviceLocation) -> Result<
    SwapKind,
    TransferError,
> {
    match (src, dst) {
        (DeviceLocation::Cuda { gpu_id: a }, DeviceLocation::Cuda { gpu_id: b }) => {
            if a == b {
                Ok(SwapKind::DeviceToDevice)
            } else {
                Err(TransferError::DeviceMismatch { src_ordinal: a, dst_ordinal: b })
            }
        },
        (DeviceLocation::Cpu, DeviceLocation::Cuda { .. }) => Ok(SwapKind::HostToDevice),
        (DeviceLocation::Cuda { .. }, DeviceLocation::Cpu) => Ok(SwapKind::DeviceToHost),
        _ => Err(TransferError::UnsupportedPairing { src, dst }),
    }
}

/// `dst` with its bytes `[dst_at, dst_at + len)` replaced by `src`'s bytes
/// `[src_at, src_at + len)`.
pub open spec fn copy_range(dst: Seq<u8>, dst_at: int, src: Seq<u8>, src_at: int, len: int) -> Seq<
    u8,
> {
    Seq::new(
        dst.len(),
        |k: int|
            if dst_at <= k < dst_at + len {
                src[src_at + (k - dst_at)]
            } else {
                dst[k]
            },
    )
}

/// `dst` after copying, entry by entry, block `s` of `src` over block `d` of
/// `dst` for every `(s, d)` of `mapping`.
pub open spec fn swapped(
    src: Seq<u8>,
    src_start: int,
    dst: Seq<u8>,
    dst_start: int,
    block_bytes: int,
    mapping: Seq<(usize, usize)>,
) -> Seq<u8>
    decreases mapping.len(),
{
    if mapping.len() == 0 {
        dst
    } else {
        let prev = swapped(src, src_start, dst, dst_start, block_bytes, mapping.drop_last());
        let (s, d) = mapping.last();
        copy_range(
            prev,
            block_start(dst_start, d as int, block_bytes),
            src,
            block_start(src_start, s as int, block_bytes),
            block_bytes,
        )
    }
}

/// The (source, destination) pairs of a fan-out mapping, in order.
pub open spec fn fan_out_pairs(mapping: Seq<(usize, Vec<usize>)>) -> Seq<(usize, usize)>
    decreases mapping.len(),
{
    if mapping.len() == 0 {
        Seq::empty()
    } else {
        let (s, ds) = mapping.last();
        fan_out_pairs(mapping.drop_last()) + ds@.map_values(|d: usize| (s, d))
    }
}

/// `bytes` after copying, pair by pair, block `s` over block `d` inside the
/// same buffer for every `(s, d)` of `pairs`.
pub open spec fn replicated(bytes: Seq<u8>, start: int, block_bytes: int, pairs: Seq<(usize, usize)>) -> Seq<
    u8,
>
    decreases pairs.len(),
{
    if pairs.len() == 0 {
        bytes
    } else {
        let prev = replicated(bytes, start, block_bytes, pairs.drop_last());
        let (s, d) = pairs.last();
        copy_range(
            prev,
            block_start(start, d as int, block_bytes),
            prev,
            block_start(start, s as int, block_bytes),
            block_bytes,
        )
    }
}

/// The kind of swap between two locations, or the error that rejects it.
pub fn swap_kind(src: DeviceLocation, dst: DeviceLocation) -> (r: Result<SwapKind, TransferError>)
    ensures
        r == swap_pairing(src, dst),
{
    match (src, dst) {
        (DeviceLocation::Cuda { gpu_id: a }, DeviceLocation::Cuda { gpu_id: b }) => {
            if a == b {
                Ok(SwapKind::DeviceToDevice)
            } else {
                Err(TransferError::DeviceMismatch { src_ordinal: a, dst_ordinal: b })
            }
        },
        (DeviceLocation::Cpu, DeviceLocation::Cuda { .. }) => Ok(SwapKind::HostToDevice),
        (DeviceLocation::Cuda { .. }, DeviceLocation::Cpu) => Ok(SwapKind::DeviceToHost),
        _ => Err(TransferError::UnsupportedPairing { src, dst }),
    }
}

/// Copies `len` bytes of `src` at `src_at` over `dst` at `dst_at`.
pub fn copy_bytes(dst: &mut Vec<u8>, dst_at: usize, src: &Vec<u8>, src_at: usize, len: usize)
    requires
        dst_at + len <= old(dst)@.len(),
        src_at + len <= src@.len(),
    ensures
        final(dst)@ == copy_range(old(dst)@, dst_at as int, src@, src_at as int, len as int),
{
    let ghost orig = dst@;
    let n = dst.len();
    let m = src.len();
    let mut j: usize = 0;
    while j < len
        invariant
            j <= len,
            orig.len() == n,
            src@.len() == m,
            dst_at + len <= orig.len(),
            src_at + len <= src@.len(),
            dst@ == copy_range(orig, dst_at as int, src@, src_at as int, j as int),
        decreases len - j,
    {
        dst[dst_at + j] = src[src_at + j];
        j = j + 1;
        assert(dst@ =~= copy_range(orig, dst_at as int, src@, src_at as int, j as int));
    }
}

/// Copies `len` bytes at `src_at` over `dst_at` inside one buffer; the two
/// ranges do not overlap.
pub fn copy_within(bytes: &mut Vec<u8>, dst_at: usize, src_at: usize, len: usize)
    requires
        dst_at + len <= old(bytes)@.len(),
        src_at + len <= old(bytes)@.len(),
        dst_at + len <= src_at || src_at + len <= dst_at,
    ensures
        final(bytes)@ == copy_range(old(bytes)@, dst_at as int, old(bytes)@, src_at as int, len as int),
{
    let ghost orig = bytes@;
    let n = bytes.len();
    let mut j: usize = 0;
    while j < len
        invariant
            j <= len,
            orig.len() == n,
            dst_at + len <= orig.len(),
            src_at + len <= orig.len(),
            dst_at + len <= src_at || src_at + len <= dst_at,
            bytes@ == copy_range(orig, dst_at as int, orig, src_at as int, j as int),
        decreases len - j,
    {
        let b = bytes[src_at + j];
        bytes[dst_at + j] = b;
        j = j + 1;
        assert(bytes@ =~= copy_range(orig, dst_at as int, orig, src_at as int, j as int));
    }
}


/// Every block that `mapping` names lies inside the buffer it is read from or
/// written to.
pub open spec fn swap_fits(src: CacheBuffer, dst: CacheBuffer, mapping: Seq<(usize, usize)>) -> bool {
    forall|i: int|
        0 <= i < mapping.len() ==> src.holds_block((#[trigger] mapping[i]).0 as int)
            && dst.holds_block(mapping[i].1 as int)
}

/// Every pair names two blocks that lie inside the buffer.
pub open spec fn fan_out_fits(buf: CacheBuffer, pairs: Seq<(usize, usize)>) -> bool {
    forall|i: int|
        0 <= i < pairs.len() ==> buf.holds_block((#[trigger] pairs[i]).0 as int) && buf.holds_block(
            pairs[i].1 as int,
        )
}

/// `new` is `old` with `pairs` replicated inside it, all else kept.
pub open spec fn layer_replicated(old: CacheBuffer, new: CacheBuffer, pairs: Seq<(usize, usize)>) -> bool {
    &&& new.location == old.location
    &&& new.element_size == old.element_size
    &&& new.block_dim == old.block_dim
    &&& new.start_offset == old.start_offset
    &&& new.bytes@ == replicated(old.bytes@, old.start_offset as int, old.block_bytes(), pairs)
}

/// All buffers share one location.
pub open spec fn same_location(bufs: Seq<CacheBuffer>) -> bool {
    forall|i: int| 0 <= i < bufs.len() ==> (#[trigger] bufs[i]).location == bufs[0].location
}

/// Copies, for every entry `(s, d)` of `block_mapping`, block `s` of `src` over
/// block `d` of `dst`. Supported pairings are two buffers on the same GPU, host
/// to GPU, and GPU to host; any other pairing is rejected before any copy.
pub fn swap_blocks(src: &CacheBuffer, dst: &mut CacheBuffer, block_mapping: &Vec<(usize, usize)>) -> (r:
    Result<(), TransferError>)
    requires
        src.well_formed(),
        src.element_size == old(dst).element_size,
        src.block_dim == old(dst).block_dim,
        swap_fits(*src, *old(dst), block_mapping@),
    ensures
        final(dst).location == old(dst).location,
        final(dst).element_size == old(dst).element_size,
        final(dst).block_dim == old(dst).block_dim,
        final(dst).start_offset == old(dst).start_offset,
        match swap_pairing(src.location, old(dst).location) {
            Ok(_) => r == Ok::<(), TransferError>(()) && final(dst).bytes@ == swapped(
                src.bytes@,
                src.start_offset as int,
                old(dst).bytes@,
                old(dst).start_offset as int,
                src.block_bytes(),
                block_mapping@,
            ),
            Err(e) => r == Err::<(), TransferError>(e) && final(dst).bytes@ == old(dst).bytes@,
        },
{
    match swap_kind(src.location, dst.location) {
        Err(e) => {
            return Err(e);
        },
        Ok(_) => {},
    }
    let bb = src.block_size_in_bytes();
    let ghost orig = dst.bytes@;
    let dlen = dst.bytes.len();
    let slen = src.bytes.len();
    let mut i: usize = 0;
    while i < block_mapping.len()
        invariant
            i <= block_mapping@.len(),
            bb == src.block_bytes(),
            src.bytes@.len() == slen,
            dst.bytes@.len() == dlen,
            orig.len() == dlen,
            dst.location == old(dst).location,
            dst.element_size == old(dst).element_size,
            dst.block_dim == old(dst).block_dim,
            dst.start_offset == old(dst).start_offset,
            src.element_size == dst.element_size,
            src.block_dim == dst.block_dim,
            swap_fits(*src, *old(dst), block_mapping@),
            old(dst).bytes@ == orig,
            dst.bytes@ == swapped(
                src.bytes@,
                src.start_offset as int,
                orig,
                dst.start_offset as int,
                bb as int,
                block_mapping@.take(i as int),
            ),
        decreases block_mapping@.len() - i,
    {
        let (s, d) = block_mapping[i];
        assert(src.holds_block(block_mapping@[i as int].0 as int));
        assert(old(dst).holds_block(block_mapping@[i as int].1 as int));
        let src_at = block_byte_offset(src.start_offset, s, bb);
        let dst_at = block_byte_offset(dst.start_offset, d, bb);
        copy_bytes(&mut dst.bytes, dst_at, &src.bytes, src_at, bb);
        i = i + 1;
        assert(block_mapping@.take(i as int).drop_last() =~= block_mapping@.take(i as int - 1));
    }
    assert(block_mapping@.take(i as int) =~= block_mapping@);
    Ok(())
}

/// Replicates, inside one buffer, block `s` over every block `d` listed for it
/// in `block_mapping`.
pub fn replicate_blocks(buf: &mut CacheBuffer, block_mapping: &Vec<(usize, Vec<usize>)>)
    requires
        old(buf).well_formed(),
        fan_out_fits(*old(buf), fan_out_pairs(block_mapping@)),
    ensures
        layer_replicated(*old(buf), *final(buf), fan_out_pairs(block_mapping@)),
{
    let bb = buf.block_size_in_bytes();
    let ghost orig = buf.bytes@;
    let ghost all = fan_out_pairs(block_mapping@);
    let blen = buf.bytes.len();
    let mut i: usize = 0;
    while i < block_mapping.len()
        invariant
            i <= block_mapping@.len(),
            bb == old(buf).block_bytes(),
            buf.bytes@.len() == blen,
            orig.len() == blen,
            orig == old(buf).bytes@,
            buf.location == old(buf).location,
            buf.element_size == old(buf).element_size,
            buf.block_dim == old(buf).block_dim,
            buf.start_offset == old(buf).start_offset,
            all == fan_out_pairs(block_mapping@),
            fan_out_fits(*old(buf), all),
            fan_out_pairs(block_mapping@.take(i as int)).len() <= all.len(),
            all.take(fan_out_pairs(block_mapping@.take(i as int)).len() as int) == fan_out_pairs(block_mapping@.take(i as int)),
            buf.bytes@ == replicated(orig, buf.start_offset as int, bb as int, fan_out_pairs(block_mapping@.take(i as int))),
        decreases block_mapping@.len() - i,
    {
        let s = block_mapping[i].0;
        let dsts = &block_mapping[i].1;
        let ghost done = fan_out_pairs(block_mapping@.take(i as int));
        proof {
            lemma_fan_out_prefix(block_mapping@, i as int);
        }
        let mut j: usize = 0;
        while j < dsts.len()
            invariant
                j <= dsts@.len(),
                *dsts == block_mapping@[i as int].1,
                s == block_mapping@[i as int].0,
                i < block_mapping@.len(),
                bb == old(buf).block_bytes(),
                buf.bytes@.len() == blen,
                orig.len() == blen,
                orig == old(buf).bytes@,
                buf.location == old(buf).location,
                buf.element_size == old(buf).element_size,
                buf.block_dim == old(buf).block_dim,
                buf.start_offset == old(buf).start_offset,
                fan_out_fits(*old(buf), all),
                done == fan_out_pairs(block_mapping@.take(i as int)),
                done + dsts@.map_values(|d: usize| (s, d)) == fan_out_pairs(block_mapping@.take(i as int + 1)),
                done.len() + dsts@.len() <= all.len(),
                all.take((done.len() + dsts@.len()) as int) == done + dsts@.map_values(|d: usize| (s, d)),
                buf.bytes@ == replicated(orig, buf.start_offset as int, bb as int, done + dsts@.take(j as int).map_values(|d: usize| (s, d))),
            decreases dsts@.len() - j,
        {
            let d = dsts[j];
            let ghost k = done.len() + j;
            assert(all[k] == (s, d)) by {
                assert(all.take((done.len() + dsts@.len()) as int)[k] == all[k]);
                assert((done + dsts@.map_values(|d: usize| (s, d)))[k] == (s, d));
            }
            assert(0 <= k < all.len());
            assert(old(buf).holds_block(all[k].0 as int) && old(buf).holds_block(all[k].1 as int));
            let src_at = block_byte_offset(buf.start_offset, s, bb);
            let dst_at = block_byte_offset(buf.start_offset, d, bb);
            if s != d {
                proof {
                    crate::addressing::lemma_blocks_apart(buf.start_offset as int, s as int, d as int, bb as int);
                }
                copy_within(&mut buf.bytes, dst_at, src_at, bb);
            } else {
                // A block copied over itself stays as it is.
                assert(copy_range(buf.bytes@, dst_at as int, buf.bytes@, src_at as int, bb as int)
                    =~= buf.bytes@);
            }
            j = j + 1;
            assert((done + dsts@.take(j as int).map_values(|d: usize| (s, d))).drop_last() =~= done
                + dsts@.take(j as int - 1).map_values(|d: usize| (s, d)));
        }
        assert(dsts@.take(j as int) =~= dsts@);
        i = i + 1;
    }
    assert(block_mapping@.take(i as int) =~= block_mapping@);
}

/// `fan_out_pairs` of a prefix one entry longer adds that entry's pairs, and
/// prefixes give prefixes.
proof fn lemma_fan_out_prefix(mapping: Seq<(usize, Vec<usize>)>, i: int)
    requires
        0 <= i < mapping.len(),
    ensures
        fan_out_pairs(mapping.take(i + 1)) == fan_out_pairs(mapping.take(i)) + mapping[i].1@.map_values(
            |d: usize| (mapping[i].0, d),
        ),
        fan_out_pairs(mapping.take(i + 1)).len() <= fan_out_pairs(mapping).len(),
        fan_out_pairs(mapping).take(fan_out_pairs(mapping.take(i + 1)).len() as int) == fan_out_pairs(
            mapping.take(i + 1),
        ),
    decreases mapping.len(),
{
    assert(mapping.take(i + 1).drop_last() =~= mapping.take(i));
    lemma_fan_out_take(mapping, i + 1);
}

/// The pairs of a prefix of a mapping are a prefix of its pairs.
proof fn lemma_fan_out_take(mapping: Seq<(usize, Vec<usize>)>, n: int)
    requires
        0 <= n <= mapping.len(),
    ensures
        fan_out_pairs(mapping.take(n)).len() <= fan_out_pairs(mapping).len(),
        fan_out_pairs(mapping).take(fan_out_pairs(mapping.take(n)).len() as int) == fan_out_pairs(
            mapping.take(n),
        ),
    decreases mapping.len(),
{
    if n == mapping.len() {
        assert(mapping.take(n) =~= mapping);
        assert(fan_out_pairs(mapping).take(fan_out_pairs(mapping).len() as int) =~= fan_out_pairs(mapping));
    } else {
        let m = mapping.drop_last();
        assert(m.take(n) =~= mapping.take(n));
        lemma_fan_out_take(m, n);
        let a = fan_out_pairs(m);
        let b = fan_out_pairs(mapping.take(n));
        assert((a + mapping.last().1@.map_values(|d: usize| (mapping.last().0, d))).take(b.len() as int)
            =~= a.take(b.len() as int));
    }
}


/// Every buffer is well formed and holds every block that `pairs` names.
pub open spec fn caches_fit(bufs: Seq<CacheBuffer>, pairs: Seq<(usize, usize)>) -> bool {
    forall|i: int|
        0 <= i < bufs.len() ==> (#[trigger] bufs[i]).well_formed() && fan_out_fits(bufs[i], pairs)
}

/// Each buffer of `new` is the one of `old` with `pairs` replicated in it.
pub open spec fn caches_replicated(
    old: Seq<CacheBuffer>,
    new: Seq<CacheBuffer>,
    pairs: Seq<(usize, usize)>,
) -> bool {
    &&& new.len() == old.len()
    &&& forall|i: int| 0 <= i < old.len() ==> layer_replicated(#[trigger] old[i], new[i], pairs)
}

/// A location of `bufs` other than `loc`, if there is one.
fn other_location(bufs: &Vec<CacheBuffer>, loc: DeviceLocation) -> (r: Option<DeviceLocation>)
    ensures
        r is None <==> forall|i: int| 0 <= i < bufs@.len() ==> (#[trigger] bufs@[i]).location == loc,
        r matches Some(o) ==> o != loc && exists|i: int| 0 <= i < bufs@.len() && (#[trigger] bufs@[i]).location == o,
{
    let mut i: usize = 0;
    while i < bufs.len()
        invariant
            i <= bufs@.len(),
            forall|k: int| 0 <= k < i ==> (#[trigger] bufs@[k]).location == loc,
        decreases bufs@.len() - i,
    {
        if bufs[i].location != loc {
            return Some(bufs[i].location);
        }
        i = i + 1;
    }
    None
}

/// Replicates `block_mapping` inside every buffer of `caches`.
fn replicate_layers(caches: &mut Vec<CacheBuffer>, block_mapping: &Vec<(usize, Vec<usize>)>)
    requires
        caches_fit(old(caches)@, fan_out_pairs(block_mapping@)),
    ensures
        caches_replicated(old(caches)@, final(caches)@, fan_out_pairs(block_mapping@)),
{
    let ghost pairs = fan_out_pairs(block_mapping@);
    let mut i: usize = 0;
    while i < caches.len()
        invariant
            i <= caches@.len(),
            caches@.len() == old(caches)@.len(),
            caches_fit(old(caches)@, pairs),
            pairs == fan_out_pairs(block_mapping@),
            forall|k: int| 0 <= k < i ==> layer_replicated(#[trigger] old(caches)@[k], caches@[k], pairs),
            forall|k: int| i <= k < caches@.len() ==> #[trigger] caches@[k] == old(caches)@[k],
        decreases caches@.len() - i,
    {
        assert(caches@[i as int] == old(caches)@[i as int]);
        replicate_blocks(&mut caches[i], block_mapping);
        i = i + 1;
    }
}

/// Copy-on-write fan-out: for every layer's key and value cache, copies block
/// `s` over each block listed for it in `block_mapping`, leaving `s` as it
/// was. All buffers must share one location; otherwise nothing is copied.
pub fn copy_blocks(
    key_caches: &mut Vec<CacheBuffer>,
    value_caches: &mut Vec<CacheBuffer>,
    block_mapping: &Vec<(usize, Vec<usize>)>,
) -> (r: Result<(), TransferError>)
    requires
        caches_fit(old(key_caches)@, fan_out_pairs(block_mapping@)),
        caches_fit(old(value_caches)@, fan_out_pairs(block_mapping@)),
    ensures
        r is Ok <==> same_location(old(key_caches)@ + old(value_caches)@),
        r matches Err(e) ==> e is MixedDevices,
        r matches Err(TransferError::MixedDevices { first, other }) ==> {
            &&& first == (old(key_caches)@ + old(value_caches)@)[0].location
            &&& other != first
            &&& exists|i: int|
                0 <= i < (old(key_caches)@ + old(value_caches)@).len() && (#[trigger] (old(key_caches)@
                    + old(value_caches)@)[i]).location == other
        },
        r is Err ==> final(key_caches)@ == old(key_caches)@ && final(value_caches)@ == old(
            value_caches,
        )@,
        r is Ok ==> caches_replicated(old(key_caches)@, final(key_caches)@, fan_out_pairs(block_mapping@))
            && caches_replicated(old(value_caches)@, final(value_caches)@, fan_out_pairs(block_mapping@)),
{
    let ghost all = key_caches@ + value_caches@;
    if key_caches.len() == 0 && value_caches.len() == 0 {
        return Ok(());
    }
    let first = if key_caches.len() > 0 {
        key_caches[0].location
    } else {
        value_caches[0].location
    };
    assert(all[0].location == first);
    match other_location(key_caches, first) {
        Some(o) => {
            proof {
                let k = choose|k: int| 0 <= k < key_caches@.len() && (#[trigger] key_caches@[k]).location != first;
                assert(all[k] == key_caches@[k]);
                let m = choose|m: int| 0 <= m < key_caches@.len() && (#[trigger] key_caches@[m]).location == o;
                assert(all[m] == key_caches@[m]);
            }
            return Err(TransferError::MixedDevices { first, other: o });
        },
        None => {},
    }
    match other_location(value_caches, first) {
        Some(o) => {
            proof {
                let k = choose|k: int| 0 <= k < value_caches@.len() && (#[trigger] value_caches@[k]).location != first;
                assert(all[key_caches@.len() + k] == value_caches@[k]);
                let m = choose|m: int| 0 <= m < value_caches@.len() && (#[trigger] value_caches@[m]).location == o;
                assert(all[key_caches@.len() + m] == value_caches@[m]);
            }
            return Err(TransferError::MixedDevices { first, other: o });
        },
        None => {},
    }
    assert(same_location(all)) by {
        assert forall|i: int| 0 <= i < all.len() implies (#[trigger] all[i]).location == all[0].location by {
            if i >= key_caches@.len() {
                assert(all[i] == value_caches@[i - key_caches@.len()]);
            }
        }
    }
    replicate_layers(key_caches, block_mapping);
    replicate_layers(value_caches, block_mapping);
    Ok(())
}


/// Copying one block over another leaves block `d` equal to block `s` of the
/// input, and every byte outside block `d` as it was.
proof fn lemma_copy_block(prev: Seq<u8>, dst_at: int, src: Seq<u8>, src_at: int, len: int)
    requires
        0 <= len,
        0 <= dst_at,
        dst_at + len <= prev.len(),
        0 <= src_at,
        src_at + len <= src.len(),
    ensures
        copy_range(prev, dst_at, src, src_at, len).len() == prev.len(),
        copy_range(prev, dst_at, src, src_at, len).subrange(dst_at, dst_at + len) == src.subrange(
            src_at,
            src_at + len,
        ),
        forall|k: int|
            0 <= k < prev.len() && !(dst_at <= k < dst_at + len) ==> #[trigger] copy_range(
                prev,
                dst_at,
                src,
                src_at,
                len,
            )[k] == prev[k],
{
    assert(copy_range(prev, dst_at, src, src_at, len).subrange(dst_at, dst_at + len) =~= src.subrange(
        src_at,
        src_at + len,
    ));
}

/// A swap of one entry `(s, d)` makes block `d` of the destination equal to
/// block `s` of the source, and leaves every other byte of the destination as
/// it was.
pub proof fn lemma_swap_one_block(src: CacheBuffer, dst: CacheBuffer, s: usize, d: usize)
    requires
        src.element_size == dst.element_size,
        src.block_dim == dst.block_dim,
        src.holds_block(s as int),
        dst.holds_block(d as int),
    ensures
        ({
            let out = swapped(
                src.bytes@,
                src.start_offset as int,
                dst.bytes@,
                dst.start_offset as int,
                src.block_bytes(),
                seq![(s, d)],
            );
            let at = block_start(dst.start_offset as int, d as int, dst.block_bytes());
            &&& out.len() == dst.bytes@.len()
            &&& out.subrange(at, at + dst.block_bytes()) == src.block_view(s as int)
            &&& forall|k: int|
                0 <= k < out.len() && !(at <= k < at + dst.block_bytes()) ==> #[trigger] out[k]
                    == dst.bytes@[k]
        }),
{
    let m = seq![(s, d)];
    assert(m.drop_last() =~= Seq::<(usize, usize)>::empty());
    reveal_with_fuel(swapped, 2);
    assert(m.last() == (s, d));
    assert(src.element_size * src.block_dim >= 0) by (nonlinear_arith);
    lemma_copy_block(
        dst.bytes@,
        block_start(dst.start_offset as int, d as int, dst.block_bytes()),
        src.bytes@,
        block_start(src.start_offset as int, s as int, src.block_bytes()),
        src.block_bytes(),
    );
}

/// Swapping between buffers on two different GPUs is a device mismatch.
pub proof fn lemma_swap_across_gpus_rejected(src_ordinal: usize, dst_ordinal: usize)
    requires
        src_ordinal != dst_ordinal,
    ensures
        swap_pairing(
            DeviceLocation::Cuda { gpu_id: src_ordinal },
            DeviceLocation::Cuda { gpu_id: dst_ordinal },
        ) == Err::<SwapKind, TransferError>(TransferError::DeviceMismatch { src_ordinal, dst_ordinal }),
{
}

/// Swapping between two host buffers is an unsupported pairing.
pub proof fn lemma_swap_host_to_host_rejected()
    ensures
        swap_pairing(DeviceLocation::Cpu, DeviceLocation::Cpu) == Err::<SwapKind, TransferError>(
            TransferError::UnsupportedPairing { src: DeviceLocation::Cpu, dst: DeviceLocation::Cpu },
        ),
{
}

/// Fanning block `s` out to blocks `d1` and `d2` makes both byte-identical to
/// block `s`, and leaves block `s` unchanged.
pub proof fn lemma_replicate_fan_out(
    buf: CacheBuffer,
    block_mapping: Seq<(usize, Vec<usize>)>,
    s: usize,
    d1: usize,
    d2: usize,
)
    requires
        block_mapping.len() == 1,
        block_mapping[0].0 == s,
        block_mapping[0].1@ == seq![d1, d2],
        buf.holds_block(s as int),
        buf.holds_block(d1 as int),
        buf.holds_block(d2 as int),
        s != d1,
        s != d2,
    ensures
        ({
            let out = replicated(
                buf.bytes@,
                buf.start_offset as int,
                buf.block_bytes(),
                fan_out_pairs(block_mapping),
            );
            &&& out.len() == buf.bytes@.len()
            &&& out.subrange(
                block_start(buf.start_offset as int, d1 as int, buf.block_bytes()),
                block_start(buf.start_offset as int, d1 as int, buf.block_bytes()) + buf.block_bytes(),
            ) == buf.block_view(s as int)
            &&& out.subrange(
                block_start(buf.start_offset as int, d2 as int, buf.block_bytes()),
                block_start(buf.start_offset as int, d2 as int, buf.block_bytes()) + buf.block_bytes(),
            ) == buf.block_view(s as int)
            &&& out.subrange(
                block_start(buf.start_offset as int, s as int, buf.block_bytes()),
                block_start(buf.start_offset as int, s as int, buf.block_bytes()) + buf.block_bytes(),
            ) == buf.block_view(s as int)
        }),
{
    let start = buf.start_offset as int;
    let bb = buf.block_bytes();
    let bytes = buf.bytes@;
    let pairs = seq![(s, d1), (s, d2)];
    assert(buf.element_size * buf.block_dim >= 0) by (nonlinear_arith);
    assert(block_mapping.drop_last() =~= Seq::<(usize, Vec<usize>)>::empty());
    reveal_with_fuel(fan_out_pairs, 2);
    assert(fan_out_pairs(block_mapping.drop_last()) =~= Seq::<(usize, usize)>::empty());
    assert(block_mapping.last().1@.map_values(|d: usize| (s, d)) =~= pairs);
    assert(fan_out_pairs(block_mapping) =~= pairs);
    assert(pairs.drop_last() =~= seq![(s, d1)]);
    assert(seq![(s, d1)].drop_last() =~= Seq::<(usize, usize)>::empty());
    reveal_with_fuel(replicated, 3);
    let bs = block_start(start, s as int, bb);
    let b1 = block_start(start, d1 as int, bb);
    let b2 = block_start(start, d2 as int, bb);
    crate::addressing::lemma_blocks_apart(start, s as int, d1 as int, bb);
    crate::addressing::lemma_blocks_apart(start, s as int, d2 as int, bb);
    let mid = copy_range(bytes, b1, bytes, bs, bb);
    lemma_copy_block(bytes, b1, bytes, bs, bb);
    assert(mid.subrange(bs, bs + bb) =~= bytes.subrange(bs, bs + bb)) by {
        assert forall|k: int| 0 <= k < bb implies (#[trigger] mid.subrange(bs, bs + bb)[k]) == bytes.subrange(bs, bs + bb)[k] by {
            assert(mid[bs + k] == bytes[bs + k]);
        }
    }
    let out = copy_range(mid, b2, mid, bs, bb);
    lemma_copy_block(mid, b2, mid, bs, bb);
    assert(out.subrange(bs, bs + bb) =~= bytes.subrange(bs, bs + bb)) by {
        assert forall|k: int| 0 <= k < bb implies (#[trigger] out.subrange(bs, bs + bb)[k]) == bytes.subrange(bs, bs + bb)[k] by {
            assert(out[bs + k] == mid[bs + k]);
        }
    }
    if d1 != d2 {
        crate::addressing::lemma_blocks_apart(start, d1 as int, d2 as int, bb);
        assert(out.subrange(b1, b1 + bb) =~= bytes.subrange(bs, bs + bb)) by {
            assert forall|k: int| 0 <= k < bb implies (#[trigger] out.subrange(b1, b1 + bb)[k]) == bytes.subrange(bs, bs + bb)[k] by {
                assert(out[b1 + k] == mid[b1 + k]);
                assert(mid.subrange(b1, b1 + bb)[k] == mid[b1 + k]);
            }
        }
    }
}


/// One byte-range copy: `len` bytes at `src_offset` of the source over the
/// bytes at `dst_offset` of the destination.
#[derive(Clone, Copy, Debug, PartialEq, Eq, Structural)]
pub struct ByteCopy {
    pub src_offset: usize,
    pub dst_offset: usize,
    pub len: usize,
}

/// The copies a device runtime issues for one swap, in order.
pub struct SwapPlan {
    pub kind: SwapKind,
    pub copies: Vec<ByteCopy>,
}

/// The copy of block `s` of a source view starting at `src_start` over block
/// `d` of a destination view starting at `dst_start`.
pub open spec fn block_copy(src_start: int, s: int, dst_start: int, d: int, block_bytes: int) -> ByteCopy {
    ByteCopy {
        src_offset: block_start(src_start, s, block_bytes) as usize,
        dst_offset: block_start(dst_start, d, block_bytes) as usize,
        len: block_bytes as usize,
    }
}

/// The byte range of block `id` has an address that fits the machine.
pub open spec fn block_addressable(start: int, id: int, block_bytes: int) -> bool {
    0 <= block_bytes && block_start(start, id, block_bytes) + block_bytes <= usize::MAX
}

/// `dst` after the copies from `src`, one after the other.
pub open spec fn apply_copies(src: Seq<u8>, dst: Seq<u8>, copies: Seq<ByteCopy>) -> Seq<u8>
    decreases copies.len(),
{
    if copies.len() == 0 {
        dst
    } else {
        let c = copies.last();
        copy_range(
            apply_copies(src, dst, copies.drop_last()),
            c.dst_offset as int,
            src,
            c.src_offset as int,
            c.len as int,
        )
    }
}

/// `bytes` after the copies inside it, one after the other, each reading the
/// bytes as the earlier copies left them.
pub open spec fn apply_copies_within(bytes: Seq<u8>, copies: Seq<ByteCopy>) -> Seq<u8>
    decreases copies.len(),
{
    if copies.len() == 0 {
        bytes
    } else {
        let c = copies.last();
        let prev = apply_copies_within(bytes, copies.drop_last());
        copy_range(prev, c.dst_offset as int, prev, c.src_offset as int, c.len as int)
    }
}

/// The byte copies of a swap: one per mapping entry, in order, each moving a
/// whole block; or the error that rejects the pairing of locations.
pub fn swap_plan(
    src: DeviceLocation,
    dst: DeviceLocation,
    src_start: usize,
    dst_start: usize,
    block_bytes: usize,
    block_mapping: &Vec<(usize, usize)>,
) -> (r: Result<SwapPlan, TransferError>)
    requires
        forall|i: int|
            0 <= i < block_mapping@.len() ==> block_addressable(
                src_start as int,
                (#[trigger] block_mapping@[i]).0 as int,
                block_bytes as int,
            ) && block_addressable(dst_start as int, block_mapping@[i].1 as int, block_bytes as int),
    ensures
        match swap_pairing(src, dst) {
            Err(e) => r matches Err(x) && x == e,
            Ok(kind) => r matches Ok(p) && p.kind == kind && p.copies@.len() == block_mapping@.len()
                && forall|i: int|
                0 <= i < block_mapping@.len() ==> #[trigger] p.copies@[i] == block_copy(
                    src_start as int,
                    block_mapping@[i].0 as int,
                    dst_start as int,
                    block_mapping@[i].1 as int,
                    block_bytes as int,
                ),
        },
{
    let kind = match swap_kind(src, dst) {
        Err(e) => {
            return Err(e);
        },
        Ok(k) => k,
    };
    let mut copies: Vec<ByteCopy> = Vec::new();
    let mut i: usize = 0;
    while i < block_mapping.len()
        invariant
            i <= block_mapping@.len(),
            copies@.len() == i,
            forall|q: int|
                0 <= q < block_mapping@.len() ==> block_addressable(
                    src_start as int,
                    (#[trigger] block_mapping@[q]).0 as int,
                    block_bytes as int,
                ) && block_addressable(dst_start as int, block_mapping@[q].1 as int, block_bytes as int),
            forall|q: int|
                0 <= q < i ==> #[trigger] copies@[q] == block_copy(
                    src_start as int,
                    block_mapping@[q].0 as int,
                    dst_start as int,
                    block_mapping@[q].1 as int,
                    block_bytes as int,
                ),
        decreases block_mapping@.len() - i,
    {
        let (s, d) = block_mapping[i];
        assert(block_addressable(src_start as int, block_mapping@[i as int].0 as int, block_bytes as int));
        let src_offset = block_byte_offset(src_start, s, block_bytes);
        let dst_offset = block_byte_offset(dst_start, d, block_bytes);
        copies.push(ByteCopy { src_offset, dst_offset, len: block_bytes });
        i = i + 1;
    }
    Ok(SwapPlan { kind, copies })
}

/// Issuing a swap plan's copies in order gives exactly the swapped bytes.
pub proof fn lemma_swap_plan_applies(
    src: Seq<u8>,
    src_start: int,
    dst: Seq<u8>,
    dst_start: int,
    block_bytes: int,
    mapping: Seq<(usize, usize)>,
    copies: Seq<ByteCopy>,
)
    requires
        copies.len() == mapping.len(),
        forall|i: int|
            0 <= i < mapping.len() ==> block_addressable(src_start, (#[trigger] mapping[i]).0 as int, block_bytes)
                && block_addressable(dst_start, mapping[i].1 as int, block_bytes) && 0 <= block_start(
                src_start,
                mapping[i].0 as int,
                block_bytes,
            ) && 0 <= block_start(dst_start, mapping[i].1 as int, block_bytes),
        forall|i: int|
            0 <= i < mapping.len() ==> #[trigger] copies[i] == block_copy(
                src_start,
                mapping[i].0 as int,
                dst_start,
                mapping[i].1 as int,
                block_bytes,
            ),
    ensures
        apply_copies(src, dst, copies) == swapped(src, src_start, dst, dst_start, block_bytes, mapping),
    decreases mapping.len(),
{
    if mapping.len() > 0 {
        let n = mapping.len() - 1;
        assert(copies[n] == block_copy(src_start, mapping[n].0 as int, dst_start, mapping[n].1 as int, block_bytes));
        assert(block_addressable(src_start, mapping[n].0 as int, block_bytes));
        lemma_swap_plan_applies(
            src,
            src_start,
            dst,
            dst_start,
            block_bytes,
            mapping.drop_last(),
            copies.drop_last(),
        );
    }
}

/// The byte copies of a fan-out inside one buffer view: one per (source,
/// destination) pair, in order.
pub fn fan_out_copies(start: usize, block_bytes: usize, block_mapping: &Vec<(usize, Vec<usize>)>) -> (r:
    Vec<ByteCopy>)
    requires
        forall|k: int|
            0 <= k < fan_out_pairs(block_mapping@).len() ==> block_addressable(
                start as int,
                (#[trigger] fan_out_pairs(block_mapping@)[k]).0 as int,
                block_bytes as int,
            ) && block_addressable(start as int, fan_out_pairs(block_mapping@)[k].1 as int, block_bytes as int),
    ensures
        r@.len() == fan_out_pairs(block_mapping@).len(),
        forall|k: int|
            0 <= k < r@.len() ==> #[trigger] r@[k] == block_copy(
                start as int,
                fan_out_pairs(block_mapping@)[k].0 as int,
                start as int,
                fan_out_pairs(block_mapping@)[k].1 as int,
                block_bytes as int,
            ),
{
    let ghost all = fan_out_pairs(block_mapping@);
    let mut r: Vec<ByteCopy> = Vec::new();
    let mut i: usize = 0;
    while i < block_mapping.len()
        invariant
            i <= block_mapping@.len(),
            all == fan_out_pairs(block_mapping@),
            forall|k: int|
                0 <= k < all.len() ==> block_addressable(start as int, (#[trigger] all[k]).0 as int, block_bytes as int)
                    && block_addressable(start as int, all[k].1 as int, block_bytes as int),
            fan_out_pairs(block_mapping@.take(i as int)).len() <= all.len(),
            all.take(fan_out_pairs(block_mapping@.take(i as int)).len() as int) == fan_out_pairs(block_mapping@.take(i as int)),
            r@.len() == fan_out_pairs(block_mapping@.take(i as int)).len(),
            forall|k: int|
                0 <= k < r@.len() ==> #[trigger] r@[k] == block_copy(
                    start as int,
                    all[k].0 as int,
                    start as int,
                    all[k].1 as int,
                    block_bytes as int,
                ),
        decreases block_mapping@.len() - i,
    {
        let s = block_mapping[i].0;
        let dsts = &block_mapping[i].1;
        let ghost done = fan_out_pairs(block_mapping@.take(i as int));
        proof {
            lemma_fan_out_prefix(block_mapping@, i as int);
        }
        let mut j: usize = 0;
        while j < dsts.len()
            invariant
                j <= dsts@.len(),
                *dsts == block_mapping@[i as int].1,
                s == block_mapping@[i as int].0,
                i < block_mapping@.len(),
                forall|k: int|
                    0 <= k < all.len() ==> block_addressable(start as int, (#[trigger] all[k]).0 as int, block_bytes as int)
                        && block_addressable(start as int, all[k].1 as int, block_bytes as int),
                done == fan_out_pairs(block_mapping@.take(i as int)),
                done + dsts@.map_values(|d: usize| (s, d)) == fan_out_pairs(block_mapping@.take(i as int + 1)),
                done.len() + dsts@.len() <= all.len(),
                all.take((done.len() + dsts@.len()) as int) == done + dsts@.map_values(|d: usize| (s, d)),
                r@.len() == done.len() + j,
                forall|k: int|
                    0 <= k < r@.len() ==> #[trigger] r@[k] == block_copy(
                        start as int,
                        all[k].0 as int,
                        start as int,
                        all[k].1 as int,
                        block_bytes as int,
                    ),
            decreases dsts@.len() - j,
        {
            let d = dsts[j];
            let ghost k = done.len() + j;
            assert(all[k] == (s, d)) by {
                assert(all.take((done.len() + dsts@.len()) as int)[k] == all[k]);
                assert((done + dsts@.map_values(|d: usize| (s, d)))[k] == (s, d));
            }
            assert(block_addressable(start as int, all[k].0 as int, block_bytes as int));
            let src_offset = block_byte_offset(start, s, block_bytes);
            let dst_offset = block_byte_offset(start, d, block_bytes);
            r.push(ByteCopy { src_offset, dst_offset, len: block_bytes });
            j = j + 1;
        }
        i = i + 1;
    }
    assert(block_mapping@.take(i as int) =~= block_mapping@);
    r
}

/// Issuing fan-out copies in order inside one buffer gives exactly the
/// replicated bytes.
pub proof fn lemma_fan_out_copies_apply(
    bytes: Seq<u8>,
    start: int,
    block_bytes: int,
    pairs: Seq<(usize, usize)>,
    copies: Seq<ByteCopy>,
)
    requires
        copies.len() == pairs.len(),
        forall|i: int|
            0 <= i < pairs.len() ==> block_addressable(start, (#[trigger] pairs[i]).0 as int, block_bytes)
                && block_addressable(start, pairs[i].1 as int, block_bytes) && 0 <= block_start(
                start,
                pairs[i].0 as int,
                block_bytes,
            ) && 0 <= block_start(start, pairs[i].1 as int, block_bytes),
        forall|i: int|
            0 <= i < pairs.len() ==> #[trigger] copies[i] == block_copy(
                start,
                pairs[i].0 as int,
                start,
                pairs[i].1 as int,
                block_bytes,
            ),
    ensures
        apply_copies_within(bytes, copies) == replicated(bytes, start, block_bytes, pairs),
    decreases pairs.len(),
{
    if pairs.len() > 0 {
        let n = pairs.len() - 1;
        assert(copies[n] == block_copy(start, pairs[n].0 as int, start, pairs[n].1 as int, block_bytes));
        assert(block_addressable(start, pairs[n].0 as int, block_bytes));
        lemma_fan_out_copies_apply(bytes, start, block_bytes, pairs.drop_last(), copies.drop_last());
    }
}

/// Accepts locations that are all the same; otherwise names the first and a
/// differing one.
pub fn common_location(locations: &Vec<DeviceLocation>) -> (r: Result<(), TransferError>)
    ensures
        r is Ok <==> forall|i: int| 0 <= i < locations@.len() ==> (#[trigger] locations@[i]) == locations@[0],
        r matches Err(e) ==> e is MixedDevices,
        r matches Err(TransferError::MixedDevices { first, other }) ==> {
            &&& first == locations@[0]
            &&& other != first
            &&& exists|i: int| 0 <= i < locations@.len() && (#[trigger] locations@[i]) == other
        },
{
    let mut i: usize = 1;
    while i < locations.len()
        invariant
            1 <= i,
            i <= locations@.len() || locations@.len() == 0,
            forall|k: int| 0 <= k < i && k < locations@.len() ==> (#[trigger] locations@[k]) == locations@[0],
        decreases locations@.len() - i,
    {
        if locations[i] != locations[0] {
            return Err(TransferError::MixedDevices { first: locations[0], other: locations[i] });
        }
        i = i + 1;
    }
    Ok(())
}

} // verus!
