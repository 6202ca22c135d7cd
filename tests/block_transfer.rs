use candle_vllm::addressing::{block_byte_offset, block_size_in_bytes, slot, PAD_SLOT_ID};
use candle_vllm::transfer::{
    common_location, copy_blocks, fan_out_copies, swap_blocks, swap_kind, swap_plan, ByteCopy, CacheBuffer,
    DeviceLocation, SwapKind, TransferError,
};

fn buffer(location: DeviceLocation, blocks: usize, block_bytes: usize, seed: u8) -> CacheBuffer {
    let mut bytes = Vec::new();
    for i in 0..blocks * block_bytes {
        bytes.push((i as u8).wrapping_mul(3).wrapping_add(seed));
    }
    CacheBuffer { location, element_size: 2, block_dim: block_bytes / 2, start_offset: 0, bytes }
}

fn block(b: &CacheBuffer, id: usize) -> Vec<u8> {
    let bb = b.element_size * b.block_dim;
    let at = b.start_offset + id * bb;
    b.bytes[at..at + bb].to_vec()
}

const GPU0: DeviceLocation = DeviceLocation::Cuda { gpu_id: 0 };
const GPU1: DeviceLocation = DeviceLocation::Cuda { gpu_id: 1 };

#[test]
fn slot_arithmetic() {
    assert_eq!(slot(6, 1, 4), 25);
    assert_eq!(slot(0, 0, 16), 0);
    assert_eq!(block_size_in_bytes(2, 16), 32);
    assert_eq!(block_byte_offset(8, 3, 32), 104);
    assert_eq!(PAD_SLOT_ID, -1);
}

#[test]
fn swap_copies_one_block_and_nothing_else() {
    let src = buffer(GPU0, 3, 4, 1);
    let mut dst = buffer(GPU0, 3, 4, 100);
    let before = dst.bytes.clone();
    assert_eq!(swap_blocks(&src, &mut dst, &vec![(0, 0)]), Ok(()));
    assert_eq!(block(&dst, 0), block(&src, 0));
    assert_eq!(dst.bytes[4..], before[4..]);
}

#[test]
fn swap_moves_between_distinct_block_ids() {
    let src = buffer(DeviceLocation::Cpu, 4, 4, 1);
    let mut dst = buffer(GPU0, 4, 4, 100);
    let before = dst.bytes.clone();
    assert_eq!(swap_blocks(&src, &mut dst, &vec![(3, 1), (0, 2)]), Ok(()));
    assert_eq!(block(&dst, 1), block(&src, 3));
    assert_eq!(block(&dst, 2), block(&src, 0));
    assert_eq!(dst.bytes[0..4], before[0..4]);
    assert_eq!(dst.bytes[12..16], before[12..16]);
}

#[test]
fn swap_respects_start_offsets() {
    let mut src = buffer(GPU0, 3, 4, 1);
    src.start_offset = 2;
    let mut dst = buffer(DeviceLocation::Cpu, 3, 4, 100);
    dst.start_offset = 4;
    assert_eq!(swap_blocks(&src, &mut dst, &vec![(1, 1)]), Ok(()));
    assert_eq!(dst.bytes[8..12], src.bytes[6..10]);
}

#[test]
fn swap_across_gpus_is_a_device_mismatch() {
    let src = buffer(GPU0, 2, 4, 1);
    let mut dst = buffer(GPU1, 2, 4, 100);
    let before = dst.bytes.clone();
    assert_eq!(
        swap_blocks(&src, &mut dst, &vec![(0, 0)]),
        Err(TransferError::DeviceMismatch { src_ordinal: 0, dst_ordinal: 1 })
    );
    assert_eq!(dst.bytes, before);
}

#[test]
fn swap_between_host_buffers_is_unsupported() {
    let src = buffer(DeviceLocation::Cpu, 2, 4, 1);
    let mut dst = buffer(DeviceLocation::Cpu, 2, 4, 100);
    let before = dst.bytes.clone();
    assert_eq!(
        swap_blocks(&src, &mut dst, &vec![(0, 0)]),
        Err(TransferError::UnsupportedPairing { src: DeviceLocation::Cpu, dst: DeviceLocation::Cpu })
    );
    assert_eq!(dst.bytes, before);
}

#[test]
fn swap_kinds() {
    assert_eq!(swap_kind(GPU0, GPU0), Ok(SwapKind::DeviceToDevice));
    assert_eq!(swap_kind(DeviceLocation::Cpu, GPU1), Ok(SwapKind::HostToDevice));
    assert_eq!(swap_kind(GPU1, DeviceLocation::Cpu), Ok(SwapKind::DeviceToHost));
    let metal = DeviceLocation::Metal { gpu_id: 0 };
    assert_eq!(swap_kind(metal, GPU0), Err(TransferError::UnsupportedPairing { src: metal, dst: GPU0 }));
}

#[test]
fn replicate_fans_one_block_out() {
    let mut keys = vec![buffer(GPU0, 13, 4, 1), buffer(GPU0, 13, 4, 7)];
    let mut values = vec![buffer(GPU0, 13, 4, 50)];
    let k0 = keys[0].bytes.clone();
    let v0 = values[0].bytes.clone();
    assert_eq!(copy_blocks(&mut keys, &mut values, &vec![(5, vec![9, 12])]), Ok(()));
    for b in [&keys[0], &keys[1], &values[0]] {
        assert_eq!(block(b, 9), block(b, 5));
        assert_eq!(block(b, 12), block(b, 5));
    }
    assert_eq!(keys[0].bytes[20..24], k0[20..24]);
    assert_eq!(values[0].bytes[20..24], v0[20..24]);
    assert_eq!(keys[0].bytes[..36], k0[..36]);
    assert_eq!(keys[0].bytes[40..48], k0[40..48]);
}

#[test]
fn replicate_rejects_mixed_devices() {
    let mut keys = vec![buffer(GPU0, 4, 4, 1)];
    let mut values = vec![buffer(GPU1, 4, 4, 2)];
    let k0 = keys[0].bytes.clone();
    assert_eq!(
        copy_blocks(&mut keys, &mut values, &vec![(0, vec![1])]),
        Err(TransferError::MixedDevices { first: GPU0, other: GPU1 })
    );
    assert_eq!(keys[0].bytes, k0);
}

#[test]
fn swap_plan_lists_one_block_copy_per_entry() {
    match swap_plan(DeviceLocation::Cpu, GPU0, 8, 0, 32, &vec![(3, 1), (0, 2)]) {
        Ok(p) => {
            assert_eq!(p.kind, SwapKind::HostToDevice);
            assert_eq!(
                p.copies,
                vec![
                    ByteCopy { src_offset: 104, dst_offset: 32, len: 32 },
                    ByteCopy { src_offset: 8, dst_offset: 64, len: 32 },
                ]
            );
        }
        Err(_) => panic!("pairing rejected"),
    }
    match swap_plan(GPU0, GPU1, 0, 0, 32, &vec![(0, 0)]) {
        Err(e) => assert_eq!(e, TransferError::DeviceMismatch { src_ordinal: 0, dst_ordinal: 1 }),
        Ok(_) => panic!("accepted two GPUs"),
    }
}

#[test]
fn fan_out_copies_follow_the_mapping() {
    assert_eq!(
        fan_out_copies(4, 8, &vec![(5, vec![9, 12]), (1, vec![2])]),
        vec![
            ByteCopy { src_offset: 44, dst_offset: 76, len: 8 },
            ByteCopy { src_offset: 44, dst_offset: 100, len: 8 },
            ByteCopy { src_offset: 12, dst_offset: 20, len: 8 },
        ]
    );
}

#[test]
fn common_location_checks_every_buffer() {
    assert_eq!(common_location(&vec![GPU0, GPU0]), Ok(()));
    assert_eq!(common_location(&vec![]), Ok(()));
    assert_eq!(
        common_location(&vec![GPU0, GPU0, DeviceLocation::Cpu]),
        Err(TransferError::MixedDevices { first: GPU0, other: DeviceLocation::Cpu })
    );
}

#[test]
fn replicate_onto_the_same_block_changes_nothing() {
    let mut keys = vec![buffer(GPU0, 4, 4, 1)];
    let mut values = vec![];
    let k0 = keys[0].bytes.clone();
    assert_eq!(copy_blocks(&mut keys, &mut values, &vec![(2, vec![2])]), Ok(()));
    assert_eq!(keys[0].bytes, k0);
}
