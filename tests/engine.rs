use std::collections::VecDeque;

use fastdd::engine::{Engine, IoOp, OpKind};
use fastdd::error::CopyError;
use fastdd::plan::{plan_copy, CopyPlan};

struct Lcg(u64);

impl Lcg {
    fn next(&mut self) -> u64 {
        self.0 = self.0.wrapping_mul(6364136223846793005).wrapping_add(1442695040888963407);
        self.0 >> 33
    }
}

fn random_bytes(n: usize, seed: u64) -> Vec<u8> {
    let mut rng = Lcg(seed);
    (0..n).map(|_| rng.next() as u8).collect()
}

/// How the simulated kernel shortens transfers.
#[derive(Clone, Copy)]
enum Shorten {
    Never,
    Random,
}

struct Outcome {
    total: u64,
    committed: u64,
    blocks: u64,
    ops: Vec<IoOp>,
}

/// Drives the engine against in-memory files, completing operations out of
/// submission order and, when asked, with short transfers.
fn simulate(
    src: &[u8],
    dst: &mut Vec<u8>,
    plan: &CopyPlan,
    num_buffers: usize,
    registered: u64,
    shorten: Shorten,
    seed: u64,
) -> Result<Outcome, CopyError> {
    let mut rng = Lcg(seed);
    let mut engine = Engine::new(plan, num_buffers, registered);
    let mut buffers: Vec<Vec<u8>> = vec![vec![0u8; plan.block_size as usize]; num_buffers];
    let mut inflight: VecDeque<IoOp> = VecDeque::new();
    let mut committed = 0u64;
    let mut ops = Vec::new();
    while !engine.is_finished() {
        while let Some(op) = engine.next_read() {
            ops.push(op);
            inflight.push_back(op);
        }
        let op = if rng.next() % 2 == 0 {
            inflight.pop_front().expect("an operation is outstanding")
        } else {
            inflight.pop_back().expect("an operation is outstanding")
        };
        let n = match shorten {
            Shorten::Never => op.len,
            Shorten::Random => rng.next() % (op.len + 1),
        };
        let buf = &mut buffers[op.buffer as usize];
        let at = op.buffer_offset as usize;
        let off = op.file_offset as usize;
        match op.kind {
            OpKind::Read => {
                buf[at..at + n as usize].copy_from_slice(&src[off..off + n as usize]);
            }
            OpKind::Write => {
                if dst.len() < off + n as usize {
                    dst.resize(off + n as usize, 0);
                }
                dst[off..off + n as usize].copy_from_slice(&buf[at..at + n as usize]);
            }
        }
        let c = engine.complete(op.buffer, op.kind, n as i32)?;
        committed += c.committed;
        if let Some(next) = c.follow_up {
            ops.push(next);
            inflight.push_back(next);
        }
    }
    assert!(inflight.is_empty());
    Ok(Outcome { total: engine.total_size(), committed, blocks: engine.blocks_issued(), ops })
}

fn whole_file_plan(len: usize, block_size: u64) -> CopyPlan {
    plan_copy(len as u64, block_size, None, 0, 0).expect("a valid range")
}

#[test]
fn copy_random_5m_in_memory() {
    let src = random_bytes(5 * 1024 * 1024, 7);
    let mut dst = Vec::new();
    let plan = whole_file_plan(src.len(), 4096);
    let out = simulate(&src, &mut dst, &plan, 128, 128, Shorten::Never, 1).unwrap();
    assert_eq!(out.total, 5 * 1024 * 1024);
    assert_eq!(out.committed, 5 * 1024 * 1024);
    assert_eq!(out.blocks, 1280);
    assert_eq!(plan.num_blocks, 1280);
    assert!(dst == src);
}

#[test]
fn copy_survives_short_transfers() {
    for seed in 0..20u64 {
        let src = random_bytes(10_000 + seed as usize * 37, seed + 100);
        let mut dst = Vec::new();
        let plan = whole_file_plan(src.len(), 512);
        let out = simulate(&src, &mut dst, &plan, 4, 4, Shorten::Random, seed).unwrap();
        assert_eq!(out.total, src.len() as u64);
        assert_eq!(out.committed, src.len() as u64);
        assert_eq!(out.blocks, plan.num_blocks);
        assert!(dst == src);
    }
}

#[test]
fn copy_with_any_block_and_pool_size() {
    let src = random_bytes(3000, 3);
    for block_size in [1u64, 7, 512, 2999, 3000, 4096] {
        for num_buffers in [1usize, 2, 5, 64] {
            let mut dst = Vec::new();
            let plan = whole_file_plan(src.len(), block_size);
            let out = simulate(&src, &mut dst, &plan, num_buffers, 0, Shorten::Never, block_size).unwrap();
            assert_eq!(out.total, 3000);
            assert_eq!(out.committed, 3000);
            assert_eq!(out.blocks, (3000 + block_size - 1) / block_size);
            assert!(dst == src);
        }
    }
}

#[test]
fn empty_range_finishes_at_once() {
    let plan = whole_file_plan(0, 4096);
    assert_eq!(plan.total_size, 0);
    assert_eq!(plan.num_blocks, 0);
    let mut engine = Engine::new(&plan, 8, 8);
    assert!(engine.is_finished());
    assert_eq!(engine.next_read(), None);
    assert_eq!(engine.blocks_issued(), 0);
}

#[test]
fn single_buffer_serializes_and_completes() {
    let src = random_bytes(20_000, 11);
    let mut dst = Vec::new();
    let plan = whole_file_plan(src.len(), 1024);
    let out = simulate(&src, &mut dst, &plan, 1, 1, Shorten::Random, 5).unwrap();
    assert_eq!(out.committed, 20_000);
    assert!(out.ops.iter().all(|op| op.buffer == 0));
    assert!(dst == src);
}

#[test]
fn unregistered_buffers_copy_correctly() {
    let src = random_bytes(50_000, 13);
    let mut dst = Vec::new();
    let plan = whole_file_plan(src.len(), 1000);
    let out = simulate(&src, &mut dst, &plan, 10, 3, Shorten::Random, 9).unwrap();
    assert!(dst == src);
    assert!(out.ops.iter().all(|op| op.fixed == (op.buffer < 3)));
    assert!(out.ops.iter().any(|op| !op.fixed));
}

#[test]
fn seek_and_count_select_the_range() {
    let src = random_bytes(10_000, 17);
    let mut dst = vec![0xAAu8; 12_000];
    let plan = plan_copy(10_000, 1000, Some(3), 2, 5).unwrap();
    assert_eq!(plan.input_base, 2000);
    assert_eq!(plan.output_base, 5000);
    assert_eq!(plan.total_size, 3000);
    let out = simulate(&src, &mut dst, &plan, 2, 2, Shorten::Random, 21).unwrap();
    assert_eq!(out.committed, 3000);
    assert!(dst[5000..8000] == src[2000..5000]);
    assert!(dst[..5000].iter().all(|b| *b == 0xAA));
    assert!(dst[8000..].iter().all(|b| *b == 0xAA));
}

#[test]
fn engine_reads_blocks_in_order() {
    let plan = whole_file_plan(2500, 1000);
    let mut engine = Engine::new(&plan, 4, 2);
    let a = engine.next_read().unwrap();
    let b = engine.next_read().unwrap();
    let c = engine.next_read().unwrap();
    assert_eq!(engine.next_read(), None);
    assert_eq!((a.buffer, a.file_offset, a.len, a.fixed), (0, 0, 1000, true));
    assert_eq!((b.buffer, b.file_offset, b.len, b.fixed), (1, 1000, 1000, true));
    assert_eq!((c.buffer, c.file_offset, c.len, c.fixed), (2, 2000, 500, false));
}

#[test]
fn short_read_queues_the_rest_and_writes_what_arrived() {
    let plan = plan_copy(4000, 1000, None, 1, 2).unwrap();
    let mut engine = Engine::new(&plan, 1, 1);
    let r = engine.next_read().unwrap();
    assert_eq!((r.kind, r.file_offset, r.len), (OpKind::Read, 1000, 1000));
    let c = engine.complete(0, OpKind::Read, 300).unwrap();
    assert_eq!(c.committed, 0);
    let w = c.follow_up.unwrap();
    assert_eq!((w.kind, w.file_offset, w.buffer_offset, w.len), (OpKind::Write, 2000, 0, 300));
    // A short write continues from where it stopped, in the file and in the buffer.
    let c = engine.complete(0, OpKind::Write, 100).unwrap();
    assert_eq!(c.committed, 100);
    let w2 = c.follow_up.unwrap();
    assert_eq!((w2.file_offset, w2.buffer_offset, w2.len), (2100, 100, 200));
    let c = engine.complete(0, OpKind::Write, 150).unwrap();
    let w3 = c.follow_up.unwrap();
    assert_eq!((w3.file_offset, w3.buffer_offset, w3.len), (2250, 250, 50));
    let c = engine.complete(0, OpKind::Write, 50).unwrap();
    assert_eq!(c.committed, 50);
    assert_eq!(c.follow_up, None);
    // The rest of the short read comes before a fresh block.
    let r2 = engine.next_read().unwrap();
    assert_eq!((r2.file_offset, r2.len), (1300, 700));
}

#[test]
fn negative_result_is_an_io_error() {
    let plan = whole_file_plan(100, 10);
    let mut engine = Engine::new(&plan, 2, 2);
    engine.next_read().unwrap();
    assert_eq!(engine.complete(0, OpKind::Read, -5), Err(CopyError::Io(5)));
    // The engine is unchanged and still expects the read.
    assert!(engine.complete(0, OpKind::Read, 10).is_ok());
}

#[test]
fn oversized_or_unexpected_completion_is_rejected() {
    let plan = whole_file_plan(100, 10);
    let mut engine = Engine::new(&plan, 2, 2);
    engine.next_read().unwrap();
    assert_eq!(engine.complete(0, OpKind::Read, 11), Err(CopyError::InvariantViolation));
    assert_eq!(engine.complete(0, OpKind::Write, 1), Err(CopyError::InvariantViolation));
    assert_eq!(engine.complete(1, OpKind::Read, 1), Err(CopyError::InvariantViolation));
    assert_eq!(engine.complete(7, OpKind::Read, 1), Err(CopyError::InvariantViolation));
}
