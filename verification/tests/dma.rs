//! DMA descriptors, rings and the engine.

use vugva::dma::{DmaCompletion, DmaDescriptor, DmaEngine, DmaRing, DMA_FLAG_WRITEBACK};
use vugva::VugvaError;

#[test]
fn descriptor_is_64_bytes() {
    assert_eq!(std::mem::size_of::<DmaDescriptor>(), 64);
}

#[test]
fn dma_ring_submit_and_consume() {
    let mut ring = DmaRing::new();
    assert_eq!(ring.pending_count(), 0);

    let desc = DmaDescriptor::new(0xDEAD, 0xBEEF, 4096, 0, 1, 2, 0);

    let slot = ring.submit(&desc).unwrap();
    assert_eq!(slot, 0);
    assert_eq!(ring.pending_count(), 1);

    // Peek at the descriptor
    let peeked = ring.peek().unwrap();
    assert_eq!(peeked.src_addr, 0xDEAD);
    assert_eq!(peeked.dst_addr, 0xBEEF);
    assert_eq!(peeked.size, 4096);

    // Acknowledge
    ring.ack();
    assert_eq!(ring.pending_count(), 0);
}

#[test]
fn dma_ring_full_detection() {
    let mut ring = DmaRing::new();
    let desc = DmaDescriptor::new(0, 0, 0, 0, 0, 0, 0);

    // Fill the ring
    for _ in 0..1024 {
        ring.submit(&desc).unwrap();
    }
    assert!(ring.is_full());

    // Next submit should fail
    let result = ring.submit(&desc);
    assert!(result.is_err());
}

#[test]
fn dma_ring_wrap_around() {
    let mut ring = DmaRing::new();
    let desc = DmaDescriptor::new(42, 99, 128, 0, 0, 1, 0);

    // Fill and drain the ring multiple times
    for _ in 0..5 {
        for _ in 0..1024 {
            ring.submit(&desc).unwrap();
        }
        for _ in 0..1024 {
            ring.ack();
        }
    }
    assert_eq!(ring.pending_count(), 0);
}

#[test]
fn dma_completion_tracking() {
    let mut completion = DmaCompletion::new();
    assert!(completion.is_done());
    assert_eq!(completion.pending(), 0);

    completion.submitted += 3;
    assert!(!completion.is_done());
    assert_eq!(completion.pending(), 3);

    completion.completed += 2;
    assert!(!completion.is_done());
    assert_eq!(completion.pending(), 1);

    completion.completed += 1;
    assert!(completion.is_done());
    assert_eq!(completion.pending(), 0);
}

#[test]
fn dma_engine_submit_and_pending() {
    let mut engine = DmaEngine::new(2);
    assert!(engine.is_idle(0));
    assert!(engine.is_idle(1));

    let addr = 0x1000_u64;
    engine
        .submit_dram_to_vram(0, addr, addr + 0x1000, 4096, 2)
        .unwrap();
    assert!(!engine.is_idle(0));
    assert_eq!(engine.total_pending(), 1);
}

fn numbered(n: u64) -> DmaDescriptor {
    DmaDescriptor::new(n, n + 1, 64, 0, 0, 1, 0)
}

#[test]
fn descriptors_come_out_in_the_order_they_went_in() {
    let mut ring = DmaRing::new();
    let mut next_in = 0u64;
    let mut next_out = 0u64;
    for round in 0..40 {
        for _ in 0..(round * 37 % 400) {
            if ring.submit(&numbered(next_in)).is_ok() {
                next_in += 1;
            }
        }
        for _ in 0..(round * 53 % 300) {
            if let Some(d) = ring.peek() {
                assert_eq!(d.src_addr, next_out);
                ring.ack();
                next_out += 1;
            }
        }
        assert_eq!(ring.pending_count() as u64, next_in - next_out);
    }
}

#[test]
fn slots_are_used_in_turn() {
    let mut ring = DmaRing::new();
    for i in 0..1024u32 {
        assert_eq!(ring.submit(&numbered(i as u64)).unwrap(), i);
    }
    assert!(matches!(ring.submit(&numbered(0)), Err(VugvaError::DmaRingFull)));
    assert_eq!(ring.pending_count(), 1024);
    ring.ack();
    assert_eq!(ring.submit(&numbered(1024)).unwrap(), 0);
    assert_eq!(ring.peek().unwrap().src_addr, 1);
}

#[test]
fn an_empty_ring_has_nothing_to_peek_at() {
    let ring = DmaRing::default();
    assert!(ring.peek().is_none());
    assert!(!ring.is_full());
}

#[test]
fn completion_is_counted_apart_from_consumption() {
    let mut ring = DmaRing::new();
    ring.submit(&numbered(0)).unwrap();
    ring.mark_complete();
    assert!(ring.completion.is_done());
    assert_eq!(ring.pending_count(), 1);
    ring.ack();
    assert_eq!(ring.pending_count(), 0);
    // More was completed than submitted.
    assert_eq!(ring.completion.pending(), 0);
    assert!(!ring.completion.is_done());
    assert!(DmaCompletion::default().is_done());
}

#[test]
fn the_engine_refuses_gpus_it_does_not_have() {
    let mut engine = DmaEngine::new(2);
    assert!(matches!(
        engine.submit_dram_to_vram(2, 0, 0, 1, 0),
        Err(VugvaError::InvalidGpu(2))
    ));
    assert!(matches!(
        engine.submit_vram_to_dram(9, 0, 0, 1, 0),
        Err(VugvaError::InvalidGpu(9))
    ));
    assert!(matches!(
        engine.submit_vram_to_vram(5, 3, 0, 0, 1, 0),
        Err(VugvaError::InvalidGpu(5))
    ));
    assert!(matches!(
        engine.submit_vram_to_vram(0, 3, 0, 0, 1, 0),
        Err(VugvaError::InvalidGpu(3))
    ));
    assert_eq!(engine.total_pending(), 0);
    assert!(engine.is_idle(7));
    assert_eq!(engine.pending(7), 0);
}

#[test]
fn the_engine_counts_per_gpu() {
    let mut engine = DmaEngine::new(3);
    engine.submit_dram_to_vram(0, 1, 2, 3, 2).unwrap();
    engine.submit_vram_to_dram(0, 1, 2, 3, 0).unwrap();
    engine.submit_vram_to_vram(0, 2, 1, 2, 3, 1).unwrap();
    assert_eq!(engine.pending(0), 2);
    assert_eq!(engine.pending(1), 0);
    assert_eq!(engine.pending(2), 1);
    assert_eq!(engine.total_pending(), 3);
    assert!(!engine.is_idle(2));
    assert_eq!(DMA_FLAG_WRITEBACK, 1);
}

#[test]
fn the_engine_reports_a_full_ring() {
    let mut engine = DmaEngine::new(1);
    for i in 0..1024u32 {
        assert_eq!(engine.submit_dram_to_vram(0, 0, 0, 1, 0).unwrap(), i);
    }
    assert!(matches!(
        engine.submit_vram_to_dram(0, 0, 0, 1, 0),
        Err(VugvaError::DmaRingFull)
    ));
}

#[test]
fn an_engine_is_idle_exactly_where_nothing_is_in_flight() {
    let mut engine = DmaEngine::new(2);
    assert!(engine.is_idle(0));
    for n in 1..4 {
        engine.submit_dram_to_vram(0, 1, 2, 3, 2).unwrap();
        assert_eq!(engine.pending(0), n);
        assert!(!engine.is_idle(0));
        assert!(engine.is_idle(1));
        assert_eq!(engine.pending(1), 0);
    }
    let mut ring = DmaRing::new();
    ring.submit(&DmaDescriptor::new(0, 0, 0, 0, 0, 0, 0)).unwrap();
    assert_eq!((ring.completion.submitted, ring.completion.completed), (1, 0));
    ring.ack();
    assert_eq!((ring.completion.submitted, ring.completion.completed), (1, 1));
}
