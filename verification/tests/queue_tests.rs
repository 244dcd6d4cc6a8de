use std::rc::Rc;

use readerwriterqueue::ceilToPow2;
use readerwriterqueue::Block;
use readerwriterqueue::ReaderWriterQueue;

#[test]
fn ceil_to_pow2_exact_values() {
    assert_eq!(ceilToPow2(1), 1);
    assert_eq!(ceilToPow2(2), 2);
    assert_eq!(ceilToPow2(3), 4);
    assert_eq!(ceilToPow2(15), 16);
    assert_eq!(ceilToPow2(16), 16);
    assert_eq!(ceilToPow2(17), 32);
    assert_eq!(ceilToPow2(1000), 1024);
}

#[test]
fn block_smoke() {
    let _b: Block<usize> = Block::new(8);
}

#[test]
fn empty_queue_contract() {
    let mut q: ReaderWriterQueue<usize, 512> = ReaderWriterQueue::with_size(15);
    assert_eq!(q.peek(), None);
    assert_eq!(q.try_dequeue(), None);
    assert_eq!(q.size_approx(), 0);
}

#[test]
fn fifo_order() {
    let mut q: ReaderWriterQueue<usize, 512> = ReaderWriterQueue::with_size(32);
    for i in 0..20 {
        assert!(q.try_enqueue(i));
    }
    for i in 0..20 {
        assert_eq!(q.peek(), Some(&i));
        assert_eq!(q.try_dequeue(), Some(i));
    }
    assert_eq!(q.try_dequeue(), None);
}

#[test]
fn capacity_hint_tight() {
    // 15 + 1 rounds to the power of two 16, so the hint is met exactly:
    // 15 bounded enqueues succeed and the 16th fails.
    let mut q: ReaderWriterQueue<usize, 512> = ReaderWriterQueue::with_size(15);
    for i in 0..15 {
        assert!(q.try_enqueue(i));
    }
    assert!(!q.try_enqueue(15));
    assert_eq!(q.size_approx(), 15);
}

#[test]
fn capacity_hint_rounds_up() {
    // 5 + 1 rounds up to 8 slots, one of them reserved: 7 bounded enqueues
    // fit before the 8th fails.
    let mut q: ReaderWriterQueue<usize, 512> = ReaderWriterQueue::with_size(5);
    for i in 0..7 {
        assert!(q.try_enqueue(i));
    }
    assert!(!q.try_enqueue(7));
}

#[test]
fn new_holds_fifteen() {
    let mut q: ReaderWriterQueue<usize, 512> = ReaderWriterQueue::new();
    for i in 0..15 {
        assert!(q.try_enqueue(i));
    }
    assert!(!q.try_enqueue(15));
    assert_eq!(q.max_capacity(), 15);
}

#[test]
fn multi_block_ring() {
    // A hint far above twice the maximum block size builds a ring of
    // maximum-size blocks: (9 + 2*4 - 3) / (4 - 1) = 4 blocks of 4 slots,
    // 3 usable each.
    let mut q: ReaderWriterQueue<usize, 4> = ReaderWriterQueue::with_size(9);
    assert_eq!(q.max_capacity(), 12);
    for i in 0..12 {
        assert!(q.try_enqueue(i));
    }
    assert!(!q.try_enqueue(12));
    for i in 0..12 {
        assert_eq!(q.try_dequeue(), Some(i));
    }
    assert_eq!(q.try_dequeue(), None);
}

#[test]
fn block_reuse_round_and_round() {
    // Fill and drain repeatedly so the ring rotates through drained blocks
    // without ever growing.
    let mut q: ReaderWriterQueue<usize, 4> = ReaderWriterQueue::with_size(9);
    let mut next_in: usize = 0;
    let mut next_out: usize = 0;
    for _round in 0..50 {
        for _ in 0..7 {
            assert!(q.try_enqueue(next_in));
            next_in += 1;
        }
        for _ in 0..7 {
            assert_eq!(q.try_dequeue(), Some(next_out));
            next_out += 1;
        }
    }
    assert_eq!(q.try_dequeue(), None);
}

#[test]
fn peek_across_drained_block() {
    // Blocks of 4 slots hold 3 elements each; after draining the first
    // block, peek must look past it into the next block without advancing.
    let mut q: ReaderWriterQueue<usize, 4> = ReaderWriterQueue::with_size(9);
    for i in 0..6 {
        assert!(q.try_enqueue(i));
    }
    for i in 0..3 {
        assert_eq!(q.try_dequeue(), Some(i));
    }
    assert_eq!(q.peek(), Some(&3));
    assert_eq!(q.try_dequeue(), Some(3));
    assert_eq!(q.peek(), Some(&4));
}

#[test]
fn growth_preserves_order() {
    // A tiny hint with the growing enqueue: it never fails, and order is
    // kept across every spliced block.
    let mut q: ReaderWriterQueue<usize, 4> = ReaderWriterQueue::with_size(2);
    let mut next_out: usize = 0;
    for i in 0..40 {
        assert!(q.enqueue(i));
        if i % 2 == 1 {
            assert_eq!(q.try_dequeue(), Some(next_out));
            next_out += 1;
        }
    }
    while let Some(v) = q.try_dequeue() {
        assert_eq!(v, next_out);
        next_out += 1;
    }
    assert_eq!(next_out, 40);
}

#[test]
fn growth_extends_capacity() {
    // Hint 2 rounds to one 4-slot block (3 usable), and that rounded size is
    // also the growth size: the first growth splices a second 4-slot block,
    // raising the total usable capacity from 3 to 6.
    let mut q: ReaderWriterQueue<usize, 2> = ReaderWriterQueue::with_size(2);
    assert_eq!(q.max_capacity(), 3);
    for i in 0..3 {
        assert!(q.try_enqueue(i));
    }
    assert!(!q.try_enqueue(3));
    assert!(q.enqueue(3));
    assert_eq!(q.max_capacity(), 6);
    for i in 0..4 {
        assert_eq!(q.try_dequeue(), Some(i));
    }
    assert_eq!(q.try_dequeue(), None);
}

#[test]
fn size_approx_counts_enqueues() {
    let mut q: ReaderWriterQueue<usize, 512> = ReaderWriterQueue::with_size(100);
    for k in 0..50 {
        assert_eq!(q.size_approx(), k);
        assert!(q.try_enqueue(k));
    }
    assert_eq!(q.size_approx(), 50);
}

#[test]
fn teardown_drops_live_elements() {
    let marker: Rc<usize> = Rc::new(7);
    {
        let mut q: ReaderWriterQueue<Rc<usize>, 4> = ReaderWriterQueue::with_size(9);
        for _ in 0..10 {
            assert!(q.enqueue(Rc::clone(&marker)));
        }
        assert_eq!(Rc::strong_count(&marker), 11);
        assert_eq!(q.try_dequeue().as_deref(), Some(&7));
        assert_eq!(Rc::strong_count(&marker), 10);
    }
    // Dropping the queue released every live element exactly once.
    assert_eq!(Rc::strong_count(&marker), 1);
}

#[test]
fn transfer_semantics() {
    let mut q: ReaderWriterQueue<usize, 512> = ReaderWriterQueue::with_size(15);
    for i in 0..10 {
        assert!(q.try_enqueue(i));
    }
    let mut moved = ReaderWriterQueue::from_other(&mut q);
    // The donor is a valid, empty, independently usable queue.
    assert_eq!(q.try_dequeue(), None);
    assert_eq!(q.size_approx(), 0);
    assert!(q.try_enqueue(100));
    assert_eq!(q.try_dequeue(), Some(100));
    // The new handle holds exactly what the donor held, in order.
    for i in 0..10 {
        assert_eq!(moved.try_dequeue(), Some(i));
    }
    assert_eq!(moved.try_dequeue(), None);
}

#[test]
fn interleaved_stress() {
    // The canonical producer/consumer scenario, run as a deterministic
    // interleaving: the producer side enqueues 0..n while the consumer side
    // dequeues at irregular moments driven by a small linear congruential
    // generator; every value must come out exactly once, in order.
    let n: usize = 5000;
    let mut q: ReaderWriterQueue<usize, 8> = ReaderWriterQueue::with_size(4);
    let mut lcg: u64 = 0x2545_f491_4f6c_dd1d;
    let mut next_out: usize = 0;
    for i in 0..n {
        assert!(q.enqueue(i));
        lcg = lcg.wrapping_mul(6364136223846793005).wrapping_add(1442695040888963407);
        let mut pops = (lcg >> 60) as usize;
        while pops > 0 {
            match q.try_dequeue() {
                Some(v) => {
                    assert_eq!(v, next_out);
                    next_out += 1;
                }
                None => break,
            }
            pops -= 1;
        }
    }
    while let Some(v) = q.try_dequeue() {
        assert_eq!(v, next_out);
        next_out += 1;
    }
    assert_eq!(next_out, n);
    assert_eq!(q.try_dequeue(), None);
}

#[test]
fn no_loss_no_duplication() {
    // Bounded enqueues under an irregular interleave: what comes out plus
    // what is dropped on refusal accounts for every offered element exactly
    // once.
    let mut q: ReaderWriterQueue<usize, 4> = ReaderWriterQueue::with_size(5);
    let mut lcg: u64 = 0x9e37_79b9_7f4a_7c15;
    let mut accepted: Vec<usize> = Vec::new();
    let mut out: Vec<usize> = Vec::new();
    for i in 0..2000 {
        if q.try_enqueue(i) {
            accepted.push(i);
        }
        lcg = lcg.wrapping_mul(6364136223846793005).wrapping_add(1442695040888963407);
        if lcg >> 63 == 1 {
            if let Some(v) = q.try_dequeue() {
                out.push(v);
            }
        }
    }
    while let Some(v) = q.try_dequeue() {
        out.push(v);
    }
    assert_eq!(out, accepted);
}
