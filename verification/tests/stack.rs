use std::cell::Cell;
use std::rc::Rc;

use coco::Stack;

/// A payload whose destructor counts itself, to observe that teardown
/// frees each element exactly once.
struct Counted {
    drops: Rc<Cell<usize>>,
}

impl Drop for Counted {
    fn drop(&mut self) {
        self.drops.set(self.drops.get() + 1);
    }
}

#[test]
fn smoke() {
    let mut s = Stack::new();
    s.push(1);
    assert_eq!(s.pop(), Some(1));
    assert_eq!(s.pop(), None);
}

#[test]
fn push_pop() {
    let mut s = Stack::new();
    s.push(1);
    s.push(2);
    s.push(3);
    assert_eq!(s.pop(), Some(3));
    s.push(4);
    assert_eq!(s.pop(), Some(4));
    assert_eq!(s.pop(), Some(2));
    assert_eq!(s.pop(), Some(1));
    assert_eq!(s.pop(), None);
    s.push(5);
    assert_eq!(s.pop(), Some(5));
    assert_eq!(s.pop(), None);
}

#[test]
fn is_empty() {
    let mut s = Stack::new();
    assert!(s.is_empty());

    for i in 0..3i32 {
        s.push(i);
        assert!(!s.is_empty());
    }

    for _ in 0..3i32 {
        assert!(!s.is_empty());
        s.pop();
    }

    assert!(s.is_empty());
    s.push(3);
    assert!(!s.is_empty());
    s.pop();
    assert!(s.is_empty());
}

#[test]
fn lifo_order() {
    let mut s: Stack<u32> = Stack::new();
    for v in 1..=5u32 {
        s.push(v);
    }
    for v in [5u32, 4, 3, 2, 1] {
        assert_eq!(s.pop(), Some(v));
    }
    assert_eq!(s.pop(), None);
}

#[test]
fn is_empty_agrees_with_pop() {
    let mut s: Stack<u32> = Stack::new();
    assert!(s.is_empty());
    assert_eq!(s.pop(), None);

    s.push(7);
    assert!(!s.is_empty());
    assert_eq!(s.pop(), Some(7));

    assert!(s.is_empty());
    assert_eq!(s.pop(), None);
}

#[test]
fn destructor_exactly_once() {
    let drops: Rc<Cell<usize>> = Rc::new(Cell::new(0));
    let mut s: Stack<Counted> = Stack::new();
    let n: usize = 100;
    for _ in 0..n {
        s.push(Counted { drops: drops.clone() });
    }
    assert_eq!(drops.get(), 0);

    let mut popped: usize = 0;
    for _ in 0..40usize {
        let v = s.pop();
        assert!(v.is_some());
        drop(v);
        popped += 1;
    }
    assert_eq!(drops.get(), popped);

    s.clear();
    assert_eq!(drops.get(), n);
    assert!(s.is_empty());
}

#[test]
fn no_loss_no_duplication() {
    // Interleave pushes and pops, then drain: every value ever popped
    // plus whatever remained must be exactly the multiset pushed.
    let mut s: Stack<u64> = Stack::new();
    let mut pushed: Vec<u64> = Vec::new();
    let mut recovered: Vec<u64> = Vec::new();
    let mut seed: u64 = 42;

    for i in 0..1000u64 {
        seed = seed.wrapping_mul(6364136223846793005).wrapping_add(1442695040888963407);
        if seed % 3 == 0 {
            if let Some(v) = s.pop() {
                recovered.push(v);
            }
        } else {
            s.push(i);
            pushed.push(i);
        }
    }
    while let Some(v) = s.pop() {
        recovered.push(v);
    }

    pushed.sort();
    recovered.sort();
    assert_eq!(pushed, recovered);
}

#[test]
fn stress() {
    const STREAMS: usize = 8;

    let mut s: Stack<usize> = Stack::new();
    let mut len: usize = 0;
    let mut pushes: [usize; STREAMS] = [0; STREAMS];
    let mut seed: u64 = 0x9E37_79B9_7F4A_7C15;

    for _ in 0..100_000usize {
        for t in 0..STREAMS {
            seed = seed.wrapping_mul(6364136223846793005).wrapping_add(1442695040888963407);
            let roll = ((seed >> 33) as usize) % (t + 1);
            if roll == 0 {
                if s.pop().is_some() {
                    len -= 1;
                }
            } else {
                s.push(t + STREAMS * pushes[t]);
                pushes[t] += 1;
                len += 1;
            }
        }
    }

    let mut last: [usize; STREAMS] = [usize::MAX; STREAMS];

    while !s.is_empty() {
        let x = s.pop().unwrap();
        let t = x % STREAMS;

        assert!(last[t] > x);
        assert!(x / STREAMS < pushes[t]);
        last[t] = x;

        len -= 1;
    }
    assert_eq!(len, 0);
}
