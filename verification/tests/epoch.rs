use coco::epoch::Collector;

#[test]
fn advance_blocked_by_lagging_pin() {
    let mut c: Collector<u32> = Collector::new();
    let t0 = c.register();
    let t1 = c.register();

    let s0 = c.pin(t0);
    let s1 = c.pin(t1);
    assert_eq!(c.epoch, 0);

    // Both pinned threads observed the current epoch: the advance goes
    // through.
    assert!(c.try_advance());
    assert_eq!(c.epoch, 1);

    // Both scopes still sit at epoch 0, one generation behind: the
    // next advance is blocked until every pin from that generation is
    // released.
    assert!(!c.try_advance());
    c.unpin(s0);
    assert!(!c.try_advance());
    c.unpin(s1);
    assert!(c.try_advance());
    assert_eq!(c.epoch, 2);
}

#[test]
fn collect_frees_only_two_generations_old() {
    let mut c: Collector<u32> = Collector::new();
    let t = c.register();

    let s = c.pin(t);
    c.defer_free(&s, 10);
    c.defer_free(&s, 20);
    c.unpin(s);

    // Retired at epoch 0; at epochs 0 and 1 the safety margin of two
    // generations is not yet reached.
    assert_eq!(c.collect(), vec![]);
    assert!(c.try_advance());
    assert_eq!(c.collect(), vec![]);
    assert!(c.try_advance());

    // At epoch 2 the entries from epoch 0 are reclaimed, in
    // retirement order, and the bag empties.
    assert_eq!(c.epoch, 2);
    assert_eq!(c.collect(), vec![10, 20]);
    assert!(c.garbage.is_empty());

    // An entry retired at epoch 2 waits for epoch 4 in turn.
    let s = c.pin(t);
    c.defer_free(&s, 30);
    c.unpin(s);
    assert!(c.try_advance());
    assert_eq!(c.collect(), vec![]);
    assert!(c.try_advance());
    assert_eq!(c.collect(), vec![30]);
}

#[test]
fn collect_keeps_young_entries_in_order() {
    let mut c: Collector<u32> = Collector::new();
    let t = c.register();

    // Two entries retired at epoch 0, one at epoch 2: at epoch 2 only
    // the old pair is reclaimed and the young entry stays queued.
    let s = c.pin(t);
    c.defer_free(&s, 1);
    c.defer_free(&s, 2);
    c.unpin(s);
    assert!(c.try_advance());
    assert!(c.try_advance());
    let s = c.pin(t);
    c.defer_free(&s, 3);
    c.unpin(s);

    assert_eq!(c.collect(), vec![1, 2]);
    assert_eq!(c.garbage.len(), 1);
    assert_eq!(c.garbage[0].epoch, 2);
    assert_eq!(c.garbage[0].item, 3);
}

#[test]
fn maintain_respects_threshold_and_pins() {
    let mut c: Collector<u32> = Collector::new();
    let t = c.register();

    let s = c.pin(t);
    c.defer_free(&s, 1);
    c.defer_free(&s, 2);

    // Below the threshold: no advance, no reclamation.
    assert_eq!(c.maintain(3), vec![]);
    assert_eq!(c.epoch, 0);
    assert_eq!(c.garbage.len(), 2);

    // At the threshold with the only pin caught up, the epoch moves to
    // 1; the entries from epoch 0 are still one generation too young.
    assert_eq!(c.maintain(2), vec![]);
    assert_eq!(c.epoch, 1);
    assert_eq!(c.garbage.len(), 2);

    // The pin now lags at epoch 0 and blocks the next advance, so
    // nothing can be reclaimed yet: garbage accumulates, safely.
    assert_eq!(c.maintain(2), vec![]);
    assert_eq!(c.epoch, 1);
    assert_eq!(c.garbage.len(), 2);

    // Once the lagging pin is released, maintenance reaches epoch 2
    // and reclaims the pair retired at epoch 0.
    c.unpin(s);
    assert_eq!(c.maintain(2), vec![1, 2]);
    assert_eq!(c.epoch, 2);
    assert!(c.garbage.is_empty());
}

#[test]
fn reentrant_pin_keeps_the_outer_epoch() {
    let mut c: Collector<u32> = Collector::new();
    let t = c.register();

    let outer = c.pin(t);
    assert_eq!(outer.epoch, 0);
    assert_eq!(c.participants[t].pin_depth, 1);

    // The epoch advances while the thread stays pinned; a nested pin
    // must keep the epoch of the outermost pin, not pick up the new
    // one.
    assert!(c.try_advance());
    let inner = c.pin(t);
    assert_eq!(inner.epoch, 0);
    assert_eq!(c.participants[t].pin_depth, 2);

    c.unpin(inner);
    assert_eq!(c.participants[t].pin_depth, 1);
    c.unpin(outer);
    assert_eq!(c.participants[t].pin_depth, 0);

    // A fresh outermost pin observes the current epoch.
    let fresh = c.pin(t);
    assert_eq!(fresh.epoch, 1);
    c.unpin(fresh);
}
