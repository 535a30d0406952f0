use pi_timer::{Timer, TimerKey};

struct Lcg(u64);

impl Lcg {
    fn next(&mut self) -> u64 {
        self.0 = self.0.wrapping_mul(6364136223846793005).wrapping_add(1442695040888963407);
        self.0 >> 33
    }
}

#[test]
fn every_delay_fires_exactly_at_its_tick() {
    for delay in 0..200usize {
        let mut timer: Timer<usize, 4, 3, 2> = Timer::new();
        assert_eq!(timer.pop(7), None);
        let key = timer.push(delay, delay);
        let due = 7 + delay as u64;
        if delay > 0 {
            assert_eq!(timer.pop_kv(due - 1), None);
            assert_eq!(timer.roll_count(), due - 1);
        }
        assert_eq!(timer.pop_kv(due), Some((key, delay)));
        assert_eq!(timer.roll_count(), due);
        assert_eq!(timer.pop_kv(due + 100), None);
        assert_eq!(timer.cancel(key), None);
    }
}

#[test]
fn every_delay_fires_exactly_at_its_tick_by_rolling() {
    for delay in 0..120usize {
        let mut timer: Timer<usize, 3, 2, 3> = Timer::new();
        for _ in 0..5 {
            timer.roll();
        }
        timer.push(delay, delay);
        for _ in 0..delay {
            let now = timer.roll_count();
            assert_eq!(timer.pop(now), None);
            timer.roll();
        }
        let now = timer.roll_count();
        assert_eq!(now, 5 + delay as u64);
        assert_eq!(timer.pop(now), Some(delay));
        assert_eq!(timer.pop(now), None);
    }
}

#[test]
fn counts_tell_the_number_of_scheduled_entries() {
    let mut timer: Timer<usize, 4, 2, 2> = Timer::new();
    let mut rng = Lcg(7);
    let mut live: Vec<TimerKey> = Vec::new();
    for step in 0..2000usize {
        match rng.next() % 3 {
            0 => {
                let key = timer.push((rng.next() % 60) as usize, step);
                live.push(key);
            }
            1 => {
                if !live.is_empty() {
                    let at = (rng.next() as usize) % live.len();
                    let key = live.swap_remove(at);
                    assert!(timer.cancel(key).is_some());
                }
            }
            _ => {
                let bound = timer.roll_count() + rng.next() % 5;
                if let Some((key, _)) = timer.pop_kv(bound) {
                    let at = live.iter().position(|k| *k == key).unwrap();
                    live.swap_remove(at);
                }
            }
        }
        assert_eq!(timer.add_count() - timer.remove_count(), live.len());
    }
}

#[test]
fn timer_agrees_with_a_list_of_due_ticks() {
    let mut timer: Timer<u64, 4, 2, 2> = Timer::new();
    let mut rng = Lcg(99);
    let mut model: Vec<(TimerKey, u64, u64)> = Vec::new();
    let mut id: u64 = 0;
    for _ in 0..6000 {
        let now = timer.roll_count();
        match rng.next() % 8 {
            0 | 1 | 2 => {
                let delay = match rng.next() % 4 {
                    0 => rng.next() % 4,
                    1 => rng.next() % 16,
                    2 => rng.next() % 64,
                    _ => rng.next() % 300,
                };
                id += 1;
                let key = timer.push(delay as usize, id);
                assert!(model.iter().all(|e| e.0 != key));
                model.push((key, now + delay, id));
            }
            3 => {
                if !model.is_empty() {
                    let at = (rng.next() as usize) % model.len();
                    let (key, _, value) = model.swap_remove(at);
                    assert_eq!(timer.cancel(key), Some(value));
                    assert_eq!(timer.cancel(key), None);
                }
            }
            4 => {
                for e in model.iter_mut() {
                    if e.1 == now {
                        e.1 += 4;
                    }
                }
                timer.roll();
                assert_eq!(timer.roll_count(), now + 1);
            }
            5 => {
                let bound = now + rng.next() % 40;
                let due = model.iter().map(|e| e.1).filter(|d| *d <= bound).min();
                assert_eq!(timer.is_ok(bound), due.is_some());
                assert_eq!(timer.roll_count(), due.unwrap_or(bound));
            }
            _ => {
                let bound = (now + rng.next() % 40).saturating_sub(5);
                let horizon = bound.max(now);
                let due = model.iter().map(|e| e.1).filter(|d| *d <= horizon).min();
                match timer.pop_kv(bound) {
                    Some((key, value)) => {
                        let at = model.iter().position(|e| e.0 == key).unwrap();
                        let (_, tick, id) = model.swap_remove(at);
                        assert_eq!(value, id);
                        assert_eq!(Some(tick), due);
                        assert_eq!(timer.roll_count(), tick);
                    }
                    None => {
                        assert_eq!(due, None);
                        assert_eq!(timer.roll_count(), horizon);
                    }
                }
            }
        }
        assert_eq!(timer.add_count() - timer.remove_count(), model.len());
    }
    let end = timer.roll_count() + 1000;
    while let Some((key, value)) = timer.pop_kv(end) {
        let at = model.iter().position(|e| e.0 == key).unwrap();
        let (_, tick, id) = model.swap_remove(at);
        assert_eq!(value, id);
        assert_eq!(timer.roll_count(), tick);
    }
    assert!(model.is_empty());
    assert_eq!(timer.add_count(), timer.remove_count());
}

#[test]
fn cancelled_entries_are_never_popped() {
    let mut timer: Timer<usize, 4, 2, 2> = Timer::new();
    let mut keys: Vec<TimerKey> = Vec::new();
    for i in 0..100usize {
        keys.push(timer.push(i, i));
    }
    for i in (0..100usize).filter(|i| i % 3 == 0) {
        assert_eq!(timer.cancel(keys[i]), Some(i));
        assert_eq!(timer.cancel(keys[i]), None);
    }
    let mut got: Vec<usize> = Vec::new();
    while let Some((key, value)) = timer.pop_kv(500) {
        assert_eq!(key, keys[value]);
        assert_eq!(timer.roll_count(), value as u64);
        got.push(value);
    }
    let want: Vec<usize> = (0..100usize).filter(|i| i % 3 != 0).collect();
    assert_eq!(got, want);
}

#[test]
fn draining_is_idempotent() {
    let mut timer: Timer<u8, 4, 2, 2> = Timer::new();
    timer.push(2, 1);
    timer.push(2, 2);
    timer.push(9, 3);
    timer.push(40, 4);
    let mut count = 0;
    while timer.pop(10).is_some() {
        count += 1;
    }
    assert_eq!(count, 3);
    for _ in 0..5 {
        assert_eq!(timer.pop(10), None);
        assert!(!timer.is_ok(10));
        assert_eq!(timer.roll_count(), 10);
        assert_eq!(timer.remove_count(), 3);
    }
    timer.push(0, 5);
    assert_eq!(timer.pop(10), Some(5));
    assert_eq!(timer.pop(10), None);
    assert_eq!(timer.pop(50), Some(4));
    assert_eq!(timer.roll_count(), 40);
}

#[test]
fn all_entries_of_one_tick_are_returned() {
    let mut timer: Timer<u32, 4, 2, 2> = Timer::new();
    for i in 0..10u32 {
        timer.push(6, i);
        timer.push(50, 100 + i);
    }
    let mut first: Vec<u32> = Vec::new();
    while let Some(v) = timer.pop(6) {
        assert_eq!(timer.roll_count(), 6);
        first.push(v);
    }
    first.sort();
    assert_eq!(first, (0..10u32).collect::<Vec<u32>>());
    let mut second: Vec<u32> = Vec::new();
    while let Some(v) = timer.pop(50) {
        assert_eq!(timer.roll_count(), 50);
        second.push(v);
    }
    second.sort();
    assert_eq!(second, (100..110u32).collect::<Vec<u32>>());
}

#[test]
fn heap_removals_keep_every_key_cancellable() {
    let mut timer: Timer<usize, 4, 2, 1> = Timer::new();
    let mut rng = Lcg(2024);
    let mut live: Vec<(TimerKey, usize)> = Vec::new();
    for i in 0..400usize {
        let delay = if i % 4 == 0 {
            (rng.next() % 8) as usize
        } else {
            8 + (rng.next() % 5000) as usize
        };
        live.push((timer.push(delay, i), i));
    }
    while live.len() > 150 {
        let at = (rng.next() as usize) % live.len();
        let (key, value) = live.remove(at);
        assert_eq!(timer.cancel(key), Some(value));
        assert_eq!(timer.cancel(key), None);
        let extra = live.len() + 1000;
        if rng.next() % 3 == 0 {
            live.push((timer.push(8 + (rng.next() % 5000) as usize, extra), extra));
        }
    }
    for _ in 0..20 {
        timer.roll();
    }
    for (key, value) in live.iter() {
        let got = timer.cancel(*key);
        assert_eq!(got, Some(*value));
    }
    for (key, _) in live.iter() {
        assert_eq!(timer.cancel(*key), None);
    }
    assert_eq!(timer.add_count(), timer.remove_count());
    assert_eq!(timer.pop(100000), None);
}

#[test]
fn many_epochs_with_entries_on_both_sides() {
    let mut timer: Timer<u64, 3, 2, 2> = Timer::new();
    let mut rng = Lcg(5);
    let mut due: Vec<u64> = Vec::new();
    for _ in 0..300 {
        let delay = rng.next() % 500;
        timer.push(delay as usize, delay);
        due.push(delay);
    }
    due.sort();
    let mut got: Vec<u64> = Vec::new();
    while let Some(v) = timer.pop(600) {
        assert_eq!(timer.roll_count(), v);
        got.push(v);
    }
    assert_eq!(got, due);
    assert_eq!(timer.roll_count(), 600);
}
