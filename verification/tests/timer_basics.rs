use pi_timer::{Timer, TimerKey};

#[test]
fn new_timer_is_empty() {
    let mut timer: Timer<u32, 8, 4, 2> = Timer::new();
    assert!(Timer::<u32, 8, 4, 2>::dimensions_are_valid());
    assert_eq!(timer.add_count(), 0);
    assert_eq!(timer.remove_count(), 0);
    assert_eq!(timer.roll_count(), 0);
    assert_eq!(timer.pop(0), None);
    assert!(!timer.is_ok(0));
    assert_eq!(timer.roll_count(), 0);
}

#[test]
fn default_timer_is_empty() {
    let mut timer: Timer<u32, 8, 4, 2> = Default::default();
    assert_eq!(timer.add_count(), 0);
    assert_eq!(timer.remove_count(), 0);
    assert_eq!(timer.roll_count(), 0);
    assert_eq!(timer.pop_kv(5), None);
    assert_eq!(timer.roll_count(), 5);
}

#[test]
fn dimensions_are_checked() {
    assert!(Timer::<u8, 128, 16, 1>::dimensions_are_valid());
    assert!(Timer::<u8, 1, 1, 0>::dimensions_are_valid());
    assert!(Timer::<u8, 10, 4, 2>::dimensions_are_valid());
    assert!(!Timer::<u8, 0, 16, 1>::dimensions_are_valid());
    assert!(!Timer::<u8, 16, 0, 1>::dimensions_are_valid());
    assert!(!Timer::<u8, 4294967296, 4294967296, 1>::dimensions_are_valid());
    assert!(!Timer::<u8, 2, 2, 64>::dimensions_are_valid());
    assert!(Timer::<u8, 2, 2, 62>::dimensions_are_valid());
}

#[test]
fn push_fires_at_now_plus_timeout() {
    let mut timer: Timer<&str, 8, 4, 2> = Timer::new();
    let key = timer.push(5, "a");
    assert!(!key.is_null());
    assert_eq!(timer.add_count(), 1);
    assert_eq!(timer.pop(4), None);
    assert_eq!(timer.roll_count(), 4);
    assert_eq!(timer.pop(5), Some("a"));
    assert_eq!(timer.roll_count(), 5);
    assert_eq!(timer.remove_count(), 1);
    let later = timer.push(3, "b");
    assert_ne!(later, key);
    assert_eq!(timer.pop_kv(100), Some((later, "b")));
    assert_eq!(timer.roll_count(), 8);
    assert_eq!(timer.pop_kv(100), None);
    assert_eq!(timer.roll_count(), 100);
}

#[test]
fn timeout_zero_is_ready_at_once() {
    let mut timer: Timer<u8, 8, 4, 2> = Timer::new();
    timer.push(0, 7);
    assert!(timer.is_ok(0));
    assert_eq!(timer.roll_count(), 0);
    assert_eq!(timer.pop(0), Some(7));
    assert_eq!(timer.roll_count(), 0);
}

#[test]
fn pop_ignores_a_bound_in_the_past() {
    let mut timer: Timer<u8, 8, 4, 2> = Timer::new();
    assert_eq!(timer.pop(10), None);
    assert_eq!(timer.roll_count(), 10);
    timer.push(0, 1);
    timer.push(2, 2);
    assert_eq!(timer.pop(3), Some(1));
    assert_eq!(timer.roll_count(), 10);
    assert_eq!(timer.pop(3), None);
    assert_eq!(timer.roll_count(), 10);
    assert_eq!(timer.pop(12), Some(2));
    assert_eq!(timer.roll_count(), 12);
}

#[test]
fn push_time_takes_an_absolute_tick() {
    let mut timer: Timer<&str, 8, 4, 2> = Timer::new();
    assert_eq!(timer.pop(20), None);
    assert_eq!(timer.roll_count(), 20);
    timer.push_time(25, "later");
    timer.push_time(7, "past");
    timer.push_time(20, "now");
    assert_eq!(timer.pop(20), Some("past"));
    assert_eq!(timer.pop(20), Some("now"));
    assert_eq!(timer.pop(24), None);
    assert_eq!(timer.roll_count(), 24);
    assert_eq!(timer.pop(30), Some("later"));
    assert_eq!(timer.roll_count(), 25);
}

#[test]
fn push_time_far_ahead_goes_through_the_heap() {
    let mut timer: Timer<u32, 4, 2, 1> = Timer::new();
    timer.push_time(1000, 1);
    timer.push_time(u64::MAX, 2);
    assert_eq!(timer.pop(999), None);
    assert_eq!(timer.pop(1000), Some(1));
    assert_eq!(timer.roll_count(), 1000);
    assert_eq!(timer.add_count() - timer.remove_count(), 1);
}

#[test]
fn is_ok_advances_the_clock() {
    let mut timer: Timer<u8, 8, 4, 2> = Timer::new();
    assert!(!timer.is_ok(10));
    assert_eq!(timer.roll_count(), 10);
    timer.push(3, 42);
    assert!(!timer.is_ok(12));
    assert_eq!(timer.roll_count(), 12);
    assert!(timer.is_ok(20));
    assert_eq!(timer.roll_count(), 13);
    assert_eq!(timer.remove_count(), 0);
    assert!(timer.is_ok(20));
    assert_eq!(timer.roll_count(), 13);
    assert_eq!(timer.pop(20), Some(42));
    assert_eq!(timer.roll_count(), 13);
    assert!(!timer.is_ok(20));
    assert_eq!(timer.roll_count(), 20);
}

#[test]
fn roll_advances_by_one_tick() {
    let mut timer: Timer<u8, 4, 2, 1> = Timer::new();
    timer.push(2, 9);
    timer.roll();
    assert_eq!(timer.roll_count(), 1);
    assert_eq!(timer.pop(1), None);
    timer.roll();
    assert_eq!(timer.roll_count(), 2);
    assert_eq!(timer.pop(2), Some(9));
}

#[test]
fn roll_passes_over_a_ready_entry_by_one_turn() {
    let mut timer: Timer<&str, 4, 2, 1> = Timer::new();
    timer.push(0, "a");
    timer.roll();
    assert_eq!(timer.roll_count(), 1);
    assert_eq!(timer.pop(3), None);
    assert_eq!(timer.roll_count(), 3);
    assert_eq!(timer.pop(10), Some("a"));
    assert_eq!(timer.roll_count(), 4);
}

#[test]
fn cancel_returns_the_payload_once() {
    let mut timer: Timer<String, 8, 4, 2> = Timer::new();
    let near = timer.push(3, String::from("near"));
    let far = timer.push(1000, String::from("far"));
    assert_eq!(timer.cancel(near), Some(String::from("near")));
    assert_eq!(timer.remove_count(), 1);
    assert_eq!(timer.cancel(near), None);
    assert_eq!(timer.remove_count(), 1);
    assert_eq!(timer.cancel(far), Some(String::from("far")));
    assert_eq!(timer.cancel(far), None);
    assert_eq!(timer.remove_count(), 2);
    assert_eq!(timer.pop(2000), None);
    assert_eq!(timer.roll_count(), 2000);
}

#[test]
fn cancel_of_null_or_fired_key_finds_nothing() {
    let mut timer: Timer<u8, 8, 4, 2> = Timer::new();
    assert_eq!(timer.cancel(TimerKey::null()), None);
    let key = timer.push(1, 5);
    assert_eq!(timer.cancel(TimerKey::null()), None);
    assert_eq!(timer.pop_kv(1), Some((key, 5)));
    assert_eq!(timer.cancel(key), None);
    assert_eq!(timer.add_count(), 1);
    assert_eq!(timer.remove_count(), 1);
}

#[test]
fn null_key_is_the_default_key() {
    assert!(TimerKey::null().is_null());
    assert!(TimerKey::default().is_null());
    assert_eq!(TimerKey::null(), TimerKey::default());
    let mut timer: Timer<u8, 8, 4, 2> = Timer::new();
    let key = timer.push(1, 5);
    assert!(!key.is_null());
    assert_ne!(key, TimerKey::null());
}

#[test]
fn keys_are_never_handed_out_twice() {
    let mut timer: Timer<u32, 4, 2, 1> = Timer::new();
    let mut seen: Vec<TimerKey> = Vec::new();
    for round in 0..50u32 {
        let key = timer.push(1, round);
        assert!(!seen.contains(&key));
        seen.push(key);
        assert_eq!(timer.cancel(key), Some(round));
    }
    for key in seen {
        assert_eq!(timer.cancel(key), None);
    }
    assert_eq!(timer.add_count(), 50);
    assert_eq!(timer.remove_count(), 50);
}

#[test]
fn overflowing_delay_fires_after_the_epochs_have_passed() {
    let mut timer: Timer<&str, 128, 16, 1> = Timer::new();
    timer.push(200, "x");
    for _ in 0..144 {
        timer.roll();
    }
    assert_eq!(timer.roll_count(), 144);
    assert_eq!(timer.pop(144), None);
    for _ in 0..56 {
        timer.roll();
    }
    assert_eq!(timer.roll_count(), 200);
    assert_eq!(timer.pop(200), Some("x"));
    assert_eq!(timer.roll_count(), 200);
    assert_eq!(timer.add_count(), 1);
    assert_eq!(timer.remove_count(), 1);
}

#[test]
fn same_scenario_by_pop_alone() {
    let mut timer: Timer<&str, 128, 16, 1> = Timer::new();
    timer.push(200, "x");
    assert_eq!(timer.pop(199), None);
    assert_eq!(timer.roll_count(), 199);
    assert_eq!(timer.pop(200), Some("x"));
}

#[test]
fn five_epochs_of_delay() {
    let mut timer: Timer<u8, 128, 16, 1> = Timer::new();
    let delay = 5 * 128 * 16;
    timer.push(delay, 1);
    timer.push(5 * 144, 2);
    assert_eq!(timer.pop(5 * 144 - 1), None);
    assert_eq!(timer.pop(5 * 144), Some(2));
    assert_eq!(timer.roll_count(), 5 * 144);
    assert_eq!(timer.pop(delay as u64 - 1), None);
    assert_eq!(timer.roll_count(), delay as u64 - 1);
    assert_eq!(timer.pop(delay as u64), Some(1));
    assert_eq!(timer.roll_count(), delay as u64);
}

#[test]
fn heap_entries_pushed_in_mid_epoch() {
    let mut timer: Timer<u32, 4, 2, 1> = Timer::new();
    assert_eq!(timer.pop(5), None);
    let a = timer.push(8, 1);
    let b = timer.push(7, 2);
    let c = timer.push(30, 3);
    let d = timer.push(11, 4);
    assert_eq!(timer.pop_kv(11), None);
    assert_eq!(timer.pop_kv(12), Some((b, 2)));
    assert_eq!(timer.roll_count(), 12);
    assert_eq!(timer.pop_kv(100), Some((a, 1)));
    assert_eq!(timer.roll_count(), 13);
    assert_eq!(timer.pop_kv(100), Some((d, 4)));
    assert_eq!(timer.roll_count(), 16);
    assert_eq!(timer.pop_kv(100), Some((c, 3)));
    assert_eq!(timer.roll_count(), 35);
}

#[test]
fn wheel_without_higher_levels() {
    let mut timer: Timer<u32, 5, 3, 0> = Timer::new();
    assert!(Timer::<u32, 5, 3, 0>::dimensions_are_valid());
    for t in 0..40usize {
        timer.push(t, t as u32);
    }
    for t in 0..40u64 {
        assert_eq!(timer.pop(t), Some(t as u32));
        assert_eq!(timer.roll_count(), t);
        assert_eq!(timer.pop(t), None);
    }
    assert_eq!(timer.add_count(), 40);
    assert_eq!(timer.remove_count(), 40);
}

#[test]
fn test() {
    let mut timer: Timer<(u64, u64), 128, 16, 1> = Default::default();
    let mut state: u64 = 22222;
    let mut fired: u64 = 0;
    for i in 1..100000u64 {
        state = state.wrapping_mul(6364136223846793005).wrapping_add(1442695040888963407);
        let t = (state >> 33) % 16100;
        let tt = i;
        if i < 100 {
            println!("push: timeout:{} realtime:{:?}", t, (i, t + tt));
            timer.push(t as usize, (i, t + tt));
        }
        while timer.is_ok(tt) {
            let it = timer.pop(tt).unwrap();
            println!("ppp:{:?}, now:{}", it, tt);
            assert_eq!(it.1, timer.roll_count() + 1);
            fired += 1;
        }
        if i > 100 && timer.add_count() == timer.remove_count() {
            println!("return: add_count:{:?}", timer.add_count());
            assert_eq!(timer.add_count(), 99);
            assert_eq!(fired, 99);
            return;
        }
    }
    panic!("the timer never ran empty");
}

#[test]
fn huge_timeout_is_kept_until_cancelled() {
    let mut timer: Timer<&str, 4, 2, 1> = Timer::new();
    assert_eq!(timer.pop(6), None);
    let far = timer.push(usize::MAX, "far");
    let near = timer.push(9, "near");
    assert_eq!(timer.pop(1000), Some("near"));
    assert_eq!(timer.roll_count(), 15);
    assert_eq!(timer.pop(1000), None);
    assert_eq!(timer.roll_count(), 1000);
    assert_eq!(timer.add_count() - timer.remove_count(), 1);
    assert_eq!(timer.cancel(near), None);
    assert_eq!(timer.cancel(far), Some("far"));
    assert_eq!(timer.add_count(), timer.remove_count());
}

#[test]
fn levels_of_one_slot_add_no_range() {
    assert!(Timer::<u32, 4, 1, 3>::dimensions_are_valid());
    let mut timer: Timer<u32, 4, 1, 3> = Timer::new();
    for t in 0..30usize {
        timer.push(t, t as u32);
        timer.push(29 - t, 100 + (29 - t) as u32);
    }
    for t in 0..30u64 {
        let mut got = vec![timer.pop(t).unwrap(), timer.pop(t).unwrap()];
        got.sort();
        assert_eq!(got, vec![t as u32, 100 + t as u32]);
        assert_eq!(timer.roll_count(), t);
        assert_eq!(timer.pop(t), None);
    }
}

#[test]
fn delays_around_the_end_of_the_epoch() {
    for start in 0..40u64 {
        for delay in 14..19usize {
            let mut timer: Timer<usize, 4, 2, 1> = Timer::new();
            assert_eq!(timer.pop(start), None);
            let other = timer.push(delay + 1, 0);
            let key = timer.push(delay, delay);
            assert_eq!(timer.pop_kv(start + delay as u64 - 1), None);
            assert_eq!(timer.pop_kv(start + delay as u64), Some((key, delay)));
            assert_eq!(timer.roll_count(), start + delay as u64);
            assert_eq!(timer.pop_kv(start + delay as u64), None);
            assert_eq!(timer.pop_kv(start + delay as u64 + 1), Some((other, 0)));
        }
    }
}
