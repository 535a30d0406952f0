use pi_slot_deque::Slot;
use pi_slot_wheel::{Result as Pushed, TimeoutItem, TimerKey as WheelKey, Wheel};
use pi_timer::Timer;

fn step(state: &mut u64) -> u64 {
    *state = state.wrapping_mul(6364136223846793005).wrapping_add(1442695040888963407);
    *state >> 33
}

#[test]
fn epoch_is_the_range_of_the_wheel() {
    let wheel: Wheel<u8, 128, 16, 1> = Wheel::default();
    assert_eq!(wheel.max_time(), 128 * 16);
    let mut slot: Slot<WheelKey, TimeoutItem<u8>> = Default::default();
    let mut wheel: Wheel<u8, 4, 3, 2> = Wheel::default();
    assert_eq!(wheel.max_time(), 36);
    assert!(matches!(wheel.push(35, 1, &mut slot), Pushed::Ok(_)));
    assert!(matches!(wheel.push(36, 2, &mut slot), Pushed::Overflow(36, 2)));
}

#[test]
fn pops_agree_with_the_slot_wheel() {
    let mut slot: Slot<WheelKey, TimeoutItem<u64>> = Default::default();
    let mut wheel: Wheel<u64, 4, 3, 2> = Wheel::default();
    let mut timer: Timer<u64, 4, 3, 2> = Timer::new();
    let mut state: u64 = 31337;
    let mut id: u64 = 0;
    for _tick in 0..3000u64 {
        for _ in 0..(step(&mut state) % 4) {
            let delay = (step(&mut state) % 36) as usize;
            id += 1;
            assert!(matches!(wheel.push(delay, id, &mut slot), Pushed::Ok(_)));
            timer.push(delay, id);
        }
        let now = timer.roll_count();
        loop {
            let theirs = wheel.pop(&mut slot).map(|item| item.el);
            let ours = timer.pop(now);
            assert_eq!(ours, theirs);
            if ours.is_none() {
                break;
            }
        }
        assert!(wheel.is_cur_over());
        assert!(!timer.is_ok(now));
        wheel.roll(&mut slot);
        timer.roll();
    }
    assert_eq!(timer.add_count() as u64, id);
    assert_eq!(timer.add_count() - timer.remove_count(), slot.len());
}

#[test]
fn passed_over_entries_agree_with_the_slot_wheel() {
    let mut slot: Slot<WheelKey, TimeoutItem<u64>> = Default::default();
    let mut wheel: Wheel<u64, 3, 2, 2> = Wheel::default();
    let mut timer: Timer<u64, 3, 2, 2> = Timer::new();
    let mut state: u64 = 4242;
    let mut id: u64 = 0;
    for _tick in 0..2000u64 {
        if step(&mut state) % 2 == 0 {
            let delay = (step(&mut state) % 12) as usize;
            id += 1;
            assert!(matches!(wheel.push(delay, id, &mut slot), Pushed::Ok(_)));
            timer.push(delay, id);
        }
        let now = timer.roll_count();
        if step(&mut state) % 3 != 0 {
            let theirs = wheel.pop(&mut slot).map(|item| item.el);
            let ours = timer.pop(now);
            assert_eq!(ours, theirs);
        }
        wheel.roll(&mut slot);
        timer.roll();
    }
    assert_eq!(timer.add_count() - timer.remove_count(), slot.len());
}
