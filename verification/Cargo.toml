[package]
name = "pi_timer"
version = "0.1.0"
edition = "2021"
publish = false

[dev-dependencies]
pi_slot_deque = "=0.2.1"
pi_slot_wheel = "=0.2.0"
slotmap = "=1.1.1"
