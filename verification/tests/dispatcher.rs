use timer_core::dispatcher::{Dispatcher, Interrupt};
use timer_core::model::Command;

fn ids_of(fired: &[Interrupt<u64>]) -> Vec<u128> {
    fired.iter().map(|f| f.id).collect()
}

#[test]
fn new_dispatcher_is_idle_and_running() {
    let d: Dispatcher<u64> = Dispatcher::new();
    assert!(d.is_running());
    assert!(d.is_idle());
}

#[test]
fn start_then_expiry_fires_once() {
    let mut d: Dispatcher<u64> = Dispatcher::new();
    let fired = d.apply_command(Command::Start { id: 1, engine: 10, duration: Some(100) }, 0);
    assert!(fired.is_empty());
    assert!(!d.is_idle());
    assert!(d.sweep(50).is_empty());
    assert!(d.sweep(99).is_empty());
    let fired = d.sweep(100);
    assert_eq!(fired.len(), 1);
    assert_eq!(fired[0].id, 1);
    assert_eq!(fired[0].engine, 10);
    assert!(d.is_idle());
    assert!(d.sweep(1000).is_empty());
    assert!(d.is_running());
}

#[test]
fn deadline_is_absolute_from_start_instant() {
    let mut d: Dispatcher<u64> = Dispatcher::new();
    d.apply_command(Command::Start { id: 7, engine: 70, duration: Some(5) }, 10);
    assert!(d.sweep(14).is_empty());
    let fired = d.sweep(15);
    assert_eq!(ids_of(&fired), vec![7]);
}

#[test]
fn zero_duration_expires_at_start_instant() {
    let mut d: Dispatcher<u64> = Dispatcher::new();
    d.apply_command(Command::Start { id: 2, engine: 20, duration: Some(0) }, 5);
    assert!(d.sweep(4).is_empty());
    let fired = d.sweep(5);
    assert_eq!(fired.len(), 1);
    assert_eq!(fired[0].engine, 20);
}

#[test]
fn deadline_at_clock_horizon() {
    let mut d: Dispatcher<u64> = Dispatcher::new();
    d.apply_command(Command::Start { id: 3, engine: 30, duration: Some(5) }, u64::MAX - 5);
    assert!(d.sweep(u64::MAX - 1).is_empty());
    let fired = d.sweep(u64::MAX);
    assert_eq!(fired.len(), 1);
}

#[test]
fn stop_is_silent_even_past_deadline() {
    let mut d: Dispatcher<u64> = Dispatcher::new();
    d.apply_command(Command::Start { id: 1, engine: 10, duration: Some(10) }, 0);
    let fired = d.apply_command(Command::Stop { id: 1 }, 50);
    assert!(fired.is_empty());
    assert!(d.sweep(100).is_empty());
    assert!(d.is_idle());
    assert!(d.is_running());
}

#[test]
fn stop_unknown_id_is_noop() {
    let mut d: Dispatcher<u64> = Dispatcher::new();
    d.apply_command(Command::Start { id: 1, engine: 10, duration: None }, 0);
    assert!(d.apply_command(Command::Stop { id: 2 }, 0).is_empty());
    assert!(!d.is_idle());
}

#[test]
fn cancel_fires_exactly_one_interrupt() {
    let mut d: Dispatcher<u64> = Dispatcher::new();
    d.apply_command(Command::Start { id: 9, engine: 90, duration: None }, 0);
    let fired = d.apply_command(Command::Cancel { id: 9 }, 3);
    assert_eq!(fired.len(), 1);
    assert_eq!(fired[0].id, 9);
    assert_eq!(fired[0].engine, 90);
    assert!(d.apply_command(Command::Cancel { id: 9 }, 4).is_empty());
    assert!(d.is_idle());
}

#[test]
fn cancel_unknown_id_is_noop() {
    let mut d: Dispatcher<u64> = Dispatcher::new();
    assert!(d.apply_command(Command::Cancel { id: 42 }, 0).is_empty());
    assert!(d.is_running());
    assert!(d.is_idle());
}

#[test]
fn no_deadline_session_persists() {
    let mut d: Dispatcher<u64> = Dispatcher::new();
    d.apply_command(Command::Start { id: 5, engine: 50, duration: None }, 0);
    assert!(d.sweep(u64::MAX).is_empty());
    assert!(!d.is_idle());
    let fired = d.apply_command(Command::Cancel { id: 5 }, u64::MAX);
    assert_eq!(fired.len(), 1);
    assert_eq!(fired[0].engine, 50);
}

#[test]
fn shutdown_on_idle_is_quiet_and_terminal() {
    let mut d: Dispatcher<u64> = Dispatcher::new();
    let fired = d.apply_command(Command::Shutdown, 0);
    assert!(fired.is_empty());
    assert!(!d.is_running());
    assert!(d.is_idle());
    assert!(d.apply_command(Command::Start { id: 1, engine: 10, duration: Some(1) }, 0).is_empty());
    assert!(d.is_idle());
    assert!(d.sweep(100).is_empty());
}

#[test]
fn shutdown_interrupts_every_tracked_session_once() {
    let mut d: Dispatcher<u64> = Dispatcher::new();
    d.apply_command(Command::Start { id: 1, engine: 10, duration: None }, 0);
    d.apply_command(Command::Start { id: 2, engine: 20, duration: Some(1000) }, 0);
    d.apply_command(Command::Start { id: 3, engine: 30, duration: Some(5) }, 0);
    let fired = d.apply_command(Command::Shutdown, 1);
    assert_eq!(fired.len(), 3);
    let mut ids = ids_of(&fired);
    ids.sort();
    assert_eq!(ids, vec![1, 2, 3]);
    for f in &fired {
        assert_eq!(f.engine, (f.id as u64) * 10);
    }
    assert!(!d.is_running());
    assert!(d.is_idle());
}

#[test]
fn rearm_honours_only_the_second_start() {
    let mut d: Dispatcher<u64> = Dispatcher::new();
    d.apply_command(Command::Start { id: 1, engine: 100, duration: Some(100) }, 0);
    let fired = d.apply_command(Command::Start { id: 1, engine: 200, duration: Some(500) }, 0);
    assert!(fired.is_empty());
    assert!(d.sweep(100).is_empty());
    assert!(d.sweep(499).is_empty());
    let fired = d.sweep(500);
    assert_eq!(fired.len(), 1);
    assert_eq!(fired[0].id, 1);
    assert_eq!(fired[0].engine, 200);
    assert!(d.sweep(u64::MAX).is_empty());
}

#[test]
fn rearm_to_no_deadline_stops_expiry() {
    let mut d: Dispatcher<u64> = Dispatcher::new();
    d.apply_command(Command::Start { id: 1, engine: 10, duration: Some(10) }, 0);
    d.apply_command(Command::Start { id: 1, engine: 11, duration: None }, 5);
    assert!(d.sweep(u64::MAX).is_empty());
    assert!(!d.is_idle());
}

#[test]
fn sweep_takes_only_elapsed_sessions() {
    let mut d: Dispatcher<u64> = Dispatcher::new();
    d.apply_command(Command::Start { id: 1, engine: 10, duration: Some(10) }, 0);
    d.apply_command(Command::Start { id: 2, engine: 20, duration: Some(20) }, 0);
    d.apply_command(Command::Start { id: 3, engine: 30, duration: None }, 0);
    let fired = d.sweep(15);
    assert_eq!(ids_of(&fired), vec![1]);
    let fired = d.sweep(25);
    assert_eq!(ids_of(&fired), vec![2]);
    assert!(!d.is_idle());
    assert!(d.is_running());
}
