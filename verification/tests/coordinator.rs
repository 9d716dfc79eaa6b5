use overlayd::command::Command;
use overlayd::command::CommandKind;
use overlayd::coordinator::Coordinator;
use overlayd::queue::DebounceQueue;

#[test]
fn queue_starts_empty_and_is_fifo_in_length() {
    let mut q = DebounceQueue::new();
    assert!(q.is_empty());
    assert_eq!(q.len(), 0);
    q.push(Command::new(CommandKind::Increase, 1));
    q.push(Command::new(CommandKind::Decrease, 2));
    assert!(!q.is_empty());
    assert_eq!(q.len(), 2);
    q.pop_front();
    assert_eq!(q.len(), 1);
    q.pop_front();
    assert!(q.is_empty());
}

#[test]
fn queue_pop_front_on_empty_is_a_no_op() {
    let mut q = DebounceQueue::new();
    q.pop_front();
    assert!(q.is_empty());
    assert_eq!(q.len(), 0);
}

#[test]
fn coordinator_starts_hidden_with_nothing_pending() {
    let c = Coordinator::new();
    assert!(!c.is_visible());
    assert_eq!(c.pending_len(), 0);
}

#[test]
fn burst_of_commands_keeps_queue_length_then_drains_to_hidden() {
    // queue length after k commands with no timer fired equals k; after
    // all k timers fire with no new arrival, it is 0 and the overlay is
    // hidden again
    let k = 5;
    let mut c = Coordinator::new();
    for i in 0..k {
        c.on_command_received(Command::new(CommandKind::Increase, i as i64));
        assert_eq!(c.pending_len(), i + 1);
        assert!(c.is_visible());
    }
    for i in 0..k {
        let hid = c.on_timer_fired();
        assert_eq!(c.pending_len(), k - i - 1);
        assert_eq!(hid, i == k - 1);
    }
    assert!(!c.is_visible());
    assert_eq!(c.pending_len(), 0);
}

#[test]
fn burst_shows_once_and_hides_once() {
    // arrivals closer together than the eviction delay: command i + 1
    // arrives before timer i fires, so the events interleave as
    // A A T A T T for three commands
    let mut c = Coordinator::new();
    let mut shows = 0;
    let mut hides = 0;
    if c.on_command_received(Command::new(CommandKind::Increase, 1)) {
        shows += 1;
    }
    if c.on_command_received(Command::new(CommandKind::Increase, 1)) {
        shows += 1;
    }
    if c.on_timer_fired() {
        hides += 1;
    }
    if c.on_command_received(Command::new(CommandKind::Increase, 1)) {
        shows += 1;
    }
    if c.on_timer_fired() {
        hides += 1;
    }
    if c.on_timer_fired() {
        hides += 1;
    }
    assert_eq!(shows, 1);
    assert_eq!(hides, 1);
    assert!(!c.is_visible());
}

#[test]
fn spaced_commands_show_and_hide_independently() {
    // arrivals at least one eviction delay apart: each command's timer
    // fires before the next command arrives
    let mut c = Coordinator::new();
    for i in 0..3 {
        let shown = c.on_command_received(Command::new(CommandKind::Decrease, i as i64));
        assert!(shown);
        assert!(c.is_visible());
        let hid = c.on_timer_fired();
        assert!(hid);
        assert!(!c.is_visible());
    }
}

#[test]
fn brightness_double_increase_coalesces() {
    // two Increase(5) commands inside the debounce window: one show, two
    // updates with non-decreasing fraction, one hide on the last timer
    let mut level: i64 = 40;
    let mut c = Coordinator::new();
    let mut shows = 0;
    let mut updates: Vec<i64> = Vec::new();

    for _ in 0..2 {
        let cmd = Command::new(CommandKind::Increase, 5);
        if c.on_command_received(cmd) {
            shows += 1;
        }
        // the action executor raises the level, then the fresh reading is
        // pushed to the overlay
        level += cmd.magnitude;
        updates.push(level);
    }
    assert_eq!(shows, 1);
    assert_eq!(updates.len(), 2);
    assert!(updates[0] <= updates[1]);

    let mut hides = 0;
    if c.on_timer_fired() {
        hides += 1;
    }
    assert!(c.is_visible());
    if c.on_timer_fired() {
        hides += 1;
    }
    assert_eq!(hides, 1);
    assert!(!c.is_visible());
}
