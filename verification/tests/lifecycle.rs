use xtables::args::XTablesArgs;
use xtables::lifecycle::Lifecycle;

#[test]
fn start_spawns_only_once() {
    let mut lc = Lifecycle::new();
    assert!(!lc.is_running());
    assert!(lc.start(), "first start spawns the loops");
    assert!(lc.is_running());
    assert!(!lc.start(), "a second start without a stop is a no-op");
    assert!(lc.is_running());
}

#[test]
fn stop_is_idempotent() {
    let mut lc = Lifecycle::new();
    lc.start();
    lc.stop();
    assert!(!lc.is_running());
    let after_one = lc;
    lc.stop();
    assert_eq!(lc, after_one, "stopping an already-stopped lifecycle changes nothing");
    assert!(!lc.is_running());
}

#[test]
fn restart_spawns_again() {
    let mut lc = Lifecycle::new();
    assert!(lc.start());
    lc.stop();
    assert!(lc.start(), "a stopped lifecycle starts again");
    assert!(lc.is_running());
}

#[test]
fn stop_before_any_start_is_safe() {
    let mut lc = Lifecycle::new();
    lc.stop();
    assert!(!lc.is_running());
    assert!(lc.start(), "the first start still brings it to running");
    assert!(lc.is_running());
}

#[test]
fn default_args_disable_logging() {
    let args = XTablesArgs::default();
    assert!(!args.log);
}
