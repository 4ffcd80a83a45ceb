use openplan::watch::{watch_step, watch_wait, WatchSignal, WatchStep, WatchWait};

#[test]
fn a_change_opens_a_quiet_spell() {
    assert_eq!(watch_step(false, WatchSignal::Changed), WatchStep::Continue { pending: true, refresh: false });
    assert_eq!(watch_wait(true), WatchWait::Settling);
    assert_eq!(watch_wait(false), WatchWait::Idle);
}

#[test]
fn a_burst_of_changes_is_refreshed_once_it_settles() {
    let mut pending = false;
    let mut refreshes = 0;
    for signal in [WatchSignal::Changed, WatchSignal::Changed, WatchSignal::Changed, WatchSignal::Quiet] {
        match watch_step(pending, signal) {
            WatchStep::Continue { pending: next, refresh } => {
                pending = next;
                if refresh {
                    refreshes += 1;
                }
            }
            WatchStep::Finish => panic!("the watcher was not told to stop"),
        }
    }
    assert_eq!(refreshes, 1);
    assert!(!pending);
}

#[test]
fn a_stop_ends_the_watcher() {
    assert_eq!(watch_step(true, WatchSignal::Stopped), WatchStep::Finish);
    assert_eq!(watch_step(false, WatchSignal::Stopped), WatchStep::Finish);
}
