use genesis_sim::headless::{MonitorState, MonitorStep};

#[test]
fn monitor_reports_and_finishes() {
    let mut m = MonitorState::new(1000, 100);
    assert_eq!(m.step(0), MonitorStep { report: false, finish: false });
    assert_eq!(m.step(50), MonitorStep { report: false, finish: false });
    assert_eq!(m.step(120), MonitorStep { report: true, finish: false });
    assert_eq!(m.last_report_tick, 120);
    assert_eq!(m.step(200), MonitorStep { report: false, finish: false });
    assert_eq!(m.step(220), MonitorStep { report: true, finish: false });
    assert_eq!(m.step(1000), MonitorStep { report: true, finish: true });
}

#[test]
fn monitor_without_progress_reports() {
    let mut m = MonitorState::new(10, 0);
    assert_eq!(m.step(5), MonitorStep { report: false, finish: false });
    assert_eq!(m.step(10), MonitorStep { report: false, finish: true });
    assert_eq!(m.last_report_tick, 0);
}
