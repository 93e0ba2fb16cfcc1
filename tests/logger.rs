use libu::{Color, Level, Logger};

#[test]
fn logger_lets_through_levels_up_to_its_own() {
    let l = Logger::new(Level::Info);
    assert!(l.enabled(Level::Error));
    assert!(l.enabled(Level::Warn));
    assert!(l.enabled(Level::Info));
    assert!(!l.enabled(Level::Debug));
    assert!(!l.enabled(Level::Trace));
}

#[test]
fn trace_logger_lets_through_everything() {
    let l = Logger::new(Level::Trace);
    for lv in [Level::Error, Level::Warn, Level::Info, Level::Debug, Level::Trace] {
        assert!(l.enabled(lv));
    }
}

#[test]
fn level_tags() {
    assert_eq!(Level::Error.tag(), "ERR");
    assert_eq!(Level::Warn.tag(), "WAR");
    assert_eq!(Level::Info.tag(), "INF");
    assert_eq!(Level::Debug.tag(), "DBG");
    assert_eq!(Level::Trace.tag(), "TRC");
    assert_eq!(Level::Error.rank_of(), 1);
    assert_eq!(Level::Trace.rank_of(), 5);
}

#[test]
fn level_colors() {
    assert_eq!(Level::Error.color(), Color::Red);
    assert_eq!(Level::Warn.color(), Color::Yellow);
    assert_eq!(Level::Info.color(), Color::Green);
    assert_eq!(Level::Debug.color(), Color::Cyan);
    assert_eq!(Level::Trace.color(), Color::Purple);
}
