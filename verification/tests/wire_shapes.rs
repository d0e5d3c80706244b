use orrery::interval::{Interval, Timestamp};
use orrery::wire::{ServerConfig, WindowQuery};
use orrery::OrreryError;

fn iv(s: i64, e: i64) -> Interval {
    Interval::new(Timestamp(s), Timestamp(e)).unwrap()
}

#[test]
fn window_query_falls_back_to_defaults() {
    let d = iv(0, 100);
    let q = WindowQuery::default();
    assert_eq!(q.resolve(d, Timestamp(7)).unwrap(), (d, Timestamp(7)));
    let half = WindowQuery { start_us: Some(5), end_us: None, at_us: Some(9) };
    assert_eq!(half.resolve(d, Timestamp(7)).unwrap(), (d, Timestamp(9)));
}

#[test]
fn window_query_uses_its_own_window_and_refuses_an_inverted_one() {
    let d = iv(0, 100);
    let q = WindowQuery { start_us: Some(10), end_us: Some(20), at_us: None };
    assert_eq!(q.resolve(d, Timestamp(7)).unwrap(), (iv(10, 20), Timestamp(7)));
    let bad = WindowQuery { start_us: Some(20), end_us: Some(20), at_us: None };
    assert!(matches!(bad.resolve(d, Timestamp(7)), Err(OrreryError::InvalidInterval { .. })));
}

#[test]
fn server_config_defaults() {
    let c = ServerConfig::default();
    assert_eq!(c.bind, "127.0.0.1:8080");
    assert_eq!(c.exporter, "stdout");
}
