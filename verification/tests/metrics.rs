use netcode::common::Format;
use netcode::common::Metrics;

#[test]
fn metrics_start_at_zero() {
    let mut m = Metrics::default();
    assert_eq!(m.recv_total(), 0);
    assert_eq!(m.send_total(), 0);
    assert_eq!(m.recv_per_sec(), 0);
    assert_eq!(m.send_per_sec(), 0);
}

#[test]
fn metrics_totals_accumulate() {
    let mut m = Metrics::default();
    m.add_send(10);
    m.add_send(5);
    m.add_recv(7);
    assert_eq!(m.send_total(), 15);
    assert_eq!(m.recv_total(), 7);
}

#[test]
fn metrics_per_sec_within_total() {
    let mut m = Metrics::default();
    m.add_send(100);
    m.add_recv(40);
    m.roll_window(1);
    m.add_send(3);
    assert!(m.send_per_sec() <= m.send_total());
    assert!(m.recv_per_sec() <= m.recv_total());
}

#[test]
fn metrics_window_reports_what_it_counted() {
    let mut m = Metrics::default();
    m.add_send(10);
    m.add_recv(4);
    m.roll_window(1);
    assert_eq!(m.send_per_sec(), 10);
    assert_eq!(m.recv_per_sec(), 4);
    assert_eq!(m.send_total(), 10);
    assert_eq!(m.recv_total(), 4);
}

#[test]
fn metrics_window_does_not_roll_before_a_second() {
    let mut m = Metrics::default();
    m.add_send(10);
    m.roll_window(0);
    assert_eq!(m.send_per_sec(), 0);
    assert_eq!(m.send_total(), 10);
}

#[test]
fn metrics_quiet_window_reads_zero() {
    let mut m = Metrics::default();
    m.add_send(10);
    m.add_recv(10);
    m.roll_window(1);
    m.roll_window(1);
    assert_eq!(m.send_per_sec(), 0);
    assert_eq!(m.recv_per_sec(), 0);
    assert_eq!(m.send_total(), 10);
    assert_eq!(m.recv_total(), 10);
}

#[test]
fn format_defaults_to_binary() {
    assert!(Format::default() == Format::Binary);
}

#[test]
fn metrics_totals_count_every_recording() {
    let mut m = Metrics::default();
    let sends = [3usize, 0, 17, 250, 1];
    let mut expected = 0;
    for (i, v) in sends.iter().enumerate() {
        m.add_send(*v);
        m.add_recv(i);
        if i % 2 == 0 {
            m.roll_window(1);
        }
        expected += v;
        let first = m.send_total();
        assert_eq!(first, expected);
        // a second reading gives the same total
        assert_eq!(m.send_total(), first);
    }
    assert_eq!(m.recv_total(), 0 + 1 + 2 + 3 + 4);
}

#[test]
fn metrics_readings_within_a_second_keep_the_window_open() {
    let mut m = Metrics::default();
    m.add_send(5);
    for _ in 0..100 {
        assert_eq!(m.send_per_sec(), 0);
    }
    m.roll_window(1);
    assert_eq!(m.send_per_sec(), 5);
}
