use yabba::client::build_client;
use yabba::clients::build_clients;
use yabba::elapsed::{Elapsed, MAX_NANOS};
use yabba::meter::{IntervalMeter, Meter, Outcome};
use yabba::rate::{unit_index, unit_prefix, unit_size, Rate};
use yabba::server::build_server;
use yabba::totals::{peer_summary, rates_by_peer, rates_by_stream, sum_rates, summarize, sums_fit, total_rate};

fn ms(n: u64) -> Elapsed {
    Elapsed::new(n / 1000, ((n % 1000) * 1_000_000) as u32)
}

fn rate(local: &str, peer: &str, bytes: u64, millis: u64, threads: usize) -> Rate {
    Rate { local: local.to_string(), peer: peer.to_string(), bytes, elapsed: ms(millis), threads }
}

#[test]
fn elapsed_arithmetic() {
    let a = Elapsed::new(1, 1_500_000_000);
    assert_eq!(a.as_secs(), 2);
    assert_eq!(a.subsec_nanos(), 500_000_000);
    assert_eq!(a.as_nanos(), 2_500_000_000);
    let b = Elapsed::from_secs(3);
    assert_eq!(b.add(&a).as_nanos(), 5_500_000_000);
    assert_eq!(b.sub(&a).as_nanos(), 500_000_000);
    assert!(b.is_longer_than(&a));
    assert!(!a.is_longer_than(&a));
    assert_eq!(Elapsed::zero().as_nanos(), 0);
}

#[test]
fn elapsed_checked_add_at_the_limit() {
    let max = Elapsed::new(u64::MAX, 999_999_999);
    assert_eq!(max.as_nanos(), MAX_NANOS);
    assert!(max.checked_add(&Elapsed::zero()).is_some());
    assert!(max.checked_add(&Elapsed::new(0, 1)).is_none());
}

#[test]
fn unit_choice() {
    assert_eq!(unit_index(0), 0);
    assert_eq!(unit_index(1), 0);
    assert_eq!(unit_index(1023), 0);
    assert_eq!(unit_index(1024), 1);
    assert_eq!(unit_index(1_000_000), 1);
    assert_eq!(unit_index(2_000_000), 2);
    assert_eq!(unit_index(1_048_576), 2);
    assert_eq!(unit_index(10_000_000_000), 3);
    assert_eq!(unit_index(1_099_511_627_776), 4);
    assert_eq!(unit_index(u64::MAX), 5);
    assert_eq!(unit_size(3), 1_073_741_824);
    assert_eq!(unit_prefix(0), "");
    assert_eq!(unit_prefix(1), "K");
    assert_eq!(unit_prefix(2), "M");
    assert_eq!(unit_prefix(3), "G");
    assert_eq!(unit_prefix(4), "T");
    assert_eq!(unit_prefix(5), "P");
}

#[test]
fn receiving_meter_counts_moved_buffers() {
    let mut m = Meter::new();
    assert!(m.record_received(100, Outcome::Moved(ms(5))));
    assert!(m.record_received(100, Outcome::Moved(ms(7))));
    assert_eq!(m.bytes, 200);
    assert_eq!(m.elapsed.as_nanos(), 12_000_000);
    assert!(!m.record_received(100, Outcome::LinkFailed));
    assert_eq!(m.bytes, 200);
    assert!(!m.record_received(100, Outcome::ClockFailed));
    assert_eq!(m.bytes, 200);
    let r = m.into_rate("a:1".to_string(), "b:2".to_string());
    assert_eq!(r.bytes, 200);
    assert_eq!(r.threads, 1);
    assert_eq!(r.local, "a:1");
    assert_eq!(r.peer, "b:2");
}

#[test]
fn sending_meter_stops_past_the_limit() {
    let limit = ms(10);
    let mut m = Meter::new();
    assert!(m.record_sent(8, &limit, Outcome::Moved(ms(6))));
    // exactly at the limit still goes on
    assert!(m.record_sent(8, &limit, Outcome::Moved(ms(4))));
    assert!(!m.record_sent(8, &limit, Outcome::Moved(ms(1))));
    assert_eq!(m.bytes, 24);
    assert_eq!(m.elapsed.as_nanos(), 11_000_000);
    let mut m2 = Meter::new();
    assert!(!m2.record_sent(8, &limit, Outcome::LinkFailed));
    assert_eq!(m2.bytes, 0);
}

#[test]
fn meter_fits_detects_overflow() {
    let mut m = Meter::new();
    m.bytes = u64::MAX - 5;
    assert!(m.fits(5, Outcome::Moved(ms(1))));
    assert!(!m.fits(6, Outcome::Moved(ms(1))));
    assert!(m.fits(6, Outcome::LinkFailed));
    let mut far = Meter::new();
    far.elapsed = Elapsed::new(u64::MAX, 999_999_999);
    assert!(!far.fits(1, Outcome::Moved(Elapsed::new(0, 1))));
}

#[test]
fn interval_meter_reports_and_resets() {
    let interval = ms(10);
    let limit = ms(100);
    let l = "l:1".to_string();
    let p = "p:2".to_string();
    let mut m = IntervalMeter::new();
    let (go, rep) = m.record_sent(4, &interval, &limit, Outcome::Moved(ms(6)), &l, &p);
    assert!(go);
    assert!(rep.is_none());
    // 10 ms since the last report is not longer than the interval
    let (go, rep) = m.record_sent(4, &interval, &limit, Outcome::Moved(ms(4)), &l, &p);
    assert!(go);
    assert!(rep.is_none());
    let (go, rep) = m.record_sent(4, &interval, &limit, Outcome::Moved(ms(1)), &l, &p);
    assert!(go);
    let r = rep.unwrap();
    assert_eq!(r.bytes, 12);
    assert_eq!(r.elapsed.as_nanos(), 11_000_000);
    assert_eq!(r.local, "l:1");
    assert_eq!(r.peer, "p:2");
    assert_eq!(r.threads, 1);
    assert_eq!(m.interval_bytes(), 0);
    assert_eq!(m.previous().as_nanos(), 11_000_000);
    let (go, rep) = m.record_sent(4, &interval, &limit, Outcome::Moved(ms(2)), &l, &p);
    assert!(go);
    assert!(rep.is_none());
    assert_eq!(m.interval_bytes(), 4);
    assert_eq!(m.total_bytes(), 16);
    let (go, rep) = m.record_sent(4, &interval, &limit, Outcome::LinkFailed, &l, &p);
    assert!(!go);
    assert!(rep.is_none());
    assert_eq!(m.total_bytes(), 16);
}

#[test]
fn interval_meter_stops_at_the_duration() {
    let mut m = IntervalMeter::new();
    let l = "l".to_string();
    let p = "p".to_string();
    let (go, rep) = m.record_sent(1, &ms(1000), &ms(5), Outcome::Moved(ms(6)), &l, &p);
    assert!(!go);
    assert!(rep.is_none());
}

#[test]
fn totals_per_peer() {
    let rates = vec![
        rate("a:1", "x:9", 10, 100, 1),
        rate("a:2", "y:9", 20, 200, 1),
        rate("a:3", "x:9", 30, 300, 2),
    ];
    let peers = rates_by_peer(&rates);
    assert_eq!(peers.len(), 2);
    assert_eq!(peers[0].peer, "x:9");
    assert_eq!(peers[0].local, "all");
    assert_eq!(peers[0].bytes, 40);
    assert_eq!(peers[0].elapsed.as_nanos(), 400_000_000);
    assert_eq!(peers[0].threads, 3);
    assert_eq!(peers[1].peer, "y:9");
    assert_eq!(peers[1].bytes, 20);
    assert_eq!(peers[1].threads, 1);
    let (p2, total) = peer_summary(&rates);
    assert_eq!(p2.len(), 2);
    assert_eq!(total.bytes, 60);
    assert_eq!(total.elapsed.as_nanos(), 600_000_000);
    assert_eq!(total.threads, 4);
    assert_eq!(total.local, "all");
    assert_eq!(total.peer, "all");
}

#[test]
fn totals_per_stream_keep_last_thread_count() {
    let rates = vec![
        rate("a:1", "x:9", 10, 100, 1),
        rate("a:2", "x:9", 5, 50, 1),
        rate("a:1", "x:9", 30, 300, 3),
    ];
    let streams = rates_by_stream(&rates);
    assert_eq!(streams.len(), 2);
    assert_eq!(streams[0].local, "a:1");
    assert_eq!(streams[0].peer, "x:9");
    assert_eq!(streams[0].bytes, 40);
    assert_eq!(streams[0].elapsed.as_nanos(), 400_000_000);
    assert_eq!(streams[0].threads, 3);
    assert_eq!(streams[1].local, "a:2");
    assert_eq!(streams[1].bytes, 5);
    assert_eq!(streams[1].threads, 1);
}

#[test]
fn summary_of_received_rates() {
    let rates = vec![
        rate("s:1", "c:1", 10, 100, 1),
        rate("s:1", "c:2", 20, 100, 1),
        rate("s:1", "c:1", 30, 100, 1),
        rate("s:2", "c:1", 40, 100, 2),
    ];
    let sm = summarize(&rates).unwrap();
    assert_eq!(sm.streams.len(), 3);
    assert_eq!(sm.servers.len(), 2);
    assert_eq!(sm.servers[0].peer, "c:1");
    assert_eq!(sm.servers[0].bytes, 80);
    assert_eq!(sm.servers[0].threads, 3);
    assert_eq!(sm.servers[1].peer, "c:2");
    assert_eq!(sm.servers[1].bytes, 20);
    assert_eq!(sm.total.bytes, 100);
    assert_eq!(sm.total.elapsed.as_nanos(), 400_000_000);
    assert_eq!(sm.total.threads, 4);
}

#[test]
fn summary_refuses_thread_overflow() {
    let rates = vec![rate("s:1", "c:1", 1, 1, usize::MAX), rate("s:2", "c:1", 1, 1, 1)];
    assert!(summarize(&rates).is_none());
}

#[test]
fn grand_totals() {
    let rates = vec![rate("a", "b", 7, 10, 2), rate("c", "d", 8, 20, 3)];
    let t = sum_rates(&rates);
    assert_eq!(t.bytes, 15);
    assert_eq!(t.elapsed.as_nanos(), 30_000_000);
    assert_eq!(t.threads, 5);
    assert_eq!(t.local, "all");
    let c = total_rate(&rates, 9);
    assert_eq!(c.bytes, 15);
    assert_eq!(c.threads, 9);
    assert_eq!(c.peer, "all");
    let empty: Vec<Rate> = Vec::new();
    assert_eq!(sum_rates(&empty).bytes, 0);
}

#[test]
fn sums_fit_checks_each_quantity() {
    let ok = vec![rate("a", "b", u64::MAX - 1, 1, 1), rate("a", "b", 1, 1, 1)];
    assert!(sums_fit(&ok, true));
    let too_many_bytes = vec![rate("a", "b", u64::MAX, 1, 1), rate("a", "b", 1, 1, 1)];
    assert!(!sums_fit(&too_many_bytes, false));
    let too_many_threads = vec![rate("a", "b", 1, 1, usize::MAX), rate("a", "b", 1, 1, 1)];
    assert!(!sums_fit(&too_many_threads, true));
    assert!(sums_fit(&too_many_threads, false));
    let mut long = rate("a", "b", 1, 0, 1);
    long.elapsed = Elapsed::new(u64::MAX, 999_999_999);
    let too_long = vec![long, rate("a", "b", 1, 1, 1)];
    assert!(!sums_fit(&too_long, false));
}

#[test]
fn builders() {
    let c = build_client(vec!["h:1", "h:2"], 3, 10, 131072);
    assert_eq!(c.addrs, vec!["h:1".to_string(), "h:2".to_string()]);
    assert_eq!(c.streams, 3);
    assert_eq!(c.duration.as_secs(), 10);
    assert_eq!(c.duration.subsec_nanos(), 0);
    assert_eq!(c.size, 131072);
    assert_eq!(c.thread_count(), 6);

    let cs = build_clients(vec![("h:1".to_string(), 2), ("h:2".to_string(), 5)], 1, 10, 64);
    assert_eq!(cs.addrs().len(), 2);
    assert_eq!(cs.addrs()[1].0, "h:2");
    assert_eq!(cs.interval().as_secs(), 1);
    assert_eq!(cs.duration().as_secs(), 10);
    assert_eq!(cs.size(), 64);
    assert!(cs.threads_fit());
    assert_eq!(cs.thread_count(), 7);
    let big = build_clients(vec![("a".to_string(), usize::MAX), ("b".to_string(), 1)], 1, 1, 1);
    assert!(!big.threads_fit());

    let s = build_server("0.0.0.0:5201", 131072);
    assert_eq!(s.addr, "0.0.0.0:5201");
    assert_eq!(s.size, 131072);
}

#[test]
fn interval_reports_and_open_interval_cover_total() {
    let mut m = IntervalMeter::new();
    let l = "l".to_string();
    let p = "p".to_string();
    let mut reported: u64 = 0;
    let mut reported_nanos: u128 = 0;
    for step in 0..20u64 {
        let (go, rep) = m.record_sent(3, &ms(4), &ms(1000), Outcome::Moved(ms(1 + step % 3)), &l, &p);
        assert!(go);
        if let Some(r) = rep {
            reported += r.bytes;
            reported_nanos += r.elapsed.as_nanos();
        }
    }
    assert_eq!(reported + m.interval_bytes(), m.total_bytes());
    assert_eq!(reported_nanos, m.previous().as_nanos());
    assert_eq!(m.total_bytes(), 60);
    let whole = m.into_rate("l".to_string(), "p".to_string());
    assert_eq!(whole.bytes, 60);
}

fn same_line(a: &Rate, b: &Rate) -> bool {
    a.local == b.local && a.peer == b.peer && a.bytes == b.bytes
        && a.elapsed.as_nanos() == b.elapsed.as_nanos() && a.threads == b.threads
}

#[test]
fn summary_does_not_depend_on_arrival_order() {
    let first = vec![
        rate("s:1", "c:1", 10, 100, 1),
        rate("s:1", "c:2", 20, 200, 1),
        rate("s:2", "c:1", 30, 300, 1),
        rate("s:1", "c:1", 40, 400, 1),
        rate("s:3", "c:3", 50, 500, 1),
    ];
    let second = vec![
        rate("s:3", "c:3", 50, 500, 1),
        rate("s:1", "c:1", 40, 400, 1),
        rate("s:2", "c:1", 30, 300, 1),
        rate("s:1", "c:1", 10, 100, 1),
        rate("s:1", "c:2", 20, 200, 1),
    ];
    let a = summarize(&first).unwrap();
    let b = summarize(&second).unwrap();
    assert_eq!(a.servers.len(), b.servers.len());
    for line in a.servers.iter() {
        assert!(b.servers.iter().any(|other| same_line(line, other)));
    }
    assert!(same_line(&a.total, &b.total));
    assert_eq!(a.total.bytes, 150);
    assert_eq!(a.total.threads, 4);
}

#[test]
fn peer_lines_sum_the_peer_messages() {
    let rates = vec![
        rate("s:1", "c:1", 10, 100, 1),
        rate("s:2", "c:1", 30, 300, 1),
        rate("s:1", "c:1", 40, 400, 1),
        rate("s:1", "c:2", 5, 50, 1),
    ];
    let sm = summarize(&rates).unwrap();
    assert_eq!(sm.servers[0].peer, "c:1");
    assert_eq!(sm.servers[0].bytes, 80);
    assert_eq!(sm.servers[0].elapsed.as_nanos(), 800_000_000);
    assert_eq!(sm.servers[1].bytes, 5);
}
