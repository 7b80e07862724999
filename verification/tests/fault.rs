use qstream::endpoint::Endpoint;
use qstream::fault::{seed_from, Datagram, FaultConfig, FaultInjector, FaultStats, Rng};

const MS: u128 = 1_000_000;

fn quiet() -> FaultConfig {
    FaultConfig {
        drop_pct: 0,
        dup_pct: 0,
        reorder_pct: 0,
        delay_ms: 0,
        burst_every_ms: 0,
        burst_dur_ms: 0,
    }
}

fn datagram(n: u8) -> Datagram {
    Datagram {
        bytes: vec![n],
        to: Endpoint::v4(127, 0, 0, 1, 9),
    }
}

fn bytes(out: &[Datagram]) -> Vec<u8> {
    out.iter().map(|d| d.bytes[0]).collect()
}

#[test]
fn rng_deterministic() {
    let mut a = Rng::new(42);
    let mut b = Rng::new(42);
    for _ in 0..100 {
        assert_eq!(a.next(), b.next());
    }
}

#[test]
fn roll_bounds() {
    let mut r = Rng::new(7);
    for _ in 0..1000 {
        let v = r.next() % 100;
        assert!(v < 100);
    }
    assert!(!r.roll(0));
    assert!(r.roll(100));
}

#[test]
fn burst_window() {
    let now: u128 = 1_000_000 * MS;
    let start = now - 50 * MS; // started 50ms ago
    let f = FaultInjector::new(
        FaultConfig {
            burst_every_ms: 1000,
            burst_dur_ms: 100,
            ..quiet()
        },
        1,
        start,
    );
    // 50ms into the cycle -> in burst (first 100ms of 1000ms cycle)
    let mid = now + 100 * MS; // 150ms in -> out of burst
    assert!(f.in_burst(now));
    assert!(!f.in_burst(mid));
}

#[test]
fn splitmix_known_values() {
    let mut r = Rng::new(1234567);
    assert_eq!(r.next(), 6457827717110365317);
    assert_eq!(r.next(), 3203168211198807973);
}

#[test]
fn zero_seed_comes_from_the_clock() {
    assert_eq!(seed_from(9, Some(5)), 9);
    assert_eq!(seed_from(0, Some(5)), 5);
    assert_eq!(seed_from(0, Some(u64::MAX as u128 + 3)), 2);
    assert_eq!(seed_from(0, None), 1);
    // two generators from the clock do not start at the same constant
    let mut a = Rng::new(0);
    let mut b = Rng::new(1);
    assert_ne!(a.next(), b.next());
}

#[test]
fn no_faults_pass_everything() {
    let mut f = FaultInjector::new(quiet(), 5, 0);
    assert!(!f.enabled());
    assert_eq!(bytes(&f.send(datagram(1), 0)), vec![1]);
    assert_eq!(f.next_deadline(0), None);
    f.emitted(true);
    f.emitted(false);
    assert_eq!(
        f.stats(),
        FaultStats {
            dropped: 0,
            emitted: 1
        }
    );
}

#[test]
fn full_loss_drops_everything() {
    let mut f = FaultInjector::new(
        FaultConfig {
            drop_pct: 100,
            dup_pct: 100,
            ..quiet()
        },
        5,
        0,
    );
    assert!(f.send(datagram(1), 0).is_empty());
    assert_eq!(f.stats().dropped, 2);
}

#[test]
fn duplicates_go_out_twice() {
    let mut f = FaultInjector::new(
        FaultConfig {
            dup_pct: 100,
            ..quiet()
        },
        5,
        0,
    );
    assert_eq!(bytes(&f.send(datagram(4), 0)), vec![4, 4]);
}

#[test]
fn bursts_drop_and_count() {
    let mut f = FaultInjector::new(
        FaultConfig {
            burst_every_ms: 10,
            burst_dur_ms: 5,
            ..quiet()
        },
        5,
        0,
    );
    assert!(f.send(datagram(1), 4 * MS).is_empty());
    assert_eq!(bytes(&f.send(datagram(2), 5 * MS)), vec![2]);
    assert_eq!(f.stats().dropped, 1);
}

#[test]
fn delayed_datagrams_wait() {
    let mut f = FaultInjector::new(
        FaultConfig {
            delay_ms: 10,
            ..quiet()
        },
        5,
        0,
    );
    assert!(f.send(datagram(1), 0).is_empty());
    assert!(f.send(datagram(2), 3 * MS).is_empty());
    assert_eq!(f.next_deadline(0), Some(10 * MS));
    assert!(f.drain(9 * MS).is_empty());
    assert_eq!(bytes(&f.drain(10 * MS)), vec![1]);
    assert_eq!(f.next_deadline(20 * MS), Some(20 * MS + 1));
    assert_eq!(bytes(&f.drain(20 * MS)), vec![2]);
    assert_eq!(f.next_deadline(20 * MS), None);
}

#[test]
fn reordered_datagrams_swap() {
    let mut f = FaultInjector::new(
        FaultConfig {
            reorder_pct: 100,
            ..quiet()
        },
        5,
        0,
    );
    assert!(f.send(datagram(1), 0).is_empty());
    assert_eq!(f.next_deadline(0), Some(50 * MS));
    assert_eq!(bytes(&f.send(datagram(2), MS)), vec![2, 1]);
    assert!(f.send(datagram(3), MS).is_empty());
    assert!(f.drain(50 * MS).is_empty());
    assert_eq!(bytes(&f.drain(51 * MS)), vec![3]);
}

#[test]
fn summary_in_words() {
    let f = FaultInjector::new(
        FaultConfig {
            drop_pct: 5,
            dup_pct: 1,
            reorder_pct: 2,
            delay_ms: 30,
            burst_every_ms: 1000,
            burst_dur_ms: 100,
        },
        5,
        0,
    );
    assert_eq!(
        f.summary(),
        "fault injection: drop 5% dup 1% delay 30ms reorder 2% burst 100/1000ms seed rng"
    );
}

#[test]
fn faults_from_settings() {
    let c = FaultConfig::from_settings(
        Some("5"),
        Some("x"),
        Some("4294967299"),
        Some("40"),
        None,
        Some("+7"),
    );
    assert_eq!(
        c,
        FaultConfig {
            drop_pct: 5,
            dup_pct: 0,
            reorder_pct: 3,
            delay_ms: 40,
            burst_every_ms: 0,
            burst_dur_ms: 7,
        }
    );
}

#[test]
fn the_earliest_deadline_counts() {
    let config = FaultConfig {
        reorder_pct: 100,
        delay_ms: 1000,
        ..quiet()
    };
    let mut f = FaultInjector::new(config, 5, 0);
    // two are swapped into the delay queue, a third is held back
    assert!(f.send(datagram(1), 0).is_empty());
    assert!(f.send(datagram(2), 0).is_empty());
    assert_eq!(f.next_deadline(0), Some(1000 * MS));
    assert!(f.send(datagram(3), 0).is_empty());
    assert_eq!(f.next_deadline(0), Some(50 * MS));
    assert_eq!(f.next_deadline(60 * MS), Some(60 * MS + 1));
    assert_eq!(bytes(&f.drain(60 * MS)), vec![3]);
    assert_eq!(f.next_deadline(60 * MS), Some(1000 * MS));
}
