use mielofon::controller::rollup::Rollups;
use mielofon::controller::config::TsConfig;
use mielofon::controller::model::{LinkKey, ProbeState};
use mielofon::controller::tsdb::{bucket_start, parse_link_id, stale_rows, RawSample, Tsdb, WindowSpec};

fn links() -> (LinkKey, LinkKey) {
    (LinkKey::new("spoke-1", "hub-a", "awg_hub_a"), LinkKey::new("spoke-1", "hub-b", "awg_hub_b"))
}

fn sample(ts: u64, rtt: f64) -> RawSample<f64> {
    RawSample::from_dims(ProbeState::Quiet, ts, Some(rtt), Some(0.0), Some(100.0), None, 0.0)
}

fn window_spec() -> WindowSpec {
    WindowSpec { always_fresh_secs: 60, tcp_fresh_secs: 1200, tcp_carry_secs: 3600 }
}

#[test]
fn window_carries_latest_throughput_despite_fresh_always_probes() {
    let mut tsdb = Tsdb::new(&TsConfig::default());
    let a = LinkKey::new("spoke-1", "hub-a", "awg_hub_a");
    let base = 1_700_000_000_u64;
    // A throughput sample 300s ago (older than always_fresh but within
    // tcp_fresh), then always probes with no tcp dim every 15s after it.
    tsdb.append(&a, RawSample::from_dims(ProbeState::Quiet, base, None, None, None, Some(80.0), 0.0));
    for i in 1..=20 {
        tsdb.append(&a, sample(base + i * 15, 15.0 + i as f64));
    }
    let v = tsdb.window(&a, &window_spec(), base + 300).expect("window");
    // tcp is carried from the older throughput sample, not wiped by always.
    assert_eq!(v.tcp_mbps, Some(80.0));
    assert!(!v.tcp_carried, "still within tcp_fresh");
    assert!(v.rtt_ms.is_some());
}

#[test]
fn window_carries_tcp_beyond_fresh_but_within_carry() {
    let mut tsdb = Tsdb::new(&TsConfig::default());
    let a = LinkKey::new("spoke-1", "hub-a", "awg_hub_a");
    let base = 1_700_000_000_u64;
    tsdb.append(&a, RawSample::from_dims(ProbeState::Quiet, base, None, None, None, Some(50.0), 0.0));
    // Now 2000s later: past tcp_fresh (1200) but within carry (3600).
    tsdb.append(&a, sample(base + 2000, 20.0));
    let v = tsdb.window(&a, &window_spec(), base + 2000).expect("window");
    assert_eq!(v.tcp_mbps, Some(50.0));
    assert!(v.tcp_carried, "beyond tcp_fresh, still carried");
    // Always dims come from the fresh probe at base+2000.
    assert_eq!(v.rtt_ms, Some(20.0));
}

#[test]
fn window_drops_tcp_past_carry_horizon() {
    let mut tsdb = Tsdb::new(&TsConfig::default());
    let a = LinkKey::new("spoke-1", "hub-a", "awg_hub_a");
    let base = 1_700_000_000_u64;
    tsdb.append(&a, RawSample::from_dims(ProbeState::Quiet, base, None, None, None, Some(50.0), 0.0));
    // Beyond the 3600s carry horizon => the link has no current data.
    let v = tsdb.window(&a, &window_spec(), base + 7200);
    assert!(v.is_none());
}

#[test]
fn append_and_query_monotonic() {
    let mut tsdb = Tsdb::new(&TsConfig::default()); // memory-only in tests
    let (a, _) = links();
    // Base aligned to the 60s bucket boundary (1_700_000_040 % 60 == 0).
    let base = 1_700_000_040_u64;
    for i in 0..10 {
        tsdb.append(&a, sample(base + i, 10.0 + i as f64));
    }
    let r = tsdb.query(&a, base, base + 100);
    assert_eq!(r.len(), 10);
    assert_eq!(r[0].ts, base);
    // All 10 fall in one 60s bucket.
    assert!(r.iter().all(|s| bucket_start(s.ts) == base));
    let min_loss = r.iter().filter_map(|s| s.loss_pct).fold(f64::INFINITY, f64::min);
    assert_eq!(min_loss, 0.0);
    let rtts: Vec<f64> = r.iter().filter_map(|s| s.rtt_ms).collect();
    let avg = rtts.iter().sum::<f64>() / rtts.len() as f64;
    assert!((avg - 14.5).abs() < 1e-3, "avg {avg}");
}

#[test]
fn duplicate_ts_is_dropped() {
    let mut tsdb = Tsdb::new(&TsConfig::default());
    let (a, _) = links();
    tsdb.append(&a, sample(100, 5.0));
    tsdb.append(&a, sample(100, 5.0)); // resend
    assert_eq!(tsdb.query(&a, 0, 1000).len(), 1);
}

#[test]
fn retention_prunes_old_rings() {
    let mut tsdb = Tsdb::new(&TsConfig::default());
    let (a, _) = links();
    tsdb.append(&a, sample(1000, 5.0));
    tsdb.append(&a, sample(2000, 5.0));
    tsdb.prune(4000); // 4000 - 7200 < 1000 → keeps both
    assert_eq!(tsdb.query(&a, 0, 99999).len(), 2);
    tsdb.prune(100000); // cutoff 92800 → both dropped
    assert_eq!(tsdb.query(&a, 0, 99999).len(), 0);
}

#[test]
fn delta_watermark_traffic() {
    let mut tsdb = Tsdb::new(&TsConfig::default());
    let a = LinkKey::new("spoke-1", "hub-a", "awg_hub_a");
    for i in 0..5 {
        tsdb.append(&a, sample(2000 + i, 1.0));
    }
    let (d, wm) = tsdb.take_delta(0, 100);
    assert_eq!(d.len(), 5);
    assert!(wm >= d[4].0);
    // After the watermark only the tail remains.
    let (d2, wm2) = tsdb.take_delta(wm, 100);
    assert!(d2.is_empty());
    let _ = wm2;
}

#[test]
fn delta_limit_caps_batch() {
    let mut tsdb = Tsdb::new(&TsConfig::default());
    let a = LinkKey::new("s", "h", "i");
    for i in 0..10 {
        tsdb.append(&a, sample(3000 + i, 1.0));
    }
    let (d, wm) = tsdb.take_delta(0, 3);
    assert_eq!(d.len(), 3);
    assert_eq!(d[2].0, wm);
    let (d2, _) = tsdb.take_delta(wm, 100);
    assert_eq!(d2.len(), 7);
}

#[test]
fn merge_delta_ignores_replay() {
    let mut tsdb = Tsdb::new(&TsConfig::default());
    let a = LinkKey::new("s", "h", "i");
    tsdb.merge_delta(&[(a.clone(), sample(100, 1.0))]);
    tsdb.merge_delta(&[(a.clone(), sample(100, 1.0))]); // replay
    tsdb.merge_delta(&[(a.clone(), sample(101, 2.0))]);
    assert_eq!(tsdb.query(&a, 0, 1000).len(), 2);
}

#[test]
fn merge_delta_reports_what_it_took() {
    let mut tsdb = Tsdb::new(&TsConfig::default());
    let a = LinkKey::new("s", "h", "i");
    let taken = tsdb.merge_delta(&[(a.clone(), sample(100, 1.0)), (a.clone(), sample(100, 1.0)), (a.clone(), sample(99, 1.0)), (a.clone(), sample(101, 1.0))]);
    assert_eq!(taken, vec![true, false, false, true]);
    assert_eq!(tsdb.links().len(), 1);
}

#[test]
fn watermark_is_per_peer() {
    let mut tsdb: Tsdb<f64> = Tsdb::new(&TsConfig::default());
    assert_eq!(tsdb.sent_watermark("hub-b"), 0);
    tsdb.note_sent("hub-b", 7);
    assert_eq!(tsdb.sent_watermark("hub-b"), 7);
    assert_eq!(tsdb.sent_watermark("hub-c"), 0);
}

#[test]
fn bucket_start_aligns_to_minutes() {
    assert_eq!(bucket_start(1_700_000_040), 1_700_000_040);
    assert_eq!(bucket_start(1_700_000_099), 1_700_000_040);
    assert_eq!(bucket_start(59), 0);
}

#[test]
fn link_id_parses_back() {
    let k = LinkKey::new("spoke-1", "hub-a", "awg/x");
    assert_eq!(parse_link_id(&k.id()), k);
    assert_eq!(parse_link_id("a/b"), LinkKey::new("a/b", "", ""));
    assert_eq!(parse_link_id("plain"), LinkKey::new("plain", "", ""));
}

#[test]
fn pending_is_kept_only_with_a_durable_copy() {
    let mut mem: Tsdb<f64> = Tsdb::new(&TsConfig::default());
    let a = LinkKey::new("s", "h", "i");
    mem.append(&a, sample(1, 1.0));
    assert!(mem.take_pending().is_empty());
    let cfg = TsConfig { path: "/var/lib/mielofon/ts.redb".to_string(), raw_retention_secs: 7200, agg_retention_secs: 86400 };
    let mut disk: Tsdb<f64> = Tsdb::new(&cfg);
    disk.append(&a, sample(1, 1.0));
    let batch = disk.take_pending();
    assert_eq!(batch.len(), 1);
    assert!(disk.take_pending().is_empty());
    disk.restore_pending(batch);
    assert_eq!(disk.take_pending().len(), 1);
}

#[test]
fn rollups_place_samples_in_minute_buckets() {
    // (count, rtt sum) per bucket, folded the way the daemon folds samples.
    let mut roll: Rollups<(u32, f64)> = Rollups::new();
    let (a, _) = links();
    let base = 1_700_000_040_u64;
    for i in 0..10 {
        let s = sample(base + i, 10.0 + i as f64);
        let prev = roll.bucket_at(&a, s.ts).unwrap_or((0, 0.0));
        roll.put_bucket(&a, s.ts, (prev.0 + 1, prev.1 + s.rtt_ms.unwrap()));
    }
    roll.put_bucket(&a, base - 1, (1, 1.0));
    let b = roll.query(&a, base, base + 100);
    assert_eq!(b.len(), 1);
    assert_eq!(b[0].0, base);
    assert_eq!(b[0].1 .0, 10);
    assert!((b[0].1 .1 / 10.0 - 14.5).abs() < 1e-9);
    assert_eq!(roll.query(&a, 0, u64::MAX).iter().map(|e| e.0).collect::<Vec<_>>(), vec![base - 60, base]);
    assert_eq!(roll.take_dirty().len(), 2);
    assert!(roll.take_dirty().is_empty());
    roll.load_bucket(&a, base, (99, 0.0));
    assert_eq!(roll.bucket_at(&a, base).unwrap().0, 10);
    roll.prune(base);
    assert_eq!(roll.query(&a, 0, u64::MAX).len(), 1);
    roll.prune(base + 60);
    assert!(roll.query(&a, 0, u64::MAX).is_empty());
}

#[test]
fn flush_deletes_rows_past_retention() {
    let rows = vec![("a/b/i".to_string(), 100), ("a/b/i".to_string(), 200), ("c/d/j".to_string(), 50), ("c/d/j".to_string(), 300)];
    let stale = stale_rows(&rows, 200);
    assert_eq!(stale, vec![("a/b/i".to_string(), 100), ("c/d/j".to_string(), 50)]);
    assert!(stale_rows(&rows, 0).is_empty());
}

#[test]
fn query_is_ascending() {
    let mut t: Tsdb<f64> = Tsdb::new(&TsConfig::default());
    let (a, _) = links();
    for ts in [5, 3, 9, 9, 12] {
        t.append(&a, sample(ts, 1.0));
    }
    let got: Vec<u64> = t.query(&a, 0, u64::MAX).iter().map(|s| s.ts).collect();
    assert_eq!(got, vec![5, 9, 12]);
}
