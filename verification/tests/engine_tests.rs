use pidtree_mon::codec::{decode_frame, decode_pids, encode_pids, frame_bits, frame_bytes};
use pidtree_mon::engine::{cumulate, get_cumulated, sample_step, tick_deltas};
use pidtree_mon::forest::Forest;
use pidtree_mon::pidmap::PidMap;
use pidtree_mon::snapshot::{ProcRecord, Snapshot};

fn rec(pid: i32, ppid: i32, self_ticks: u64, reaped: i64) -> ProcRecord {
    ProcRecord {
        pid,
        ppid,
        utime: self_ticks,
        stime: 0,
        cutime: reaped,
        cstime: 0,
    }
}

fn snap(taken: u64, recs: &[ProcRecord]) -> Snapshot {
    Snapshot::from_records(taken, &recs.to_vec()).expect("records should build")
}

#[test]
fn tree_delta_synthetic() {
    // Root 1 with child 2 alive in both snapshots; child 3 of 2 present
    // before with self ticks 40, gone now, reaped into its parent 2 and
    // so cumulated into both 2 and 1.
    let prev = snap(
        1000,
        &[rec(1, 0, 100, 0), rec(2, 1, 50, 0), rec(3, 2, 40, 0)],
    );
    let cur = snap(1100, &[rec(1, 0, 100, 0), rec(2, 1, 80, 40)]);
    let (deltas, dt) = sample_step(Some(&prev), &cur);
    assert_eq!(dt, 100);
    // Alive growth 30, newly reaped lifetime 40, of which 40 were already
    // counted while 3 was alive: 30 in total.
    assert_eq!(deltas.get(1), Some(30));
    assert_eq!(deltas.get(2), Some(30));
    assert_eq!(deltas.get(3), None);
    // Divided by the elapsed ticks this is a per-core load of 0.3.
    assert_eq!(deltas.get(1).unwrap() as f32 / dt as f32, 0.3f32);
}

#[test]
fn delta_against_self_is_zero() {
    let s = snap(
        500,
        &[rec(1, 0, 7, 3), rec(2, 1, 5, 0), rec(4, 2, 11, 1), rec(9, 0, 2, 0)],
    );
    let deltas = tick_deltas(Some(&s), &s);
    for pid in [1, 2, 4, 9] {
        assert_eq!(deltas.get(pid), Some(0));
    }
}

#[test]
fn first_sample_counts_since_boot() {
    let cur = snap(200, &[rec(1, 0, 60, 5), rec(2, 1, 30, 0)]);
    let (deltas, dt) = sample_step(None, &cur);
    assert_eq!(dt, 200);
    // Subtree of 1: 60 + 30 alive, plus 5 reaped before the sample.
    assert_eq!(deltas.get(1), Some(95));
    assert_eq!(deltas.get(2), Some(30));
}

#[test]
fn reaped_totals_are_cumulated() {
    // Raw reaped-children counts are summed over each subtree when the
    // snapshot is built.
    let s = snap(0, &[rec(1, 0, 0, 2), rec(2, 1, 0, 3), rec(3, 2, 0, 5)]);
    assert_eq!(s.samples.get(1).unwrap().reaped_subtree_ticks, 10);
    assert_eq!(s.samples.get(2).unwrap().reaped_subtree_ticks, 8);
    assert_eq!(s.samples.get(3).unwrap().reaped_subtree_ticks, 5);
}

#[test]
fn cumulate_without_links_is_identity() {
    let empty = Forest::from_parents(PidMap::new(), 1).unwrap();
    let mut values: PidMap<i64> = PidMap::new();
    values.set(3, 7);
    values.set(5, -2);
    values.set(8, 0);
    let out = get_cumulated(&empty, &values);
    assert_eq!(out.get(3), Some(7));
    assert_eq!(out.get(5), Some(-2));
    assert_eq!(out.get(8), Some(0));
    assert_eq!(cumulate(5, &empty, &values), -2);
}

#[test]
fn child_order_does_not_matter() {
    // The same records handed over in any order give the same deltas.
    let a = [rec(1, 0, 10, 0), rec(2, 1, 20, 0), rec(3, 1, 30, 0)];
    let b = [rec(3, 1, 30, 0), rec(1, 0, 10, 0), rec(2, 1, 20, 0)];
    let sa = snap(50, &a);
    let sb = snap(50, &b);
    let da = tick_deltas(None, &sa);
    let db = tick_deltas(None, &sb);
    for pid in [1, 2, 3] {
        assert_eq!(da.get(pid), db.get(pid));
    }
    assert_eq!(da.get(1), Some(60));
}

#[test]
fn cyclic_parent_links_are_rejected() {
    let recs = vec![rec(1, 2, 0, 0), rec(2, 1, 0, 0)];
    assert!(Snapshot::from_records(0, &recs).is_none());
}

#[test]
fn long_lived_busy_processes_are_accepted() {
    // Hundreds of years of CPU per process pass; only aggregate overflow
    // of the signed-delta range is rejected.
    let big: u64 = 1 << 50;
    let s = snap(1 << 50, &[rec(1, 0, big, 1 << 49), rec(2, 1, big, 0)]);
    assert_eq!(s.samples.get(1).unwrap().total_self_ticks, big);
    let d = tick_deltas(None, &s);
    assert_eq!(d.get(1), Some((2 * big + (1 << 49)) as i64));

    // The aggregate cap itself: one process near the cap still passes,
    // two of them together overflow and are rejected.
    let cap: u64 = 1 << 60;
    assert!(Snapshot::from_records(0, &vec![rec(1, 0, cap, 0)]).is_some());
    assert!(Snapshot::from_records(0, &vec![rec(1, 0, cap, 0), rec(2, 0, cap, 0)]).is_none());
}

#[test]
fn dangling_and_self_parents_become_roots() {
    // A parent that is not itself visible, or a self-loop, is no link.
    let s = snap(0, &[rec(1, 99, 4, 0), rec(2, 2, 6, 0)]);
    let d = tick_deltas(None, &s);
    assert_eq!(d.get(1), Some(4));
    assert_eq!(d.get(2), Some(6));
}

#[test]
fn duplicate_pids_keep_first_record() {
    let s = snap(0, &[rec(1, 0, 4, 0), rec(1, 0, 9, 0)]);
    assert_eq!(s.samples.get(1).unwrap().total_self_ticks, 4);
}

#[test]
fn pid_roundtrip_on_the_wire() {
    let pids = vec![1, -7, 123456, i32::MAX, i32::MIN];
    let bytes = encode_pids(&pids);
    assert_eq!(bytes.len(), 20);
    assert_eq!(decode_pids(&bytes), pids);
}

#[test]
fn frames_carry_loads_and_nan() {
    let mut loads: PidMap<u32> = PidMap::new();
    loads.set(10, 0.5f32.to_bits());
    loads.set(20, 2.25f32.to_bits());
    let pids = vec![20, 10, 30];
    let bits = frame_bits(&pids, &loads);
    assert_eq!(f32::from_bits(bits[0]), 2.25);
    assert_eq!(f32::from_bits(bits[1]), 0.5);
    assert!(f32::from_bits(bits[2]).is_nan());
    let bytes = frame_bytes(&bits);
    assert_eq!(bytes.len(), 12);
    let back = decode_frame(&bytes);
    assert_eq!(back, bits);
    // The wire format is big-endian, as the protocol fixes it.
    assert_eq!(&bytes[0..4], &2.25f32.to_be_bytes());
}

#[test]
fn negative_delta_is_passed_through() {
    // A pid reused between samples can shrink; the engine reports the raw
    // signed value.
    let prev = snap(0, &[rec(1, 0, 50, 0)]);
    let cur = snap(10, &[rec(1, 0, 20, 0)]);
    let d = tick_deltas(Some(&prev), &cur);
    assert_eq!(d.get(1), Some(-30));
}
