use kv_web::dax::{log_predictor_delta, next_id};
use kv_web::{DeltaStore, WebNodeId};

#[test]
fn next_id_counts_up() {
    let mut c = 41u64;
    assert_eq!(next_id(&mut c), 42);
    assert_eq!(c, 42);
}

#[test]
fn ids_come_from_one_counter() {
    let mut s = DeltaStore::default();
    let m = s.add_master_buffer(3, 1000);
    let r = s.add_delta(3, 1, 5, 6, 0.5f32.to_bits(), Some("t".to_string()));
    let d = s.add_delta_buffer(3, m);
    assert_eq!((m, r, d), (1, 2, 3));
    assert_eq!(s.masters[0].created_at_ms, 1000);
    assert_eq!(s.masters[0].fingerprint, 0);
    assert_eq!(f32::from_bits(s.records[0].heat_bits), 0.5);
    assert!(s.deltas[0].records.is_empty());
}

#[test]
fn view_fingerprint_xors_lineage() {
    let mut s = DeltaStore::default();
    let m = s.add_master_buffer(7, 0);
    let d = s.add_delta_buffer(7, m);
    let r1 = s.add_delta(7, 0, 0, 0, 0, None);
    let r2 = s.add_delta(7, 0, 0, 0, 0, None);
    s.attach_record_to_delta(d, r1);
    s.attach_record_to_delta(d, r2);
    let v = s.create_effective_view(m, d);
    assert_eq!(v, 5);
    let view = &s.views[0];
    assert_eq!(view.fingerprint, m ^ d ^ r1 ^ r2);
    assert_eq!(view.domain, 7);
    assert_eq!((view.master_id, view.delta_id), (m, d));
}

#[test]
fn view_of_unknown_master_and_delta() {
    let mut s = DeltaStore::default();
    let v = s.create_effective_view(10, 20);
    assert_eq!(v, 1);
    assert_eq!(s.views[0].domain, 0);
    assert_eq!(s.views[0].fingerprint, 10 ^ 20);
}

#[test]
fn attach_to_unknown_delta_does_nothing() {
    let mut s = DeltaStore::default();
    let m = s.add_master_buffer(1, 0);
    let d = s.add_delta_buffer(1, m);
    s.attach_record_to_delta(d + 100, 9);
    assert!(s.deltas[0].records.is_empty());
}

#[test]
fn branch_view_from_creates_delta_and_view() {
    let mut s = DeltaStore::default();
    let m = s.add_master_buffer(4, 0);
    let (mm, d, v) = s.branch_view_from(m);
    assert_eq!((mm, d, v), (m, 2, 3));
    assert_eq!(s.deltas[0].domain, 4);
    assert_eq!(s.deltas[0].master_id, m);
    assert_eq!(s.views[0].fingerprint, m ^ d);
    assert_eq!(s.views[0].domain, 4);
}

#[test]
fn rollback_then_fingerprint_reads_back() {
    let mut s = DeltaStore::default();
    let m1 = s.add_master_buffer(1, 0);
    let m2 = s.add_master_buffer(1, 0);
    let (_, _, v) = s.branch_view_from(m1);
    s.rollback_master_to(m1, v);
    assert_eq!(s.fingerprint_for_master(m1), v);
    assert_eq!(s.fingerprint_for_master(m2), 0);
    assert_eq!(s.fingerprint_for_master(999), 0);
    s.rollback_master_to(999, 5);
    assert_eq!(s.masters.len(), 2);
}

#[test]
fn log_predictor_delta_records_lineage() {
    let mut s = DeltaStore::default();
    log_predictor_delta(&mut s, &vec![WebNodeId(1)], 1, 77, 2.0f32.to_bits());
    assert_eq!(s.id_counter, 4);
    assert_eq!(s.masters[0].id, 1);
    assert_eq!(s.masters[0].domain, 1);
    assert_eq!(s.masters[0].created_at_ms, 77);
    assert_eq!(s.records[0].id, 2);
    assert_eq!(s.records[0].tag.as_deref(), Some("predictor_activity"));
    assert_eq!((s.records[0].ts_start, s.records[0].ts_end), (77, 77));
    assert_eq!(s.deltas[0].records, vec![2]);
    assert_eq!(s.views[0].fingerprint, 1 ^ 3 ^ 2);
    assert_eq!(s.views[0].domain, 1);
}

#[test]
fn log_predictor_delta_skips_empty_results() {
    let mut s = DeltaStore::default();
    log_predictor_delta(&mut s, &vec![], 3, 77, 0);
    log_predictor_delta(&mut s, &vec![WebNodeId(0)], 0, 77, 0);
    assert_eq!(s.id_counter, 0);
    assert!(s.masters.is_empty() && s.views.is_empty());
}
