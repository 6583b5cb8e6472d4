use kv_web::semantic::{classify_threat, SuspicionLevel, ThreatReason};
use kv_web::semantic::{choose_exit, escalation_due};
use kv_web::{FirewallHistory, SemanticPriority, SemanticRoundaboutConfig};

#[test]
fn history_keeps_most_recent() {
    let mut h: FirewallHistory<u32> = FirewallHistory::new(3);
    for i in 0..5 {
        h.record(i);
    }
    assert_eq!(h.signatures, vec![2, 3, 4]);
    let mut z: FirewallHistory<u32> = FirewallHistory::new(0);
    z.record(1);
    assert!(z.signatures.is_empty());
}

#[test]
fn priority_escalation() {
    let mut p = SemanticPriority::Low;
    p.escalate();
    assert_eq!(p, SemanticPriority::Standard);
    p.escalate();
    assert_eq!(p, SemanticPriority::High);
    p.escalate();
    assert_eq!(p, SemanticPriority::High);
}

#[test]
fn escalation_thresholds() {
    let cfg = SemanticRoundaboutConfig::default();
    assert_eq!((cfg.max_hops_before_escalation, cfg.max_age_before_force_exit_ms), (8, 250));
    assert!(!escalation_due(7, 249, &cfg));
    assert!(escalation_due(8, 0, &cfg));
    assert!(escalation_due(0, 250, &cfg));
}

#[test]
fn exit_choice_prefers_hint() {
    let zones = vec![4, 2, 7, 2];
    assert_eq!(choose_exit(&zones, Some(2)), Some(1));
    assert_eq!(choose_exit(&zones, Some(9)), Some(0));
    assert_eq!(choose_exit(&zones, None), Some(0));
    assert_eq!(choose_exit(&Vec::new(), Some(1)), None);
}

fn signals(v: bool, s: bool, z: bool, r: bool, f: bool, g: bool) -> kv_web::semantic::ThreatSignals {
    kv_web::semantic::ThreatSignals {
        variance_out_of_band: v,
        spike_high: s,
        zone_coherence_low: z,
        root_similarity_low: r,
        flip_ratio_high: f,
        geometry_break: g,
    }
}

#[test]
fn threat_last_rule_decides() {
    assert_eq!(
        classify_threat(&signals(false, false, false, false, false, false)),
        (SuspicionLevel::Allow, ThreatReason::NoThreat)
    );
    assert_eq!(
        classify_threat(&signals(true, true, false, false, false, false)),
        (SuspicionLevel::Suspicious, ThreatReason::HeatmapSpike)
    );
    assert_eq!(
        classify_threat(&signals(true, false, true, true, false, false)),
        (SuspicionLevel::Block, ThreatReason::ZoneCoherenceLow)
    );
    assert_eq!(
        classify_threat(&signals(false, true, false, true, false, false)),
        (SuspicionLevel::Suspicious, ThreatReason::RootSimilarityLow)
    );
    assert_eq!(
        classify_threat(&signals(false, false, true, false, true, false)),
        (SuspicionLevel::Block, ThreatReason::PolarityFlipHigh)
    );
    assert_eq!(
        classify_threat(&signals(true, true, true, true, true, true)),
        (SuspicionLevel::Block, ThreatReason::GeometryBreak)
    );
}
