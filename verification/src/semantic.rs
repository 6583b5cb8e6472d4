//! Integer parts of the semantic firewall and semantic roundabout: the
//! bounded attack history, packet priorities, escalation and exit choice.

use vstd::prelude::*;

verus! {

/// Bounded history of attack signatures: only the most recent
/// `max_entries` are kept.
#[derive(Debug)]
pub struct FirewallHistory<S> {
    pub signatures: Vec<S>,
    pub max_entries: usize,
}

/// The history after `sig` has been appended and the oldest entries beyond
/// `max` dropped.
pub open spec fn recorded<S>(signatures: Seq<S>, sig: S, max: usize) -> Seq<S> {
    let s = signatures.push(sig);
    if s.len() > max {
        s.skip(s.len() - max)
    } else {
        s
    }
}

impl<S> FirewallHistory<S> {
    pub fn new(max_entries: usize) -> (h: Self)
        ensures
            h.signatures@ == Seq::<S>::empty(),
            h.max_entries == max_entries,
    {
        FirewallHistory { signatures: Vec::new(), max_entries }
    }

    /// Appends a signature, then drops the oldest ones so that at most
    /// `max_entries` remain.
    pub fn record(&mut self, sig: S)
        ensures
            final(self).signatures@ == recorded(old(self).signatures@, sig, old(self).max_entries),
            final(self).max_entries == old(self).max_entries,
            final(self).signatures@.len() <= final(self).max_entries,
    {
        self.signatures.push(sig);
        if self.signatures.len() > self.max_entries {
            let overflow = self.signatures.len() - self.max_entries;
            let kept = self.signatures.split_off(overflow);
            self.signatures = kept;
        }
    }
}

/// Routing priority of a semantic packet.
#[derive(Debug, Clone, Copy, PartialEq, Eq, Structural)]
pub enum SemanticPriority {
    High,
    Standard,
    Low,
}

/// The priority one step higher (High stays High).
pub open spec fn escalated(p: SemanticPriority) -> SemanticPriority {
    match p {
        SemanticPriority::High => SemanticPriority::High,
        SemanticPriority::Standard => SemanticPriority::High,
        SemanticPriority::Low => SemanticPriority::Standard,
    }
}

impl SemanticPriority {
    /// Raises the priority one step (High stays High).
    pub fn escalate(&mut self)
        ensures
            *final(self) == escalated(*old(self)),
    {
        *self = match *self {
            SemanticPriority::High => SemanticPriority::High,
            SemanticPriority::Standard => SemanticPriority::High,
            SemanticPriority::Low => SemanticPriority::Standard,
        };
    }
}

/// When a circulating packet is escalated.
#[derive(Debug)]
pub struct SemanticRoundaboutConfig {
    pub max_hops_before_escalation: u32,
    pub max_age_before_force_exit_ms: u64,
}

impl Default for SemanticRoundaboutConfig {
    fn default() -> (c: Self)
        ensures
            c.max_hops_before_escalation == 8,
            c.max_age_before_force_exit_ms == 250,
    {
        SemanticRoundaboutConfig { max_hops_before_escalation: 8, max_age_before_force_exit_ms: 250 }
    }
}

/// Whether a packet with `hops` hops and age `age_ms` is old enough or has
/// circulated enough to be escalated.
pub open spec fn escalation_is_due(hops: int, age_ms: int, cfg: SemanticRoundaboutConfig) -> bool {
    age_ms >= cfg.max_age_before_force_exit_ms || hops >= cfg.max_hops_before_escalation
}

/// Escalation is due exactly from the thresholds on: a packet at either
/// limit is due, a packet below both is not, and once due a packet stays due
/// as it ages or circulates further.
pub proof fn lemma_escalation_thresholds(hops: int, age_ms: int, cfg: SemanticRoundaboutConfig)
    ensures
        escalation_is_due(cfg.max_hops_before_escalation as int, age_ms, cfg),
        escalation_is_due(hops, cfg.max_age_before_force_exit_ms as int, cfg),
        hops < cfg.max_hops_before_escalation && age_ms < cfg.max_age_before_force_exit_ms
            ==> !escalation_is_due(hops, age_ms, cfg),
        escalation_is_due(hops, age_ms, cfg) ==> escalation_is_due(hops + 1, age_ms, cfg)
            && escalation_is_due(hops, age_ms + 1, cfg),
{
}

/// A packet is escalated once it is old enough or has circulated enough.
pub fn escalation_due(hops: u32, age_ms: u64, cfg: &SemanticRoundaboutConfig) -> (due: bool)
    ensures
        due == escalation_is_due(hops as int, age_ms as int, *cfg),
{
    age_ms >= cfg.max_age_before_force_exit_ms || hops >= cfg.max_hops_before_escalation
}

/// `choice` is the exit for ranked candidates with the given zones: the first
/// candidate in the hinted zone if there is one, otherwise the first
/// candidate; `None` exactly when there are no candidates.
pub open spec fn is_exit_choice(zones: Seq<usize>, hint_zone: Option<usize>, choice: Option<usize>) -> bool {
    &&& (zones.len() == 0 <==> choice is None)
    &&& choice matches Some(i) ==> {
        &&& i < zones.len()
        &&& match hint_zone {
            Some(h) => if zones.contains(h) {
                zones[i as int] == h && forall|k: int| 0 <= k < i ==> zones[k] != h
            } else {
                i == 0
            },
            None => i == 0,
        }
    }
}

/// Chooses the exit among ranked candidates, given the zone of each: the
/// first candidate in the hinted zone if there is one, otherwise the first
/// candidate; `None` when there are no candidates.
pub fn choose_exit(candidate_zones: &Vec<usize>, hint_zone: Option<usize>) -> (choice: Option<usize>)
    ensures
        is_exit_choice(candidate_zones@, hint_zone, choice),
{
    if let Some(h) = hint_zone {
        let mut i: usize = 0;
        while i < candidate_zones.len()
            invariant
                0 <= i <= candidate_zones@.len(),
                hint_zone == Some(h),
                forall|k: int| 0 <= k < i ==> candidate_zones@[k] != h,
            decreases candidate_zones.len() - i,
        {
            if candidate_zones[i] == h {
                proof {
                    assert(candidate_zones@[i as int] == h);
                    assert(candidate_zones@.contains(h));
                }
                return Some(i);
            }
            i = i + 1;
        }
    }
    if candidate_zones.len() > 0 {
        proof {
            if let Some(h) = hint_zone {
                assert(!candidate_zones@.contains(h));
            }
        }
        Some(0)
    } else {
        None
    }
}

/// The rank of a priority: Low 0, Standard 1, High 2.
pub open spec fn priority_rank(p: SemanticPriority) -> int {
    match p {
        SemanticPriority::Low => 0,
        SemanticPriority::Standard => 1,
        SemanticPriority::High => 2,
    }
}

/// Escalation raises a priority by exactly one step, and leaves High as it
/// is; it never lowers a priority.
pub proof fn lemma_escalation_one_step(p: SemanticPriority)
    ensures
        priority_rank(escalated(p)) == if priority_rank(p) < 2 {
            priority_rank(p) + 1
        } else {
            2
        },
        priority_rank(escalated(p)) >= priority_rank(p),
{
}

/// The exit choice is determined by the candidates and the hint: two
/// choices that both meet `is_exit_choice` are equal; a candidate in the
/// hinted zone is never passed over for one outside it or for a later one
/// in it; and without a usable hint the first candidate is taken.
pub proof fn lemma_exit_choice_determined(
    zones: Seq<usize>,
    hint_zone: Option<usize>,
    c1: Option<usize>,
    c2: Option<usize>,
    k: int,
)
    ensures
        is_exit_choice(zones, hint_zone, c1) && is_exit_choice(zones, hint_zone, c2) ==> c1 == c2,
        is_exit_choice(zones, hint_zone, c1) && 0 <= k < zones.len() && hint_zone == Some(zones[k])
            ==> (c1 matches Some(i) && i <= k && zones[i as int] == zones[k]),
        is_exit_choice(zones, hint_zone, c1) && zones.len() > 0 && (hint_zone is None || !zones.contains(
            hint_zone->0,
        )) ==> c1 == Some(0usize),
        is_exit_choice(zones, hint_zone, c1) ==> (c1 is None <==> zones.len() == 0),
{
    if is_exit_choice(zones, hint_zone, c1) && is_exit_choice(zones, hint_zone, c2) {
        if let (Some(i), Some(j)) = (c1, c2) {
            if let Some(h) = hint_zone {
                if zones.contains(h) {
                    if i < j {
                        assert(zones[i as int] == h);
                    } else if j < i {
                        assert(zones[j as int] == h);
                    }
                }
            }
        }
    }
    if is_exit_choice(zones, hint_zone, c1) && 0 <= k < zones.len() && hint_zone == Some(zones[k]) {
        assert(zones.contains(zones[k]));
        if let Some(i) = c1 {
            if i > k {
                assert(zones[k] != hint_zone->0);
            }
        }
    }
}

/// The history after a record keeps the newest `min(len + 1, max)`
/// signatures, ending with the recorded one (when `max > 0`), in their
/// order.
pub proof fn lemma_recorded_keeps_newest<S>(signatures: Seq<S>, sig: S, max: usize)
    ensures
        recorded(signatures, sig, max).len() == if signatures.len() + 1 <= max {
            (signatures.len() + 1) as int
        } else {
            max as int
        },
        max > 0 ==> recorded(signatures, sig, max).last() == sig,
        forall|k: int|
            0 <= k < recorded(signatures, sig, max).len() ==> #[trigger] recorded(signatures, sig, max)[k]
                == signatures.push(sig)[signatures.len() + 1 - recorded(signatures, sig, max).len() + k],
{
}

/// The integer state of a circulating semantic packet.
#[derive(Debug)]
pub struct RouteState {
    pub priority: SemanticPriority,
    pub hops: u32,
    pub last_exit_zone: Option<usize>,
}

/// One routing attempt of a circulating packet: counts the hop, escalates
/// the priority when the packet is old enough (`age_ms`) or has circulated
/// enough, and picks the exit among the ranked candidates (given by their
/// zones), preferring the zone of the last exit; the chosen zone becomes the
/// last exit. Returns the position of the chosen candidate, `None` when the
/// packet keeps circulating.
pub fn route_step(
    state: &mut RouteState,
    age_ms: u64,
    cfg: &SemanticRoundaboutConfig,
    candidate_zones: &Vec<usize>,
) -> (choice: Option<usize>)
    requires
        old(state).hops < u32::MAX,
    ensures
        final(state).hops == old(state).hops + 1,
        final(state).priority == if escalation_is_due(old(state).hops + 1, age_ms as int, *cfg) {
            escalated(old(state).priority)
        } else {
            old(state).priority
        },
        is_exit_choice(candidate_zones@, old(state).last_exit_zone, choice),
        final(state).last_exit_zone == match choice {
            Some(i) => Some(candidate_zones@[i as int]),
            None => old(state).last_exit_zone,
        },
{
    state.hops = state.hops + 1;
    if escalation_due(state.hops, age_ms, cfg) {
        state.priority.escalate();
    }
    let choice = choose_exit(candidate_zones, state.last_exit_zone);
    if let Some(i) = choice {
        state.last_exit_zone = Some(candidate_zones[i]);
    }
    choice
}

/// The integer part of the revolving-door firewall phase: a phase cycling
/// through 0..4 and a wrapping cycle counter.
#[derive(Debug)]
pub struct DoorPhase {
    pub door_phase: u8,
    pub door_cycle: u64,
}

impl DoorPhase {
    pub fn new() -> (p: Self)
        ensures
            p.door_phase == 0,
            p.door_cycle == 0,
    {
        DoorPhase { door_phase: 0, door_cycle: 0 }
    }

    /// Moves to the next phase (modulo 4) and counts the cycle, wrapping.
    pub fn advance(&mut self)
        requires
            old(self).door_phase < 255,
        ensures
            final(self).door_phase == (old(self).door_phase + 1) % 4,
            final(self).door_cycle == (old(self).door_cycle + 1) % 0x1_0000_0000_0000_0000,
    {
        self.door_phase = (self.door_phase + 1) % 4;
        self.door_cycle = self.door_cycle.wrapping_add(1);
    }
}

/// How suspicious an incoming embedding is.
#[derive(Debug, Clone, Copy, PartialEq, Eq, Structural)]
pub enum SuspicionLevel {
    Allow,
    Suspicious,
    Block,
}

/// Which firewall rule decided the level.
#[derive(Debug, Clone, Copy, PartialEq, Eq, Structural)]
pub enum ThreatReason {
    NoThreat,
    EmbeddingVarianceSuspect,
    HeatmapSpike,
    ZoneCoherenceLow,
    RootSimilarityLow,
    PolarityFlipHigh,
    GeometryBreak,
}

/// The outcomes of the firewall's threshold comparisons for one embedding.
#[derive(Debug)]
pub struct ThreatSignals {
    /// The embedding variance lies outside the allowed band.
    pub variance_out_of_band: bool,
    /// The heatmap spike exceeds its threshold.
    pub spike_high: bool,
    /// The zone coherence is below its minimum.
    pub zone_coherence_low: bool,
    /// The similarity to the root is below its minimum.
    pub root_similarity_low: bool,
    /// The polarity flip ratio exceeds its maximum.
    pub flip_ratio_high: bool,
    /// The polygon distance exceeds its allowance.
    pub geometry_break: bool,
}

/// The rules in order, each later one that fires overriding the earlier
/// ones; a low root similarity counts only when the zone coherence is not
/// low.
pub open spec fn threat_of(s: ThreatSignals) -> (SuspicionLevel, ThreatReason) {
    if s.geometry_break {
        (SuspicionLevel::Block, ThreatReason::GeometryBreak)
    } else if s.flip_ratio_high {
        (SuspicionLevel::Block, ThreatReason::PolarityFlipHigh)
    } else if s.root_similarity_low && !s.zone_coherence_low {
        (SuspicionLevel::Suspicious, ThreatReason::RootSimilarityLow)
    } else if s.zone_coherence_low {
        (SuspicionLevel::Block, ThreatReason::ZoneCoherenceLow)
    } else if s.spike_high {
        (SuspicionLevel::Suspicious, ThreatReason::HeatmapSpike)
    } else if s.variance_out_of_band {
        (SuspicionLevel::Suspicious, ThreatReason::EmbeddingVarianceSuspect)
    } else {
        (SuspicionLevel::Allow, ThreatReason::NoThreat)
    }
}

/// Some signal of the firewall's comparisons is set.
pub open spec fn any_signal(s: ThreatSignals) -> bool {
    s.variance_out_of_band || s.spike_high || s.zone_coherence_low || s.root_similarity_low
        || s.flip_ratio_high || s.geometry_break
}

/// An embedding is allowed exactly when none of the signals is set, and the
/// level is `Allow` exactly when the reason is `NoThreat`.
pub proof fn lemma_threat_allow_iff_quiet(s: ThreatSignals)
    ensures
        (threat_of(s).0 == SuspicionLevel::Allow) <==> !any_signal(s),
        (threat_of(s).1 == ThreatReason::NoThreat) <==> !any_signal(s),
{
}

/// The reason given always names a signal that is set, and its level is
/// `Block` for a zone-coherence, polarity-flip or geometry reason and
/// `Suspicious` for a variance, spike or root-similarity reason.
pub proof fn lemma_threat_reason_matches(s: ThreatSignals)
    ensures
        match threat_of(s).1 {
            ThreatReason::NoThreat => threat_of(s).0 == SuspicionLevel::Allow,
            ThreatReason::EmbeddingVarianceSuspect => s.variance_out_of_band && threat_of(s).0
                == SuspicionLevel::Suspicious,
            ThreatReason::HeatmapSpike => s.spike_high && threat_of(s).0 == SuspicionLevel::Suspicious,
            ThreatReason::ZoneCoherenceLow => s.zone_coherence_low && threat_of(s).0
                == SuspicionLevel::Block,
            ThreatReason::RootSimilarityLow => s.root_similarity_low && !s.zone_coherence_low
                && threat_of(s).0 == SuspicionLevel::Suspicious,
            ThreatReason::PolarityFlipHigh => s.flip_ratio_high && threat_of(s).0
                == SuspicionLevel::Block,
            ThreatReason::GeometryBreak => s.geometry_break && threat_of(s).0 == SuspicionLevel::Block,
        },
{
}

/// A signal set on its own decides the classification by its own rule.
pub proof fn lemma_threat_single_signal(s: ThreatSignals)
    ensures
        s.variance_out_of_band && !s.spike_high && !s.zone_coherence_low && !s.root_similarity_low
            && !s.flip_ratio_high && !s.geometry_break ==> threat_of(s) == (
            SuspicionLevel::Suspicious,
            ThreatReason::EmbeddingVarianceSuspect,
        ),
        !s.variance_out_of_band && s.spike_high && !s.zone_coherence_low && !s.root_similarity_low
            && !s.flip_ratio_high && !s.geometry_break ==> threat_of(s) == (
            SuspicionLevel::Suspicious,
            ThreatReason::HeatmapSpike,
        ),
        !s.variance_out_of_band && !s.spike_high && s.zone_coherence_low && !s.root_similarity_low
            && !s.flip_ratio_high && !s.geometry_break ==> threat_of(s) == (
            SuspicionLevel::Block,
            ThreatReason::ZoneCoherenceLow,
        ),
        !s.variance_out_of_band && !s.spike_high && !s.zone_coherence_low && s.root_similarity_low
            && !s.flip_ratio_high && !s.geometry_break ==> threat_of(s) == (
            SuspicionLevel::Suspicious,
            ThreatReason::RootSimilarityLow,
        ),
        !s.variance_out_of_band && !s.spike_high && !s.zone_coherence_low && !s.root_similarity_low
            && s.flip_ratio_high && !s.geometry_break ==> threat_of(s) == (
            SuspicionLevel::Block,
            ThreatReason::PolarityFlipHigh,
        ),
        !s.variance_out_of_band && !s.spike_high && !s.zone_coherence_low && !s.root_similarity_low
            && !s.flip_ratio_high && s.geometry_break ==> threat_of(s) == (
            SuspicionLevel::Block,
            ThreatReason::GeometryBreak,
        ),
{
}

/// Later rules override earlier ones: a geometry break always blocks as
/// such, a polarity flip blocks as such unless the geometry breaks, and the
/// variance rule decides only when no other signal that can fire is set.
pub proof fn lemma_threat_precedence(s: ThreatSignals)
    ensures
        s.geometry_break ==> threat_of(s) == (SuspicionLevel::Block, ThreatReason::GeometryBreak),
        !s.geometry_break && s.flip_ratio_high ==> threat_of(s) == (
            SuspicionLevel::Block,
            ThreatReason::PolarityFlipHigh,
        ),
        !s.geometry_break && !s.flip_ratio_high && s.zone_coherence_low ==> threat_of(s) == (
            SuspicionLevel::Block,
            ThreatReason::ZoneCoherenceLow,
        ),
        (threat_of(s).1 == ThreatReason::EmbeddingVarianceSuspect) <==> (s.variance_out_of_band
            && !s.spike_high && !s.zone_coherence_low && !s.root_similarity_low
            && !s.flip_ratio_high && !s.geometry_break),
{
}

/// Classifies an embedding from the firewall's comparisons, applying the
/// rules in order so that the last one that fires decides.
pub fn classify_threat(s: &ThreatSignals) -> (res: (SuspicionLevel, ThreatReason))
    ensures
        res == threat_of(*s),
{
    let mut level = SuspicionLevel::Allow;
    let mut reason = ThreatReason::NoThreat;
    if s.variance_out_of_band {
        level = SuspicionLevel::Suspicious;
        reason = ThreatReason::EmbeddingVarianceSuspect;
    }
    if s.spike_high {
        level = SuspicionLevel::Suspicious;
        reason = ThreatReason::HeatmapSpike;
    }
    if s.zone_coherence_low {
        level = SuspicionLevel::Block;
        reason = ThreatReason::ZoneCoherenceLow;
    }
    if s.root_similarity_low && !s.zone_coherence_low {
        level = SuspicionLevel::Suspicious;
        reason = ThreatReason::RootSimilarityLow;
    }
    if s.flip_ratio_high {
        level = SuspicionLevel::Block;
        reason = ThreatReason::PolarityFlipHigh;
    }
    if s.geometry_break {
        level = SuspicionLevel::Block;
        reason = ThreatReason::GeometryBreak;
    }
    (level, reason)
}

} // verus!
