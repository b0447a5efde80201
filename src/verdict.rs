use vstd::prelude::*;
use crate::tally::PortCounts;
use crate::ranking::{
    TOP_PORTS, any_triple_repeat, cross_trial_frequency, find_repeated_used_ports,
    has_triple_repeat, is_top_ranking, trial_views,
};

verus! {

/// A top count above this many trials gives `VeryHigh`.
pub const VERY_HIGH_ABOVE: usize = 5;

/// A top count above this many trials (and not above `VERY_HIGH_ABOVE`) gives `High`.
pub const HIGH_ABOVE: usize = 3;

/// How likely the path is to push datagram traffic over to TCP.
#[derive(Clone, Copy, Debug, PartialEq, Eq, Structural)]
pub enum Verdict {
    Low,
    Medium,
    /// Carries the top-ranked port.
    High(u16),
    /// Carries the top-ranked port.
    VeryHigh(u16),
}

/// The verdict for a ranking and the triple-repeat flag. The first rule that
/// matches wins: no ranked port or a top count of one, with no triple repeat,
/// is `Low`; then a top count above `VERY_HIGH_ABOVE` is `VeryHigh`, above
/// `HIGH_ABOVE` is `High`; anything else, an empty ranking included, is `Medium`.
pub open spec fn verdict_of(ranked: Seq<(u16, usize)>, any_triple_repeat: bool) -> Verdict {
    if (ranked.len() == 0 || ranked[0].1 == 1) && !any_triple_repeat {
        Verdict::Low
    } else if ranked.len() == 0 {
        Verdict::Medium
    } else if ranked[0].1 > VERY_HIGH_ABOVE {
        Verdict::VeryHigh(ranked[0].0)
    } else if ranked[0].1 > HIGH_ABOVE {
        Verdict::High(ranked[0].0)
    } else {
        Verdict::Medium
    }
}

/// Maps a ranking of ports and the triple-repeat flag to a verdict.
pub fn classify(ranked: &Vec<(u16, usize)>, any_triple_repeat: bool) -> (v: Verdict)
    ensures
        v == verdict_of(ranked@, any_triple_repeat),
{
    if (ranked.len() == 0 || ranked[0].1 == 1) && !any_triple_repeat {
        Verdict::Low
    } else if ranked.len() == 0 {
        Verdict::Medium
    } else if ranked[0].1 > VERY_HIGH_ABOVE {
        Verdict::VeryHigh(ranked[0].0)
    } else if ranked[0].1 > HIGH_ABOVE {
        Verdict::High(ranked[0].0)
    } else {
        Verdict::Medium
    }
}

/// Classifying depends on the ranking and the flag alone: any two verdicts that
/// `classify` may return for the same pair are equal.
pub proof fn lemma_classify_deterministic(
    ranked: Seq<(u16, usize)>,
    any_triple_repeat: bool,
    v1: Verdict,
    v2: Verdict,
)
    requires
        v1 == verdict_of(ranked, any_triple_repeat),
        v2 == verdict_of(ranked, any_triple_repeat),
    ensures
        v1 == v2,
{
}

/// What a set of trials comes to: the top-ranked ports, the triple-repeat
/// flag, and the verdict drawn from the two.
pub struct Assessment {
    pub ranked: Vec<(u16, usize)>,
    pub any_triple_repeat: bool,
    pub verdict: Verdict,
}

/// Ranks the ports of a set of trials, checks them for triple repeats, and
/// classifies the outcome.
pub fn assess(results: &Vec<PortCounts>) -> (a: Assessment)
    requires
        forall|i: int| 0 <= i < results@.len() ==> #[trigger] results@[i].wf(),
    ensures
        is_top_ranking(a.ranked@, cross_trial_frequency(trial_views(results@)), TOP_PORTS as nat),
        a.any_triple_repeat == has_triple_repeat(trial_views(results@)),
        a.verdict == verdict_of(a.ranked@, a.any_triple_repeat),
{
    let triple = any_triple_repeat(results);
    let ranked = find_repeated_used_ports(results);
    let verdict = classify(&ranked, triple);
    Assessment { ranked, any_triple_repeat: triple, verdict }
}

} // verus!
