use vstd::prelude::*;
use crate::tally::{PortCounts, ports_of, table_map, unique_ports, lemma_table_map_entries};

verus! {

/// Number of ranked ports that a summary keeps.
pub const TOP_PORTS: usize = 3;

/// The port-to-count mappings of a sequence of trials.
pub open spec fn trial_views(rs: Seq<PortCounts>) -> Seq<Map<u16, nat>> {
    rs.map_values(|r: PortCounts| r@)
}

/// Number of trials whose mapping holds `p`.
pub open spec fn trials_with(rs: Seq<Map<u16, nat>>, p: u16) -> nat
    decreases rs.len(),
{
    if rs.len() == 0 {
        0
    } else {
        trials_with(rs.drop_last(), p) + if rs.last().contains_key(p) {
            1nat
        } else {
            0nat
        }
    }
}

/// For each port held by some trial, the number of trials that hold it.
pub open spec fn cross_trial_frequency(rs: Seq<Map<u16, nat>>) -> Map<u16, nat> {
    Map::new(|p: u16| trials_with(rs, p) >= 1, |p: u16| trials_with(rs, p))
}

/// Port `pa` with count `ca` ranks ahead of port `pb` with count `cb`: a higher
/// count first, and between equal counts the lower port.
pub open spec fn ranks_before(pa: u16, ca: nat, pb: u16, cb: nat) -> bool {
    ca > cb || (ca == cb && pa < pb)
}

/// Some entry of `r` is for port `p`.
pub open spec fn ranked(r: Seq<(u16, usize)>, p: u16) -> bool {
    exists|i: int| 0 <= i < r.len() && r[i].0 == p
}

/// `r` lists the first `k` ports of `f` (or all of them, where `f` has fewer)
/// with their counts, best ranked first.
pub open spec fn is_top_ranking(r: Seq<(u16, usize)>, f: Map<u16, nat>, k: nat) -> bool {
    &&& r.len() <= k
    &&& forall|i: int|
        0 <= i < r.len() ==> #[trigger] f.contains_key(r[i].0) && f[r[i].0] == r[i].1 as nat
    &&& forall|i: int, j: int|
        0 <= i < j < r.len() ==> ranks_before(r[i].0, r[i].1 as nat, r[j].0, r[j].1 as nat)
    &&& forall|p: u16|
        #[trigger] f.contains_key(p) ==> ranked(r, p) || (r.len() == k && ranks_before(
            r.last().0,
            r.last().1 as nat,
            p,
            f[p],
        ))
}

proof fn lemma_trials_with_bounded(rs: Seq<Map<u16, nat>>, p: u16)
    ensures
        trials_with(rs, p) <= rs.len(),
    decreases rs.len(),
{
    if rs.len() > 0 {
        lemma_trials_with_bounded(rs.drop_last(), p);
    }
}

/// The tally of a trial prefix, with one more trial counted for each port in `s`.
spec fn tally_with(m: Map<u16, nat>, s: Seq<u16>) -> Map<u16, nat> {
    Map::new(
        |p: u16| m.contains_key(p) || s.contains(p),
        |p: u16|
            (if m.contains_key(p) {
                m[p]
            } else {
                0nat
            }) + if s.contains(p) {
                1nat
            } else {
                0nat
            },
    )
}

/// Counts, for each port held by some trial, the number of trials that hold it.
pub fn cross_trial_frequency_of(results: &Vec<PortCounts>) -> (r: PortCounts)
    requires
        forall|i: int| 0 <= i < results@.len() ==> #[trigger] results@[i].wf(),
    ensures
        r.wf(),
        r@ == cross_trial_frequency(trial_views(results@)),
{
    let ghost views = trial_views(results@);
    let mut freq = PortCounts::new();
    let mut i: usize = 0;
    proof {
        assert(freq@ =~= cross_trial_frequency(views.take(0)));
    }
    while i < results.len()
        invariant
            views == trial_views(results@),
            forall|i: int| 0 <= i < results@.len() ==> #[trigger] results@[i].wf(),
            i <= results@.len(),
            freq.wf(),
            freq@ == cross_trial_frequency(views.take(i as int)),
        decreases results@.len() - i,
    {
        let entries = &results[i].entries;
        let n = results.len();
        let ghost pre = cross_trial_frequency(views.take(i as int));
        let mut j: usize = 0;
        proof {
            assert(results@[i as int].wf());
            assert(ports_of(entries@.take(0)) =~= Seq::<u16>::empty());
            assert(freq@ =~= tally_with(pre, ports_of(entries@.take(0))));
        }
        while j < entries.len()
            invariant
                entries == results@[i as int].entries,
                n == results@.len(),
                views == trial_views(results@),
                unique_ports(entries@),
                i < results@.len(),
                j <= entries@.len(),
                pre == cross_trial_frequency(views.take(i as int)),
                freq.wf(),
                freq@ == tally_with(pre, ports_of(entries@.take(j as int))),
            decreases entries@.len() - j,
        {
            let p = entries[j].0;
            proof {
                let s = ports_of(entries@.take(j as int));
                assert(ports_of(entries@.take(j + 1)) =~= s.push(p));
                assert forall|k: int| 0 <= k < s.len() implies s[k] != p by {
                    assert(s[k] == entries@[k].0);
                }
                lemma_trials_with_bounded(views.take(i as int), p);
                assert(!s.contains(p));
                assert(views.take(i as int).len() == i);
                if freq@.contains_key(p) {
                    assert(freq@[p] == pre[p]);
                    assert(pre[p] == trials_with(views.take(i as int), p));
                    assert(i < results@.len());
                }
            }
            freq.record(p);
            proof {
                let s = ports_of(entries@.take(j as int));
                let s2 = ports_of(entries@.take(j + 1));
                assert forall|q: u16| #[trigger] s2.contains(q) <==> (s.contains(q) || q == p) by {
                    if s2.contains(q) {
                        let k = choose|k: int| 0 <= k < s2.len() && s2[k] == q;
                        if k < s.len() {
                            assert(s[k] == q);
                        }
                    }
                    if s.contains(q) {
                        let k = choose|k: int| 0 <= k < s.len() && s[k] == q;
                        assert(s2[k] == q);
                    }
                    if q == p {
                        assert(s2[j as int] == q);
                    }
                }
                assert(freq@ =~= tally_with(pre, s2));
            }
            j = j + 1;
        }
        proof {
            let v = views.take(i + 1);
            assert(v.drop_last() == views.take(i as int));
            assert(v.last() == results@[i as int]@);
            assert(entries@.take(entries@.len() as int) == entries@);
            assert(freq@ =~= cross_trial_frequency(v));
        }
        i = i + 1;
    }
    proof {
        assert(views.take(results@.len() as int) == views);
    }
    freq
}


/// `(pa, ca)` ranks ahead of `(pb, cb)`, as `ranks_before` says.
fn ranks_ahead(pa: u16, ca: usize, pb: u16, cb: usize) -> (r: bool)
    ensures
        r == ranks_before(pa, ca as nat, pb, cb as nat),
{
    ca > cb || (ca == cb && pa < pb)
}

/// The first `k` entries of a port table, best ranked first.
fn top_ranked(freq: &PortCounts, k: usize) -> (r: Vec<(u16, usize)>)
    requires
        freq.wf(),
        k >= 1,
    ensures
        is_top_ranking(r@, freq@, k as nat),
{
    let ghost f = freq@;
    let t = &freq.entries;
    proof {
        lemma_table_map_entries(t@);
    }
    let mut r: Vec<(u16, usize)> = Vec::new();
    let mut done = false;
    while r.len() < k && !done
        invariant
            t == freq.entries,
            f == table_map(t@),
            unique_ports(t@),
            forall|i: int|
                0 <= i < t@.len() ==> #[trigger] f.contains_key(t@[i].0) && f[t@[i].0] == t@[i].1 as nat,
            r@.len() <= k,
            forall|i: int|
                0 <= i < r@.len() ==> #[trigger] f.contains_key(r@[i].0) && f[r@[i].0] == r@[i].1 as nat,
            forall|i: int, j: int|
                0 <= i < j < r@.len() ==> ranks_before(
                    r@[i].0,
                    r@[i].1 as nat,
                    r@[j].0,
                    r@[j].1 as nat,
                ),
            r@.len() > 0 ==> forall|p: u16|
                #[trigger] f.contains_key(p) ==> ranked(r@, p) || ranks_before(
                    r@.last().0,
                    r@.last().1 as nat,
                    p,
                    f[p],
                ),
            done ==> forall|p: u16| #[trigger] f.contains_key(p) ==> ranked(r@, p),
        decreases k - r@.len() + if done {
            0int
        } else {
            1int
        },
    {
        let mut best: Option<usize> = None;
        let mut j: usize = 0;
        while j < t.len()
            invariant
                j <= t@.len(),
                unique_ports(t@),
                match best {
                    Some(b) => b < j && (r@.len() == 0 || ranks_before(
                        r@.last().0,
                        r@.last().1 as nat,
                        t@[b as int].0,
                        t@[b as int].1 as nat,
                    )) && forall|m: int|
                        0 <= m < j && (r@.len() == 0 || ranks_before(
                            r@.last().0,
                            r@.last().1 as nat,
                            t@[m].0,
                            t@[m].1 as nat,
                        )) ==> m == b || ranks_before(
                            t@[b as int].0,
                            t@[b as int].1 as nat,
                            t@[m].0,
                            t@[m].1 as nat,
                        ),
                    None => forall|m: int|
                        0 <= m < j ==> !(r@.len() == 0 || ranks_before(
                            r@.last().0,
                            r@.last().1 as nat,
                            t@[m].0,
                            t@[m].1 as nat,
                        )),
                },
            decreases t@.len() - j,
        {
            let e = t[j];
            let candidate = r.len() == 0 || ranks_ahead(r[r.len() - 1].0, r[r.len() - 1].1, e.0, e.1);
            if candidate {
                match best {
                    Some(b) => {
                        if ranks_ahead(e.0, e.1, t[b].0, t[b].1) {
                            best = Some(j);
                        } else {
                            assert(t@[b as int].0 != e.0);
                        }
                    },
                    None => {
                        best = Some(j);
                    },
                }
            }
            j = j + 1;
        }
        match best {
            Some(b) => {
                let e = t[b];
                let ghost old_r = r@;
                r.push(e);
                proof {
                    assert(r@.last() == e);
                    assert(f.contains_key(t@[b as int].0));
                    assert forall|i: int| 0 <= i < r@.len() implies #[trigger] f.contains_key(r@[i].0)
                        && f[r@[i].0] == r@[i].1 as nat by {
                        if i < old_r.len() {
                            assert(r@[i] == old_r[i]);
                        }
                    }
                    assert forall|i: int, j: int| 0 <= i < j < r@.len() implies ranks_before(
                        r@[i].0,
                        r@[i].1 as nat,
                        r@[j].0,
                        r@[j].1 as nat,
                    ) by {
                        if j == old_r.len() && i < old_r.len() - 1 {
                            assert(ranks_before(
                                old_r[i].0,
                                old_r[i].1 as nat,
                                old_r.last().0,
                                old_r.last().1 as nat,
                            ));
                        }
                    }
                    assert forall|p: u16| #[trigger] f.contains_key(p) implies ranked(r@, p) || ranks_before(
                        e.0,
                        e.1 as nat,
                        p,
                        f[p],
                    ) by {
                        if ranked(old_r, p) {
                            let i = choose|i: int| 0 <= i < old_r.len() && old_r[i].0 == p;
                            assert(r@[i].0 == p);
                        } else {
                            assert(ports_of(t@).contains(p));
                            let m = choose|m: int| 0 <= m < ports_of(t@).len() && ports_of(t@)[m] == p;
                            assert(ports_of(t@)[m] == t@[m].0);
                            if m == b {
                                assert(r@[old_r.len() as int].0 == p);
                            }
                        }
                    }
                }
            },
            None => {
                proof {
                    assert forall|p: u16| #[trigger] f.contains_key(p) implies ranked(r@, p) by {
                        assert(ports_of(t@).contains(p));
                        let m = choose|m: int| 0 <= m < ports_of(t@).len() && ports_of(t@)[m] == p;
                        assert(ports_of(t@)[m] == t@[m].0);
                    }
                }
                done = true;
            },
        }
    }
    r
}

/// The ports that repeated in the most trials, at most `TOP_PORTS` of them, with
/// the number of trials in which each repeated: a higher count first, and
/// between equal counts the lower port first.
pub fn find_repeated_used_ports(results: &Vec<PortCounts>) -> (r: Vec<(u16, usize)>)
    requires
        forall|i: int| 0 <= i < results@.len() ==> #[trigger] results@[i].wf(),
    ensures
        is_top_ranking(r@, cross_trial_frequency(trial_views(results@)), TOP_PORTS as nat),
{
    let freq = cross_trial_frequency_of(results);
    top_ranked(&freq, TOP_PORTS)
}


/// Count within a single trial from which a port counts as a triple repeat.
pub const TRIPLE_REPEAT: usize = 3;

/// Some trial saw some port at least `TRIPLE_REPEAT` times.
pub open spec fn has_triple_repeat(rs: Seq<Map<u16, nat>>) -> bool {
    exists|i: int, p: u16|
        0 <= i < rs.len() && #[trigger] rs[i].contains_key(p) && rs[i][p] >= TRIPLE_REPEAT
}

/// Whether some trial saw some port at least `TRIPLE_REPEAT` times.
pub fn any_triple_repeat(results: &Vec<PortCounts>) -> (r: bool)
    requires
        forall|i: int| 0 <= i < results@.len() ==> #[trigger] results@[i].wf(),
    ensures
        r == has_triple_repeat(trial_views(results@)),
{
    let ghost views = trial_views(results@);
    let mut i: usize = 0;
    while i < results.len()
        invariant
            views == trial_views(results@),
            forall|i: int| 0 <= i < results@.len() ==> #[trigger] results@[i].wf(),
            i <= results@.len(),
            forall|m: int, p: u16|
                0 <= m < i && #[trigger] views[m].contains_key(p) ==> views[m][p] < TRIPLE_REPEAT,
        decreases results@.len() - i,
    {
        let entries = &results[i].entries;
        proof {
            assert(results@[i as int].wf());
            lemma_table_map_entries(entries@);
        }
        let mut j: usize = 0;
        while j < entries.len()
            invariant
                views == trial_views(results@),
                i < results@.len(),
                entries == results@[i as int].entries,
                forall|k: int|
                    0 <= k < entries@.len() ==> #[trigger] table_map(entries@).contains_key(
                        entries@[k].0,
                    ) && table_map(entries@)[entries@[k].0] == entries@[k].1 as nat,
                j <= entries@.len(),
                forall|k: int| 0 <= k < j ==> #[trigger] entries@[k].1 < TRIPLE_REPEAT,
            decreases entries@.len() - j,
        {
            if entries[j].1 >= TRIPLE_REPEAT {
                proof {
                    let p = entries@[j as int].0;
                    assert(views[i as int] == results@[i as int]@);
                    assert(views[i as int].contains_key(p));
                }
                return true;
            }
            j = j + 1;
        }
        proof {
            assert forall|p: u16| #[trigger] views[i as int].contains_key(p) implies views[i as int][p]
                < TRIPLE_REPEAT by {
                assert(views[i as int] == results@[i as int]@);
                assert(ports_of(entries@).contains(p));
                let k = choose|k: int|
                    0 <= k < ports_of(entries@).len() && ports_of(entries@)[k] == p;
                assert(ports_of(entries@)[k] == entries@[k].0);
                assert(entries@[k].1 < TRIPLE_REPEAT);
            }
        }
        i = i + 1;
    }
    false
}


proof fn lemma_table_map_finite(t: Seq<(u16, usize)>)
    ensures
        table_map(t).dom().finite(),
{
    broadcast use vstd::seq_lib::seq_to_set_is_finite;

    assert(table_map(t).dom() =~= ports_of(t).to_set());
}

proof fn lemma_cross_trial_frequency_finite(rs: Seq<Map<u16, nat>>)
    requires
        forall|i: int| 0 <= i < rs.len() ==> #[trigger] rs[i].dom().finite(),
    ensures
        cross_trial_frequency(rs).dom().finite(),
    decreases rs.len(),
{
    if rs.len() == 0 {
        assert(cross_trial_frequency(rs).dom() =~= Set::<u16>::empty());
    } else {
        let pre = rs.drop_last();
        assert forall|i: int| 0 <= i < pre.len() implies #[trigger] pre[i].dom().finite() by {
            assert(pre[i] == rs[i]);
        }
        lemma_cross_trial_frequency_finite(pre);
        assert(rs[rs.len() - 1].dom().finite());
        assert(cross_trial_frequency(rs).dom() =~= cross_trial_frequency(pre).dom().union(
            rs.last().dom(),
        ));
    }
}

/// A ranking of the ports of a set of trials is ordered by count descending
/// and then by port ascending, holds at most `TOP_PORTS` entries, and holds no
/// more entries than there are distinct ports across the trials.
pub proof fn lemma_ranked_ports_bounded(results: Seq<PortCounts>, r: Seq<(u16, usize)>)
    requires
        forall|i: int| 0 <= i < results.len() ==> #[trigger] results[i].wf(),
        is_top_ranking(r, cross_trial_frequency(trial_views(results)), TOP_PORTS as nat),
    ensures
        forall|i: int, j: int|
            0 <= i < j < r.len() ==> r[i].1 > r[j].1 || (r[i].1 == r[j].1 && r[i].0 < r[j].0),
        r.len() <= TOP_PORTS,
        r.len() <= cross_trial_frequency(trial_views(results)).dom().len(),
{
    let views = trial_views(results);
    let f = cross_trial_frequency(views);
    assert forall|i: int| 0 <= i < views.len() implies #[trigger] views[i].dom().finite() by {
        lemma_table_map_finite(results[i].entries@);
    }
    lemma_cross_trial_frequency_finite(views);
    let ps = ports_of(r);
    assert forall|i: int, j: int| 0 <= i < ps.len() && 0 <= j < ps.len() && i != j implies ps[i]
        != ps[j] by {
        assert(ps[i] == r[i].0);
        assert(ps[j] == r[j].0);
        assert(f.contains_key(r[i].0));
        assert(f.contains_key(r[j].0));
        if i < j {
            assert(ranks_before(r[i].0, r[i].1 as nat, r[j].0, r[j].1 as nat));
        } else {
            assert(ranks_before(r[j].0, r[j].1 as nat, r[i].0, r[i].1 as nat));
        }
    }
    assert forall|i: int, j: int| 0 <= i < j < r.len() implies r[i].1 > r[j].1 || (r[i].1
        == r[j].1 && r[i].0 < r[j].0) by {
        assert(ranks_before(r[i].0, r[i].1 as nat, r[j].0, r[j].1 as nat));
    }
    assert(ps.no_duplicates());
    ps.unique_seq_to_set();
    assert forall|p: u16| ps.to_set().contains(p) implies f.dom().contains(p) by {
        let k = choose|k: int| 0 <= k < ps.len() && ps[k] == p;
        assert(f.contains_key(r[k].0));
    }
    vstd::set_lib::lemma_len_subset(ps.to_set(), f.dom());
}


/// Entry `i` of a top ranking is the same in any two top rankings of `f`,
/// given that the entries before it are.
proof fn lemma_top_ranking_entry(
    r1: Seq<(u16, usize)>,
    r2: Seq<(u16, usize)>,
    f: Map<u16, nat>,
    k: nat,
    i: int,
)
    requires
        is_top_ranking(r1, f, k),
        is_top_ranking(r2, f, k),
        0 <= i < r1.len(),
        forall|m: int| 0 <= m < i ==> r1[m] == r2[m],
    ensures
        i < r2.len(),
        r1[i] == r2[i],
{
    let a = r1[i];
    assert(f.contains_key(a.0));
    if i >= r2.len() {
        if ranked(r2, a.0) {
            let m = choose|m: int| 0 <= m < r2.len() && r2[m].0 == a.0;
            assert(r1[m] == r2[m]);
            assert(ranks_before(r1[m].0, r1[m].1 as nat, a.0, a.1 as nat));
        }
    } else {
        let b = r2[i];
        assert(f.contains_key(b.0));
        if a != b {
            if ranks_before(a.0, a.1 as nat, b.0, b.1 as nat) {
                if ranked(r2, a.0) {
                    let m = choose|m: int| 0 <= m < r2.len() && r2[m].0 == a.0;
                    if m < i {
                        assert(r1[m] == r2[m]);
                        assert(ranks_before(r1[m].0, r1[m].1 as nat, a.0, a.1 as nat));
                    } else if m > i {
                        assert(ranks_before(b.0, b.1 as nat, r2[m].0, r2[m].1 as nat));
                    }
                } else {
                    let l = r2.len() - 1;
                    if l > i {
                        assert(ranks_before(b.0, b.1 as nat, r2[l].0, r2[l].1 as nat));
                    }
                }
            } else {
                if ranked(r1, b.0) {
                    let m = choose|m: int| 0 <= m < r1.len() && r1[m].0 == b.0;
                    if m < i {
                        assert(r1[m] == r2[m]);
                        assert(ranks_before(r2[m].0, r2[m].1 as nat, b.0, b.1 as nat));
                    } else if m > i {
                        assert(ranks_before(a.0, a.1 as nat, r1[m].0, r1[m].1 as nat));
                    }
                } else {
                    let l = r1.len() - 1;
                    if l > i {
                        assert(ranks_before(a.0, a.1 as nat, r1[l].0, r1[l].1 as nat));
                    }
                }
            }
        }
    }
}

/// Any two top rankings of `f` agree on their first `i` entries.
proof fn lemma_top_ranking_prefix(
    r1: Seq<(u16, usize)>,
    r2: Seq<(u16, usize)>,
    f: Map<u16, nat>,
    k: nat,
    i: int,
)
    requires
        is_top_ranking(r1, f, k),
        is_top_ranking(r2, f, k),
        0 <= i <= r1.len(),
    ensures
        i <= r2.len(),
        forall|m: int| 0 <= m < i ==> r1[m] == r2[m],
    decreases i,
{
    if i > 0 {
        lemma_top_ranking_prefix(r1, r2, f, k, i - 1);
        lemma_top_ranking_entry(r1, r2, f, k, i - 1);
    }
}

/// A map has exactly one top ranking of a given size.
pub proof fn lemma_top_ranking_unique(
    r1: Seq<(u16, usize)>,
    r2: Seq<(u16, usize)>,
    f: Map<u16, nat>,
    k: nat,
)
    requires
        is_top_ranking(r1, f, k),
        is_top_ranking(r2, f, k),
    ensures
        r1 == r2,
{
    lemma_top_ranking_prefix(r1, r2, f, k, r1.len() as int);
    if r2.len() > r1.len() {
        lemma_top_ranking_entry(r2, r1, f, k, r1.len() as int);
    }
    assert(r1 =~= r2);
}

} // verus!
