use vstd::prelude::*;

verus! {

/// Number of times `p` occurs in `s`.
pub open spec fn occurrences(s: Seq<u16>, p: u16) -> nat
    decreases s.len(),
{
    if s.len() == 0 {
        0
    } else {
        occurrences(s.drop_last(), p) + if s.last() == p {
            1nat
        } else {
            0nat
        }
    }
}

/// What one trial keeps of the ports it observed: each port seen at least
/// twice, with the number of times it was seen.
pub open spec fn repeated_ports(s: Seq<u16>) -> Map<u16, nat> {
    Map::new(|p: u16| occurrences(s, p) >= 2, |p: u16| occurrences(s, p))
}

/// The ports of a table of `(port, count)` entries.
pub open spec fn ports_of(t: Seq<(u16, usize)>) -> Seq<u16> {
    t.map_values(|e: (u16, usize)| e.0)
}

/// The count that a table holds for `p` (zero where `p` has no entry).
pub open spec fn table_count(t: Seq<(u16, usize)>, p: u16) -> nat
    decreases t.len(),
{
    if t.len() == 0 {
        0
    } else if t.last().0 == p {
        t.last().1 as nat
    } else {
        table_count(t.drop_last(), p)
    }
}

/// The mapping from port to count that a table stands for.
pub open spec fn table_map(t: Seq<(u16, usize)>) -> Map<u16, nat> {
    Map::new(|p: u16| ports_of(t).contains(p), |p: u16| table_count(t, p))
}

/// No port has two entries.
pub open spec fn unique_ports(t: Seq<(u16, usize)>) -> bool {
    forall|i: int, j: int| 0 <= i < j < t.len() ==> t[i].0 != t[j].0
}

proof fn lemma_table_count_at(t: Seq<(u16, usize)>, i: int)
    requires
        unique_ports(t),
        0 <= i < t.len(),
    ensures
        table_count(t, t[i].0) == t[i].1 as nat,
    decreases t.len(),
{
    if i < t.len() - 1 {
        assert(t.drop_last()[i] == t[i]);
        lemma_table_count_at(t.drop_last(), i);
    }
}

/// Every entry's count is what the mapping gives for its port.
pub(crate) proof fn lemma_table_map_entries(t: Seq<(u16, usize)>)
    requires
        unique_ports(t),
    ensures
        forall|i: int|
            0 <= i < t.len() ==> #[trigger] table_map(t).contains_key(t[i].0) && table_map(t)[t[i].0]
                == t[i].1 as nat,
{
    let m = table_map(t);
    assert forall|i: int| 0 <= i < t.len() implies m.contains_key(t[i].0) && m[t[i].0] == t[i].1 as nat by {
        assert(ports_of(t)[i] == t[i].0);
        assert(ports_of(t).contains(t[i].0));
        lemma_table_count_at(t, i);
    }
}

proof fn lemma_table_push(t: Seq<(u16, usize)>, p: u16, c: usize)
    requires
        unique_ports(t),
        !ports_of(t).contains(p),
    ensures
        unique_ports(t.push((p, c))),
        table_map(t.push((p, c))) == table_map(t).insert(p, c as nat),
{
    let u = t.push((p, c));
    assert(u.drop_last() == t);
    assert forall|i: int, j: int| 0 <= i < j < u.len() implies u[i].0 != u[j].0 by {
        if j == t.len() {
            assert(ports_of(t)[i] == t[i].0);
        }
    }
    assert(ports_of(u) == ports_of(t).push(p));
    assert forall|q: u16| #[trigger] ports_of(u).contains(q) <==> (ports_of(t).contains(q) || q == p) by {
        if ports_of(u).contains(q) {
            let k = choose|k: int| 0 <= k < ports_of(u).len() && ports_of(u)[k] == q;
            if k < t.len() {
                assert(ports_of(t)[k] == q);
            }
        }
        if ports_of(t).contains(q) {
            let k = choose|k: int| 0 <= k < ports_of(t).len() && ports_of(t)[k] == q;
            assert(ports_of(u)[k] == q);
        }
        if q == p {
            assert(ports_of(u)[t.len() as int] == q);
        }
    }
    assert(table_map(u) =~= table_map(t).insert(p, c as nat));
}

proof fn lemma_table_count_update(t: Seq<(u16, usize)>, i: int, c: usize, q: u16)
    requires
        unique_ports(t),
        0 <= i < t.len(),
    ensures
        table_count(t.update(i, (t[i].0, c)), q) == if q == t[i].0 {
            c as nat
        } else {
            table_count(t, q)
        },
    decreases t.len(),
{
    let u = t.update(i, (t[i].0, c));
    if i == t.len() - 1 {
        assert(u.drop_last() == t.drop_last());
    } else {
        assert(u.drop_last() == t.drop_last().update(i, (t[i].0, c)));
        assert(t.drop_last()[i] == t[i]);
        lemma_table_count_update(t.drop_last(), i, c, q);
    }
}

proof fn lemma_table_update(t: Seq<(u16, usize)>, i: int, c: usize)
    requires
        unique_ports(t),
        0 <= i < t.len(),
    ensures
        unique_ports(t.update(i, (t[i].0, c))),
        table_map(t.update(i, (t[i].0, c))) == table_map(t).insert(t[i].0, c as nat),
{
    let u = t.update(i, (t[i].0, c));
    assert(ports_of(u) =~= ports_of(t));
    assert forall|q: u16| #[trigger] table_count(u, q) == if q == t[i].0 {
        c as nat
    } else {
        table_count(t, q)
    } by {
        lemma_table_count_update(t, i, c, q);
    }
    assert(ports_of(t)[i] == t[i].0);
    assert(table_map(u) =~= table_map(t).insert(t[i].0, c as nat));
}


proof fn lemma_occurrences_bounded(s: Seq<u16>, p: u16)
    ensures
        occurrences(s, p) <= s.len(),
    decreases s.len(),
{
    if s.len() > 0 {
        lemma_occurrences_bounded(s.drop_last(), p);
    }
}

/// How many times each port occurs in `s`, for the ports that occur at all.
pub open spec fn port_counts(s: Seq<u16>) -> Map<u16, nat> {
    Map::new(|p: u16| occurrences(s, p) >= 1, |p: u16| occurrences(s, p))
}

/// `m` without the entries whose count is exactly one.
pub open spec fn without_singletons(m: Map<u16, nat>) -> Map<u16, nat> {
    Map::new(|p: u16| m.contains_key(p) && m[p] != 1, |p: u16| m[p])
}

/// Delay between two connect attempts of a trial, in milliseconds.
pub const SLEEP_MILLIS: u64 = 1;

/// Number of trials in a full run.
pub const TOTAL_TRIALS: usize = 10;

/// Connect attempts per trial when none are asked for.
pub const DEFAULT_ITERATIONS: usize = 256;

/// A port-to-count table: the ports of one trial with the number of times each
/// was observed.
pub struct PortCounts {
    pub entries: Vec<(u16, usize)>,
}

impl View for PortCounts {
    type V = Map<u16, nat>;

    open spec fn view(&self) -> Map<u16, nat> {
        table_map(self.entries@)
    }
}

impl PortCounts {
    /// At most one entry per port.
    pub open spec fn wf(&self) -> bool {
        unique_ports(self.entries@)
    }

    pub fn new() -> (r: PortCounts)
        ensures
            r.wf(),
            r@ == Map::<u16, nat>::empty(),
    {
        let r = PortCounts { entries: Vec::new() };
        assert(r@ =~= Map::<u16, nat>::empty());
        r
    }

    /// Index of the entry for `p`, if there is one.
    fn find(&self, p: u16) -> (r: Option<usize>)
        ensures
            match r {
                Some(i) => i < self.entries@.len() && self.entries@[i as int].0 == p,
                None => !ports_of(self.entries@).contains(p),
            },
    {
        let mut i: usize = 0;
        while i < self.entries.len()
            invariant
                i <= self.entries@.len(),
                forall|k: int| 0 <= k < i ==> self.entries@[k].0 != p,
            decreases self.entries@.len() - i,
        {
            if self.entries[i].0 == p {
                return Some(i);
            }
            i = i + 1;
        }
        assert forall|k: int| 0 <= k < ports_of(self.entries@).len() implies ports_of(
            self.entries@,
        )[k] != p by {
            assert(ports_of(self.entries@)[k] == self.entries@[k].0);
        }
        None
    }

    /// Number of ports in the table.
    pub fn len(&self) -> (r: usize)
        requires
            self.wf(),
        ensures
            r == self@.len(),
    {
        proof {
            let ps = ports_of(self.entries@);
            assert forall|i: int, j: int| 0 <= i < j < ps.len() implies ps[i] != ps[j] by {
                assert(ps[i] == self.entries@[i].0);
                assert(ps[j] == self.entries@[j].0);
            }
            ps.unique_seq_to_set();
            assert(self@.dom() =~= ps.to_set());
        }
        self.entries.len()
    }

    /// The count held for `p`, zero where the table has no entry for it.
    pub fn count(&self, p: u16) -> (r: usize)
        requires
            self.wf(),
        ensures
            r == if self@.contains_key(p) {
                self@[p]
            } else {
                0
            },
    {
        proof {
            lemma_table_map_entries(self.entries@);
        }
        match self.find(p) {
            Some(i) => self.entries[i].1,
            None => 0,
        }
    }

    /// Counts one more observation of `p`.
    pub fn record(&mut self, p: u16)
        requires
            old(self).wf(),
            !old(self)@.contains_key(p) || old(self)@[p] < usize::MAX,
        ensures
            final(self).wf(),
            final(self)@ == old(self)@.insert(
                p,
                if old(self)@.contains_key(p) {
                    old(self)@[p] + 1
                } else {
                    1
                },
            ),
    {
        proof {
            lemma_table_map_entries(self.entries@);
        }
        match self.find(p) {
            Some(i) => {
                let c = self.entries[i].1;
                proof {
                    assert(ports_of(self.entries@)[i as int] == p);
                    lemma_table_update(self.entries@, i as int, (c + 1) as usize);
                }
                self.entries.set(i, (p, c + 1));
            },
            None => {
                proof {
                    lemma_table_push(self.entries@, p, 1);
                }
                self.entries.push((p, 1));
            },
        }
    }

    /// Drops every port that was observed exactly once.
    pub fn remove_singletons(&mut self)
        requires
            old(self).wf(),
        ensures
            final(self).wf(),
            final(self)@ == without_singletons(old(self)@),
    {
        let ghost t = self.entries@;
        let mut kept: Vec<(u16, usize)> = Vec::new();
        let mut i: usize = 0;
        proof {
            assert(table_map(kept@) =~= without_singletons(table_map(t.take(0))));
        }
        while i < self.entries.len()
            invariant
                t == self.entries@,
                unique_ports(t),
                i <= t.len(),
                unique_ports(kept@),
                table_map(kept@) == without_singletons(table_map(t.take(i as int))),
            decreases t.len() - i,
        {
            let e = self.entries[i];
            proof {
                assert(t.take(i + 1) == t.take(i as int).push(e));
                assert forall|k: int| 0 <= k < ports_of(t.take(i as int)).len() implies ports_of(
                    t.take(i as int),
                )[k] != e.0 by {
                    assert(ports_of(t.take(i as int))[k] == t[k].0);
                }
                lemma_table_push(t.take(i as int), e.0, e.1);
            }
            if e.1 != 1 {
                proof {
                    if ports_of(kept@).contains(e.0) {
                        assert(table_map(kept@).contains_key(e.0));
                    }
                    lemma_table_push(kept@, e.0, e.1);
                }
                kept.push(e);
                proof {
                    assert(table_map(kept@) =~= without_singletons(table_map(t.take(i + 1))));
                }
            } else {
                proof {
                    assert(table_map(kept@) =~= without_singletons(table_map(t.take(i + 1))));
                }
            }
            i = i + 1;
        }
        proof {
            assert(t.take(t.len() as int) == t);
        }
        self.entries = kept;
    }
}

/// One sampling pass: the ports observed over a number of connect attempts.
pub struct Trial {
    /// Number of connect attempts in the pass.
    pub iterations: usize,
    /// Delay between two attempts, in milliseconds.
    pub sleep_millis: u64,
    /// The repeated ports of the pass, once it has run.
    pub results: PortCounts,
}

impl Trial {
    pub fn new(iterations: usize) -> (r: Trial)
        ensures
            r.iterations == iterations,
            r.sleep_millis == SLEEP_MILLIS,
            r.results.wf(),
            r.results@ == Map::<u16, nat>::empty(),
    {
        Trial { iterations, sleep_millis: SLEEP_MILLIS, results: PortCounts::new() }
    }

    /// Tallies the ports observed by the attempts of this pass, in the order
    /// they were observed, and keeps those seen at least twice.
    pub fn run_test(&mut self, ports: &Vec<u16>)
        ensures
            final(self).iterations == old(self).iterations,
            final(self).sleep_millis == old(self).sleep_millis,
            final(self).results.wf(),
            final(self).results@ == repeated_ports(ports@),
            forall|p: u16| #[trigger]
                final(self).results@.contains_key(p) ==> final(self).results@[p] >= 2,
    {
        let mut tally = PortCounts::new();
        let mut i: usize = 0;
        proof {
            assert(tally@ =~= port_counts(ports@.take(0)));
        }
        while i < ports.len()
            invariant
                i <= ports@.len(),
                tally.wf(),
                tally@ == port_counts(ports@.take(i as int)),
            decreases ports@.len() - i,
        {
            let p = ports[i];
            proof {
                let s = ports@.take(i + 1);
                assert(s.drop_last() == ports@.take(i as int));
                assert(s.last() == p);
                lemma_occurrences_bounded(ports@.take(i as int), p);
            }
            tally.record(p);
            proof {
                assert(tally@ =~= port_counts(ports@.take(i + 1)));
            }
            i = i + 1;
        }
        tally.remove_singletons();
        proof {
            assert(ports@.take(ports@.len() as int) == ports@);
            assert(tally@ =~= repeated_ports(ports@));
        }
        self.results = tally;
    }
}

} // verus!
