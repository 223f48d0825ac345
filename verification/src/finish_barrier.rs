use std::collections::HashSet;
use vstd::prelude::*;

verus! {

broadcast use vstd::std_specs::hash::group_hash_axioms;

/// The partitions among the first `n` other than `rank`.
pub open spec fn other_partitions(rank: u32, n: nat) -> Set<u32> {
    Set::new(|t: u32| t < n && t != rank)
}

/// There are `n - 1` partitions other than `rank` among the first `n` when `rank` is one of
/// them, and `n` otherwise.
proof fn lemma_other_partitions_len(rank: u32, n: nat)
    requires
        n <= u32::MAX + 1,
    ensures
        other_partitions(rank, n).finite(),
        other_partitions(rank, n).len() == if rank < n {
            n - 1
        } else {
            n as int
        },
    decreases n,
{
    if n == 0 {
        assert(other_partitions(rank, n) =~= Set::<u32>::empty());
    } else {
        let m = (n - 1) as nat;
        lemma_other_partitions_len(rank, m);
        if m == rank {
            assert(other_partitions(rank, n) =~= other_partitions(rank, m));
        } else {
            assert(other_partitions(rank, n) =~= other_partitions(rank, m).insert(m as u32));
        }
    }
}

/// The partitions to which a partition announces that it has finished: every partition but
/// itself, in ascending order.
pub fn finish_targets(rank: u32, num_partitions: u32) -> (r: Vec<u32>)
    ensures
        r@.to_set() == other_partitions(rank, num_partitions as nat),
        forall|a: int, b: int| 0 <= a < b < r@.len() ==> r@[a] < r@[b],
        r@.len() == if rank < num_partitions {
            num_partitions - 1
        } else {
            num_partitions as int
        },
{
    let mut r: Vec<u32> = Vec::new();
    let mut t: u32 = 0;
    while t < num_partitions
        invariant
            t <= num_partitions,
            r@.to_set() == other_partitions(rank, t as nat),
            forall|a: int, b: int| 0 <= a < b < r@.len() ==> r@[a] < r@[b],
            forall|a: int| 0 <= a < r@.len() ==> r@[a] < t,
            r@.len() == if rank < t {
                t - 1
            } else {
                t as int
            },
        decreases num_partitions - t,
    {
        let ghost before = r@;
        if t != rank {
            r.push(t);
            proof {
                assert(r@ == before.push(t));
                assert(r@.to_set() =~= other_partitions(rank, (t + 1) as nat)) by {
                    assert forall|x: u32| r@.to_set().contains(x) implies other_partitions(
                        rank,
                        (t + 1) as nat,
                    ).contains(x) by {
                        let w = choose|w: int| 0 <= w < r@.len() && r@[w] == x;
                        if w < before.len() {
                            assert(before.to_set().contains(x));
                        }
                    }
                    assert forall|x: u32| other_partitions(rank, (t + 1) as nat).contains(x) implies r@.to_set().contains(
                        x,
                    ) by {
                        if x < t {
                            assert(other_partitions(rank, t as nat).contains(x));
                            let w = choose|w: int| 0 <= w < before.len() && before[w] == x;
                            assert(r@[w] == x);
                        } else {
                            assert(r@[before.len() as int] == x);
                        }
                    }
                }
            }
        } else {
            proof {
                assert(other_partitions(rank, (t + 1) as nat) =~= other_partitions(rank, t as nat));
            }
        }
        t = t + 1;
    }
    r
}

/// What a partition knows, at the end of an iteration, of the others: which of them have
/// announced that they have finished, among `num_partitions` partitions in all.
#[derive(Debug)]
pub struct FinishBarrier {
    pub rank: u32,
    pub num_partitions: u32,
    pub finished: HashSet<u32>,
}

impl FinishBarrier {
    /// No partition has announced its finish yet.
    pub fn new(rank: u32, num_partitions: u32) -> (r: Self)
        requires
            1 <= num_partitions,
        ensures
            r.rank == rank,
            r.num_partitions == num_partitions,
            r.finished@ == Set::<u32>::empty(),
    {
        FinishBarrier { rank, num_partitions, finished: HashSet::new() }
    }

    /// Partition `from` has announced that it has finished.
    pub fn record_finish(&mut self, from: u32)
        ensures
            final(self).finished@ == old(self).finished@.insert(from),
            final(self).rank == old(self).rank,
            final(self).num_partitions == old(self).num_partitions,
    {
        self.finished.insert(from);
    }

    /// Whether as many partitions have announced their finish as there are other partitions.
    pub fn is_complete(&self) -> (r: bool)
        requires
            1 <= self.num_partitions,
        ensures
            r == (self.finished@.len() >= self.num_partitions - 1),
    {
        self.finished.len() >= (self.num_partitions - 1) as usize
    }
}

/// When only other partitions announce their finish, the count of announcements reaches the
/// number of other partitions exactly when every other partition has announced its finish.
pub proof fn lemma_complete_iff_all_others_finished(finished: Set<u32>, rank: u32, num_partitions: u32)
    requires
        rank < num_partitions,
        finished.subset_of(other_partitions(rank, num_partitions as nat)),
    ensures
        finished.finite(),
        (finished.len() >= num_partitions - 1) <==> finished == other_partitions(
            rank,
            num_partitions as nat,
        ),
{
    let others = other_partitions(rank, num_partitions as nat);
    lemma_other_partitions_len(rank, num_partitions as nat);
    vstd::set_lib::lemma_len_subset(finished, others);
    if finished.len() >= num_partitions - 1 {
        vstd::set_lib::lemma_subset_equality(finished, others);
    }
}

/// The pairs of a partition among the first `num_partitions` and a collector, the collectors
/// being numbered `num_partitions` and up.
pub open spec fn partition_collector_pairs(num_partitions: nat, num_collectors: nat) -> Set<(u32, u32)> {
    Set::new(
        |x: (u32, u32)|
            x.0 < num_partitions && num_partitions <= x.1 && x.1 < num_partitions + num_collectors,
    )
}

/// The pairs of a partition among the first `k` and the collector `c`.
spec fn column(k: nat, c: u32) -> Set<(u32, u32)> {
    Set::new(|x: (u32, u32)| x.0 < k && x.1 == c)
}

proof fn lemma_column_len(k: nat, c: u32)
    requires
        k <= u32::MAX + 1,
    ensures
        column(k, c).finite(),
        column(k, c).len() == k,
    decreases k,
{
    if k == 0 {
        assert(column(k, c) =~= Set::<(u32, u32)>::empty());
    } else {
        lemma_column_len((k - 1) as nat, c);
        assert(column(k, c) =~= column((k - 1) as nat, c).insert(((k - 1) as u32, c)));
    }
}

proof fn lemma_pairs_len(num_partitions: nat, num_collectors: nat)
    requires
        num_partitions + num_collectors <= u32::MAX + 1,
    ensures
        partition_collector_pairs(num_partitions, num_collectors).finite(),
        partition_collector_pairs(num_partitions, num_collectors).len() == num_partitions * num_collectors,
    decreases num_collectors,
{
    let p = num_partitions;
    if num_collectors == 0 {
        assert(partition_collector_pairs(p, 0) =~= Set::<(u32, u32)>::empty());
    } else {
        let m = (num_collectors - 1) as nat;
        let c = (p + m) as u32;
        lemma_pairs_len(p, m);
        lemma_column_len(p, c);
        let rest = partition_collector_pairs(p, m);
        assert(partition_collector_pairs(p, num_collectors) =~= rest + column(p, c));
        assert(rest.disjoint(column(p, c)));
        vstd::set_lib::lemma_set_disjoint_lens(rest, column(p, c));
        assert(p * m + p == p * num_collectors) by (nonlinear_arith)
            requires
                m + 1 == num_collectors,
        ;
    }
}

/// The key under which the pair of a partition and a collector is kept: the partition in the
/// upper half of the 64 bits, the collector in the lower.
pub open spec fn pair_key(x: (u32, u32)) -> u64 {
    (x.0 * 0x1_0000_0000 + x.1) as u64
}

/// Different pairs have different keys.
proof fn lemma_pair_key_injective(a: (u32, u32), b: (u32, u32))
    ensures
        pair_key(a) == pair_key(b) ==> a == b,
{
    let (a0, a1) = a;
    let (b0, b1) = b;
    if pair_key(a) == pair_key(b) {
        assert(a0 * 0x1_0000_0000 + a1 == b0 * 0x1_0000_0000 + b1);
        assert(a0 == b0 && a1 == b1) by (nonlinear_arith)
            requires
                a0 * 0x1_0000_0000 + a1 == b0 * 0x1_0000_0000 + b1,
                0 <= a1 < 0x1_0000_0000,
                0 <= b1 < 0x1_0000_0000,
                0 <= a0,
                0 <= b0,
        ;
    }
}

/// What a collector of the mapping scoring knows, at the end, of the watermarks: from which
/// pairs of partition and collector the last watermark has come, among `num_partitions`
/// partitions and `num_collectors` collectors. The pairs are kept by their keys.
pub struct WatermarkBarrier {
    pub num_partitions: u32,
    pub num_collectors: u32,
    pub finished: HashSet<u64>,
    pub pairs: Ghost<Set<(u32, u32)>>,
}

impl WatermarkBarrier {
    /// The keys are those of the pairs.
    pub open spec fn wf(&self) -> bool {
        &&& self.pairs@.finite()
        &&& self.finished@ == self.pairs@.map(|x: (u32, u32)| pair_key(x))
    }

    /// No last watermark has come yet.
    pub fn new(num_partitions: u32, num_collectors: u32) -> (r: Self)
        ensures
            r.wf(),
            r.num_partitions == num_partitions,
            r.num_collectors == num_collectors,
            r.pairs@ == Set::<(u32, u32)>::empty(),
    {
        let r = WatermarkBarrier {
            num_partitions,
            num_collectors,
            finished: HashSet::new(),
            pairs: Ghost(Set::empty()),
        };
        proof {
            assert(r.finished@ =~= r.pairs@.map(|x: (u32, u32)| pair_key(x)));
        }
        r
    }

    /// The last watermark of partition `origin` has come through collector `collector`.
    pub fn record_last(&mut self, origin: u32, collector: u32)
        requires
            old(self).wf(),
        ensures
            final(self).wf(),
            final(self).pairs@ == old(self).pairs@.insert((origin, collector)),
            final(self).num_partitions == old(self).num_partitions,
            final(self).num_collectors == old(self).num_collectors,
    {
        let key: u64 = (origin as u64) * 0x1_0000_0000 + (collector as u64);
        self.finished.insert(key);
        let ghost old_pairs = self.pairs@;
        self.pairs = Ghost(old_pairs.insert((origin, collector)));
        proof {
            let f = |x: (u32, u32)| pair_key(x);
            assert(key == pair_key((origin, collector)));
            assert(self.finished@ =~= self.pairs@.map(f)) by {
                assert forall|k: u64| self.finished@.contains(k) implies self.pairs@.map(f).contains(k) by {
                    if k != key {
                        let x = choose|x: (u32, u32)| old_pairs.contains(x) && f(x) == k;
                        assert(self.pairs@.contains(x));
                    } else {
                        assert(self.pairs@.contains((origin, collector)));
                    }
                }
                assert forall|k: u64| self.pairs@.map(f).contains(k) implies self.finished@.contains(k) by {
                    let x = choose|x: (u32, u32)| self.pairs@.contains(x) && f(x) == k;
                    if x != (origin, collector) {
                        assert(old_pairs.contains(x));
                        assert(old_pairs.map(f).contains(k));
                    }
                }
            }
        }
    }

    /// Whether as many last watermarks have come as there are pairs of partition and collector.
    pub fn is_complete(&self) -> (r: bool)
        requires
            self.wf(),
            self.num_partitions * self.num_collectors <= usize::MAX,
        ensures
            r == (self.pairs@.len() == self.num_partitions * self.num_collectors),
    {
        proof {
            let f = |x: (u32, u32)| pair_key(x);
            assert forall|a: (u32, u32), b: (u32, u32)|
                self.pairs@.contains(a) && self.pairs@.contains(b) && #[trigger] f(a) == #[trigger] f(b) implies a
                == b by {
                lemma_pair_key_injective(a, b);
            }
            vstd::set_lib::lemma_map_size(self.pairs@, self.finished@, f);
        }
        let pairs: usize = (self.num_partitions as usize) * (self.num_collectors as usize);
        self.finished.len() == pairs
    }
}

/// When last watermarks come only from pairs of a partition and a collector, their count reaches
/// the number of such pairs exactly when the last watermark of every pair has come.
pub proof fn lemma_complete_iff_all_pairs_finished(
    finished: Set<(u32, u32)>,
    num_partitions: u32,
    num_collectors: u32,
)
    requires
        num_partitions + num_collectors <= u32::MAX + 1,
        finished.subset_of(partition_collector_pairs(num_partitions as nat, num_collectors as nat)),
    ensures
        finished.finite(),
        (finished.len() == num_partitions * num_collectors) <==> finished == partition_collector_pairs(
            num_partitions as nat,
            num_collectors as nat,
        ),
{
    let all = partition_collector_pairs(num_partitions as nat, num_collectors as nat);
    lemma_pairs_len(num_partitions as nat, num_collectors as nat);
    vstd::set_lib::lemma_len_subset(finished, all);
    if finished.len() == num_partitions * num_collectors {
        vstd::set_lib::lemma_subset_equality(finished, all);
    }
}

} // verus!
