use vstd::prelude::*;

use super::counters::Counters;
use super::port::Vlan;

verus! {

/// The counters of `vlan` in `m`, all zero if it has none yet.
pub open spec fn counters_or_zero(m: Map<Vlan, Counters>, vlan: Vlan) -> Counters {
    if m.dom().contains(vlan) {
        m[vlan]
    } else {
        Counters::zero_spec()
    }
}

/// `list` holds exactly the entries of `m`, in ascending VLAN order.
pub open spec fn lists_in_order(list: Seq<(Vlan, Counters)>, m: Map<Vlan, Counters>) -> bool {
    &&& forall|i: int, j: int| 0 <= i < j < list.len() ==> list[i].0 < list[j].0
    &&& forall|i: int| 0 <= i < list.len() ==> m.dom().contains(#[trigger] list[i].0) && m[list[i].0] == list[i].1
    &&& forall|v: Vlan| m.dom().contains(v) ==> exists|i: int| 0 <= i < list.len() && #[trigger] list[i].0 == v
}

spec fn has_vlan_at(s: Seq<(Vlan, Counters)>, v: Vlan, i: int) -> bool {
    0 <= i < s.len() && s[i].0 == v
}

spec fn entries_map(s: Seq<(Vlan, Counters)>) -> Map<Vlan, Counters> {
    Map::new(
        |v: Vlan| exists|i: int| has_vlan_at(s, v, i),
        |v: Vlan| s[choose|i: int| has_vlan_at(s, v, i)].1,
    )
}

spec fn ascending(s: Seq<(Vlan, Counters)>) -> bool {
    forall|i: int, j: int| 0 <= i < j < s.len() ==> s[i].0 < s[j].0
}

proof fn lemma_entries_map_at(s: Seq<(Vlan, Counters)>, i: int)
    requires
        ascending(s),
        0 <= i < s.len(),
    ensures
        entries_map(s).dom().contains(s[i].0),
        entries_map(s)[s[i].0] == s[i].1,
{
    assert(has_vlan_at(s, s[i].0, i));
    let j = choose|j: int| has_vlan_at(s, s[i].0, j);
    if j < i {
        assert(s[j].0 < s[i].0);
    } else if j > i {
        assert(s[i].0 < s[j].0);
    }
}

proof fn lemma_entries_map_in_order(s: Seq<(Vlan, Counters)>)
    requires
        ascending(s),
    ensures
        lists_in_order(s, entries_map(s)),
{
    assert forall|i: int| 0 <= i < s.len() implies entries_map(s).dom().contains(#[trigger] s[i].0)
        && entries_map(s)[s[i].0] == s[i].1 by {
        lemma_entries_map_at(s, i);
    }
    assert forall|v: Vlan| entries_map(s).dom().contains(v) implies exists|i: int|
        0 <= i < s.len() && #[trigger] s[i].0 == v by {
        let i = choose|i: int| has_vlan_at(s, v, i);
        assert(s[i].0 == v);
    }
}

/// Per-VLAN counters, held in ascending VLAN order.
pub struct VlanCounters {
    entries: Vec<(Vlan, Counters)>,
}

impl VlanCounters {
    pub closed spec fn wf(&self) -> bool {
        ascending(self.entries@)
    }

    pub closed spec fn view(&self) -> Map<Vlan, Counters> {
        entries_map(self.entries@)
    }

    pub fn new() -> (t: VlanCounters)
        ensures
            t.wf(),
            t.view() == Map::<Vlan, Counters>::empty(),
    {
        let t = VlanCounters { entries: Vec::new() };
        assert(t.view() =~= Map::<Vlan, Counters>::empty());
        t
    }

    /// The counters of `vlan`, all zero if it has seen no traffic.
    pub fn get(&self, vlan: Vlan) -> (c: Counters)
        requires
            self.wf(),
        ensures
            c == counters_or_zero(self.view(), vlan),
    {
        let n = self.entries.len();
        let mut i: usize = 0;
        while i < n
            invariant
                n == self.entries@.len(),
                i <= n,
                forall|k: int| 0 <= k < i ==> self.entries@[k].0 != vlan,
                self.wf(),
            decreases n - i,
        {
            if self.entries[i].0 == vlan {
                proof {
                    lemma_entries_map_at(self.entries@, i as int);
                }
                return self.entries[i].1;
            }
            i = i + 1;
        }
        proof {
            if self.view().dom().contains(vlan) {
                let k = choose|k: int| has_vlan_at(self.entries@, vlan, k);
            }
        }
        Counters::zero()
    }

    /// Replaces the counters of `vlan` with `c`.
    pub fn set(&mut self, vlan: Vlan, c: Counters)
        requires
            old(self).wf(),
        ensures
            final(self).wf(),
            final(self).view() == old(self).view().insert(vlan, c),
    {
        let ghost s = self.entries@;
        let n = self.entries.len();
        let mut pos: usize = 0;
        while pos < n && self.entries[pos].0 < vlan
            invariant
                n == self.entries@.len(),
                pos <= n,
                forall|k: int| 0 <= k < pos ==> self.entries@[k].0 < vlan,
            decreases n - pos,
        {
            pos = pos + 1;
        }
        if pos < n && self.entries[pos].0 == vlan {
            self.entries.set(pos, (vlan, c));
            proof {
                let t = self.entries@;
                assert(t == s.update(pos as int, (vlan, c)));
                assert forall|i: int, j: int| 0 <= i < j < t.len() implies t[i].0 < t[j].0 by {
                    assert(s[i].0 < s[j].0);
                }
                assert forall|v: Vlan| #[trigger] entries_map(t).dom().contains(v) == entries_map(s).insert(vlan, c).dom().contains(v) by {
                    if entries_map(s).dom().contains(v) {
                        let k = choose|k: int| has_vlan_at(s, v, k);
                        assert(has_vlan_at(t, v, k));
                    }
                    if entries_map(t).dom().contains(v) {
                        let k = choose|k: int| has_vlan_at(t, v, k);
                        assert(has_vlan_at(s, v, k));
                    }
                    if v == vlan {
                        assert(has_vlan_at(t, v, pos as int));
                    }
                }
                assert forall|v: Vlan| #[trigger] entries_map(t).dom().contains(v) implies entries_map(t)[v] == entries_map(s).insert(vlan, c)[v] by {
                    let k = choose|k: int| has_vlan_at(t, v, k);
                    lemma_entries_map_at(t, k);
                    if k != pos {
                        lemma_entries_map_at(s, k);
                    }
                }
                assert(entries_map(t) =~= entries_map(s).insert(vlan, c));
            }
        } else {
            self.entries.insert(pos, (vlan, c));
            proof {
                let t = self.entries@;
                assert(t == s.insert(pos as int, (vlan, c)));
                assert forall|i: int, j: int| 0 <= i < j < t.len() implies t[i].0 < t[j].0 by {
                    if j < pos {
                        assert(t[i] == s[i] && t[j] == s[j]);
                    } else if j == pos {
                        assert(t[i] == s[i]);
                    } else if i < pos {
                        assert(t[i] == s[i] && t[j] == s[j - 1]);
                        assert(s[pos as int].0 > vlan || s[pos as int].0 >= vlan);
                        if j - 1 > pos {
                            assert(s[pos as int].0 < s[j - 1].0);
                        }
                    } else if i == pos {
                        assert(t[j] == s[j - 1]);
                        if j - 1 > pos {
                            assert(s[pos as int].0 < s[j - 1].0);
                        }
                    } else {
                        assert(t[i] == s[i - 1] && t[j] == s[j - 1]);
                    }
                }
                assert forall|v: Vlan| #[trigger] entries_map(t).dom().contains(v) == entries_map(s).insert(vlan, c).dom().contains(v) by {
                    if entries_map(s).dom().contains(v) {
                        let k = choose|k: int| has_vlan_at(s, v, k);
                        if k < pos {
                            assert(has_vlan_at(t, v, k));
                        } else {
                            assert(has_vlan_at(t, v, k + 1));
                        }
                    }
                    if entries_map(t).dom().contains(v) {
                        let k = choose|k: int| has_vlan_at(t, v, k);
                        if k < pos {
                            assert(has_vlan_at(s, v, k));
                        } else if k > pos {
                            assert(has_vlan_at(s, v, k - 1));
                        }
                    }
                    if v == vlan {
                        assert(has_vlan_at(t, v, pos as int));
                    }
                }
                assert forall|v: Vlan| #[trigger] entries_map(t).dom().contains(v) implies entries_map(t)[v] == entries_map(s).insert(vlan, c)[v] by {
                    let k = choose|k: int| has_vlan_at(t, v, k);
                    lemma_entries_map_at(t, k);
                    if k < pos {
                        lemma_entries_map_at(s, k);
                    } else if k > pos {
                        lemma_entries_map_at(s, k - 1);
                    }
                }
                assert(entries_map(t) =~= entries_map(s).insert(vlan, c));
            }
        }
    }

    /// Every VLAN's counters, in ascending VLAN order.
    pub fn to_vec(&self) -> (list: Vec<(Vlan, Counters)>)
        requires
            self.wf(),
        ensures
            lists_in_order(list@, self.view()),
    {
        let mut out: Vec<(Vlan, Counters)> = Vec::new();
        let n = self.entries.len();
        let mut i: usize = 0;
        while i < n
            invariant
                n == self.entries@.len(),
                i <= n,
                out@ == self.entries@.subrange(0, i as int),
            decreases n - i,
        {
            out.push(self.entries[i]);
            i = i + 1;
            assert(out@ =~= self.entries@.subrange(0, i as int));
        }
        assert(out@ =~= self.entries@);
        proof {
            lemma_entries_map_in_order(self.entries@);
        }
        out
    }
}

} // verus!
