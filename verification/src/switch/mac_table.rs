use vstd::prelude::*;

use super::port::{PortId, Vlan};

verus! {

/// Where a MAC was last seen as a source, and when.
#[derive(Debug, Clone, Copy, PartialEq, Eq)]
pub struct MacEntry {
    pub port: PortId,
    /// When this entry was last (re)learned: the last time a frame with this
    /// MAC as its *source* arrived, never the last time it was looked up.
    pub last_seen: u64,
}

/// Key of a learned MAC: the VLAN it was learned in and its six bytes.
pub type MacKey = (Vlan, Seq<u8>);

/// `now - then`, or zero if `then` is later than `now`.
pub open spec fn age_since(now: u64, then: u64) -> nat {
    if now >= then {
        (now - then) as nat
    } else {
        0
    }
}

/// An entry survives aging if it was relearned less than `max_age` ago.
pub open spec fn is_fresh(e: MacEntry, max_age: u64, now: u64) -> bool {
    age_since(now, e.last_seen) < max_age
}

/// The entries of `m` whose value satisfies `keep`.
pub open spec fn retain_entries(m: Map<MacKey, MacEntry>, keep: spec_fn(MacEntry) -> bool) -> Map<
    MacKey,
    MacEntry,
> {
    Map::new(|k: MacKey| m.dom().contains(k) && keep(m[k]), |k: MacKey| m[k])
}

#[derive(Clone, Copy)]
struct Slot {
    vlan: Vlan,
    mac: [u8; 6],
    entry: MacEntry,
}

spec fn slot_key(s: Slot) -> MacKey {
    (s.vlan, s.mac@)
}

spec fn keys_unique(s: Seq<Slot>) -> bool {
    forall|i: int, j: int| 0 <= i < s.len() && 0 <= j < s.len() && i != j ==> slot_key(s[i]) != slot_key(s[j])
}

spec fn has_key_at(s: Seq<Slot>, k: MacKey, i: int) -> bool {
    0 <= i < s.len() && slot_key(s[i]) == k
}

spec fn table_map(s: Seq<Slot>) -> Map<MacKey, MacEntry> {
    Map::new(
        |k: MacKey| exists|i: int| has_key_at(s, k, i),
        |k: MacKey| s[choose|i: int| has_key_at(s, k, i)].entry,
    )
}

proof fn lemma_table_map_at(s: Seq<Slot>, i: int)
    requires
        keys_unique(s),
        0 <= i < s.len(),
    ensures
        table_map(s).dom().contains(slot_key(s[i])),
        table_map(s)[slot_key(s[i])] == s[i].entry,
{
    let k = slot_key(s[i]);
    assert(has_key_at(s, k, i));
    let j = choose|j: int| has_key_at(s, k, j);
    assert(j == i);
}

proof fn lemma_table_map_push(s: Seq<Slot>, slot: Slot)
    requires
        keys_unique(s),
        !table_map(s).dom().contains(slot_key(slot)),
    ensures
        keys_unique(s.push(slot)),
        table_map(s.push(slot)) == table_map(s).insert(slot_key(slot), slot.entry),
{
    let t = s.push(slot);
    assert forall|i: int, j: int| 0 <= i < t.len() && 0 <= j < t.len() && i != j implies slot_key(
        t[i],
    ) != slot_key(t[j]) by {
        if i == s.len() {
            assert(!has_key_at(s, slot_key(slot), j));
        } else if j == s.len() {
            assert(!has_key_at(s, slot_key(slot), i));
        }
    }
    assert forall|k: MacKey| #[trigger]
        table_map(t).dom().contains(k) == table_map(s).insert(slot_key(slot), slot.entry).dom().contains(k) by {
        if table_map(s).dom().contains(k) {
            let i = choose|i: int| has_key_at(s, k, i);
            assert(has_key_at(t, k, i));
        }
        if table_map(t).dom().contains(k) {
            let i = choose|i: int| has_key_at(t, k, i);
            if i < s.len() {
                assert(has_key_at(s, k, i));
            }
        }
        if k == slot_key(slot) {
            assert(has_key_at(t, k, s.len() as int));
        }
    }
    assert forall|k: MacKey| #[trigger] table_map(t).dom().contains(k) implies table_map(t)[k]
        == table_map(s).insert(slot_key(slot), slot.entry)[k] by {
        let i = choose|i: int| has_key_at(t, k, i);
        lemma_table_map_at(t, i);
        if i < s.len() {
            lemma_table_map_at(s, i);
        }
    }
    assert(table_map(t) =~= table_map(s).insert(slot_key(slot), slot.entry));
}

proof fn lemma_table_map_update(s: Seq<Slot>, i: int, slot: Slot)
    requires
        keys_unique(s),
        0 <= i < s.len(),
        slot_key(s[i]) == slot_key(slot),
    ensures
        keys_unique(s.update(i, slot)),
        table_map(s.update(i, slot)) == table_map(s).insert(slot_key(slot), slot.entry),
{
    let t = s.update(i, slot);
    assert forall|a: int, b: int| 0 <= a < t.len() && 0 <= b < t.len() && a != b implies slot_key(
        t[a],
    ) != slot_key(t[b]) by {
        assert(slot_key(s[a]) != slot_key(s[b]));
    }
    lemma_table_map_at(s, i);
    assert forall|k: MacKey| #[trigger]
        table_map(t).dom().contains(k) == table_map(s).insert(slot_key(slot), slot.entry).dom().contains(k) by {
        if table_map(s).dom().contains(k) {
            let j = choose|j: int| has_key_at(s, k, j);
            assert(has_key_at(t, k, j));
        }
        if table_map(t).dom().contains(k) {
            let j = choose|j: int| has_key_at(t, k, j);
            assert(has_key_at(s, k, j));
        }
    }
    assert forall|k: MacKey| #[trigger] table_map(t).dom().contains(k) implies table_map(t)[k]
        == table_map(s).insert(slot_key(slot), slot.entry)[k] by {
        let j = choose|j: int| has_key_at(t, k, j);
        lemma_table_map_at(t, j);
        if j != i {
            lemma_table_map_at(s, j);
        }
    }
    assert(table_map(t) =~= table_map(s).insert(slot_key(slot), slot.entry));
}

/// `kept[a]` is one of the slots `s[..bound]` whose entry satisfies `keep`.
spec fn sourced(kept: Seq<Slot>, s: Seq<Slot>, keep: spec_fn(MacEntry) -> bool, bound: int, a: int) -> bool {
    exists|j: int| 0 <= j < bound && kept[a] == s[j] && keep(s[j].entry)
}

/// `s[j]` occurs in `kept`.
spec fn covered(kept: Seq<Slot>, s: Seq<Slot>, j: int) -> bool {
    exists|a: int| 0 <= a < kept.len() && kept[a] == s[j]
}

/// `kept` holds exactly the slots of `s[..bound]` whose entry satisfies `keep`.
spec fn retained_prefix(kept: Seq<Slot>, s: Seq<Slot>, keep: spec_fn(MacEntry) -> bool, bound: int) -> bool {
    &&& forall|a: int| 0 <= a < kept.len() ==> #[trigger] sourced(kept, s, keep, bound, a)
    &&& forall|j: int| 0 <= j < bound && keep(s[j].entry) ==> #[trigger] covered(kept, s, j)
}

proof fn lemma_retained_step(kept: Seq<Slot>, s: Seq<Slot>, keep: spec_fn(MacEntry) -> bool, i: int)
    requires
        keys_unique(s),
        keys_unique(kept),
        0 <= i < s.len(),
        kept.len() <= i,
        retained_prefix(kept, s, keep, i),
    ensures
        keep(s[i].entry) ==> keys_unique(kept.push(s[i])) && retained_prefix(kept.push(s[i]), s, keep, i + 1),
        !keep(s[i].entry) ==> retained_prefix(kept, s, keep, i + 1),
{
    let slot = s[i];
    if keep(slot.entry) {
        let t = kept.push(slot);
        assert forall|a: int| 0 <= a < kept.len() implies slot_key(kept[a]) != slot_key(slot) by {
            assert(sourced(kept, s, keep, i, a));
            let j = choose|j: int| 0 <= j < i && kept[a] == s[j] && keep(s[j].entry);
        }
        assert forall|a: int, b: int| 0 <= a < t.len() && 0 <= b < t.len() && a != b implies slot_key(t[a]) != slot_key(t[b]) by {
            if a < kept.len() && b < kept.len() {
                assert(t[a] == kept[a] && t[b] == kept[b]);
            } else if a < kept.len() {
                assert(t[a] == kept[a]);
            } else {
                assert(t[b] == kept[b]);
            }
        }
        assert forall|a: int| 0 <= a < t.len() implies #[trigger] sourced(t, s, keep, i + 1, a) by {
            if a < kept.len() {
                assert(t[a] == kept[a]);
                assert(sourced(kept, s, keep, i, a));
                let j = choose|j: int| 0 <= j < i && kept[a] == s[j] && keep(s[j].entry);
                assert(t[a] == s[j]);
            } else {
                assert(t[a] == s[i]);
            }
        }
        assert forall|j: int| 0 <= j < i + 1 && keep(s[j].entry) implies #[trigger] covered(t, s, j) by {
            if j < i {
                assert(covered(kept, s, j));
                let a = choose|a: int| 0 <= a < kept.len() && kept[a] == s[j];
                assert(t[a] == kept[a]);
            } else {
                assert(t[kept.len() as int] == s[j]);
            }
        }
    } else {
        assert forall|a: int| 0 <= a < kept.len() implies #[trigger] sourced(kept, s, keep, i + 1, a) by {
            assert(sourced(kept, s, keep, i, a));
            let j = choose|j: int| 0 <= j < i && kept[a] == s[j] && keep(s[j].entry);
        }
        assert forall|j: int| 0 <= j < i + 1 && keep(s[j].entry) implies #[trigger] covered(kept, s, j) by {
            if j == i {
                assert(s[j] == slot);
            }
            assert(j < i);
        }
    }
}

/// `kept` holds exactly the slots of `s` whose entry satisfies `keep`.
proof fn lemma_table_map_retain(s: Seq<Slot>, kept: Seq<Slot>, keep: spec_fn(MacEntry) -> bool)
    requires
        keys_unique(s),
        keys_unique(kept),
        retained_prefix(kept, s, keep, s.len() as int),
    ensures
        table_map(kept) == retain_entries(table_map(s), keep),
{
    let r = retain_entries(table_map(s), keep);
    assert forall|k: MacKey| #[trigger] table_map(kept).dom().contains(k) == r.dom().contains(k) by {
        if table_map(kept).dom().contains(k) {
            let a = choose|a: int| has_key_at(kept, k, a);
            assert(sourced(kept, s, keep, s.len() as int, a));
            let j = choose|j: int| 0 <= j < s.len() && kept[a] == s[j] && keep(s[j].entry);
            lemma_table_map_at(s, j);
        }
        if r.dom().contains(k) {
            let j = choose|j: int| has_key_at(s, k, j);
            lemma_table_map_at(s, j);
            assert(covered(kept, s, j));
            let a = choose|a: int| 0 <= a < kept.len() && kept[a] == s[j];
            assert(has_key_at(kept, k, a));
        }
    }
    assert forall|k: MacKey| #[trigger] table_map(kept).dom().contains(k) implies table_map(kept)[k]
        == r[k] by {
        let a = choose|a: int| has_key_at(kept, k, a);
        lemma_table_map_at(kept, a);
        assert(sourced(kept, s, keep, s.len() as int, a));
        let j = choose|j: int| 0 <= j < s.len() && kept[a] == s[j] && keep(s[j].entry);
        lemma_table_map_at(s, j);
    }
    assert(table_map(kept) =~= r);
}

proof fn lemma_table_map_len(s: Seq<Slot>)
    requires
        keys_unique(s),
    ensures
        table_map(s).dom().finite(),
        table_map(s).dom().len() == s.len(),
{
    let keys = s.map_values(|x: Slot| slot_key(x));
    assert forall|i: int, j: int| 0 <= i < keys.len() && 0 <= j < keys.len() && i != j implies keys[i]
        != keys[j] by {
        assert(keys[i] == slot_key(s[i]));
        assert(keys[j] == slot_key(s[j]));
    }
    assert(keys.no_duplicates());
    assert forall|k: MacKey| #[trigger] table_map(s).dom().contains(k) == keys.to_set().contains(k) by {
        if table_map(s).dom().contains(k) {
            let i = choose|i: int| has_key_at(s, k, i);
            assert(keys[i] == k);
        }
        if keys.to_set().contains(k) {
            let i = choose|i: int| 0 <= i < keys.len() && keys[i] == k;
            assert(has_key_at(s, k, i));
        }
    }
    assert(table_map(s).dom() =~= keys.to_set());
    keys.unique_seq_to_set();
}

fn same_mac(a: &[u8; 6], b: &[u8; 6]) -> (r: bool)
    ensures
        r == (a@ == b@),
{
    let r = a[0] == b[0] && a[1] == b[1] && a[2] == b[2] && a[3] == b[3] && a[4] == b[4] && a[5]
        == b[5];
    proof {
        if r {
            assert(a@ =~= b@);
        } else if a@ == b@ {
            assert(a@[0] == b@[0] && a@[1] == b@[1] && a@[2] == b@[2]);
            assert(a@[3] == b@[3] && a@[4] == b@[4] && a@[5] == b@[5]);
        }
    }
    r
}

/// Learned MAC -> port mappings, scoped per VLAN so learning in one VLAN
/// can never resolve a lookup in another: that scoping is the isolation
/// guarantee, not an add-on check elsewhere.
pub struct MacTable {
    slots: Vec<Slot>,
}

impl MacTable {
    pub closed spec fn wf(&self) -> bool {
        keys_unique(self.slots@)
    }

    pub closed spec fn view(&self) -> Map<MacKey, MacEntry> {
        table_map(self.slots@)
    }

    pub fn new() -> (t: MacTable)
        ensures
            t.wf(),
            t.view() == Map::<MacKey, MacEntry>::empty(),
    {
        let t = MacTable { slots: Vec::new() };
        assert(t.view() =~= Map::<MacKey, MacEntry>::empty());
        t
    }

    /// The number of learned entries.
    pub fn len(&self) -> (n: usize)
        requires
            self.wf(),
        ensures
            self.view().dom().finite(),
            n == self.view().dom().len(),
    {
        proof {
            lemma_table_map_len(self.slots@);
        }
        self.slots.len()
    }

    fn position(&self, vlan: Vlan, mac: &[u8; 6]) -> (r: Option<usize>)
        requires
            self.wf(),
        ensures
            match r {
                Some(i) => i < self.slots@.len() && slot_key(self.slots@[i as int]) == (vlan, mac@),
                None => !self.view().dom().contains((vlan, mac@)),
            },
    {
        let n = self.slots.len();
        let mut i: usize = 0;
        while i < n
            invariant
                n == self.slots@.len(),
                i <= n,
                forall|j: int| 0 <= j < i ==> slot_key(#[trigger] self.slots@[j]) != (vlan, mac@),
            decreases n - i,
        {
            if self.slots[i].vlan == vlan && same_mac(&self.slots[i].mac, mac) {
                return Some(i);
            }
            i = i + 1;
        }
        proof {
            if self.view().dom().contains((vlan, mac@)) {
                let j = choose|j: int| has_key_at(self.slots@, (vlan, mac@), j);
                assert(slot_key(self.slots@[j]) != (vlan, mac@));
            }
        }
        None
    }

    /// Records that `mac` was just seen as a source in `vlan` on `port`,
    /// stamped with `now`.
    pub fn learn(&mut self, vlan: Vlan, mac: [u8; 6], port: PortId, now: u64)
        requires
            old(self).wf(),
        ensures
            final(self).wf(),
            final(self).view() == old(self).view().insert(
                (vlan, mac@),
                MacEntry { port, last_seen: now },
            ),
    {
        let slot = Slot { vlan, mac, entry: MacEntry { port, last_seen: now } };
        match self.position(vlan, &mac) {
            Some(i) => {
                proof {
                    lemma_table_map_update(self.slots@, i as int, slot);
                }
                self.slots.set(i, slot);
            },
            None => {
                proof {
                    lemma_table_map_push(self.slots@, slot);
                }
                self.slots.push(slot);
            },
        }
    }

    /// The port `mac` was learned on in `vlan`, if any. Never refreshes the
    /// entry's age.
    pub fn lookup(&self, vlan: Vlan, mac: &[u8; 6]) -> (r: Option<PortId>)
        requires
            self.wf(),
        ensures
            r == (if self.view().dom().contains((vlan, mac@)) {
                Some(self.view()[(vlan, mac@)].port)
            } else {
                None
            }),
    {
        match self.position(vlan, mac) {
            Some(i) => {
                proof {
                    lemma_table_map_at(self.slots@, i as int);
                }
                Some(self.slots[i].entry.port)
            },
            None => None,
        }
    }

    /// Purges every entry learned against `port`, whatever its VLAN.
    pub fn remove_port(&mut self, port: PortId)
        requires
            old(self).wf(),
        ensures
            final(self).wf(),
            final(self).view() == retain_entries(old(self).view(), |e: MacEntry| e.port != port),
    {
        let ghost keep = |e: MacEntry| e.port != port;
        let ghost s = self.slots@;
        let mut kept: Vec<Slot> = Vec::new();
        let n = self.slots.len();
        let mut i: usize = 0;
        while i < n
            invariant
                s == self.slots@,
                keys_unique(s),
                n == s.len(),
                i <= n,
                kept@.len() <= i,
                keys_unique(kept@),
                keep == (|e: MacEntry| e.port != port),
                retained_prefix(kept@, s, keep, i as int),
            decreases n - i,
        {
            let slot = self.slots[i];
            proof {
                lemma_retained_step(kept@, s, keep, i as int);
            }
            if slot.entry.port.0 != port.0 {
                kept.push(slot);
            }
            i = i + 1;
        }
        proof {
            lemma_table_map_retain(s, kept@, keep);
        }
        self.slots = kept;
    }

    /// Evicts every entry not relearned within `max_age` of `now`, and
    /// returns how many were evicted.
    pub fn evict_older_than(&mut self, max_age: u64, now: u64) -> (evicted: usize)
        requires
            old(self).wf(),
        ensures
            final(self).wf(),
            final(self).view() == retain_entries(
                old(self).view(),
                |e: MacEntry| is_fresh(e, max_age, now),
            ),
            old(self).view().dom().finite(),
            evicted == old(self).view().dom().len() - final(self).view().dom().len(),
    {
        let ghost keep = |e: MacEntry| is_fresh(e, max_age, now);
        let ghost s = self.slots@;
        let mut kept: Vec<Slot> = Vec::new();
        let n = self.slots.len();
        let mut i: usize = 0;
        while i < n
            invariant
                s == self.slots@,
                keys_unique(s),
                n == s.len(),
                i <= n,
                kept@.len() <= i,
                keys_unique(kept@),
                keep == (|e: MacEntry| is_fresh(e, max_age, now)),
                retained_prefix(kept@, s, keep, i as int),
            decreases n - i,
        {
            let slot = self.slots[i];
            proof {
                lemma_retained_step(kept@, s, keep, i as int);
            }
            if now.saturating_sub(slot.entry.last_seen) < max_age {
                kept.push(slot);
            }
            i = i + 1;
        }
        proof {
            lemma_table_map_retain(s, kept@, keep);
            lemma_table_map_len(s);
            lemma_table_map_len(kept@);
        }
        let evicted = n - kept.len();
        self.slots = kept;
        evicted
    }
}

} // verus!
