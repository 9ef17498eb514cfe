use vstd::prelude::*;

verus! {

/// VLAN identifier. 1..=4094 are assignable; 0 means "priority-tagged, no
/// VLAN" and 4095 is reserved.
pub type Vlan = u16;

/// The lowest assignable VLAN id.
pub const MIN_ASSIGNABLE_VLAN: u16 = 1;

/// The highest assignable VLAN id.
pub const MAX_ASSIGNABLE_VLAN: u16 = 4094;

/// Identifies a port on a switch: an opaque handle the caller assigns
/// meaning to.
#[derive(Debug, Clone, Copy, PartialEq, Eq, Hash)]
pub struct PortId(pub u32);

/// A VLAN id outside the assignable 1..=4094 range.
#[derive(Debug, Clone, Copy, PartialEq, Eq)]
pub struct InvalidVlan(pub Vlan);

/// Why `PortMode::trunk` rejected its arguments.
#[derive(Debug, Clone, Copy, PartialEq, Eq)]
pub enum PortModeError {
    /// A VLAN id was outside the assignable 1..=4094 range.
    InvalidVlan(Vlan),
    /// Neither a native VLAN nor any allowed VLAN was given: this trunk
    /// could never carry anything.
    EmptyTrunk,
}

impl PortModeError {
    /// The trunk error that reports the same out-of-range VLAN.
    pub fn from_invalid_vlan(e: InvalidVlan) -> (r: PortModeError)
        ensures
            r == PortModeError::InvalidVlan(e.0),
    {
        PortModeError::InvalidVlan(e.0)
    }
}

/// Whether `vlan` may be assigned to a port: 1..=4094.
pub open spec fn is_assignable(vlan: Vlan) -> bool {
    MIN_ASSIGNABLE_VLAN <= vlan <= MAX_ASSIGNABLE_VLAN
}

pub fn assignable(vlan: Vlan) -> (b: bool)
    ensures
        b == is_assignable(vlan),
{
    MIN_ASSIGNABLE_VLAN <= vlan && vlan <= MAX_ASSIGNABLE_VLAN
}

/// Every element is smaller than every later one.
pub open spec fn strictly_increasing(s: Seq<u16>) -> bool {
    forall|i: int, j: int| 0 <= i < j < s.len() ==> s[i] < s[j]
}

/// Two strictly increasing sequences with the same elements are equal.
pub proof fn lemma_ascending_unique(a: Seq<u16>, b: Seq<u16>)
    requires
        strictly_increasing(a),
        strictly_increasing(b),
        forall|x: u16| a.contains(x) <==> b.contains(x),
    ensures
        a == b,
    decreases a.len(),
{
    if a.len() == 0 {
        if b.len() > 0 {
            assert(b.contains(b[0]));
        }
        assert(a =~= b);
    } else {
        assert(a.contains(a[0]));
        assert(b.contains(a[0]));
        assert(b.len() > 0);
        assert(b.contains(b[0]));
        assert(a.contains(b[0]));
        let i = choose|i: int| 0 <= i < b.len() && b[i] == a[0];
        let j = choose|j: int| 0 <= j < a.len() && a[j] == b[0];
        if i > 0 {
            assert(b[0] < b[i]);
        }
        if j > 0 {
            assert(a[0] < a[j]);
        }
        assert(a[0] == b[0]);
        let a1 = a.drop_first();
        let b1 = b.drop_first();
        assert forall|x: u16| a1.contains(x) <==> b1.contains(x) by {
            if a1.contains(x) {
                let k = choose|k: int| 0 <= k < a1.len() && a1[k] == x;
                assert(a[k + 1] == x);
                assert(a[0] < a[k + 1]);
                assert(b.contains(x));
                let m = choose|m: int| 0 <= m < b.len() && b[m] == x;
                assert(m != 0);
                assert(b1[m - 1] == x);
            }
            if b1.contains(x) {
                let k = choose|k: int| 0 <= k < b1.len() && b1[k] == x;
                assert(b[k + 1] == x);
                assert(b[0] < b[k + 1]);
                assert(a.contains(x));
                let m = choose|m: int| 0 <= m < a.len() && a[m] == x;
                assert(m != 0);
                assert(a1[m - 1] == x);
            }
        }
        lemma_ascending_unique(a1, b1);
        assert(a =~= b) by {
            assert forall|k: int| 0 <= k < a.len() implies a[k] == b[k] by {
                if k > 0 {
                    assert(a[k] == a1[k - 1]);
                    assert(b[k] == b1[k - 1]);
                }
            }
        }
    }
}

/// The members of `s` in ascending order.
pub open spec fn ascending_list(s: Set<u16>) -> Seq<u16> {
    choose|q: Seq<u16>| strictly_increasing(q) && q.to_set() == s
}

/// A strictly increasing sequence is the ascending list of its elements.
pub proof fn lemma_ascending_list(q: Seq<u16>)
    requires
        strictly_increasing(q),
    ensures
        ascending_list(q.to_set()) == q,
{
    let r = ascending_list(q.to_set());
    assert(strictly_increasing(q) && q.to_set() == q.to_set());
    assert(strictly_increasing(r) && r.to_set() == q.to_set());
    assert forall|x: u16| r.contains(x) <==> q.contains(x) by {
        assert(r.to_set().contains(x) == q.to_set().contains(x));
    }
    lemma_ascending_unique(r, q);
}

/// A set of VLAN ids, held in ascending order without repeats.
#[derive(Debug, PartialEq, Eq)]
pub struct VlanSet {
    vlans: Vec<Vlan>,
}

impl VlanSet {
    #[verifier::type_invariant]
    spec fn ascending(self) -> bool {
        strictly_increasing(self.vlans@)
    }

    /// The members, in ascending order.
    pub closed spec fn elems(self) -> Seq<Vlan> {
        self.vlans@
    }

    /// The members as a set.
    pub open spec fn members(self) -> Set<Vlan> {
        self.elems().to_set()
    }

    /// The set of the VLANs in `vlans`, whatever their order or repeats.
    pub fn from_vlans(vlans: &[Vlan]) -> (s: VlanSet)
        ensures
            strictly_increasing(s.elems()),
            forall|v: Vlan| s.elems().contains(v) <==> vlans@.contains(v),
    {
        let mut acc: Vec<Vlan> = Vec::new();
        let n = vlans.len();
        let mut i: usize = 0;
        while i < n
            invariant
                n == vlans@.len(),
                i <= n,
                strictly_increasing(acc@),
                forall|v: Vlan| acc@.contains(v) <==> vlans@.subrange(0, i as int).contains(v),
            decreases n - i,
        {
            let v = vlans[i];
            let ghost old_acc = acc@;
            let len = acc.len();
            let mut pos: usize = 0;
            while pos < len && acc[pos] < v
                invariant
                    len == acc@.len(),
                    pos <= len,
                    forall|k: int| 0 <= k < pos ==> acc@[k] < v,
                decreases len - pos,
            {
                pos = pos + 1;
            }
            if pos < len && acc[pos] == v {
                assert(old_acc[pos as int] == v);
            } else {
                acc.insert(pos, v);
                assert(acc@ =~= old_acc.insert(pos as int, v));
                assert forall|a: int, b: int| 0 <= a < b < acc@.len() implies acc@[a] < acc@[b] by {
                    if b < pos {
                    } else if b == pos {
                    } else if a < pos {
                        assert(old_acc[b - 1] >= v);
                    } else if a == pos {
                        assert(old_acc[pos as int] >= v);
                    } else {
                    }
                }
                assert forall|x: Vlan| acc@.contains(x) implies old_acc.contains(x) || x == v by {
                    let k = choose|k: int| 0 <= k < acc@.len() && acc@[k] == x;
                    if k < pos {
                        assert(old_acc[k] == x);
                    } else if k > pos {
                        assert(old_acc[k - 1] == x);
                    }
                }
                assert forall|x: Vlan| old_acc.contains(x) implies acc@.contains(x) by {
                    let k = choose|k: int| 0 <= k < old_acc.len() && old_acc[k] == x;
                    if k < pos {
                        assert(acc@[k] == x);
                    } else {
                        assert(acc@[k + 1] == x);
                    }
                }
                assert(acc@[pos as int] == v);
            }
            let ghost pre = vlans@.subrange(0, i as int);
            assert(vlans@.subrange(0, i + 1) =~= pre.push(v));
            assert(forall|x: Vlan| acc@.contains(x) <==> (old_acc.contains(x) || x == v));
            assert forall|x: Vlan| pre.push(v).contains(x) <==> (pre.contains(x) || x == v) by {
                if pre.contains(x) {
                    let k = choose|k: int| 0 <= k < pre.len() && pre[k] == x;
                    assert(pre.push(v)[k] == x);
                }
                if x == v {
                    assert(pre.push(v)[pre.len() as int] == v);
                }
                if pre.push(v).contains(x) {
                    let k = choose|k: int| 0 <= k < pre.push(v).len() && pre.push(v)[k] == x;
                    if k < pre.len() {
                        assert(pre[k] == x);
                    }
                }
            }
            assert forall|x: Vlan| acc@.contains(x) <==> vlans@.subrange(0, i + 1).contains(x) by {
                assert(old_acc.contains(x) <==> vlans@.subrange(0, i as int).contains(x));
            }
            i = i + 1;
        }
        assert(vlans@.subrange(0, n as int) =~= vlans@);
        VlanSet { vlans: acc }
    }

    /// The empty set.
    pub fn empty() -> (s: VlanSet)
        ensures
            s.elems().len() == 0,
    {
        VlanSet { vlans: Vec::new() }
    }

    pub fn len(&self) -> (n: usize)
        ensures
            n == self.elems().len(),
            strictly_increasing(self.elems()),
    {
        proof {
            use_type_invariant(self);
        }
        self.vlans.len()
    }

    /// The `i`-th smallest member.
    pub fn get(&self, i: usize) -> (v: Vlan)
        requires
            i < self.elems().len(),
        ensures
            v == self.elems()[i as int],
    {
        self.vlans[i]
    }

    pub fn contains(&self, vlan: Vlan) -> (b: bool)
        ensures
            b == self.elems().contains(vlan),
    {
        let n = self.vlans.len();
        let mut i: usize = 0;
        while i < n
            invariant
                n == self.elems().len(),
                i <= n,
                forall|k: int| 0 <= k < i ==> self.elems()[k] != vlan,
            decreases n - i,
        {
            if self.vlans[i] == vlan {
                return true;
            }
            i = i + 1;
        }
        false
    }

    /// A copy with the same members.
    pub fn duplicate(&self) -> (s: VlanSet)
        ensures
            s.elems() == self.elems(),
    {
        proof {
            use_type_invariant(self);
        }
        let mut out: Vec<Vlan> = Vec::new();
        let n = self.vlans.len();
        let mut i: usize = 0;
        while i < n
            invariant
                n == self.elems().len(),
                i <= n,
                out@ == self.elems().subrange(0, i as int),
            decreases n - i,
        {
            out.push(self.vlans[i]);
            i = i + 1;
            assert(out@ =~= self.elems().subrange(0, i as int));
        }
        assert(out@ =~= self.elems());
        VlanSet { vlans: out }
    }
}

impl Clone for VlanSet {
    fn clone(&self) -> (s: Self)
        ensures
            s.elems() == self.elems(),
    {
        self.duplicate()
    }
}

/// How a port participates in VLANs, as plain values.
pub enum PortModeView {
    Access { vlan: Vlan },
    Trunk { native: Option<Vlan>, allowed: Set<Vlan> },
}

/// How a port participates in VLANs.
#[derive(Debug, Clone, PartialEq, Eq)]
pub enum PortMode {
    /// Untagged wire traffic, permanently associated with one VLAN. A tagged
    /// frame arriving here is a protocol violation, not silently accepted.
    Access { vlan: Vlan },
    /// Tagged wire traffic for every VLAN in `allowed`, plus optionally one
    /// untagged VLAN (`native`) carried without a tag in either direction.
    Trunk { native: Option<Vlan>, allowed: VlanSet },
}

impl View for PortMode {
    type V = PortModeView;

    open spec fn view(&self) -> PortModeView {
        match self {
            PortMode::Access { vlan } => PortModeView::Access { vlan: *vlan },
            PortMode::Trunk { native, allowed } => PortModeView::Trunk {
                native: *native,
                allowed: allowed.members(),
            },
        }
    }
}

/// Whether a frame belonging to `vlan` may cross a port in mode `mode`: as a
/// flood target, and as the set of VLANs a trunk accepts a tagged frame for.
pub open spec fn carries_spec(mode: PortModeView, vlan: Vlan) -> bool {
    match mode {
        PortModeView::Access { vlan: v } => v == vlan,
        PortModeView::Trunk { native, allowed } => allowed.contains(vlan) || native == Some(vlan),
    }
}

/// The first VLAN in `s[i..]` that is not assignable.
pub open spec fn first_unassignable_from(s: Seq<Vlan>, i: int) -> Option<Vlan>
    decreases s.len() - i,
{
    if i < 0 || i >= s.len() {
        None
    } else if !is_assignable(s[i]) {
        Some(s[i])
    } else {
        first_unassignable_from(s, i + 1)
    }
}

/// What `PortMode::trunk` makes of its arguments.
pub open spec fn trunk_spec(native: Option<Vlan>, allowed: Seq<Vlan>) -> Result<
    PortModeView,
    PortModeError,
> {
    if native matches Some(v) && !is_assignable(v) {
        Err(PortModeError::InvalidVlan(native->Some_0))
    } else if first_unassignable_from(allowed, 0) is Some {
        Err(PortModeError::InvalidVlan(first_unassignable_from(allowed, 0)->Some_0))
    } else if native is None && allowed.len() == 0 {
        Err(PortModeError::EmptyTrunk)
    } else {
        Ok(PortModeView::Trunk { native, allowed: allowed.to_set() })
    }
}

impl PortMode {
    /// An access port on `vlan`; rejected unless `vlan` is in 1..=4094.
    pub fn access(vlan: Vlan) -> (r: Result<Self, InvalidVlan>)
        ensures
            match r {
                Ok(m) => is_assignable(vlan) && m@ == PortModeView::Access { vlan },
                Err(e) => !is_assignable(vlan) && e == InvalidVlan(vlan),
            },
    {
        if assignable(vlan) {
            Ok(PortMode::Access { vlan })
        } else {
            Err(InvalidVlan(vlan))
        }
    }

    /// A trunk port. `allowed` may be empty if `native` is set (an
    /// untagged-only trunk), but not both. Checks the native VLAN first,
    /// then `allowed` in order, reporting the first out-of-range id.
    pub fn trunk(native: Option<Vlan>, allowed: Vec<Vlan>) -> (r: Result<Self, PortModeError>)
        ensures
            match r {
                Ok(m) => trunk_spec(native, allowed@) == Ok::<PortModeView, PortModeError>(m@),
                Err(e) => trunk_spec(native, allowed@) == Err::<PortModeView, PortModeError>(e),
            },
    {
        if let Some(v) = native {
            if !assignable(v) {
                return Err(PortModeError::InvalidVlan(v));
            }
        }
        let n = allowed.len();
        let mut i: usize = 0;
        while i < n
            invariant
                n == allowed@.len(),
                i <= n,
                first_unassignable_from(allowed@, 0) == first_unassignable_from(allowed@, i as int),
                native matches Some(v) ==> is_assignable(v),
            decreases n - i,
        {
            if !assignable(allowed[i]) {
                assert(first_unassignable_from(allowed@, i as int) == Some(allowed@[i as int]));
                return Err(PortModeError::InvalidVlan(allowed[i]));
            }
            i = i + 1;
        }
        if native.is_none() && n == 0 {
            return Err(PortModeError::EmptyTrunk);
        }
        let set = VlanSet::from_vlans(allowed.as_slice());
        assert(set.members() =~= allowed@.to_set());
        Ok(PortMode::Trunk { native, allowed: set })
    }

    /// Whether a frame belonging to `vlan` may cross this port at all.
    pub fn carries(&self, vlan: Vlan) -> (b: bool)
        ensures
            b == carries_spec(self@, vlan),
            b == match self {
                PortMode::Access { vlan: v } => *v == vlan,
                PortMode::Trunk { native, allowed } => allowed.members().contains(vlan) || *native
                    == Some(vlan),
            },
    {
        match self {
            PortMode::Access { vlan: v } => *v == vlan,
            PortMode::Trunk { native, allowed } => {
                let native_match = match native {
                    Some(n) => *n == vlan,
                    None => false,
                };
                allowed.contains(vlan) || native_match
            },
        }
    }

    /// A copy of this mode.
    pub fn duplicate(&self) -> (m: PortMode)
        ensures
            m@ == self@,
    {
        match self {
            PortMode::Access { vlan } => PortMode::Access { vlan: *vlan },
            PortMode::Trunk { native, allowed } => PortMode::Trunk {
                native: *native,
                allowed: allowed.duplicate(),
            },
        }
    }
}

} // verus!
