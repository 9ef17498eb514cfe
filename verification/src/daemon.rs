use vstd::prelude::*;

use crate::frame::{parse_spec, EthernetFrame, ParseError};
use crate::switch::{
    forward_result_view, forward_spec, is_assignable, trunk_spec, Delivery, DeliveryView, PortId,
    PortMode, PortModeError, PortModeView, Switch, SwitchError, SwitchView, Vlan,
};
use crate::text::{
    chars_of, decimal, equals_text, find_char, first_index_of, law_decimal_reads_back, parse_u16,
    parse_u16_spec,
};

verus! {

/// Why a command-line port spec was rejected. `index` is the position of
/// the offending argument.
#[derive(Debug, Clone, Copy, PartialEq, Eq)]
pub enum SpecError {
    /// The argument has no `:` between tap name and VLAN part.
    MissingColon { index: usize },
    /// A VLAN id is not a number that fits in 16 bits, or a field of the
    /// allowed list is empty.
    BadVlanId { index: usize },
    /// A trunk spec has no `:` between native VLAN and allowed list.
    MissingAllowedList { index: usize },
    /// The VLANs are outside 1..=4094, or a trunk has neither a native nor
    /// an allowed VLAN.
    InvalidMode { index: usize, source: PortModeError },
    /// The tap name was already given by an earlier argument.
    DuplicateName { index: usize },
}

/// The comma-separated fields of `s[start..end]`, the current field having
/// started at `start` and scanning having reached `k`.
pub open spec fn fields_between(s: Seq<char>, start: int, k: int, end: int) -> Seq<Seq<char>>
    decreases end - k,
{
    if k >= end {
        seq![s.subrange(start, end)]
    } else if s[k] == ',' {
        seq![s.subrange(start, k)] + fields_between(s, k + 1, k + 1, end)
    } else {
        fields_between(s, start, k + 1, end)
    }
}

/// The VLAN ids of `fields`, if every field is one.
pub open spec fn parse_all(fields: Seq<Seq<char>>) -> Option<Seq<Vlan>>
    decreases fields.len(),
{
    if fields.len() == 0 {
        Some(Seq::empty())
    } else {
        match parse_u16_spec(fields[0]) {
            None => None,
            Some(v) => match parse_all(fields.drop_first()) {
                None => None,
                Some(rest) => Some(seq![v] + rest),
            },
        }
    }
}

/// The allowed-VLAN list `s[from..to]`: empty, or comma-separated VLAN ids
/// with no empty field.
pub open spec fn parse_list_spec(s: Seq<char>, from: int, to: int) -> Option<Seq<Vlan>> {
    if from == to {
        Some(Seq::empty())
    } else {
        parse_all(fields_between(s, from, from, to))
    }
}

/// The keyword that starts the VLAN part of a trunk spec.
pub open spec fn trunk_keyword() -> Seq<char> {
    seq!['t', 'r', 'u', 'n', 'k', ':']
}

/// `<native-or-->:<allowed-csv>` in `a[from..]`, for the argument at
/// position `index`.
pub open spec fn parse_trunk_spec(a: Seq<char>, from: int, index: usize) -> Result<PortModeView, SpecError> {
    match first_index_of(a.subrange(from, a.len() as int), ':', 0) {
        None => Err(SpecError::MissingAllowedList { index }),
        Some(c) => {
            let sep = from + c;
            let native_field = a.subrange(from, sep);
            let native = if native_field == seq!['-'] {
                Some(None)
            } else {
                match parse_u16_spec(native_field) {
                    Some(v) => Some(Some(v)),
                    None => None,
                }
            };
            match native {
                None => Err(SpecError::BadVlanId { index }),
                Some(native) => match parse_list_spec(a, sep + 1, a.len() as int) {
                    None => Err(SpecError::BadVlanId { index }),
                    Some(allowed) => match trunk_spec(native, allowed) {
                        Ok(m) => Ok(m),
                        Err(e) => Err(SpecError::InvalidMode { index, source: e }),
                    },
                },
            }
        },
    }
}

/// One argument: `<tap-name>:<vlan-id>` for an access port, or
/// `<tap-name>:trunk:<native-or-->:<allowed-csv>` for a trunk.
pub open spec fn parse_arg_spec(a: Seq<char>, index: usize) -> Result<(Seq<char>, PortModeView), SpecError> {
    match first_index_of(a, ':', 0) {
        None => Err(SpecError::MissingColon { index }),
        Some(c) => {
            let name = a.subrange(0, c);
            let rest = a.subrange(c + 1, a.len() as int);
            if rest.len() >= 6 && rest.subrange(0, 6) == trunk_keyword() {
                match parse_trunk_spec(a, c + 7, index) {
                    Ok(m) => Ok((name, m)),
                    Err(e) => Err(e),
                }
            } else {
                match parse_u16_spec(rest) {
                    None => Err(SpecError::BadVlanId { index }),
                    Some(v) => if is_assignable(v) {
                        Ok((name, PortModeView::Access { vlan: v }))
                    } else {
                        Err(
                            SpecError::InvalidMode { index, source: PortModeError::InvalidVlan(v) },
                        )
                    },
                }
            }
        },
    }
}

/// What `parse_port_specs` makes of its arguments: each parsed in order,
/// the first bad one reported, and a tap name given twice rejected.
pub open spec fn port_specs_spec(args: Seq<Seq<char>>) -> Result<Seq<(Seq<char>, PortModeView)>, SpecError>
    decreases args.len(),
{
    if args.len() == 0 {
        Ok(Seq::empty())
    } else {
        match port_specs_spec(args.drop_last()) {
            Err(e) => Err(e),
            Ok(acc) => match parse_arg_spec(args.last(), (args.len() - 1) as usize) {
                Err(e) => Err(e),
                Ok(p) => if acc.map_values(|q: (Seq<char>, PortModeView)| q.0).contains(p.0) {
                    Err(SpecError::DuplicateName { index: (args.len() - 1) as usize })
                } else {
                    Ok(acc.push(p))
                },
            },
        }
    }
}

/// The plain-value form of a list of named port modes.
pub open spec fn named_modes_view(v: Seq<(String, PortMode)>) -> Seq<(Seq<char>, PortModeView)> {
    v.map_values(|p: (String, PortMode)| (p.0@, p.1@))
}

fn parse_fields(s: &Vec<char>, start: usize, k: usize, end: usize) -> (r: Option<Vec<Vlan>>)
    requires
        start <= k <= end <= s@.len(),
    ensures
        match r {
            Some(v) => parse_all(fields_between(s@, start as int, k as int, end as int)) == Some(v@),
            None => parse_all(fields_between(s@, start as int, k as int, end as int)) is None,
        },
    decreases end - k,
{
    if k >= end {
        let ghost fs = fields_between(s@, start as int, k as int, end as int);
        assert(fs.drop_first() =~= Seq::<Seq<char>>::empty());
        assert(parse_all(Seq::<Seq<char>>::empty()) == Some(Seq::<Vlan>::empty()));
        match parse_u16(s, start, end) {
            Some(v) => {
                let mut out: Vec<Vlan> = Vec::new();
                out.push(v);
                assert(out@ =~= seq![v] + Seq::<Vlan>::empty());
                Some(out)
            },
            None => None,
        }
    } else if s[k] == ',' {
        let ghost fs = fields_between(s@, start as int, k as int, end as int);
        let ghost rest_fs = fields_between(s@, k + 1, k + 1, end as int);
        assert(fs.drop_first() =~= rest_fs);
        match parse_u16(s, start, k) {
            None => None,
            Some(v) => match parse_fields(s, k + 1, k + 1, end) {
                None => None,
                Some(rest) => {
                    let mut out: Vec<Vlan> = Vec::new();
                    out.push(v);
                    let mut i: usize = 0;
                    while i < rest.len()
                        invariant
                            i <= rest@.len(),
                            out@ == seq![v] + rest@.subrange(0, i as int),
                        decreases rest@.len() - i,
                    {
                        out.push(rest[i]);
                        i = i + 1;
                        assert(out@ =~= seq![v] + rest@.subrange(0, i as int));
                    }
                    assert(rest@.subrange(0, rest@.len() as int) =~= rest@);
                    Some(out)
                },
            },
        }
    } else {
        parse_fields(s, start, k + 1, end)
    }
}

fn parse_list(s: &Vec<char>, from: usize, to: usize) -> (r: Option<Vec<Vlan>>)
    requires
        from <= to <= s@.len(),
    ensures
        match r {
            Some(v) => parse_list_spec(s@, from as int, to as int) == Some(v@),
            None => parse_list_spec(s@, from as int, to as int) is None,
        },
{
    if from == to {
        let v: Vec<Vlan> = Vec::new();
        assert(v@ =~= Seq::<Vlan>::empty());
        Some(v)
    } else {
        parse_fields(s, from, from, to)
    }
}

fn is_trunk_keyword_at(a: &Vec<char>, from: usize) -> (b: bool)
    requires
        from <= a@.len(),
    ensures
        b == (a@.len() - from >= 6 && a@.subrange(from as int, from + 6) == trunk_keyword()),
{
    if a.len() - from < 6 {
        return false;
    }
    let b = a[from] == 't' && a[from + 1] == 'r' && a[from + 2] == 'u' && a[from + 3] == 'n'
        && a[from + 4] == 'k' && a[from + 5] == ':';
    proof {
        let sub = a@.subrange(from as int, from + 6);
        if b {
            assert(sub =~= trunk_keyword());
        } else if sub == trunk_keyword() {
            assert(sub[0] == 't' && sub[1] == 'r' && sub[2] == 'u');
            assert(sub[3] == 'n' && sub[4] == 'k' && sub[5] == ':');
        }
    }
    b
}

fn parse_trunk(a: &Vec<char>, from: usize, index: usize) -> (r: Result<PortMode, SpecError>)
    requires
        from <= a@.len(),
    ensures
        match r {
            Ok(m) => parse_trunk_spec(a@, from as int, index) == Ok::<PortModeView, SpecError>(m@),
            Err(e) => parse_trunk_spec(a@, from as int, index) == Err::<PortModeView, SpecError>(e),
        },
{
    let n = a.len();
    let sep = match find_char(a, ':', from, n) {
        None => return Err(SpecError::MissingAllowedList { index }),
        Some(sep) => sep,
    };
    let native: Option<Vlan> = if sep - from == 1 && a[from] == '-' {
        assert(a@.subrange(from as int, sep as int) =~= seq!['-']);
        None
    } else {
        proof {
            if a@.subrange(from as int, sep as int) == seq!['-'] {
                assert(a@.subrange(from as int, sep as int)[0] == '-');
            }
        }
        match parse_u16(a, from, sep) {
            Some(v) => Some(v),
            None => return Err(SpecError::BadVlanId { index }),
        }
    };
    let allowed = match parse_list(a, sep + 1, n) {
        Some(v) => v,
        None => return Err(SpecError::BadVlanId { index }),
    };
    match PortMode::trunk(native, allowed) {
        Ok(m) => Ok(m),
        Err(e) => Err(SpecError::InvalidMode { index, source: e }),
    }
}

fn parse_arg(arg: &String, index: usize) -> (r: Result<(String, PortMode), SpecError>)
    ensures
        match r {
            Ok(p) => parse_arg_spec(arg@, index) == Ok::<(Seq<char>, PortModeView), SpecError>(
                (p.0@, p.1@),
            ),
            Err(e) => parse_arg_spec(arg@, index) == Err::<(Seq<char>, PortModeView), SpecError>(e),
        },
{
    let a = chars_of(arg.as_str());
    let n = a.len();
    let colon = match find_char(&a, ':', 0, n) {
        None => {
            assert(a@.subrange(0, n as int) =~= a@);
            return Err(SpecError::MissingColon { index });
        },
        Some(c) => c,
    };
    assert(a@.subrange(0, n as int) =~= a@);
    let name = arg.as_str().substring_char(0, colon).to_owned();
    let ghost rest = a@.subrange(colon + 1, n as int);
    let is_trunk = is_trunk_keyword_at(&a, colon + 1);
    assert(is_trunk == (rest.len() >= 6 && rest.subrange(0, 6) == trunk_keyword())) by {
        if rest.len() >= 6 {
            assert(rest.subrange(0, 6) =~= a@.subrange(colon + 1, colon + 7));
        }
    }
    if is_trunk {
        match parse_trunk(&a, colon + 7, index) {
            Ok(m) => Ok((name, m)),
            Err(e) => Err(e),
        }
    } else {
        match parse_u16(&a, colon + 1, n) {
            None => Err(SpecError::BadVlanId { index }),
            Some(v) => match PortMode::access(v) {
                Ok(m) => Ok((name, m)),
                Err(e) => Err(SpecError::InvalidMode { index, source: PortModeError::from_invalid_vlan(e) }),
            },
        }
    }
}

fn name_taken(specs: &Vec<(String, PortMode)>, name: &String) -> (b: bool)
    ensures
        b == named_modes_view(specs@).map_values(|q: (Seq<char>, PortModeView)| q.0).contains(name@),
{
    let ghost names = named_modes_view(specs@).map_values(|q: (Seq<char>, PortModeView)| q.0);
    let n = specs.len();
    let mut i: usize = 0;
    while i < n
        invariant
            n == specs@.len(),
            names == named_modes_view(specs@).map_values(|q: (Seq<char>, PortModeView)| q.0),
            i <= n,
            forall|k: int| 0 <= k < i ==> names[k] != name@,
        decreases n - i,
    {
        assert(names[i as int] == specs@[i as int].0@);
        if specs[i].0 == *name {
            return true;
        }
        i = i + 1;
    }
    proof {
        if names.contains(name@) {
            let k = choose|k: int| 0 <= k < names.len() && names[k] == name@;
        }
    }
    false
}

/// Parses port specs, e.g. `tap0:10 tap1:10 tap2:trunk:10:10,20 tap3:trunk:-:20`.
/// `<tap-name>:<vlan-id>` makes an access port;
/// `<tap-name>:trunk:<native-or-->:<allowed-csv>` a trunk (`-` for no native
/// VLAN, an empty list for an untagged-only trunk). A tap name may appear
/// only once.
pub fn parse_port_specs(args: Vec<String>) -> (r: Result<Vec<(String, PortMode)>, SpecError>)
    ensures
        match r {
            Ok(v) => port_specs_spec(args@.map_values(|s: String| s@)) == Ok::<
                Seq<(Seq<char>, PortModeView)>,
                SpecError,
            >(named_modes_view(v@)),
            Err(e) => port_specs_spec(args@.map_values(|s: String| s@)) == Err::<
                Seq<(Seq<char>, PortModeView)>,
                SpecError,
            >(e),
        },
{
    let ghost views = args@.map_values(|s: String| s@);
    let mut specs: Vec<(String, PortMode)> = Vec::new();
    assert(views.take(0) =~= Seq::<Seq<char>>::empty());
    assert(named_modes_view(specs@) =~= Seq::<(Seq<char>, PortModeView)>::empty());
    let n = args.len();
    let mut i: usize = 0;
    while i < n
        invariant
            n == args@.len(),
            views == args@.map_values(|s: String| s@),
            i <= n,
            port_specs_spec(views.take(i as int)) == Ok::<Seq<(Seq<char>, PortModeView)>, SpecError>(
                named_modes_view(specs@),
            ),
        decreases n - i,
    {
        let ghost pre = views.take(i as int);
        let ghost next = views.take(i + 1);
        assert(next.drop_last() =~= pre);
        assert(next.last() == args@[i as int]@);
        let p = match parse_arg(&args[i], i) {
            Ok(p) => p,
            Err(e) => {
                proof {
                    lemma_specs_prefix_err(views, (i + 1) as int);
                }
                return Err(e);
            },
        };
        if name_taken(&specs, &p.0) {
            proof {
                lemma_specs_prefix_err(views, (i + 1) as int);
            }
            return Err(SpecError::DuplicateName { index: i });
        }
        let ghost before = specs@;
        specs.push(p);
        assert(named_modes_view(specs@) =~= named_modes_view(before).push((p.0@, p.1@)));
        i = i + 1;
    }
    assert(views.take(n as int) =~= views);
    Ok(specs)
}

/// Once a prefix of the arguments is rejected, the whole list is rejected
/// with the same error.
proof fn lemma_specs_prefix_err(args: Seq<Seq<char>>, i: int)
    requires
        0 <= i <= args.len(),
        port_specs_spec(args.take(i)) is Err,
    ensures
        port_specs_spec(args) == port_specs_spec(args.take(i)),
    decreases args.len() - i,
{
    if i < args.len() {
        assert(args.take(i + 1).drop_last() =~= args.take(i));
        lemma_specs_prefix_err(args, i + 1);
    } else {
        assert(args.take(i) =~= args);
    }
}

/// `--dashboard` was the last argument, with no bind address after it.
#[derive(Debug, Clone, Copy, PartialEq, Eq)]
pub struct MissingDashboardAddress;

/// The first position at or after `from` where `args` holds `a`.
pub open spec fn first_index_of_arg(args: Seq<Seq<char>>, a: Seq<char>, from: int) -> Option<int>
    decreases args.len() - from,
{
    if from < 0 || from >= args.len() {
        None
    } else if args[from] == a {
        Some(from)
    } else {
        first_index_of_arg(args, a, from + 1)
    }
}

/// The arguments as plain text.
pub open spec fn args_view(args: Seq<String>) -> Seq<Seq<char>> {
    args.map_values(|a: String| a@)
}

/// Takes `--dashboard <bind-addr>` out of `args`, wherever it stands, and
/// returns the address text; the other arguments keep their order. With no
/// `--dashboard`, `args` is left alone and there is no address; with
/// `--dashboard` last, `args` is left alone and the address is missing.
pub fn take_dashboard_addr(args: &mut Vec<String>) -> (r: Result<Option<String>, MissingDashboardAddress>)
    ensures
        match first_index_of_arg(args_view(old(args)@), "--dashboard"@, 0) {
            None => r == Ok::<Option<String>, MissingDashboardAddress>(None) && final(args)@ == old(
                args,
            )@,
            Some(i) => if i + 1 >= old(args)@.len() {
                r == Err::<Option<String>, MissingDashboardAddress>(MissingDashboardAddress)
                    && final(args)@ == old(args)@
            } else {
                &&& r matches Ok(Some(addr))
                &&& addr@ == old(args)@[i + 1]@
                &&& final(args)@ == old(args)@.remove(i + 1).remove(i)
            },
        },
{
    let ghost names = args_view(args@);
    let n = args.len();
    let mut i: usize = 0;
    while i < n
        invariant
            n == args@.len(),
            args@ == old(args)@,
            names == args_view(args@),
            names.len() == n,
            i <= n,
            first_index_of_arg(names, "--dashboard"@, 0) == first_index_of_arg(
                names,
                "--dashboard"@,
                i as int,
            ),
        decreases n - i,
    {
        let text = chars_of(args[i].as_str());
        if equals_text(&text, "--dashboard") {
            assert(names[i as int] == args@[i as int]@);
            assert(first_index_of_arg(names, "--dashboard"@, i as int) == Some(i as int));
            if i + 1 >= n {
                return Err(MissingDashboardAddress);
            }
            let addr = args.remove(i + 1);
            args.remove(i);
            return Ok(Some(addr));
        }
        assert(names[i as int] == args@[i as int]@);
        i = i + 1;
    }
    Ok(None)
}

/// A new topology needs more port ids than fit in 32 bits.
#[derive(Debug, Clone, Copy, PartialEq, Eq)]
pub struct TooManyPorts;

/// What bringing the open ports in line with a topology takes.
#[derive(Debug, PartialEq, Eq)]
pub struct PortPlan {
    /// The open ports whose names the topology no longer has: close each
    /// device and remove the port.
    pub remove: Vec<(String, PortId)>,
    /// Every port of the topology, in its order: the device name, the port
    /// id (the one already open under that name, else a fresh one), the
    /// mode to (re)register it in, and whether its device must be opened.
    pub ports: Vec<(String, PortId, PortMode, bool)>,
    /// The first port id not yet handed out.
    pub next: u64,
}

/// Open ports as plain values.
pub open spec fn open_view(open: Seq<(String, PortId)>) -> Seq<(Seq<char>, PortId)> {
    open.map_values(|p: (String, PortId)| (p.0@, p.1))
}

/// The names of the open ports.
pub open spec fn open_names(open: Seq<(Seq<char>, PortId)>) -> Seq<Seq<char>> {
    open.map_values(|p: (Seq<char>, PortId)| p.0)
}

/// The names of a topology's ports.
pub open spec fn spec_names(specs: Seq<(Seq<char>, PortModeView)>) -> Seq<Seq<char>> {
    specs.map_values(|p: (Seq<char>, PortModeView)| p.0)
}

/// The open ports, in order, whose names `wanted` does not hold.
pub open spec fn removed_ports(open: Seq<(Seq<char>, PortId)>, wanted: Seq<Seq<char>>) -> Seq<
    (Seq<char>, PortId),
>
    decreases open.len(),
{
    if open.len() == 0 {
        Seq::empty()
    } else {
        let r = removed_ports(open.drop_last(), wanted);
        if wanted.contains(open.last().0) {
            r
        } else {
            r.push(open.last())
        }
    }
}

/// How many of `specs`' names are not open yet.
pub open spec fn fresh_count(open: Seq<(Seq<char>, PortId)>, specs: Seq<(Seq<char>, PortModeView)>) -> nat
    decreases specs.len(),
{
    if specs.len() == 0 {
        0
    } else {
        fresh_count(open, specs.drop_last()) + if open_names(open).contains(specs.last().0) {
            0nat
        } else {
            1nat
        }
    }
}

/// The planned ports for `specs`, fresh ids counting up from `next` in
/// topology order; a name already open keeps the id it was first opened
/// under.
pub open spec fn planned_ports(
    open: Seq<(Seq<char>, PortId)>,
    specs: Seq<(Seq<char>, PortModeView)>,
    next: nat,
) -> Seq<(Seq<char>, PortId, PortModeView, bool)>
    decreases specs.len(),
{
    if specs.len() == 0 {
        Seq::empty()
    } else {
        let prev = planned_ports(open, specs.drop_last(), next);
        let name = specs.last().0;
        let mode = specs.last().1;
        match first_index_of_arg(open_names(open), name, 0) {
            Some(k) => prev.push((name, open[k].1, mode, false)),
            None => prev.push(
                (name, PortId((next + fresh_count(open, specs.drop_last())) as u32), mode, true),
            ),
        }
    }
}

/// A plan as plain values.
pub open spec fn plan_view(p: PortPlan) -> (
    Seq<(Seq<char>, PortId)>,
    Seq<(Seq<char>, PortId, PortModeView, bool)>,
    nat,
) {
    (
        open_view(p.remove@),
        p.ports@.map_values(|e: (String, PortId, PortMode, bool)| (e.0@, e.1, e.2@, e.3)),
        p.next as nat,
    )
}

proof fn lemma_first_index_of_arg(names: Seq<Seq<char>>, a: Seq<char>, from: int)
    requires
        0 <= from,
    ensures
        first_index_of_arg(names, a, from) matches Some(k) ==> from <= k < names.len() && names[k] == a,
        first_index_of_arg(names, a, from) is None ==> forall|j: int| from <= j < names.len() ==> names[j] != a,
    decreases names.len() - from,
{
    if from < names.len() {
        lemma_first_index_of_arg(names, a, from + 1);
    }
}

/// The open port named `name`, if any: its position among `open`.
fn find_open(open: &Vec<(String, PortId)>, name: &String) -> (r: Option<usize>)
    ensures
        match r {
            Some(i) => first_index_of_arg(open_names(open_view(open@)), name@, 0) == Some(i as int),
            None => first_index_of_arg(open_names(open_view(open@)), name@, 0) is None,
        },
{
    let ghost names = open_names(open_view(open@));
    let mut i: usize = 0;
    while i < open.len()
        invariant
            names == open_names(open_view(open@)),
            names.len() == open@.len(),
            i <= open@.len(),
            first_index_of_arg(names, name@, 0) == first_index_of_arg(names, name@, i as int),
        decreases open@.len() - i,
    {
        assert(names[i as int] == open@[i as int].0@);
        if open[i].0 == *name {
            return Some(i);
        }
        i = i + 1;
    }
    None
}

fn removed_open_ports(open: &Vec<(String, PortId)>, specs: &Vec<(String, PortMode)>) -> (remove: Vec<
    (String, PortId),
>)
    ensures
        open_view(remove@) == removed_ports(open_view(open@), spec_names(named_modes_view(specs@))),
{
    let ghost ov = open_view(open@);
    let ghost wanted = spec_names(named_modes_view(specs@));
    let mut remove: Vec<(String, PortId)> = Vec::new();
    let mut i: usize = 0;
    while i < open.len()
        invariant
            ov == open_view(open@),
            wanted == spec_names(named_modes_view(specs@)),
            i <= open@.len(),
            open_view(remove@) == removed_ports(ov.take(i as int), wanted),
        decreases open@.len() - i,
    {
        let mut found = false;
        let mut j: usize = 0;
        while j < specs.len()
            invariant
                wanted == spec_names(named_modes_view(specs@)),
                i < open@.len(),
                j <= specs@.len(),
                found == exists|m: int| 0 <= m < j && wanted[m] == open@[i as int].0@,
            decreases specs@.len() - j,
        {
            proof {
                assert(wanted[j as int] == specs@[j as int].0@);
            }
            if specs[j].0 == open[i].0 {
                found = true;
            }
            j = j + 1;
        }
        proof {
            if found {
                let m = choose|m: int| 0 <= m < specs@.len() && wanted[m] == open@[i as int].0@;
                assert(wanted.contains(open@[i as int].0@));
            }
            assert(ov.take(i + 1).drop_last() =~= ov.take(i as int));
            assert(ov.take(i + 1).last() == ov[i as int]);
            assert(ov[i as int] == (open@[i as int].0@, open@[i as int].1));
        }
        if !found {
            remove.push((open[i].0.clone(), open[i].1));
        }
        proof {
            assert(open_view(remove@) =~= removed_ports(ov.take(i + 1), wanted));
        }
        i = i + 1;
    }
    assert(ov.take(open@.len() as int) =~= ov);
    remove
}

/// The planned port for `specs[k]`, given the fresh id it would get.
fn plan_one(open: &Vec<(String, PortId)>, specs: &Vec<(String, PortMode)>, k: usize, fresh: u64) -> (r: (
    String,
    PortId,
    PortMode,
    bool,
))
    requires
        k < specs@.len(),
        fresh < 0x1_0000_0000,
    ensures
        (r.0@, r.1, r.2@, r.3) == (match first_index_of_arg(
            open_names(open_view(open@)),
            specs@[k as int].0@,
            0,
        ) {
            Some(at) => (specs@[k as int].0@, open_view(open@)[at].1, specs@[k as int].1@, false),
            None => (specs@[k as int].0@, PortId(fresh as u32), specs@[k as int].1@, true),
        }),
{
    let name = &specs[k].0;
    let mode = specs[k].1.duplicate();
    match find_open(open, name) {
        Some(at) => {
            proof {
                lemma_first_index_of_arg(open_names(open_view(open@)), name@, 0);
                assert(open_view(open@)[at as int] == (open@[at as int].0@, open@[at as int].1));
            }
            let id = open[at].1;
            (name.clone(), id, mode, false)
        },
        None => (name.clone(), PortId(fresh as u32), mode, true),
    }
}

/// Plans how to bring the ports open under `open` in line with the
/// topology `specs`: which to close and remove, and, in topology order,
/// which id and mode each of its ports gets and which devices to open.
/// Fresh ids count up from `next`; the topology is refused when one would
/// not fit in 32 bits.
pub fn plan_ports(open: &Vec<(String, PortId)>, specs: &Vec<(String, PortMode)>, next: u64) -> (r: Result<
    PortPlan,
    TooManyPorts,
>)
    requires
        next <= 0x1_0000_0000,
    ensures
        match r {
            Ok(p) => {
                &&& next + fresh_count(open_view(open@), named_modes_view(specs@)) <= 0x1_0000_0000
                &&& plan_view(p) == (
                    removed_ports(open_view(open@), spec_names(named_modes_view(specs@))),
                    planned_ports(open_view(open@), named_modes_view(specs@), next as nat),
                    (next + fresh_count(open_view(open@), named_modes_view(specs@))) as nat,
                )
            },
            Err(_) => next + fresh_count(open_view(open@), named_modes_view(specs@)) > 0x1_0000_0000,
        },
{
    let ghost ov = open_view(open@);
    let ghost sv = named_modes_view(specs@);
    let remove = removed_open_ports(open, specs);
    let mut ports: Vec<(String, PortId, PortMode, bool)> = Vec::new();
    let mut fresh: u64 = next;
    let mut k: usize = 0;
    while k < specs.len()
        invariant
            ov == open_view(open@),
            sv == named_modes_view(specs@),
            next <= 0x1_0000_0000,
            k <= specs@.len(),
            fresh == next + fresh_count(ov, sv.take(k as int)),
            fresh <= 0x1_0000_0000,
            ports@.map_values(|e: (String, PortId, PortMode, bool)| (e.0@, e.1, e.2@, e.3))
                == planned_ports(ov, sv.take(k as int), next as nat),
        decreases specs@.len() - k,
    {
        let ghost t = sv.take(k + 1);
        let ghost name = specs@[k as int].0@;
        proof {
            assert(t.drop_last() =~= sv.take(k as int));
            assert(t.last() == sv[k as int]);
            assert(sv[k as int] == (specs@[k as int].0@, specs@[k as int].1@));
            lemma_first_index_of_arg(open_names(ov), name, 0);
            if let Some(at) = first_index_of_arg(open_names(ov), name, 0) {
                assert(open_names(ov)[at] == name);
                assert(open_names(ov).contains(name));
            } else {
                assert(!open_names(ov).contains(name));
            }
        }
        if fresh >= 0x1_0000_0000 && find_open(open, &specs[k].0).is_none() {
            proof {
                lemma_fresh_count_grows(ov, sv, k as int + 1);
            }
            return Err(TooManyPorts);
        }
        let fresh_id = if fresh < 0x1_0000_0000 { fresh } else { 0 };
        let planned = plan_one(open, specs, k, fresh_id);
        let is_new = planned.3;
        ports.push(planned);
        if is_new {
            fresh = fresh + 1;
        }
        proof {
            let pv = ports@.map_values(|e: (String, PortId, PortMode, bool)| (e.0@, e.1, e.2@, e.3));
            assert(pv =~= planned_ports(ov, t, next as nat));
        }
        k = k + 1;
    }
    assert(sv.take(specs@.len() as int) =~= sv);
    Ok(PortPlan { remove, ports, next: fresh })
}

proof fn lemma_fresh_count_grows(
    open: Seq<(Seq<char>, PortId)>,
    specs: Seq<(Seq<char>, PortModeView)>,
    k: int,
)
    requires
        0 <= k <= specs.len(),
    ensures
        fresh_count(open, specs.take(k)) <= fresh_count(open, specs),
    decreases specs.len() - k,
{
    if k < specs.len() {
        lemma_fresh_count_grows(open, specs, k + 1);
        assert(specs.take(k + 1).drop_last() =~= specs.take(k));
    } else {
        assert(specs.take(k) =~= specs);
    }
}

/// The tap name an argument gives: the text before its first colon.
pub open spec fn arg_tap_name(a: Seq<char>) -> Option<Seq<char>> {
    match first_index_of(a, ':', 0) {
        Some(c) => Some(a.subrange(0, c)),
        None => None,
    }
}

/// A tap name may be given only once. When the port specs are accepted,
/// there is one named mode per argument, named by that argument's tap name,
/// and no two of them share a name; and whenever two arguments, however far
/// apart, give the same tap name, the specs are rejected.
pub proof fn law_port_specs_names_are_distinct(args: Seq<Seq<char>>)
    ensures
        port_specs_spec(args) matches Ok(v) ==> {
            &&& v.len() == args.len()
            &&& forall|k: int| 0 <= k < v.len() ==> arg_tap_name(args[k]) == Some(#[trigger] v[k].0)
            &&& forall|i: int, j: int| 0 <= i < j < v.len() ==> #[trigger] v[i].0 != #[trigger] v[j].0
        },
        (exists|i: int, j: int|
            #![trigger args[i], args[j]]
            0 <= i < j < args.len() && arg_tap_name(args[i]) is Some && arg_tap_name(args[i])
                == arg_tap_name(args[j])) ==> port_specs_spec(args) is Err,
    decreases args.len(),
{
    if args.len() > 0 {
        let pre = args.drop_last();
        law_port_specs_names_are_distinct(pre);
        if let Ok(v) = port_specs_spec(args) {
            let acc = port_specs_spec(pre)->Ok_0;
            let p = parse_arg_spec(args.last(), (args.len() - 1) as usize)->Ok_0;
            let names = acc.map_values(|q: (Seq<char>, PortModeView)| q.0);
            assert(v == acc.push(p));
            assert(!names.contains(p.0));
            assert forall|k: int| 0 <= k < v.len() implies arg_tap_name(args[k]) == Some(#[trigger] v[k].0) by {
                if k < acc.len() {
                    assert(args[k] == pre[k]);
                    assert(v[k] == acc[k]);
                }
            }
            assert forall|i: int, j: int| 0 <= i < j < v.len() implies #[trigger] v[i].0 != #[trigger] v[j].0 by {
                if j == acc.len() {
                    assert(names[i] == acc[i].0);
                } else {
                    assert(v[i] == acc[i] && v[j] == acc[j]);
                }
            }
        }
        if exists|i: int, j: int|
            #![trigger args[i], args[j]]
            0 <= i < j < args.len() && arg_tap_name(args[i]) is Some && arg_tap_name(args[i])
                == arg_tap_name(args[j]) {
            let (i, j) = choose|i: int, j: int|
                #![trigger args[i], args[j]]
                0 <= i < j < args.len() && arg_tap_name(args[i]) is Some && arg_tap_name(args[i])
                    == arg_tap_name(args[j]);
            if let Ok(v) = port_specs_spec(args) {
                assert(arg_tap_name(args[i]) == Some(v[i].0));
                assert(arg_tap_name(args[j]) == Some(v[j].0));
                assert(v[i].0 != v[j].0);
            }
        }
    }
}

proof fn lemma_first_colon_after_name(name: Seq<char>, rest: Seq<char>, from: int)
    requires
        !name.contains(':'),
        0 <= from <= name.len(),
    ensures
        first_index_of(name + seq![':'] + rest, ':', from) == Some(name.len() as int),
    decreases name.len() - from,
{
    let a = name + seq![':'] + rest;
    if from < name.len() {
        assert(a[from] == name[from]);
        lemma_first_colon_after_name(name, rest, from + 1);
    } else {
        assert(a[from] == ':');
    }
}

/// An access spec reads back: the argument `<name>:<vlan>`, for a tap name
/// without a colon and an assignable VLAN written in decimal, gives exactly
/// one access port on that VLAN under that name.
pub proof fn law_access_spec_reads_back(name: Seq<char>, vlan: Vlan)
    requires
        !name.contains(':'),
        is_assignable(vlan),
    ensures
        port_specs_spec(seq![name + seq![':'] + decimal(vlan as nat)]) == Ok::<
            Seq<(Seq<char>, PortModeView)>,
            SpecError,
        >(seq![(name, PortModeView::Access { vlan })]),
{
    let digits = decimal(vlan as nat);
    let a = name + seq![':'] + digits;
    let args = seq![a];
    lemma_first_colon_after_name(name, digits, 0);
    law_decimal_reads_back(vlan as nat);
    let c = name.len() as int;
    assert(a.subrange(0, c) =~= name);
    let rest = a.subrange(c + 1, a.len() as int);
    assert(rest =~= digits);
    assert(crate::text::is_digit(rest[0]));
    assert(!(rest.len() >= 6 && rest.subrange(0, 6) == trunk_keyword())) by {
        if rest.len() >= 6 && rest.subrange(0, 6) == trunk_keyword() {
            assert(rest.subrange(0, 6)[0] == rest[0]);
            assert(trunk_keyword()[0] == 't');
        }
    }
    assert(parse_arg_spec(a, 0) == Ok::<(Seq<char>, PortModeView), SpecError>(
        (name, PortModeView::Access { vlan }),
    ));
    assert(args.drop_last() =~= Seq::<Seq<char>>::empty());
    assert(args.last() == a);
    let empty = Seq::<(Seq<char>, PortModeView)>::empty();
    assert(port_specs_spec(args.drop_last()) == Ok::<Seq<(Seq<char>, PortModeView)>, SpecError>(empty));
    assert(parse_arg_spec(args.last(), (args.len() - 1) as usize) == Ok::<(Seq<char>, PortModeView), SpecError>(
        (name, PortModeView::Access { vlan }),
    ));
    assert(!empty.map_values(|q: (Seq<char>, PortModeView)| q.0).contains(name));
    assert(empty.push((name, PortModeView::Access { vlan })) =~= seq![(name, PortModeView::Access { vlan })]);
}

/// Why a frame read off a port produced no deliveries.
#[derive(Debug, Clone, Copy, PartialEq, Eq)]
pub enum FrameEventError {
    /// The bytes are not an Ethernet frame.
    Malformed(ParseError),
    /// The switch refused the frame.
    Rejected(SwitchError),
}

/// What the forwarding loop does with the raw bytes of one frame read off
/// `ingress` at time `now`: parse them, forward the frame, and hand back the
/// deliveries to write out.
pub open spec fn frame_event_spec(s: SwitchView, ingress: PortId, bytes: Seq<u8>, now: u64) -> (
    SwitchView,
    Result<Seq<DeliveryView>, FrameEventError>,
) {
    match parse_spec(bytes) {
        Err(e) => (s, Err(FrameEventError::Malformed(e))),
        Ok(f) => {
            let (s2, r) = forward_spec(s, ingress, f, now);
            (
                s2,
                match r {
                    Ok(ds) => Ok(ds),
                    Err(e) => Err(FrameEventError::Rejected(e)),
                },
            )
        },
    }
}

/// The plain-value form of a frame event's result.
pub open spec fn frame_event_view(r: Result<Vec<Delivery>, FrameEventError>) -> Result<
    Seq<DeliveryView>,
    FrameEventError,
> {
    match r {
        Ok(ds) => Ok(ds@.map_values(|d: Delivery| d@)),
        Err(e) => Err(e),
    }
}

/// Handles one frame read off `ingress`: the decision step of the daemon's
/// forwarding loop, which then writes each delivery to its port.
pub fn handle_frame_event(switch: &mut Switch, ingress: PortId, bytes: &[u8], now: u64) -> (r: Result<
    Vec<Delivery>,
    FrameEventError,
>)
    requires
        old(switch).wf(),
    ensures
        final(switch).wf(),
        (final(switch)@, frame_event_view(r)) == frame_event_spec(old(switch)@, ingress, bytes@, now),
{
    match EthernetFrame::parse(bytes) {
        Err(e) => Err(FrameEventError::Malformed(e)),
        Ok(frame) => match switch.forward(ingress, &frame, now) {
            Ok(ds) => Ok(ds),
            Err(e) => Err(FrameEventError::Rejected(e)),
        },
    }
}

} // verus!
