use vstd::prelude::*;
use vstd::string::StringExecFns;

use crate::text::{decimal, push_decimal};

use crate::switch::{
    ascending_list, lemma_ascending_list, lemma_ascending_unique, lemma_lookup_port_at,
    lists_in_order, lookup_port, port_counters_or_zero, Counters, PortId, PortMode, PortModeView,
    PortView, Switch, SwitchView, Vlan,
};

verus! {

/// `n` as a JSON string: 64-bit counters are quoted so that a browser's
/// `JSON.parse` (which reads numbers as 64-bit floats) cannot lose
/// precision above 2^53.
pub open spec fn quoted(n: nat) -> Seq<char> {
    "\""@ + decimal(n) + "\""@
}

/// `items` separated by commas.
pub open spec fn join(items: Seq<Seq<char>>) -> Seq<char>
    decreases items.len(),
{
    if items.len() == 0 {
        Seq::empty()
    } else if items.len() == 1 {
        items[0]
    } else {
        join(items.drop_last()) + ","@ + items.last()
    }
}

/// A port's mode as JSON.
pub open spec fn mode_json(m: PortModeView) -> Seq<char> {
    match m {
        PortModeView::Access { vlan } => "{\"kind\":\"access\",\"vlan\":"@ + decimal(vlan as nat)
            + "}"@,
        PortModeView::Trunk { native, allowed } => "{\"kind\":\"trunk\",\"native\":"@ + (match native {
            Some(v) => decimal(v as nat),
            None => "null"@,
        }) + ",\"allowed\":["@ + join(ascending_list(allowed).map_values(|v: Vlan| decimal(v as nat)))
            + "]}"@,
    }
}

/// A port's id, block state, mode and counters as JSON.
pub open spec fn port_json(p: PortView) -> Seq<char> {
    "{\"port\":"@ + decimal(p.id.0 as nat) + ",\"blocked\":"@ + (if p.blocked {
        "true"@
    } else {
        "false"@
    }) + ",\"mode\":"@ + mode_json(p.mode) + ",\"frames_in\":"@ + quoted(
        p.counters.frames_in as nat,
    ) + ",\"bytes_in\":"@ + quoted(p.counters.bytes_in as nat) + ",\"frames_out\":"@ + quoted(
        p.counters.frames_out as nat,
    ) + ",\"bytes_out\":"@ + quoted(p.counters.bytes_out as nat) + ",\"drops\":"@ + quoted(
        p.counters.drops as nat,
    ) + "}"@
}

/// A VLAN's id and counters as JSON.
pub open spec fn vlan_json(e: (Vlan, Counters)) -> Seq<char> {
    "{\"vlan\":"@ + decimal(e.0 as nat) + ",\"frames_in\":"@ + quoted(e.1.frames_in as nat)
        + ",\"bytes_in\":"@ + quoted(e.1.bytes_in as nat) + ",\"frames_out\":"@ + quoted(
        e.1.frames_out as nat,
    ) + ",\"bytes_out\":"@ + quoted(e.1.bytes_out as nat) + "}"@
}

/// The VLAN counters of `m` in ascending VLAN order.
pub open spec fn vlan_list(m: Map<Vlan, Counters>) -> Seq<(Vlan, Counters)> {
    choose|q: Seq<(Vlan, Counters)>| lists_in_order(q, m)
}

/// The dashboard's JSON for a switch: every registered port in ascending id
/// order, then every VLAN that has seen traffic in ascending VLAN order.
pub open spec fn counters_json(s: SwitchView) -> Seq<char> {
    "{\"ports\":["@ + join(s.ports.map_values(|p: PortView| port_json(p))) + "],\"vlans\":["@ + join(
        vlan_list(s.vlans).map_values(|e: (Vlan, Counters)| vlan_json(e)),
    ) + "]}"@
}

/// The JSON object of a port as it shows: its id, block state and mode, then
/// the counters `c` shown for it, each as a quoted decimal.
pub open spec fn shown_port(p: PortView, c: Counters) -> Seq<char> {
    "{\"port\":"@ + decimal(p.id.0 as nat) + ",\"blocked\":"@ + (if p.blocked {
        "true"@
    } else {
        "false"@
    }) + ",\"mode\":"@ + mode_json(p.mode) + ",\"frames_in\":"@ + "\""@ + decimal(c.frames_in as nat)
        + "\""@ + ",\"bytes_in\":"@ + "\""@ + decimal(c.bytes_in as nat) + "\""@ + ",\"frames_out\":"@
        + "\""@ + decimal(c.frames_out as nat) + "\""@ + ",\"bytes_out\":"@ + "\""@ + decimal(
        c.bytes_out as nat,
    ) + "\""@ + ",\"drops\":"@ + "\""@ + decimal(c.drops as nat) + "\""@ + "}"@
}

/// The dashboard shows each port's own counters. Its ports section holds,
/// in ascending id order, one object per registered port, and the object of
/// port `p` shows `p`'s id, block state and mode and exactly the five
/// counters that `port_counters(p)` returns, drops included.
pub proof fn law_dashboard_shows_port_counters(s: SwitchView)
    requires
        crate::switch::ports_ascending(s.ports),
    ensures
        exists|items: Seq<Seq<char>>, tail: Seq<char>|
            {
                &&& items.len() == s.ports.len()
                &&& counters_json(s) == "{\"ports\":["@ + join(items) + "],\"vlans\":["@ + tail
                &&& forall|i: int|
                    0 <= i < items.len() ==> #[trigger] items[i] == shown_port(
                        s.ports[i],
                        port_counters_or_zero(s.ports, s.ports[i].id),
                    )
            },
{
    let items = s.ports.map_values(|p: PortView| port_json(p));
    let tail = join(vlan_list(s.vlans).map_values(|e: (Vlan, Counters)| vlan_json(e))) + "]}"@;
    assert forall|i: int| 0 <= i < items.len() implies #[trigger] items[i] == shown_port(
        s.ports[i],
        port_counters_or_zero(s.ports, s.ports[i].id),
    ) by {
        lemma_lookup_port_at(s.ports, i);
        let p = s.ports[i];
        assert(port_json(p) =~= shown_port(p, p.counters));
    }
    assert(counters_json(s) =~= "{\"ports\":["@ + join(items) + "],\"vlans\":["@ + tail);
}

proof fn lemma_vlan_list(q: Seq<(Vlan, Counters)>, m: Map<Vlan, Counters>)
    requires
        lists_in_order(q, m),
    ensures
        vlan_list(m) == q,
{
    let r = vlan_list(m);
    assert(lists_in_order(r, m));
    let kq = q.map_values(|e: (Vlan, Counters)| e.0);
    let kr = r.map_values(|e: (Vlan, Counters)| e.0);
    assert forall|x: u16| kq.contains(x) <==> kr.contains(x) by {
        if kq.contains(x) {
            let i = choose|i: int| 0 <= i < kq.len() && kq[i] == x;
            assert(q[i].0 == x);
            assert(m.dom().contains(x));
            let j = choose|j: int| 0 <= j < r.len() && #[trigger] r[j].0 == x;
            assert(kr[j] == x);
        }
        if kr.contains(x) {
            let i = choose|i: int| 0 <= i < kr.len() && kr[i] == x;
            assert(r[i].0 == x);
            assert(m.dom().contains(x));
            let j = choose|j: int| 0 <= j < q.len() && #[trigger] q[j].0 == x;
            assert(kq[j] == x);
        }
    }
    assert forall|i: int, j: int| 0 <= i < j < kq.len() implies kq[i] < kq[j] by {
        assert(q[i].0 < q[j].0);
    }
    assert forall|i: int, j: int| 0 <= i < j < kr.len() implies kr[i] < kr[j] by {
        assert(r[i].0 < r[j].0);
    }
    lemma_ascending_unique(kq, kr);
    assert forall|i: int| 0 <= i < q.len() implies q[i] == r[i] by {
        assert(kq[i] == kr[i]);
        assert(m[q[i].0] == q[i].1);
        assert(m[r[i].0] == r[i].1);
    }
    assert(q =~= r);
}

proof fn lemma_join_step(items: Seq<Seq<char>>, i: int)
    requires
        0 <= i < items.len(),
    ensures
        join(items.take(i + 1)) == (if i == 0 {
            items[0]
        } else {
            join(items.take(i)) + ","@ + items[i]
        }),
{
    let t = items.take(i + 1);
    assert(t.drop_last() =~= items.take(i));
    assert(t.last() == items[i]);
    if i == 0 {
        assert(t.len() == 1);
        assert(t[0] == items[0]);
    }
}

fn push_quoted(out: &mut String, n: u64)
    ensures
        final(out)@ == old(out)@ + quoted(n as nat),
{
    out.append("\"");
    push_decimal(out, n);
    out.append("\"");
    assert(final(out)@ =~= old(out)@ + quoted(n as nat));
}

fn push_mode(out: &mut String, mode: &PortMode)
    ensures
        final(out)@ == old(out)@ + mode_json(mode@),
{
    match mode {
        PortMode::Access { vlan } => {
            out.append("{\"kind\":\"access\",\"vlan\":");
            push_decimal(out, *vlan as u64);
            out.append("}");
            assert(final(out)@ =~= old(out)@ + mode_json(mode@));
        },
        PortMode::Trunk { native, allowed } => {
            out.append("{\"kind\":\"trunk\",\"native\":");
            let ghost after_head = out@;
            match native {
                Some(v) => push_decimal(out, *v as u64),
                None => out.append("null"),
            }
            let ghost after_native = out@;
            out.append(",\"allowed\":[");
            let ghost list_start = out@;
            let n = allowed.len();
            let ghost items = allowed.elems().map_values(|v: Vlan| decimal(v as nat));
            let mut i: usize = 0;
            while i < n
                invariant
                    n == allowed.elems().len(),
                    items == allowed.elems().map_values(|v: Vlan| decimal(v as nat)),
                    i <= n,
                    out@ == list_start + join(items.take(i as int)),
                decreases n - i,
            {
                let ghost before = out@;
                assert(items.take(i + 1).drop_last() =~= items.take(i as int));
                if i > 0 {
                    out.append(",");
                }
                let v = allowed.get(i);
                push_decimal(out, v as u64);
                proof {
                    if i == 0 {
                        assert(items.take(1)[0] == items[0]);
                        assert(join(items.take(0)) =~= Seq::<char>::empty());
                    }
                    assert(items.take(i + 1).last() == decimal(v as nat));
                }
                assert(out@ =~= list_start + join(items.take(i + 1)));
                i = i + 1;
            }
            assert(items.take(n as int) =~= items);
            proof {
                lemma_ascending_list(allowed.elems());
            }
            out.append("]}");
            assert(final(out)@ =~= old(out)@ + mode_json(mode@));
        },
    }
}

fn push_counters_tail(out: &mut String, c: &Counters, with_drops: bool)
    ensures
        final(out)@ == old(out)@ + ",\"frames_in\":"@ + quoted(c.frames_in as nat) + ",\"bytes_in\":"@
            + quoted(c.bytes_in as nat) + ",\"frames_out\":"@ + quoted(c.frames_out as nat)
            + ",\"bytes_out\":"@ + quoted(c.bytes_out as nat) + (if with_drops {
            ",\"drops\":"@ + quoted(c.drops as nat)
        } else {
            Seq::<char>::empty()
        }) + "}"@,
{
    let ghost start = out@;
    out.append(",\"frames_in\":");
    push_quoted(out, c.frames_in);
    out.append(",\"bytes_in\":");
    push_quoted(out, c.bytes_in);
    out.append(",\"frames_out\":");
    push_quoted(out, c.frames_out);
    out.append(",\"bytes_out\":");
    push_quoted(out, c.bytes_out);
    let ghost before_drops = out@;
    if with_drops {
        out.append(",\"drops\":");
        push_quoted(out, c.drops);
    } else {
        assert(out@ =~= before_drops + Seq::<char>::empty());
    }
    out.append("}");
    assert(final(out)@ =~= start + ",\"frames_in\":"@ + quoted(c.frames_in as nat)
        + ",\"bytes_in\":"@ + quoted(c.bytes_in as nat) + ",\"frames_out\":"@ + quoted(
        c.frames_out as nat,
    ) + ",\"bytes_out\":"@ + quoted(c.bytes_out as nat) + (if with_drops {
        ",\"drops\":"@ + quoted(c.drops as nat)
    } else {
        Seq::<char>::empty()
    }) + "}"@);
}

/// The part of a port's JSON before its mode.
pub open spec fn port_head_json(id: PortId, blocked: bool) -> Seq<char> {
    "{\"port\":"@ + decimal(id.0 as nat) + ",\"blocked\":"@ + (if blocked {
        "true"@
    } else {
        "false"@
    }) + ",\"mode\":"@
}

fn push_port_head(out: &mut String, id: PortId, blocked: bool)
    ensures
        final(out)@ == old(out)@ + port_head_json(id, blocked),
{
    out.append("{\"port\":");
    push_decimal(out, id.0 as u64);
    out.append(",\"blocked\":");
    if blocked {
        out.append("true");
    } else {
        out.append("false");
    }
    out.append(",\"mode\":");
    assert(final(out)@ =~= old(out)@ + port_head_json(id, blocked));
}

#[verifier::rlimit(30)]
fn push_port(out: &mut String, switch: &Switch, i: usize, id: PortId)
    requires
        switch.wf(),
        i < switch@.ports.len(),
        id == switch@.ports[i as int].id,
    ensures
        final(out)@ == old(out)@ + port_json(switch@.ports[i as int]),
{
    proof {
        switch.lemma_macs_consistent();
        lemma_lookup_port_at(switch@.ports, i as int);
    }
    let ghost p = switch@.ports[i as int];
    let ghost item_start = out@;
    let blocked = switch.is_blocked(id);
    push_port_head(out, id, blocked);
    let ghost after_head = out@;
    match switch.port_mode(id) {
        Some(m) => push_mode(out, &m),
        None => {
            assert(false);
        },
    }
    let ghost after_mode = out@;
    let c = switch.port_counters(id);
    assert(c == p.counters);
    push_counters_tail(out, &c, true);
    assert(after_head == item_start + port_head_json(p.id, p.blocked));
    assert(after_mode == after_head + mode_json(p.mode));
    assert(final(out)@ =~= item_start + port_json(p));
}

fn push_vlan(out: &mut String, vlan: Vlan, c: &Counters)
    ensures
        final(out)@ == old(out)@ + vlan_json((vlan, *c)),
{
    let ghost item_start = out@;
    out.append("{\"vlan\":");
    push_decimal(out, vlan as u64);
    push_counters_tail(out, c, false);
    assert(final(out)@ =~= item_start + vlan_json((vlan, *c)));
}

/// Renders the switch's per-port counters (with each port's mode and
/// loop-guard state) and per-VLAN counters as JSON. Every registered port
/// is listed, idle or not. Every value is a number, a boolean, `null` or
/// one of a few fixed strings, so nothing needs escaping.
pub fn render_counters_json(switch: &Switch) -> (json: String)
    requires
        switch.wf(),
    ensures
        json@ == counters_json(switch@),
{
    proof {
        switch.lemma_macs_consistent();
    }
    let ghost s = switch@;
    let mut out = String::new();
    out.append("{\"ports\":[");
    let ghost ports_start = out@;
    let ids = switch.port_ids();
    let ghost port_items = s.ports.map_values(|p: PortView| port_json(p));
    let n = ids.len();
    let mut i: usize = 0;
    while i < n
        invariant
            switch.wf(),
            s == switch@,
            crate::switch::ports_ascending(s.ports),
            ids@ == s.ports.map_values(|e: PortView| e.id),
            n == ids@.len(),
            port_items == s.ports.map_values(|p: PortView| port_json(p)),
            i <= n,
            out@ == ports_start + join(port_items.take(i as int)),
        decreases n - i,
    {
        let id = ids[i];
        assert(id == s.ports[i as int].id);
        proof {
            lemma_join_step(port_items, i as int);
        }
        let ghost before = out@;
        if i > 0 {
            out.append(",");
        }
        push_port(&mut out, switch, i, id);
        assert(out@ =~= ports_start + join(port_items.take(i + 1)));
        i = i + 1;
    }
    assert(port_items.take(n as int) =~= port_items);
    out.append("],\"vlans\":[");
    let ghost vlans_start = out@;
    let vlans = switch.all_vlan_counters();
    proof {
        lemma_vlan_list(vlans@, s.vlans);
    }
    let ghost vlan_items = vlans@.map_values(|e: (Vlan, Counters)| vlan_json(e));
    let m = vlans.len();
    let mut k: usize = 0;
    while k < m
        invariant
            m == vlans@.len(),
            vlan_items == vlans@.map_values(|e: (Vlan, Counters)| vlan_json(e)),
            k <= m,
            out@ == vlans_start + join(vlan_items.take(k as int)),
        decreases m - k,
    {
        let e = vlans[k];
        proof {
            lemma_join_step(vlan_items, k as int);
        }
        if k > 0 {
            out.append(",");
        }
        push_vlan(&mut out, e.0, &e.1);
        assert(out@ =~= vlans_start + join(vlan_items.take(k + 1)));
        k = k + 1;
    }
    assert(vlan_items.take(m as int) =~= vlan_items);
    out.append("]}");
    assert(out@ =~= counters_json(s));
    out
}

} // verus!
