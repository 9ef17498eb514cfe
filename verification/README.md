# vlan-rs

An 802.1Q software switch: it parses and builds tagged Ethernet frames,
learns MAC addresses per VLAN, forwards between access and trunk ports, ages
out stale entries, detects its own loop probes coming back, and keeps
per-port and per-VLAN counters.

The switch core is a library verified with Verus; the daemon around it
(TAP devices, signals, timers, the config file, the dashboard's TCP
listener) is ordinary Rust.

## Layout

- `src/frame/`: Ethernet II and 802.1Q parsing and encoding, with the laws
  that parsing undoes encoding and encoding undoes parsing.
- `src/switch/`: port modes, the MAC table, counters, loop-guard probes and
  `Switch::forward`, specified by `forward_spec`; `laws.rs` holds the
  properties proved of forwarding (VLAN isolation, flooding, known unicast,
  learning, probes, counters).
- `src/daemon.rs`: command-line port specs, the `--dashboard` argument,
  planning how a (re)loaded topology changes the open ports, and the step
  the forwarding loop takes for each frame read off a port.
- `src/config.rs`: validating a topology file's ports.
- `src/dashboard.rs`, `src/http.rs`: the counters JSON, request routing and
  the exact HTTP responses.
- `src/text.rs`: small verified text helpers.
- `app/`: the daemon binary.
- `tests/`: executable tests of the library.

## Running

```sh
vlan-rs tap0:10 tap1:10 tap2:trunk:-:10,20
vlan-rs --dashboard 127.0.0.1:8080 --config topology.toml
```

`kill -HUP` rereads the config file; `kill -USR1` prints the counters.
