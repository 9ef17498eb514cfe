use vstd::prelude::*;

use crate::daemon::named_modes_view;
use crate::switch::{is_assignable, trunk_spec, PortMode, PortModeError, PortModeView, Vlan};

verus! {

/// One port's mode as written in a config file.
#[derive(Debug, Clone, PartialEq, Eq)]
pub enum PortConfigMode {
    Access { vlan: Vlan },
    /// `native` and `allowed` are each optional in the file.
    Trunk { native: Option<Vlan>, allowed: Vec<Vlan> },
}

/// One `[[port]]` table of a config file.
#[derive(Debug, Clone, PartialEq, Eq)]
pub struct PortConfig {
    pub name: String,
    pub mode: PortConfigMode,
}

/// A switch topology: one entry per port, in file order. Shaped like:
///
/// ```toml
/// [[port]]
/// name = "tap0"
/// mode = "access"
/// vlan = 10
///
/// [[port]]
/// name = "tap1"
/// mode = "trunk"
/// native = 10
/// allowed = [10, 20]
/// ```
#[derive(Debug, Clone, PartialEq, Eq)]
pub struct Config {
    pub ports: Vec<PortConfig>,
}

/// Why a config's ports could not all be turned into port modes.
#[derive(Debug, Clone, PartialEq, Eq)]
pub enum ConfigError {
    /// The named port's VLAN(s) are outside 1..=4094, or it is a trunk with
    /// neither a native nor any allowed VLAN.
    InvalidPort { name: String, source: PortModeError },
    /// A port name is repeated.
    DuplicateName(String),
}

/// A config port's mode, as plain values.
pub enum PortConfigModeView {
    Access { vlan: Vlan },
    Trunk { native: Option<Vlan>, allowed: Seq<Vlan> },
}

/// A config port, as plain values.
pub struct PortConfigView {
    pub name: Seq<char>,
    pub mode: PortConfigModeView,
}

/// A config error, as plain values.
pub enum ConfigErrorView {
    InvalidPort { name: Seq<char>, source: PortModeError },
    DuplicateName(Seq<char>),
}

impl View for PortConfigMode {
    type V = PortConfigModeView;

    open spec fn view(&self) -> PortConfigModeView {
        match self {
            PortConfigMode::Access { vlan } => PortConfigModeView::Access { vlan: *vlan },
            PortConfigMode::Trunk { native, allowed } => PortConfigModeView::Trunk {
                native: *native,
                allowed: allowed@,
            },
        }
    }
}

impl View for PortConfig {
    type V = PortConfigView;

    open spec fn view(&self) -> PortConfigView {
        PortConfigView { name: self.name@, mode: self.mode@ }
    }
}

impl View for ConfigError {
    type V = ConfigErrorView;

    open spec fn view(&self) -> ConfigErrorView {
        match self {
            ConfigError::InvalidPort { name, source } => ConfigErrorView::InvalidPort {
                name: name@,
                source: *source,
            },
            ConfigError::DuplicateName(name) => ConfigErrorView::DuplicateName(name@),
        }
    }
}

/// The port mode a config entry's mode stands for, or why it is invalid.
pub open spec fn config_mode_spec(m: PortConfigModeView) -> Result<PortModeView, PortModeError> {
    match m {
        PortConfigModeView::Access { vlan } => if is_assignable(vlan) {
            Ok(PortModeView::Access { vlan })
        } else {
            Err(PortModeError::InvalidVlan(vlan))
        },
        PortConfigModeView::Trunk { native, allowed } => trunk_spec(native, allowed),
    }
}

/// What `Config::into_specs` makes of the ports, in order: a repeated name
/// is reported before its mode is checked.
pub open spec fn into_specs_spec(ports: Seq<PortConfigView>) -> Result<
    Seq<(Seq<char>, PortModeView)>,
    ConfigErrorView,
>
    decreases ports.len(),
{
    if ports.len() == 0 {
        Ok(Seq::empty())
    } else {
        match into_specs_spec(ports.drop_last()) {
            Err(e) => Err(e),
            Ok(acc) => {
                let p = ports.last();
                if acc.map_values(|q: (Seq<char>, PortModeView)| q.0).contains(p.name) {
                    Err(ConfigErrorView::DuplicateName(p.name))
                } else {
                    match config_mode_spec(p.mode) {
                        Err(e) => Err(ConfigErrorView::InvalidPort { name: p.name, source: e }),
                        Ok(m) => Ok(acc.push((p.name, m))),
                    }
                }
            },
        }
    }
}

/// A port name may be used only once. When a config's ports are accepted,
/// there is one named mode per port, in order, named by that port, and no
/// two share a name. Whenever two ports, however far apart, share a name,
/// the config is rejected; a `DuplicateName` error always names a name that
/// two ports share; and when every port's VLANs are valid, the only error is
/// a `DuplicateName`.
pub proof fn law_config_names_are_distinct(ports: Seq<PortConfigView>)
    ensures
        into_specs_spec(ports) matches Ok(v) ==> {
            &&& v.len() == ports.len()
            &&& forall|k: int| 0 <= k < v.len() ==> #[trigger] v[k].0 == ports[k].name
            &&& forall|i: int, j: int| 0 <= i < j < v.len() ==> #[trigger] v[i].0 != #[trigger] v[j].0
        },
        (exists|i: int, j: int|
            #![trigger ports[i], ports[j]]
            0 <= i < j < ports.len() && ports[i].name == ports[j].name) ==> into_specs_spec(ports) is Err,
        into_specs_spec(ports) matches Err(ConfigErrorView::DuplicateName(n)) ==> exists|i: int, j: int|
            #![trigger ports[i], ports[j]]
            0 <= i < j < ports.len() && ports[i].name == n && ports[j].name == n,
        (forall|k: int| 0 <= k < ports.len() ==> config_mode_spec(#[trigger] ports[k].mode) is Ok)
            && into_specs_spec(ports) is Err ==> into_specs_spec(ports)->Err_0 is DuplicateName,
    decreases ports.len(),
{
    if ports.len() > 0 {
        let pre = ports.drop_last();
        law_config_names_are_distinct(pre);
        assert forall|k: int| 0 <= k < pre.len() implies #[trigger] pre[k] == ports[k] by {}
        match into_specs_spec(pre) {
            Err(e) => {
                if let ConfigErrorView::DuplicateName(n) = e {
                    let (i, j) = choose|i: int, j: int|
                        #![trigger pre[i], pre[j]]
                        0 <= i < j < pre.len() && pre[i].name == n && pre[j].name == n;
                    assert(ports[i] == pre[i] && ports[j] == pre[j]);
                }
                if forall|k: int| 0 <= k < ports.len() ==> config_mode_spec(#[trigger] ports[k].mode) is Ok {
                    assert forall|k: int| 0 <= k < pre.len() implies config_mode_spec(#[trigger] pre[k].mode) is Ok by {
                        assert(pre[k] == ports[k]);
                    }
                }
            },
            Ok(acc) => {
                let p = ports.last();
                let names = acc.map_values(|q: (Seq<char>, PortModeView)| q.0);
                if names.contains(p.name) {
                    let i = choose|i: int| 0 <= i < names.len() && names[i] == p.name;
                    assert(acc[i].0 == p.name);
                    assert(ports[i] == pre[i]);
                    assert(ports[ports.len() - 1] == p);
                } else {
                    if forall|k: int| 0 <= k < ports.len() ==> config_mode_spec(#[trigger] ports[k].mode) is Ok {
                        assert(ports[ports.len() - 1] == p);
                    }
                    if let Ok(v) = into_specs_spec(ports) {
                        assert forall|k: int| 0 <= k < v.len() implies #[trigger] v[k].0 == ports[k].name by {
                            if k < acc.len() {
                                assert(v[k] == acc[k]);
                            }
                        }
                        assert forall|i: int, j: int| 0 <= i < j < v.len() implies #[trigger] v[i].0 != #[trigger] v[j].0 by {
                            if j == acc.len() {
                                assert(names[i] == acc[i].0);
                            } else {
                                assert(v[i] == acc[i] && v[j] == acc[j]);
                            }
                        }
                    }
                }
            },
        }
        if exists|i: int, j: int|
            #![trigger ports[i], ports[j]]
            0 <= i < j < ports.len() && ports[i].name == ports[j].name {
            let (i, j) = choose|i: int, j: int|
                #![trigger ports[i], ports[j]]
                0 <= i < j < ports.len() && ports[i].name == ports[j].name;
            if let Ok(v) = into_specs_spec(ports) {
                assert(v[i].0 == ports[i].name);
                assert(v[j].0 == ports[j].name);
            }
        }
    }
}

proof fn lemma_into_specs_prefix_err(ports: Seq<PortConfigView>, i: int)
    requires
        0 <= i <= ports.len(),
        into_specs_spec(ports.take(i)) is Err,
    ensures
        into_specs_spec(ports) == into_specs_spec(ports.take(i)),
    decreases ports.len() - i,
{
    if i < ports.len() {
        assert(ports.take(i + 1).drop_last() =~= ports.take(i));
        lemma_into_specs_prefix_err(ports, i + 1);
    } else {
        assert(ports.take(i) =~= ports);
    }
}

fn name_seen(specs: &Vec<(String, PortMode)>, name: &String) -> (b: bool)
    ensures
        b == named_modes_view(specs@).map_values(|q: (Seq<char>, PortModeView)| q.0).contains(name@),
{
    let ghost names = named_modes_view(specs@).map_values(|q: (Seq<char>, PortModeView)| q.0);
    let n = specs.len();
    let mut i: usize = 0;
    while i < n
        invariant
            n == specs@.len(),
            names == named_modes_view(specs@).map_values(|q: (Seq<char>, PortModeView)| q.0),
            i <= n,
            forall|k: int| 0 <= k < i ==> names[k] != name@,
        decreases n - i,
    {
        assert(names[i as int] == specs@[i as int].0@);
        if specs[i].0 == *name {
            return true;
        }
        i = i + 1;
    }
    proof {
        if names.contains(name@) {
            let k = choose|k: int| 0 <= k < names.len() && names[k] == name@;
        }
    }
    false
}

impl Config {
    /// A config with these ports.
    pub fn from_ports(ports: Vec<PortConfig>) -> (c: Config)
        ensures
            c.ports@ == ports@,
    {
        Config { ports }
    }

    /// Validates this config and turns it into `(name, mode)` pairs, in file
    /// order, the same pairs the command line yields.
    pub fn into_specs(self) -> (r: Result<Vec<(String, PortMode)>, ConfigError>)
        ensures
            match r {
                Ok(v) => into_specs_spec(self.ports@.map_values(|p: PortConfig| p@)) == Ok::<
                    Seq<(Seq<char>, PortModeView)>,
                    ConfigErrorView,
                >(named_modes_view(v@)),
                Err(e) => into_specs_spec(self.ports@.map_values(|p: PortConfig| p@)) == Err::<
                    Seq<(Seq<char>, PortModeView)>,
                    ConfigErrorView,
                >(e@),
            },
    {
        let ghost orig = self.ports@;
        let ghost views = self.ports@.map_values(|p: PortConfig| p@);
        let mut rest = self.ports;
        let mut specs: Vec<(String, PortMode)> = Vec::new();
        assert(views.take(0) =~= Seq::<PortConfigView>::empty());
        assert(named_modes_view(specs@) =~= Seq::<(Seq<char>, PortModeView)>::empty());
        let n = rest.len();
        let mut i: usize = 0;
        while i < n
            invariant
                n == orig.len(),
                views == orig.map_values(|p: PortConfig| p@),
                orig == self.ports@,
                i <= n,
                rest@ == orig.subrange(i as int, n as int),
                into_specs_spec(views.take(i as int)) == Ok::<
                    Seq<(Seq<char>, PortModeView)>,
                    ConfigErrorView,
                >(named_modes_view(specs@)),
            decreases n - i,
        {
            let port = rest.remove(0);
            assert(port == orig[i as int]);
            assert(rest@ =~= orig.subrange(i + 1, n as int));
            let ghost next = views.take(i + 1);
            assert(next.drop_last() =~= views.take(i as int));
            assert(next.last() == port@);
            if name_seen(&specs, &port.name) {
                proof {
                    lemma_into_specs_prefix_err(views, (i + 1) as int);
                }
                return Err(ConfigError::DuplicateName(port.name));
            }
            let mode = match port.mode {
                PortConfigMode::Access { vlan } => match PortMode::access(vlan) {
                    Ok(m) => m,
                    Err(e) => {
                        proof {
                            lemma_into_specs_prefix_err(views, (i + 1) as int);
                        }
                        return Err(
                            ConfigError::InvalidPort {
                                name: port.name,
                                source: PortModeError::from_invalid_vlan(e),
                            },
                        );
                    },
                },
                PortConfigMode::Trunk { native, allowed } => match PortMode::trunk(native, allowed) {
                    Ok(m) => m,
                    Err(e) => {
                        proof {
                            lemma_into_specs_prefix_err(views, (i + 1) as int);
                        }
                        return Err(ConfigError::InvalidPort { name: port.name, source: e });
                    },
                },
            };
            let ghost before = specs@;
            let ghost entry = (port.name@, mode@);
            specs.push((port.name, mode));
            assert(named_modes_view(specs@) =~= named_modes_view(before).push(entry));
            i = i + 1;
        }
        assert(views.take(n as int) =~= views);
        Ok(specs)
    }
}

} // verus!
