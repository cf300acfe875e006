//! Reconciliation controller: a polling state machine. Each call hands it a
//! fresh snapshot; it compares the snapshot with the previous one and decides
//! which display-control commands to issue before the next poll. The caller
//! performs the commands in order, then fetches the next snapshot.

use vstd::prelude::*;

use crate::differ::{equal, snapshots_equal};
use crate::grammar::{Port, PortV, views_of};

verus! {

/// Where the controller stands between two polls.
#[derive(Debug, PartialEq, Eq, Clone, Copy)]
pub enum Phase {
    /// Waiting for the next routine poll.
    Poll,
    /// Retrying until the preferred output reports an active resolution.
    Activating,
}

/// One display-control command, to be performed by the caller.
#[derive(Debug, PartialEq, Eq, Clone)]
pub enum Command {
    /// Sleep for the given number of time units.
    Wait(u64),
    /// Report the connected outputs of the snapshot just handled.
    ReportPorts,
    /// Ask the display-control interface for the preferred output's mode.
    SwitchToPreferred,
    /// Deactivate the named output.
    DisableOutput(String),
    /// Ask for automatic mode selection on the named output.
    AutoConfigureOutput(String),
}

/// The mathematical value of a `Command`.
pub enum CommandV {
    Wait(u64),
    ReportPorts,
    SwitchToPreferred,
    DisableOutput(Seq<char>),
    AutoConfigureOutput(Seq<char>),
}

impl View for Command {
    type V = CommandV;

    open spec fn view(&self) -> CommandV {
        match self {
            Command::Wait(d) => CommandV::Wait(*d),
            Command::ReportPorts => CommandV::ReportPorts,
            Command::SwitchToPreferred => CommandV::SwitchToPreferred,
            Command::DisableOutput(n) => CommandV::DisableOutput(n@),
            Command::AutoConfigureOutput(n) => CommandV::AutoConfigureOutput(n@),
        }
    }
}

/// The values of a sequence of commands.
pub open spec fn views_of_cmds(cmds: Seq<Command>) -> Seq<CommandV> {
    cmds.map_values(|c: Command| c@)
}

/// The polling controller. The preferred output and the three delays are
/// configuration; `prev` is the snapshot of the previous poll.
pub struct Controller {
    pub preferred: String,
    pub poll_delay: u64,
    pub settle_delay: u64,
    pub retry_delay: u64,
    pub prev: Vec<Port>,
    pub phase: Phase,
}

/// The mathematical value of a `Controller`.
pub struct ControllerV {
    pub preferred: Seq<char>,
    pub poll_delay: u64,
    pub settle_delay: u64,
    pub retry_delay: u64,
    pub prev: Seq<PortV>,
    pub phase: Phase,
}

impl View for Controller {
    type V = ControllerV;

    open spec fn view(&self) -> ControllerV {
        ControllerV {
            preferred: self.preferred@,
            poll_delay: self.poll_delay,
            settle_delay: self.settle_delay,
            retry_delay: self.retry_delay,
            prev: views_of(self.prev@),
            phase: self.phase,
        }
    }
}

/// The first port of the snapshot bearing the given name.
pub open spec fn find_port(s: Seq<PortV>, name: Seq<char>) -> Option<PortV>
    decreases s.len(),
{
    if s.len() == 0 {
        None
    } else if s[0].name == name {
        Some(s[0])
    } else {
        find_port(s.skip(1), name)
    }
}

/// Disable commands for every connected output other than `name`, in order.
pub open spec fn disable_cmds(s: Seq<PortV>, name: Seq<char>) -> Seq<CommandV>
    decreases s.len(),
{
    if s.len() == 0 {
        Seq::empty()
    } else {
        let rest = disable_cmds(s.skip(1), name);
        if s[0].connected && s[0].name != name {
            seq![CommandV::DisableOutput(s[0].name)] + rest
        } else {
            rest
        }
    }
}

/// Auto-configure commands for every connected output that drives no
/// resolution, in order.
pub open spec fn auto_cmds(s: Seq<PortV>) -> Seq<CommandV>
    decreases s.len(),
{
    if s.len() == 0 {
        Seq::empty()
    } else {
        let rest = auto_cmds(s.skip(1));
        if s[0].connected && s[0].resolution is None {
            seq![CommandV::AutoConfigureOutput(s[0].name)] + rest
        } else {
            rest
        }
    }
}

/// The commands one step issues, as a function of the controller's state and
/// the fresh snapshot.
pub open spec fn step_commands(c: ControllerV, snap: Seq<PortV>) -> Seq<CommandV> {
    match c.phase {
        Phase::Poll => {
            if snapshots_equal(c.prev, snap) {
                seq![CommandV::Wait(c.poll_delay)]
            } else {
                match find_port(snap, c.preferred) {
                    Some(p) => {
                        if p.connected && p.resolution is None {
                            seq![CommandV::ReportPorts, CommandV::Wait(c.settle_delay)]
                        } else if p.connected {
                            seq![CommandV::ReportPorts] + disable_cmds(snap, c.preferred) + seq![
                                CommandV::Wait(c.poll_delay),
                            ]
                        } else {
                            seq![CommandV::ReportPorts, CommandV::Wait(c.retry_delay)] + auto_cmds(
                                snap,
                            ) + seq![CommandV::Wait(c.poll_delay)]
                        }
                    },
                    None => {
                        seq![CommandV::ReportPorts, CommandV::Wait(c.retry_delay)] + auto_cmds(snap)
                            + seq![CommandV::Wait(c.poll_delay)]
                    },
                }
            }
        },
        Phase::Activating => {
            match find_port(snap, c.preferred) {
                None => seq![CommandV::Wait(c.poll_delay)],
                Some(p) => {
                    if p.connected && p.resolution is Some {
                        disable_cmds(snap, c.preferred) + seq![CommandV::Wait(c.poll_delay)]
                    } else {
                        seq![
                            CommandV::SwitchToPreferred,
                            CommandV::Wait(c.retry_delay),
                            CommandV::Wait(c.settle_delay),
                        ]
                    }
                },
            }
        },
    }
}

/// The controller's state after one step, as a function of its state and the
/// fresh snapshot.
pub open spec fn step_state(c: ControllerV, snap: Seq<PortV>) -> ControllerV {
    match c.phase {
        Phase::Poll => {
            let phase = if !snapshots_equal(c.prev, snap) && (match find_port(snap, c.preferred) {
                Some(p) => p.connected && p.resolution is None,
                None => false,
            }) {
                Phase::Activating
            } else {
                Phase::Poll
            };
            ControllerV { prev: snap, phase, ..c }
        },
        Phase::Activating => {
            let settled_or_gone = match find_port(snap, c.preferred) {
                None => true,
                Some(p) => p.connected && p.resolution is Some,
            };
            if settled_or_gone {
                ControllerV { phase: Phase::Poll, ..c }
            } else {
                c
            }
        },
    }
}

proof fn lemma_auto_cmds_kind(s: Seq<PortV>, i: int)
    requires
        0 <= i < auto_cmds(s).len(),
    ensures
        auto_cmds(s)[i] is AutoConfigureOutput,
    decreases s.len(),
{
    if s.len() > 0 {
        if s[0].connected && s[0].resolution is None {
            if i > 0 {
                lemma_auto_cmds_kind(s.skip(1), i - 1);
            }
        } else {
            lemma_auto_cmds_kind(s.skip(1), i);
        }
    }
}

/// The controller never asks to disable an output unless the snapshot it is
/// acting on reports the preferred output both connected and driving an
/// active resolution. In particular, while the preferred output still waits
/// for a mode, only waits, reports, switch requests and auto-configure
/// requests are issued.
pub proof fn lemma_disable_only_when_preferred_active(c: ControllerV, snap: Seq<PortV>, i: int)
    requires
        0 <= i < step_commands(c, snap).len(),
        step_commands(c, snap)[i] is DisableOutput,
    ensures
        find_port(snap, c.preferred) matches Some(p) && p.connected && p.resolution is Some,
{
    let cmds = step_commands(c, snap);
    match c.phase {
        Phase::Poll => {
            if !snapshots_equal(c.prev, snap) {
                match find_port(snap, c.preferred) {
                    Some(p) => {
                        if p.connected && p.resolution is None {
                        } else if p.connected {
                        } else {
                            if 2 <= i < 2 + auto_cmds(snap).len() {
                                lemma_auto_cmds_kind(snap, i - 2);
                            }
                        }
                    },
                    None => {
                        if 2 <= i < 2 + auto_cmds(snap).len() {
                            lemma_auto_cmds_kind(snap, i - 2);
                        }
                    },
                }
            }
        },
        Phase::Activating => {
        },
    }
}

proof fn lemma_find_port_at(s: Seq<PortV>, name: Seq<char>, k: int)
    requires
        0 <= k < s.len(),
        s[k].name == name,
        forall|j: int| 0 <= j < k ==> s[j].name != name,
    ensures
        find_port(s, name) == Some(s[k]),
    decreases s.len(),
{
    if k > 0 {
        lemma_find_port_at(s.skip(1), name, k - 1);
    }
}

proof fn lemma_find_port_none(s: Seq<PortV>, name: Seq<char>)
    requires
        forall|j: int| 0 <= j < s.len() ==> s[j].name != name,
    ensures
        find_port(s, name) is None,
    decreases s.len(),
{
    if s.len() > 0 {
        lemma_find_port_none(s.skip(1), name);
    }
}

/// Index of the first port bearing the given name.
fn find_port_ix(ports: &Vec<Port>, name: &String) -> (r: Option<usize>)
    ensures
        match find_port(views_of(ports@), name@) {
            Some(p) => r matches Some(ix) && ix < ports@.len() && ports@[ix as int]@ == p,
            None => r is None,
        },
{
    let ghost s = views_of(ports@);
    let n = ports.len();
    let mut i: usize = 0;
    loop
        invariant
            n == ports@.len(),
            0 <= i as int <= n as int,
            s == views_of(ports@),
            forall|j: int| 0 <= j < i as int ==> s[j].name != name@,
        ensures
            s == views_of(ports@),
            0 <= i as int <= n as int,
            forall|j: int| 0 <= j < i as int ==> s[j].name != name@,
            (i as int) < n as int ==> s[i as int].name == name@,
        decreases n as int - i as int,
    {
        if i >= n {
            break ;
        }
        if ports[i].port == *name {
            break ;
        }
        i = i + 1;
    }
    if i < n {
        proof {
            lemma_find_port_at(s, name@, i as int);
        }
        Some(i)
    } else {
        proof {
            lemma_find_port_none(s, name@);
        }
        None
    }
}

/// A fresh copy of a port, field by field.
fn copy_port(p: &Port) -> (r: Port)
    ensures
        r@ == p@,
{
    Port {
        port: p.port.clone(),
        connected: p.connected,
        primary: p.primary,
        resolution: p.resolution,
    }
}

/// The connected outputs of a snapshot, in order.
pub open spec fn connected_of(s: Seq<PortV>) -> Seq<PortV>
    decreases s.len(),
{
    if s.len() == 0 {
        Seq::empty()
    } else {
        let rest = connected_of(s.skip(1));
        if s[0].connected {
            seq![s[0]] + rest
        } else {
            rest
        }
    }
}

/// The connected ports of a snapshot, in order.
pub fn connected_ports(ports: &Vec<Port>) -> (r: Vec<Port>)
    ensures
        views_of(r@) == connected_of(views_of(ports@)),
{
    let ghost s = views_of(ports@);
    let mut out: Vec<Port> = Vec::new();
    let n = ports.len();
    let mut i: usize = 0;
    proof {
        assert(s.skip(0) =~= s);
        assert(views_of(out@) =~= Seq::<PortV>::empty());
        assert(views_of(out@) + connected_of(s) =~= connected_of(s));
    }
    loop
        invariant
            n == ports@.len(),
            0 <= i as int <= n as int,
            s == views_of(ports@),
            connected_of(s) == views_of(out@) + connected_of(s.skip(i as int)),
        ensures
            i as int == n as int,
            connected_of(s) == views_of(out@) + connected_of(s.skip(i as int)),
        decreases n as int - i as int,
    {
        proof {
            assert(views_of(out@) + connected_of(s.skip(i as int)) =~= connected_of(s));
        }
        if i >= n {
            break ;
        }
        proof {
            assert(s.skip(i as int)[0] == s[i as int]);
            assert(s.skip(i as int).skip(1) =~= s.skip(i as int + 1));
        }
        if ports[i].connected {
            let q = copy_port(&ports[i]);
            proof {
                assert(views_of(out@.push(q)) =~= views_of(out@).push(q@));
                assert(views_of(out@).push(q@) + connected_of(s.skip(i as int + 1)) =~= views_of(
                    out@,
                ) + (seq![s[i as int]] + connected_of(s.skip(i as int + 1))));
            }
            out.push(q);
        }
        i = i + 1;
    }
    proof {
        assert(connected_of(s.skip(n as int)) =~= Seq::<PortV>::empty());
        assert(views_of(out@) + Seq::<PortV>::empty() =~= views_of(out@));
    }
    out
}

/// Disable commands for every connected output other than `preferred`.
fn disable_others(ports: &Vec<Port>, preferred: &String) -> (r: Vec<Command>)
    ensures
        views_of_cmds(r@) == disable_cmds(views_of(ports@), preferred@),
{
    let ghost s = views_of(ports@);
    let mut out: Vec<Command> = Vec::new();
    let n = ports.len();
    let mut i: usize = 0;
    proof {
        assert(s.skip(0) =~= s);
        assert(views_of_cmds(out@) =~= Seq::<CommandV>::empty());
        assert(views_of_cmds(out@) + disable_cmds(s, preferred@) =~= disable_cmds(s, preferred@));
    }
    loop
        invariant
            n == ports@.len(),
            0 <= i as int <= n as int,
            s == views_of(ports@),
            disable_cmds(s, preferred@) == views_of_cmds(out@) + disable_cmds(
                s.skip(i as int),
                preferred@,
            ),
        ensures
            i as int == n as int,
            disable_cmds(s, preferred@) == views_of_cmds(out@) + disable_cmds(
                s.skip(i as int),
                preferred@,
            ),
        decreases n as int - i as int,
    {
        proof {
            assert(views_of_cmds(out@) + disable_cmds(s.skip(i as int), preferred@) =~= disable_cmds(
                s,
                preferred@,
            ));
        }
        if i >= n {
            break ;
        }
        proof {
            assert(s.skip(i as int)[0] == s[i as int]);
            assert(s.skip(i as int).skip(1) =~= s.skip(i as int + 1));
        }
        let is_other = !(ports[i].port == *preferred);
        if ports[i].connected && is_other {
            let cmd = Command::DisableOutput(ports[i].port.clone());
            proof {
                assert(views_of_cmds(out@.push(cmd)) =~= views_of_cmds(out@).push(cmd@));
                assert(views_of_cmds(out@).push(cmd@) + disable_cmds(s.skip(i as int + 1), preferred@)
                    =~= views_of_cmds(out@) + (seq![CommandV::DisableOutput(s[i as int].name)]
                    + disable_cmds(s.skip(i as int + 1), preferred@)));
            }
            out.push(cmd);
        }
        i = i + 1;
    }
    proof {
        assert(disable_cmds(s.skip(n as int), preferred@) =~= Seq::<CommandV>::empty());
        assert(views_of_cmds(out@) + Seq::<CommandV>::empty() =~= views_of_cmds(out@));
    }
    out
}

/// Auto-configure commands for every connected output without a resolution.
fn auto_inactive(ports: &Vec<Port>) -> (r: Vec<Command>)
    ensures
        views_of_cmds(r@) == auto_cmds(views_of(ports@)),
{
    let ghost s = views_of(ports@);
    let mut out: Vec<Command> = Vec::new();
    let n = ports.len();
    let mut i: usize = 0;
    proof {
        assert(s.skip(0) =~= s);
        assert(views_of_cmds(out@) =~= Seq::<CommandV>::empty());
        assert(views_of_cmds(out@) + auto_cmds(s) =~= auto_cmds(s));
    }
    loop
        invariant
            n == ports@.len(),
            0 <= i as int <= n as int,
            s == views_of(ports@),
            auto_cmds(s) == views_of_cmds(out@) + auto_cmds(s.skip(i as int)),
        ensures
            i as int == n as int,
            auto_cmds(s) == views_of_cmds(out@) + auto_cmds(s.skip(i as int)),
        decreases n as int - i as int,
    {
        proof {
            assert(views_of_cmds(out@) + auto_cmds(s.skip(i as int)) =~= auto_cmds(s));
        }
        if i >= n {
            break ;
        }
        proof {
            assert(s.skip(i as int)[0] == s[i as int]);
            assert(s.skip(i as int).skip(1) =~= s.skip(i as int + 1));
        }
        let inactive = ports[i].resolution.is_none();
        if ports[i].connected && inactive {
            let cmd = Command::AutoConfigureOutput(ports[i].port.clone());
            proof {
                assert(views_of_cmds(out@.push(cmd)) =~= views_of_cmds(out@).push(cmd@));
                assert(views_of_cmds(out@).push(cmd@) + auto_cmds(s.skip(i as int + 1))
                    =~= views_of_cmds(out@) + (seq![CommandV::AutoConfigureOutput(s[i as int].name)]
                    + auto_cmds(s.skip(i as int + 1))));
            }
            out.push(cmd);
        }
        i = i + 1;
    }
    proof {
        assert(auto_cmds(s.skip(n as int)) =~= Seq::<CommandV>::empty());
        assert(views_of_cmds(out@) + Seq::<CommandV>::empty() =~= views_of_cmds(out@));
    }
    out
}

impl Controller {
    /// A controller that has seen no snapshot yet.
    pub fn new(preferred: String, poll_delay: u64, settle_delay: u64, retry_delay: u64) -> (r:
        Controller)
        ensures
            r@.preferred == preferred@,
            r@.poll_delay == poll_delay,
            r@.settle_delay == settle_delay,
            r@.retry_delay == retry_delay,
            r@.prev == Seq::<PortV>::empty(),
            r@.phase == Phase::Poll,
    {
        let c = Controller {
            preferred,
            poll_delay,
            settle_delay,
            retry_delay,
            prev: Vec::new(),
            phase: Phase::Poll,
        };
        proof {
            assert(views_of(c.prev@) =~= Seq::<PortV>::empty());
        }
        c
    }

    /// Handle one fresh snapshot: decide the commands to perform before the
    /// next poll and move to the next state.
    pub fn on_snapshot(&mut self, snap: Vec<Port>) -> (cmds: Vec<Command>)
        ensures
            views_of_cmds(cmds@) == step_commands(old(self)@, views_of(snap@)),
            final(self)@ == step_state(old(self)@, views_of(snap@)),
    {
        let ghost c0 = self@;
        let ghost sv = views_of(snap@);
        match self.phase {
            Phase::Poll => {
                if equal(&self.prev, &snap) {
                    let mut cmds: Vec<Command> = Vec::new();
                    cmds.push(Command::Wait(self.poll_delay));
                    self.prev = snap;
                    proof {
                        assert(views_of_cmds(cmds@) =~= seq![CommandV::Wait(c0.poll_delay)]);
                        assert(self@ =~= step_state(c0, sv));
                    }
                    cmds
                } else {
                    let mut cmds: Vec<Command> = Vec::new();
                    cmds.push(Command::ReportPorts);
                    let preferred_ix = find_port_ix(&snap, &self.preferred);
                    match preferred_ix {
                        Some(ix) => {
                            let connected = snap[ix].connected;
                            let active = snap[ix].resolution.is_some();
                            if connected && !active {
                                cmds.push(Command::Wait(self.settle_delay));
                                self.prev = snap;
                                self.phase = Phase::Activating;
                                proof {
                                    assert(views_of_cmds(cmds@) =~= seq![
                                        CommandV::ReportPorts,
                                        CommandV::Wait(c0.settle_delay),
                                    ]);
                                    assert(self@ =~= step_state(c0, sv));
                                }
                                cmds
                            } else if connected {
                                let mut more = disable_others(&snap, &self.preferred);
                                cmds.append(&mut more);
                                cmds.push(Command::Wait(self.poll_delay));
                                self.prev = snap;
                                proof {
                                    assert(views_of_cmds(cmds@) =~= seq![CommandV::ReportPorts]
                                        + disable_cmds(sv, c0.preferred) + seq![
                                        CommandV::Wait(c0.poll_delay),
                                    ]);
                                    assert(self@ =~= step_state(c0, sv));
                                }
                                cmds
                            } else {
                                cmds.push(Command::Wait(self.retry_delay));
                                let mut more = auto_inactive(&snap);
                                cmds.append(&mut more);
                                cmds.push(Command::Wait(self.poll_delay));
                                self.prev = snap;
                                proof {
                                    assert(views_of_cmds(cmds@) =~= seq![
                                        CommandV::ReportPorts,
                                        CommandV::Wait(c0.retry_delay),
                                    ] + auto_cmds(sv) + seq![CommandV::Wait(c0.poll_delay)]);
                                    assert(self@ =~= step_state(c0, sv));
                                }
                                cmds
                            }
                        },
                        None => {
                            cmds.push(Command::Wait(self.retry_delay));
                            let mut more = auto_inactive(&snap);
                            cmds.append(&mut more);
                            cmds.push(Command::Wait(self.poll_delay));
                            self.prev = snap;
                            proof {
                                assert(views_of_cmds(cmds@) =~= seq![
                                    CommandV::ReportPorts,
                                    CommandV::Wait(c0.retry_delay),
                                ] + auto_cmds(sv) + seq![CommandV::Wait(c0.poll_delay)]);
                                assert(self@ =~= step_state(c0, sv));
                            }
                            cmds
                        },
                    }
                }
            },
            Phase::Activating => {
                let preferred_ix = find_port_ix(&snap, &self.preferred);
                match preferred_ix {
                    None => {
                        let mut cmds: Vec<Command> = Vec::new();
                        cmds.push(Command::Wait(self.poll_delay));
                        self.phase = Phase::Poll;
                        proof {
                            assert(views_of_cmds(cmds@) =~= seq![CommandV::Wait(c0.poll_delay)]);
                            assert(self@ =~= step_state(c0, sv));
                        }
                        cmds
                    },
                    Some(ix) => {
                        let connected = snap[ix].connected;
                        let active = snap[ix].resolution.is_some();
                        if connected && active {
                            let mut cmds = disable_others(&snap, &self.preferred);
                            cmds.push(Command::Wait(self.poll_delay));
                            self.phase = Phase::Poll;
                            proof {
                                assert(views_of_cmds(cmds@) =~= disable_cmds(sv, c0.preferred)
                                    + seq![CommandV::Wait(c0.poll_delay)]);
                                assert(self@ =~= step_state(c0, sv));
                            }
                            cmds
                        } else {
                            let mut cmds: Vec<Command> = Vec::new();
                            cmds.push(Command::SwitchToPreferred);
                            cmds.push(Command::Wait(self.retry_delay));
                            cmds.push(Command::Wait(self.settle_delay));
                            proof {
                                assert(views_of_cmds(cmds@) =~= seq![
                                    CommandV::SwitchToPreferred,
                                    CommandV::Wait(c0.retry_delay),
                                    CommandV::Wait(c0.settle_delay),
                                ]);
                                assert(self@ =~= step_state(c0, sv));
                            }
                            cmds
                        }
                    },
                }
            },
        }
    }
}

} // verus!
