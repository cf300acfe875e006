use screenwatch::controller::{connected_ports, Command, Controller, Phase};
use screenwatch::differ::equal;
use screenwatch::grammar::{parse_output, parse_resolution, Port};
use screenwatch::scanner::Parser;

fn port(name: &str, connected: bool, primary: bool, resolution: Option<(u64, u64)>) -> Port {
    Port {
        port: name.to_string(),
        connected,
        primary,
        resolution,
    }
}

#[test]
fn resolution_tolerates_any_whitespace() {
    let mut parser = Parser::new("007 \t x\t42 tail".to_owned());
    assert_eq!(parse_resolution(&mut parser), Some((7, 42)));
    // the cursor stands exactly past the second digit run
    assert_eq!(parser.current_text(), " tail");
}

#[test]
fn resolution_failure_restores_cursor() {
    let mut parser = Parser::new("123 y 456".to_owned());
    assert_eq!(parse_resolution(&mut parser), None);
    assert_eq!(parser.current_ix, 0);
}

#[test]
fn parse_u64_overflow_fails_in_place() {
    let mut parser = Parser::new("99999999999999999999".to_owned());
    assert_eq!(parser.parse_u64(), None);
    assert_eq!(parser.current_ix, 0);
}

#[test]
fn parse_i64_bounds() {
    let mut parser = Parser::new("9223372036854775807".to_owned());
    assert_eq!(parser.parse_i64(), Some(i64::MAX));
    let mut parser = Parser::new("-9223372036854775808".to_owned());
    assert_eq!(parser.parse_i64(), Some(i64::MIN));
    let mut parser = Parser::new("9223372036854775808".to_owned());
    assert_eq!(parser.parse_i64(), None);
}

#[test]
fn find_scans_past_noise() {
    let mut parser = Parser::new("noise words 12x34 tail".to_owned());
    assert_eq!(parser.find(parse_resolution), Some((12, 34)));
    assert_eq!(parser.current_text(), " tail");
}

#[test]
fn find_failure_restores_cursor() {
    let mut parser = Parser::new("nothing here".to_owned());
    parser.skip_char('n');
    let at = parser.current_ix;
    assert_eq!(parser.find(parse_resolution), None);
    assert_eq!(parser.current_ix, at);
}

fn full_dump() -> String {
    [
        "Screen 0: minimum 8 x 8, current 5120 x 1600, maximum 32767 x 32767",
        "DVI-D-0 connected 2560x1440+2560+0 (normal left inverted right x axis y axis) 597mm x 336mm",
        "\tEDID:",
        "\t\t00ffffffffffff0010ac55a04c363630",
        "   2560x1440     59.95*+",
        "   1920x1200     59.88",
        "DP-0 disconnected (normal left inverted right x axis y axis)",
    ]
    .join("\n")
}

#[test]
fn parse_output_reads_whole_dump() {
    let ports = parse_output(full_dump());
    assert_eq!(
        ports,
        vec![
            port("Screen", false, false, None),
            port("DVI-D-0", true, false, Some((2560, 1440))),
            port("DP-0", false, false, None),
        ]
    );
}

#[test]
fn parse_output_idempotent() {
    let first = parse_output(full_dump());
    let second = parse_output(full_dump());
    assert_eq!(first, second);
    assert!(equal(&first, &second));
}

#[test]
fn differ_reflexive_and_sensitive() {
    let snap = vec![
        port("HDMI-0", true, true, Some((3840, 2160))),
        port("DVI-D-0", false, false, None),
    ];
    assert!(equal(&snap, &snap));

    let mut changed = snap.clone();
    changed[1].connected = true;
    assert!(!equal(&snap, &changed));

    let mut resized = snap.clone();
    resized[0].resolution = Some((1920, 1080));
    assert!(!equal(&snap, &resized));

    let shorter = vec![snap[0].clone()];
    assert!(!equal(&snap, &shorter));
}

#[test]
fn connected_ports_filters_in_order() {
    let snap = vec![
        port("HDMI-0", true, false, None),
        port("DP-0", false, false, None),
        port("DVI-D-0", true, false, Some((2560, 1440))),
    ];
    let connected = connected_ports(&snap);
    assert_eq!(
        connected,
        vec![
            port("HDMI-0", true, false, None),
            port("DVI-D-0", true, false, Some((2560, 1440))),
        ]
    );
}

#[test]
fn controller_steady_state_only_waits() {
    let mut ctl = Controller::new("HDMI-0".to_string(), 2, 2, 5);
    let snap = vec![port("HDMI-0", true, false, Some((3840, 2160)))];
    // first snapshot differs from the empty history
    ctl.on_snapshot(snap.clone());
    // an unchanged snapshot provokes nothing but the poll delay
    let cmds = ctl.on_snapshot(snap);
    assert_eq!(cmds, vec![Command::Wait(2)]);
    assert_eq!(ctl.phase, Phase::Poll);
}

#[test]
fn controller_auto_configures_without_preferred() {
    let mut ctl = Controller::new("HDMI-0".to_string(), 2, 2, 5);
    let snap = vec![
        port("DVI-D-0", true, false, None),
        port("DP-0", false, false, None),
    ];
    let cmds = ctl.on_snapshot(snap);
    assert_eq!(
        cmds,
        vec![
            Command::ReportPorts,
            Command::Wait(5),
            Command::AutoConfigureOutput("DVI-D-0".to_string()),
            Command::Wait(2),
        ]
    );
    assert_eq!(ctl.phase, Phase::Poll);
}

#[test]
fn controller_disables_others_when_preferred_active() {
    let mut ctl = Controller::new("HDMI-0".to_string(), 2, 2, 5);
    let snap = vec![
        port("HDMI-0", true, true, Some((3840, 2160))),
        port("DVI-D-0", true, false, Some((2560, 1440))),
    ];
    let cmds = ctl.on_snapshot(snap);
    assert_eq!(
        cmds,
        vec![
            Command::ReportPorts,
            Command::DisableOutput("DVI-D-0".to_string()),
            Command::Wait(2),
        ]
    );
}

#[test]
fn controller_switches_before_disabling() {
    // Previous snapshot: the preferred output connected but without a
    // resolution. While it stays so, the controller keeps asking for the
    // preferred mode; a disable of the other connected output comes only
    // after the preferred output reports a resolution, so the switch request
    // comes first in the command stream.
    let mut ctl = Controller::new("HDMI-0".to_string(), 2, 2, 5);
    let idle = vec![
        port("HDMI-0", true, false, None),
        port("DVI-D-0", true, false, Some((2560, 1440))),
    ];
    let mut stream: Vec<Command> = Vec::new();

    stream.extend(ctl.on_snapshot(idle.clone()));
    assert_eq!(ctl.phase, Phase::Activating);
    // one retry cycle: still connected without a resolution
    stream.extend(ctl.on_snapshot(idle.clone()));
    assert_eq!(ctl.phase, Phase::Activating);
    let settled = vec![
        port("HDMI-0", true, false, Some((3840, 2160))),
        port("DVI-D-0", true, false, Some((2560, 1440))),
    ];
    stream.extend(ctl.on_snapshot(settled));
    assert_eq!(ctl.phase, Phase::Poll);

    let first_switch = stream
        .iter()
        .position(|c| matches!(c, Command::SwitchToPreferred));
    let first_disable = stream
        .iter()
        .position(|c| matches!(c, Command::DisableOutput(_)));
    assert!(first_switch.is_some());
    assert!(first_disable.is_some());
    assert!(first_switch.unwrap() < first_disable.unwrap());
}

#[test]
fn controller_leaves_quietly_when_preferred_vanishes() {
    let mut ctl = Controller::new("HDMI-0".to_string(), 2, 2, 5);
    let idle = vec![port("HDMI-0", true, false, None)];
    ctl.on_snapshot(idle);
    assert_eq!(ctl.phase, Phase::Activating);
    let gone = vec![port("DVI-D-0", true, false, Some((2560, 1440)))];
    let cmds = ctl.on_snapshot(gone);
    assert_eq!(cmds, vec![Command::Wait(2)]);
    assert_eq!(ctl.phase, Phase::Poll);
}
