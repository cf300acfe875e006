use screenwatch::grammar::{parse_connection, parse_resolution, parse_screen, Port, Screen};
use screenwatch::scanner::Parser;

#[test]
fn test_parse_resolution() {
    let mut parser = Parser::new("12x67".to_owned());
    assert_eq!(parse_resolution(&mut parser), Some((12, 67)));
}

#[test]
fn test_parse_resolution_white_space() {
    let mut parser = Parser::new("12 x 67".to_owned());
    assert_eq!(parse_resolution(&mut parser), Some((12, 67)));
}

#[test]
fn test_parse_screen() {
    let mut parser = Parser::new(
        "screen 0: minimum 8 x 8, current 5120 x 1600, maximum 32767 x 32767".to_owned(),
    );
    assert_eq!(
        parse_screen(&mut parser),
        Some(Screen {
            number: 0,
            minimum: (8, 8),
            current: (5120, 1600),
            maximum: (32767, 32767),
        })
    );
}

#[test]
fn test_parse_port_dvi_connected() {
    let mut parser = Parser::new(
        "DVI-D-0 connected 2560x1440+2560+0 (normal left inverted right x axis y axis) 597mm x 336mm".to_owned(),
    );
    assert_eq!(
        parse_connection(&mut parser),
        Some(Port {
            port: "DVI-D-0".to_string(),
            connected: true,
            primary: false,
            resolution: Some((2560, 1440)),
        })
    );
}

#[test]
fn test_parse_port_dvi_connected_not_active() {
    let mut parser =
        Parser::new("DVI-D-0 connected (normal left inverted right x axis y axis)".to_owned());
    assert_eq!(
        parse_connection(&mut parser),
        Some(Port {
            port: "DVI-D-0".to_string(),
            connected: true,
            primary: false,
            resolution: None,
        })
    );
}

#[test]
fn test_parse_port_dp_disconnected() {
    let mut parser =
        Parser::new("DP-0 disconnected (normal left inverted right x axis y axis)".to_owned());
    assert_eq!(
        parse_connection(&mut parser),
        Some(Port {
            port: "DP-0".to_string(),
            connected: false,
            primary: false,
            resolution: None,
        })
    );
}

#[test]
fn test_parse_port_dp_connected_primary() {
    let mut parser =
        Parser::new("DP-4 connected primary 2560x1600+0+0 (normal left inverted right x axis y axis) 641mm x 401mm".to_owned());
    assert_eq!(
        parse_connection(&mut parser),
        Some(Port {
            port: "DP-4".to_string(),
            connected: true,
            primary: true,
            resolution: Some((2560, 1600)),
        })
    );
}
