use designer1_tools::model::{Design, InputYAxis, SignatureMode, StitchCommand, StitchPoint};

fn point(x: i32, y: i32, command: StitchCommand) -> StitchPoint {
    StitchPoint { x, y, command }
}

#[test]
fn parses_inkstitch_color_change_with_metadata() {
    assert_eq!(
        StitchCommand::from_inkstitch_str("COLOR_CHANGE t1 n2"),
        StitchCommand::ColorChange
    );
}

#[test]
fn parses_each_inkstitch_command_word() {
    assert_eq!(StitchCommand::from_inkstitch_str("stitch"), StitchCommand::Stitch);
    assert_eq!(StitchCommand::from_inkstitch_str("  Jump "), StitchCommand::Jump);
    assert_eq!(StitchCommand::from_inkstitch_str("TRIM"), StitchCommand::Trim);
    assert_eq!(StitchCommand::from_inkstitch_str("color"), StitchCommand::ColorChange);
    assert_eq!(StitchCommand::from_inkstitch_str("colorchange"), StitchCommand::ColorChange);
    assert_eq!(StitchCommand::from_inkstitch_str("stop"), StitchCommand::Stop);
    assert_eq!(StitchCommand::from_inkstitch_str("end"), StitchCommand::End);
}

#[test]
fn unknown_command_keeps_normalized_text() {
    assert_eq!(
        StitchCommand::from_inkstitch_str(" sequin eject "),
        StitchCommand::Other("SEQUIN EJECT".to_owned())
    );
    assert_eq!(
        StitchCommand::from_inkstitch_str(""),
        StitchCommand::Other(String::new())
    );
}

#[test]
fn command_classes() {
    assert!(StitchCommand::Stitch.is_drawn_stitch());
    assert!(!StitchCommand::Jump.is_drawn_stitch());
    assert!(StitchCommand::Stitch.is_positioning_move());
    assert!(StitchCommand::Jump.is_positioning_move());
    assert!(StitchCommand::Trim.is_positioning_move());
    assert!(!StitchCommand::ColorChange.is_positioning_move());
    assert!(!StitchCommand::End.is_positioning_move());
}

#[test]
fn stats_count_commands_and_bound_positioning_points() {
    let design = Design {
        name: "x".to_owned(),
        threads: Vec::new(),
        points: vec![
            point(-5, 2, StitchCommand::Jump),
            point(10, -3, StitchCommand::Stitch),
            point(100, 100, StitchCommand::ColorChange),
            point(4, 7, StitchCommand::Trim),
            point(0, 0, StitchCommand::Stop),
            point(0, 0, StitchCommand::End),
        ],
    };
    let stats = design.stats();
    assert_eq!(stats.point_count, 6);
    assert_eq!(stats.thread_count, 0);
    assert_eq!(stats.stitches, 1);
    assert_eq!(stats.jumps, 1);
    assert_eq!(stats.trims, 1);
    assert_eq!(stats.color_changes, 2);
    assert_eq!(stats.ends, 1);
    assert_eq!((stats.left, stats.right, stats.bottom, stats.top), (-5, 10, -3, 7));
    assert_eq!((stats.width, stats.height), (15, 10));
}

#[test]
fn stats_of_design_without_moves_are_zero() {
    let design = Design {
        name: String::new(),
        threads: Vec::new(),
        points: vec![point(50, 50, StitchCommand::End)],
    };
    let stats = design.stats();
    assert_eq!((stats.left, stats.right, stats.bottom, stats.top), (0, 0, 0, 0));
    assert_eq!((stats.width, stats.height), (0, 0));
}

#[test]
fn mode_words_parse() {
    assert_eq!(InputYAxis::parse(" SVG "), Some(InputYAxis::Down));
    assert_eq!(InputYAxis::parse("cartesian"), Some(InputYAxis::Up));
    assert_eq!(InputYAxis::parse("sideways"), None);
    assert_eq!(SignatureMode::parse("Viking"), Some(SignatureMode::Official));
    assert_eq!(SignatureMode::parse("embird"), Some(SignatureMode::Zero));
    assert_eq!(SignatureMode::parse("other"), None);
    assert_eq!(InputYAxis::Up.name(), "up");
    assert_eq!(SignatureMode::Zero.name(), "zero");
    assert_eq!("zeros".parse::<SignatureMode>(), Ok(SignatureMode::Zero));
    assert_eq!(
        " Nope ".parse::<InputYAxis>(),
        Err("unknown Y axis mode \"nope\"; use 'down' or 'up'".to_owned())
    );
    assert_eq!(
        "x".parse::<SignatureMode>(),
        Err("unknown signature mode \"x\"; use 'official' or 'zero'".to_owned())
    );
}

#[test]
fn written_commands_parse_back() {
    let commands = vec![
        StitchCommand::Stitch,
        StitchCommand::Jump,
        StitchCommand::Trim,
        StitchCommand::ColorChange,
        StitchCommand::Stop,
        StitchCommand::End,
        StitchCommand::Other("SEQUIN EJECT".to_owned()),
    ];
    for c in commands {
        assert_eq!(StitchCommand::from_inkstitch_str(&c.text()), c);
    }
    assert_eq!(StitchCommand::ColorChange.text(), "COLOR_CHANGE");
    assert_eq!(StitchCommand::Other("x y".to_owned()).text(), "x y");
}
