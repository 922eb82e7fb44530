use ssspam_bot::sslang::{Action, SayCommand, SayCommands};

fn cmd(name: &str) -> SayCommand {
    SayCommand {
        name: name.to_string(),
        ..Default::default()
    }
}

#[test]
fn sslang_test_parse_single_command_without_options() {
    assert_eq!(
        SayCommands::from_str("a").unwrap(),
        SayCommands::from(vec![cmd("a")])
    );
    assert_eq!(
        SayCommands::from_str("a;").unwrap(),
        SayCommands::from(vec![cmd("a")])
    );
    assert_eq!(
        SayCommands::from_str(" a  ; ").unwrap(),
        SayCommands::from(vec![cmd("a")])
    );
    assert_eq!(
        SayCommands::from_str("a|").unwrap(),
        SayCommands::from(vec![SayCommand {
            action: Action::Concat,
            ..cmd("a")
        }])
    );
    assert_eq!(
        SayCommands::from_str(" a  | ").unwrap(),
        SayCommands::from(vec![SayCommand {
            action: Action::Concat,
            ..cmd("a")
        }])
    );
}

#[test]
fn sslang_test_parse_single_command_with_options() {
    assert_eq!(
        SayCommands::from_str("a 50").unwrap(),
        SayCommands::from(vec![SayCommand {
            speed: 50,
            ..cmd("a")
        }])
    );
    assert_eq!(
        SayCommands::from_str(" a  50 ").unwrap(),
        SayCommands::from(vec![SayCommand {
            speed: 50,
            ..cmd("a")
        }])
    );
    assert_eq!(
        SayCommands::from_str("a @50").unwrap(),
        SayCommands::from(vec![SayCommand {
            speed: 50,
            ..cmd("a")
        }])
    );
    assert_eq!(
        SayCommands::from_str("a @50 p10 w0.1 s0.2 d0.3 s").unwrap(),
        SayCommands::from(vec![SayCommand {
            speed: 50,
            pitch: 10,
            wait: 100,
            start: 200,
            duration: Some(300),
            stop: true,
            ..cmd("a")
        }])
    );
    assert_eq!(
        SayCommands::from_str("a@50p10w0.1s0.2d0.3s").unwrap(),
        SayCommands::from(vec![SayCommand {
            speed: 50,
            pitch: 10,
            wait: 100,
            start: 200,
            duration: Some(300),
            stop: true,
            ..cmd("a")
        }])
    );
}

#[test]
fn sslang_test_parse_multiple_commands_without_options() {
    assert_eq!(
        SayCommands::from_str("a; b; c").unwrap(),
        SayCommands::from(vec![cmd("a"), cmd("b"), cmd("c")])
    );
    assert_eq!(
        SayCommands::from_str("a;b;c;").unwrap(),
        SayCommands::from(vec![cmd("a"), cmd("b"), cmd("c")])
    );
    assert_eq!(
        SayCommands::from_str("a|b|c|").unwrap(),
        SayCommands::from(vec![
            SayCommand {
                action: Action::Concat,
                ..cmd("a")
            },
            SayCommand {
                action: Action::Concat,
                ..cmd("b")
            },
            SayCommand {
                action: Action::Concat,
                ..cmd("c")
            },
        ])
    );
}

#[test]
fn sslang_test_parse_multiple_commands_with_options() {
    assert_eq!(
        SayCommands::from_str("a @50 p10 w0.1 s0.2 d0.3 s;b @100 p20 w0.2 s0.3 d0.4 s;").unwrap(),
        SayCommands::from(vec![
            SayCommand {
                speed: 50,
                pitch: 10,
                wait: 100,
                start: 200,
                duration: Some(300),
                stop: true,
                ..cmd("a")
            },
            SayCommand {
                speed: 100,
                pitch: 20,
                wait: 200,
                start: 300,
                duration: Some(400),
                stop: true,
                ..cmd("b")
            },
        ])
    );
}

#[test]
fn sslang_test_prioritize_latter_option() {
    assert_eq!(
        SayCommands::from_str("a 10 20").unwrap(),
        SayCommands::from(vec![SayCommand {
            speed: 20,
            ..cmd("a")
        }])
    );
    assert_eq!(
        SayCommands::from_str("a 10 20 30").unwrap(),
        SayCommands::from(vec![SayCommand {
            speed: 30,
            ..cmd("a")
        }])
    );
}

#[test]
fn sslang_test_parse_fails_for_usual_text() {
    assert!(SayCommands::from_str("テスト").is_err());
    assert!(SayCommands::from_str("This is a test").is_err());
}

#[test]
fn test_to_string() {
    assert_eq!(
        SayCommands::from(vec![cmd("a")]).to_string(),
        "a".to_string()
    );
    assert_eq!(
        SayCommands::from(vec![
            SayCommand {
                speed: 50,
                pitch: 10,
                wait: 200,
                start: 300,
                duration: Some(400),
                stop: true,
                ..cmd("a")
            },
            SayCommand {
                speed: 100,
                pitch: 20,
                wait: 300,
                start: 400,
                duration: Some(500),
                stop: true,
                ..cmd("b")
            },
        ])
        .to_string(),
        "a 50 p10 w0.2 s0.3 d0.4 s; b p20 w0.3 s0.4 d0.5 s".to_string()
    );
    assert_eq!(
        SayCommands::from(vec![
            SayCommand {
                action: Action::Concat,
                ..cmd("a")
            },
            SayCommand {
                action: Action::Concat,
                ..cmd("b")
            },
            SayCommand {
                action: Action::Concat,
                ..cmd("c")
            },
        ])
        .to_string(),
        "a| b| c".to_string()
    );
}

#[test]
fn test_audio_filter() {
    assert_eq!(
        SayCommands::from_str("a af=aecho=0.8:0.88:60:0.4").unwrap(),
        SayCommands::from(vec![SayCommand {
            audio_filter: Some("aecho=0.8:0.88:60:0.4".to_owned()),
            ..cmd("a")
        }])
    );

    assert_eq!(
        SayCommands::from_str("a af=aecho=0.8:0.9:1000|1800:0.3|0.25 | b").unwrap(),
        SayCommands::from(vec![
            SayCommand {
                audio_filter: Some("aecho=0.8:0.9:1000|1800:0.3|0.25".to_owned()),
                action: Action::Concat,
                ..cmd("a")
            },
            cmd("b"),
        ])
    );
}

#[test]
fn test_default_action_without_delimiter() {
    let cmds = SayCommands::from_str("boing @50 w0").unwrap();
    assert_eq!(cmds.len(), 1);
    assert_eq!(cmds.get(0).action, Action::Synthesize);
    assert_eq!(cmds.get(0).speed, 50);
    assert_eq!(cmds.get(0).wait, 0);
}

#[test]
fn test_stop_flag_and_word() {
    let cmds = SayCommands::from_str("a s").unwrap();
    assert!(cmds.get(0).stop);
    assert_eq!(cmds.get(0).start, 0);
    let cmds = SayCommands::from_str("a stop").unwrap();
    assert!(cmds.get(0).stop);
    let cmds = SayCommands::from_str("a s1.5").unwrap();
    assert!(!cmds.get(0).stop);
    assert_eq!(cmds.get(0).start, 1500);
}

#[test]
fn test_trailing_garbage_is_ignored() {
    let cmds = SayCommands::from_str("a; ???").unwrap();
    assert_eq!(cmds.len(), 1);
    assert_eq!(cmds.get(0).name, "a");
}

#[test]
fn test_parse_failure_outcomes() {
    assert!(SayCommands::from_str("").is_err());
    assert!(SayCommands::from_str("   ").is_err());
    assert!(SayCommands::from_str("???").is_err());
}

#[test]
fn test_sanitize_clamps_pitch() {
    let mut cmds = SayCommands::from_str("a p999; b p0").unwrap();
    cmds.sanitize();
    assert_eq!(cmds.get(0).pitch, 200);
    assert_eq!(cmds.get(1).pitch, 1);
}

#[test]
fn test_overflowing_numbers() {
    // an overflowing integer makes the item fail entirely
    assert!(SayCommands::from_str("a 99999999999").is_err());
    // huge decimal seconds saturate at the largest millisecond value
    let cmds = SayCommands::from_str("a w99999999999").unwrap();
    assert_eq!(cmds.get(0).wait, u32::MAX);
}

#[test]
fn test_say_command_new() {
    let c = SayCommand::new(
        "x".to_string(),
        120,
        90,
        10,
        20,
        Some(30),
        false,
        Action::Concat,
        None,
    );
    assert_eq!(c.name, "x");
    assert_eq!(c.speed, 120);
    assert_eq!(c.pitch, 90);
    assert_eq!(c.wait, 10);
    assert_eq!(c.start, 20);
    assert_eq!(c.duration, Some(30));
    assert!(!c.stop);
    assert_eq!(c.action, Action::Concat);
    assert_eq!(c.audio_filter, None);
}

#[test]
fn test_into_vec_keeps_order() {
    let cmds = SayCommands::from_str("a; b 50; c|").unwrap();
    let v = cmds.into_vec();
    assert_eq!(v.len(), 3);
    assert_eq!(v[0].name, "a");
    assert_eq!(v[1].name, "b");
    assert_eq!(v[1].speed, 50);
    assert_eq!(v[2].name, "c");
    assert_eq!(v[2].action, Action::Concat);
}

#[test]
fn test_decimal_forms() {
    // "digits", "digits.digits", ".digits" and "digits." are all decimals
    assert_eq!(SayCommands::from_str("a w2").unwrap().get(0).wait, 2000);
    assert_eq!(SayCommands::from_str("a w1.25").unwrap().get(0).wait, 1250);
    assert_eq!(SayCommands::from_str("a w.5").unwrap().get(0).wait, 500);
    assert_eq!(SayCommands::from_str("a w5.").unwrap().get(0).wait, 5000);
    // digits beyond the millisecond are truncated
    assert_eq!(SayCommands::from_str("a w0.9999").unwrap().get(0).wait, 999);
}

#[test]
fn test_name_characters() {
    let cmds = SayCommands::from_str("a-b_c^d!e.f").unwrap();
    assert_eq!(cmds.get(0).name, "a-b_c^d!e.f");
}

#[test]
fn test_incomplete_option_fails_the_item() {
    // a bare '@' is no option and no delimiter, so the item fails
    assert!(SayCommands::from_str("a @").is_err());
    assert!(SayCommands::from_str("a @;").is_err());
    // 'p' without digits likewise
    assert!(SayCommands::from_str("a p;").is_err());
}

#[test]
fn test_empty_audio_filter() {
    let cmds = SayCommands::from_str("a af=;").unwrap();
    assert_eq!(cmds.get(0).audio_filter, Some(String::new()));
}

#[test]
fn test_truncate_caps_the_sequence() {
    let mut cmds = SayCommands::from_str("a; b; c; d; e").unwrap();
    cmds.truncate(3);
    assert_eq!(cmds.len(), 3);
    assert_eq!(cmds.get(2).name, "c");
    cmds.truncate(10);
    assert_eq!(cmds.len(), 3);
}

#[test]
fn test_command_to_string_ends_with_delimiter() {
    assert_eq!(cmd("a").to_string(), "a; ");
    assert_eq!(
        SayCommand {
            action: Action::Concat,
            ..cmd("a")
        }
        .to_string(),
        "a| "
    );
    assert_eq!(
        SayCommand {
            speed: 50,
            ..cmd("a")
        }
        .to_string(),
        "a 50; "
    );
}
