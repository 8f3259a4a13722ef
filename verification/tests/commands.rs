use terra_flow::console_commands::{
    generate_command, parse_i32_token, parse_milli_token, split_bytes, to_lowercase_bytes,
    GenerateReply,
};
use terra_flow::map::TerrainSettings;

fn bytes(s: &str) -> Vec<u8> {
    s.as_bytes().to_vec()
}

#[test]
fn lowercase_is_ascii_only() {
    assert_eq!(to_lowercase_bytes(&bytes("SiZe-10|X")), bytes("size-10|x"));
    assert_eq!(to_lowercase_bytes(&bytes("")), bytes(""));
}

#[test]
fn split_keeps_empty_parts() {
    let parts = split_bytes(&bytes("a|bc||d"), b'|');
    let views: Vec<Vec<u8>> = parts;
    assert_eq!(views, vec![bytes("a"), bytes("bc"), bytes(""), bytes("d")]);
    assert_eq!(split_bytes(&bytes(""), b'|'), vec![bytes("")]);
    assert_eq!(split_bytes(&bytes("|"), b'|'), vec![bytes(""), bytes("")]);
}

#[test]
fn integer_tokens_parse_like_the_console_expects() {
    assert_eq!(parse_i32_token(&bytes("10")), Some(10));
    assert_eq!(parse_i32_token(&bytes("+7")), Some(7));
    assert_eq!(parse_i32_token(&bytes("-12")), Some(-12));
    assert_eq!(parse_i32_token(&bytes("2147483647")), Some(i32::MAX));
    assert_eq!(parse_i32_token(&bytes("-2147483648")), Some(i32::MIN));
    assert_eq!(parse_i32_token(&bytes("2147483648")), None);
    assert_eq!(parse_i32_token(&bytes("")), None);
    assert_eq!(parse_i32_token(&bytes("-")), None);
    assert_eq!(parse_i32_token(&bytes("1a")), None);
    assert_eq!(parse_i32_token(&bytes("1.5")), None);
}

#[test]
fn milli_tokens_parse_fixed_point_decimals() {
    assert_eq!(parse_milli_token(&bytes("2")), Some(2000));
    assert_eq!(parse_milli_token(&bytes("1.5")), Some(1500));
    assert_eq!(parse_milli_token(&bytes("1.234")), Some(1234));
    assert_eq!(parse_milli_token(&bytes("-0.5")), Some(-500));
    assert_eq!(parse_milli_token(&bytes("+0.25")), Some(250));
    assert_eq!(parse_milli_token(&bytes("3.")), Some(3000));
    assert_eq!(parse_milli_token(&bytes(".5")), Some(500));
    assert_eq!(parse_milli_token(&bytes("0.04")), Some(40));
    assert_eq!(parse_milli_token(&bytes("1.2345")), None);
    assert_eq!(parse_milli_token(&bytes(".")), None);
    assert_eq!(parse_milli_token(&bytes("")), None);
    assert_eq!(parse_milli_token(&bytes("1.2.3")), None);
    assert_eq!(parse_milli_token(&bytes("x")), None);
}

#[test]
fn generate_with_size_and_flat_terrain() {
    let out = generate_command(&bytes("size-10|terrain-flat"));
    let settings = out.settings.expect("settings");
    assert_eq!(settings.size, 10);
    assert_eq!(settings.terrain, TerrainSettings::FLAT);
    assert_eq!(out.replies, vec![GenerateReply::GeneratingFlat]);
}

#[test]
fn generate_is_case_insensitive() {
    let out = generate_command(&bytes("SIZE-4|TERRAIN-FLAT"));
    assert_eq!(out.settings.expect("settings").size, 4);
}

#[test]
fn generate_help_aborts_generation() {
    let out = generate_command(&bytes("help"));
    assert_eq!(out.replies, vec![GenerateReply::Help]);
    assert!(out.settings.is_none());
}

#[test]
fn generate_bad_size_rejects_without_generating() {
    // an unparseable size is an invalid generation parameter: the command
    // replies the rejection and generation is not attempted
    let out = generate_command(&bytes("size-abc|terrain-flat"));
    assert!(out.settings.is_none());
    assert_eq!(out.replies, vec![GenerateReply::SizeParseError]);
}

#[test]
fn generate_curved_reads_parameter_pairs() {
    let out = generate_command(&bytes("terrain-curved-amp-1.5-2-wave-0.25-0.25"));
    let settings = out.settings.expect("settings");
    match settings.terrain {
        TerrainSettings::CURVED(curve) => {
            assert_eq!((curve.amplitude.x, curve.amplitude.y), (1500, 2000));
            assert_eq!((curve.wavelength.x, curve.wavelength.y), (250, 250));
            assert_eq!((curve.vertical_shift.x, curve.vertical_shift.y), (0, 0));
        }
        other => panic!("expected curved terrain, got {other:?}"),
    }
    assert_eq!(out.replies, vec![GenerateReply::GeneratingCurved]);
}

#[test]
fn generate_curved_stops_at_first_bad_value() {
    let out = generate_command(&bytes("terrain-curved-amp-oops-2"));
    let settings = out.settings.expect("settings");
    match settings.terrain {
        TerrainSettings::CURVED(curve) => {
            assert_eq!((curve.amplitude.x, curve.amplitude.y), (0, 0));
        }
        other => panic!("expected curved terrain, got {other:?}"),
    }
}

#[test]
fn generate_unknown_arguments_abort() {
    let out = generate_command(&bytes("bogus"));
    assert_eq!(out.replies, vec![GenerateReply::UnknownArg]);
    assert!(out.settings.is_none());

    let out = generate_command(&bytes("terrain"));
    assert_eq!(out.replies, vec![GenerateReply::NoTerrainType]);
    assert!(out.settings.is_none());

    let out = generate_command(&bytes("terrain-lumpy"));
    assert_eq!(out.replies, vec![GenerateReply::UnknownTerrainType]);
    assert!(out.settings.is_none());
}

#[test]
fn generate_terrain_help_echoes_and_continues() {
    let out = generate_command(&bytes("terrain-help|size-3"));
    let settings = out.settings.expect("settings");
    assert_eq!(settings.size, 3);
    assert_eq!(
        out.replies,
        vec![GenerateReply::TerrainHelp, GenerateReply::GeneratingHelp]
    );
}
