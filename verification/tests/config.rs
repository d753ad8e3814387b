use jfmt::config::{parse_cli, resolve_indent, ConfigError, JfmtCliOpts, JfmtConfig};
use jfmt::format::{Indentation, JSONFormatStyle};

fn opts(compact: bool, spaces: Option<u8>, tabs: bool) -> JfmtCliOpts {
    JfmtCliOpts {
        compact,
        in_place: false,
        spaces,
        tabs,
        output_file: None,
        may_overwrite: false,
        input_file: "-".to_string(),
    }
}

#[test]
fn indentation_defaults_to_four_spaces() {
    assert_eq!(resolve_indent(&opts(false, None, false)), Ok(Indentation::Spaces(4)));
}

#[test]
fn indentation_by_tabs() {
    assert_eq!(resolve_indent(&opts(false, None, true)), Ok(Indentation::Tabs));
}

#[test]
fn indentation_by_spaces_within_limits() {
    assert_eq!(resolve_indent(&opts(false, Some(1), false)), Ok(Indentation::Spaces(1)));
    assert_eq!(resolve_indent(&opts(false, Some(2), false)), Ok(Indentation::Spaces(2)));
    assert_eq!(resolve_indent(&opts(false, Some(16), false)), Ok(Indentation::Spaces(16)));
}

#[test]
fn spaces_outside_limits_are_refused() {
    assert_eq!(resolve_indent(&opts(false, Some(0), false)), Err(ConfigError::SpacesOutOfRange(0)));
    assert_eq!(resolve_indent(&opts(false, Some(17), false)), Err(ConfigError::SpacesOutOfRange(17)));
    assert_eq!(
        resolve_indent(&opts(false, Some(255), false)),
        Err(ConfigError::SpacesOutOfRange(255))
    );
}

#[test]
fn spaces_with_tabs_are_refused() {
    assert_eq!(resolve_indent(&opts(false, Some(2), true)), Err(ConfigError::SpacesWithTabs));
    assert_eq!(resolve_indent(&opts(false, Some(99), true)), Err(ConfigError::SpacesWithTabs));
}

#[test]
fn options_resolve_into_a_configuration() {
    let given = JfmtCliOpts {
        compact: false,
        in_place: true,
        spaces: Some(3),
        tabs: false,
        output_file: Some("out.json".to_string()),
        may_overwrite: true,
        input_file: "in.json".to_string(),
    };
    let want = JfmtConfig {
        input: "in.json".to_string(),
        output: Some("out.json".to_string()),
        in_place: true,
        may_overwrite: true,
        format: JSONFormatStyle::Pretty(Indentation::Spaces(3)),
    };
    assert_eq!(parse_cli(given), Ok(want));
    assert!(!parse_cli(opts(false, None, false)).unwrap().may_overwrite);
    assert_eq!(parse_cli(opts(true, None, false)).unwrap().format, JSONFormatStyle::Compact);
    assert_eq!(
        parse_cli(opts(false, None, false)).unwrap().format,
        JSONFormatStyle::Pretty(Indentation::Spaces(4))
    );
    assert_eq!(
        parse_cli(opts(false, None, true)).unwrap().format,
        JSONFormatStyle::Pretty(Indentation::Tabs)
    );
}

#[test]
fn compact_excludes_indentation() {
    assert_eq!(parse_cli(opts(true, Some(2), false)), Err(ConfigError::CompactWithIndentation));
    assert_eq!(parse_cli(opts(true, None, true)), Err(ConfigError::CompactWithIndentation));
    assert_eq!(parse_cli(opts(true, Some(2), true)), Err(ConfigError::CompactWithIndentation));
    assert_eq!(parse_cli(opts(false, Some(2), true)), Err(ConfigError::SpacesWithTabs));
    assert_eq!(parse_cli(opts(false, Some(0), false)), Err(ConfigError::SpacesOutOfRange(0)));
}
