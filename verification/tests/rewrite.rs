use jfmt::config::{ConfigError, JfmtConfig};
use jfmt::format::JSONFormatStyle;
use jfmt::position::{locate, Position};
use jfmt::rewrite::{
    get_output_file_name, get_temp_file_name, is_stdin, may_replace, next_action, plan, Action,
    Event, OutputTarget, RewriteState, BACKUP_EXT,
};

fn cfg(input: &str, output: Option<&str>, in_place: bool) -> JfmtConfig {
    JfmtConfig {
        input: input.to_string(),
        output: output.map(|p| p.to_string()),
        in_place,
        may_overwrite: false,
        format: JSONFormatStyle::Compact,
    }
}

fn allowed(input: &str, output: Option<&str>, in_place: bool) -> JfmtConfig {
    JfmtConfig { may_overwrite: true, ..cfg(input, output, in_place) }
}

fn write_of(c: &JfmtConfig) -> Action {
    let (state, _) = next_action(c, RewriteState::Planning, Event::Begin);
    assert_eq!(state, RewriteState::Planning);
    let (state, action) = next_action(c, state, Event::Opened);
    assert_eq!(state, RewriteState::Writing);
    action
}

fn some(path: &str) -> Option<String> {
    Some(path.to_string())
}

#[test]
fn temporary_name_appends_the_suffix() {
    assert_eq!(BACKUP_EXT, ".inplace~");
    assert_eq!(get_temp_file_name("data.json"), "data.json.inplace~");
    assert_eq!(get_temp_file_name("dir/caf\u{e9}.json"), "dir/caf\u{e9}.json.inplace~");
    assert_eq!(get_temp_file_name(""), ".inplace~");
}

#[test]
fn a_single_dash_is_standard_input() {
    assert!(is_stdin("-"));
    assert!(!is_stdin(""));
    assert!(!is_stdin("--"));
    assert!(!is_stdin("a"));
    assert!(!is_stdin("\u{2212}"));
}

#[test]
fn output_file_name_by_mode() {
    assert_eq!(get_output_file_name(false, &None, "-"), Ok(None));
    assert_eq!(get_output_file_name(false, &None, "a.json"), Ok(None));
    assert_eq!(get_output_file_name(false, &some("o.json"), "-"), Ok(some("o.json")));
    assert_eq!(get_output_file_name(false, &some("o.json"), "a.json"), Ok(some("o.json")));
    assert_eq!(get_output_file_name(true, &None, "a.json"), Ok(some("a.json.inplace~")));
}

#[test]
fn in_place_with_standard_input_is_refused() {
    assert_eq!(get_output_file_name(true, &None, "-"), Err(ConfigError::InPlaceWithStdin));
    assert_eq!(get_output_file_name(true, &some("o.json"), "-"), Err(ConfigError::InPlaceWithStdin));
    assert_eq!(plan(true, "-", &None), Err(ConfigError::InPlaceWithStdin));
}

#[test]
fn in_place_with_an_output_file_is_refused() {
    assert_eq!(
        get_output_file_name(true, &some("o.json"), "a.json"),
        Err(ConfigError::InPlaceWithOutput)
    );
    assert_eq!(plan(true, "a.json", &some("o.json")), Err(ConfigError::InPlaceWithOutput));
}

#[test]
fn targets_by_mode() {
    assert_eq!(plan(false, "-", &None), Ok(OutputTarget::Stdout));
    assert_eq!(plan(false, "a.json", &some("o.json")), Ok(OutputTarget::NamedFile("o.json".to_string())));
    assert_eq!(
        plan(true, "a.json", &None),
        Ok(OutputTarget::TemporaryFile("a.json.inplace~".to_string(), "a.json".to_string()))
    );
}

fn open(input: &str) -> Action {
    Action::Open { input: input.to_string() }
}

#[test]
fn in_place_run_writes_then_promotes() {
    let c = cfg("a.json", None, true);
    let (state, action) = next_action(&c, RewriteState::Planning, Event::Begin);
    assert_eq!((state, action), (RewriteState::Planning, open("a.json")));
    let (state, action) = next_action(&c, state, Event::Opened);
    assert_eq!(state, RewriteState::Writing);
    assert_eq!(
        action,
        Action::Write {
            target: OutputTarget::TemporaryFile("a.json.inplace~".to_string(), "a.json".to_string()),
            may_overwrite: false,
        }
    );
    let (state, action) = next_action(&c, state, Event::Written);
    assert_eq!(state, RewriteState::Promoting);
    assert_eq!(
        action,
        Action::Promote { from: "a.json.inplace~".to_string(), to: "a.json".to_string() }
    );
    let (state, action) = next_action(&c, state, Event::Promoted);
    assert_eq!((state, action), (RewriteState::Done, Action::Finish));
}

#[test]
fn other_runs_need_no_promotion() {
    let c = cfg("a.json", Some("o.json"), false);
    let (state, action) = next_action(&c, RewriteState::Planning, Event::Begin);
    assert_eq!((state, action), (RewriteState::Planning, open("a.json")));
    let (state, action) = next_action(&c, state, Event::Opened);
    assert_eq!(state, RewriteState::Writing);
    assert_eq!(
        action,
        Action::Write { target: OutputTarget::NamedFile("o.json".to_string()), may_overwrite: false }
    );
    assert_eq!(next_action(&c, state, Event::Written), (RewriteState::Done, Action::Finish));

    let c = cfg("-", None, false);
    let (state, action) = next_action(&c, RewriteState::Planning, Event::Begin);
    assert_eq!((state, action), (RewriteState::Planning, open("-")));
    let (state, action) = next_action(&c, state, Event::Opened);
    assert_eq!(action, Action::Write { target: OutputTarget::Stdout, may_overwrite: false });
    assert_eq!(next_action(&c, state, Event::Written), (RewriteState::Done, Action::Finish));
}

#[test]
fn an_input_that_cannot_be_opened_ends_the_run() {
    for c in [cfg("a.json", None, true), cfg("a.json", Some("o.json"), false), cfg("a.json", None, false)] {
        let (state, action) = next_action(&c, RewriteState::Planning, Event::Begin);
        assert_eq!((state, action), (RewriteState::Planning, open("a.json")));
        let (state, action) = next_action(&c, state, Event::Fault);
        assert_eq!((state, action), (RewriteState::Failed, Action::Halt));
        assert_eq!(next_action(&c, state, Event::Opened), (RewriteState::Failed, Action::Halt));
    }
}

#[test]
fn a_fault_while_writing_never_promotes() {
    let c = cfg("a.json", None, true);
    let (state, _) = next_action(&c, RewriteState::Planning, Event::Begin);
    let (state, _) = next_action(&c, state, Event::Opened);
    assert_eq!(state, RewriteState::Writing);
    let (state, action) = next_action(&c, state, Event::Fault);
    assert_eq!((state, action), (RewriteState::Failed, Action::Halt));
    for event in [Event::Begin, Event::Opened, Event::Written, Event::Promoted, Event::Fault] {
        assert_eq!(next_action(&c, state, event), (RewriteState::Failed, Action::Halt));
    }
}

#[test]
fn a_fault_while_promoting_fails_the_run() {
    let c = cfg("a.json", None, true);
    assert_eq!(
        next_action(&c, RewriteState::Promoting, Event::Fault),
        (RewriteState::Failed, Action::Halt)
    );
    assert_eq!(
        next_action(&c, RewriteState::Planning, Event::Fault),
        (RewriteState::Failed, Action::Halt)
    );
}

#[test]
fn conflicting_options_are_rejected_before_any_file_is_touched() {
    let c = cfg("a.json", Some("o.json"), true);
    assert_eq!(
        next_action(&c, RewriteState::Planning, Event::Begin),
        (RewriteState::Failed, Action::Reject(ConfigError::InPlaceWithOutput))
    );
    assert_eq!(
        next_action(&c, RewriteState::Planning, Event::Opened),
        (RewriteState::Failed, Action::Reject(ConfigError::InPlaceWithOutput))
    );
    let c = cfg("-", None, true);
    assert_eq!(
        next_action(&c, RewriteState::Planning, Event::Begin),
        (RewriteState::Failed, Action::Reject(ConfigError::InPlaceWithStdin))
    );
    assert_eq!(
        next_action(&c, RewriteState::Failed, Event::Written),
        (RewriteState::Failed, Action::Halt)
    );
}

#[test]
fn events_out_of_turn_fail_the_run() {
    let c = cfg("a.json", None, true);
    assert_eq!(
        next_action(&c, RewriteState::Planning, Event::Written),
        (RewriteState::Failed, Action::Halt)
    );
    assert_eq!(
        next_action(&c, RewriteState::Planning, Event::Promoted),
        (RewriteState::Failed, Action::Halt)
    );
    assert_eq!(
        next_action(&c, RewriteState::Writing, Event::Promoted),
        (RewriteState::Failed, Action::Halt)
    );
    assert_eq!(
        next_action(&c, RewriteState::Writing, Event::Opened),
        (RewriteState::Failed, Action::Halt)
    );
    assert_eq!(
        next_action(&c, RewriteState::Promoting, Event::Written),
        (RewriteState::Failed, Action::Halt)
    );
    assert_eq!(
        next_action(&c, RewriteState::Writing, Event::Begin),
        (RewriteState::Failed, Action::Halt)
    );
}

#[test]
fn done_is_never_left() {
    let c = cfg("a.json", None, true);
    for event in [Event::Begin, Event::Opened, Event::Written, Event::Promoted, Event::Fault] {
        assert_eq!(next_action(&c, RewriteState::Done, event), (RewriteState::Done, Action::Finish));
    }
}

#[test]
fn lines_and_columns_count_from_one() {
    let input = b"{\n  \"a\": tru3\n}";
    assert_eq!(locate(input, 0), Position { line: 1, column: 1 });
    assert_eq!(locate(input, 1), Position { line: 1, column: 2 });
    assert_eq!(locate(input, 2), Position { line: 2, column: 1 });
    assert_eq!(locate(input, 12), Position { line: 2, column: 11 });
    assert_eq!(locate(input, 14), Position { line: 3, column: 1 });
    assert_eq!(locate(input, 15), Position { line: 3, column: 2 });
    assert_eq!(locate(b"", 0), Position { line: 1, column: 1 });
    assert_eq!(locate(b"\n\n\n", 3), Position { line: 4, column: 1 });
    assert_eq!(locate(b"a\r\nb", 3), Position { line: 2, column: 1 });
}

#[test]
fn places_move_on_piece_by_piece() {
    let start = Position::start();
    assert_eq!(start, Position { line: 1, column: 1 });
    assert_eq!(start.moved(b"abc", 0), Some(Position { line: 1, column: 1 }));
    assert_eq!(start.moved(b"abc", 3), Some(Position { line: 1, column: 4 }));
    assert_eq!(start.moved(b"a\nbc", 2), Some(Position { line: 2, column: 1 }));
    assert_eq!(start.moved(b"a\nbc", 4), Some(Position { line: 2, column: 3 }));
    assert_eq!(start.moved(b"\n\n", 2), Some(Position { line: 3, column: 1 }));
    let mid = Position { line: 7, column: 5 };
    assert_eq!(mid.moved(b"xy", 2), Some(Position { line: 7, column: 7 }));
    assert_eq!(mid.moved(b"x\ny", 3), Some(Position { line: 8, column: 2 }));

    let input = b"{\n  \"a\": [1,\n 2,\n\n x]}";
    for cut in 0..=input.len() {
        let first = start.moved(&input[..cut], cut).unwrap();
        for k in 0..=(input.len() - cut) {
            assert_eq!(first.moved(&input[cut..], k), Some(locate(input, cut + k)));
        }
    }
}

#[test]
fn places_that_do_not_fit_are_not_told() {
    let far = Position { line: usize::MAX, column: usize::MAX };
    assert_eq!(far.moved(b"", 0), Some(far));
    assert_eq!(far.moved(b"a", 1), None);
    assert_eq!(far.moved(b"\n", 1), None);
    let wide = Position { line: 3, column: usize::MAX };
    assert_eq!(wide.moved(b"a", 1), None);
    assert_eq!(wide.moved(b"a\nb", 3), Some(Position { line: 4, column: 2 }));
    let deep = Position { line: usize::MAX, column: 3 };
    assert_eq!(deep.moved(b"ab", 2), Some(Position { line: usize::MAX, column: 5 }));
    assert_eq!(deep.moved(b"a\n", 2), None);
}

#[test]
fn an_output_file_is_not_replaced_unless_that_was_allowed() {
    let named = OutputTarget::NamedFile("o.json".to_string());
    assert_eq!(
        write_of(&cfg("a.json", Some("o.json"), false)),
        Action::Write { target: named.clone(), may_overwrite: false }
    );
    assert_eq!(
        write_of(&allowed("a.json", Some("o.json"), false)),
        Action::Write { target: named.clone(), may_overwrite: true }
    );
    assert_eq!(
        write_of(&allowed("-", Some("o.json"), false)),
        Action::Write { target: named, may_overwrite: true }
    );
    assert!(!may_replace(&cfg("a.json", Some("o.json"), false)));
    assert!(may_replace(&allowed("a.json", Some("o.json"), false)));
    assert!(may_replace(&allowed("a.json", None, false)));
    assert!(!may_replace(&cfg("a.json", None, false)));
}

#[test]
fn the_temporary_file_is_never_replaced() {
    let temp = OutputTarget::TemporaryFile("a.json.inplace~".to_string(), "a.json".to_string());
    assert_eq!(
        write_of(&cfg("a.json", None, true)),
        Action::Write { target: temp.clone(), may_overwrite: false }
    );
    assert_eq!(
        write_of(&allowed("a.json", None, true)),
        Action::Write { target: temp, may_overwrite: false }
    );
    assert!(!may_replace(&allowed("a.json", None, true)));
}

#[test]
fn the_input_file_is_never_written_over() {
    let onto = OutputTarget::NamedFile("a.json".to_string());
    assert_eq!(
        write_of(&cfg("a.json", Some("a.json"), false)),
        Action::Write { target: onto.clone(), may_overwrite: false }
    );
    assert_eq!(
        write_of(&allowed("a.json", Some("a.json"), false)),
        Action::Write { target: onto, may_overwrite: false }
    );
    assert!(!may_replace(&allowed("a.json", Some("a.json"), false)));
    // A file named `-` is not standard input.
    assert_eq!(
        write_of(&allowed("-", Some("-"), false)),
        Action::Write { target: OutputTarget::NamedFile("-".to_string()), may_overwrite: true }
    );
}
