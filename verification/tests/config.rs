use chrono::{Month, Weekday};
use occasion::config::{
    LoadAction, LoadOutcome,
    Config, CustomCommand, DayOf, MergeStrategy, MultipleBehavior, RunCondition, TimeRange,
    TimeRangeMessage, MAX_IMPORT_DEPTH,
};
use occasion::errors::ConfigError;
use std::collections::HashSet;
use std::path::PathBuf;

fn message(text: &str) -> TimeRangeMessage {
    TimeRangeMessage {
        message: Some(text.to_string()),
        condition: Some(RunCondition {
            predicate: Some("true".to_string()),
            ..Default::default()
        }),
        ..Default::default()
    }
}

fn root() -> Config {
    Config {
        imports: vec![PathBuf::from("import_1.json")],
        dates: vec![TimeRangeMessage {
            message: Some("hai :3".to_string()),
            time: Some(TimeRange {
                day_of: Some(DayOf::Month(HashSet::from([1, 3, 5, 7, 9]))),
                week: None,
                month: Some(HashSet::from([Month::January, Month::June, Month::July])),
                year: Some(HashSet::from([2016, 2017, 2018, 2022, 2024, 2005, 2030])),
            }),
            ..Default::default()
        }],
        ..Default::default()
    }
}

fn import_1() -> Config {
    Config {
        dates: vec![message("hewwo")],
        week_start_day: Some(Weekday::Wed),
        multiple_behavior: Some(MultipleBehavior::Random),
        ..Default::default()
    }
}

fn import_2() -> Config {
    Config {
        dates: vec![message("trans rights !!")],
        ..Default::default()
    }
}

#[test]
fn default_multiple_behavior_is_all_without_separator() {
    assert_eq!(
        MultipleBehavior::default(),
        MultipleBehavior::All { seperator: String::new() }
    );
    assert_eq!(MergeStrategy::default(), MergeStrategy::OR);
}

#[test]
fn merge_appends_dates_and_fills_unset_settings() {
    let mut a = root();
    a.merge(import_1());
    assert_eq!(a.dates.len(), 2);
    assert_eq!(a.dates[0], root().dates[0]);
    assert_eq!(a.dates[1], message("hewwo"));
    assert_eq!(a.week_start_day, Some(Weekday::Wed));
    assert_eq!(a.multiple_behavior, Some(MultipleBehavior::Random));
    assert_eq!(a.imports, vec![PathBuf::from("import_1.json")]);
}

#[test]
fn merge_keeps_settings_already_set() {
    let mut a = Config {
        multiple_behavior: Some(MultipleBehavior::First),
        week_start_day: Some(Weekday::Mon),
        ..Default::default()
    };
    a.merge(import_1());
    assert_eq!(a.multiple_behavior, Some(MultipleBehavior::First));
    assert_eq!(a.week_start_day, Some(Weekday::Mon));
    assert_eq!(a.dates, vec![message("hewwo")]);
}

#[test]
fn merge_is_associative() {
    let mut left = root();
    left.merge(import_1());
    left.merge(import_2());

    let mut inner = import_1();
    inner.merge(import_2());
    let mut right = root();
    right.merge(inner);

    assert_eq!(left, right);
}

#[test]
fn merging_an_empty_config_changes_nothing() {
    let mut a = root();
    a.merge(Config {
        imports: vec![PathBuf::from("ignored.json")],
        ..Default::default()
    });
    assert_eq!(a, root());
}

#[test]
fn imports_are_merged_in_order() {
    let mut read = root();
    read.merge_imports(vec![Ok(import_1()), Ok(import_2())]);

    let mut expected = root();
    expected.merge(import_1());
    expected.merge(import_2());
    assert_eq!(read, expected);
}

#[test]
fn failed_imports_are_skipped() {
    let mut read = root();
    read.merge_imports(vec![
        Err(ConfigError::MaxRecursionDepth),
        Ok(import_2()),
        Err(ConfigError::NotAFile),
        Ok(import_1()),
    ]);

    let mut expected = root();
    expected.merge(import_2());
    expected.merge(import_1());
    assert_eq!(read, expected);
    assert_eq!(read.week_start_day, Some(Weekday::Wed));
}

#[test]
fn no_loaded_imports_leave_the_config_alone() {
    let mut read = root();
    read.merge_imports(vec![Err(ConfigError::Unknown)]);
    assert_eq!(read, root());
    let mut read = root();
    read.merge_imports(Vec::new());
    assert_eq!(read, root());
}

#[test]
fn import_depth_is_limited() {
    assert_eq!(MAX_IMPORT_DEPTH, 2);
    assert!(Config::check_depth(0).is_ok());
    assert!(Config::check_depth(2).is_ok());
    assert!(matches!(
        Config::check_depth(3),
        Err(ConfigError::MaxRecursionDepth)
    ));
    assert!(matches!(
        Config::check_depth(255),
        Err(ConfigError::MaxRecursionDepth)
    ));
}

#[test]
fn nested_imports_stop_at_the_depth_limit() {
    // root (depth 0) imports a (depth 1), which imports b (depth 2), which
    // imports c (depth 3): c is refused, so b stays as written.
    let c_result: Result<Config, ConfigError> = match Config::check_depth(3) {
        Ok(()) => Ok(Config::default()),
        Err(e) => Err(e),
    };
    let mut b = import_2();
    b.merge_imports(vec![c_result]);
    assert_eq!(b, import_2());

    let mut a = import_1();
    a.merge_imports(vec![Ok(b)]);
    let mut r = root();
    r.merge_imports(vec![Ok(a)]);

    let mut expected = root();
    expected.merge(import_1());
    expected.merge(import_2());
    assert_eq!(r, expected);
}

#[test]
fn command_fields_are_kept() {
    let cmd = CustomCommand {
        run: "echo \"Hello!\"".to_string(),
        shell: Some("sh".to_string()),
        shell_flags: Some(vec!["-c".to_string()]),
    };
    let mut a = Config::default();
    a.merge(Config {
        dates: vec![TimeRangeMessage {
            command: Some(cmd.clone()),
            merge_strategy: MergeStrategy::XOR,
            ..Default::default()
        }],
        ..Default::default()
    });
    assert_eq!(a.dates[0].command, Some(cmd));
    assert_eq!(a.dates[0].merge_strategy, MergeStrategy::XOR);
}

#[test]
fn circular_import_stops_at_the_depth_limit() {
    // root (depth 0) imports a (depth 1), which imports root again (depth 2),
    // whose own import of a (depth 3) is refused.
    let refused: Result<Config, ConfigError> = match Config::check_depth(3) {
        Ok(()) => Ok(Config::default()),
        Err(e) => Err(e),
    };
    let a = || Config {
        imports: vec![PathBuf::from("occasions.json")],
        dates: vec![message("hewwo")],
        ..Default::default()
    };
    let mut inner_root = root();
    inner_root.merge_imports(vec![refused]);
    let mut inner_a = a();
    inner_a.merge_imports(vec![Ok(inner_root)]);
    let mut read = root();
    read.merge_imports(vec![Ok(inner_a)]);

    let mut expected = root();
    expected.merge(a());
    expected.merge(root());
    assert_eq!(read, expected);
    assert_eq!(read.dates.len(), 3);
}

#[test]
fn clone_gives_an_equal_config() {
    let mut a = root();
    a.merge(import_1());
    let b = a.clone();
    assert_eq!(a, b);
    let t = a.dates[0].time.clone();
    assert_eq!(t, root().dates[0].time);
    let d = DayOf::Week(HashSet::from([Weekday::Mon, Weekday::Fri]));
    assert_eq!(d.clone(), d);
}

#[test]
fn merging_into_the_default_drops_only_the_imports() {
    let mut d = Config::default();
    d.merge(root());
    let expected = Config {
        imports: vec![],
        ..root()
    };
    assert_eq!(d, expected);
    let mut c = root();
    c.merge(Config::default());
    assert_eq!(c, root());
}

#[test]
fn missing_file_asks_for_the_default() {
    assert!(matches!(
        Config::after_first_load(LoadOutcome::Missing),
        LoadAction::WriteDefaultThenReload
    ));
    match Config::after_first_load(LoadOutcome::Loaded(root())) {
        LoadAction::Finish(Ok(c)) => assert_eq!(c, root()),
        _ => panic!("a loaded configuration is the answer"),
    }
    assert!(matches!(
        Config::after_first_load(LoadOutcome::Failed(ConfigError::NotAFile)),
        LoadAction::Finish(Err(ConfigError::NotAFile))
    ));
}

#[test]
fn clone_then_merge_matches_merging_in_turn() {
    let mut x = root().clone();
    x.merge(import_1().clone());
    x.merge(import_2().clone());
    let mut bc = import_1().clone();
    bc.merge(import_2().clone());
    let mut y = root().clone();
    y.merge(bc);
    assert_eq!(x, y);
    let cond = RunCondition {
        shell: Some(CustomCommand {
            run: "true".to_string(),
            shell: None,
            shell_flags: Some(vec!["-e".to_string()]),
        }),
        predicate: None,
        merge_strategy: MergeStrategy::NAND,
    };
    assert_eq!(cond.clone(), cond);
    let b = MultipleBehavior::All { seperator: ", ".to_string() };
    assert_eq!(b.clone(), b);
}
