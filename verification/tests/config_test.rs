use procpulse::config::{choose_ini, classify_arg, ini_setting, split_ini_line};
use procpulse::config::{CliArg, CliOption, Config, IniFile, Setting, NO_TARGET};
use procpulse::wildcard::wildcard_match;

fn args(list: &[&str]) -> Vec<String> {
    list.iter().map(|s| s.to_string()).collect()
}

#[test]
fn test_wildcard_exact_match() {
    assert!(wildcard_match("dummy_workload.exe", "dummy_workload.exe"));
    assert!(wildcard_match("DUMMY_WORKLOAD.EXE", "dummy_workload.exe"));
    assert!(wildcard_match("dummy_workload.exe", "DUMMY_WORKLOAD.EXE"));
    assert!(!wildcard_match("dummy_workload.exe", "other_app.exe"));
}

#[test]
fn test_wildcard_asterisk() {
    assert!(wildcard_match("worker-*.exe", "worker-alpha.exe"));
    assert!(wildcard_match("worker-*.exe", "worker-.exe"));
    assert!(wildcard_match("worker-*.exe", "WORKER-1234.EXE"));
    assert!(!wildcard_match("worker-*.exe", "server-alpha.exe"));

    assert!(wildcard_match("*.exe", "app.exe"));
    assert!(wildcard_match("*.exe", "C:\\test\\app.exe"));
    assert!(!wildcard_match("*.exe", "app.dll"));

    assert!(wildcard_match("*workload*", "dummy_workload_test.exe"));
    assert!(wildcard_match("*", "anything"));
    assert!(wildcard_match("*", ""));
}

#[test]
fn test_wildcard_question_mark() {
    assert!(wildcard_match("node-??.exe", "node-01.exe"));
    assert!(wildcard_match("node-??.exe", "node-AB.exe"));
    assert!(!wildcard_match("node-??.exe", "node-1.exe"));
    assert!(!wildcard_match("node-??.exe", "node-123.exe"));
}

#[test]
fn wildcard_question_mark_stands_for_a_character() {
    assert!(wildcard_match("caf?.exe", "caf\u{e9}.exe"));
    assert!(!wildcard_match("caf??.exe", "caf\u{e9}.exe"));
    assert!(!wildcard_match("?", ""));
    assert!(wildcard_match("", ""));
    assert!(!wildcard_match("", "a"));
}

#[test]
fn wildcard_asterisk_in_the_text_is_an_ordinary_character() {
    assert!(wildcard_match("*", "*abc"));
    assert!(wildcard_match("*c", "*abc"));
    assert!(!wildcard_match("a*", "*abc"));
}

#[test]
fn wildcard_backtracks_over_several_asterisks() {
    assert!(wildcard_match("*ab*ab*", "xabyabz"));
    assert!(wildcard_match("a*b*c", "a-b-b-c-c"));
    assert!(!wildcard_match("a*b*c", "a-c-b"));
    assert!(wildcard_match("**", "abc"));
    assert!(wildcard_match("*aab", "aaaab"));
}

#[test]
fn wildcard_case_of_other_letters_matters() {
    assert!(wildcard_match("\u{c4}.exe", "\u{c4}.EXE"));
    assert!(!wildcard_match("\u{c4}.exe", "\u{e4}.exe"));
}

#[test]
fn test_parse_ini_content_single_and_multiple_targets() {
    let mut config = Config::default();
    let ini = r#"
        # Comment line
        ; Another comment
        [General]
        target = worker-*.exe, server.exe; "session_??.exe"
        output = "C:\logs\test_metrics.csv"
        sample_interval_secs = 3
        aggregation_interval_secs = 120
        "#;
    config.parse_ini_content(ini).unwrap();

    assert_eq!(
        config.target_patterns,
        vec!["worker-*.exe", "server.exe", "session_??.exe"]
    );
    assert_eq!(config.output_path, r"C:\logs\test_metrics.csv");
    assert_eq!(config.sample_interval_secs, 3);
    assert_eq!(config.aggregation_interval_secs, 120);
}

#[test]
fn test_cli_positional_args() {
    let mut config = Config::default();
    let args = vec![
        "procpulse.exe".to_string(),
        "MyService-*.exe, Other.exe".to_string(),
        "out.csv".to_string(),
    ];
    config.merge_cli_args(&args).unwrap();
    assert_eq!(config.target_patterns, vec!["MyService-*.exe", "Other.exe"]);
    assert_eq!(config.output_path, "out.csv");
}

#[test]
fn test_cli_multiple_target_flags() {
    let mut config = Config::default();
    config.target_patterns = vec!["Old.exe".to_string()];
    let args = vec![
        "procpulse.exe".to_string(),
        "--target".to_string(),
        "worker-*.exe".to_string(),
        "--target".to_string(),
        "server.exe".to_string(),
        "--flush-interval".to_string(),
        "30".to_string(),
    ];
    config.merge_cli_args(&args).unwrap();
    assert_eq!(config.target_patterns, vec!["worker-*.exe", "server.exe"]);
    assert_eq!(config.aggregation_interval_secs, 30);
}

#[test]
fn test_output_path_defaults_to_procpulse_metrics() {
    let config = Config::default();
    assert_eq!(config.output_path, "procpulse_metrics.csv");
    assert_eq!(config.max_bytes, 2_097_152);
    assert_eq!(config.max_files, 5);
}

#[test]
fn test_ini_rotation_settings() {
    let mut config = Config::default();
    let ini = r#"
        target = test.exe
        max_bytes = 10485760
        max_files = 3
        "#;
    config.parse_ini_content(ini).unwrap();
    assert_eq!(config.max_bytes, 10_485_760);
    assert_eq!(config.max_files, 3);

    let ini_mb = r#"
        max_size_mb = 10
        "#;
    config.parse_ini_content(ini_mb).unwrap();
    assert_eq!(config.max_bytes, 10 * 1024 * 1024);
}

#[test]
fn test_cli_rotation_flags() {
    let mut config = Config::default();
    let args = vec![
        "procpulse.exe".to_string(),
        "--target".to_string(),
        "app.exe".to_string(),
        "--max-bytes".to_string(),
        "52428800".to_string(),
        "--max-files".to_string(),
        "10".to_string(),
    ];
    config.merge_cli_args(&args).unwrap();
    assert_eq!(config.max_bytes, 52_428_800);
    assert_eq!(config.max_files, 10);

    let args_mb = vec![
        "procpulse.exe".to_string(),
        "--max-size-mb".to_string(),
        "5".to_string(),
    ];
    config.merge_cli_args(&args_mb).unwrap();
    assert_eq!(config.max_bytes, 5 * 1024 * 1024);
}

#[test]
fn defaults() {
    let config = Config::default();
    assert!(config.target_patterns.is_empty());
    assert_eq!(config.sample_interval_secs, 2);
    assert_eq!(config.discovery_interval_secs, 6);
    assert_eq!(config.aggregation_interval_secs, 60);
}

#[test]
fn target_summary_and_target_executable() {
    let mut config = Config::default();
    assert_eq!(config.target_summary(), "[none]");
    assert_eq!(config.target_executable(), "");
    config.target_patterns = args(&["a.exe", "b-*.exe"]);
    assert_eq!(config.target_summary(), "a.exe, b-*.exe");
    assert_eq!(config.target_executable(), "a.exe");
}

#[test]
fn ini_keys_ignore_case_and_have_synonyms() {
    let mut config = Config::default();
    config
        .parse_ini_content("EXECUTABLE = a.exe\nCsv=x.csv\r\nSample_Interval = 7\r\nDISCOVERY_INTERVAL=8\naggregation_interval = 9\nMax_Size = 10\nmax_backups = 11")
        .unwrap();
    assert_eq!(config.target_patterns, vec!["a.exe"]);
    assert_eq!(config.output_path, "x.csv");
    assert_eq!(config.sample_interval_secs, 7);
    assert_eq!(config.discovery_interval_secs, 8);
    assert_eq!(config.aggregation_interval_secs, 9);
    assert_eq!(config.max_bytes, 10);
    assert_eq!(config.max_files, 11);
}

#[test]
fn ini_lines_without_settings_change_nothing() {
    let mut config = Config::default();
    config
        .parse_ini_content("\n# target = a\n; target = b\n[target = c]\nno equals sign\nunknown = 1\n")
        .unwrap();
    assert_eq!(config, Config::default());
}

#[test]
fn ini_zero_interval_counts_as_one() {
    let mut config = Config::default();
    config
        .parse_ini_content("sample_interval = 0\ndiscovery_interval = 0\naggregation_interval = 0\nmax_files = 0\nmax_bytes = 0")
        .unwrap();
    assert_eq!(config.sample_interval_secs, 1);
    assert_eq!(config.discovery_interval_secs, 1);
    assert_eq!(config.aggregation_interval_secs, 1);
    assert_eq!(config.max_files, 0);
    assert_eq!(config.max_bytes, 0);
}

#[test]
fn ini_errors_name_the_setting_and_the_line() {
    let cases = vec![
        ("sample_interval = x", "Invalid sample_interval_secs at line 1"),
        ("\ndiscovery_interval_secs =", "Invalid discovery_interval_secs at line 2"),
        ("#\n\naggregation_interval = -1", "Invalid aggregation_interval_secs at line 3"),
        ("max_size_bytes = 1.5", "Invalid max_bytes at line 1"),
        ("max_size_mb = 99999999999999999999", "Invalid max_size_mb at line 1"),
        ("max_files = 4294967296", "Invalid max_files at line 1"),
    ];
    for (ini, message) in cases {
        let mut config = Config::default();
        assert_eq!(config.parse_ini_content(ini), Err(message.to_string()));
        assert_eq!(config, Config::default());
    }
}

#[test]
fn ini_error_keeps_the_lines_before_it() {
    let mut config = Config::default();
    assert!(config.parse_ini_content("max_files = 7\nmax_bytes = x\nmax_files = 8").is_err());
    assert_eq!(config.max_files, 7);
}

#[test]
fn ini_numbers() {
    let mut config = Config::default();
    config.parse_ini_content("max_bytes = +18446744073709551615").unwrap();
    assert_eq!(config.max_bytes, u64::MAX);
    config.parse_ini_content("max_bytes = \"0042\"").unwrap();
    assert_eq!(config.max_bytes, 42);
    config.parse_ini_content("max_size_mb = 17592186044416").unwrap();
    assert_eq!(config.max_bytes, u64::MAX);
    assert!(config.parse_ini_content("max_bytes = 18446744073709551616").is_err());
    assert!(config.parse_ini_content("max_bytes = +").is_err());
}

#[test]
fn ini_values_lose_one_pair_of_quotes() {
    let mut config = Config::default();
    config.parse_ini_content("output = '\"x\"'").unwrap();
    assert_eq!(config.output_path, "\"x\"");
    config.parse_ini_content("output = \"").unwrap();
    assert_eq!(config.output_path, "\"");
    config.parse_ini_content("output = \"x'").unwrap();
    assert_eq!(config.output_path, "\"x'");
    config.parse_ini_content("output = a = b").unwrap();
    assert_eq!(config.output_path, "a = b");
}

#[test]
fn ini_line_parts() {
    let line: Vec<char> = "  Key = 'a b' ".chars().collect();
    let (key, value) = split_ini_line(&line).unwrap();
    assert_eq!(key, "Key");
    assert_eq!(value, vec!['a', ' ', 'b']);
    assert!(split_ini_line(&['a', 'b']).is_none());
    assert_eq!(ini_setting("targets"), Some(Setting::Targets));
    assert_eq!(ini_setting("Targets"), None);
}

#[test]
fn target_lists_skip_empty_entries() {
    let mut config = Config::default();
    config.parse_ini_content("targets = ,, ' a.exe ' ;; \"\" , b.exe;").unwrap();
    assert_eq!(config.target_patterns, vec![" a.exe ", "b.exe"]);
    config.parse_ini_content("targets = ;").unwrap();
    assert!(config.target_patterns.is_empty());
}

#[test]
fn target_lists_join_at_commas_and_semicolons() {
    let mut whole = Config::default();
    let mut parts = Config::default();
    let first: Vec<char> = "a.exe, b".chars().collect();
    let second: Vec<char> = " c.exe;d".chars().collect();
    let both: Vec<char> = "a.exe, b; c.exe;d".chars().collect();
    whole.add_targets(&both);
    parts.add_targets(&first);
    parts.add_targets(&second);
    assert_eq!(whole, parts);
    assert_eq!(whole.target_patterns, vec!["a.exe", "b", "c.exe", "d"]);
}

#[test]
fn cli_errors() {
    let cases: Vec<(Vec<&str>, &str)> = vec![
        (vec!["p", "--target"], "--target requires a value"),
        (vec!["p", "--output"], "--output requires a file path"),
        (vec!["p", "--sample-interval"], "--sample-interval requires seconds"),
        (vec!["p", "--aggregation-interval"], "--flush-interval requires seconds"),
        (vec!["p", "--max-size"], "--max-bytes requires an integer in bytes"),
        (vec!["p", "--max-size-mb"], "--max-size-mb requires an integer in MB"),
        (vec!["p", "--max-backups"], "--max-files requires an integer count"),
        (vec!["p", "--sample-interval", "x"], "Invalid sample-interval integer"),
        (vec!["p", "--flush-interval", ""], "Invalid flush-interval integer"),
        (vec!["p", "--max-bytes", " 1"], "Invalid max-bytes integer"),
        (vec!["p", "--max-size-mb", "1k"], "Invalid max-size-mb integer"),
        (vec!["p", "--max-files", "4294967296"], "Invalid max-files integer"),
        (vec!["p", "--wrong"], "Unknown option '--wrong'. Use --help for usage."),
        (vec!["p", "-"], "Unknown option '-'. Use --help for usage."),
    ];
    for (list, message) in cases {
        let mut config = Config::default();
        assert_eq!(config.merge_cli_args(&args(&list)), Err(message.to_string()));
    }
}

#[test]
fn cli_help() {
    let mut config = Config::default();
    let text = config.merge_cli_args(&args(&["tool.exe", "a.exe", "-h"])).unwrap_err();
    assert_eq!(text, Config::usage_string("tool.exe"));
    assert!(text.starts_with("Ultra-Light Windows Process Telemetry & Load Diagnostics (procpulse)\n\nUsage: tool.exe [TARGET_EXE/WILDCARDS] [OUTPUT_CSV]\nUsage: tool.exe --target <TARGETS> [OPTIONS]\n\nOptions:\n--target <EXE/WILDCARDS>    Executable"));
    assert!(text.ends_with("\n-h, --help                  Print this help message\n\nConfiguration file:\nIf present, 'procpulse.ini' placed next to the executable is automatically loaded.\nCommand-line arguments override settings from the configuration file."));
    assert_eq!(config.merge_cli_args(&args(&["p", "--help"])), Err(Config::usage_string("p")));
}

#[test]
fn cli_without_arguments_changes_nothing() {
    let mut config = Config::default();
    config.merge_cli_args(&[]).unwrap();
    config.merge_cli_args(&args(&["p"])).unwrap();
    assert_eq!(config, Config::default());
}

#[test]
fn cli_positionals_beyond_the_second_are_ignored() {
    let mut config = Config::default();
    config.merge_cli_args(&args(&["p", "--target", "a", "b", "out.csv", "more", "even more"])).unwrap();
    assert_eq!(config.target_patterns, vec!["a", "b"]);
    assert_eq!(config.output_path, "out.csv");
}

#[test]
fn cli_values_may_begin_with_a_dash() {
    let mut config = Config::default();
    config.merge_cli_args(&args(&["p", "--output", "--help"])).unwrap();
    assert_eq!(config.output_path, "--help");
}

#[test]
fn cli_overrides_ini_and_ini_overrides_defaults() {
    let ini = "target = ini.exe\noutput = ini.csv\nmax_size_mb = 3\nsample_interval = 9";
    let list = args(&["p", "--target", "cli.exe", "--max-bytes", "77", "--sample-interval", "0"]);
    let config = Config::load(Some(ini), &list).unwrap();
    assert_eq!(config.target_patterns, vec!["cli.exe"]);
    assert_eq!(config.output_path, "ini.csv");
    assert_eq!(config.max_bytes, 77);
    assert_eq!(config.sample_interval_secs, 1);
    assert_eq!(config.aggregation_interval_secs, 60);
}

#[test]
fn load_needs_a_target() {
    assert_eq!(Config::load(None, &args(&["p"])), Err(NO_TARGET.to_string()));
    assert_eq!(Config::load(Some("target = ,"), &args(&["p"])), Err(NO_TARGET.to_string()));
    assert_eq!(
        Config::load(Some("target = a"), &args(&["p", "--target", ","])),
        Err(NO_TARGET.to_string())
    );
    assert!(Config::load(None, &args(&["p", "a.exe"])).is_ok());
    assert_eq!(
        Config::load(Some("max_files = x"), &args(&["p", "--wrong"])),
        Err("Invalid max_files at line 1".to_string())
    );
    assert_eq!(
        Config::load(Some("target = a"), &args(&["p", "--wrong"])),
        Err("Unknown option '--wrong'. Use --help for usage.".to_string())
    );
}

#[test]
fn kinds_of_arguments() {
    assert_eq!(classify_arg("-h"), CliArg::Help);
    assert_eq!(classify_arg("--max-size-bytes"), CliArg::Valued(CliOption::MaxBytes));
    assert_eq!(classify_arg("-t"), CliArg::Unknown);
    assert_eq!(classify_arg(""), CliArg::Positional);
    assert_eq!(classify_arg("a.exe"), CliArg::Positional);
}

#[test]
fn the_current_file_goes_before_the_legacy_one() {
    assert_eq!(choose_ini(true, true), IniFile::Current);
    assert_eq!(choose_ini(true, false), IniFile::Current);
    assert_eq!(choose_ini(false, true), IniFile::Legacy);
    assert_eq!(choose_ini(false, false), IniFile::Absent);
}
