use reflex::app::clash_api::configs::LogLevel;
use reflex::cli::{
    compile_job, config_format, find_config_in_dir, inspect_report, is_json_source, match_report, nofile_target,
    parent_dir, parse_command, parse_match_target, parse_output_flag, parse_run_options,
    resolve_config_and_base, verbosity, Command, CompileStep, ConfigFormat, ConfigPlace, EventLevel, FlagError,
    MatchQuery, RuleCounts, RunStep, SearchError,
};
use reflex::net::IpAddr;

fn strings(v: &[&str]) -> Vec<String> {
    v.iter().map(|s| s.to_string()).collect()
}

#[test]
fn commands_are_told_apart() {
    let c = |v: &[&str]| parse_command(&strings(v));
    assert!(matches!(c(&["reflex", "ruleset", "a"]), Command::Ruleset(v) if v == ["a"]));
    assert!(matches!(c(&["reflex", "inspect"]), Command::Inspect(v) if v.is_empty()));
    assert!(matches!(c(&["reflex", "test-rule", "a", "b"]), Command::TestRule(v) if v.len() == 2));
    assert!(matches!(c(&["reflex", "convert", "a"]), Command::Convert(_)));
    assert!(matches!(c(&["reflex", "check"]), Command::Check(p) if p == "config.json"));
    assert!(matches!(c(&["reflex", "check", "x.json"]), Command::Check(p) if p == "x.json"));
    assert!(matches!(c(&["reflex", "run", "-c", "x"]), Command::Run(v) if v == ["-c", "x"]));
    assert!(matches!(c(&["reflex", "-c", "x"]), Command::Run(v) if v == ["-c", "x"]));
    assert!(matches!(c(&["reflex"]), Command::Run(v) if v.is_empty()));
}

#[test]
fn outputs_are_named() {
    let o = |v: &[&str]| parse_output_flag(&strings(v));
    assert_eq!(o(&["x", "-o", "a"]), Ok("a".to_string()));
    assert_eq!(o(&["-o=b", "-o", "a"]), Ok("b".to_string()));
    assert_eq!(o(&["-o"]), Err(FlagError::NoArgument));
    assert_eq!(o(&["x"]), Err(FlagError::Missing));
    assert_eq!(FlagError::NoArgument.message(), "'-o' requires an argument");
    assert_eq!(FlagError::Missing.message(), "missing required flag: -o <output.rrs>");
    assert!(matches!(compile_job(&strings(&["in", "-o"])), CompileStep::Usage));
    assert!(matches!(
        compile_job(&strings(&["in", "-o", "out"])),
        CompileStep::Compile(j) if j.input == "in" && j.output == "out" && !j.filters
    ));
    assert!(matches!(
        compile_job(&strings(&["in", "-o", "out", "-t", "adguard"])),
        CompileStep::Compile(j) if j.filters
    ));
    assert!(matches!(
        compile_job(&strings(&["in", "x", "y"])),
        CompileStep::Failed(FlagError::Missing)
    ));
}

#[test]
fn sources_and_queries() {
    assert!(is_json_source("a.json", ""));
    assert!(is_json_source("a.txt", " \n{}"));
    assert!(!is_json_source("a.txt", "a.com"));
    assert!(matches!(parse_match_target("443"), MatchQuery::Port(443)));
    assert!(matches!(parse_match_target("1.2.3.4"), MatchQuery::Ip(IpAddr::V4(0x01020304))));
    assert!(matches!(parse_match_target("99999"), MatchQuery::Domain(d) if d == "99999"));
    assert_eq!(match_report("a.com", true), ("MATCH    a.com".to_string(), 0));
    assert_eq!(match_report("a.com", false), ("NO MATCH a.com".to_string(), 1));
    let counts = RuleCounts {
        domains: 1,
        domain_suffixes: 2,
        domain_keywords: 3,
        domain_regexes: 4,
        ipv4_cidrs: 5,
        ipv6_cidrs: 6,
        ports: 7,
    };
    let text = inspect_report("x.rrs", counts);
    assert!(text.starts_with("file:            x.rrs\ndomains:         1\n"));
    assert!(text.ends_with("ports:           7\ntotal:           28\n"));
}

#[test]
fn options_of_running() {
    let (step, dirs) =
        parse_run_options(&strings(&["-c", "a", "-D", "d", "--log", "warn", "--config", "b"]));
    let RunStep::Run(o) = step else { panic!() };
    assert_eq!(o.config.as_deref(), Some("b"));
    assert_eq!(o.dir.as_deref(), Some("d"));
    assert_eq!(o.log.as_deref(), Some("warn"));
    assert_eq!(dirs, ["d"]);
    let one = |v: &[&str]| parse_run_options(&strings(v)).0;
    assert!(matches!(one(&["-h"]), RunStep::Help));
    assert!(matches!(one(&["-v"]), RunStep::Version));
    assert!(matches!(one(&["-d"]), RunStep::NoDirectory));
    assert!(matches!(one(&["--what"]), RunStep::Unknown(a) if a == "--what"));
    assert!(matches!(one(&["-c"]), RunStep::Run(o) if o.config.is_none()));
    let (step, dirs) = parse_run_options(&strings(&["-d", "x", "--help"]));
    assert!(matches!(step, RunStep::Help));
    assert_eq!(dirs, ["x"]);
}

#[test]
fn places_of_the_settings() {
    let at = |c: Option<&str>, d: Option<&str>| {
        match resolve_config_and_base(c.map(|s| s.into()), d.map(|s| s.into()), "/home/me") {
            ConfigPlace::At { config, base } => (config, base),
            ConfigPlace::Search(d) => ("?".to_string(), d),
        }
    };
    let pair = |a: &str, b: &str| (a.to_string(), b.to_string());
    assert_eq!(at(None, None), pair("/home/me/config.json", "/home/me"));
    assert_eq!(at(Some("/etc/a.json"), None), pair("/etc/a.json", "/etc"));
    assert_eq!(at(Some("a.json"), None), pair("a.json", ""));
    assert_eq!(at(Some("a.json"), Some("/etc")), pair("/etc/a.json", "/etc"));
    assert_eq!(at(Some("/x/a.json"), Some("/etc")), pair("/x/a.json", "/etc"));
    assert_eq!(at(None, Some("/etc")), pair("?", "/etc"));
    for p in ["/a/b", "a/b", "a", "/a", "./a", "a/b/", "a//b", "a/./b", ".", "", "/", "//"] {
        let expected = std::path::Path::new(p).parent().map(|x| x.to_str().unwrap().to_string());
        assert_eq!(parent_dir(p), expected, "of {p}");
    }
}

#[test]
fn the_settings_in_a_directory() {
    let f = |v: &[&str]| find_config_in_dir(&strings(v));
    assert_eq!(f(&["a.json", "config.yaml", "config.json"]), Ok("config.json".to_string()));
    assert_eq!(f(&["a.json", "config.yaml"]), Ok("config.yaml".to_string()));
    assert_eq!(f(&["readme.md", "mine.yml"]), Ok("mine.yml".to_string()));
    assert_eq!(config_format("a/b.json"), Some(ConfigFormat::Json));
    assert_eq!(config_format("a/b.yml"), Some(ConfigFormat::Yaml));
    assert_eq!(config_format("a/b"), None);
    assert_eq!(f(&["readme.md"]), Err(SearchError::Nothing));
    assert_eq!(f(&["a.json", "b.yaml"]), Err(SearchError::Several));
    assert_eq!(SearchError::Nothing.message("/etc"), "no JSON config file found in '/etc'");
    assert!(SearchError::Several.message("/etc").ends_with("explicitly with -c"));
}

#[test]
fn levels_of_the_log() {
    assert_eq!(verbosity(None, LogLevel::Off), None);
    assert_eq!(verbosity(Some("trace"), LogLevel::Off), Some(EventLevel::Trace));
    assert_eq!(verbosity(Some("loud"), LogLevel::Off), Some(EventLevel::Info));
    assert_eq!(verbosity(None, LogLevel::Error), Some(EventLevel::Error));
    assert!(EventLevel::Error.is_enabled(EventLevel::Error));
    assert!(!EventLevel::Debug.is_enabled(EventLevel::Info));
    assert!(EventLevel::Debug.is_enabled(EventLevel::Trace));
    assert_eq!(EventLevel::Warn.broadcast_name(), "warning");
    assert_eq!(EventLevel::Trace.broadcast_name(), "debug");
}

#[test]
fn open_files() {
    assert_eq!(nofile_target(1024, 4096), Some(4096));
    assert_eq!(nofile_target(1024, u64::MAX), Some(1048576));
    assert_eq!(nofile_target(4096, 4096), None);
}
