use cargo::errors::{
    error_report, handle_cause, handle_error, CargoError, CargoErrorKind, ChainLink, CliError,
    ShellLine, Verbosity,
};
use cargo::version::{version, BuildEnv, CfgInfo, CommitInfo, VersionInfo};

fn link(kind: CargoErrorKind, message: &str) -> ChainLink {
    ChainLink { kind, message: message.to_string() }
}

fn chain() -> CargoError {
    CargoError {
        kind: CargoErrorKind::Msg,
        message: "failed to build".to_string(),
        causes: vec![
            link(CargoErrorKind::CompileFailure, "could not compile `foo`"),
            link(CargoErrorKind::Internal, "unexpected state"),
            link(CargoErrorKind::Msg, "deep detail"),
        ],
    }
}

fn causes(lines: &[ShellLine]) -> Vec<String> {
    lines
        .iter()
        .filter_map(|l| match l {
            ShellLine::Cause(s) => Some(s.clone()),
            _ => None,
        })
        .collect()
}

#[test]
fn verbose_shows_every_cause() {
    let (lines, complete) = handle_cause(&chain(), Verbosity::Verbose);
    assert!(complete);
    assert_eq!(causes(&lines), vec!["could not compile `foo`", "unexpected state", "deep detail"]);
}

#[test]
fn normal_output_stops_at_internal_cause() {
    let (lines, complete) = handle_cause(&chain(), Verbosity::Normal);
    assert!(!complete);
    assert_eq!(lines.len(), 1);
    assert_eq!(causes(&lines), vec!["could not compile `foo`"]);
}

#[test]
fn handle_error_shows_error_then_causes() {
    let lines = handle_error(&chain(), Verbosity::Quiet);
    assert_eq!(lines.len(), 3);
    assert!(matches!(&lines[0], ShellLine::Error(m) if m == "failed to build"));
    assert!(matches!(&lines[1], ShellLine::Cause(m) if m == "could not compile `foo`"));
    assert!(matches!(lines[2], ShellLine::VerboseHint));
    let full = handle_error(&chain(), Verbosity::Verbose);
    assert_eq!(full.len(), 4);
    assert!(!full.iter().any(|l| matches!(l, ShellLine::VerboseHint)));
}

#[test]
fn unknown_error_hides_its_causes() {
    let mut e = chain();
    e.causes.truncate(1);
    let err = CliError { error: Some(e), exit_code: 101, unknown: true };
    let r = error_report(&err, Verbosity::Normal);
    assert_eq!(r.lines.len(), 2);
    assert!(matches!(r.lines[0], ShellLine::UnknownError));
    assert!(matches!(r.lines[1], ShellLine::VerboseHint));
    let v = error_report(&err, Verbosity::Verbose);
    assert_eq!(v.lines.len(), 2);
    assert!(matches!(&v.lines[1], ShellLine::Cause(m) if m == "could not compile `foo`"));
}

#[test]
fn fatal_report_adds_hint_when_chain_is_cut() {
    let err = CliError { error: Some(chain()), exit_code: 101, unknown: false };
    let r = error_report(&err, Verbosity::Normal);
    assert_eq!(r.exit_code, 101);
    assert_eq!(r.lines.len(), 3);
    assert!(matches!(&r.lines[0], ShellLine::Error(m) if m == "failed to build"));
    assert!(matches!(r.lines[2], ShellLine::VerboseHint));
}

#[test]
fn unknown_error_is_hidden_unless_verbose() {
    let plain = CargoError { kind: CargoErrorKind::Msg, message: "secret".to_string(), causes: vec![] };
    let err = CliError { error: Some(plain), exit_code: 1, unknown: true };
    let r = error_report(&err, Verbosity::Normal);
    assert_eq!(r.lines.len(), 2);
    assert!(matches!(r.lines[0], ShellLine::UnknownError));
    assert!(matches!(r.lines[1], ShellLine::VerboseHint));
    let v = error_report(&err, Verbosity::Verbose);
    assert_eq!(v.lines.len(), 1);
    assert!(matches!(&v.lines[0], ShellLine::Error(m) if m == "secret"));
}

#[test]
fn non_fatal_report_is_a_status_message() {
    let info = CargoError { kind: CargoErrorKind::Msg, message: "cargo 1.0".to_string(), causes: vec![] };
    let err = CliError { error: Some(info), exit_code: 0, unknown: false };
    let r = error_report(&err, Verbosity::Normal);
    assert_eq!(r.exit_code, 0);
    assert_eq!(r.lines.len(), 1);
    assert!(matches!(&r.lines[0], ShellLine::Status(m) if m == "cargo 1.0"));
    let none = error_report(&CliError { error: None, exit_code: 2, unknown: false }, Verbosity::Normal);
    assert!(none.lines.is_empty());
    assert_eq!(none.exit_code, 2);
}

fn base() -> VersionInfo {
    VersionInfo {
        major: "0".to_string(),
        minor: "20".to_string(),
        patch: "1".to_string(),
        pre_release: Some(".3".to_string()),
        cfg_info: None,
    }
}

#[test]
fn version_without_release_info() {
    assert_eq!(base().to_string(), "cargo 0.20.1");
}

#[test]
fn stable_version_omits_channel() {
    let mut v = base();
    v.cfg_info = Some(CfgInfo { commit_info: None, release_channel: "stable".to_string() });
    assert_eq!(v.to_string(), "cargo 0.20.1");
}

#[test]
fn nightly_version_shows_channel_and_commit() {
    let mut v = base();
    v.cfg_info = Some(CfgInfo {
        commit_info: Some(CommitInfo {
            short_commit_hash: "abc1234".to_string(),
            commit_hash: "abc1234def".to_string(),
            commit_date: "2017-05-01".to_string(),
        }),
        release_channel: "nightly".to_string(),
    });
    assert_eq!(v.to_string(), "cargo 0.20.1-nightly.3 (abc1234 2017-05-01)");
}

#[test]
fn version_from_build_env() {
    let env = BuildEnv {
        major: "1".to_string(),
        minor: "2".to_string(),
        patch: "3".to_string(),
        pre_release: None,
        release_channel: Some("beta".to_string()),
        commit_hash: Some("ffff".to_string()),
        short_commit_hash: Some("ff".to_string()),
        commit_date: Some("2017-01-01".to_string()),
    };
    let v = version(env);
    assert_eq!(v.to_string(), "cargo 1.2.3-beta (ff 2017-01-01)");
    let plain = version(BuildEnv {
        major: "1".to_string(),
        minor: "2".to_string(),
        patch: "3".to_string(),
        pre_release: None,
        release_channel: None,
        commit_hash: Some("ffff".to_string()),
        short_commit_hash: None,
        commit_date: None,
    });
    assert!(plain.cfg_info.is_none());
    assert_eq!(plain.to_string(), "cargo 1.2.3");
}
