use browser_wpt_results::args::{normalize_date, parse_args, Args, Command, Source, UsageError};
use browser_wpt_results::args::USAGE;

fn read(flags: &[&str]) -> Result<Command, UsageError> {
    let flags: Vec<String> = flags.iter().map(|s| s.to_string()).collect();
    parse_args(&flags)
}

fn accepted(flags: &[&str]) -> Args {
    match read(flags) {
        Ok(Command::Process(args)) => args,
        Ok(Command::Help) => panic!("help"),
        Err(e) => panic!("{}", e.message()),
    }
}

fn refused(flags: &[&str]) -> String {
    match read(flags) {
        Ok(_) => panic!("accepted"),
        Err(e) => e.message(),
    }
}

#[test]
fn bare_dates_begin_the_day() {
    assert_eq!(normalize_date("2026-09-01"), "2026-09-01T00:00:00Z");
    assert_eq!(normalize_date("2026-09-01T12:30:00Z"), "2026-09-01T12:30:00Z");
    assert_eq!(normalize_date(""), "");
    // Ten bytes, not ten characters.
    assert_eq!(normalize_date("äääää"), "äääääT00:00:00Z");
}

#[test]
fn defaults_are_filled_in() {
    let args = accepted(&["--cache", "../cache.git"]);
    assert_eq!(args.cache.as_deref(), Some("../cache.git"));
    assert_eq!(args.out, "summary");
    assert_eq!(args.products, ["chrome", "firefox", "safari", "servo"]);
    assert_eq!(args.labels, ["master", "experimental"]);
    assert_eq!(args.from, None);
    assert_eq!(args.to, None);
    assert!(!args.daily);
    assert_eq!(args.max_runs, None);
    assert_eq!(args.subtree, None);
    assert_eq!(args.source, Source::Auto);
    assert_eq!(args.fetch_delay, 1000);
    assert!(!args.rescore);
}

#[test]
fn every_flag_is_read() {
    let args = accepted(&[
        "--cache", "c", "--out", "o", "--product", "servo", "--product", "ladybird", "--labels",
        "a,,b", "--from", "2026-09-01", "--to", "2026-10-01T01:02:03Z", "--daily", "--max-runs",
        "+7", "--subtree", "css", "--fetch-delay", "0", "--source", "cache", "--rescore",
    ]);
    assert_eq!(args.cache.as_deref(), Some("c"));
    assert_eq!(args.out, "o");
    assert_eq!(args.products, ["servo", "ladybird"]);
    assert_eq!(args.labels, ["a", "", "b"]);
    assert_eq!(args.from.as_deref(), Some("2026-09-01T00:00:00Z"));
    assert_eq!(args.to.as_deref(), Some("2026-10-01T01:02:03Z"));
    assert!(args.daily);
    assert_eq!(args.max_runs, Some(7));
    assert_eq!(args.subtree.as_deref(), Some("css"));
    assert_eq!(args.fetch_delay, 0);
    assert_eq!(args.source, Source::Cache);
    assert!(args.rescore);
}

#[test]
fn later_flags_count() {
    let args = accepted(&["--source", "summary", "--labels", "a", "--labels", "b,c"]);
    assert_eq!(args.labels, ["b", "c"]);
    assert_eq!(args.source, Source::Summary);
    // A flag takes what follows it, whatever that is.
    let args = accepted(&["--source", "summary", "--out", "--daily"]);
    assert_eq!(args.out, "--daily");
    assert!(!args.daily);
}

#[test]
fn help_is_asked_for() {
    assert!(matches!(read(&["--help"]), Ok(Command::Help)));
    assert!(matches!(read(&["--daily", "-h", "--nonsense"]), Ok(Command::Help)));
    assert!(USAGE.starts_with("Usage: process [options]\n\n  --cache <path>"));
    assert!(USAGE.contains("--rescore"));
}

#[test]
fn wrong_arguments_are_refused() {
    assert_eq!(refused(&["--out"]), format!("--out requires a value\n\n{USAGE}"));
    assert_eq!(refused(&["--nonsense"]), format!("unknown argument --nonsense\n\n{USAGE}"));
    assert_eq!(refused(&["--source", "web"]), format!("unknown --source web\n\n{USAGE}"));
    assert_eq!(refused(&["--max-runs", "many"]), "--max-runs number");
    assert_eq!(refused(&["--max-runs", ""]), "--max-runs number");
    assert_eq!(refused(&["--max-runs", "-1"]), "--max-runs number");
    assert_eq!(refused(&["--fetch-delay", "1s"]), "--fetch-delay milliseconds");
    assert_eq!(
        refused(&["--fetch-delay", "18446744073709551616"]),
        "--fetch-delay milliseconds"
    );
    assert_eq!(
        refused(&["--daily"]),
        format!("--cache is required unless --source summary\n\n{USAGE}")
    );
    // What is wrong first decides.
    assert!(matches!(read(&["--bad", "--help"]), Err(UsageError::UnknownArgument(_))));
}

#[test]
fn largest_delay_is_read() {
    let args = accepted(&["--source", "summary", "--fetch-delay", "18446744073709551615"]);
    assert_eq!(args.fetch_delay, u64::MAX);
}
