use cryophile::cat::{Cat, CatStep, ReadOutcome};
use cryophile::cli::{check_prefix, parse_prefix, CliResult, PrefixError, Thaw};

#[test]
fn cat_reads_files_then_ends() {
    let mut cat = Cat::new();
    assert_eq!(cat.next_step(), CatStep::Receive);
    cat.opened();
    assert_eq!(cat.next_step(), CatStep::ReadOpen);
    assert_eq!(cat.after_read(5), ReadOutcome::Data);
    assert_eq!(cat.after_read(0), ReadOutcome::Retry);
    assert_eq!(cat.next_step(), CatStep::Receive);
    cat.opened();
    assert_eq!(cat.after_read(3), ReadOutcome::Data);
    assert_eq!(cat.after_read(0), ReadOutcome::Retry);
    cat.finished();
    assert_eq!(cat.next_step(), CatStep::Done);
    assert_eq!(cat.written(), 8);
    assert_eq!(cat.chunks(), 2);
    cat.clear();
    assert_eq!(cat.written(), 0);
    assert_eq!(cat.next_step(), CatStep::Receive);
}

#[test]
fn exit_codes() {
    assert_eq!(CliResult::Success.code(), 0);
    assert_eq!(CliResult::IoError.code(), 42);
    assert_eq!(CliResult::Usage.code(), 64);
    assert_eq!(CliResult::LogError.code(), 65);
    assert_eq!(CliResult::ConfigError.code(), 78);
    assert_eq!(CliResult::Abort.code(), 255);
    assert_eq!(Thaw {}, Thaw {});
}

#[test]
fn prefix_checks() {
    assert_eq!(parse_prefix("some/prefix"), Ok(String::from("some/prefix")));
    assert_eq!(parse_prefix(""), Err(PrefixError::Empty));
    assert_eq!(parse_prefix("/abs"), Err(PrefixError::Absolute));
    assert_eq!(parse_prefix("a b"), Err(PrefixError::Unsafe(String::from(" "))));
    assert_eq!(parse_prefix("x/y?z&"), Err(PrefixError::Unsafe(String::from("?"))));
    assert_eq!(check_prefix("p", None), Err(PrefixError::Pattern));
    assert_eq!(check_prefix("p", Some(Some(String::from("#")))), Err(PrefixError::Unsafe(String::from("#"))));
    assert_eq!(check_prefix("/p", Some(None)), Err(PrefixError::Absolute));
    assert_eq!(check_prefix("p", Some(None)), Ok(String::from("p")));
}
