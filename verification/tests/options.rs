use ninja_rs::drive::{same_lexical_drive_of, PathPrefix, PathRoot};
use ninja_rs::build::{BuildConfig, Edge, Verbosity};
use ninja_rs::clparser::rs_clparser__filter_show_includes;
use ninja_rs::includes::{relative_include_path, relative_include_path_by_folds};
use ninja_rs::ninja::{AllowedFailures, NinjaDebugModes, Options, Parallelism};
use ninja_rs::status::{
    InteractiveStatus, MessageLevel, NullStatus, PlainLineStatus, Status, StatusFactory, StatusKind,
};
use ninja_rs::{rs_is_same_lexical_drive, timestamp_from_win32_mfiletime};

const LIST: &str = "\r\ndebugging modes:\r\n  stats        print operation counts/timing info\r\n  explain      explain what caused a command to execute\r\n  keepdepfile  don't delete depfiles after they're read by ninja\r\n  keeprsp      don't delete @response files on success\r\n  nostatcache  don't batch stat() calls per directory and cache them\r\nmultiple modes can be enabled via -dFOO and -d BAR";

#[test]
fn debug_modes_parse_names() {
    assert_eq!(NinjaDebugModes::parse("stats"), Ok(NinjaDebugModes::Stats));
    assert_eq!(NinjaDebugModes::parse("explain"), Ok(NinjaDebugModes::Explain));
    assert_eq!(NinjaDebugModes::parse("keepdepfile"), Ok(NinjaDebugModes::Keepdepfile));
    assert_eq!(NinjaDebugModes::parse("keeprsp"), Ok(NinjaDebugModes::Keeprsp));
    assert_eq!(NinjaDebugModes::parse("nostatcache"), Ok(NinjaDebugModes::NostatCache));
    assert_eq!(NinjaDebugModes::parse("list"), Ok(NinjaDebugModes::List));
    assert_eq!(NinjaDebugModes::parse("Stats"), Err(LIST.to_string()));
    assert_eq!(NinjaDebugModes::parse(""), Err(LIST.to_string()));
    assert_eq!(NinjaDebugModes::list(), LIST);
}

#[test]
fn parallelism_parse() {
    assert_eq!(Parallelism::parse("8", Some(4)).unwrap().0, 8);
    assert_eq!(Parallelism::parse("+8", None).unwrap().0, 8);
    assert_eq!(Parallelism::parse("0", Some(4)).unwrap().0, 6);
    assert_eq!(Parallelism::parse("0", None).unwrap().0, 255);
    assert_eq!(Parallelism::parse("0", Some(usize::MAX)).unwrap().0, usize::MAX);
    assert_eq!(Parallelism::parse("abc", Some(4)).unwrap_err(), "invalid digit found in string");
    assert_eq!(Parallelism::parse("", Some(4)).unwrap_err(), "cannot parse integer from empty string");
    assert_eq!(Parallelism::parse("-1", Some(4)).unwrap_err(), "invalid digit found in string");
    assert_eq!(
        Parallelism::parse("99999999999999999999999", None).unwrap_err(),
        "number too large to fit in target type"
    );
    assert_eq!(Parallelism::from_available_parallelism(Some(6)).0, 8);
    assert_eq!(Parallelism::from_available_parallelism(None).0, 3);
    assert_eq!(Parallelism(12).to_string(), "12");
    assert_eq!(Parallelism(0).to_string(), "0");
}

#[test]
fn allowed_failures_parse() {
    assert_eq!(AllowedFailures::parse("3").unwrap().0, 3);
    assert_eq!(AllowedFailures::parse("0").unwrap().0, usize::MAX);
    assert_eq!(AllowedFailures::parse("-7").unwrap().0, usize::MAX);
    assert_eq!(AllowedFailures::parse("18446744073709551616").unwrap().0, usize::MAX);
    assert_eq!(AllowedFailures::parse("18446744073709551615").unwrap().0, usize::MAX);
    assert_eq!(
        AllowedFailures::parse("x").unwrap_err(),
        "Invalid parameter for -k x:invalid digit found in string"
    );
    assert_eq!(AllowedFailures::default().0, 1);
    assert_eq!(AllowedFailures(1234567).to_string(), "1234567");
}

#[test]
fn options_default() {
    let o = Options::default();
    assert_eq!(o.input_file, "");
    assert_eq!(o.working_dir, "");
    assert!(o.tool.is_none());
    assert!(!o.phony_cycle_should_err);
}

#[test]
fn filter_show_includes() {
    let prefix = "Note: including file:";
    assert_eq!(rs_clparser__filter_show_includes("Note: including file:   C:\\a.h", prefix), "C:\\a.h");
    assert_eq!(rs_clparser__filter_show_includes("Note: including file:\t\u{3000}x ", prefix), "x ");
    assert_eq!(rs_clparser__filter_show_includes("foo.cc", prefix), "");
    assert_eq!(rs_clparser__filter_show_includes("Note: including file:", prefix), "");
    assert_eq!(rs_clparser__filter_show_includes("", ""), "");
}

fn comps(v: &[&str]) -> Vec<String> {
    v.iter().map(|s| s.to_string()).collect()
}

#[test]
fn includes_relative_paths() {
    let mut out = String::new();
    relative_include_path(&comps(&["C:", "\\", "a", "b", "c.h"]), &comps(&["C:", "\\", "A", "x"]), &mut out);
    assert_eq!(out, "../b/c.h");
    let mut out = String::new();
    relative_include_path(&comps(&["C:", "\\", "a"]), &comps(&["C:", "\\", "a"]), &mut out);
    assert_eq!(out, ".");
    let mut out = String::new();
    relative_include_path(&comps(&["C:", "\\", "a", "b"]), &comps(&["C:", "\\", "a"]), &mut out);
    assert_eq!(out, "b");
    let mut out = String::new();
    relative_include_path(&comps(&["D:", "\\", "a"]), &comps(&["C:", "\\", "a", "b"]), &mut out);
    assert_eq!(out, "../../../../D:/\\/a");
}

#[test]
fn status_kinds() {
    assert_eq!(StatusFactory::kind_for(Verbosity::Quiet, true), StatusKind::Null);
    assert_eq!(StatusFactory::kind_for(Verbosity::Normal, false), StatusKind::PlainLine);
    assert_eq!(StatusFactory::kind_for(Verbosity::Verbose, true), StatusKind::Interactive);
    let config = BuildConfig::default();
    assert_eq!(config.verbosity, Verbosity::Normal);
    assert_eq!(config.parallelism, 1);
    assert_eq!(config.failures_allowed, 1);
    let mut status = StatusFactory::create(&config);
    status.build_started();
    status.info("hello");
    status.build_finished();
    let mut edge = Edge;
    let mut printers: Vec<Box<dyn Status>> = vec![
        Box::new(InteractiveStatus::new(&config)),
        Box::new(PlainLineStatus::new()),
        Box::new(NullStatus::new()),
    ];
    for p in printers.iter_mut() {
        p.edge_added_to_plan(&edge);
        p.build_edge_started(&edge, 1);
        p.build_edge_finished(&mut edge, 1, 2, (), "out");
        p.edge_removed_from_plan(&edge);
        p.new_line();
        p.warning("w");
        p.error("e");
    }
}

#[test]
fn same_lexical_drive_by_root() {
    assert!(rs_is_same_lexical_drive("/a/b", "/c"));
    assert!(!rs_is_same_lexical_drive("a/b", "/c"));
    assert!(!rs_is_same_lexical_drive("", ""));
    assert!(!rs_is_same_lexical_drive("a", "a"));
}

#[test]
fn filetime_to_unix_ticks() {
    assert_eq!(timestamp_from_win32_mfiletime(116_444_736_000_000_000), 0);
    assert_eq!(timestamp_from_win32_mfiletime(116_444_736_000_000_123), 123);
    assert_eq!(timestamp_from_win32_mfiletime(u64::MAX), (u64::MAX - 116_444_736_000_000_000) as i64);
}

#[test]
fn shown_counts_parse_back() {
    for n in [1usize, 7, 10, 255, 1000, usize::MAX] {
        let p = Parallelism(n);
        assert_eq!(Parallelism::parse(&p.to_string(), Some(2)).unwrap().0, n);
        let a = AllowedFailures(n);
        assert_eq!(AllowedFailures::parse(&a.to_string()).unwrap().0, n);
    }
    let d = AllowedFailures::default();
    assert_eq!(AllowedFailures::parse(&d.to_string()).unwrap().0, d.0);
}

#[test]
fn later_file_times_give_later_timestamps() {
    let base = ninja_rs::stat::EPOCH_DIFF_TICKS;
    let times = [base, base + 1, base + 10_000_000, base + (i64::MAX as u64)];
    for w in times.windows(2) {
        assert!(timestamp_from_win32_mfiletime(w[0]) <= timestamp_from_win32_mfiletime(w[1]));
    }
}

#[test]
fn same_drive_either_order() {
    let paths = ["/a", "a", "", "/b/c", "./x"];
    for a in paths {
        for b in paths {
            assert_eq!(rs_is_same_lexical_drive(a, b), rs_is_same_lexical_drive(b, a));
        }
    }
}

#[test]
fn printers_report_their_levels() {
    for level in [MessageLevel::Info, MessageLevel::Warning, MessageLevel::Error] {
        assert!(StatusKind::Interactive.reports(level));
        assert!(!StatusKind::Null.reports(level));
    }
    assert!(StatusKind::PlainLine.reports(MessageLevel::Error));
    assert!(!StatusKind::PlainLine.reports(MessageLevel::Warning));
    assert!(!StatusKind::PlainLine.reports(MessageLevel::Info));
    let mut quiet = BuildConfig::default();
    quiet.verbosity = Verbosity::Quiet;
    assert_eq!(StatusFactory::kind(&quiet), StatusKind::Null);
    assert_ne!(StatusFactory::kind(&BuildConfig::default()), StatusKind::Null);
}

#[test]
fn counts_from_parsed_values() {
    assert_eq!(Parallelism::from_parsed(Ok(5), Some(1)).unwrap().0, 5);
    assert_eq!(Parallelism::from_parsed(Ok(0), Some(1)).unwrap().0, 3);
    assert_eq!(Parallelism::from_parsed(Ok(0), None).unwrap().0, 255);
    assert_eq!(Parallelism::from_parsed(Err("bad".to_string()), None).unwrap_err(), "bad");
    assert_eq!(AllowedFailures::from_parsed("7", Ok(7)).unwrap().0, 7);
    assert_eq!(AllowedFailures::from_parsed("-2", Ok(-2)).unwrap().0, usize::MAX);
    assert_eq!(AllowedFailures::from_parsed("x", Err("oops".to_string())).unwrap_err(), "Invalid parameter for -k x:oops");
    assert_eq!(
        AllowedFailures::parse("x").unwrap_err(),
        "Invalid parameter for -k x:invalid digit found in string"
    );
}

#[test]
fn relative_paths_by_given_folds() {
    let mut out = String::new();
    relative_include_path_by_folds(
        &comps(&["C:", "\\", "Src", "a.h"]),
        &comps(&["C:", "\\", "SRC", "sub"]),
        &comps(&["c:", "\\", "src", "a.h"]),
        &comps(&["c:", "\\", "src", "sub"]),
        &mut out,
    );
    assert_eq!(out, "../a.h");
    let mut out = String::new();
    relative_include_path_by_folds(
        &comps(&["C:", "x"]),
        &comps(&["C:", "X"]),
        &comps(&["C:", "x"]),
        &comps(&["C:", "X"]),
        &mut out,
    );
    assert_eq!(out, "../x");
}

#[test]
fn same_drive_of_first_components() {
    assert!(same_lexical_drive_of(&PathRoot::Prefix(PathPrefix::Disk(b'C')), &PathRoot::Prefix(PathPrefix::Disk(b'C'))));
    assert!(!same_lexical_drive_of(&PathRoot::Prefix(PathPrefix::Disk(b'C')), &PathRoot::Prefix(PathPrefix::Disk(b'D'))));
    assert!(!same_lexical_drive_of(&PathRoot::Prefix(PathPrefix::Disk(b'C')), &PathRoot::Prefix(PathPrefix::VerbatimDisk(b'C'))));
    assert!(same_lexical_drive_of(
        &PathRoot::Prefix(PathPrefix::UNC("srv".to_string(), "share".to_string())),
        &PathRoot::Prefix(PathPrefix::UNC("srv".to_string(), "share".to_string()))
    ));
    assert!(!same_lexical_drive_of(
        &PathRoot::Prefix(PathPrefix::UNC("srv".to_string(), "a".to_string())),
        &PathRoot::Prefix(PathPrefix::UNC("srv".to_string(), "b".to_string()))
    ));
    assert!(same_lexical_drive_of(&PathRoot::RootDir, &PathRoot::RootDir));
    assert!(!same_lexical_drive_of(&PathRoot::Other, &PathRoot::Other));
    assert!(!same_lexical_drive_of(&PathRoot::Empty, &PathRoot::Empty));
}

#[test]
fn rooted_paths_share_the_root_drive() {
    assert!(rs_is_same_lexical_drive("/", "/x/y"));
    assert!(rs_is_same_lexical_drive("/a\\b", "/c"));
    assert!(!rs_is_same_lexical_drive("./a", "/a"));
    assert!(!rs_is_same_lexical_drive("..\\a", "..\\a"));
    assert!(!rs_is_same_lexical_drive("/a", ""));
}
