use ninja_rs::rs_canonicalize_path;

fn canonical(input: &str) -> String {
    let mut output = String::new();
    rs_canonicalize_path(input, &mut output);
    output
}

fn run_test(input: &str, expected: &str) {
    let got = canonical(input);
    if got != expected {
        panic!("assertion failed: input:  {input:?} , output: {got:?} , expected: {expected:?}'");
    }
}

#[test]
fn test_canonicalize_path_compatibility() {
    for _ in 0..1000 {
        run_test("", "");
        run_test("foo.h", "foo.h");
        run_test("./foo/./bar.h", "foo/bar.h");
        run_test("./x/foo/../bar.h", "x/bar.h");
        run_test("./x/foo/../../bar.h", "bar.h");
        run_test("foo//bar", "foo/bar");
        run_test("foo//.//..///bar", "bar");
        run_test("./x/../foo/../../bar.h", "../bar.h");
        run_test("foo/./.", "foo");
        run_test("..", "..");
        run_test("../", "..");
        run_test("../..", "../..");
        run_test("../../", "../..");
        run_test("./../", "..");
        run_test("/..", "/..");
        run_test("/../", "/..");
        run_test("/../..", "/../..");
        run_test("/../../", "/../..");
        run_test("/", "/");
        run_test("/foo/..", "/");
        run_test(".", ".");
        run_test("./.", ".");
        run_test(".", ".");
        run_test("foo/..", ".");
        run_test("foo/.._bar", "foo/.._bar");
        run_test(
            "C:\\Program Files(x86)\\Microsoft\\Visual Studio\\10.0.0.1000\\msbuild\\x86\\64\\msvcrt",
            "C:/Program Files(x86)/Microsoft/Visual Studio/10.0.0.1000/msbuild/x86/64/msvcrt",
        );
    }
}

#[test]
fn test_windows_abyss_drive_reset() {}

#[test]
fn canonicalize_appends_to_existing_output() {
    let mut output = String::from("out:");
    rs_canonicalize_path("a/b", &mut output);
    assert_eq!(output, "out:/a/b");
    let mut output = String::from("x");
    rs_canonicalize_path("a/..", &mut output);
    assert_eq!(output, "x");
}

#[test]
fn canonicalize_keeps_root_prefixes() {
    assert_eq!(canonical("\\\\server\\share"), "\\\\/server/share");
    assert_eq!(canonical("\\?\\C:\\x\\y"), "\\?\\\\?/x/y");
    assert_eq!(canonical("/a/b"), "//a/b");
    assert_eq!(canonical("\\?\\UNC\\a"), "\\?\\UNC\\a");
}

#[test]
fn canonicalize_drive_letter_forms() {
    assert_eq!(canonical("C:"), "C:");
    assert_eq!(canonical("C:foo"), "foo");
    assert_eq!(canonical("d:/a/../b"), "d:b");
    assert_eq!(canonical("C:/"), "C:/");
}

#[test]
fn canonicalize_keeps_slash_after_leading_parents() {
    assert_eq!(canonical("../foo"), "../foo");
    assert_eq!(canonical("../bar.h"), "../bar.h");
    assert_eq!(canonical("../../a/./b"), "../../a/b");
    assert_eq!(canonical("/../a"), "/../a");
    assert_eq!(canonical("a/../../../b"), "b");
}

#[test]
fn canonical_outputs_of_the_compatibility_table_are_fixed_points() {
    for p in [
        "foo.h", "./foo/./bar.h", "./x/foo/../bar.h", "./x/foo/../../bar.h", "foo//bar",
        "foo//.//..///bar", "./x/../foo/../../bar.h", "foo/./.", "..", "../", "../..", "../../",
        "./../", "/..", "/../", "/../..", "/../../", "/", "/foo/..", ".", "./.", "foo/..",
        "foo/.._bar", "../foo",
    ] {
        let once = canonical(p);
        assert_eq!(canonical(&once), once, "input {p:?}");
    }
}

#[test]
fn canonical_plain_relative_is_idempotent() {
    for p in ["./a/./b/c", "a//b", "x", "./.\\y\\z", "a/b/./."] {
        let once = canonical(p);
        assert_eq!(canonical(&once), once, "input {p:?}");
    }
    assert_eq!(canonical("./a/./b/c"), "a/b/c");
}

#[test]
fn collect_max_windows_path_segments() {
    let path = ninja_rs::path::generate_max_windows_path();
    assert_eq!(path.len(), 32767);
    assert!(path.starts_with("\\\\?\\C:\\seg_00000000000\\seg_00000000001\\"));
    assert!(path.ends_with("seg_00000002046\\aaaaaaaa"));
    for i in 0..2047usize {
        assert_eq!(&path[7 + 16 * i..7 + 16 * (i + 1)], format!("seg_{:011}\\", i));
    }
    let c = canonical(&path);
    assert!(c.starts_with("\\\\/?/C:/seg_00000000000/seg_00000000001/"));
    assert!(c.ends_with("/seg_00000002046/aaaaaaaa"));
}

#[test]
fn rooted_and_drive_canonical_forms_are_fixed_points() {
    for p in [
        "/a/b", "/..", "/../a/b", "/a/../..", "/a/..", "\\\\server\\share\\x", "\\?\\UNC\\h\\s\\f",
        "\\?\\a\\b", "C:/a/b", "C:\\x\\..\\..\\y", "c:../a", "/x", "C:",
        "x/a:b", "/x/a:b/c", "x/../C:/a/b", ".//C:", "ab:c",
    ] {
        let once = canonical(p);
        assert_eq!(canonical(&once), once, "input {p:?}");
    }
}

#[test]
fn unstable_shapes_read_back_differently() {
    assert_eq!(canonical("/a/."), "//a");
    assert_eq!(canonical("//a"), "/a");
    assert_eq!(canonical("/a/../b/c"), "/b/c");
    assert_eq!(canonical("/b/c"), "//b/c");
    assert_eq!(canonical("C:a/../b"), "C:b");
    assert_eq!(canonical("C:b"), "b");
    assert_eq!(canonical("\\\\C:\\a\\b"), "\\\\\\\\/a/b");
    assert_eq!(canonical("\\C:\\b"), "C:/b");
    assert_eq!(canonical("C:/b"), "b");
    assert_eq!(canonical(".//C:x/a"), "C:x/a");
    assert_eq!(canonical("C:x/a"), "C:/x/a");
    assert_eq!(canonical("a/../C:/b"), "C:/b");
}
