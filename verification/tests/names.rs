use disc_xplorer::calendar::unix_secs_to_string;
use disc_xplorer::catalog::normalise;
use disc_xplorer::sanitize::{sanitize_component, sanitize_dest_leaf, sanitize_windows_dest_leaf};
use disc_xplorer::tar_archive::{format_mtime, parse_number};
use disc_xplorer::zip_archive::dos_datetime;

#[test]
fn dest_leaf_sanitizes_only_last_component() {
    assert_eq!(
        sanitize_dest_leaf("/Users/me/Downloads/What's new™:NS"),
        "/Users/me/Downloads/What's new™_NS"
    );
    assert_eq!(sanitize_dest_leaf("CON"), "_CON");
    assert_eq!(sanitize_dest_leaf("/a/b/file.txt"), "/a/b/file.txt");
}

#[test]
fn windows_paths_end_at_either_separator() {
    // Where `/` alone separates, the whole text is one component.
    assert_eq!(sanitize_dest_leaf("x\\y"), "x_y");
    assert_eq!(sanitize_windows_dest_leaf("x\\y"), "x\\y");
    assert_eq!(sanitize_windows_dest_leaf("C:\\a\\CON"), "C:\\a\\_CON");
    assert_eq!(sanitize_windows_dest_leaf("C:\\CON"), "C:\\_CON");
    assert_eq!(sanitize_windows_dest_leaf("C:/a/b?c"), "C:/a\\b_c");
    assert_eq!(sanitize_windows_dest_leaf("c:CON"), "c:_CON");
    assert_eq!(sanitize_windows_dest_leaf("\\\\nas\\disc\\a:b"), "\\\\nas\\disc\\a_b");
    assert_eq!(sanitize_windows_dest_leaf("C:\\"), "C:\\");
    assert_eq!(sanitize_windows_dest_leaf("\\\\nas\\disc"), "\\\\nas\\disc");
    assert_eq!(sanitize_windows_dest_leaf("a\\.."), "a\\..");
    assert_eq!(sanitize_windows_dest_leaf("CON"), "_CON");
}

#[test]
fn maps_separators_and_illegal_chars() {
    assert_eq!(sanitize_component("What's new in Expander™:NS"), "What's new in Expander™_NS");
    assert_eq!(sanitize_component("a/b\\c"), "a_b_c");
    assert_eq!(sanitize_component("a<b>c:d\"e|f?g*h"), "a_b_c_d_e_f_g_h");
}

#[test]
fn blocks_traversal_and_empty() {
    assert_eq!(sanitize_component(".."), "_");
    assert_eq!(sanitize_component("."), "_");
    assert_eq!(sanitize_component("..."), "_");
    assert_eq!(sanitize_component("../../etc/passwd"), ".._.._etc_passwd");
    assert_eq!(sanitize_component("/abs/path"), "_abs_path");
    assert_eq!(sanitize_component(""), "_");
}

#[test]
fn handles_windows_quirks() {
    assert_eq!(sanitize_component("trailing. "), "trailing");
    assert_eq!(sanitize_component("CON"), "_CON");
    assert_eq!(sanitize_component("com1.txt"), "_com1.txt");
    assert_eq!(sanitize_component("normal_name.txt"), "normal_name.txt");
}

#[test]
fn sanitizing_again_changes_nothing() {
    for name in ["a:b", "CON", "..", "x. ", "plain", "com1.txt", "///"] {
        let once = sanitize_component(name);
        assert_eq!(sanitize_component(&once), once);
    }
}

#[test]
fn reads_octal_and_gnu_binary_numbers() {
    assert_eq!(parse_number(b"0000144\0"), 100);
    assert_eq!(parse_number(b"00000000000 "), 0);
    assert_eq!(parse_number(&[0x80, 0, 0, 0, 0, 0, 0, 1]), 1);
    assert_eq!(parse_number(&[0x80, 0, 0, 0, 0, 0, 1, 0]), 256);
}

#[test]
fn formats_mtimes_without_a_date_library() {
    assert_eq!(format_mtime(0), "");
    assert_eq!(format_mtime(1_000_000_000), "2001-09-09 01:46:40");
    assert_eq!(format_mtime(1_700_000_000), "2023-11-14 22:13:20");
}

#[test]
fn refuses_traversal_names() {
    assert_eq!(normalise("./a/b").as_deref(), Some("/a/b"));
    assert_eq!(normalise("../etc/passwd"), None);
    assert_eq!(normalise("a/../../b"), None);
}

#[test]
fn rejects_traversal_and_absolute_names() {
    assert_eq!(normalise("a/b.txt").as_deref(), Some("/a/b.txt"));
    assert_eq!(normalise("./a//b.txt").as_deref(), Some("/a/b.txt"));
    assert_eq!(normalise("a\\b.txt").as_deref(), Some("/a/b.txt"));
    assert_eq!(normalise("../../etc/passwd"), None, "traversal must be refused");
    assert_eq!(normalise("a/../../b"), None);
    assert_eq!(normalise(""), None);
}

#[test]
fn decodes_dos_timestamps() {
    let date = ((2024 - 1980) << 9) | (5 << 5) | 17;
    let time = (14 << 11) | (30 << 5) | 22;
    assert_eq!(dos_datetime(time, date), "2024-05-17 14:30:44");
    assert_eq!(dos_datetime(0, 0), "", "an unset date shows nothing");
}

#[test]
fn seconds_are_shown_as_a_date() {
    assert_eq!(unix_secs_to_string(0), "1970-01-01 00:00:00");
    assert_eq!(unix_secs_to_string(951_827_696), "2000-02-29 12:34:56");
    assert_eq!(unix_secs_to_string(1_700_000_000), "2023-11-14 22:13:20");
}

#[test]
fn only_the_first_byte_of_a_binary_number_is_marked() {
    assert_eq!(parse_number(&[0x80, 0, 0, 0, 0, 0, 0, 0x80]), 128);
    assert_eq!(parse_number(&[0x81, 0xFF]), 511);
    assert_eq!(parse_number(&[0x80, 0, 0, 0, 0xFF, 0xFF, 0xFF, 0xFF, 0xFF, 0xFF, 0xFF, 0xFF]), u64::MAX);
}

#[test]
fn a_normal_path_normalises_to_itself() {
    let p = normalise("a\\.//b/./c").unwrap();
    assert_eq!(p, "/a/b/c");
    assert_eq!(normalise(&p).unwrap(), p);
    assert!(normalise("a/../b").is_none());
    assert!(normalise("./").is_none());
    assert_eq!(normalise("/...").unwrap(), "/...");
}
