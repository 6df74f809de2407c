use std::cmp::Ordering;

use newtree::colors::extension_of_name;
use newtree::natural::natural_cmp_checked;
use newtree::{
    ansi_code_to_color, format_perms, format_timestamp, natural_cmp, perms_rwx, FileKind, LsColors,
    TermColor,
};

#[test]
fn natural_order_compares_numbers_by_value() {
    assert_eq!(natural_cmp("file2", "file10"), Ordering::Less);
    assert_eq!(natural_cmp("file10", "file2"), Ordering::Greater);
    assert_eq!(natural_cmp("v1.10.0", "v1.9.3"), Ordering::Greater);
}

#[test]
fn natural_order_ignores_ascii_case() {
    assert_eq!(natural_cmp("Apple", "apple"), Ordering::Equal);
    assert_eq!(natural_cmp("apple", "Banana"), Ordering::Less);
}

#[test]
fn natural_order_leading_zeros_and_prefixes() {
    assert_eq!(natural_cmp("a01", "a1"), Ordering::Equal);
    assert_eq!(natural_cmp("a01b", "a1c"), Ordering::Less);
    assert_eq!(natural_cmp("abc", "abcd"), Ordering::Less);
    assert_eq!(natural_cmp("", ""), Ordering::Equal);
    assert_eq!(natural_cmp("", "a"), Ordering::Less);
}

#[test]
fn natural_order_digit_against_letter() {
    // '1' (0x31) sorts before 'a'; ':' sorts after every digit
    assert_eq!(natural_cmp("1", "a"), Ordering::Less);
    assert_eq!(natural_cmp("9", ":"), Ordering::Less);
}

#[test]
fn natural_order_is_antisymmetric_on_examples() {
    let names = ["a", "A2", "a10", "b", "x-1", "x_1", "10", "9", ""];
    for a in names.iter() {
        assert_eq!(natural_cmp(a, a), Ordering::Equal);
        for b in names.iter() {
            assert_eq!(natural_cmp(a, b), natural_cmp(b, a).reverse());
        }
    }
}

#[test]
fn natural_order_reports_overflowing_runs() {
    let big = "99999999999999999999"; // above u64::MAX
    assert_eq!(natural_cmp_checked(big, "1"), None);
    assert_eq!(natural_cmp_checked("a", big), Some(Ordering::Greater));
    assert_eq!(natural_cmp_checked("18446744073709551615", "1"), Some(Ordering::Greater));
}

#[test]
fn timestamps_at_known_dates() {
    assert_eq!(format_timestamp(0), "[Jan  1 00:00]");
    assert_eq!(format_timestamp(5_097_600), "[Mar  1 00:00]");
    assert_eq!(format_timestamp(951_782_400), "[Feb 29 00:00]");
    assert_eq!(format_timestamp(1_700_000_000), "[Nov 14 22:13]");
    assert_eq!(format_timestamp(978_307_199), "[Dec 31 23:59]");
}

#[test]
fn timestamps_before_the_epoch_show_the_epoch() {
    assert_eq!(format_timestamp(-1), "[Jan  1 00:00]");
    assert_eq!(format_timestamp(i64::MIN), "[Jan  1 00:00]");
}

#[test]
fn permission_strings() {
    assert_eq!(format_perms(Some((FileKind::Dir, 0o755))), "[drwxr-xr-x]");
    assert_eq!(format_perms(Some((FileKind::Other, 0o644))), "[-rw-r--r--]");
    assert_eq!(format_perms(Some((FileKind::Other, 0o4755))), "[-rwsr-xr-x]");
    assert_eq!(format_perms(Some((FileKind::Other, 0o2644))), "[-rw-r-Sr--]");
    assert_eq!(format_perms(Some((FileKind::Dir, 0o1777))), "[drwxrwxrwt]");
    assert_eq!(format_perms(Some((FileKind::Symlink, 0o1776))), "[lrwxrwxrwT]");
    assert_eq!(format_perms(None), "[----------]");
    assert_eq!(perms_rwx(0o700, 0o400, 0o200, 0o100, false, 's', 'S'), ['r', 'w', 'x']);
}

#[test]
fn ls_colors_parsing() {
    let c = LsColors::parse("di=01;34:ln=01;36:*.TXT=33:*.rs=38;5;208:ex=32:fi=0:bogus");
    assert_eq!(c.dir, "01;34");
    assert_eq!(c.link, "01;36");
    assert_eq!(c.executable, "32");
    assert_eq!(c.file, "0");
    assert_eq!(c.ext_code("txt").map(|s| s.as_str()), Some("33"));
    assert_eq!(c.ext_code("rs").map(|s| s.as_str()), Some("38;5;208"));
    assert_eq!(c.ext_code("md"), None);
}

#[test]
fn ls_colors_defaults_and_overrides() {
    let c = LsColors::parse("");
    assert_eq!(c.dir, "34;1");
    assert_eq!(c.link, "36;1");
    assert_eq!(c.executable, "32;1");
    assert_eq!(c.file, "");
    let c = LsColors::parse("*.md=31:*.MD=32");
    assert_eq!(c.ext_code("md").map(|s| s.as_str()), Some("32"));
}

#[test]
fn ansi_sequences_and_file_colors() {
    let c = LsColors::parse("*.txt=33:ex=35");
    assert_eq!(LsColors::ansi(""), "\x1b[0m");
    assert_eq!(LsColors::ansi("1;34"), "\x1b[1;34m");
    assert_eq!(c.dir_color(), "\x1b[34;1m");
    assert_eq!(c.file_color("TXT", false, false), "\x1b[33m");
    assert_eq!(c.file_color("txt", true, false), "\x1b[36;1m");
    assert_eq!(c.file_color("txt", false, true), "\x1b[35m");
    assert_eq!(c.file_color("", false, false), "\x1b[0m");
}

#[test]
fn sgr_codes_to_colors() {
    assert_eq!(ansi_code_to_color("01;34"), TermColor::Blue);
    assert_eq!(ansi_code_to_color("1;91"), TermColor::Red);
    assert_eq!(ansi_code_to_color("38;5;208"), TermColor::Indexed(208));
    assert_eq!(ansi_code_to_color("38;5;300;33"), TermColor::Yellow);
    assert_eq!(ansi_code_to_color("38;2;1;+2;x"), TermColor::Rgb(1, 2, 0));
    assert_eq!(ansi_code_to_color("38;2;1"), TermColor::Reset);
    assert_eq!(ansi_code_to_color(""), TermColor::Reset);
    assert_eq!(ansi_code_to_color("4;30"), TermColor::DarkGray);
}

#[test]
fn tui_colors_by_extension() {
    let c = LsColors::parse("*.rs=38;5;208:*.md=");
    assert_eq!(newtree::ratatui_color_for_name(&c, "src", true), TermColor::Blue);
    assert_eq!(newtree::ratatui_color_for_name(&c, "main.RS", false), TermColor::Indexed(208));
    assert_eq!(newtree::ratatui_color_for_name(&c, "README", false), TermColor::Reset);
    assert_eq!(newtree::ratatui_color_for_name(&c, ".rs", false), TermColor::Reset);
    assert_eq!(newtree::ratatui_color_for_name(&c, "x.md", false), TermColor::Reset);
    assert_eq!(newtree::ratatui_color_for_name(&c, "x.c", false), TermColor::Reset);
}

#[test]
fn extensions_as_path_finds_them() {
    assert_eq!(extension_of_name("a.tar.gz"), "gz");
    assert_eq!(extension_of_name(".bashrc"), "");
    assert_eq!(extension_of_name("noext"), "");
    assert_eq!(extension_of_name("trailing."), "");
    assert_eq!(extension_of_name(".."), "");
    assert_eq!(extension_of_name(".a.b"), "b");
}
