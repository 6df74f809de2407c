use newtree::line::LineFacts;
use newtree::walk::{
    bytes_label, child_indent, connector, count_entry, every_file_shows, filtered_step, hold_line,
    lists_all_children, no_match_line, produce_decision, reports_no_match, settle_held, show_entry,
    subtree_force, summary_line, uses_filter, FilteredStep, Produce, date_source, finish_dir, finish_held,
    invalid_pattern_line, produces, DateSource,
};
use newtree::{
    format_line, order_children, ChildEntry, ColorMode, Counters, FileKind, LsColors, NamePattern,
    OutputFmt, SortBy, WalkFlags, WalkOpts,
};

fn flags() -> WalkFlags {
    WalkFlags {
        level: None,
        all: false,
        dirs_only: false,
        follow_links: false,
        full_path: false,
        one_fs: false,
        pattern: None,
        max_matches: None,
        ignore: None,
        prune: false,
        version_sort: false,
        time_sort: false,
        change_sort: false,
        unsorted: false,
        reverse: false,
        size: false,
        human: false,
        permissions: false,
        date: false,
        color: ColorMode::Never,
        icons: false,
        no_icons: false,
        json: false,
        xml: false,
    }
}

fn opts_with(f: WalkFlags) -> WalkOpts {
    WalkOpts::from_flags(&f, false, 7, LsColors::parse(""))
}

fn entry(name: &str, is_dir: bool, mtime: i128) -> ChildEntry {
    ChildEntry {
        name: name.to_string(),
        sort_name: name.to_string(),
        dirent_is_file: !is_dir,
        is_dir,
        dev: 7,
        mtime,
        ctime: 0,
    }
}

fn names(es: &[ChildEntry], order: &[usize]) -> Vec<String> {
    order.iter().map(|&i| es[i].name.clone()).collect()
}

#[test]
fn flags_to_options() {
    let mut f = flags();
    f.human = true;
    f.change_sort = true;
    f.pattern = Some("src/".to_string());
    f.color = ColorMode::Auto;
    f.json = true;
    f.xml = true;
    let o = WalkOpts::from_flags(&f, true, 3, LsColors::parse(""));
    assert!(o.size && o.human && o.use_ctime && o.match_dirs);
    assert_eq!(o.sort, SortBy::ChangeTime);
    assert_eq!(o.color, ColorMode::Always);
    assert!(o.icons);
    assert_eq!(o.output, OutputFmt::Json);
    assert_eq!(o.root_dev, 3);
    let mut f = flags();
    f.color = ColorMode::Auto;
    f.date = true;
    f.unsorted = true;
    f.time_sort = true;
    let o = WalkOpts::from_flags(&f, true, 0, LsColors::parse(""));
    assert_eq!(o.color, ColorMode::Simple);
    assert_eq!(o.sort, SortBy::Unsorted);
    let o = WalkOpts::from_flags(&f, false, 0, LsColors::parse(""));
    assert_eq!(o.color, ColorMode::Never);
    assert!(!o.icons);
}

#[test]
fn children_sorted_by_name_directories_first() {
    let es = vec![entry("b.txt", false, 0), entry("Zdir", true, 0), entry("A.txt", false, 0), entry(".hidden", false, 0), entry("adir", true, 0)];
    let o = opts_with(flags());
    let r = order_children(&es, &o).unwrap();
    assert_eq!(names(&es, &r), vec!["adir", "Zdir", "A.txt", "b.txt"]);
    let mut f = flags();
    f.all = true;
    f.reverse = true;
    let r = order_children(&es, &opts_with(f)).unwrap();
    assert_eq!(names(&es, &r), vec!["b.txt", "A.txt", ".hidden", "Zdir", "adir"]);
}

#[test]
fn children_version_sorted_and_filtered() {
    let es = vec![entry("v10", false, 0), entry("v9", false, 0), entry("V9", false, 0), entry("tmp", true, 0), entry("notes.IGN", false, 0)];
    let mut f = flags();
    f.version_sort = true;
    f.ignore = Some("ign".to_string());
    let r = order_children(&es, &opts_with(f)).unwrap();
    assert_eq!(names(&es, &r), vec!["tmp", "v9", "V9", "v10"]);
    let mut f = flags();
    f.dirs_only = true;
    let r = order_children(&es, &opts_with(f)).unwrap();
    assert_eq!(names(&es, &r), vec!["tmp"]);
}

#[test]
fn children_by_time_and_unsorted_and_device() {
    let mut es = vec![entry("old", false, -5), entry("new", false, 100), entry("mid", false, 7), entry("mid2", false, 7)];
    es[3].dev = 9;
    let mut f = flags();
    f.time_sort = true;
    let r = order_children(&es, &opts_with(f)).unwrap();
    assert_eq!(names(&es, &r), vec!["new", "mid", "mid2", "old"]);
    let mut f = flags();
    f.unsorted = true;
    f.one_fs = true;
    let r = order_children(&es, &opts_with(f)).unwrap();
    assert_eq!(names(&es, &r), vec!["old", "new", "mid"]);
}

#[test]
fn version_sort_overflow_is_reported() {
    let es = vec![entry("a99999999999999999999", false, 0), entry("a1", false, 0)];
    let mut f = flags();
    f.version_sort = true;
    assert_eq!(order_children(&es, &opts_with(f)), None);
    // A directory and a file are never compared by name.
    let es = vec![entry("a99999999999999999999", true, 0), entry("a1", false, 0)];
    let mut f = flags();
    f.version_sort = true;
    assert_eq!(order_children(&es, &opts_with(f)), Some(vec![0, 1]));
}

#[test]
fn connectors() {
    assert_eq!(connector("│   ", false, 2), "│   ├── ");
    assert_eq!(connector("x", true, 1), "x└── ");
    assert_eq!(connector("x", true, 0), "");
    assert_eq!(child_indent("", true, 1), "    ");
    assert_eq!(child_indent("", false, 1), "│   ");
    assert_eq!(child_indent("abc", false, 0), "");
}

fn facts(name: &str) -> LineFacts {
    LineFacts {
        display_name: name.to_string(),
        is_dir: false,
        is_link: false,
        link_target: String::new(),
        perms: Some((FileKind::Other, 0o644)),
        date_secs: 0,
        icon: None,
        ext: "txt".to_string(),
        is_exec: false,
    }
}

#[test]
fn plain_lines() {
    let mut f = flags();
    f.size = true;
    f.permissions = true;
    f.date = true;
    let o = opts_with(f);
    assert_eq!(
        format_line("├── ", &facts("a.txt"), Some(1234), "", &o),
        "├── [-rw-r--r--] [Jan  1 00:00] a.txt [1234B]"
    );
    let mut fa = facts("ln");
    fa.is_link = true;
    fa.link_target = " -> x".to_string();
    fa.icon = Some('*');
    let o = opts_with(flags());
    assert_eq!(format_line("", &fa, None, "", &o), "* ln ->  -> x");
    let mut f = flags();
    f.human = true;
    assert_eq!(format_line("", &facts("b"), Some(2048), "2.0K", &opts_with(f)), "b [2.0K]");
}

#[test]
fn colored_lines() {
    let mut f = flags();
    f.color = ColorMode::Always;
    let o = WalkOpts::from_flags(&f, true, 0, LsColors::parse("*.txt=33"));
    assert_eq!(
        format_line("└── ", &facts("a.txt"), None, "", &o),
        "\x1b[90m└── \x1b[0m\x1b[33ma.txt\x1b[0m"
    );
    let mut fa = facts("ln");
    fa.is_link = true;
    fa.link_target = " -> x".to_string();
    assert_eq!(
        format_line("", &fa, None, "", &o),
        "\x1b[90m\x1b[0m\x1b[36;1mln\x1b[0m\x1b[90m ->\x1b[0m \x1b[36mx\x1b[0m"
    );
    let mut f = flags();
    f.color = ColorMode::Simple;
    f.size = true;
    let o = WalkOpts::from_flags(&f, true, 0, LsColors::parse(""));
    let mut d = facts("dir");
    d.is_dir = true;
    assert_eq!(
        format_line("", &d, Some(5), "", &o),
        "\x1b[90m\x1b[0m\x1b[34;1mdir\x1b[0m\x1b[90m [5B]\x1b[0m"
    );
    assert_eq!(
        format_line("", &facts("a.txt"), None, "", &o),
        "\x1b[90m\x1b[0m\x1b[0ma.txt\x1b[0m"
    );
}

#[test]
fn summaries_and_labels() {
    let c = Counters { files: 1, dirs: 2 };
    assert_eq!(summary_line(&c, ColorMode::Never, None), "\n2 directories, 1 file");
    let c = Counters { files: 0, dirs: 1 };
    assert_eq!(summary_line(&c, ColorMode::Never, Some("10B")), "\n1 directory, 0 files, 10B");
    assert_eq!(
        summary_line(&c, ColorMode::Auto, Some("1.0K")),
        "\n\x1b[90m1 directory, 0 files\x1b[0m, \x1b[90m1.0K\x1b[0m"
    );
    assert_eq!(no_match_line(ColorMode::Never, "x.*"), "No matches for 'x.*'");
    assert_eq!(no_match_line(ColorMode::Always, "q"), "\x1b[33mNo matches for 'q'\x1b[0m");
    assert_eq!(bytes_label(0), "0B");
    assert_eq!(bytes_label(18446744073709551615), "18446744073709551615B");
}

#[test]
fn filtered_walk_steps() {
    let mut f = flags();
    f.max_matches = Some(2);
    let o = opts_with(f);
    assert_eq!(filtered_step(&o, 2, true, true, false, true), FilteredStep::Stop);
    assert_eq!(filtered_step(&o, 0, false, false, false, false), FilteredStep::Skip);
    assert_eq!(filtered_step(&o, 0, false, false, false, true), FilteredStep::ShowFile);
    assert_eq!(filtered_step(&o, 0, true, false, true, false), FilteredStep::ShowDir);
    assert_eq!(filtered_step(&o, 0, false, false, true, false), FilteredStep::HoldDir);
    let mut f = flags();
    f.prune = true;
    let o = opts_with(f);
    assert_eq!(filtered_step(&o, 5, true, false, true, false), FilteredStep::HoldDir);
}

#[test]
fn prefilter_agrees_with_the_walk() {
    let o = opts_with(flags());
    for &(m, force, is_dir, all) in &[
        (false, false, false, false),
        (true, false, false, false),
        (false, true, false, false),
        (false, false, false, true),
        (false, false, true, false),
        (true, false, true, false),
        (false, true, true, true),
    ] {
        let p = produce_decision(m, force, is_dir, all, true);
        let step = filtered_step(&o, 0, m, force, is_dir, all);
        match (is_dir, p) {
            (false, Produce::Yes) => assert_eq!(step, FilteredStep::ShowFile),
            (false, _) => assert_eq!(step, FilteredStep::Skip),
            (true, Produce::Yes) => assert_eq!(step, FilteredStep::ShowDir),
            (true, _) => assert_eq!(step, FilteredStep::HoldDir),
        }
    }
}

#[test]
fn name_patterns() {
    let p = NamePattern::new("ma.n").unwrap();
    assert!(p.name_matches("main.rs", false, false));
    assert!(!p.name_matches("main.rs", false, true));
    assert!(p.name_matches("xmainy", true, true));
    assert!(!p.name_matches("lib.rs", false, false));
    assert!(NamePattern::new("foo(").is_err());
    assert_eq!(newtree::pattern::trim_pattern("src//"), "src");
    assert!(newtree::pattern::ends_with_slash("src/"));
}

#[test]
fn name_patterns_ignore_case() {
    let p = NamePattern::new("readme").unwrap();
    assert!(p.name_matches("README.md", false, false));
    assert!(p.name_matches("ReadMe", true, true));
    let p = NamePattern::new("^SRC$").unwrap();
    assert!(p.name_matches("src", true, false));
    assert!(!p.name_matches("src2", true, false));
}

#[test]
fn many_children_sorted_stably_by_name() {
    // 200 entries, with repeated names (stability) and directories mixed in.
    let mut es = Vec::new();
    for i in 0..200usize {
        let name = format!("n{:03}", (i * 37) % 50);
        es.push(entry(&name, i % 7 == 0, i as i128));
    }
    let r = order_children(&es, &opts_with(flags())).unwrap();
    assert_eq!(r.len(), 200);
    let mut expected: Vec<usize> = (0..200).collect();
    expected.sort_by_key(|&i| (!es[i].is_dir, es[i].name.to_lowercase()));
    assert_eq!(r, expected);
}

#[test]
fn shown_entry_prints_held_lines_first() {
    let mut c = Counters { files: 0, dirs: 0 };
    let mut matched = 0usize;
    let mut pending: Vec<String> = Vec::new();
    let saved_a = hold_line(&mut pending, "a/".to_string());
    assert_eq!(saved_a, 0);
    let saved_b = hold_line(&mut pending, "a/b/".to_string());
    assert_eq!(saved_b, 1);
    let out = show_entry(&mut c, &mut matched, &mut pending, "a/b/x.rs".to_string(), false, true);
    assert_eq!(out, vec!["a/", "a/b/", "a/b/x.rs"]);
    assert!(pending.is_empty());
    assert_eq!((c.files, c.dirs, matched), (1, 0, 1));
    settle_held(&mut c, &mut matched, &mut pending, saved_b, true, false);
    settle_held(&mut c, &mut matched, &mut pending, saved_a, true, true);
    assert_eq!((c.files, c.dirs, matched), (1, 2, 2));
    count_entry(&mut c, false);
    assert_eq!((c.files, c.dirs), (2, 2));
}

#[test]
fn unproductive_hold_is_dropped() {
    let mut c = Counters { files: 3, dirs: 4 };
    let mut matched = 5usize;
    let mut pending: Vec<String> = vec!["top/".to_string()];
    let saved = hold_line(&mut pending, "top/empty/".to_string());
    let _ = hold_line(&mut pending, "top/empty/deeper/".to_string());
    settle_held(&mut c, &mut matched, &mut pending, saved, false, true);
    assert_eq!(pending, vec!["top/"]);
    assert_eq!((c.files, c.dirs, matched), (3, 4, 5));
    // Settling past the end leaves the held lines alone.
    settle_held(&mut c, &mut matched, &mut pending, 9, false, false);
    assert_eq!(pending, vec!["top/"]);
}

#[test]
fn plain_listing_decisions() {
    let mut f = flags();
    f.pattern = Some("src/".to_string());
    let o = opts_with(f);
    assert!(lists_all_children(&o, true));
    assert!(!lists_all_children(&o, false));
    assert!(!lists_all_children(&opts_with(flags()), true));
    assert!(subtree_force(true, false) && subtree_force(false, true) && !subtree_force(false, false));
    let plain = opts_with(flags());
    let mut f = flags();
    f.prune = true;
    let pruned = opts_with(f);
    assert!(!uses_filter(false, &plain));
    assert!(uses_filter(true, &plain));
    assert!(uses_filter(false, &pruned));
    assert!(every_file_shows(false, &pruned));
    assert!(!every_file_shows(true, &pruned));
    assert!(!every_file_shows(false, &plain));
    assert!(reports_no_match(true, 0));
    assert!(!reports_no_match(true, 1));
    assert!(!reports_no_match(false, 0));
}

#[test]
fn pattern_errors_carry_the_engine_message() {
    let e = match NamePattern::new("foo(") {
        Ok(_) => panic!("an unbalanced group must be refused"),
        Err(e) => e,
    };
    let expected = regex::RegexBuilder::new("foo(").case_insensitive(true).build().unwrap_err().to_string();
    assert_eq!(e.message, expected);
    assert!(!e.message.is_empty());
}

#[test]
fn reverse_flag_reverses_the_order() {
    let es = vec![entry("b", false, 0), entry("a", false, 0), entry("c", true, 0), entry("a", false, 1)];
    let r0 = order_children(&es, &opts_with(flags())).unwrap();
    let mut f = flags();
    f.reverse = true;
    let mut r1 = order_children(&es, &opts_with(f)).unwrap();
    r1.reverse();
    assert_eq!(r0, vec![2, 1, 3, 0]);
    assert_eq!(r1, r0);
}

#[test]
fn directory_totals_add_up() {
    // A directory of two files and a subdirectory reporting (30, 3).
    let kids = vec![(10u64, 1usize), (5, 1), (30, 3)];
    assert_eq!(finish_dir(None, 1, &kids), Some((45, 6)));
    assert_eq!(finish_dir(Some(99), 2, &kids), Some((99, 7)));
    assert_eq!(finish_dir(None, 1, &Vec::new()), Some((0, 1)));
    assert_eq!(finish_dir(None, 0, &vec![(u64::MAX, 1), (1, 1)]), None);
    assert_eq!(finish_dir(None, usize::MAX, &vec![(1, 1)]), None);
}

#[test]
fn held_directories_count_only_what_showed() {
    let kids = vec![(false, 100u64, 7usize), (true, 4, 2), (true, 6, 1)];
    assert_eq!(finish_held(&kids), Some((true, 10, 3)));
    assert_eq!(finish_held(&vec![(false, 5, 1)]), Some((false, 0, 0)));
    assert_eq!(finish_held(&Vec::new()), Some((false, 0, 0)));
    assert_eq!(finish_held(&vec![(true, u64::MAX, 1), (true, 1, 1)]), None);
    // The overflowing entry did not show, so it is not added.
    assert_eq!(finish_held(&vec![(true, u64::MAX, 1), (false, 1, 1)]), Some((true, u64::MAX, 1)));
}

#[test]
fn production_of_entries() {
    assert!(produces(Produce::Yes, &Vec::new()));
    assert!(!produces(Produce::No, &vec![true]));
    assert!(produces(Produce::AskChildren, &vec![false, true]));
    assert!(!produces(Produce::AskChildren, &vec![false, false]));
    assert!(!produces(Produce::AskChildren, &Vec::new()));
}

#[test]
fn date_column_source_and_pattern_error_text() {
    let mut f = flags();
    assert_eq!(date_source(&opts_with(flags())), DateSource::ModTime);
    f.change_sort = true;
    assert_eq!(date_source(&opts_with(f)), DateSource::ChangeTime);
    assert_eq!(invalid_pattern_line("a(", "unclosed group"), "nt: invalid regex 'a(': unclosed group");
}
