use newtree::tui::{decide_key, name_segments, App, Key, KeyAction};
use newtree::{
    find_match_range, flatten, json_escape, output_json, output_xml, print_json, print_xml,
    xml_escape, RenderLine, TreeNode,
};

fn file(name: &str) -> TreeNode {
    TreeNode { name: name.to_string(), is_dir: false, children: vec![] }
}

fn dir(name: &str, children: Vec<TreeNode>) -> TreeNode {
    TreeNode { name: name.to_string(), is_dir: true, children }
}

fn sample() -> TreeNode {
    dir(
        "root",
        vec![
            dir("src", vec![file("main.rs"), file("lib.rs")]),
            file("Cargo.toml"),
            dir("empty", vec![]),
        ],
    )
}

fn lines(node: &TreeNode, search: &str) -> Vec<RenderLine> {
    let mut out = Vec::new();
    flatten(node, "", false, 0, search, &mut out);
    out
}

#[test]
fn visibility_and_matching() {
    let t = sample();
    assert!(t.is_visible(""));
    assert!(t.is_visible("MAIN"));
    assert!(!t.is_visible("zzz"));
    assert!(t.children[0].name_matches("SR"));
    assert!(!t.children[0].name_matches(""));
    assert!(!t.children[2].is_visible("main"));
}

#[test]
fn file_counts() {
    let t = sample();
    assert_eq!(t.count_files(), 3);
    assert_eq!(t.count_files_checked(), Some(3));
    assert_eq!(file("x").count_files(), 1);
    assert_eq!(dir("d", vec![]).count_files(), 0);
}

#[test]
fn flatten_without_search_draws_the_tree() {
    let ls = lines(&sample(), "");
    let got: Vec<(String, String)> = ls.iter().map(|l| (l.prefix.clone(), l.name.clone())).collect();
    let want: Vec<(String, String)> = vec![
        ("", "root"),
        ("├── ", "src"),
        ("│   ├── ", "main.rs"),
        ("│   └── ", "lib.rs"),
        ("├── ", "Cargo.toml"),
        ("└── ", "empty"),
    ]
    .into_iter()
    .map(|(a, b)| (a.to_string(), b.to_string()))
    .collect();
    assert_eq!(got, want);
    assert!(ls.iter().all(|l| l.match_range.is_none()));
}

#[test]
fn flatten_with_search_keeps_visible_nodes_only() {
    let ls = lines(&sample(), "rs");
    let got: Vec<(String, String, Option<(usize, usize)>)> =
        ls.iter().map(|l| (l.prefix.clone(), l.name.clone(), l.match_range)).collect();
    assert_eq!(
        got,
        vec![
            ("".to_string(), "root".to_string(), None),
            ("└── ".to_string(), "src".to_string(), None),
            ("    ├── ".to_string(), "main.rs".to_string(), Some((5, 7))),
            ("    └── ".to_string(), "lib.rs".to_string(), Some((4, 6))),
        ]
    );
}

#[test]
fn match_ranges_are_byte_ranges() {
    assert_eq!(find_match_range("Hello", "ll"), Some((2, 4)));
    assert_eq!(find_match_range("Hello", "LL"), Some((2, 4)));
    assert_eq!(find_match_range("Hello", ""), None);
    assert_eq!(find_match_range("Hello", "x"), None);
    assert_eq!(find_match_range("über", "ber"), Some((2, 5)));
    assert_eq!(find_match_range("ÜBER", "ü"), Some((0, 2)));
}

#[test]
fn json_and_xml_rendering() {
    let t = dir("a\"b", vec![file("x\\y"), dir("d", vec![])]);
    assert_eq!(json_escape("a\"b\\c"), "a\\\"b\\\\c");
    assert_eq!(xml_escape("<a & \"b\">"), "&lt;a &amp; &quot;b&quot;&gt;");
    assert_eq!(
        print_json(&t, 0),
        "{\"directory\": \"a\\\"b\", \"contents\": [\n    {\"type\": \"file\", \"name\": \"x\\\\y\"},\n  {\"directory\": \"d\", \"contents\": [\n  ]}\n]}"
    );
    assert_eq!(
        output_json(&file("f")),
        "[\n    {\"type\": \"file\", \"name\": \"f\"}\n]\n"
    );
    assert_eq!(
        print_xml(&t, 0),
        "<directory name=\"a&quot;b\">\n  <file name=\"x\\y\"/>\n  <directory name=\"d\">\n  </directory>\n</directory>\n"
    );
    assert_eq!(
        output_xml(&file("f")),
        "<?xml version=\"1.0\" encoding=\"UTF-8\"?>\n<tree>\n  <file name=\"f\"/>\n</tree>\n"
    );
}

#[test]
fn view_state_and_keys() {
    let mut app = App::new(sample(), String::new());
    assert_eq!(app.total_files, 3);
    assert_eq!(app.lines.len(), 6);
    assert_eq!(app.status_text(), "  3 files ");
    // typing filters the lines and jumps near the first match
    assert!(app.handle_key(0, Key::Char('l'), 10));
    assert_eq!(app.search, "l");
    assert_eq!(app.match_count(), 2); // lib.rs and Cargo.toml
    assert_eq!(app.status_text(), "  2 / 3 ");
    assert!(app.handle_key(1, Key::Char('I'), 10));
    assert_eq!(app.search, "lI");
    assert!(app.handle_key(0, Key::Backspace, 10));
    assert_eq!(app.search, "l");
    assert!(app.handle_key(0, Key::Esc, 10));
    assert_eq!(app.search, "");
    assert_eq!(app.scroll, 0);
    // scrolling
    assert!(app.handle_key(0, Key::Down, 2));
    assert_eq!(app.scroll, 1);
    assert!(app.handle_key(0, Key::End, 2));
    assert_eq!(app.scroll, 4);
    assert!(app.handle_key(0, Key::PageDown, 2));
    assert_eq!(app.scroll, 4);
    assert!(app.handle_key(0, Key::PageUp, 3));
    assert_eq!(app.scroll, 1);
    assert!(app.handle_key(0, Key::Home, 3));
    assert_eq!(app.scroll, 0);
    // quitting
    assert!(!app.handle_key(0, Key::Char('q'), 3));
    assert!(!app.handle_key(2, Key::Char('c'), 3));
    assert!(app.handle_key(4, Key::Char('x'), 3));
}

#[test]
fn key_decisions() {
    assert_eq!(decide_key(0, Key::Char('q'), false, 5), KeyAction::TypeChar('q'));
    assert_eq!(decide_key(0, Key::Char('q'), true, 5), KeyAction::Quit);
    assert_eq!(decide_key(0, Key::Esc, false, 5), KeyAction::ClearSearch);
    assert_eq!(decide_key(2, Key::Esc, true, 5), KeyAction::Nothing);
    assert_eq!(decide_key(0, Key::PageUp, true, 5), KeyAction::ScrollUp(5));
    assert_eq!(decide_key(3, Key::Char('c'), true, 5), KeyAction::Nothing);
}

#[test]
fn refresh_scrolls_two_lines_above_first_match() {
    let t = dir("r", vec![file("a"), file("b"), file("c"), file("d"), file("target")]);
    let app = App::new(t, "targ".to_string());
    assert_eq!(app.lines.len(), 2);
    assert_eq!(app.scroll, 0);
    let t = dir("r", vec![dir("a", vec![dir("b", vec![dir("c", vec![file("target")])])])]);
    let app = App::new(t, "targ".to_string());
    assert_eq!(app.lines.len(), 5);
    assert_eq!(app.scroll, 2);
}

#[test]
fn escaped_names_stay_inside_their_quotes() {
    let x = xml_escape("a<b>\"c\"&d");
    assert!(!x.contains('<') && !x.contains('>') && !x.contains('"'));
    assert_eq!(x, "a&lt;b&gt;&quot;c&quot;&amp;d");
    let j = json_escape("\\\"x\\");
    assert_eq!(j, "\\\\\\\"x\\\\");
    // Every backslash opens a unit of two characters; no bare quote.
    let cs: Vec<char> = j.chars().collect();
    let mut i = 0;
    while i < cs.len() {
        assert_ne!(cs[i], '"');
        if cs[i] == '\\' {
            assert!(cs[i + 1] == '\\' || cs[i + 1] == '"');
            i += 2;
        } else {
            i += 1;
        }
    }
}

#[test]
fn highlighted_names_match_the_search() {
    let cases = [("Cargo.toml", "TOML"), ("main.rs", "n.r"), ("ÜBER", "über"), ("lib.rs", "x"), ("a", "")];
    for (name, search) in cases {
        if find_match_range(name, search).is_some() {
            assert!(file(name).name_matches(search));
        }
    }
    assert!(find_match_range("Cargo.toml", "TOML").is_some());
    assert!(find_match_range("ÜBER", "über").is_some());
}

#[test]
fn keys_change_the_view_state() {
    let mut app = App::new(sample(), String::new());
    // Typing rebuilds the lines under the new search.
    assert!(app.handle_key(0, Key::Char('r'), 10));
    assert_eq!(app.search, "r");
    let names: Vec<String> = app.lines.iter().map(|l| l.name.clone()).collect();
    assert_eq!(names, vec!["root", "src", "main.rs", "lib.rs", "Cargo.toml"]);
    // Scroll keys leave search and lines alone.
    let before = names.clone();
    assert!(app.handle_key(0, Key::Down, 1));
    assert_eq!(app.search, "r");
    assert_eq!(app.scroll, 1);
    assert_eq!(app.lines.iter().map(|l| l.name.clone()).collect::<Vec<_>>(), before);
    // Backspace empties the search, shows every line and goes to the top.
    assert!(app.handle_key(0, Key::Backspace, 1));
    assert_eq!(app.search, "");
    assert_eq!(app.scroll, 0);
    assert_eq!(app.lines.len(), 6);
    // Unbound keys change nothing.
    assert!(app.handle_key(0, Key::Other, 1));
    assert_eq!((app.search.as_str(), app.scroll, app.lines.len()), ("", 0, 6));
    assert!(app.handle_key(4, Key::Char('z'), 1));
    assert_eq!(app.search, "");
    // Up at the top stays at the top.
    assert!(app.handle_key(0, Key::Up, 1));
    assert_eq!(app.scroll, 0);
    // Esc with a search clears it and the view keeps running.
    assert!(app.handle_key(1, Key::Char('M'), 1));
    assert_eq!(app.search, "M");
    assert!(app.handle_key(0, Key::Esc, 1));
    assert_eq!((app.search.as_str(), app.scroll, app.lines.len()), ("", 0, 6));
    assert_eq!(app.total_files, 3);
}

#[test]
fn visible_window_and_name_pieces() {
    let mut app = App::new(sample(), String::new());
    assert_eq!(app.window(4), (0, 4));
    assert_eq!(app.window(100), (0, 6));
    app.scroll = 5;
    assert_eq!(app.window(4), (5, 6));
    app.scroll = 9;
    assert_eq!(app.window(4), (6, 6));
    assert_eq!(name_segments(5, None), vec![(0, 5, false)]);
    assert_eq!(name_segments(5, Some((2, 4))), vec![(0, 2, false), (2, 4, true), (4, 5, false)]);
    assert_eq!(name_segments(5, Some((0, 5))), vec![(0, 5, true)]);
}
