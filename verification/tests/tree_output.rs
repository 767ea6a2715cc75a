use tree_rs::prefix::{set_line_prefix, update_levels};
use tree_rs::printer::{dec_string, is_executable, iterate_folders, render_output, Style};
use tree_rs::tree::{Config, DirEntrySummary, EntryKind, Node};

fn dir(name: &str, children: Vec<Node>) -> Node {
    Node {
        name: name.to_string(),
        kind: EntryKind::Directory,
        mode: 0o755,
        link_target: None,
        target_is_dir: false,
        children,
    }
}

fn file(name: &str) -> Node {
    Node {
        name: name.to_string(),
        kind: EntryKind::Regular,
        mode: 0o644,
        link_target: None,
        target_is_dir: false,
        children: Vec::new(),
    }
}

fn plain_config() -> Config {
    Config {
        use_color: false,
        show_hidden: false,
        max_level: usize::MAX,
        include_pattern: None,
    }
}

/// The `simple` sample tree: `simple/yyy/{k/, s/{a,t}, test.txt, zz/a/b/c}`.
fn simple_tree() -> Node {
    dir(
        "simple",
        vec![dir(
            "yyy",
            vec![
                dir("k", vec![]),
                dir("s", vec![file("a"), file("t")]),
                file("test.txt"),
                dir("zz", vec![dir("a", vec![dir("b", vec![file("c")])])]),
            ],
        )],
    )
}

#[test]
fn test_normal() {
    let expected = "simple\n\
                    └── yyy\n\
                    \u{20}\u{20}\u{20}\u{20}├── k\n\
                    \u{20}\u{20}\u{20}\u{20}├── s\n\
                    \u{20}\u{20}\u{20}\u{20}│\u{a0}\u{a0} ├── a\n\
                    \u{20}\u{20}\u{20}\u{20}│\u{a0}\u{a0} └── t\n\
                    \u{20}\u{20}\u{20}\u{20}├── test.txt\n\
                    \u{20}\u{20}\u{20}\u{20}└── zz\n\
                    \u{20}\u{20}\u{20}\u{20}\u{20}\u{20}\u{20}\u{20}└── a\n\
                    \u{20}\u{20}\u{20}\u{20}\u{20}\u{20}\u{20}\u{20}\u{20}\u{20}\u{20}\u{20}└── b\n\
                    \u{20}\u{20}\u{20}\u{20}\u{20}\u{20}\u{20}\u{20}\u{20}\u{20}\u{20}\u{20}\u{20}\u{20}\u{20}\u{20}└── c\n\
                    \n\
                    6 directories, 4 files\n";
    let output = render_output(&simple_tree(), &plain_config());
    assert_eq!(expected, output.as_str());
}

#[test]
fn test_max_depth() {
    let expected = "simple\n\
                    └── yyy\n\
                    \u{20}\u{20}\u{20}\u{20}├── k\n\
                    \u{20}\u{20}\u{20}\u{20}├── s\n\
                    \u{20}\u{20}\u{20}\u{20}├── test.txt\n\
                    \u{20}\u{20}\u{20}\u{20}└── zz\n\
                    \n\
                    4 directories, 1 files\n";
    let mut cfg = plain_config();
    cfg.max_level = 2;
    let output = render_output(&simple_tree(), &cfg);
    assert_eq!(expected, output.as_str());
}

#[test]
fn test_filter_txt_files() {
    let expected = "simple\n\
                    └── yyy\n\
                    \u{20}\u{20}\u{20}\u{20}├── test.txt\n\
                    \n\
                    1 directories, 1 files\n";
    let cfg = Config::from_flags(false, false, true, usize::MAX, Some("*.txt".to_string()))
        .expect("pattern must be accepted");
    assert!(!cfg.use_color);
    let output = render_output(&simple_tree(), &cfg);
    assert_eq!(expected, output.as_str());
}

#[test]
fn test_empty_root() {
    let output = render_output(&dir("empty", vec![]), &plain_config());
    assert_eq!("empty\n\n0 directories, 0 files\n", output.as_str());
}

#[test]
fn test_max_depth_zero() {
    let mut cfg = plain_config();
    cfg.max_level = 0;
    let output = render_output(&simple_tree(), &cfg);
    assert_eq!("simple\n\n0 directories, 0 files\n", output.as_str());
}

#[test]
fn test_root_is_file() {
    let output = render_output(&file("lonely"), &plain_config());
    assert_eq!("lonely\n\n0 directories, 1 files\n", output.as_str());
}

#[test]
fn test_hidden_entries_skipped() {
    let root = dir("top", vec![file(".hid"), dir(".secrets", vec![file("x")]), file("vis")]);
    let output = render_output(&root, &plain_config());
    assert_eq!("top\n└── vis\n\n0 directories, 1 files\n", output.as_str());
}

#[test]
fn test_hidden_entries_shown_with_flag() {
    let root = dir("top", vec![file(".hid"), file("vis")]);
    let mut cfg = plain_config();
    cfg.show_hidden = true;
    let output = render_output(&root, &cfg);
    assert_eq!("top\n├── .hid\n└── vis\n\n0 directories, 2 files\n", output.as_str());
}

#[test]
fn test_pattern_without_match_prunes_everything() {
    let cfg = Config::from_flags(false, false, true, usize::MAX, Some("*.xyz".to_string()))
        .expect("pattern must be accepted");
    let output = render_output(&simple_tree(), &cfg);
    assert_eq!("simple\n\n0 directories, 0 files\n", output.as_str());
}

#[test]
fn test_pattern_beyond_depth_limit_is_not_searched() {
    // test.txt sits at level 2; with the walk capped at level 1 the only
    // candidate parent directory may not be descended into, so nothing shows.
    let cfg = Config::from_flags(false, false, true, 1, Some("*.txt".to_string()))
        .expect("pattern must be accepted");
    let output = render_output(&simple_tree(), &cfg);
    assert_eq!("simple\n\n0 directories, 0 files\n", output.as_str());
}

#[test]
fn test_invalid_pattern_is_rejected() {
    let r = Config::from_flags(false, false, true, usize::MAX, Some("a[".to_string()));
    match r {
        Err(m) => assert!(m.starts_with("`include_pattern` is not valid: ")),
        Ok(_) => panic!("an unclosed character class must be refused"),
    }
}

#[test]
fn test_color_flag_logic() {
    let on = Config::from_flags(false, true, true, 3, None).unwrap();
    assert!(on.use_color);
    assert!(!on.show_hidden);
    assert_eq!(on.max_level, 3);
    let off = Config::from_flags(true, false, true, 7, None).unwrap();
    assert!(!off.use_color);
    assert!(off.show_hidden);
    let default_on = Config::from_flags(false, false, false, 1, None).unwrap();
    assert!(default_on.use_color);
}

#[test]
fn test_styles_and_lines() {
    let mut link = file("ln");
    link.kind = EntryKind::Symlink;
    link.link_target = Some("elsewhere".to_string());
    link.target_is_dir = true;
    let mut exe = file("run.sh");
    exe.mode = 0o755;
    let mut bad = file("broken");
    bad.kind = EntryKind::Unreadable;
    let root = dir("top", vec![bad, dir("d", vec![]), exe, link]);
    let (lines, summary) = iterate_folders(&root, &plain_config());
    assert_eq!(lines.len(), 5);
    assert_eq!(lines[0].style, Style::Dir);
    assert_eq!(lines[1].name.as_str(), "broken");
    assert!(lines[1].error);
    assert_eq!(lines[1].style, Style::Plain);
    assert_eq!(lines[2].style, Style::Dir);
    assert_eq!(lines[3].style, Style::Exec);
    assert_eq!(lines[4].style, Style::Link);
    assert_eq!(lines[4].link_target.as_deref(), Some("elsewhere"));
    assert!(lines[4].target_is_dir);
    assert_eq!(summary.num_folders, 1);
    assert_eq!(summary.num_files, 3);
}

#[test]
fn test_unreadable_marker_in_text() {
    let mut bad = file("locked");
    bad.kind = EntryKind::Unreadable;
    let root = dir("top", vec![bad]);
    let output = render_output(&root, &plain_config());
    assert_eq!("top\n└── locked [Error]\n\n0 directories, 1 files\n", output.as_str());
}

#[test]
fn test_symlink_arrow_in_text() {
    let mut link = file("ln");
    link.kind = EntryKind::Symlink;
    link.link_target = Some("over/there".to_string());
    let root = dir("top", vec![link]);
    let output = render_output(&root, &plain_config());
    assert_eq!("top\n└── ln -> over/there\n\n0 directories, 1 files\n", output.as_str());
}

#[test]
fn test_counts_match_line_total() {
    let (lines, summary) = iterate_folders(&simple_tree(), &plain_config());
    assert_eq!(summary.num_folders + summary.num_files + 1, lines.len());
}

#[test]
fn test_two_runs_identical() {
    let root = simple_tree();
    let cfg = plain_config();
    let first = render_output(&root, &cfg);
    let second = render_output(&root, &cfg);
    assert_eq!(first, second);
}

#[test]
fn test_indentation_is_four_per_level() {
    let (lines, _) = iterate_folders(&simple_tree(), &plain_config());
    // "c" sits at level 5: 16 glyphs of padding plus a 4-glyph connector.
    let deepest = &lines[lines.len() - 1];
    assert_eq!(deepest.name.as_str(), "c");
    assert_eq!(deepest.prefix.chars().count(), 20);
    for line in &lines {
        assert_eq!(line.prefix.chars().count() % 4, 0);
    }
}

#[test]
fn test_set_line_prefix_glyphs() {
    let mut prefix = String::new();
    set_line_prefix(&vec![], &mut prefix);
    assert_eq!(prefix.as_str(), "");
    set_line_prefix(&vec![false], &mut prefix);
    assert_eq!(prefix.as_str(), "└── ");
    set_line_prefix(&vec![true], &mut prefix);
    assert_eq!(prefix.as_str(), "├── ");
    set_line_prefix(&vec![true, false, true], &mut prefix);
    assert_eq!(prefix.as_str(), "│\u{a0}\u{a0}     ├── ");
}

#[test]
fn test_update_levels_transitions() {
    let mut levels: Vec<bool> = Vec::new();
    update_levels(&mut levels, 0, true);
    assert!(levels.is_empty());
    update_levels(&mut levels, 1, false);
    assert_eq!(levels, vec![true]);
    update_levels(&mut levels, 2, true);
    assert_eq!(levels, vec![true, false]);
    update_levels(&mut levels, 1, true);
    assert_eq!(levels, vec![false]);
}

#[test]
fn test_dec_string_values() {
    assert_eq!(dec_string(0).as_str(), "0");
    assert_eq!(dec_string(7).as_str(), "7");
    assert_eq!(dec_string(10).as_str(), "10");
    assert_eq!(dec_string(409).as_str(), "409");
    assert_eq!(dec_string(1000).as_str(), "1000");
}

#[test]
fn test_is_executable_bit() {
    assert!(is_executable(0o755));
    assert!(is_executable(0o100));
    assert!(!is_executable(0o644));
    assert!(!is_executable(0));
}

#[test]
fn test_summary_new_is_zero() {
    let s = DirEntrySummary::new();
    assert_eq!(s.num_folders, 0);
    assert_eq!(s.num_files, 0);
}
