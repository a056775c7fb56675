use file_sorter::analyze::{analyze, filter_sum, FileType};
use file_sorter::classify::{admits, get_extension_str};
use file_sorter::rename::{is_template_safe, rename_plan, RenameError};
use file_sorter::report::report;
use file_sorter::tree::{descends, ls_recursive, Node, PathInfo};

fn file(path: &str) -> Node {
    Node { path: path.to_string(), is_dir: false, children: Vec::new() }
}

fn dir(path: &str, children: Vec<Node>) -> Node {
    Node { path: path.to_string(), is_dir: true, children }
}

fn strings(v: &[&str]) -> Vec<String> {
    v.iter().map(|s| s.to_string()).collect()
}

fn sample_tree() -> Vec<Node> {
    vec![
        file("top/a.txt"),
        dir(
            "top/sub",
            vec![file("top/sub/b.jpg"), dir("top/sub/deep", vec![file("top/sub/deep/c.png")])],
        ),
        file("top/z"),
    ]
}

fn paths(infos: &[PathInfo]) -> Vec<String> {
    infos.iter().map(|p| p.path.clone()).collect()
}

fn infos_of(list: &[(&str, bool)]) -> Vec<PathInfo> {
    list.iter().map(|(p, d)| PathInfo { path: p.to_string(), is_dir: *d }).collect()
}

#[test]
fn extension_is_lower_cased() {
    assert_eq!(get_extension_str("A.JPG"), "jpg");
    assert_eq!(get_extension_str("dir/photo.Png"), "png");
    assert_eq!(get_extension_str("archive.tar.GZ"), "gz");
}

#[test]
fn extension_absent_is_empty() {
    assert_eq!(get_extension_str("noext"), "");
    assert_eq!(get_extension_str(".hidden"), "");
    assert_eq!(get_extension_str("some.dir/noext"), "");
    assert_eq!(get_extension_str("up/.."), "");
    assert_eq!(get_extension_str("trailing."), "");
}

#[test]
fn extension_of_hidden_file_with_suffix() {
    assert_eq!(get_extension_str("cfg/.bashrc.BAK"), "bak");
}

#[test]
fn extension_of_lower_case_result_is_stable() {
    let once = get_extension_str("A.JPG");
    let again = get_extension_str(&format!("x.{}", once));
    assert_eq!(once, again);
}

#[test]
fn blacklist_filter() {
    let black = strings(&["png"]);
    let white = strings(&[]);
    assert!(!admits(&"png".to_string(), &black, &white));
    assert!(admits(&"jpg".to_string(), &black, &white));
}

#[test]
fn whitelist_overrides_blacklist() {
    let black = strings(&["jpg"]);
    let white = strings(&["jpg"]);
    assert!(!admits(&"png".to_string(), &black, &white));
    assert!(admits(&"jpg".to_string(), &black, &white));
}

#[test]
fn depth_zero_lists_children_only() {
    let listing = ls_recursive(&sample_tree(), 0);
    assert_eq!(paths(&listing), strings(&["top/a.txt", "top/sub", "top/z"]));
    assert!(listing[1].is_dir);
    assert!(!listing[0].is_dir);
}

#[test]
fn depth_one_descends_once() {
    let listing = ls_recursive(&sample_tree(), 1);
    assert_eq!(
        paths(&listing),
        strings(&["top/a.txt", "top/sub", "top/sub/b.jpg", "top/sub/deep", "top/z"])
    );
}

#[test]
fn deeper_listing_keeps_shallower_order() {
    let shallow = paths(&ls_recursive(&sample_tree(), 1));
    let deep = paths(&ls_recursive(&sample_tree(), 2));
    assert_eq!(
        deep,
        strings(&["top/a.txt", "top/sub", "top/sub/b.jpg", "top/sub/deep", "top/sub/deep/c.png", "top/z"])
    );
    let mut at = 0;
    for p in &shallow {
        while deep[at] != *p {
            at += 1;
        }
        at += 1;
    }
}

#[test]
fn descends_only_into_directories_with_depth_left() {
    assert!(descends(true, 1));
    assert!(!descends(true, 0));
    assert!(!descends(false, 3));
}

#[test]
fn filter_sum_adds_matching_counts() {
    let types = vec![
        FileType { extension: "jpg".to_string(), count: 3 },
        FileType { extension: "png".to_string(), count: 2 },
        FileType { extension: "gif".to_string(), count: 7 },
    ];
    assert_eq!(filter_sum(&types, &strings(&["png", "gif"])), 9);
    assert_eq!(filter_sum(&types, &strings(&["bmp"])), 0);
    assert_eq!(filter_sum(&types, &strings(&[])), 0);
}

#[test]
fn analyze_three_jpg_two_png() {
    let infos = infos_of(&[
        ("d/a.jpg", false),
        ("d/b.png", false),
        ("d/c.JPG", false),
        ("d/sub", true),
        ("d/d.png", false),
        ("d/e.jpg", false),
        ("d/readme", false),
    ]);
    let a = analyze(&infos, &strings(&["png"]), &strings(&[]));
    assert_eq!(a.file_count, 5);
    assert_eq!(a.matched, 2);
    assert!(!a.whitelisted);
    assert_eq!(
        report(&a),
        strings(&[
            "Detected 5 file(s), 2 in blacklist",
            "File type(s):",
            "\t3 'jpg' file(s)",
            "\t2 'png' file(s)",
        ])
    );
}

#[test]
fn analyze_with_whitelist() {
    let infos = infos_of(&[("a.jpg", false), ("b.png", false), ("c.gif", false)]);
    let a = analyze(&infos, &strings(&["png"]), &strings(&["jpg", "gif"]));
    assert_eq!(report(&a)[0], "Detected 3 file(s), 2 in whitelist");
}

#[test]
fn analyze_empty_directory() {
    let a = analyze(&Vec::new(), &strings(&[]), &strings(&[]));
    assert_eq!(a.file_count, 0);
    assert_eq!(report(&a), strings(&["Detected 0 file(s), 0 in blacklist"]));
}

#[test]
fn analyze_skips_directories_and_extensionless() {
    let infos = infos_of(&[("x.d", true), ("noext", false), ("f.TXT", false)]);
    let a = analyze(&infos, &strings(&[]), &strings(&[]));
    assert_eq!(a.file_count, 1);
    assert_eq!(
        report(&a),
        strings(&["Detected 1 file(s), 0 in blacklist", "File type(s):", "\t1 'txt' file(s)"])
    );
}

#[test]
fn analyze_large_counts_in_decimal() {
    let infos: Vec<PathInfo> =
        (0..120).map(|i| PathInfo { path: format!("f{}.log", i), is_dir: false }).collect();
    let a = analyze(&infos, &strings(&["log"]), &strings(&[]));
    assert_eq!(
        report(&a),
        strings(&["Detected 120 file(s), 120 in blacklist", "File type(s):", "\t120 'log' file(s)"])
    );
}

#[test]
fn rename_numbers_from_start() {
    let infos = infos_of(&[("in/a.jpg", false), ("in/b.JPG", false)]);
    let plan = rename_plan(&infos, &strings(&[]), &strings(&[]), 5, "img_{number}.jpg").unwrap();
    let names: Vec<(String, String)> = plan.iter().map(|s| (s.source.clone(), s.target.clone())).collect();
    assert_eq!(
        names,
        vec![
            ("in/a.jpg".to_string(), "img_5.jpg".to_string()),
            ("in/b.JPG".to_string(), "img_6.jpg".to_string()),
        ]
    );
}

#[test]
fn rename_skipped_files_consume_no_number() {
    let infos = infos_of(&[
        ("in/noext", false),
        ("in/a.png", false),
        ("in/sub", true),
        ("in/b.jpg", false),
        ("in/c.png", false),
        ("in/d.gif", false),
    ]);
    let plan = rename_plan(&infos, &strings(&["png"]), &strings(&[]), 1, "{number}.out").unwrap();
    let names: Vec<(String, String)> = plan.iter().map(|s| (s.source.clone(), s.target.clone())).collect();
    assert_eq!(
        names,
        vec![
            ("in/b.jpg".to_string(), "1.out".to_string()),
            ("in/d.gif".to_string(), "2.out".to_string()),
        ]
    );
}

#[test]
fn rename_with_whitelist() {
    let infos = infos_of(&[("a.png", false), ("b.jpg", false), ("c.png", false)]);
    let plan = rename_plan(&infos, &strings(&["png"]), &strings(&["png"]), 10, "p{number}").unwrap();
    let targets: Vec<String> = plan.iter().map(|s| s.target.clone()).collect();
    assert_eq!(targets, strings(&["p10", "p11"]));
}

#[test]
fn rename_rejects_malformed_template() {
    let r = rename_plan(&Vec::new(), &strings(&[]), &strings(&[]), 1, "{{ foobar }}");
    assert_eq!(r.err(), Some(RenameError::InvalidTemplate));
}

#[test]
fn rename_reports_render_failure() {
    let infos = infos_of(&[("a.jpg", false)]);
    let r = rename_plan(&infos, &strings(&[]), &strings(&[]), 1, "{missing}.jpg");
    assert_eq!(r.err(), Some(RenameError::RenderFailed));
}

#[test]
fn rename_nothing_to_copy() {
    let infos = infos_of(&[("noext", false), ("dir", true)]);
    let plan = rename_plan(&infos, &strings(&[]), &strings(&[]), 1, "{number}").unwrap();
    assert!(plan.is_empty());
}

#[test]
fn extension_ignores_trailing_separators() {
    assert_eq!(get_extension_str("a.txt/"), "txt");
    assert_eq!(get_extension_str("a.txt/."), "txt");
    assert_eq!(get_extension_str("d/a.TXT//./"), "txt");
    assert_eq!(get_extension_str("dir/./"), "");
    assert_eq!(get_extension_str("/"), "");
    assert_eq!(get_extension_str("."), "");
    assert_eq!(get_extension_str("a/.."), "");
}

#[test]
fn filter_sum_needs_only_matched_sum_to_fit() {
    let types = vec![
        FileType { extension: "a".to_string(), count: usize::MAX },
        FileType { extension: "b".to_string(), count: 1 },
    ];
    assert_eq!(filter_sum(&types, &strings(&["b"])), 1);
}

#[test]
fn template_safety_check() {
    assert!(is_template_safe("img_{number}.jpg"));
    assert!(is_template_safe("note_{number}"));
    assert!(is_template_safe("{{ if number }}x{{ endif }}"));
    assert!(!is_template_safe("img\\"));
    assert!(!is_template_safe("{#}"));
    assert!(!is_template_safe("{{ if not }}"));
}

#[test]
fn rename_rejects_templates_the_compiler_cannot_take() {
    let infos = infos_of(&[("a.jpg", false)]);
    for t in ["img\\", "{#}", "{{ if not }}", "a{#}b{number}"] {
        let r = rename_plan(&infos, &strings(&[]), &strings(&[]), 1, t);
        assert_eq!(r.err(), Some(RenameError::InvalidTemplate));
    }
}

#[test]
fn rename_numbers_up_to_the_largest() {
    let infos = infos_of(&[("skip", false), ("d", true), ("a.jpg", false), ("b.png", false)]);
    let plan = rename_plan(&infos, &strings(&["png"]), &strings(&[]), usize::MAX, "{number}").unwrap();
    assert_eq!(plan.len(), 1);
    assert_eq!(plan[0].target, usize::MAX.to_string());
}

#[test]
fn rename_number_overflow() {
    let infos = infos_of(&[("a.jpg", false), ("b.jpg", false)]);
    let r = rename_plan(&infos, &strings(&[]), &strings(&[]), usize::MAX, "{number}");
    assert_eq!(r.err(), Some(RenameError::NumberOverflow));
}

#[test]
fn rename_unrenderable_template_without_files() {
    let infos = infos_of(&[("noext", false)]);
    let plan = rename_plan(&infos, &strings(&[]), &strings(&[]), 1, "{missing}").unwrap();
    assert!(plan.is_empty());
}

#[test]
fn template_with_block_and_not_in_text_is_accepted() {
    assert!(is_template_safe("{{ if number }}note_{number}{{ endif }}"));
    assert!(is_template_safe("{{ if not number }}none{{ else }}another_{number}{{ endif }}"));
    let infos = infos_of(&[("a.jpg", false), ("b.jpg", false)]);
    let plan =
        rename_plan(&infos, &strings(&[]), &strings(&[]), 3, "{{ if number }}note_{number}.jpg{{ endif }}").unwrap();
    let targets: Vec<String> = plan.iter().map(|s| s.target.clone()).collect();
    assert_eq!(targets, strings(&["note_3.jpg", "note_4.jpg"]));
}

#[test]
fn template_bare_negation_is_refused() {
    assert!(!is_template_safe("{{ if not}}x{{ endif }}"));
    assert!(!is_template_safe("{{ if not -}}x{{ endif }}"));
    assert!(!is_template_safe("{{ if not \u{3000} - }}x{{ endif }}"));
    assert!(!is_template_safe("{{ if not\u{e9} }}x{{ endif }}"));
    assert!(is_template_safe("{{ if not - - }}x{{ endif }}"));
}
