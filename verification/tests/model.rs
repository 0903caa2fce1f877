use ram_utils::case::LetterCase;
use ram_utils::case::convert_name;
use ram_utils::convert::convert_tree;
use ram_utils::plan::RenameOp;
use ram_utils::plan::plan_children;
use ram_utils::plan::plan_convert;
use ram_utils::tally::ExtCount;
use ram_utils::tally::extension_of;
use ram_utils::tally::tally_extensions;
use ram_utils::tree::Node;

fn file(name: &str) -> Node {
    Node::File { name: name.to_string() }
}

fn dir(name: &str, entries: Vec<Node>) -> Node {
    Node::Dir { name: name.to_string(), entries }
}

fn op(path: &[&str], target: &str) -> RenameOp {
    RenameOp {
        path: path.iter().map(|p| p.to_string()).collect(),
        target: target.to_string(),
    }
}

fn sorted_rows(rows: Vec<ExtCount>) -> Vec<(String, u64)> {
    let mut v: Vec<(String, u64)> = rows.into_iter().map(|r| (r.ext, r.count)).collect();
    v.sort();
    v
}

#[test]
fn test_convert_file() {
    // -- Test to upper case
    let up = convert_name("test.file", &LetterCase::UpperCase);
    assert_eq!(up, "TEST.FILE");

    // -- Test to lower case
    let down = convert_name("TEST.FILE", &LetterCase::LowerCase);
    assert_eq!(down, "test.file");
}

#[test]
fn test_convert_children() {
    let root = dir(
        "ram-utils-convert-test-convert-children",
        vec![
            dir("one", vec![]),
            file("one.file"),
            dir("two", vec![]),
            file("two.file"),
            dir("three", vec![]),
            file("three.file"),
        ],
    );

    // -- Test to upper case
    let up = convert_tree(&root, &LetterCase::UpperCase, false, false);
    let expected_up = dir(
        "RAM-UTILS-CONVERT-TEST-CONVERT-CHILDREN",
        vec![
            dir("ONE", vec![]),
            file("ONE.FILE"),
            dir("TWO", vec![]),
            file("TWO.FILE"),
            dir("THREE", vec![]),
            file("THREE.FILE"),
        ],
    );
    assert_eq!(up, expected_up);

    // -- Test to lower case
    let down = convert_tree(&up, &LetterCase::LowerCase, false, false);
    let expected_down = dir(
        "ram-utils-convert-test-convert-children",
        vec![
            dir("one", vec![]),
            file("one.file"),
            dir("two", vec![]),
            file("two.file"),
            dir("three", vec![]),
            file("three.file"),
        ],
    );
    assert_eq!(down, expected_down);
}

#[test]
fn test_convert_children_ignores() {
    let entries = vec![dir("test", vec![]), file("test.file")];
    let root = dir("ram-utils-convert-test-ignores", entries);

    // -- Test ignore file
    let kept_files = convert_tree(&root, &LetterCase::UpperCase, true, false);
    match &kept_files {
        Node::Dir { entries, .. } => {
            assert_eq!(entries[0], dir("TEST", vec![]));
            assert_eq!(entries[1], file("test.file"));
        }
        _ => panic!("expected a directory"),
    }

    // -- Test ignore directory
    let kept_dirs = convert_tree(&root, &LetterCase::UpperCase, false, true);
    match &kept_dirs {
        Node::Dir { entries, .. } => {
            assert_eq!(entries[0], dir("test", vec![]));
            assert_eq!(entries[1], file("TEST.FILE"));
        }
        _ => panic!("expected a directory"),
    }
}

#[test]
fn test_convert_dir_recursive() {
    let root = dir(
        "ram-utils-convert-test-recursive",
        vec![dir("test", vec![dir("bar", vec![file("baz.file")])])],
    );

    let up = convert_tree(&root, &LetterCase::UpperCase, false, false);
    let expected = dir(
        "RAM-UTILS-CONVERT-TEST-RECURSIVE",
        vec![dir("TEST", vec![dir("BAR", vec![file("BAZ.FILE")])])],
    );
    assert_eq!(up, expected);
}

#[test]
fn test_find_extensions() {
    let root = dir(
        "ram-utils-test-find-extensions",
        vec![file("testfile.foo"), file("testfile.bar"), file("testfile.baz123")],
    );

    let rows = tally_extensions(&root);
    let extensions = ["foo", "bar", "baz123"];
    assert_eq!(rows.len(), 3);
    for row in &rows {
        assert!(extensions.contains(&row.ext.as_str()));
        assert_eq!(row.count, 1);
    }
}

#[test]
fn unique_ext_reports_sorted_counts() {
    // A tally over three files with distinct extensions, reported in
    // lexicographic order as the command layer prints it.
    let root = dir(
        "scan",
        vec![file("testfile.foo"), file("testfile.bar"), file("testfile.baz123")],
    );
    let rows = sorted_rows(tally_extensions(&root));
    assert_eq!(
        rows,
        vec![
            ("bar".to_string(), 1),
            ("baz123".to_string(), 1),
            ("foo".to_string(), 1),
        ]
    );
    let printed: Vec<String> =
        rows.iter().map(|(e, n)| format!("{} ({} files)", e, n)).collect();
    assert_eq!(printed, vec!["bar (1 files)", "baz123 (1 files)", "foo (1 files)"]);
}

#[test]
fn tally_merges_nested_directories_and_skips_extensionless() {
    let root = dir(
        "top",
        vec![
            file("a.txt"),
            file("README"),
            dir("sub", vec![file("b.txt"), file("c.rs"), dir("deeper", vec![file("d.txt")])]),
        ],
    );
    let rows = sorted_rows(tally_extensions(&root));
    assert_eq!(rows, vec![("rs".to_string(), 1), ("txt".to_string(), 3)]);
}

#[test]
fn tally_is_order_insensitive() {
    let one = dir("root", vec![file("a.x"), dir("d", vec![file("b.y")]), file("c.x")]);
    let two = dir("root", vec![file("c.x"), file("a.x"), dir("d", vec![file("b.y")])]);
    assert_eq!(sorted_rows(tally_extensions(&one)), sorted_rows(tally_extensions(&two)));
}

#[test]
fn extension_rules_match_final_component_parsing() {
    assert_eq!(extension_of("archive.tar.gz"), Some("gz".to_string()));
    assert_eq!(extension_of("plain"), None);
    assert_eq!(extension_of(".gitignore"), None);
    assert_eq!(extension_of("trailing."), Some("".to_string()));
    assert_eq!(extension_of(".a.b"), Some("b".to_string()));
    assert_eq!(extension_of(""), None);
}

#[test]
fn case_round_trip_on_ascii_names() {
    let mixed = "MiXeD.Ext";
    let up = convert_name(mixed, &LetterCase::UpperCase);
    let down = convert_name(&up, &LetterCase::LowerCase);
    assert_eq!(down, convert_name(mixed, &LetterCase::LowerCase));
    assert_eq!(down, "mixed.ext");

    // Converting a name already in the target case is a no-op rename.
    let again = convert_name(&up, &LetterCase::UpperCase);
    assert_eq!(again, up);
}

#[test]
fn unicode_names_are_fully_folded() {
    assert_eq!(convert_name("grüße.zip", &LetterCase::UpperCase), "GRÜSSE.ZIP");
    assert_eq!(convert_name("ΑΘΉΝΑ.TXT", &LetterCase::LowerCase), "αθήνα.txt");
}

#[test]
fn plan_renames_children_before_ancestors() {
    // root/test/bar/baz.file: the deepest entry is renamed first, the root
    // last, so every operation still addresses an unrenamed path.
    let root = dir(
        "root",
        vec![dir("test", vec![dir("bar", vec![file("baz.file")])])],
    );
    let ops = plan_convert(&root, &LetterCase::UpperCase, true, false, false);
    assert_eq!(
        ops,
        vec![
            op(&["root", "test", "bar", "baz.file"], "BAZ.FILE"),
            op(&["root", "test", "bar"], "BAR"),
            op(&["root", "test"], "TEST"),
            op(&["root"], "ROOT"),
        ]
    );
}

#[test]
fn plan_converts_each_directory_and_file() {
    let entries = vec![
        dir("one", vec![file("one.file")]),
        dir("two", vec![file("two.file")]),
        dir("three", vec![file("three.file")]),
    ];
    let ops = plan_children(&entries, &LetterCase::UpperCase, false, false);
    assert_eq!(
        ops,
        vec![
            op(&["one", "one.file"], "ONE.FILE"),
            op(&["one"], "ONE"),
            op(&["two", "two.file"], "TWO.FILE"),
            op(&["two"], "TWO"),
            op(&["three", "three.file"], "THREE.FILE"),
            op(&["three"], "THREE"),
        ]
    );

    // The resulting tree carries the converted names, extension included.
    let root = dir("top", entries);
    let converted = convert_tree(&root, &LetterCase::UpperCase, false, false);
    let expected = dir(
        "TOP",
        vec![
            dir("ONE", vec![file("ONE.FILE")]),
            dir("TWO", vec![file("TWO.FILE")]),
            dir("THREE", vec![file("THREE.FILE")]),
        ],
    );
    assert_eq!(converted, expected);
}

#[test]
fn plan_respects_ignore_flags_at_every_depth() {
    let entries = vec![dir("sub", vec![file("deep.file")]), file("plain.file")];

    let no_files = plan_children(&entries, &LetterCase::UpperCase, true, false);
    assert_eq!(no_files, vec![op(&["sub"], "SUB")]);

    let no_dirs = plan_children(&entries, &LetterCase::UpperCase, false, true);
    assert_eq!(
        no_dirs,
        vec![op(&["sub", "deep.file"], "DEEP.FILE"), op(&["plain.file"], "PLAIN.FILE")]
    );
}

#[test]
fn root_rename_is_unconditional_and_empty_name_is_noop() {
    // The root itself is renamed even when directories are ignored; the
    // walk still descends and renames the file inside.
    let root = dir("mixed", vec![file("a.b")]);
    let ops = plan_convert(&root, &LetterCase::UpperCase, true, false, true);
    assert_eq!(ops, vec![op(&["mixed", "a.b"], "A.B"), op(&["mixed"], "MIXED")]);

    // Without the recursive flag only the root is renamed.
    let shallow = plan_convert(&root, &LetterCase::UpperCase, false, false, false);
    assert_eq!(shallow, vec![op(&["mixed"], "MIXED")]);

    // An empty final component (a filesystem root) is left alone.
    let unnamed = plan_convert(&file(""), &LetterCase::UpperCase, false, false, false);
    assert_eq!(unnamed, Vec::<RenameOp>::new());
}
