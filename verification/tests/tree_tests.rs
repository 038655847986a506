use rpmtools::print_package_file_tree;
use rpmtools::render::render_tree;
use rpmtools::tree::FileTreeNode;

fn path(components: &[&str]) -> Vec<String> {
    components.iter().map(|c| c.to_string()).collect()
}

fn paths(all: &[&[&str]]) -> Vec<Vec<String>> {
    all.iter().map(|p| path(p)).collect()
}

fn names(node: &FileTreeNode) -> Vec<String> {
    (0..node.child_count()).map(|i| node.child_name(i).to_string()).collect()
}

fn same_tree(a: &FileTreeNode, b: &FileTreeNode) -> bool {
    a.child_count() == b.child_count()
        && (0..a.child_count()).all(|i| {
            a.child_name(i) == b.child_name(i) && same_tree(a.child_at(i), b.child_at(i))
        })
}

#[test]
fn new_tree_has_no_children() {
    let tree = FileTreeNode::new();
    assert_eq!(tree.child_count(), 0);
    assert!(tree.child("usr").is_none());
    assert_eq!(FileTreeNode::default().child_count(), 0);
    assert_eq!(render_tree(&FileTreeNode::default()), vec![".".to_string()]);
}

#[test]
fn empty_collection_builds_empty_tree() {
    let tree = FileTreeNode::build(&Vec::new());
    assert_eq!(tree.child_count(), 0);
}

#[test]
fn empty_path_inserts_nothing() {
    let mut tree = FileTreeNode::new();
    tree.insert(&Vec::new());
    assert_eq!(tree.child_count(), 0);
    tree.insert(&path(&["etc"]));
    tree.insert(&Vec::new());
    assert_eq!(names(&tree), vec!["etc".to_string()]);
}

#[test]
fn siblings_are_kept_in_name_order() {
    let tree = FileTreeNode::build(&paths(&[&["b"], &["a"], &["c"]]));
    assert_eq!(names(&tree), vec!["a".to_string(), "b".to_string(), "c".to_string()]);
}

#[test]
fn siblings_render_in_name_order() {
    let tree = FileTreeNode::build(&paths(&[&["b"], &["a"], &["c"]]));
    let lines = render_tree(&tree);
    assert_eq!(
        lines,
        vec![".".to_string(), "├── a".to_string(), "├── b".to_string(), "└── c".to_string()]
    );
}

#[test]
fn name_order_is_the_order_of_bytes() {
    let tree = FileTreeNode::build(&paths(&[&["b"], &["B"], &["a1"], &["a"], &["é"], &["z"], &["_x"]]));
    assert_eq!(
        names(&tree),
        vec![
            "B".to_string(),
            "_x".to_string(),
            "a".to_string(),
            "a1".to_string(),
            "b".to_string(),
            "z".to_string(),
            "é".to_string()
        ]
    );
}

#[test]
fn shared_prefixes_collapse() {
    let tree = FileTreeNode::build(&paths(&[&["usr", "bin", "a"], &["usr", "bin", "b"]]));
    assert_eq!(names(&tree), vec!["usr".to_string()]);
    let usr = tree.child("usr").unwrap();
    assert_eq!(names(usr), vec!["bin".to_string()]);
    let bin = usr.child("bin").unwrap();
    assert_eq!(names(bin), vec!["a".to_string(), "b".to_string()]);
    assert_eq!(bin.child("a").unwrap().child_count(), 0);
    assert_eq!(bin.child("b").unwrap().child_count(), 0);
    assert!(bin.child("c").is_none());
}

#[test]
fn shared_prefixes_render_once() {
    let text = print_package_file_tree(&paths(&[&["usr", "bin", "a"], &["usr", "bin", "b"]]));
    assert_eq!(text, ".\n└── usr\n    └── bin\n        ├── a\n        └── b\n");
}

#[test]
fn inserting_twice_changes_nothing() {
    let once = paths(&[&["usr", "bin", "a"], &["etc", "conf"], &["usr", "lib"], &["usr"]]);
    let mut twice = once.clone();
    twice.extend(once.clone());
    let a = FileTreeNode::build(&once);
    let b = FileTreeNode::build(&twice);
    assert!(same_tree(&a, &b));
    assert_eq!(render_tree(&a), render_tree(&b));
    let mut c = FileTreeNode::build(&once);
    for p in &once {
        c.insert(p);
    }
    assert!(same_tree(&a, &c));
}

#[test]
fn same_path_twice_is_one_node() {
    let tree = FileTreeNode::build(&paths(&[&["a", "b"], &["a", "b"]]));
    assert_eq!(render_tree(&tree), vec![".".to_string(), "└── a".to_string(), "    └── b".to_string()]);
}

#[test]
fn order_of_insertion_does_not_matter() {
    let a = FileTreeNode::build(&paths(&[&["x", "2"], &["x", "1"], &["a"], &["m", "k"]]));
    let b = FileTreeNode::build(&paths(&[&["m", "k"], &["a"], &["x", "1"], &["x", "2"]]));
    assert!(same_tree(&a, &b));
}

#[test]
fn prefix_of_a_path_adds_no_node() {
    let tree = FileTreeNode::build(&paths(&[&["usr", "bin", "a"], &["usr", "bin"], &["usr"]]));
    assert_eq!(
        render_tree(&tree),
        vec![
            ".".to_string(),
            "└── usr".to_string(),
            "    └── bin".to_string(),
            "        └── a".to_string()
        ]
    );
}

#[test]
fn empty_input_renders_only_the_root() {
    let tree = FileTreeNode::build(&Vec::new());
    assert_eq!(render_tree(&tree), vec![".".to_string()]);
    assert_eq!(print_package_file_tree(&Vec::new()), ".\n");
}

#[test]
fn connectors_of_three_siblings() {
    let tree = FileTreeNode::build(&paths(&[&["one"], &["three"], &["two"]]));
    let lines = render_tree(&tree);
    assert_eq!(lines.len(), 4);
    assert_eq!(lines[1], "├── one");
    assert_eq!(lines[2], "├── three");
    assert_eq!(lines[3], "└── two");
}

#[test]
fn continuation_under_last_and_other_siblings() {
    let tree = FileTreeNode::build(&paths(&[
        &["a", "x"],
        &["a", "y", "deep"],
        &["b"],
        &["c", "z"],
    ]));
    assert_eq!(
        render_tree(&tree),
        vec![
            ".".to_string(),
            "├── a".to_string(),
            "│   ├── x".to_string(),
            "│   └── y".to_string(),
            "│       └── deep".to_string(),
            "├── b".to_string(),
            "└── c".to_string(),
            "    └── z".to_string(),
        ]
    );
}

#[test]
fn one_line_for_the_root_and_one_for_each_node() {
    let tree = FileTreeNode::build(&paths(&[&["a", "b", "c"], &["a", "d"], &["e"]]));
    assert_eq!(render_tree(&tree).len(), 1 + 5);
}

#[test]
fn tree_of_root_directory_paths() {
    let text = print_package_file_tree(&paths(&[
        &["/", "usr", "bin", "hello"],
        &["/", "etc", "hello.conf"],
        &["/", "usr", "share", "doc", "hello", "README"],
    ]));
    let expected = "\
.
└── /
    ├── etc
    │   └── hello.conf
    └── usr
        ├── bin
        │   └── hello
        └── share
            └── doc
                └── hello
                    └── README
";
    assert_eq!(text, expected);
}

#[derive(Default)]
struct MapNode {
    children: std::collections::BTreeMap<String, MapNode>,
}

fn map_lines(node: &MapNode, prefix: &str, lines: &mut Vec<String>) {
    let count = node.children.len();
    for (at, (name, child)) in node.children.iter().enumerate() {
        let last = at + 1 == count;
        lines.push(format!("{}{}{}", prefix, if last { "└── " } else { "├── " }, name));
        let deeper = format!("{}{}", prefix, if last { "    " } else { "│   " });
        map_lines(child, &deeper, lines);
    }
}

fn lines_by_ordered_maps(all: &[Vec<String>]) -> Vec<String> {
    let mut root = MapNode::default();
    for p in all {
        let mut level = &mut root;
        for component in p {
            level = level.children.entry(component.clone()).or_default();
        }
    }
    let mut lines = vec![".".to_string()];
    map_lines(&root, "", &mut lines);
    lines
}

fn next(state: &mut u64) -> u64 {
    *state = state.wrapping_mul(6364136223846793005).wrapping_add(1442695040888963407);
    *state >> 33
}

#[test]
fn drawing_agrees_with_ordered_maps() {
    let words = ["usr", "bin", "lib", "lib64", "etc", "a", "b", "B", "z", "é", "share", "doc", "", "x-y", "x_y", "10", "9"];
    let mut state: u64 = 7;
    for round in 0..200 {
        let mut all: Vec<Vec<String>> = Vec::new();
        let count = next(&mut state) % 12;
        for _ in 0..count {
            let depth = next(&mut state) % 5;
            let mut p = Vec::new();
            for _ in 0..depth {
                let word = words[(next(&mut state) % words.len() as u64) as usize];
                p.push(word.to_string());
            }
            all.push(p);
        }
        let tree = FileTreeNode::build(&all);
        assert_eq!(render_tree(&tree), lines_by_ordered_maps(&all), "round {}", round);
        let mut text = String::new();
        for line in lines_by_ordered_maps(&all) {
            text.push_str(&line);
            text.push('\n');
        }
        assert_eq!(print_package_file_tree(&all), text);
    }
}
