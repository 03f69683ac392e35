use scpsync::planner::{build_create_list, get_leaf_folders, make_plan, DirProbe};

fn strings(v: &[&str]) -> Vec<String> {
    v.iter().map(|s| s.to_string()).collect()
}

#[test]
fn leaves_of_nested_set() {
    let folders = strings(&["/d/x", "/d/x/y", "/d/z"]);
    let leaves = get_leaf_folders(&folders);
    assert_eq!(leaves, strings(&["/d/x/y", "/d/z"]));
}

#[test]
fn leaves_of_empty_set() {
    let folders: Vec<String> = Vec::new();
    let leaves = get_leaf_folders(&folders);
    assert!(leaves.is_empty());
}

#[test]
fn leaves_of_single_path() {
    let folders = strings(&["/only"]);
    let leaves = get_leaf_folders(&folders);
    assert_eq!(leaves, strings(&["/only"]));
}

#[test]
fn leaves_come_out_sorted() {
    let folders = strings(&["/b", "/a", "/c"]);
    let leaves = get_leaf_folders(&folders);
    assert_eq!(leaves, strings(&["/a", "/b", "/c"]));
}

#[test]
fn leaf_chain_collapses_to_deepest() {
    let folders = strings(&["/a", "/a/b", "/a/b/c", "/a/b/c/d"]);
    let leaves = get_leaf_folders(&folders);
    assert_eq!(leaves, strings(&["/a/b/c/d"]));
}

#[test]
fn sibling_name_that_extends_letters_is_no_ancestor() {
    // "/d/ab" is not an ancestor of "/d/abc": the comparison goes by path
    // components, so both survive as leaves.
    let folders = strings(&["/d/ab", "/d/abc"]);
    let leaves = get_leaf_folders(&folders);
    assert_eq!(leaves, strings(&["/d/ab", "/d/abc"]));
}

#[test]
fn create_list_when_root_absent_takes_everything() {
    // With the destination root reported absent, the to-create set is the
    // root itself plus every discovered directory, and the flag is set.
    let dest = "/backup".to_string();
    let folders = strings(&["/backup/sub", "/backup/other"]);
    let probes: Vec<DirProbe> = Vec::new();
    let (to_create, missing) = build_create_list(&dest, &folders, DirProbe::Absent, &probes);
    assert!(missing);
    assert_eq!(
        to_create,
        strings(&["/backup", "/backup/sub", "/backup/other"])
    );
}

#[test]
fn create_list_when_root_present_keeps_only_absent() {
    let dest = "/backup".to_string();
    let folders = strings(&["/backup/a", "/backup/b", "/backup/c"]);
    let probes = vec![DirProbe::Present, DirProbe::Absent, DirProbe::Present];
    let (to_create, missing) = build_create_list(&dest, &folders, DirProbe::Present, &probes);
    assert!(!missing);
    assert_eq!(to_create, strings(&["/backup/b"]));
}

#[test]
fn failed_probe_counts_as_absent() {
    // Fail-open: a directory whose probe failed is still scheduled for
    // creation, so a transient fault costs a redundant command, not a
    // missing directory.
    let dest = "/backup".to_string();
    let folders = strings(&["/backup/a", "/backup/b"]);
    let probes = vec![DirProbe::Failed, DirProbe::Present];
    let (to_create, missing) = build_create_list(&dest, &folders, DirProbe::Present, &probes);
    assert!(!missing);
    assert_eq!(to_create, strings(&["/backup/a"]));
}

#[test]
fn plan_for_fresh_root_reduces_to_leaves() {
    // Scenario: local tree {a.txt, sub/b.txt}, destination root absent.
    // The to-create set {root, root/sub} reduces to the single leaf
    // root/sub, whose recursive creation also realizes the root.
    let dest = "/backup".to_string();
    let folders = strings(&["/backup/sub"]);
    let probes: Vec<DirProbe> = Vec::new();
    let plan = make_plan(&dest, &folders, DirProbe::Absent, &probes);
    assert!(plan.root_is_missing);
    assert_eq!(plan.leaf_directories, strings(&["/backup/sub"]));
}

#[test]
fn plan_for_present_root_with_everything_existing() {
    let dest = "/backup".to_string();
    let folders = strings(&["/backup/sub"]);
    let probes = vec![DirProbe::Present];
    let plan = make_plan(&dest, &folders, DirProbe::Present, &probes);
    assert!(!plan.root_is_missing);
    assert!(plan.leaf_directories.is_empty());
}
