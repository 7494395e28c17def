use pants_cleaner::address::Address;
use pants_cleaner::scan::{add_deps, remove_deps, sort_blocks, StructuralViolation};

fn lines(v: &[&str]) -> Vec<String> {
    v.iter().map(|s| s.to_string()).collect()
}

fn addr(folder: &str, module_name: &str) -> Address {
    Address { folder: folder.to_string(), module_name: module_name.to_string() }
}

#[test]
fn add_one_dependency() {
    let file = lines(&["dependencies=[", "a,", "b,", "]"]);
    let module = addr("c", "c");
    let deps = vec![addr("c", "c")];
    let (out, added) = add_deps(&file, &module, &deps).unwrap();
    assert_eq!(out, lines(&["dependencies=[", "        'c',", "a,", "b,", "]"]));
    assert_eq!(added, 1);
}

#[test]
fn add_twice_is_fixed_point() {
    let file = lines(&["dependencies=[", "a,", "b,", "]"]);
    let module = addr("c", "c");
    let deps = vec![addr("c", "c")];
    let (once, _) = add_deps(&file, &module, &deps).unwrap();
    let (twice, added) = add_deps(&once, &module, &deps).unwrap();
    assert_eq!(twice, once);
    assert_eq!(added, 0);
}

#[test]
fn add_present_dependency_changes_nothing() {
    let file = lines(&["dependencies=[", "        'c',", "a,", "]"]);
    let module = addr("c", "c");
    let deps = vec![addr("c", "c")];
    let (out, added) = add_deps(&file, &module, &deps).unwrap();
    assert_eq!(out, file);
    assert_eq!(added, 0);
}

#[test]
fn remove_matching_dependency() {
    let file = lines(&[
        "dependencies=[",
        "        'src/x:a',",
        "        'src/y:b',",
        "]",
    ]);
    let module = addr("m", "m");
    let deps = vec![addr("src/x", "a")];
    let (out, removed) = remove_deps(&file, &module, &deps, "#skip-sanitize").unwrap();
    assert_eq!(out, lines(&["dependencies=[", "        'src/y:b',", "]"]));
    assert_eq!(removed, 1);
}

#[test]
fn skip_marker_line_is_retained() {
    let file = lines(&[
        "dependencies=[",
        "        'src/x:a',  #skip-sanitize",
        "        'src/y:b',",
        "]",
    ]);
    let module = addr("m", "m");
    let deps = vec![addr("src/x", "a")];
    let (out, removed) = remove_deps(&file, &module, &deps, "#skip-sanitize").unwrap();
    assert_eq!(
        out,
        lines(&[
            "dependencies=[",
            "        'src/x:a',  #skip-sanitize,",
            "        'src/y:b',",
            "]",
        ])
    );
    assert_eq!(removed, 0);
}

#[test]
fn remove_twice_is_fixed_point() {
    let file = lines(&[
        "dependencies=[",
        "        'src/x:a',",
        "        'src/y:b',",
        "]",
    ]);
    let module = addr("m", "m");
    let deps = vec![addr("src/x", "a")];
    let (once, _) = remove_deps(&file, &module, &deps, "#skip").unwrap();
    let (twice, removed) = remove_deps(&once, &module, &deps, "#skip").unwrap();
    assert_eq!(twice, once);
    assert_eq!(removed, 0);
}

#[test]
fn nested_openers_are_a_structural_violation() {
    let file = lines(&["dependencies=[", "dependencies=[", "x,"]);
    let r = sort_blocks(&file);
    assert_eq!(r, Err(StructuralViolation::Nested));
}

#[test]
fn unterminated_block_is_a_structural_violation() {
    let file = lines(&["dependencies=[", "a,"]);
    let r = sort_blocks(&file);
    assert_eq!(r, Err(StructuralViolation::Unterminated));
}

#[test]
fn sort_normalises_and_keeps_outside_lines() {
    let file = lines(&[
        "# header",
        "thing(",
        "  dependencies = [",
        "\"z\",",
        "",
        "  'a'",
        "'a',",
        "  ]",
        ")",
        "exports = [",
        "e2,",
        "e1,",
        "]",
    ]);
    let (out, delta) = sort_blocks(&file).unwrap();
    assert_eq!(
        out,
        lines(&[
            "# header",
            "thing(",
            "  dependencies = [",
            "  'a',",
            "'a',",
            "'z',",
            "  ]",
            ")",
            "exports = [",
            "e1,",
            "e2,",
            "]",
        ])
    );
    assert_eq!(delta, 0);
}

#[test]
fn sorting_a_sorted_file_is_a_no_op() {
    let file = lines(&[
        "before",
        "dependencies=[",
        "'b',",
        "'c',",
        "'a',",
        "'a',",
        "]",
        "after",
    ]);
    let (once, _) = sort_blocks(&file).unwrap();
    assert_eq!(
        once,
        lines(&["before", "dependencies=[", "'a',", "'b',", "'c',", "]", "after"])
    );
    let (twice, delta) = sort_blocks(&once).unwrap();
    assert_eq!(twice, once);
    assert_eq!(delta, 0);
}

#[test]
fn file_without_blocks_passes_through() {
    let file = lines(&["nothing", "to", "see", "here ]"]);
    let module = addr("m", "m");
    let deps = vec![addr("src/x", "a")];
    let (out, removed) = remove_deps(&file, &module, &deps, "#skip").unwrap();
    assert_eq!(out, file);
    assert_eq!(removed, 0);
}

#[test]
fn non_simple_target_waits_for_its_name_line() {
    let file = lines(&[
        "dependencies=[",
        "        'dead:dep',",
        "]",
        "name=\"other\",",
        "dependencies=[",
        "        'dead:d2',",
        "]",
    ]);
    let module = addr("src/proj", "other");
    let deps = vec![addr("dead", "d2"), addr("dead", "dep")];
    let (out, removed) = remove_deps(&file, &module, &deps, "#skip").unwrap();
    assert_eq!(
        out,
        lines(&[
            "dependencies=[",
            "        'dead:dep',",
            "]",
            "name=\"other\",",
            "dependencies=[",
            "]",
        ])
    );
    assert_eq!(removed, 1);
}

#[test]
fn empty_file_stays_empty() {
    let file: Vec<String> = vec![];
    let (out, delta) = sort_blocks(&file).unwrap();
    assert!(out.is_empty());
    assert_eq!(delta, 0);
}
