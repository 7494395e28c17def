use pants_cleaner::address::{Address, AddressFormatError};
use pants_cleaner::report::{select, selection_totals, Dependency, Info};
use pants_cleaner::{perform, Action, Command, Config, UndeclaredSubCommand, UnusedSubCommand};

fn addr(folder: &str, module_name: &str) -> Address {
    Address { folder: folder.to_string(), module_name: module_name.to_string() }
}

fn dep(kind: &str, target: &str) -> Dependency {
    Dependency {
        aliases: vec![],
        dependency_type: kind.to_string(),
        products_used: 0,
        target: target.to_string(),
    }
}

fn info(deps: Vec<Dependency>) -> Info {
    Info { cost: 0, cost_transitive: 0, dependencies: deps, products_total: 0 }
}

#[test]
fn from_str_splits_on_first_colon() {
    let a = Address::from_str("src/scala/foo:bar").unwrap();
    assert_eq!(a.folder, "src/scala/foo");
    assert_eq!(a.module_name, "bar");

    let b = Address::from_str("a:b:c").unwrap();
    assert_eq!(b.folder, "a");
    assert_eq!(b.module_name, "b:c");
}

#[test]
fn from_str_rejects_malformed_labels() {
    assert_eq!(
        Address::from_str("nocolon"),
        Err(AddressFormatError { label: "nocolon".to_string() })
    );
    assert!(Address::from_str(":x").is_err());
    assert!(Address::from_str("x:").is_err());
    assert!(Address::from_str("").is_err());
}

#[test]
fn is_simple_means_last_segment_equals_name() {
    assert!(addr("src/scala/foo", "foo").is_simple());
    assert!(addr("foo", "foo").is_simple());
    assert!(!addr("src/scala/foo", "bar").is_simple());
    // a bare suffix is not enough: the whole last segment must match
    assert!(!addr("src/abc", "bc").is_simple());
    assert!(!addr("src/x", "src/x").is_simple());
}

#[test]
fn as_str_shortens_simple_targets() {
    assert_eq!(addr("src/scala/foo", "foo").as_str(), "src/scala/foo");
    assert_eq!(addr("src/scala/foo", "bar").as_str(), "src/scala/foo:bar");
}

#[test]
fn match_line_accepts_the_quoted_canonical_form() {
    let simple = addr("src/scala/foo", "foo");
    assert!(simple.match_line("        'src/scala/foo',"));
    let compound = addr("src/scala/foo", "bar");
    assert!(compound.match_line("        'src/scala/foo:bar',"));
    assert!(compound.match_line("        ':bar',"));
    assert!(!compound.match_line("        'src/scala/foo',"));
    assert!(!simple.match_line("src/scala/foo"));
}

#[test]
fn select_filters_and_sorts() {
    let report = vec![
        (
            "src/scala/zeta:zeta".to_string(),
            info(vec![dep("unused", "dead/b:b"), dep("declared", "keep/k:k")]),
        ),
        ("3rdparty/jvm:guava".to_string(), info(vec![dep("unused", "dead/c:c")])),
        ("other/path:z".to_string(), info(vec![dep("unused", "dead/d:d")])),
        ("src/scala/alpha:alpha".to_string(), info(vec![dep("unused", "dead/a:a")])),
        ("src/scala/empty:empty".to_string(), info(vec![dep("declared", "keep/k:k")])),
    ];
    let out = select(&report, "unused", "src/").unwrap();
    assert_eq!(
        out,
        vec![
            (addr("src/scala/alpha", "alpha"), vec![addr("dead/a", "a")]),
            (addr("src/scala/zeta", "zeta"), vec![addr("dead/b", "b")]),
        ]
    );
}

#[test]
fn select_fails_on_a_malformed_label() {
    let report = vec![(
        "src/scala/app:app".to_string(),
        info(vec![dep("unused", "badlabel")]),
    )];
    let e = select(&report, "unused", "src/").unwrap_err();
    assert_eq!(e.label, "badlabel");
}

#[test]
fn select_ignores_malformed_labels_outside_the_prefix() {
    let report = vec![("elsewhere:mod".to_string(), info(vec![dep("unused", "badlabel")]))];
    let out = select(&report, "unused", "src/").unwrap();
    assert!(out.is_empty());
}

#[test]
fn selection_totals_counts_modules_and_entries() {
    let sel = vec![
        (addr("a", "a"), vec![addr("x", "x"), addr("y", "y")]),
        (addr("b", "b"), vec![addr("z", "z")]),
    ];
    let (modules, total) = selection_totals(&sel);
    assert_eq!(modules, 2);
    assert_eq!(total, 3);
}

fn config(cmd: Command) -> Config {
    Config {
        report_file: "deps.json".to_string(),
        prefix: "src/scala/".to_string(),
        skip_marker: "#skip-sanitize".to_string(),
        cmd,
    }
}

#[test]
fn perform_maps_commands_to_actions() {
    match perform(config(Command::Unused { cmd: UnusedSubCommand::Show })) {
        Action::ShowUnused { report_file, prefix } => {
            assert_eq!(report_file, "deps.json");
            assert_eq!(prefix, "src/scala/");
        },
        _ => panic!("wrong action"),
    }
    match perform(config(Command::Unused { cmd: UnusedSubCommand::Fix })) {
        Action::FixUnused { report_file, prefix, skip_marker } => {
            assert_eq!(report_file, "deps.json");
            assert_eq!(prefix, "src/scala/");
            assert_eq!(skip_marker, "#skip-sanitize");
        },
        _ => panic!("wrong action"),
    }
    match perform(config(Command::Undeclared { cmd: UndeclaredSubCommand::Show })) {
        Action::ShowUndeclared { .. } => {},
        _ => panic!("wrong action"),
    }
    match perform(config(Command::Undeclared { cmd: UndeclaredSubCommand::Fix })) {
        Action::FixUndeclared { .. } => {},
        _ => panic!("wrong action"),
    }
    match perform(config(Command::Sort {})) {
        Action::SortBlocks { prefix, skip_marker } => {
            assert_eq!(prefix, "src/scala/");
            assert_eq!(skip_marker, "#skip-sanitize");
        },
        _ => panic!("wrong action"),
    }
}
