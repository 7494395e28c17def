use pants_cleaner::blocks::{block_ends, deps_block_start, exports_block_start};

#[test]
fn deps_block_start_test() {
    assert!(!deps_block_start(""));
    assert!(!deps_block_start("dependencies"));
    assert!(!deps_block_start("deps"));

    assert!(!deps_block_start("dependencies="));
    assert!(!deps_block_start("dependencies["));

    assert!(deps_block_start("dependencies=["));
    assert!(deps_block_start("dependencies= ["));
    assert!(deps_block_start("  dependencies = ["));
}

#[test]
fn exports_block_start_test() {
    assert!(!exports_block_start(""));
    assert!(!exports_block_start("exports"));

    assert!(!exports_block_start("exports="));
    assert!(!exports_block_start("exports["));

    assert!(exports_block_start("exports=["));
    assert!(exports_block_start("exports= ["));
    assert!(exports_block_start("  exports = ["));
}

#[test]
fn block_ends_test() {
    assert!(!block_ends(""));
    assert!(!block_ends("deps"));

    assert!(block_ends("]"));
    assert!(block_ends(" ]"));
    assert!(block_ends("] "));
    assert!(block_ends(" ] "));
}

#[test]
fn deps_block_start_tab_tolerant() {
    assert!(deps_block_start("dependencies\t=\t["));
    assert!(deps_block_start("    dependencies =  [ # trailing"));
    assert!(!deps_block_start("dependencies = x ["));
}
