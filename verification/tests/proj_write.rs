use conjure::proj_write::fix_braces;

#[test]
fn fix_braces_ignores_comment_braces() {
    let input = "project {\n  // example {\n  //   inner {\n  // }\n  compile {\n    a b\n  }\n}\n";
    let out = fix_braces(input);
    assert_eq!(out.lines().last(), Some("}"));
    assert!(out.contains("// example {"));
}

#[test]
fn fix_braces_nests_blocks() {
    let input = "project {\n    compile {\n        x y\n    }\n}\n";
    let out = fix_braces(input);
    assert_eq!(out, "project {\n    compile {\n        x y\n    }\n}\n");
}
