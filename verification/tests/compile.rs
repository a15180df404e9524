use conjure::compile::{
    collect_sources, compile_entries, exts_for, find_sources, is_wanted, test_source_roots, Found,
};
use conjure::names::NameMap;
use conjure::proj_parse::{
    Compile, Dependency, Flags, Language, Linkage, Project, ProjectType, Test,
};
use conjure::toolchain::{Host, Os};

const HOST: Host = Host { os: Os::Other, msvc_abi: false, visual_studio: false };

fn v(items: &[&str]) -> Vec<String> {
    items.iter().map(|s| s.to_string()).collect()
}

fn project() -> Project {
    Project {
        name: "p".into(),
        compile: Some(Compile { cc: Some("gcc".into()), ..Default::default() }),
        ..Default::default()
    }
}

fn with_test(src: &str) -> Project {
    let mut tests = NameMap::new();
    tests.insert(
        "unit".to_string(),
        Test {
            src: Some(Flags::Append(v(&[src]))),
            includes: None,
            c_flags: None,
            ld_flags: None,
        },
    );
    Project { tests: Some(tests), ..project() }
}

#[test]
fn find_sources_filters_by_extension() {
    let mut out = vec![];
    find_sources(&v(&["/d/a.c", "/d/b.txt"]), &exts_for(&Language::C), &mut out);
    assert_eq!(out.len(), 1);
    assert!(out[0].ends_with("a.c"));
}

#[test]
fn collect_sources_accepts_file_roots() {
    let exts = exts_for(&Language::C);
    assert_eq!(
        collect_sources("/d", &v(&["a.c"]), &[Found::File], &exts),
        vec!["/d/a.c".to_string()]
    );

    let below = Found::Directory(v(&["/d/./a.c", "/d/./b.c"]));
    assert_eq!(collect_sources("/d", &v(&["."]), &[below], &exts).len(), 2);
}

#[test]
fn file_roots_are_not_filtered() {
    let exts = exts_for(&Language::C);
    assert_eq!(
        collect_sources("/d", &v(&["odd.txt"]), &[Found::File], &exts),
        vec!["/d/odd.txt".to_string()]
    );
}

#[test]
fn extensions_follow_the_language() {
    let c = exts_for(&Language::C);
    let cpp = exts_for(&Language::Cpp);
    assert!(is_wanted("x/a.c", &c) && is_wanted("a.C", &c) && !is_wanted("a.cpp", &c));
    for f in ["a.cpp", "a.cc", "a.cxx", "a.c++"] {
        assert!(is_wanted(f, &cpp), "{f}");
    }
    assert!(!is_wanted("a.c", &cpp));
    assert!(!is_wanted("Makefile", &c));
    assert!(!is_wanted(".c", &c));
    // With no extensions at all everything is wanted.
    assert!(is_wanted("anything.h", &[]));
}

#[test]
fn an_entry_is_made_for_every_source() {
    let found = [Found::Directory(v(&["/d/src/a.c", "/d/src/sub/b.c", "/d/src/n.txt"]))];
    let e = compile_entries("/d", "/d", &project(), "default", &[], false, &found, &HOST).unwrap();
    assert_eq!(e.len(), 2);
    assert_eq!(e[0].0, "/d/.conjure/build/obj/default/src_a.o");
    assert_eq!(e[1].0, "/d/.conjure/build/obj/default/src_sub_b.o");
    assert_eq!(e[0].1.source(), "/d/src/a.c");
    assert_eq!(e[0].1.name(), "a.c");
    assert_eq!(e[0].1.directory, "/d");
    assert_eq!(e[0].1.arguments[0], "gcc");
    let tail = &e[0].1.arguments[e[0].1.arguments.len() - 4..];
    assert_eq!(tail, ["-c", "/d/src/a.c", "-o", "/d/.conjure/build/obj/default/src_a.o"]);
}

#[test]
fn depfiles_are_the_only_difference() {
    let found = [Found::Directory(v(&["/d/src/a.c"]))];
    let on = compile_entries("/d", "/d", &project(), "p", &[], true, &found, &HOST).unwrap();
    let off = compile_entries("/d", "/d", &project(), "p", &[], false, &found, &HOST).unwrap();
    let obj = "/d/.conjure/build/obj/p/src_a.o";
    assert_eq!(on[0].0, obj);
    let extra = ["-MMD".to_string(), "-MF".to_string(), format!("{obj}.d")];
    let kept: Vec<String> =
        on[0].1.arguments.iter().filter(|a| !extra.contains(a)).cloned().collect();
    assert_eq!(kept, off[0].1.arguments);
    assert_eq!(on[0].1.arguments.len(), off[0].1.arguments.len() + 3);
}

#[test]
fn flags_come_in_order() {
    let mut deps = NameMap::new();
    deps.insert(
        "z".to_string(),
        Dependency {
            local: Some("../z".into()),
            includes: Some(v(&["zinc"])),
            ..Default::default()
        },
    );
    let p = Project {
        ty: ProjectType::Library,
        dependencies: Some(deps),
        compile: Some(Compile {
            cc: Some("gcc".into()),
            standard: Some("c11".into()),
            includes: Some(Flags::Append(v(&["inc"]))),
            c_flags: Some(Flags::Append(v(&["-Wall", ""]))),
            ..Default::default()
        }),
        ..Default::default()
    };
    let found = [Found::Directory(v(&["/d/src/a.c"]))];
    let e = compile_entries("/d", "/d", &p, "x", &v(&["-DP", ""]), false, &found, &HOST).unwrap();
    let obj = "/d/.conjure/build/obj/x/src_a.o";
    assert_eq!(
        e[0].1.arguments,
        v(&[
            "gcc", "-std=c11", "-I/d/../z/zinc", "-DP", "-Iinc", "-fPIC", "-Wall", "-c",
            "/d/src/a.c", "-o", obj,
        ])
    );

    // An archive's objects need not be position-independent.
    let p = Project { link: Linkage::Static, ..p };
    let e = compile_entries("/d", "/d", &p, "x", &[], false, &found, &HOST).unwrap();
    assert!(!e[0].1.arguments.contains(&"-fPIC".to_string()));
}

#[test]
fn test_sources_are_left_out() {
    let p = with_test("src/test");
    assert_eq!(test_source_roots(&p, "/d"), vec!["/d/src/test"]);
    let found = [Found::Directory(v(&["/d/src/a.c", "/d/src/test/t.c", "/d/src/testing.c"]))];
    let e = compile_entries("/d", "/d", &p, "default", &[], false, &found, &HOST).unwrap();
    assert_eq!(
        e.iter().map(|x| x.1.source()).collect::<Vec<_>>(),
        vec!["/d/src/a.c", "/d/src/testing.c"]
    );
}

#[test]
fn compile_needs_a_section_and_sources() {
    let p = Project::default();
    let e = compile_entries("/d", "/d", &p, "default", &[], false, &[], &HOST).unwrap_err();
    assert_eq!(e.message, "No compile section in conjure.kdl");
    let found = [Found::Directory(v(&["/d/src/readme.md"]))];
    let e = compile_entries("/d", "/d", &project(), "default", &[], false, &found, &HOST)
        .unwrap_err();
    assert_eq!(e.message, "No source files found in src/");
    assert_eq!(e.help.as_deref(), Some("Make a main.c or main.cpp file in src/"));
}

#[test]
fn msvc_objects_have_their_own_extension() {
    let p = Project {
        compile: Some(Compile { cc: Some("cl".into()), ..Default::default() }),
        ..Default::default()
    };
    let found = [Found::Directory(v(&["/d/src/a.c"]))];
    let e = compile_entries("/d", "/d", &p, "default", &[], true, &found, &HOST).unwrap();
    assert_eq!(e[0].0, "/d/.conjure/build/obj/default/src_a.obj");
    assert!(e[0].1.arguments.contains(&"/sourceDependencies".to_string()));
}
