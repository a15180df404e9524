use conjure::build::{
    build, build_ctx, compiled_objects, database_targets, objects_of_entries, plan_compile,
    plan_steps, record_objects, test_profile, test_project, BuildCtx, Plan, Start, Step,
};
use conjure::compile::CompileEntry;
use conjure::fingerprint::{fingerprint, FileHash, Scan};
use conjure::incremental::{parse_depfile, DepGraph};
use conjure::names::NameMap;
use conjure::proj_parse::{
    BuildSystem, Compile, Flags, Linkage, Output, Profile, Project, ProjectType, Sibling, Test,
};

fn v(items: &[&str]) -> Vec<String> {
    items.iter().map(|s| s.to_string()).collect()
}

fn entry(obj: &str, file: &str) -> (String, CompileEntry) {
    (
        obj.to_string(),
        CompileEntry { directory: "/d".into(), arguments: vec![], file: file.into() },
    )
}

fn project() -> Project {
    Project {
        name: "p".into(),
        compile: Some(Compile { cc: Some("gcc".into()), ..Default::default() }),
        ..Default::default()
    }
}

fn state(flags: &str, files: &[(&str, u64)]) -> String {
    let p = Project {
        compile: Some(Compile {
            c_flags: Some(Flags::Append(v(&[flags]))),
            ..Default::default()
        }),
        ..Default::default()
    };
    let scan = Scan {
        sources: files.iter().map(|(p, h)| FileHash { path: p.to_string(), hash: *h }).collect(),
        includes: vec![],
        locals: NameMap::new(),
    };
    fingerprint(&p, "default", &[], &[], &scan).unwrap()
}

fn graph() -> DepGraph {
    let mut g = DepGraph::default();
    g.insert("/o/a.o", v(&["/d/a.c", "/d/x.h"]));
    g.insert("/o/b.o", v(&["/d/b.c", "/d/y.h"]));
    g
}

const FILES: [(&str, u64); 4] = [("/d/a.c", 1), ("/d/b.c", 2), ("/d/x.h", 3), ("/d/y.h", 4)];

fn plan(previous: &str, current: &str, there: [bool; 2], force: bool, artifact: bool) -> Plan {
    let entries = vec![entry("/o/a.o", "/d/a.c"), entry("/o/b.o", "/d/b.c")];
    plan_compile(previous, current, &entries, &there, &graph(), force, artifact)
}

#[test]
fn first_and_forced_builds_do_everything() {
    let s = state("-O2", &FILES);
    for p in [plan("", &s, [true, true], false, true), plan(&s, &s, [true, true], true, true)] {
        assert_eq!(p.compile, vec![0, 1]);
        assert!(p.link);
    }
}

#[test]
fn unchanged_trees_recompile_nothing() {
    let s = state("-O2", &FILES);
    let p = plan(&s, &s, [true, true], false, true);
    assert!(p.compile.is_empty() && !p.link);
    // The artifact is made again where it is gone.
    let p = plan(&s, &s, [true, true], false, false);
    assert!(p.compile.is_empty() && p.link);
}

#[test]
fn only_dependents_of_a_header_recompile() {
    let before = state("-O2", &FILES);
    let header = state("-O2", &[("/d/a.c", 1), ("/d/b.c", 2), ("/d/x.h", 9), ("/d/y.h", 4)]);
    let p = plan(&before, &header, [true, true], false, true);
    assert_eq!(p.compile, vec![0]);
    assert!(p.link);
    let source = state("-O2", &[("/d/a.c", 1), ("/d/b.c", 9), ("/d/x.h", 3), ("/d/y.h", 4)]);
    assert_eq!(plan(&before, &source, [true, true], false, true).compile, vec![1]);
    let gone = state("-O2", &[("/d/a.c", 1), ("/d/b.c", 2), ("/d/x.h", 3)]);
    assert_eq!(plan(&before, &gone, [true, true], false, true).compile, vec![1]);
    let other = state(
        "-O2",
        &[("/d/a.c", 1), ("/d/b.c", 2), ("/d/x.h", 3), ("/d/y.h", 4), ("/d/z.h", 5)],
    );
    assert!(plan(&before, &other, [true, true], false, true).compile.is_empty());
}

#[test]
fn changed_settings_recompile_everything() {
    let p = plan(&state("-O2", &FILES), &state("-O3", &FILES), [true, true], false, true);
    assert_eq!(p.compile, vec![0, 1]);
    assert!(p.link);
}

#[test]
fn missing_and_unrecorded_objects_recompile() {
    let s = state("-O2", &FILES);
    assert_eq!(plan(&s, &s, [true, false], false, true).compile, vec![1]);

    let entries = vec![entry("/o/a.o", "/d/a.c"), entry("/o/new.o", "/d/b.c")];
    let p = plan_compile(&s, &s, &entries, &[true, true], &graph(), false, true);
    assert_eq!(p.compile, vec![1]);

    // An object that is no longer built does not recompile anything, but relinks.
    let entries = vec![entry("/o/a.o", "/d/a.c")];
    let p = plan_compile(&s, &s, &entries, &[true], &graph(), false, true);
    assert!(p.compile.is_empty() && p.link);
}

#[test]
fn plans_are_carried_out_in_order() {
    let some = Plan { compile: vec![1], link: true };
    let none = Plan { compile: vec![], link: false };
    assert_eq!(
        plan_steps(true, &some),
        vec![Step::Compile, Step::RecordObjects, Step::Link, Step::RecordState]
    );
    assert_eq!(plan_steps(false, &some), vec![Step::Compile, Step::Link]);
    assert_eq!(plan_steps(true, &none), vec![Step::RecordState]);
    assert_eq!(plan_steps(false, &none), vec![]);
    assert_eq!(compiled_objects(&v(&["/o/a.o", "/o/b.o"]), &some), vec!["/o/b.o"]);
}

#[test]
fn records_follow_the_objects() {
    let mut g = graph();
    let entries = vec![entry("/o/b.o", "/d/b.c"), entry("/o/c.o", "/d/c.c")];
    let objects = objects_of_entries(&entries);
    record_objects(
        &mut g,
        &v(&["/o/b.o", "/o/c.o"]),
        &vec![Some(v(&["/d/b.c"])), None],
        &objects,
    );
    assert_eq!(g.len(), 1);
    assert_eq!(g.object(0), "/o/b.o");
    assert_eq!(g.files(), v(&["/d/b.c"]));
}

#[test]
fn depfiles_name_what_an_object_was_made_from() {
    assert_eq!(
        parse_depfile("obj/a.o: src/a.c inc/x.h \\\n  inc/y.h\n"),
        vec!["src/a.c", "inc/x.h", "inc/y.h"]
    );
    assert_eq!(parse_depfile("a.o: my\\ file.c we\\#ird.h\n"), vec!["my file.c", "we#ird.h"]);
    assert_eq!(parse_depfile("C:\\o\\a.o: C:\\s\\a.c\r\n"), vec!["C:\\s\\a.c"]);
    assert_eq!(parse_depfile("a.o:\\\r\n  x.c\r\n"), vec!["x.c"]);
    assert!(parse_depfile("").is_empty());
    assert!(parse_depfile("no rule").is_empty());
}

#[test]
fn recorded_files_come_once_and_in_order() {
    let mut g = graph();
    g.insert("/o/c.o", v(&["/d/x.h", "/d/a.c"]));
    assert_eq!(g.files(), v(&["/d/a.c", "/d/b.c", "/d/x.h", "/d/y.h"]));
    g.insert("/o//a.o", v(&["/d/z.h"]));
    assert_eq!(g.len(), 3);
    assert_eq!(g.files_at(g.position_of("/o/a.o")), &v(&["/d/z.h"]));
    assert_eq!(DepGraph::path("/d", "release"), "/d/.conjure/build/objdeps/release.kdl");
}

fn ctx<'a>(p: &'a Project, profile: Option<&'a str>) -> BuildCtx<'a> {
    BuildCtx {
        project: p,
        dir: "/d".into(),
        root: "/d".into(),
        profile,
        record_state: true,
        force: false,
        threads: None,
    }
}

#[test]
fn current_projects_are_left_alone() {
    let p = project();
    let c = ctx(&p, None);
    assert_eq!(build_ctx(&c, true, "s", "s", true), Start::UpToDate);
    assert_eq!(build_ctx(&c, true, "s", "t", true), Start::Build { resolve_again: false });
    assert_eq!(build_ctx(&c, true, "s", "s", false), Start::Build { resolve_again: false });
    assert_eq!(build_ctx(&c, false, "s", "s", true), Start::Build { resolve_again: true });
    let forced = BuildCtx { force: true, ..ctx(&p, None) };
    assert_eq!(build_ctx(&forced, true, "s", "s", true), Start::Build { resolve_again: false });
    let test = BuildCtx { record_state: false, ..ctx(&p, None) };
    assert_eq!(build_ctx(&test, true, "s", "s", true), Start::Build { resolve_again: false });
}

#[test]
fn profiles_are_folded_in_and_threads_win() {
    let mut profiles = NameMap::new();
    profiles.insert(
        "fast".to_string(),
        Profile { threads: Some(2), ty: Some(ProjectType::Library), ..Default::default() },
    );
    let p = Project { profiles: Some(profiles), ..project() };
    let c = ctx(&p, Some("fast"));
    assert_eq!(c.profile_name(), "fast");
    assert!(c.resolve().is_some());
    assert_eq!(c.fallback_note(), None);
    assert_eq!(c.effective().compile.unwrap().threads, Some(2));
    assert!(ctx(&p, Some("fast")).effective().is_library());
    let c = BuildCtx { threads: Some(7), ..ctx(&p, Some("fast")) };
    assert_eq!(c.effective().compile.unwrap().threads, Some(7));

    let c = ctx(&p, Some("slow"));
    assert_eq!(c.profile_name(), "default");
    assert_eq!(c.fallback_note().as_deref(), Some("p: no `slow` profile; building default"));
    assert_eq!(ctx(&p, None).fallback_note(), None);
}

fn unit(src: Option<&str>) -> Test {
    Test {
        src: src.map(|s| Flags::Append(v(&[s]))),
        includes: None,
        c_flags: Some(Flags::Append(v(&["-DTEST"]))),
        ld_flags: None,
    }
}

fn library() -> Project {
    let mut tests = NameMap::new();
    tests.insert("unit".to_string(), unit(Some("t/unit.c")));
    tests.insert("also".to_string(), unit(Some("t/also.c")));
    let mut profiles = NameMap::new();
    profiles.insert(
        "lib".to_string(),
        Profile {
            ty: Some(ProjectType::Library),
            link: Some(Linkage::Static),
            src: Some(Flags::Append(v(&["extra"]))),
            c_flags: Some(Flags::Append(v(&["-g"]))),
            ..Default::default()
        },
    );
    Project {
        ty: ProjectType::Library,
        tests: Some(tests),
        profiles: Some(profiles),
        output: Some(Output { bin: Some("out".into()), lib: None, symlink_binaries: Some(true) }),
        compile: Some(Compile {
            cc: Some("gcc".into()),
            c_flags: Some(Flags::Append(v(&["-Wall"]))),
            ..Default::default()
        }),
        ..project()
    }
}

#[test]
fn tests_are_binaries_that_link_their_parent() {
    let p = library();
    let t = test_project(&p, "unit", &unit(Some("t/unit.c")), Some("lib")).unwrap();
    assert_eq!(t.name, "unit");
    assert_eq!(t.ty, ProjectType::Binary);
    assert_eq!(t.link, Linkage::Dynamic);
    let d = t.dependencies.as_ref().unwrap().get("p").unwrap();
    assert_eq!(d.local.as_deref(), Some("."));
    assert_eq!(d.build, Some(BuildSystem::Conjure(None)));
    let c = t.compile.as_ref().unwrap();
    assert_eq!(c.src_roots(), vec!["t/unit.c"]);
    assert_eq!(c.c_flags.as_ref().unwrap().list(), vec!["-Wall", "-DTEST"]);
    assert!(t.tests.is_none());
    let o = t.output.as_ref().unwrap();
    assert_eq!(o.bin.as_deref(), Some("out/unit"));
    assert_eq!(o.symlink_binaries, Some(true));

    // Under the profile it stays what it is, and keeps the profile's flags.
    let built = t.with_profile(t.profiles.as_ref().unwrap().get("lib"));
    assert_eq!(built.ty, ProjectType::Binary);
    let c = built.compile.as_ref().unwrap();
    assert_eq!(c.src_roots(), vec!["t/unit.c"]);
    assert_eq!(c.c_flags.as_ref().unwrap().list(), vec!["-Wall", "-DTEST", "-g"]);

    let plain = Project { output: None, ..library() };
    let t = test_project(&plain, "unit", &unit(Some("t/unit.c")), None).unwrap();
    assert_eq!(t.output.as_ref().unwrap().bin.as_deref(), Some("bin/unit"));
}

#[test]
fn tests_stay_tests_under_inherited_profiles() {
    let mut p = library();
    let mut profiles = p.profiles.take().unwrap();
    profiles.insert(
        "more".to_string(),
        Profile {
            c_flags: Some(Flags::Append(v(&["-O2"]))),
            extends: v(&["lib"]),
            ..Default::default()
        },
    );
    p.profiles = Some(profiles);
    let t = test_project(&p, "unit", &unit(Some("t/unit.c")), Some("more")).unwrap();
    let built = t.with_profile(t.profiles.as_ref().unwrap().get("more"));
    assert_eq!(built.ty, ProjectType::Binary);
    assert_eq!(built.link, Linkage::Dynamic);
    let c = built.compile.as_ref().unwrap();
    assert_eq!(c.src_roots(), vec!["t/unit.c"]);
    assert_eq!(c.c_flags.as_ref().unwrap().list(), vec!["-Wall", "-DTEST", "-g", "-O2"]);
}

#[test]
fn tests_need_sources() {
    let e = test_project(&library(), "unit", &unit(None), None).err().unwrap();
    assert_eq!(e.message, "Test `unit` has no `src`");
    assert_eq!(e.help.as_deref(), Some("Test `unit` must have a `src` specified"));
}

#[test]
fn test_profiles_lose_what_a_test_is() {
    let p = Profile {
        ty: Some(ProjectType::Library),
        cc: Some("clang".into()),
        src: Some(Flags::Append(v(&["x"]))),
        artifact: Some("a".into()),
        generate_pc: Some(true),
        ..Default::default()
    };
    let t = test_profile(&p);
    assert!(t.ty.is_none() && t.src.is_none());
    assert!(t.artifact.is_none() && t.generate_pc.is_none());
    assert_eq!(t.cc.as_deref(), Some("clang"));
}

#[test]
fn tests_are_selected_by_name() {
    let p = library();
    assert_eq!(conjure::build::test(&p, None, &[]).unwrap(), vec!["also", "unit"]);
    assert_eq!(conjure::build::test(&p, None, &v(&["unit"])).unwrap(), vec!["unit"]);
    assert_eq!(conjure::build::test(&p, None, &v(&["nope"])).unwrap_err().message, "test `nope` not found");
    let e = conjure::build::test(&project(), None, &[]).unwrap_err();
    assert_eq!(e.message, "No `tests` in conjure.kdl");
    let empty = Project { tests: Some(NameMap::new()), ..project() };
    assert!(conjure::build::test(&empty, None, &[]).is_err());
    let binary = Project { ty: ProjectType::Binary, ..library() };
    let e = conjure::build::test(&binary, None, &[]).unwrap_err();
    assert_eq!(e.message, "`p` is not a library under this profile");
    assert_eq!(conjure::build::test(&binary, Some("lib"), &[]).unwrap().len(), 2);
}

#[test]
fn databases_cover_the_tests() {
    let (targets, fault) = database_targets(&library(), Some("lib"));
    assert!(fault.is_none());
    assert_eq!(
        targets.iter().map(|t| (t.0.name.as_str(), t.1.as_str())).collect::<Vec<_>>(),
        vec![("p", "lib"), ("also", "lib"), ("unit", "lib")]
    );
    let mut tests = NameMap::new();
    tests.insert("a".to_string(), unit(Some("a.c")));
    tests.insert("b".to_string(), unit(None));
    tests.insert("c".to_string(), unit(Some("c.c")));
    let (targets, fault) =
        database_targets(&Project { tests: Some(tests), ..library() }, None);
    assert_eq!(targets.len(), 2);
    assert_eq!(fault.unwrap().message, "Test `b` has no `src`");
    assert_eq!(database_targets(&project(), None).0.len(), 1);
}

#[test]
fn siblings_come_in_order_of_their_paths() {
    let mut s = NameMap::new();
    s.insert("a".to_string(), Sibling { path: "z".into() });
    s.insert("b".to_string(), Sibling { path: "libs/y".into() });
    let p = Project { siblings: Some(s), ..project() };
    assert_eq!(build(&p, "/r", true), vec!["/r", "/r/libs/y", "/r/z"]);
    assert_eq!(build(&p, "/r", false), vec!["/r"]);
    assert_eq!(build(&project(), "/r", true), vec!["/r"]);
}
