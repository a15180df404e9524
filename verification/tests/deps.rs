use conjure::dep_cache::DepCache;
use conjure::deps::{
    advance, build_conjure_dep, build_dep, build_deps, built_profile, cache_home, collect_libs,
    dep_build_system, dep_dir, dep_include_dirs, dep_url, find_lib, is_link_flag, is_shared,
    is_static, link_deps, local_dep_fingerprint, manifestless_project, pkg_fault, pkg_start_fault,
    plan_fetches, plan_jobs, plan_pkg_config, record_builds, record_locks, resolve_pkg_config,
    resolve_remote, scope_dir, scope_of, split_cflags_and_libs, under_profile, ConjureCtx, DepJob,
    DepWork, DepsAction, DepsCtx, DepsEvent, FetchAction, FetchStage, Pin, Resolved,
};
use conjure::fingerprint::{FileHash, Scan};
use conjure::lock::LockFile;
use conjure::names::NameMap;
use conjure::proj_parse::{
    BuildSystem, Compile, Dependency, Flags, Language, Linkage, Profile, Project, ProjectType,
    Remote, Transport,
};
use conjure::toolchain::{Host, Os};

const LINUX: Host = Host { os: Os::Other, msvc_abi: false, visual_studio: false };
const MSVC: Host = Host { os: Os::Windows, msvc_abi: true, visual_studio: true };

fn v(items: &[&str]) -> Vec<String> {
    items.iter().map(|s| s.to_string()).collect()
}

fn files(dir: &str, names: &[&str]) -> Vec<(String, String)> {
    names.iter().map(|n| (format!("{dir}/{n}"), n.to_string())).collect()
}

fn dep(local: &str) -> Dependency {
    Dependency { local: Some(local.into()), ..Default::default() }
}

fn remote(path: &str) -> Dependency {
    Dependency { remote: Some(Remote::GitHub(path.into())), ..Default::default() }
}

fn table(entries: Vec<(&str, Dependency)>) -> NameMap<Dependency> {
    let mut out = NameMap::new();
    for (n, d) in entries {
        out.insert(n.to_string(), d);
    }
    out
}

#[test]
fn scope_dir_collapses_root_scope() {
    let base = "/p/.conjure/deps";

    assert_eq!(scope_dir(base, "."), base);
    assert_eq!(scope_dir(base, "libs/sub1"), "/p/.conjure/deps/libs/sub1");
}

#[test]
fn scope_of_root_is_dot() {
    assert_eq!(scope_of("/r", "/r"), ".");
    assert_eq!(scope_of("/r", "/r/libs/s"), "libs/s");
}

#[test]
fn scope_outside_the_root_is_dot() {
    assert_eq!(scope_of("/r", "/elsewhere"), ".");
}

#[test]
fn cache_home_is_root_conjure_deps() {
    assert_eq!(cache_home("/r"), "/r/.conjure/deps");
}

#[test]
fn build_system_explicit_wins_over_manifest() {
    let dep = Dependency {
        local: Some(".".into()),
        build: Some(BuildSystem::CMake(None)),
        remote: None,
        transport: None,
        includes: None,
        src: None,
        pkg_config: None,
        git_ref: None,
    };

    assert_eq!(dep_build_system(&dep, false), BuildSystem::CMake(None));
    assert_eq!(dep_build_system(&dep, true), BuildSystem::CMake(None));
}

#[test]
fn build_system_defaults_to_make_without_manifest() {
    assert_eq!(dep_build_system(&dep("."), false), BuildSystem::Make(None));
}

#[test]
fn build_system_detects_conjure_manifest() {
    assert_eq!(dep_build_system(&dep("."), true), BuildSystem::Conjure(None));
}

#[test]
fn lib_name_classification() {
    assert!(is_shared("libx.so", Os::Other));
    assert!(is_shared("libx.so.1", Os::Other));
    assert!(!is_shared("libx.a", Os::Other));
    assert!(!is_static("libx.so", false));

    assert!(is_shared("libx.dylib", Os::MacOs));
    assert!(!is_shared("libx.a", Os::MacOs));

    assert!(is_shared("x.dll", Os::Windows));
    assert!(is_static("x.lib", true));
    assert!(is_static("x.a", true));
    assert!(!is_shared("x.lib", Os::Windows));
    assert!(!is_static("x.dll", true));

    assert!(is_static("libx.a", false));
    assert!(!is_shared("libx.a", Os::Windows));
    assert!(!is_static("x.dll", false));

    assert!(!is_static("notes.txt", false));
    assert!(!is_static("notes.txt", true));
}

#[test]
fn versioned_names_need_a_version() {
    assert!(is_shared("libx.so.1.2.3", Os::Other));
    assert!(!is_shared("libx.so.bak", Os::Other));
}

#[test]
fn pkg_config_output_split() {
    let (cflags, libs) = split_cflags_and_libs("-I/inc -O2 -L/lib -lz -Wl,-rpath,/x -pthread");
    assert_eq!(cflags, vec!["-I/inc", "-O2"]);
    assert_eq!(libs, vec!["-L/lib", "-lz", "-Wl,-rpath,/x", "-pthread"]);
}

#[test]
fn link_flags_are_told_apart() {
    for f in ["-lz", "-L/lib", "-Wl,x", "-pthread", "libz.a", "libz.so", "z.dll", "z.lib"] {
        assert!(is_link_flag(f), "{f}");
    }
    for f in ["-I/inc", "-O2", "-DX", "z.o"] {
        assert!(!is_link_flag(f), "{f}");
    }
}

#[test]
fn find_lib_handles_missing_and_static() {
    for (host, shared, statik) in [(&LINUX, "libx.so", "libx.a"), (&MSVC, "x.dll", "x.lib")] {
        let dir = "/d";
        assert!(find_lib(dir, false, &files(dir, &[]), host).is_err());

        let some = files(dir, &[shared]);
        assert_eq!(find_lib(dir, false, &some, host).unwrap(), format!("/d/{shared}"));
        assert!(find_lib(dir, true, &some, host).is_err());

        let both = files(dir, &[shared, statik]);
        assert_eq!(find_lib(dir, true, &both, host).unwrap(), format!("/d/{statik}"));
    }
}

#[test]
fn the_library_with_the_least_path_counts() {
    for order in [
        ["a.txt", "libb.a", "libc.so", "libd.a", "libe.so"],
        ["libe.so", "libd.a", "libc.so", "libb.a", "a.txt"],
    ] {
        let found = files("/d", &order);
        let libs = collect_libs(&found, &LINUX);
        assert_eq!(libs.statik.as_deref(), Some("/d/libb.a"));
        assert_eq!(libs.shared.as_deref(), Some("/d/libc.so"));
        assert_eq!(find_lib("/d", true, &found, &LINUX).unwrap(), "/d/libb.a");
        assert_eq!(find_lib("/d", false, &found, &LINUX).unwrap(), "/d/libc.so");
    }
}

#[test]
fn manifestless_inherits_parent_and_overrides_src() {
    let parent = Project {
        name: "p".into(),
        language: Language::C,
        compile: Some(Compile {
            cc: Some("gcc".into()),
            standard: Some("c11".into()),
            includes: Some(Flags::Append(vec!["inc".into()])),
            ..Default::default()
        }),
        ..Default::default()
    };

    let mut d = dep("../d");
    d.src = Some(vec!["source".into()]);
    d.includes = Some(vec!["dinc".into()]);
    let child = manifestless_project(&parent, &d, "d", "/p").unwrap();

    assert_eq!(child.ty, ProjectType::Library);
    assert_eq!(child.language, Language::C);
    let compile = child.compile.as_ref().unwrap();
    assert_eq!(compile.src_roots(), vec!["source"]);
    assert_eq!(compile.standard.as_deref(), Some("c11"));
    let inc = compile.includes.as_ref().unwrap().list();
    assert!(inc.contains(&"/p/inc".to_string()));
    assert!(inc.contains(&"dinc".to_string()));
    assert!(!child.want_static());

    let bare = manifestless_project(&parent, &dep("../d"), "d", "/p").unwrap();
    let compile = bare.compile.as_ref().unwrap();
    assert_eq!(compile.src_roots(), vec!["src"]);
    assert!(compile.includes.is_some());
}

#[test]
fn a_parent_without_settings_has_none_to_inherit() {
    assert!(manifestless_project(&Project::default(), &dep("../d"), "d", "/p").is_err());
}

#[test]
fn sources_lie_beside_the_project_or_in_the_cache() {
    assert_eq!(dep_dir("x", &dep("../x"), "/r/app", "/r", "app"), "/r/app/../x");
    assert_eq!(dep_dir("x", &remote("o/x"), "/r", "/r", "."), "/r/.conjure/deps/x");
    assert_eq!(
        dep_dir("x", &remote("o/x"), "/r/app", "/r", "app"),
        "/r/.conjure/deps/app/x"
    );
    assert_eq!(dep_dir("x", &dep("/abs"), "/r", "/r", "."), "/abs");
}

#[test]
fn remotes_have_urls_and_locals_do_not() {
    assert_eq!(dep_url(&remote("o/x"), "x").unwrap(), "git@github.com:o/x.git");
    let d = Dependency { transport: Some(Transport::Https), ..remote("o/x") };
    assert_eq!(dep_url(&d, "x").unwrap(), "https://github.com/o/x.git");
    assert_eq!(dep_url(&dep("."), "x").unwrap_err(), "Dependency `x` has no remote");
}

#[test]
fn include_dirs_come_sorted_by_dependency() {
    let project = Project {
        dependencies: Some(table(vec![
            ("z", Dependency { includes: Some(v(&["inc"])), ..dep("../z") }),
            ("a", dep("../a")),
        ])),
        ..Default::default()
    };
    assert_eq!(
        dep_include_dirs(&project, "/r", "/r"),
        vec!["/r/../a", "/r/../a/include", "/r/../a/build", "/r/../z/inc"]
    );
}

#[test]
fn make_is_run_in_the_dependency() {
    let b = build_dep("/d", &BuildSystem::Make(Some("all".into())), 4).unwrap();
    assert!(b.commands.iter().any(|(_, argv)| argv[0] == "make" && argv.contains(&"-j4".to_string())));
}

#[test]
fn conjure_is_no_outside_build_system() {
    assert!(build_dep("/d", &BuildSystem::Conjure(None), 1).is_err());
}

#[test]
fn conjure_dependencies_must_link() {
    let host = LINUX;
    let parent = Project { link: Linkage::Static, ..Default::default() };
    let ctx =
        ConjureCtx { parent: &parent, dir: "/r", root: "/r", profile: None, threads: 3 };
    let binary = Project { name: "d".into(), ..Default::default() };
    let e = build_conjure_dep(&ctx, &binary, "d", &dep("d"), &host).unwrap_err();
    assert_eq!(e.message, "dependency `d` is a binary conjure project, which can't be linked");

    let shared =
        Project { name: "d".into(), ty: ProjectType::Library, ..Default::default() };
    let e = build_conjure_dep(&ctx, &shared, "d", &dep("d"), &host).unwrap_err();
    assert_eq!(e.message, "dependency `d` is shared but this project links statically");

    let archive = Project { link: Linkage::Static, ..shared };
    let b = build_conjure_dep(&ctx, &archive, "d", &dep("d"), &host).unwrap();
    assert_eq!(b.header, "Building d with conjure");
    assert_eq!(b.dir, "/r/d");
    assert_eq!(b.profile, "default");
    assert_eq!(b.threads, 3);
    assert_eq!(b.lib, "/r/lib/d/default/libd.a");
}

#[test]
fn undefined_profiles_fall_back() {
    let mut profiles = NameMap::new();
    profiles.insert(
        "lib".to_string(),
        Profile { ty: Some(ProjectType::Library), ..Default::default() },
    );
    let p = Project { profiles: Some(profiles), ..Default::default() };
    assert_eq!(built_profile(&p, Some("lib")), "lib");
    assert_eq!(built_profile(&p, Some("nope")), "default");
    assert_eq!(built_profile(&p, None), "default");
    assert!(under_profile(&p, Some("lib")).is_library());
    assert!(!under_profile(&p, Some("nope")).is_library());
}

#[test]
fn local_keys_follow_the_tree() {
    let child = Project { compile: Some(Compile::default()), ..Default::default() };
    let none = Scan { sources: vec![], includes: vec![], locals: NameMap::new() };
    let tree = |h: u64| vec![FileHash { path: "a.c".into(), hash: h }];
    let key = |system: &BuildSystem, h: u64| {
        local_dep_fingerprint(system, &tree(h), &child, "default", &[], &none).unwrap()
    };
    let make = BuildSystem::Make(None);
    assert_eq!(key(&make, 1), key(&make, 1));
    assert_ne!(key(&make, 1), key(&make, 2));
    // Conjure's own builds are keyed by their fingerprint, not by the whole tree.
    let own = BuildSystem::Conjure(None);
    assert_eq!(key(&own, 1), key(&own, 2));
    assert_ne!(key(&own, 1), key(&make, 1));
}

fn run_fetch(pin: &Pin, git_ref: &Option<String>) -> (Vec<String>, Option<Resolved>) {
    let mut log = vec![];
    let mut stage = FetchStage::Start;
    loop {
        let action = resolve_remote(pin, git_ref, &stage);
        let (asked, branch) = match action {
            FetchAction::Clone => {
                log.push("clone".to_string());
                (false, None)
            }
            FetchAction::Checkout(r) => {
                log.push(format!("checkout {r}"));
                (false, None)
            }
            FetchAction::AskCommit => {
                log.push("commit?".to_string());
                (true, None)
            }
            FetchAction::AskBranch => {
                log.push("branch?".to_string());
                (false, Some("main".to_string()))
            }
            FetchAction::Done(r) => return (log, r),
        };
        stage = advance(stage, asked, "abc".to_string(), branch);
    }
}

#[test]
fn locked_fetches_check_out_their_commit() {
    let (log, resolved) = run_fetch(&Pin::Commit("c1".into()), &Some("v1".into()));
    assert_eq!(log, vec!["clone", "checkout c1"]);
    assert!(resolved.is_none());
}

#[test]
fn unlocked_fetches_pin_what_they_find() {
    let (log, resolved) = run_fetch(&Pin::Resolve, &Some("v1".into()));
    assert_eq!(log, vec!["clone", "checkout v1", "commit?", "branch?", "checkout abc"]);
    let r = resolved.unwrap();
    assert_eq!(r.commit, "abc");
    assert_eq!(r.git_ref.as_deref(), Some("main"));

    let (log, _) = run_fetch(&Pin::Resolve, &None);
    assert_eq!(log, vec!["clone", "commit?", "branch?", "checkout abc"]);
}

#[test]
fn a_build_fetches_locks_and_then_reuses() {
    let deps = table(vec![("near", dep("../near")), ("far", remote("o/far"))]);
    let project = Project {
        compile: Some(Compile::default()),
        dependencies: Some(deps.clone()),
        ..Default::default()
    };
    let mut lock = LockFile::default();
    let mut cache = DepCache::default();

    let fetches = {
        let ctx = DepsCtx {
            project: &project,
            dir: "/r",
            root: "/r",
            lock: &lock,
            cache: &cache,
            present: &[],
        };
        plan_fetches(&ctx, &deps).unwrap()
    };
    assert_eq!(fetches.len(), 1);
    assert_eq!(fetches[0].name, "far");
    assert_eq!(fetches[0].dep_dir, "/r/.conjure/deps/far");
    assert_eq!(fetches[0].url, "git@github.com:o/far.git");
    assert!(matches!(fetches[0].pin, Pin::Resolve));

    let mut prints = NameMap::new();
    prints.insert("near".to_string(), "fp".to_string());
    {
        let ctx = DepsCtx {
            project: &project,
            dir: "/r",
            root: "/r",
            lock: &lock,
            cache: &cache,
            present: &[],
        };
        assert_eq!(
            plan_jobs(&ctx, &prints, &deps).unwrap_err(),
            "Dependency `far` is not locked; run `conjure lock`"
        );
    }

    let resolved = vec![Some(Resolved { git_ref: Some("main".into()), commit: "c1".into() })];
    assert_eq!(record_locks(&mut lock, &fetches, &resolved), vec!["far"]);
    assert_eq!(lock.entries().get("far").unwrap().commit, "c1");

    let jobs = {
        let ctx = DepsCtx {
            project: &project,
            dir: "/r",
            root: "/r",
            lock: &lock,
            cache: &cache,
            present: &[],
        };
        plan_jobs(&ctx, &prints, &deps).unwrap()
    };
    assert_eq!(jobs.iter().map(|j| j.name.as_str()).collect::<Vec<_>>(), vec!["near", "far"]);
    match &jobs[0].work {
        DepWork::Local { dep_dir, key } => {
            assert_eq!(dep_dir, "/r/../near");
            assert_eq!(key, "fp:d");
        }
        other => panic!("{other:?}"),
    }
    match &jobs[1].work {
        DepWork::Remote { dep_dir, key } => {
            assert_eq!(dep_dir, "/r/.conjure/deps/far");
            assert_eq!(key, "c1:d");
        }
        other => panic!("{other:?}"),
    }

    let libs = record_builds(&mut cache, ".", &jobs, &v(&["/n.so", "/f.so"]));
    assert_eq!(libs, vec!["/n.so", "/f.so"]);

    let present = v(&["/n.so", "/f.so"]);
    let ctx = DepsCtx {
        project: &project,
        dir: "/r",
        root: "/r",
        lock: &lock,
        cache: &cache,
        present: &present,
    };
    assert!(plan_fetches(&ctx, &deps).unwrap().is_empty());
    let again = plan_jobs(&ctx, &prints, &deps).unwrap();
    assert!(matches!(&again[0].work, DepWork::Cached(l) if l == "/n.so"));
    assert!(matches!(&again[1].work, DepWork::Cached(l) if l == "/f.so"));

    // A static build does not find what a dynamic one cached, and a library that
    // is gone is built again.
    let fixed = Project { link: Linkage::Static, ..project.clone() };
    let ctx = DepsCtx { project: &fixed, ..ctx };
    let jobs = plan_jobs(&ctx, &prints, &deps).unwrap();
    assert!(matches!(&jobs[1].work, DepWork::Remote { key, .. } if key == "c1:s"));
    let ctx = DepsCtx { project: &project, present: &[], ..ctx };
    let fetches = plan_fetches(&ctx, &deps).unwrap();
    assert!(matches!(&fetches[0].pin, Pin::Commit(c) if c == "c1"));
}

#[test]
fn dependencies_without_a_source_stop_the_plan() {
    let deps = table(vec![("x", Dependency::default())]);
    let project = Project::default();
    let ctx = DepsCtx {
        project: &project,
        dir: "/r",
        root: "/r",
        lock: &LockFile::default(),
        cache: &DepCache::default(),
        present: &[],
    };
    assert_eq!(plan_fetches(&ctx, &deps).unwrap_err(), "Dependency `x` has no remote");
}

#[test]
fn dependencies_are_built_step_by_step() {
    let lock = LockFile::default();
    let cache = DepCache::default();
    let step = |p: &Project, jobs: &Vec<DepJob>, e: &DepsEvent| {
        let ctx = DepsCtx {
            project: p,
            dir: "/r",
            root: "/r",
            lock: &lock,
            cache: &cache,
            present: &[],
        };
        build_deps(&ctx, jobs, e)
    };
    let none: Vec<DepJob> = vec![];
    assert!(matches!(
        step(&Project::default(), &none, &DepsEvent::Begin),
        Ok(DepsAction::Nothing)
    ));
    let p = Project { dependencies: Some(table(vec![("x", remote("o/x"))])), ..Default::default() };
    let e = step(&p, &none, &DepsEvent::Begin).unwrap_err();
    assert_eq!(e.message, "No compile section in conjure.kdl");
    assert!(e.help.unwrap().starts_with("Double check"));
    let p = Project { compile: Some(Compile::default()), ..p };
    match step(&p, &none, &DepsEvent::Begin).unwrap() {
        DepsAction::Fetch(f) => assert_eq!(f.len(), 1),
        other => panic!("{other:?}"),
    }
    assert!(matches!(
        step(&p, &none, &DepsEvent::Fetched(v(&["x"]))),
        Ok(DepsAction::SaveLock)
    ));
    assert!(matches!(step(&p, &none, &DepsEvent::Fetched(vec![])), Ok(DepsAction::Plan)));
    assert!(matches!(step(&p, &none, &DepsEvent::Locked), Ok(DepsAction::Plan)));

    let job = |work| DepJob { name: "x".into(), work };
    let jobs = vec![
        job(DepWork::Cached("/l".into())),
        job(DepWork::Local { dep_dir: "/x".into(), key: "k".into() }),
        job(DepWork::Cached("/m".into())),
    ];
    assert!(matches!(step(&p, &jobs, &DepsEvent::Built(0)), Ok(DepsAction::Build(1))));
    assert!(matches!(step(&p, &jobs, &DepsEvent::Built(2)), Ok(DepsAction::Finish)));

    // A static library is fetched for, but builds nothing.
    let archive = Project { ty: ProjectType::Library, link: Linkage::Static, ..p };
    assert!(matches!(step(&archive, &none, &DepsEvent::Locked), Ok(DepsAction::Nothing)));
    assert!(matches!(step(&archive, &none, &DepsEvent::Begin), Ok(DepsAction::Fetch(_))));

    let bad = Project {
        dependencies: Some(table(vec![("x", Dependency::default())])),
        compile: Some(Compile::default()),
        ..Default::default()
    };
    assert_eq!(
        step(&bad, &none, &DepsEvent::Begin).unwrap_err().message,
        "Dependency `x` has no remote"
    );
}

#[test]
fn static_libraries_ask_for_compile_flags_only() {
    let d = Dependency { pkg_config: Some(v(&["zlib"])), ..dep("../z") };
    let p = Project { dependencies: Some(table(vec![("z", d)])), ..Default::default() };
    let q = plan_pkg_config(&p, "/r", "/r", &None);
    assert_eq!(q.len(), 1);
    assert_eq!(q[0].args, vec!["--cflags", "--libs", "zlib"]);
    assert_eq!(q[0].path, "/r/../z/build");

    let q = plan_pkg_config(&p, "/r", "/r", &Some("/usr/pc".to_string()));
    assert_eq!(q[0].path, "/r/../z/build:/usr/pc");

    let fixed = Project { link: Linkage::Static, ..p };
    assert_eq!(
        plan_pkg_config(&fixed, "/r", "/r", &None)[0].args,
        vec!["--cflags", "--libs", "--static", "zlib"]
    );
    assert!(link_deps(&fixed));

    let archive = Project { ty: ProjectType::Library, ..fixed };
    assert_eq!(plan_pkg_config(&archive, "/r", "/r", &None)[0].args, vec!["--cflags", "zlib"]);
    assert!(!link_deps(&archive));

    let answers = v(&["-I/a -lz\n", "-DB -lb"]);
    assert_eq!(
        resolve_pkg_config(&Project::default(), &answers),
        (v(&["-I/a", "-DB"]), v(&["-lz", "-lb"]))
    );
    assert_eq!(resolve_pkg_config(&archive, &answers), (v(&["-I/a", "-DB"]), v(&[])));
}

#[test]
fn pkg_config_failures_name_the_dependency() {
    let f = pkg_start_fault("z", &v(&["zlib", "a"]), "no such file");
    assert_eq!(
        f.message,
        "Failed to run pkg-config for dependency `z` ([\"zlib\", \"a\"]): no such file"
    );
    assert_eq!(
        f.help.as_deref(),
        Some("Install pkg-config, or remove the `pkg_config` field from dependency `z`")
    );
    let f = pkg_fault("z", &v(&["zlib"]), "not found");
    assert_eq!(f.message, "pkg-config failed for dependency `z` ([\"zlib\"]): not found");
    assert_eq!(
        f.help.as_deref(),
        Some("Make sure `[\"zlib\"]` is installed and on PKG_CONFIG_PATH")
    );
}

#[test]
fn fetches_follow_the_lockfile() {
    let project = Project { compile: Some(Compile::default()), ..Default::default() };
    let deps = table(vec![("a", remote("o/a")), ("b", remote("o/b")), ("c", dep("../c"))]);
    let mut lock = LockFile::default();
    lock.lock("a", None, None, None, "c1".into());
    let mut cache = DepCache::default();
    let ctx = DepsCtx {
        project: &project,
        dir: "/p",
        root: "/p",
        lock: &lock,
        cache: &cache,
        present: &[],
    };
    let fetches = plan_fetches(&ctx, &deps).unwrap();
    assert_eq!(fetches.len(), 2);
    assert_eq!(fetches[0].name, "a");
    assert!(matches!(&fetches[0].pin, Pin::Commit(c) if c == "c1"));
    assert_eq!(fetches[1].name, "b");
    assert!(matches!(&fetches[1].pin, Pin::Resolve));

    let found = Resolved { git_ref: Some("main".into()), commit: "c2".into() };
    assert_eq!(record_locks(&mut lock, &fetches, &vec![None, Some(found)]), v(&["b"]));
    assert_eq!(lock.entries().get("a").unwrap().commit, "c1");
    assert_eq!(lock.entries().get("b").unwrap().commit, "c2");
    assert_eq!(lock.entries().get("b").unwrap().git_ref.as_deref(), Some("main"));

    cache.insert(".", "a", "c1:d".into(), "/l/a.so".into());
    cache.insert(".", "b", "c2:d".into(), "/l/b.so".into());
    let present = v(&["/l/a.so", "/l/b.so"]);
    let ctx = DepsCtx {
        project: &project,
        dir: "/p",
        root: "/p",
        lock: &lock,
        cache: &cache,
        present: &present,
    };
    assert!(plan_fetches(&ctx, &deps).unwrap().is_empty());
}
