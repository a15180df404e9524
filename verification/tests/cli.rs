use conjure::cli::{
    build_project, chosen_profile, created_summary, dependency_exists, edit_dependencies,
    guess_build_system, handle_add, handle_as, handle_init, handle_lock, handle_new,
    handle_remove, handle_update, has_profiles, lock_remote, project_dir, restore_quotes, AddArgs,
    ArchType, BuildSystem, Language, LinkType, LocalOrRemote, Transport, TypeType, Wishes,
};
use conjure::lock::LockFile;
use conjure::names::NameMap;
use conjure::proj_parse::{
    Arch, Dependency, Flags, Linkage, Profile, Project, ProjectType, Remote,
};

fn v(items: &[&str]) -> Vec<String> {
    items.iter().map(|s| s.to_string()).collect()
}

fn no_wishes() -> Wishes {
    Wishes { language: None, standard: None, ty: None, link: None, arch: None }
}

fn add(host: LocalOrRemote, path: &str) -> AddArgs {
    AddArgs {
        local_or_remote: host,
        path_or_url: path.into(),
        build: None,
        transport: None,
        git_ref: None,
        force: false,
    }
}

const MANIFEST: &str = "project {\n  name \"app\"\n  language c\n  type binary\n}\n";

#[test]
fn restore_quotes_keeps_quoted_words_and_bare_ones() {
    let original = "project {\n  name \"meow2\"\n  language \"c\"\n  compile {\n    cc \"\"\n  }\n  dependencies {\n    cheese {\n      transport ssh\n    }\n  }\n}";
    let out = "project {\n  name meow2\n  language c\n  compile {\n    cc \"\"\n  }\n  dependencies {\n    cheese {\n      transport ssh\n    }\n  }\n}";
    let expected = "project {\n  name \"meow2\"\n  language \"c\"\n  compile {\n    cc \"\"\n  }\n  dependencies {\n    cheese {\n      transport ssh\n    }\n  }\n}\n";
    assert_eq!(restore_quotes(original, out), expected);
}

#[test]
fn nothing_is_restored_without_quotes() {
    let out = "  a   b \n\n c";
    assert_eq!(restore_quotes("a b", out), out);
}

#[test]
fn the_first_word_of_a_line_stays_bare() {
    assert_eq!(restore_quotes("x \"c\" \"d\"", "c c d e"), "c \"c\" \"d\" e\n");
    assert_eq!(restore_quotes("x \"c\"", "  c\n"), "  c\n");
}

#[test]
fn new_projects_have_defaults() {
    let p = build_project("x".into(), &no_wishes());
    assert_eq!(p.name, "x");
    assert_eq!(p.ty, ProjectType::Binary);
    assert_eq!(p.link, Linkage::Dynamic);
    let c = p.compile.as_ref().unwrap();
    assert_eq!(c.standard.as_deref(), Some("c11"));
    assert!(c.arch.is_none());
    let profiles = p.profiles.as_ref().unwrap();
    assert_eq!(profiles.len(), 2);
    assert_eq!(
        profiles.get("debug").unwrap().c_flags,
        Some(Flags::Append(v(&["-g", "-O0"])))
    );
    assert_eq!(
        profiles.get("release").unwrap().ld_flags,
        Some(Flags::Append(v(&["-O2", "-flto"])))
    );
    assert!(p.dependencies.as_ref().unwrap().is_empty());
    assert!(p.tests.as_ref().unwrap().is_empty());
    assert!(p.siblings.as_ref().unwrap().is_empty());

    let w = Wishes {
        language: Some(Language::Cpp),
        standard: None,
        ty: Some(TypeType::Library),
        link: Some(LinkType::Static),
        arch: Some(ArchType::X64),
    };
    let p = build_project("y".into(), &w);
    assert!(p.is_library() && p.want_static());
    assert_eq!(p.compile.as_ref().unwrap().standard.as_deref(), Some("c++17"));
    assert_eq!(p.compile.as_ref().unwrap().arch, Some(Arch::X86_64));
}

#[test]
fn summaries_show_what_was_made() {
    assert_eq!(
        created_summary("x", &no_wishes()),
        "Created project \u{1b}[32m\u{1b}[1mx\u{1b}[0m\u{1b}[39m with language \
\u{1b}[34m\u{1b}[1mC\u{1b}[0m\u{1b}[39m, standard \u{1b}[33m\u{1b}[1mc11\u{1b}[0m\u{1b}[39m, type \
\u{1b}[35m\u{1b}[1mbinary\u{1b}[0m\u{1b}[39m, link \u{1b}[35m\u{1b}[1mdynamic\u{1b}[0m\u{1b}[39m, \
and arch \u{1b}[36m\u{1b}[1mnative\u{1b}[0m\u{1b}[39m"
    );
    let w = Wishes {
        language: Some(Language::Cpp),
        standard: Some("c++20".into()),
        ty: Some(TypeType::Library),
        link: Some(LinkType::Static),
        arch: Some(ArchType::Arm64),
    };
    let s = created_summary("y", &w);
    for part in ["C++", "c++20", "library", "static", "arm64"] {
        assert!(s.contains(part), "{part}");
    }
}

#[test]
fn projects_are_not_overwritten_unless_forced() {
    assert_eq!(project_dir("My App"), "./my-app");
    let e = handle_new("My App", &no_wishes(), true, false).err().unwrap();
    assert_eq!(e.message, "Project `My App` already exists");
    assert_eq!(e.help.as_deref(), Some("Use --force to overwrite the project"));
    let c = handle_new("My App", &no_wishes(), true, true).ok().unwrap();
    assert_eq!(c.dir, "./my-app");
    assert_eq!(c.project.name, "My App");

    let c = handle_init(&None, &Some("here".into()), &no_wishes(), &[], false).ok().unwrap();
    assert_eq!((c.dir.as_str(), c.project.name.as_str()), (".", "here"));
    let c = handle_init(&Some("n".into()), &Some("here".into()), &no_wishes(), &[], false)
        .ok()
        .unwrap();
    assert_eq!(c.project.name, "n");
    let c = handle_init(&None, &None, &no_wishes(), &[], false).ok().unwrap();
    assert_eq!(c.project.name, "");
    let here = Some("here".to_string());
    let init = |files: &[&str], force| handle_init(&None, &here, &no_wishes(), &v(files), force);
    assert!(init(&["src", "conjure.kdl"], false).is_err());
    assert!(init(&["src", "conjure.kdl"], true).is_ok());
    assert!(init(&["src", "project.kdl"], false).is_ok());
}

#[test]
fn markers_give_build_systems_away() {
    for (file, system) in [
        ("CMakeLists.txt", BuildSystem::Cmake),
        ("meson.build", BuildSystem::Meson),
        ("configure.ac", BuildSystem::Autotools),
        ("configure", BuildSystem::Autotools),
        ("GNUmakefile", BuildSystem::Make),
        ("makefile", BuildSystem::Make),
        ("justfile", BuildSystem::Just),
        ("Justfile", BuildSystem::Just),
        ("Makefile", BuildSystem::Make),
        ("xmake.lua", BuildSystem::Xmake),
        ("build.ninja", BuildSystem::Ninja),
    ] {
        assert_eq!(guess_build_system(&v(&["README.md", file])), Some(system), "{file}");
    }
    assert_eq!(
        guess_build_system(&v(&["build.ninja", "Makefile", "meson.build"])),
        Some(BuildSystem::Meson)
    );
    assert_eq!(guess_build_system(&v(&["README.md"])), None);
}

#[test]
fn fragments_say_what_was_asked() {
    assert_eq!(
        add(LocalOrRemote::Local, "../libs/greet").fragment(None),
        "greet {\n  local \"../libs/greet\"\n}"
    );
    let a = AddArgs {
        git_ref: Some("v1".into()),
        build: Some(BuildSystem::Just),
        transport: Some(Transport::Https),
        ..add(LocalOrRemote::Github, "o/r")
    };
    assert_eq!(
        a.fragment(Some(BuildSystem::Make)),
        "r {\n  remote github \"o/r\"\n  ref v1\n  transport https\n  build just\n}"
    );
    assert_eq!(
        add(LocalOrRemote::Codeberg, "o/r").fragment(Some(BuildSystem::Make)),
        "r {\n  remote codeberg \"o/r\"\n  transport ssh\n  build make\n}"
    );
    assert_eq!(
        add(LocalOrRemote::Git, "host/r").fragment(None),
        "r {\n  remote git \"host/r\"\n  transport ssh\n}"
    );
    assert_eq!(
        add(LocalOrRemote::Bitbucket, "o/r").url().as_deref(),
        Some("git@bitbucket.org:o/r.git")
    );
    assert_eq!(a.url().as_deref(), Some("https://github.com/o/r.git"));
    assert_eq!(add(LocalOrRemote::Local, "x").url(), None);
}

#[test]
fn adding_and_removing_rewrites_the_manifest() {
    let a = add(LocalOrRemote::Local, "../greet");
    assert_eq!(handle_add(MANIFEST, &a).unwrap(), None);
    let with = edit_dependencies(MANIFEST, &a, None).unwrap();
    assert!(dependency_exists(&with, "greet").unwrap());
    assert!(!dependency_exists(MANIFEST, "greet").unwrap());
    assert!(with.contains("local \"../greet\""));
    assert!(with.contains("name \"app\""));

    let e = handle_add(&with, &a).unwrap_err();
    assert_eq!(e.message, "Dependency `greet` already exists");
    assert_eq!(e.help.as_deref(), Some("Use --force to replace the dependency"));
    let e = edit_dependencies(&with, &a, None).unwrap_err();
    assert_eq!(e.help.as_deref(), Some("Use --force to replace"));

    let forced = AddArgs { force: true, ..add(LocalOrRemote::Local, "/other/greet") };
    assert_eq!(handle_add(&with, &forced).unwrap(), None);
    let replaced = edit_dependencies(&with, &forced, None).unwrap();
    assert!(replaced.contains("/other/greet"));
    assert!(!replaced.contains("../greet"));
    assert_eq!(replaced.matches("greet {").count(), 1);

    let without = handle_remove(&with, "greet").unwrap();
    assert!(!without.contains("greet"));
    assert!(!without.contains("dependencies"));
    assert!(without.contains("name \"app\""));
}

#[test]
fn removing_gives_back_what_was_there() {
    let two = edit_dependencies(MANIFEST, &add(LocalOrRemote::Local, "../a"), None).unwrap();
    let a = add(LocalOrRemote::Github, "o/b");
    let three = edit_dependencies(&two, &a, Some(BuildSystem::Cmake)).unwrap();
    assert!(three.contains("remote github \"o/b\""));
    assert!(three.contains("build cmake"));
    assert_eq!(handle_remove(&three, "b").unwrap(), two);
    assert!(dependency_exists(&handle_remove(&three, "b").unwrap(), "a").unwrap());
}

#[test]
fn names_may_hold_dots() {
    let a = add(LocalOrRemote::Local, "../lib.c++");
    let with = edit_dependencies(MANIFEST, &a, None).unwrap();
    assert_eq!(a.name(), "lib.c++");
    assert!(dependency_exists(&with, "lib.c++").unwrap());
}

#[test]
fn edits_are_refused_with_reasons() {
    let a = add(LocalOrRemote::Local, "../a");
    let e = edit_dependencies("other {\n}\n", &a, None).unwrap_err();
    assert_eq!(e.message, "No project node in conjure.kdl");
    assert_eq!(e.help.as_deref(), Some("Generate a conjure.kdl using `conjure init`"));
    assert!(edit_dependencies("project {\n", &a, None).is_err());
    assert!(dependency_exists("project {\n", "a").is_err());
    assert!(handle_add("project {\n", &a).is_err());
    // A forced addition does not look at the manifest before it fetches.
    assert!(handle_add("project {\n", &AddArgs { force: true, ..add(LocalOrRemote::Local, "a") })
        .is_ok());
    // A name that is no node.
    assert!(edit_dependencies(MANIFEST, &add(LocalOrRemote::Local, "a/="), None).is_err());

    let message = |m: &str| handle_remove(m, "a").unwrap_err().message;
    assert_eq!(message("other {\n}\n"), "No project node in conjure.kdl");
    assert_eq!(message("project\n"), "No children in project node, is your project malformed?");
    assert_eq!(message(MANIFEST), "No dependency node in project, nothing to remove");
    assert_eq!(
        message("project {\n  dependencies\n}\n"),
        "No children in dependencies node, nothing to remove"
    );
    let e = handle_remove("project {\n  dependencies {\n    b {\n    }\n  }\n}\n", "a").unwrap_err();
    assert_eq!(e.message, "Dependency `a` not found");
    assert_eq!(
        e.help.as_deref(),
        Some("Double check if the dependency exists, if not, use `conjure add` to add it")
    );
    assert!(handle_remove("project {\n", "a").is_err());
}

#[test]
fn added_dependencies_are_pinned() {
    let mut lock = LockFile::default();
    add(LocalOrRemote::Local, "../a").record(&mut lock, &None, "c".into());
    assert!(lock.entries().is_empty());
    let a = AddArgs { git_ref: Some("v1".into()), ..add(LocalOrRemote::Github, "o/b") };
    a.record(&mut lock, &Some("main".into()), "c1".into());
    let pin = lock.entries().get("b").unwrap();
    assert_eq!(pin.commit, "c1");
    assert_eq!(pin.git_ref.as_deref(), Some("main"));
    assert_eq!(pin.remote, Some(Remote::GitHub("o/b".into())));
    a.record(&mut lock, &None, "c2".into());
    assert_eq!(lock.entries().get("b").unwrap().git_ref.as_deref(), Some("v1"));
}

fn remote(path: &str) -> Dependency {
    Dependency { remote: Some(Remote::GitHub(path.into())), ..Default::default() }
}

fn with_deps() -> Project {
    let mut d = NameMap::new();
    d.insert("far".to_string(), remote("o/far"));
    d.insert("near".to_string(), Dependency { local: Some("n".into()), ..Default::default() });
    d.insert("also".to_string(), remote("o/also"));
    Project { dependencies: Some(d), ..Default::default() }
}

#[test]
fn locking_prunes_and_lists_the_remotes() {
    let mut lock = LockFile::default();
    lock.lock("gone", None, None, None, "c0".into());
    lock.lock("far", None, None, None, "c1".into());
    let names = handle_lock(&with_deps(), &mut lock);
    assert_eq!(names, Some(v(&["far", "also"])));
    assert_eq!(lock.entries().len(), 1);
    assert!(lock.entries().contains_key("far"));

    assert_eq!(handle_lock(&Project::default(), &mut lock), None);
    assert!(lock.entries().is_empty());
}

#[test]
fn updates_concern_what_is_locked() {
    let p = with_deps();
    let mut lock = LockFile::default();
    let (names, fault) = handle_update(&p, &lock, &None);
    assert!(names.is_empty());
    assert_eq!(fault.unwrap().message, "Dependencies are not locked");

    lock_remote(&mut lock, "far", &remote("o/far"), Some("main".into()), "c1".into());
    lock_remote(&mut lock, "also", &remote("o/also"), None, "c2".into());
    let (names, fault) = handle_update(&p, &lock, &None);
    assert_eq!(names, v(&["far", "also"]));
    assert!(fault.is_none());
    let (names, fault) = handle_update(&p, &lock, &Some("also".into()));
    assert_eq!(names, v(&["also"]));
    assert!(fault.is_none());
    let (names, fault) = handle_update(&p, &lock, &Some("near".into()));
    assert!(names.is_empty());
    assert!(fault.is_some());

    lock_remote(&mut lock, "gone", &remote("o/gone"), None, "c3".into());
    let (names, fault) = handle_update(&p, &lock, &None);
    assert_eq!(names, v(&["far", "also"]));
    assert_eq!(fault.unwrap().message, "dependency `gone` not found in conjure.kdl");
}

#[test]
fn profiles_have_to_exist() {
    let mut m = NameMap::new();
    m.insert("release".to_string(), Profile::default());
    let p = Project { profiles: Some(m), ..Default::default() };
    let none = Project::default();
    let empty = Project { profiles: Some(NameMap::new()), ..Default::default() };
    assert!(has_profiles(&p) && !has_profiles(&none) && !has_profiles(&empty));

    let some = |s: &str| Some(s.to_string());
    assert_eq!(chosen_profile(&p, &some("release"), &some("x")).unwrap(), some("release"));
    assert_eq!(chosen_profile(&p, &None, &some("release")).unwrap(), some("release"));
    assert_eq!(chosen_profile(&p, &None, &None).unwrap(), None);
    let e = chosen_profile(&p, &some("x"), &some("release")).unwrap_err();
    assert_eq!(e.message, "profile `x` not found");

    assert!(handle_as(&p, "release").is_ok());
    assert_eq!(handle_as(&p, "x").unwrap_err().message, "profile `x` not found");
    assert_eq!(handle_as(&empty, "x").unwrap_err().message, "no profiles in conjure.kdl");
}

#[test]
fn quoted_words_come_back() {
    assert_eq!(restore_quotes("x \"a\" \"b\"\n", "x a c b\n"), "x \"a\" c \"b\"\n");
}

#[test]
fn tokens_are_kept_apart() {
    let quoted = "  src \"a/b\" \"c/d\"\n";
    assert_eq!(restore_quotes(quoted, quoted), quoted);
    assert_eq!(restore_quotes(quoted, "src \"a/b\"   \"c/d\" x {"), "src \"a/b\" \"c/d\" x {\n");
    assert_eq!(restore_quotes("\"e\"", "f \"a/b\" e g"), "f \"a/b\" \"e\" g\n");
    // A quote behind a backslash ends nothing.
    let escaped = "c_flags \"-DNAME=\\\"x\\\"\" -g \"/\\\\\" \"c\"\n";
    assert_eq!(restore_quotes(escaped, escaped), escaped);
    assert_eq!(
        restore_quotes(escaped, "c_flags \"-DNAME=\\\"x\\\"\" -g c"),
        "c_flags \"-DNAME=\\\"x\\\"\" -g \"c\"\n"
    );
}

#[test]
fn edited_manifests_can_be_read_and_edited_again() {
    let manifest = "project {\n  name \"p\"\n  compile {\n    src \"a/b\" \"c/d\"\n    c_flags \"-DN=\\\"x y\\\"\" -g\n  }\n}\n";
    let one = edit_dependencies(manifest, &add(LocalOrRemote::Local, "../a"), None).unwrap();
    assert!(one.contains("src \"a/b\" \"c/d\"\n"), "{one}");
    assert!(one.contains("c_flags \"-DN=\\\"x y\\\"\" -g\n"), "{one}");
    let two = edit_dependencies(&one, &add(LocalOrRemote::Github, "o/b"), None).unwrap();
    assert_eq!(handle_remove(&two, "b").unwrap(), one);
    assert!(kdl::KdlDocument::parse(&two).is_ok());
}

#[test]
fn added_names_are_in_the_manifest() {
    let manifest = "project {\n  name \"p\"\n}\n";
    let args = add(LocalOrRemote::Local, "../greet-lib_2");
    let edited = edit_dependencies(manifest, &args, None).unwrap();
    assert!(dependency_exists(&edited, "greet-lib_2").unwrap());
    assert!(edited.contains("name \"p\""));
}
