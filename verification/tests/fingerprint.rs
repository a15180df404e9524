use conjure::fingerprint::{
    dir_key, file_fingerprint, fingerprint, split, FileCache, FileHash, FileList, Scan,
};
use conjure::names::NameMap;
use conjure::pack::{pack_texts, unpack_text};
use conjure::proj_parse::{
    Arch, BuildSystem, Compile, Dependency, Flags, Language, Linkage, Output, Project,
    ProjectType, Test,
};

fn v(items: &[&str]) -> Vec<String> {
    items.iter().map(|s| s.to_string()).collect()
}

fn local_dep(path: &str) -> Dependency {
    Dependency { local: Some(path.into()), ..Default::default() }
}

fn hash(path: &str, hash: u64) -> FileHash {
    FileHash { path: path.into(), hash }
}

fn scan(sources: Vec<FileHash>) -> Scan {
    Scan { sources, includes: vec![], locals: NameMap::new() }
}

fn project() -> Project {
    Project {
        name: "x".into(),
        language: Language::C,
        compile: Some(Default::default()),
        ..Default::default()
    }
}

#[test]
fn fingerprint_is_order_independent_for_deps() {
    let mut a = project();
    let mut b = a.clone();

    let mut m1 = NameMap::new();
    m1.insert("a".to_string(), local_dep("deps/a"));
    m1.insert("b".to_string(), local_dep("deps/b"));
    a.dependencies = Some(m1);

    let mut m2 = NameMap::new();
    m2.insert("b".to_string(), local_dep("deps/b"));
    m2.insert("a".to_string(), local_dep("deps/a"));
    b.dependencies = Some(m2);

    let found = || {
        let mut locals = NameMap::new();
        locals.insert("a".to_string(), FileList { files: vec![hash("deps/a/a.c", 1)] });
        locals.insert("b".to_string(), FileList { files: vec![hash("deps/b/b.c", 2)] });
        Scan { sources: vec![hash("src/main.c", 3)], includes: vec![], locals }
    };

    assert_eq!(
        fingerprint(&a, "default", &[], &[], &found()).unwrap(),
        fingerprint(&b, "default", &[], &[], &found()).unwrap()
    );
}

#[test]
fn file_cache_avoids_rereading_unchanged_files() {
    let mut p = project();
    p.compile.as_mut().unwrap().cc = Some("cc".into());
    let first_text = b"int main(void){return 0;}";
    let other_text = b"int main(void){return 1;}";

    let mut cache = FileCache::default();
    assert_eq!(cache.known("src/main.c", 25, 100), None);
    let h = cache.refresh("src/main.c", 25, 100, first_text);
    let first = fingerprint(&p, "default", &[], &[], &scan(vec![hash("src/main.c", h)])).unwrap();
    assert_eq!(cache.files().len(), 1, "one source cached");

    let again = cache.known("src/main.c", 25, 100).unwrap();
    let second =
        fingerprint(&p, "default", &[], &[], &scan(vec![hash("src/main.c", again)])).unwrap();
    assert_eq!(first, second);

    assert_eq!(cache.known("src/main.c", 25, 200), None);
    let h = cache.refresh("src/main.c", 25, 200, other_text);
    let third = fingerprint(&p, "default", &[], &[], &scan(vec![hash("src/main.c", h)])).unwrap();
    assert_ne!(first, third);
}

#[test]
fn file_lines_are_sorted() {
    let files = vec![hash("b.c", 255), hash("a.c", 1)];
    assert_eq!(
        file_fingerprint(&files),
        vec!["a.c:0000000000000001", "b.c:00000000000000ff"]
    );
    assert_eq!(
        dir_key(&files),
        dir_key(&vec![hash("a.c", 1), hash("b.c", 255)])
    );
}

#[test]
fn every_setting_counts() {
    let base = fingerprint(&project(), "default", &[], &[], &scan(vec![])).unwrap();
    let with = |c: Compile| {
        fingerprint(
            &Project { compile: Some(c), ..project() },
            "default",
            &[],
            &[],
            &scan(vec![]),
        )
        .unwrap()
    };
    let of = |p: Project| fingerprint(&p, "default", &[], &[], &scan(vec![])).unwrap();
    let others = vec![
        fingerprint(&project(), "release", &[], &[], &scan(vec![])).unwrap(),
        fingerprint(&project(), "default", &v(&["c1"]), &[], &scan(vec![])).unwrap(),
        fingerprint(&project(), "default", &[], &v(&["-DX"]), &scan(vec![])).unwrap(),
        fingerprint(&project(), "default", &[], &[], &scan(vec![hash("a.c", 1)])).unwrap(),
        fingerprint(
            &Project { ty: ProjectType::Library, ..project() },
            "default",
            &[],
            &[],
            &scan(vec![]),
        )
        .unwrap(),
        fingerprint(
            &Project { link: Linkage::Static, ..project() },
            "default",
            &[],
            &[],
            &scan(vec![]),
        )
        .unwrap(),
        with(Compile { cc: Some("gcc".into()), ..Default::default() }),
        with(Compile { standard: Some("c11".into()), ..Default::default() }),
        with(Compile { c_flags: Some(Flags::Append(v(&["-O2"]))), ..Default::default() }),
        with(Compile { c_flags: Some(Flags::Replace(v(&["-O2"]))), ..Default::default() }),
        // The same flag in the other list, or elsewhere altogether.
        with(Compile { ld_flags: Some(Flags::Append(v(&["-O2"]))), ..Default::default() }),
        with(Compile { includes: Some(Flags::Append(v(&["-O2"]))), ..Default::default() }),
        with(Compile { src: Some(Flags::Append(v(&["-O2"]))), ..Default::default() }),
        with(Compile { linker: Some("c11".into()), ..Default::default() }),
        with(Compile { linker: Some("gcc".into()), ..Default::default() }),
        with(Compile { arch: Some(Arch::X86), ..Default::default() }),
        with(Compile { arch: Some(Arch::X86_64), ..Default::default() }),
        of(Project { language: Language::Cpp, ..project() }),
        of(Project { name: "y".into(), ..project() }),
        of(Project { artifact: Some("y".into()), ..project() }),
        of(Project {
            output: Some(Output { bin: Some("b".into()), ..Default::default() }),
            ..project()
        }),
        of(Project {
            output: Some(Output { lib: Some("b".into()), ..Default::default() }),
            ..project()
        }),
    ];
    for (i, a) in others.iter().enumerate() {
        assert_ne!(&base, a);
        for b in &others[i + 1..] {
            assert_ne!(a, b);
        }
    }
    assert_eq!(
        fingerprint(&Project::default(), "default", &[], &[], &scan(vec![])).unwrap_err(),
        "no compile section"
    );
}

#[test]
fn commits_are_sorted() {
    assert_eq!(
        fingerprint(&project(), "d", &v(&["b", "a"]), &[], &scan(vec![])).unwrap(),
        fingerprint(&project(), "d", &v(&["a", "b"]), &[], &scan(vec![])).unwrap()
    );
}

#[test]
fn fingerprints_are_taken_apart() {
    let mut deps = NameMap::new();
    deps.insert(
        "z".to_string(),
        Dependency { build: Some(BuildSystem::Make(None)), ..local_dep("z") },
    );
    let p = Project { dependencies: Some(deps), ..project() };
    let mut locals = NameMap::new();
    locals.insert("z".to_string(), FileList { files: vec![hash("z/z.c", 7)] });
    let s = Scan {
        sources: vec![hash("a.c", 1)],
        includes: vec![FileList { files: vec![hash("inc/x.h", 2)] }],
        locals,
    };
    let fp = fingerprint(&p, "default", &[], &[], &s).unwrap();
    let parts = split(&fp);
    assert_eq!(parts.files.len(), 2);
    assert_eq!(parts.files.get("a.c").unwrap(), "0000000000000001");
    assert_eq!(parts.files.get("inc/x.h").unwrap(), "0000000000000002");
    assert!(parts.base.iter().any(|b| b.starts_with("deps:z%pmake")));
    assert!(!parts.files.contains_key("z/z.c"));
    assert_eq!(parts.base.len(), 20);
}

#[test]
fn fingerprints_are_labelled_fields() {
    let c = Compile { standard: Some("c|11".into()), ..Default::default() };
    let p = Project { compile: Some(c), ..project() };
    assert_eq!(
        fingerprint(&p, "default", &[], &[], &scan(vec![hash("a.c", 1)])).unwrap(),
        "profile:default%p|name:x%p|lang:c%p|ty:binary%p|link:dynamic%p|cc:|linker:|\
         std:c%%p11%p|arch:|roots:src%p|tests:|inc:|cflags:|ldflags:|out:|pins:|pkg:|deps:|\
         artifact:|pc:|src:a.c:0000000000000001%p|hdr:|"
    );
}

#[test]
fn separators_cannot_be_forged() {
    let flags = |c: &[&str], ld: &[&str]| {
        let c = Compile {
            c_flags: Some(Flags::Append(v(c))),
            ld_flags: Some(Flags::Append(v(ld))),
            ..Default::default()
        };
        let p = Project { compile: Some(c), ..project() };
        fingerprint(&p, "default", &[], &[], &scan(vec![])).unwrap()
    };
    assert_ne!(flags(&["a", "b"], &[]), flags(&["a|b"], &[]));
    assert_ne!(flags(&["a%pb"], &[]), flags(&["a|b"], &[]));
    assert_ne!(flags(&["-flto"], &[]), flags(&[], &["-flto"]));
    assert_ne!(flags(&["a|ldflags:append|b"], &[]), flags(&["a"], &["b"]));
    assert_ne!(flags(&[""], &[]), flags(&[], &[]));
}

#[test]
fn dependencies_count() {
    let of = |dep: Dependency, files: Vec<FileHash>| {
        let mut deps = NameMap::new();
        deps.insert("d".to_string(), dep);
        let mut locals = NameMap::new();
        locals.insert("d".to_string(), FileList { files });
        let p = Project { dependencies: Some(deps), ..project() };
        fingerprint(&p, "default", &[], &[], &Scan { locals, ..scan(vec![]) }).unwrap()
    };
    let list = |items: &[&str]| Some(v(items));
    let all = vec![
        of(local_dep("d"), vec![]),
        of(local_dep("e"), vec![]),
        of(local_dep("d"), vec![hash("d/a.c", 1)]),
        of(local_dep("d"), vec![hash("d/a.c", 2)]),
        of(Dependency { build: Some(BuildSystem::Make(None)), ..local_dep("d") }, vec![]),
        of(Dependency { build: Some(BuildSystem::CMake(None)), ..local_dep("d") }, vec![]),
        of(
            Dependency { build: Some(BuildSystem::Make(Some("t".into()))), ..local_dep("d") },
            vec![],
        ),
        of(Dependency { build: Some(BuildSystem::Just("t".into())), ..local_dep("d") }, vec![]),
        of(Dependency { includes: list(&["x"]), ..local_dep("d") }, vec![]),
        of(Dependency { pkg_config: list(&["x"]), ..local_dep("d") }, vec![]),
        of(Dependency { src: list(&["x"]), ..local_dep("d") }, vec![]),
        of(Dependency { src: list(&[]), ..local_dep("d") }, vec![]),
    ];
    for (i, a) in all.iter().enumerate() {
        for b in &all[i + 1..] {
            assert_ne!(a, b);
        }
    }
}

#[test]
fn headers_and_tests_count() {
    let with = |includes: Vec<FileList>| {
        fingerprint(&project(), "default", &[], &[], &Scan { includes, ..scan(vec![]) }).unwrap()
    };
    let list = |files: Vec<FileHash>| FileList { files };
    assert_ne!(with(vec![list(vec![hash("a.h", 1)])]), with(vec![list(vec![hash("a.h", 2)])]));
    assert_eq!(
        with(vec![list(vec![hash("a.h", 1)]), list(vec![hash("b.h", 2)])]),
        with(vec![list(vec![hash("b.h", 2), hash("a.h", 1)])])
    );

    let mut tests = NameMap::new();
    tests.insert(
        "t".to_string(),
        Test {
            src: Some(Flags::Append(v(&["src/t.c"]))),
            includes: None,
            c_flags: None,
            ld_flags: None,
        },
    );
    let p = Project { tests: Some(tests), ..project() };
    let found = || scan(vec![hash("src/t.c", 1)]);
    assert_ne!(
        fingerprint(&p, "default", &[], &[], &found()).unwrap(),
        fingerprint(&project(), "default", &[], &[], &found()).unwrap()
    );
}

#[test]
fn lists_are_packed_and_unpacked() {
    for (list, text) in [
        (v(&[]), ""),
        (v(&[""]), "|"),
        (v(&["a", "b"]), "a|b|"),
        (v(&["a|b", "50%"]), "a%pb|50%%|"),
        (v(&["%p"]), "%%p|"),
    ] {
        assert_eq!(pack_texts(&list), text);
        assert_eq!(unpack_text(text), list);
    }
    assert_eq!(unpack_text("a|b"), v(&["a"]));
    let inner = pack_texts(&v(&["x|", "y"]));
    assert_eq!(unpack_text(&unpack_text(&pack_texts(&[inner]))[0]), v(&["x|", "y"]));
}
