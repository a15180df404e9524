use conjure::link::{
    binary_path, built_artifact, exe_name, is_static_flag, library_path, link_library_path,
    output_scoped, part_static, pc_file, produce, relative_to, shared_name, LinkInputs,
};
use conjure::names::NameMap;
use conjure::proj_parse::{
    Compile, Language, Linkage, Output, Project, ProjectType, Sibling,
};
use conjure::toolchain::{
    capture_report, default_compiler, detect_msvc_env, Host, MsvcAction, MsvcEvent, Os,
};
use conjure::proj_parse::Arch;

const LINUX: Host = Host { os: Os::Other, msvc_abi: false, visual_studio: false };
const MAC: Host = Host { os: Os::MacOs, msvc_abi: false, visual_studio: false };
const MSVC: Host = Host { os: Os::Windows, msvc_abi: true, visual_studio: true };

fn v(items: &[&str]) -> Vec<String> {
    items.iter().map(|s| s.to_string()).collect()
}

fn project(ty: ProjectType, link: Linkage) -> Project {
    Project {
        name: "x".into(),
        ty,
        link,
        compile: Some(Compile::default()),
        ..Default::default()
    }
}

#[test]
fn artifacts_can_have_another_name() {
    let named = |ty, link| Project { artifact: Some("y".into()), ..project(ty, link) };
    let bin = named(ProjectType::Binary, Linkage::Dynamic);
    assert_eq!(built_artifact(&bin, "/r", "/r", "default", &LINUX), "/r/bin/default/y");
    assert_eq!(built_artifact(&bin, "/r/sub", "/r", "default", &LINUX), "/r/bin/x/default/y");
    let lib = named(ProjectType::Library, Linkage::Dynamic);
    assert_eq!(library_path(&lib, "/r", "default", false, &LINUX), "/r/lib/default/liby.so");
    let archive = named(ProjectType::Library, Linkage::Static);
    assert_eq!(library_path(&archive, "/r", "default", false, &LINUX), "/r/lib/default/liby.a");
}

#[test]
fn libraries_get_a_pkg_config_file() {
    let lib = Project {
        artifact: Some("y".into()),
        version: Some("1.2".into()),
        ..project(ProjectType::Library, Linkage::Dynamic)
    };
    let (path, text) = pc_file(&lib, "/r", "default", false).unwrap();
    assert_eq!(path, "/r/lib/default/y.pc");
    assert_eq!(
        text,
        "prefix=${pcfiledir}\nlibdir=${prefix}\n\nName: x\nDescription: x\nVersion: 1.2\n\
         Libs: -L${libdir} -ly\n"
    );
    let silent = Project { generate_pc: Some(false), ..lib.clone() };
    assert!(pc_file(&silent, "/r", "default", false).is_none());
    let asked = Project { generate_pc: Some(true), ..lib };
    assert!(pc_file(&asked, "/r", "default", true).unwrap().0 == "/r/lib/x/default/y.pc");
    let bin = project(ProjectType::Binary, Linkage::Dynamic);
    assert!(pc_file(&bin, "/r", "default", false).is_none());
}

#[test]
fn artifacts_lie_below_their_profile() {
    let bin = project(ProjectType::Binary, Linkage::Dynamic);
    assert_eq!(built_artifact(&bin, "/r", "/r", "default", &LINUX), "/r/bin/default/x");
    assert_eq!(built_artifact(&bin, "/r/sub", "/r", "dev", &LINUX), "/r/bin/x/dev/x");
    assert_eq!(built_artifact(&bin, "/r/.", "/r", "dev", &LINUX), "/r/bin/dev/x");
    let mut s = NameMap::new();
    s.insert("s".to_string(), Sibling { path: "s".into() });
    let many = Project { siblings: Some(s), ..bin.clone() };
    assert!(output_scoped(&many, "/r", "/r") && !output_scoped(&bin, "/r", "/r"));
    assert_eq!(built_artifact(&many, "/r", "/r", "default", &LINUX), "/r/bin/x/default/x");

    let lib = project(ProjectType::Library, Linkage::Dynamic);
    assert_eq!(library_path(&lib, "/r", "default", false, &LINUX), "/r/lib/default/libx.so");
    assert_eq!(library_path(&lib, "/r", "default", false, &MAC), "/r/lib/default/libx.dylib");
    let archive = project(ProjectType::Library, Linkage::Static);
    assert_eq!(library_path(&archive, "/r", "default", true, &LINUX), "/r/lib/x/default/libx.a");
    assert_eq!(exe_name(Os::Windows, "x"), "x.exe");
    assert_eq!(shared_name(Os::Windows, "x"), "x.dll");

    let out = Project {
        output: Some(Output {
            bin: Some("artifacts".into()),
            lib: Some("artifacts-lib".into()),
            symlink_binaries: None,
        }),
        ..bin
    };
    assert_eq!(binary_path(&out, "/r", "default", false, Os::Other), "/r/artifacts/default/x");
    let out = Project { ty: ProjectType::Library, link: Linkage::Static, ..out };
    assert_eq!(
        library_path(&out, "/r", "default", false, &LINUX),
        "/r/artifacts-lib/default/libx.a"
    );
}

#[test]
fn msvc_links_import_libraries() {
    let lib = Project {
        compile: Some(Compile { cc: Some("cl".into()), ..Default::default() }),
        ..project(ProjectType::Library, Linkage::Dynamic)
    };
    let at = link_library_path(&lib, "/r", "default", false, &MSVC);
    assert!(at.ends_with("x.lib"), "{at}");
    assert!(library_path(&lib, "/r", "default", false, &MSVC).ends_with("x.dll"));
    let gnu = project(ProjectType::Library, Linkage::Dynamic);
    assert_eq!(
        link_library_path(&gnu, "/r", "default", false, &LINUX),
        library_path(&gnu, "/r", "default", false, &LINUX)
    );
}

fn inputs<'a>(
    compile: &'a Compile,
    objects: &'a [String],
    libs: &'a [String],
    extra: &'a [String],
    flags: &'a [String],
) -> LinkInputs<'a> {
    LinkInputs { objects, libs, extra_libs: extra, ld_flags: flags, compile }
}

#[test]
fn binaries_are_linked_by_the_compiler() {
    let c = Compile { cc: Some("gcc".into()), ..Default::default() };
    let (o, l, e, f) = (v(&["a.o"]), v(&["libz.a"]), v(&["-lm"]), v(&["-flto", "-static"]));
    let i = inputs(&c, &o, &l, &e, &f);
    let p = Project { compile: Some(c.clone()), ..project(ProjectType::Binary, Linkage::Dynamic) };
    let plan = produce(&p, "/r", "/r", "default", &i, &LINUX);
    assert_eq!(plan.out_dir, "/r/bin/default");
    assert_eq!(plan.out, "/r/bin/default/x");
    assert_eq!(
        plan.note.as_deref(),
        Some("ignored static link flag for dynamic binary `x`: -static")
    );
    assert_eq!(plan.steps.len(), 1);
    assert_eq!(plan.steps[0].0, "Linking /r/bin/default/x");
    assert_eq!(
        plan.steps[0].1,
        v(&["gcc", "a.o", "libz.a", "-lm", "-flto", "-o", "bin/default/x"])
    );
    assert_eq!(plan.symlink, None);
    assert_eq!(plan.built, "Built /r/bin/default/x");

    let p = Project { link: Linkage::Static, ..p };
    let plan = produce(&p, "/r", "/r", "default", &i, &LINUX);
    assert_eq!(plan.note, None);
    assert_eq!(plan.steps[0].1.iter().filter(|a| *a == "-static").count(), 1);

    let p = Project {
        link: Linkage::Dynamic,
        output: Some(Output { bin: None, lib: None, symlink_binaries: Some(true) }),
        ..p
    };
    let plan = produce(&p, "/r", "/r", "default", &i, &LINUX);
    assert_eq!(plan.symlink.as_deref(), Some("/r/x"));
}

#[test]
fn libraries_are_archived_or_shared() {
    let c = Compile { cc: Some("gcc".into()), ..Default::default() };
    let (o, none) = (v(&["a.o", "b.o"]), v(&[]));
    let i = inputs(&c, &o, &none, &none, &none);
    let p = Project { compile: Some(c.clone()), ..project(ProjectType::Library, Linkage::Static) };
    let plan = produce(&p, "/r", "/r", "default", &i, &LINUX);
    assert_eq!(plan.steps[0].0, "Archiving /r/lib/default/libx.a");
    assert_eq!(plan.steps[0].1, v(&["ar", "rcs", "lib/default/libx.a", "a.o", "b.o"]));
    assert_eq!(plan.steps[1].0, "Indexing /r/lib/default/libx.a");
    assert_eq!(plan.steps[1].1, v(&["ranlib", "lib/default/libx.a"]));

    let p = Project { link: Linkage::Dynamic, ..p };
    let plan = produce(&p, "/r", "/r", "default", &i, &LINUX);
    assert!(plan.steps[0].1.contains(&"-shared".to_string()));
    let plan = produce(&p, "/r", "/r", "default", &i, &MAC);
    assert!(plan.steps[0].1.contains(&"-dynamiclib".to_string()));
}

#[test]
fn static_flags_are_parted() {
    assert!(is_static_flag("-static") && is_static_flag("-Wl,-static"));
    assert!(!is_static_flag("-static-libgcc"));
    assert_eq!(
        part_static(&v(&["-a", "-static", "-b", "-Wl,-static"])),
        (v(&["-a", "-b"]), v(&["-static", "-Wl,-static"]))
    );
    assert_eq!(relative_to("/r/bin/x", "/r"), "bin/x");
    assert_eq!(relative_to("/s/bin/x", "/r"), "/s/bin/x");
}

#[test]
fn default_compiler_is_msvc_when_visual_studio_is_present() {
    assert_eq!(default_compiler(&Language::C, true), "cl");
}

#[test]
fn the_msvc_environment_is_looked_for_step_by_step() {
    let begin = || MsvcEvent::Begin {
        candidates: v(&["/a/vswhere.exe", "/b/vswhere.exe"]),
        is_file: vec![false, true],
    };
    assert!(matches!(detect_msvc_env(Os::Other, Arch::X86, &begin()), MsvcAction::GiveUp));
    match detect_msvc_env(Os::Windows, Arch::X86, &begin()) {
        MsvcAction::Ask { program, args } => {
            assert_eq!(program, "/b/vswhere.exe");
            assert_eq!(args[0], "-latest");
            assert_eq!(args.len(), 7);
        }
        other => panic!("{other:?}"),
    }
    let none = MsvcEvent::Begin { candidates: vec![], is_file: vec![] };
    match detect_msvc_env(Os::Windows, Arch::X86, &none) {
        MsvcAction::Ask { program, .. } => assert_eq!(program, "vswhere.exe"),
        other => panic!("{other:?}"),
    }
    match detect_msvc_env(Os::Windows, Arch::X86, &MsvcEvent::Answered(Some("/vs\r\n".into()))) {
        MsvcAction::Look { install, file } => {
            assert_eq!(install, "/vs");
            assert_eq!(file, "/vs/VC/Auxiliary/Build/vcvarsall.bat");
        }
        other => panic!("{other:?}"),
    }
    for e in [
        MsvcEvent::Answered(None),
        MsvcEvent::Answered(Some("  \n".into())),
        MsvcEvent::Looked { install: "/vs".into(), there: false },
        MsvcEvent::Dumped(None),
    ] {
        assert!(matches!(detect_msvc_env(Os::Windows, Arch::X86, &e), MsvcAction::GiveUp));
    }
    let looked = MsvcEvent::Looked { install: "/vs".into(), there: true };
    for (arch, target) in [
        (Arch::X86, "x86"),
        (Arch::X86_64, "x64"),
        (Arch::Native, "x64"),
        (Arch::Arm64, "arm64"),
    ] {
        match detect_msvc_env(Os::Windows, arch, &looked) {
            MsvcAction::Run { dir, command } => {
                assert_eq!(dir, "/vs/VC/Auxiliary/Build");
                assert_eq!(command, v(&["cmd", "/c", "vcvarsall.bat", target, "&&", "set"]));
            }
            other => panic!("{other:?}"),
        }
    }
    let dump = "Path=C:\\VC\\Tools\\bin\r\nLIB=x\r\nnoise\r\n";
    match detect_msvc_env(Os::Windows, Arch::X86, &MsvcEvent::Dumped(Some(dump.into()))) {
        MsvcAction::Found(vars) => {
            assert_eq!(vars.len(), 2);
            assert_eq!(
                capture_report(Arch::X86, "/vs", &vars),
                v(&[
                    "Conjure: Ran cmd /c vcvarsall.bat x86 && set in /vs/VC/Auxiliary/Build",
                    "Conjure: MSVC install = /vs",
                    "Conjure: 2 env vars captured",
                    "Conjure: captured PATH has cl.exe dir = true",
                ])
            );
        }
        other => panic!("{other:?}"),
    }
    assert_eq!(
        capture_report(Arch::X86, "/vs", &vec![])[3],
        "Conjure: No PATH captured from vcvars!"
    );
}
