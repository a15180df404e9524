use conjure::names::NameMap;
use conjure::proj_parse::{
    slugify, Arch, BuildSystem, Compile, Dependency, Flags, Language, Linkage, Profile, Project,
    ProjectType, Remote, Transport,
};

fn v(items: &[&str]) -> Vec<String> {
    items.iter().map(|s| s.to_string()).collect()
}

#[test]
fn slugs_of_slugs_are_the_same() {
    for s in ["My Cool_Project!!", "--a--b--", "", "A1 b2", "Ünï Cödé"] {
        let once = slugify(s);
        assert_eq!(slugify(&once), once);
        let kept: String = once.chars().filter(|c| c.is_alphanumeric()).collect();
        let there: String = s.to_lowercase().chars().filter(|c| c.is_alphanumeric()).collect();
        assert_eq!(kept, there);
    }
    assert_eq!(slugify("Ünï Cödé"), "ünï-cödé");
}

#[test]
fn slugify_collapses_separators() {
    assert_eq!(slugify("My Cool_Project!!"), "my-cool-project");
    assert_eq!(slugify("--a--b--"), "a-b");
    assert_eq!(slugify(""), "");
}

#[test]
fn language_aliases() {
    assert!(matches!(Language::try_from("C".to_string()), Ok(Language::C)));
    assert!(matches!(Language::try_from("c++".to_string()), Ok(Language::Cpp)));
    assert!(matches!(Language::try_from("CPP".to_string()), Ok(Language::Cpp)));
    assert!(Language::try_from("rust".to_string()).is_err());
}

#[test]
fn project_type_and_linkage_parse() {
    assert_eq!(ProjectType::try_from("binary".to_string()).unwrap(), ProjectType::Binary);
    assert_eq!(ProjectType::try_from("Library".to_string()).unwrap(), ProjectType::Library);
    assert!(ProjectType::try_from("dynamic".to_string()).is_err());

    assert_eq!(Linkage::try_from("static".to_string()).unwrap(), Linkage::Static);
    assert_eq!(Linkage::try_from("Dynamic".to_string()).unwrap(), Linkage::Dynamic);
    assert!(Linkage::try_from("both".to_string()).is_err());
}

#[test]
fn flags_list_filters_empty_and_parses_prefix() {
    assert_eq!(
        Flags::try_from(v(&["replace", "-O2", ""])).unwrap(),
        Flags::Replace(v(&["-O2", ""]))
    );
    assert_eq!(Flags::Append(v(&["-g", ""])).list(), vec!["-g".to_string()]);
    assert_eq!(Flags::Append(vec![]).list(), Vec::<String>::new());
}

#[test]
fn src_roots_default_and_custom() {
    assert_eq!(Compile::default().src_roots(), vec!["src".to_string()]);
    let c = Compile { src: Some(Flags::Append(v(&["lib", "extra"]))), ..Default::default() };
    assert_eq!(c.src_roots(), vec!["lib".to_string(), "extra".to_string()]);
}

#[test]
fn with_profile_merges_and_overrides() {
    let mut profiles = NameMap::new();
    profiles.insert(
        "test".to_string(),
        Profile {
            ty: Some(ProjectType::Binary),
            link: Some(Linkage::Static),
            c_flags: Some(Flags::Replace(v(&["-O2"]))),
            src: Some(Flags::Append(v(&["extra"]))),
            ..Default::default()
        },
    );
    let project = Project {
        name: "t".into(),
        language: Language::C,
        ty: ProjectType::Library,
        compile: Some(Compile {
            standard: Some("c11".into()),
            c_flags: Some(Flags::Append(v(&["-Wall"]))),
            src: Some(Flags::Append(v(&["src"]))),
            ..Default::default()
        }),
        profiles: Some(profiles),
        ..Default::default()
    };
    let p = project.profiles.as_ref().unwrap().get("test").unwrap();
    let eff = project.with_profile(Some(p));

    assert_eq!(eff.ty, ProjectType::Binary);
    assert!(eff.want_static());
    let compile = eff.compile.as_ref().unwrap();
    assert_eq!(compile.c_flags, Some(Flags::Replace(v(&["-O2"]))));
    assert_eq!(compile.src_roots(), vec!["src".to_string(), "extra".to_string()]);
    assert_eq!(compile.standard.as_deref(), Some("c11"));
}

#[test]
fn profiles_inherit_from_those_they_extend() {
    let flags = |items: &[&str]| Some(Flags::Append(v(items)));
    let mut profiles = NameMap::new();
    profiles.insert(
        "base".to_string(),
        Profile {
            ty: Some(ProjectType::Library),
            cc: Some("gcc".into()),
            standard: Some("c17".into()),
            artifact: Some("based".into()),
            c_flags: flags(&["-g"]),
            ..Default::default()
        },
    );
    profiles.insert(
        "fast".to_string(),
        Profile {
            standard: Some("c23".into()),
            c_flags: flags(&["-O2"]),
            extends: v(&["base", "nowhere"]),
            ..Default::default()
        },
    );
    profiles.insert(
        "round".to_string(),
        Profile { cc: Some("clang".into()), extends: v(&["fast", "round"]), ..Default::default() },
    );
    let project = Project {
        name: "t".into(),
        compile: Some(Compile {
            linker: Some("ld".into()),
            c_flags: flags(&["-Wall"]),
            ..Default::default()
        }),
        profiles: Some(profiles),
        ..Default::default()
    };
    let under = |name: &str| {
        let p = project.profiles.as_ref().unwrap().get(name).unwrap();
        project.with_profile(Some(p))
    };

    let eff = under("fast");
    assert_eq!(eff.ty, ProjectType::Library);
    assert_eq!(eff.artifact.as_deref(), Some("based"));
    let c = eff.compile.as_ref().unwrap();
    assert_eq!(c.cc.as_deref(), Some("gcc"));
    assert_eq!(c.standard.as_deref(), Some("c23"));
    assert_eq!(c.linker.as_deref(), Some("ld"));
    assert_eq!(c.c_flags.as_ref().unwrap().list(), vec!["-Wall", "-g", "-O2"]);

    let eff = under("round");
    assert_eq!(eff.compile.as_ref().unwrap().cc.as_deref(), Some("clang"));
    assert_eq!(eff.compile.as_ref().unwrap().standard.as_deref(), Some("c23"));
    assert_eq!(eff.ty, ProjectType::Library);
    assert_eq!(under("base").compile.unwrap().standard.as_deref(), Some("c17"));
}

#[test]
fn with_profile_none_is_identity() {
    let project = Project {
        name: "t".into(),
        language: Language::C,
        ty: ProjectType::Library,
        ..Default::default()
    };
    let eff = project.with_profile(None);
    assert_eq!(eff.ty, ProjectType::Library);
    assert_eq!(eff.name, "t");
}

#[test]
fn project_flags_and_dependencies_merge() {
    let mut base = NameMap::new();
    base.insert("a".to_string(), Dependency { local: Some("../a".into()), ..Default::default() });
    let mut more = NameMap::new();
    more.insert("b".to_string(), Dependency { local: Some("../b".into()), ..Default::default() });
    let mut profiles = NameMap::new();
    profiles
        .insert("x".to_string(), Profile { dependencies: Some(more), ..Default::default() });
    let project = Project {
        name: "t".into(),
        dependencies: Some(base),
        profiles: Some(profiles),
        ..Default::default()
    };
    let p = project.profiles.as_ref().unwrap().get("x").unwrap();
    let eff = project.with_profile(Some(p));
    let deps = eff.dependencies.as_ref().unwrap();
    assert!(deps.contains_key("a"));
    assert!(deps.contains_key("b"));
}

#[test]
fn dependency_validate_rules() {
    let remote_only =
        Dependency { remote: Some(Remote::GitHub("o/r".into())), ..Default::default() };
    assert!(remote_only.validate().is_ok());

    let both = Dependency {
        remote: Some(Remote::GitHub("o/r".into())),
        local: Some("../x".into()),
        ..Default::default()
    };
    assert!(both.validate().is_err());

    let neither = Dependency::default();
    assert!(neither.validate().is_err());

    let local_transport = Dependency {
        local: Some("../x".into()),
        transport: Some(Transport::Ssh),
        ..Default::default()
    };
    assert!(local_transport.validate().is_err());
}

#[test]
fn remote_transport_buildsystem_parse() {
    assert_eq!(
        Remote::try_from(v(&["github", "o/r"])).unwrap(),
        Remote::GitHub("o/r".into())
    );
    assert!(Remote::try_from(v(&["github"])).is_err());
    assert!(Remote::try_from(v(&["gitlab", "o/r"])).is_err());

    assert_eq!(Transport::try_from("HTTPS".to_string()).unwrap(), Transport::Https);
    assert!(Transport::try_from("ftp".to_string()).is_err());

    assert_eq!(
        BuildSystem::try_from(v(&["cmake", "libx"])).unwrap(),
        BuildSystem::CMake(Some("libx".into()))
    );
    assert_eq!(BuildSystem::try_from(v(&["conjure"])).unwrap(), BuildSystem::Conjure(None));
    assert_eq!(
        BuildSystem::try_from(v(&["just"])).unwrap(),
        BuildSystem::Just("build".into())
    );
    assert_eq!(
        BuildSystem::try_from(v(&["sh", "-c", "make"])).unwrap(),
        BuildSystem::Custom("sh -c make".into())
    );
}

#[test]
fn arch_aliases() {
    assert_eq!(Arch::try_from("x86".to_string()).unwrap(), Arch::X86);
    assert_eq!(Arch::try_from("i686".to_string()).unwrap(), Arch::X86);
    assert_eq!(Arch::try_from("amd64".to_string()).unwrap(), Arch::X86_64);
    assert_eq!(Arch::try_from("AARCH64".to_string()).unwrap(), Arch::Arm64);
    assert!(Arch::try_from("mips".to_string()).is_err());
}

#[test]
fn profile_arch_override() {
    let mut profiles = NameMap::new();
    profiles.insert("x86".to_string(), Profile { arch: Some(Arch::X86), ..Default::default() });
    let p = Project {
        name: "t".into(),
        compile: Some(Compile { arch: Some(Arch::X86_64), ..Default::default() }),
        profiles: Some(profiles),
        ..Default::default()
    };
    let prof = p.profiles.as_ref().unwrap().get("x86").unwrap();
    assert_eq!(p.with_profile(Some(prof)).compile.unwrap().arch, Some(Arch::X86));
}
