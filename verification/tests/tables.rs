use conjure::dep_cache::DepCache;
use conjure::diag::{ReadDir, ReadPath};
use conjure::lock::LockFile;
use conjure::names::NameMap;
use conjure::order::sort_texts;
use conjure::proj_parse::{
    Arch, BuildSystem, Flags, Language, Linkage, Project, ProjectType, Remote, Sibling,
    Transport,
};
use conjure::proj_write::{fix_braces, leading_text, manifest_text};
use conjure::text::{
    decimal_text, find_text, hex_text, join_texts, last_part_of, split_once, split_text,
    split_whitespace, strip_suffix, text_lines, text_trim, Cut,
};

fn v(items: &[&str]) -> Vec<String> {
    items.iter().map(|s| s.to_string()).collect()
}

#[test]
fn missing_link_defaults_to_dynamic() {
    let p = Project {
        name: "t".into(),
        language: Language::C,
        ty: ProjectType::Binary,
        link: Linkage::or_dynamic(None),
        ..Default::default()
    };
    assert_eq!(p.link, Linkage::Dynamic);
    assert!(!p.want_static());
    assert_eq!(Linkage::or_dynamic(Some(Linkage::Static)), Linkage::Static);
}

#[test]
fn tables_keep_their_order() {
    let at = |p: &str| Sibling { path: p.to_string() };
    let mut m: NameMap<Sibling> = NameMap::new();
    m.insert("b".to_string(), at("1"));
    m.insert("a".to_string(), at("2"));
    m.insert("b".to_string(), at("3"));
    assert_eq!(m.len(), 2);
    assert_eq!((m.name_at(0), m.value_at(0).path.as_str()), ("b", "3"));
    assert_eq!(m.sorted_keys(), v(&["a", "b"]));
    let mut over: NameMap<Sibling> = NameMap::new();
    over.insert("a".to_string(), at("9"));
    over.insert("c".to_string(), at("8"));
    m.merge(&over);
    assert_eq!(m.get("a").unwrap().path, "9");
    assert_eq!(m.name_at(2), "c");
    m.remove("b");
    assert!(!m.contains_key("b"));
    assert_eq!(m.position_of("b"), m.len());
    m.retain(|n| n == "c");
    assert_eq!(m.len(), 1);
}

#[test]
fn texts_sort_by_code_point() {
    assert_eq!(
        sort_texts(&v(&["b", "a", "", "ab", "B", "é", "z", "a"])),
        v(&["", "B", "a", "a", "ab", "b", "z", "é"])
    );
}

#[test]
fn texts_are_cut_and_joined() {
    assert_eq!(split_text("a||b", Cut::At('|')), v(&["a", "", "b"]));
    assert_eq!(split_text("a/b\\c", Cut::Slash), v(&["a", "b", "c"]));
    assert_eq!(join_texts(&split_text("a||b", Cut::At('|')), "|"), "a||b");
    assert_eq!(split_whitespace("  a\t b\u{a0}c\n"), v(&["a", "b", "c"]));
    assert_eq!(text_lines("a\r\nb\n\nc"), v(&["a", "b", "", "c"]));
    assert_eq!(text_lines("a\n"), v(&["a"]));
    assert!(text_lines("").is_empty());
    assert_eq!(text_trim(" \t a b \n"), "a b");
    assert_eq!(last_part_of("a/b/c", Cut::At('/')), "c");
    assert_eq!(last_part_of("a/b/", Cut::At('/')), "");
    assert_eq!(split_once("a=b=c", "="), Some(("a".to_string(), "b=c".to_string())));
    assert_eq!(split_once("a", "="), None);
    assert_eq!(find_text("xxab", "ab"), Some(2));
    assert_eq!(strip_suffix("a.exe", ".exe"), "a");
    assert_eq!(decimal_text(0), "0");
    assert_eq!(decimal_text(1024), "1024");
    assert_eq!(hex_text(0xbeef, 16), "000000000000beef");
}

#[test]
fn cached_libraries_are_found_under_their_key() {
    let mut c = DepCache::default();
    c.insert(".", "a", "k1".into(), "/l".into());
    assert_eq!(c.hit(".", "a", "k1", |_| true).as_deref(), Some("/l"));
    assert_eq!(c.hit(".", "a", "k1", |_| false), None);
    assert_eq!(c.hit(".", "a", "k2", |_| true), None);
    assert_eq!(c.hit("sub", "a", "k1", |_| true), None);
    c.insert("sub", "a", "k2".into(), "/m".into());
    assert_eq!(c.recorded(".", "a", "k1").as_deref(), Some("/l"));
    c.insert(".", "a", "k3".into(), "/n".into());
    assert_eq!(c.recorded(".", "a", "k1"), None);
    assert_eq!(c.recorded(".", "a", "k3").as_deref(), Some("/n"));
    assert_eq!(c.projects().len(), 2);
}

#[test]
fn unlocking_undoes_locking() {
    let mut l = LockFile::default();
    l.lock("a", None, None, None, "c1".into());
    l.lock("b", Some(Remote::Git("u".into())), Some(Transport::Https), None, "c2".into());
    l.unlock("b");
    assert_eq!(l.commits(), v(&["c1"]));
    l.lock("a", None, None, Some("main".into()), "c9".into());
    assert_eq!(l.commits(), v(&["c9"]));
}

#[test]
fn failures_to_read_say_where() {
    let d = ReadDir { path: "src".into(), source: "gone".into() };
    assert!(d.message().contains("src"));
    let p = ReadPath { path: "conjure.kdl".into(), source: "gone".into() };
    assert!(p.message().contains("conjure.kdl"));
    assert!(!p.help().is_empty() && !d.help().is_empty());
}

#[test]
fn tokens_are_what_the_manifest_says() {
    assert_eq!(format!("type {}", ProjectType::Library.token()), "type library");
    assert_eq!(format!("link {}", Linkage::Static.token()), "link static");
    assert_eq!(Arch::try_from(Arch::X86_64.token().to_string()).unwrap(), Arch::X86_64);
    assert_eq!(Remote::GitHub("o/r".into()).tokens(), v(&["github", "o/r"]));
    let b = BuildSystem::CMake(Some("lib".into()));
    assert_eq!(BuildSystem::try_from(b.tokens()).unwrap(), b);
    let f = Flags::Replace(v(&["-O2"]));
    assert_eq!(Flags::try_from(f.tokens()).unwrap(), f);
}

#[test]
fn new_manifests_explain_their_sections() {
    let doc = kdl::KdlDocument::parse(
        "project {\n  name x\n  compile {\n    standard c11\n  }\n  dependencies {\n  }\n}\n",
    )
    .unwrap();
    let out = manifest_text(doc);
    assert!(out.contains("// compiler & linker settings."), "{out}");
    assert!(out.contains("// external dependencies;"), "{out}");
    assert!(out.contains("standard c11"));
    assert!(!out.contains("// build profiles"));
    assert!(kdl::KdlDocument::parse(&out).is_ok());
    assert!(leading_text("one\ntwo").contains("// two"));
}

#[test]
fn braces_line_up_with_their_block() {
    assert_eq!(fix_braces("a {\n  b {\n    c\n}\n}\n"), "a {\n  b {\n    c\n  }\n}\n");
    assert_eq!(
        fix_braces("a {\n  b {\n  }\n  c {\n  }\n}\n"),
        "a {\n  b {\n  }\n\n  c {\n  }\n}\n"
    );
}
