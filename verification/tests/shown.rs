use conjure::git::{cache_dir, remote_url};
use conjure::names::NameMap;
use conjure::proj::{make_proj, std_major, CPP23_HELLO, CPP_HELLO, C_HELLO};
use conjure::proj_parse::{Compile, Language, Linkage, Output, Project, ProjectType, Sibling};
use conjure::ui::{
    command_lines, exit_code, exit_fault, fetch_label, mark, set_verbose, spawn_fault, status_of,
    wrap, StepStatus, Verbosity, ENDED_BY_SIGNAL,
};

fn v(items: &[&str]) -> Vec<String> {
    items.iter().map(|s| s.to_string()).collect()
}

#[test]
fn status_lines_are_marked() {
    assert_eq!(
        mark(Some(&StepStatus::Success), "ok"),
        "\u{1b}[1m\u{1b}[32m✓\u{1b}[39m\u{1b}[0m ok"
    );
    assert_eq!(
        mark(Some(&StepStatus::Failure), "no"),
        "\u{1b}[1m\u{1b}[31m✗\u{1b}[39m\u{1b}[0m no"
    );
    assert_eq!(
        mark(Some(&StepStatus::Info), "hm"),
        "\u{1b}[1m\u{1b}[36mℹ\u{1b}[39m\u{1b}[0m hm"
    );
    assert_eq!(mark(None, "bare"), "bare");
    assert_eq!(status_of(true), StepStatus::Success);
    assert_eq!(status_of(false), StepStatus::Failure);
    assert_eq!(wrap(true, "Locking x"), "✓ Locking x");
    assert_eq!(wrap(false, "Locking x"), "✗ Locking x");
}

#[test]
fn fetch_labels_line_up() {
    assert_eq!(fetch_label("ab", 4), "Fetching ab   ");
    assert_eq!(fetch_label("abcd", 4), "Fetching abcd ");
    assert_eq!(fetch_label("äb", 4).chars().count(), 14);
    assert_eq!(fetch_label("longer", 0), "Fetching longer");
}

#[test]
fn commands_are_shown_when_asked() {
    let mut level = Verbosity { level: 0 };
    let env = vec![("K".to_string(), "V".to_string())];
    let args = v(&["gcc", "-c", "a.c"]);
    assert!(command_lines(&level, "/d", &args, &env).is_empty());
    set_verbose(&mut level, 1);
    assert_eq!(command_lines(&level, "/d", &args, &env), vec!["(cd /d && gcc -c a.c)"]);
    set_verbose(&mut level, 2);
    assert_eq!(command_lines(&level, "/d", &args, &env), vec!["(cd /d && gcc -c a.c)", "  K=V"]);
}

#[test]
fn failed_commands_are_reported() {
    let f = spawn_fault(&v(&["nocc", "-v"]), "not found");
    assert_eq!(f.message, "Failed to run `nocc -v`: not found");
    assert_eq!(f.help.as_deref(), Some("Is it in path?"));
    let (above, f) = exit_fault("/d", &v(&["make"]), 2);
    assert_eq!(above, "Failed to run `make`");
    assert_eq!(f.message, "`make` failed in /d with exit status: 2");
    assert_eq!(f.help.as_deref(), Some("Check the output above for more information"));
    assert!(exit_fault("/d", &v(&["make"]), -1073741819).1.message.ends_with(": -1073741819"));
    assert!(exit_fault("/d", &v(&["make"]), i32::MIN).1.message.ends_with(": -2147483648"));
    assert_eq!(exit_code(true, Some(0)), None);
    assert_eq!(exit_code(false, Some(3)), Some(3));
    assert_eq!(exit_code(true, None), None);
    assert_eq!(exit_code(false, None), Some(ENDED_BY_SIGNAL));
}

#[test]
fn standards_have_versions() {
    assert_eq!(std_major("c++23"), Some(23));
    assert_eq!(std_major("gnu++20"), Some(20));
    assert_eq!(std_major("c++2a"), None);
    assert_eq!(std_major("c11"), None);
    assert_eq!(std_major("c++"), None);
    assert_eq!(std_major("c+++17"), Some(17));
    assert_eq!(std_major("c++4294967295"), Some(4294967295));
    assert_eq!(std_major("c++4294967296"), None);
    assert_eq!(std_major("c++0000000000000000000000017"), Some(17));
}

#[test]
fn scaffolds_greet_in_their_language() {
    let with = |language, standard: Option<&str>| Project {
        language,
        compile: Some(Compile {
            standard: standard.map(|s| s.to_string()),
            ..Default::default()
        }),
        ..Default::default()
    };
    let s = make_proj("./x", &with(Language::C, Some("c11")));
    assert_eq!(s.dirs, vec!["./x/src", "./x/include"]);
    assert_eq!(s.source, "./x/src/main.c");
    assert_eq!(s.contents, C_HELLO);
    assert_eq!(s.manifest, "./x/conjure.kdl");
    let s = make_proj("./x", &with(Language::Cpp, Some("c++17")));
    assert_eq!((s.source.as_str(), s.contents), ("./x/src/main.cpp", CPP_HELLO));
    assert_eq!(make_proj(".", &with(Language::Cpp, Some("c++23"))).contents, CPP23_HELLO);
    for (standard, contents) in [
        ("c++98", CPP_HELLO),
        ("gnu++98", CPP_HELLO),
        ("c++03", CPP_HELLO),
        ("c++20", CPP_HELLO),
        ("gnu++23", CPP23_HELLO),
        ("c++26", CPP23_HELLO),
    ] {
        assert_eq!(make_proj(".", &with(Language::Cpp, Some(standard))).contents, contents);
    }
    assert_eq!(make_proj(".", &with(Language::Cpp, None)).contents, CPP_HELLO);
    assert!(C_HELLO.starts_with("#include <stdio.h>\n\nint main(void) {\n  puts("));
    assert!(CPP_HELLO.contains("std::cout << \"Hello, world!\\n\";"));
    assert!(CPP23_HELLO.starts_with("import std;\n"));
}

#[test]
fn hosts_have_urls() {
    assert_eq!(cache_dir(), ".conjure/deps");
    assert_eq!(remote_url("codeberg", "o/r", "https"), "https://codeberg.org/o/r.git");
    assert_eq!(remote_url("github", "o/r", "ssh"), "git@github.com:o/r.git");
    assert_eq!(remote_url("bitbucket", "o/r", "ssh"), "git@bitbucket.org:o/r.git");
    // Anywhere else the path is the whole address.
    assert_eq!(remote_url("git", "https://h/r.git", "https"), "https://h/r.git");
    assert_eq!(remote_url("git", "/tmp/upstream", "ssh"), "/tmp/upstream");
}

#[test]
fn projects_carry_their_siblings_and_output() {
    let mut s = NameMap::new();
    s.insert("a".to_string(), Sibling { path: "a".into() });
    let p = Project {
        ty: ProjectType::Library,
        link: Linkage::Static,
        siblings: Some(s),
        output: Some(Output { bin: None, lib: Some("l".into()), symlink_binaries: None }),
        ..Default::default()
    };
    let q = p.clone();
    assert_eq!(q.siblings.unwrap().get("a").unwrap().path, "a");
    assert_eq!(q.output.unwrap().lib.as_deref(), Some("l"));
}
