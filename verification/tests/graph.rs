use beaver::dependency_graph::DependencyGraph;
use beaver::dependency_graph::DependencyOptions;
use beaver::dependency_graph::DependencyType;
use beaver::strings::basename_of;
use beaver::strings::ends_with_str;
use beaver::strings::parent_of;
use beaver::strings::trim_suffix;
use beaver::toolchain::compiler_argv;
use beaver::toolchain::linker_argv;
use beaver::toolchain::truncate_chars;

#[test]
fn add_nodes_and_read_back() {
    let mut g = DependencyGraph::new();
    let lib = g.add_library("app_lib", vec!["main.c".to_string()]);
    let hdr = g.add_interface("app_hdr", vec!["include/app.h".to_string()]);
    let exe = g.add_executable("app", vec![]);
    assert_eq!(g.get_name(lib), "app_lib");
    assert_eq!(g.get_name(hdr), "app_hdr");
    assert_eq!(g.get_name(exe), "app");
    assert_eq!(g.get_type(lib), DependencyType::LIBRARY);
    assert_eq!(g.get_type(hdr), DependencyType::INTERFACE);
    assert_eq!(g.get_type(exe), DependencyType::EXECUTABLE);
    assert_eq!(g.get_files(lib), vec!["main.c".to_string()]);
    assert_eq!(g.get_files(hdr), vec!["include/app.h".to_string()]);
    assert!(g.get_files(exe).is_empty());
}

#[test]
fn executables_are_roots() {
    let mut g = DependencyGraph::new();
    let _lib = g.add_library("l", vec![]);
    let e1 = g.add_executable("x", vec![]);
    let e2 = g.add_executable("y", vec![]);
    let roots = g.get_roots();
    assert_eq!(roots.len(), 2);
    assert_eq!(roots[0], e1);
    assert_eq!(roots[1], e2);
}

#[test]
fn requirements_are_stored_in_both_directions() {
    let mut g = DependencyGraph::new();
    let lib = g.add_library("l", vec![]);
    let hdr = g.add_interface("h", vec!["a.h".to_string()]);
    g.add_requirement(lib, hdr);
    let deps = g.get_dependencies(lib);
    assert_eq!(deps.len(), 1);
    assert_eq!(deps[0], hdr);
    let dependants = g.get_nodes_that_depend_on(hdr);
    assert_eq!(dependants.len(), 1);
    assert_eq!(dependants[0], lib);
}

#[test]
fn options_are_attached_to_executables() {
    let mut g = DependencyGraph::new();
    let exe = g.add_executable("app", vec![]);
    assert!(g.get_options(exe).is_none());
    g.set_executable_options(
        exe,
        DependencyOptions::ExecutableOptions {
            link_flags: vec![],
            link_libraries: vec!["curl".to_string()],
        },
    );
    match g.get_options(exe) {
        Some(DependencyOptions::ExecutableOptions { link_flags, link_libraries }) => {
            assert!(link_flags.is_empty());
            assert_eq!(link_libraries, vec!["curl".to_string()]);
        }
        None => panic!("options vanished"),
    }
}

#[test]
fn find_interface_matches_name_suffix() {
    let mut g = DependencyGraph::new();
    let _lib = g.add_library("foo_headers", vec![]);
    let first = g.add_interface("deps/foo_headers", vec!["a.h".to_string()]);
    let _second = g.add_interface("other/foo_headers", vec!["b.h".to_string()]);
    assert_eq!(g.find_interface("foo_headers"), Some(first));
    assert_eq!(g.find_interface("missing_headers"), None);
}

#[test]
fn string_helpers_split_paths() {
    assert_eq!(parent_of("include/app.h"), "include");
    assert_eq!(parent_of("a/b/c.h"), "a/b");
    assert_eq!(parent_of("app.h"), "");
    assert_eq!(basename_of("src/dir/main.c"), "main.c");
    assert_eq!(basename_of("main.c"), "main.c");
    assert_eq!(basename_of("dir/"), "");
    assert_eq!(trim_suffix("main.c", ".c"), "main");
    assert_eq!(trim_suffix("main.c.c", ".c"), "main");
    assert_eq!(trim_suffix("main.h", ".c"), "main.h");
    assert!(ends_with_str("include/app.h", ".h"));
    assert!(!ends_with_str("app.h", ".c"));
    assert!(ends_with_str("x", ""));
}

#[test]
fn duplicate_names_are_detected_per_kind() {
    let mut g = DependencyGraph::new();
    g.add_library("x", vec![]);
    assert!(g.check_names_unique());
    // the same name under another kind is still unique per kind
    g.add_interface("x", vec!["a.h".to_string()]);
    assert!(g.check_names_unique());
    g.add_library("x", vec![]);
    assert!(!g.check_names_unique());
}

#[test]
fn toolchain_argument_lists_are_exact() {
    let argv = compiler_argv(
        "main.c",
        &vec!["inc1".to_string(), "inc2".to_string()],
        "bd/main.c.o",
    );
    assert_eq!(argv, vec!["main.c", "-c", "-I", "inc1", "-I", "inc2", "-o", "bd/main.c.o"]);
    let argv = linker_argv(
        &vec!["a.o".to_string(), "b.o".to_string()],
        &vec!["curl".to_string()],
        "bd/app",
    );
    assert_eq!(argv, vec!["a.o", "b.o", "-lcurl", "-o", "bd/app"]);
    assert_eq!(truncate_chars("abcdef", 4), "abcd");
    assert_eq!(truncate_chars("ab", 4), "ab");
}
