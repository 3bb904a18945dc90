use beaver::configurator::configure_clib_project;
use beaver::configurator::get_clib_dependencies;
use beaver::configurator::normalize_dep_name;
use beaver::configurator::ConfigError;
use beaver::configurator::DepPackage;
use beaver::dependency_graph::DependencyType;
use beaver::filesystem::DirReader;

fn listing(files: &[&str]) -> DirReader {
    DirReader::from_files(files.iter().map(|f| f.to_string()).collect())
}

#[test]
fn files_are_filtered_by_extension() {
    let d = listing(&["src/a.c", "src/a.h", "src/b.c", "notes.txt", "x.cc"]);
    assert_eq!(
        d.get_files_with_extension("c"),
        vec!["src/a.c".to_string(), "src/b.c".to_string()]
    );
    assert_eq!(d.get_files_with_extension("h"), vec!["src/a.h".to_string()]);
    assert!(d.get_files_with_extension("o").is_empty());
}

#[test]
fn dependency_names_are_normalized() {
    assert_eq!(normalize_dep_name("author/libfoo"), "libfoo");
    assert_eq!(normalize_dep_name("plain"), "plain");
    assert_eq!(normalize_dep_name("author/libfoo.c"), "libfoo");
    assert_eq!(normalize_dep_name("author/libfoo.h"), "libfoo");
    assert_eq!(normalize_dep_name("a/b/c"), "a");
}

#[test]
fn manifest_dependencies_are_extracted() {
    let manifest = "{\"name\": \"pkg\", \"dependencies\": {\"author/libfoo\": \"1.0\"}}";
    let names = get_clib_dependencies(Some(manifest)).unwrap();
    assert_eq!(names, vec!["libfoo".to_string()]);
}

#[test]
fn missing_manifest_means_no_dependencies() {
    assert!(get_clib_dependencies(None).unwrap().is_empty());
    let no_deps = "{\"name\": \"pkg\"}";
    assert!(get_clib_dependencies(Some(no_deps)).unwrap().is_empty());
    let null_deps = "{\"dependencies\": null}";
    assert!(get_clib_dependencies(Some(null_deps)).unwrap().is_empty());
}

#[test]
fn broken_manifest_is_rejected() {
    match get_clib_dependencies(Some("this is not json")) {
        Err(ConfigError::InvalidManifest) => {}
        _ => panic!("expected an invalid-manifest error"),
    }
    match get_clib_dependencies(Some("{\"dependencies\": 7}")) {
        Err(ConfigError::InvalidManifest) => {}
        _ => panic!("expected an invalid-manifest error"),
    }
}

#[test]
fn project_is_configured_into_a_graph() {
    let src = listing(&["proj/src/app.h", "proj/src/tool.c"]);
    let common = listing(&["proj/src/common/util.c", "proj/src/common/util.h"]);
    let deps = vec![DepPackage {
        dir: "libfoo".to_string(),
        contents: listing(&["proj/deps/libfoo/foo.c", "proj/deps/libfoo/foo.h"]),
        manifest: None,
    }];
    let g = configure_clib_project("proj", &src, &common, &deps).unwrap();

    let exe = g
        .get_roots()
        .into_iter()
        .find(|r| g.get_name(*r) == "tool")
        .expect("executable for tool.c");
    assert_eq!(g.get_type(exe), DependencyType::EXECUTABLE);
    let exe_deps = g.get_dependencies(exe);
    assert_eq!(exe_deps.len(), 1);
    assert_eq!(g.get_name(exe_deps[0]), "tool_lib");
    assert_eq!(g.get_files(exe_deps[0]), vec!["proj/src/tool.c".to_string()]);

    let foo_iface = g.find_interface("libfoo_headers").expect("interface for libfoo");
    assert_eq!(g.get_files(foo_iface), vec!["proj/deps/libfoo/foo.h".to_string()]);
}

#[test]
fn manifest_dependencies_are_resolved_between_packages() {
    let src = listing(&["p/src/root.h", "p/src/main.c"]);
    let common = listing(&["p/src/common/c.c", "p/src/common/c.h"]);
    let deps = vec![
        DepPackage {
            dir: "liba".to_string(),
            contents: listing(&["p/deps/liba/a.c", "p/deps/liba/a.h"]),
            manifest: Some("{\"dependencies\": {\"user/libb\": \"*\"}}".to_string()),
        },
        DepPackage {
            dir: "libb".to_string(),
            contents: listing(&["p/deps/libb/b.c", "p/deps/libb/b.h"]),
            manifest: None,
        },
    ];
    let g = configure_clib_project("p", &src, &common, &deps).unwrap();
    let liba = g
        .find_interface("liba_headers")
        .and_then(|iface| g.get_nodes_that_depend_on(iface).first().copied())
        .expect("liba library");
    assert_eq!(g.get_name(liba), "liba_lib");
    let names: Vec<String> =
        g.get_dependencies(liba).into_iter().map(|d| g.get_name(d)).collect();
    assert!(names.contains(&"libb_headers".to_string()));
}

#[test]
fn unresolved_dependency_is_reported() {
    let src = listing(&["p/src/root.h", "p/src/main.c"]);
    let common = listing(&["p/src/common/c.c", "p/src/common/c.h"]);
    let deps = vec![DepPackage {
        dir: "liba".to_string(),
        contents: listing(&["p/deps/liba/a.c", "p/deps/liba/a.h"]),
        manifest: Some("{\"dependencies\": {\"user/nowhere\": \"*\"}}".to_string()),
    }];
    match configure_clib_project("p", &src, &common, &deps) {
        Err(ConfigError::MissingDependency { name }) => assert_eq!(name, "nowhere"),
        _ => panic!("expected a missing-dependency error"),
    }
}

#[test]
fn interface_without_headers_is_reported() {
    let src = listing(&["p/src/main.c"]);
    let common = listing(&["p/src/common/c.c", "p/src/common/c.h"]);
    match configure_clib_project("p", &src, &common, &vec![]) {
        Err(ConfigError::MissingFiles { name }) => assert_eq!(name, "clib_headers"),
        _ => panic!("expected a missing-files error"),
    }
}
