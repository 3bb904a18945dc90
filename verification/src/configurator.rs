//! Builds the dependency graph of a conventional C project layout: a source
//! tree whose root C files become executables, a common library, and a flat
//! directory of dependency packages, each with a manifest naming its own
//! dependencies. Directory listings and manifest texts are handed in as
//! plain values; only the JSON parsing of a manifest is delegated outside.
use vstd::prelude::*;

use crate::dependency_graph::acyclic;
use crate::dependency_graph::graph_ready;
use crate::dependency_graph::lemma_rank_acyclic;
use crate::dependency_graph::lemma_rank_push;
use crate::dependency_graph::lemma_rank_requirement;
use crate::dependency_graph::lemma_rank_same_edges;
use crate::dependency_graph::rank_respecting;
use crate::dependency_graph::DependencyNode;
use crate::dependency_graph::lemma_ready_parts_push;
use crate::dependency_graph::lemma_ready_parts_requirement;
use crate::dependency_graph::DependencyGraph;
use crate::dependency_graph::DependencyOptions;
use crate::dependency_graph::DependencyType;
use crate::dependency_graph::Ref;
use crate::filesystem::spec_files_with_extension;
use crate::filesystem::DirReader;
use crate::strings::basename_of;
use crate::strings::spec_basename;
use crate::strings::concat_str;
use crate::strings::first_slash_index;
use crate::strings::last_slash_index;
use crate::strings::lemma_first_slash_from_props;
use crate::strings::lemma_last_slash_at_props;
use crate::strings::lemma_push_deep_view;
use crate::strings::spec_first_slash;
use crate::strings::spec_last_slash;
use crate::strings::spec_trim_suffix;
use crate::strings::trim_suffix;

verus! {

/// Why a project cannot be configured: a package manifest that does not
/// parse as an object, an interface target without a single header, or a
/// manifest dependency with no matching interface target.
#[derive(Debug)]
pub enum ConfigError {
    InvalidManifest,
    MissingFiles { name: String },
    MissingDependency { name: String },
}

/// One package under the project's dependency directory: its name, its
/// directory listing, and its manifest text if it has one.
#[derive(Debug)]
pub struct DepPackage {
    pub dir: String,
    pub contents: DirReader,
    pub manifest: Option<String>,
}

/// What parsing a package manifest yields: `None` when the text is not
/// JSON, or its `dependencies` field is present, non-null and not an
/// object; otherwise the keys of that object, in its iteration order, the
/// empty sequence when the field is absent or null. A function of the text
/// alone.
pub uninterp spec fn manifest_dep_keys(s: Seq<char>) -> Option<Seq<Seq<char>>>;

/// Relies on `serde_json::from_str`, `Value::get`, `Value::is_null`,
/// `Value::as_object` and `Map::keys`: parses the manifest text and hands
/// out the keys of its `dependencies` object, exactly as
/// `manifest_dep_keys` names them.
#[verifier::external_body]
fn manifest_dependency_keys(s: &str) -> (r: Option<Vec<String>>)
    ensures
        match r {
            Some(keys) => manifest_dep_keys(s@) matches Some(ks) && keys.deep_view() == ks,
            None => manifest_dep_keys(s@) is None,
        },
{
    let parsed: serde_json::Value = match serde_json::from_str(s) {
        Ok(v) => v,
        Err(_) => return None,
    };
    match parsed.get("dependencies") {
        None => Some(Vec::new()),
        Some(d) if d.is_null() => Some(Vec::new()),
        Some(d) => d.as_object().map(|m| m.keys().cloned().collect()),
    }
}

/// How a manifest dependency name is reduced to a target name: trailing
/// `.c` and `.h` repetitions go, and of a `user/name` pair the part after
/// the slash is kept, otherwise everything before the first slash.
pub open spec fn spec_normalize_dep_name(s: Seq<char>) -> Seq<char> {
    let t = spec_trim_suffix(spec_trim_suffix(s, seq!['.', 'c']), seq!['.', 'h']);
    let f = spec_first_slash(t);
    let l = spec_last_slash(t);
    if f < 0 {
        t
    } else if f == l {
        t.skip(f + 1)
    } else {
        t.take(f)
    }
}

pub open spec fn spec_normalize_all(keys: Seq<Seq<char>>) -> Seq<Seq<char>> {
    keys.map_values(|k: Seq<char>| spec_normalize_dep_name(k))
}

/// Reduces one manifest dependency name to the name of its interface
/// target.
pub fn normalize_dep_name(name: &str) -> (r: String)
    ensures
        r@ == spec_normalize_dep_name(name@),
{
    let t1 = trim_suffix(name, ".c");
    let t2 = trim_suffix(t1.as_str(), ".h");
    proof {
        reveal_strlit(".c");
        reveal_strlit(".h");
        assert(".c"@ =~= seq!['.', 'c']);
        assert(".h"@ =~= seq!['.', 'h']);
    }
    let fo = first_slash_index(t2.as_str());
    let lo = last_slash_index(t2.as_str());
    proof {
        lemma_first_slash_from_props(t2@, 0);
        if t2@.len() > 0 {
            lemma_last_slash_at_props(t2@, t2@.len() - 1);
        }
    }
    match (fo, lo) {
        (None, _) => t2,
        (Some(f), Some(l)) => {
            let n2 = t2.as_str().unicode_len();
            if f == l {
                let sub = t2.as_str().substring_char(f + 1, n2);
                proof {
                    assert(t2@.subrange(f + 1, n2 as int) =~= t2@.skip(f + 1));
                }
                sub.to_owned()
            } else {
                let sub = t2.as_str().substring_char(0, f);
                proof {
                    assert(t2@.subrange(0, f as int) =~= t2@.take(f as int));
                }
                sub.to_owned()
            }
        },
        (Some(_), None) => {
            proof {
                assert(false);
            }
            t2
        },
    }
}

/// The dependency names a package manifest declares: the keys of its
/// `dependencies` object, each reduced to a target name. A package without
/// a manifest, or whose manifest has no `dependencies` object, declares
/// none.
pub fn get_clib_dependencies(manifest: Option<&str>) -> (r: Result<Vec<String>, ConfigError>)
    ensures
        match manifest {
            None => r matches Ok(v) && v@.len() == 0,
            Some(m) => match manifest_dep_keys(m@) {
                Some(keys) => r matches Ok(v) && v.deep_view() == spec_normalize_all(keys),
                None => r matches Err(e) && e is InvalidManifest,
            },
        },
{
    let content = match manifest {
        Some(c) => c,
        None => {
            let v: Vec<String> = Vec::new();
            return Ok(v);
        },
    };
    let keys = match manifest_dependency_keys(content) {
        Some(keys) => keys,
        None => {
            return Err(ConfigError::InvalidManifest);
        },
    };
    let kn = keys.len();
    let mut dependency_names: Vec<String> = Vec::new();
    let mut j: usize = 0;
    while j < kn
        invariant
            kn == keys@.len(),
            j <= kn,
            dependency_names.deep_view() == spec_normalize_all(keys.deep_view().take(j as int)),
        decreases kn - j,
    {
        let ghost out0 = dependency_names;
        let name = normalize_dep_name(keys[j].as_str());
        let ghost xg = name;
        dependency_names.push(name);
        proof {
            lemma_push_deep_view(out0, dependency_names, xg);
            assert(dependency_names.deep_view() =~= spec_normalize_all(
                keys.deep_view().take(j + 1),
            ));
        }
        j += 1;
    }
    proof {
        assert(keys.deep_view().take(kn as int) =~= keys.deep_view());
    }
    Ok(dependency_names)
}


/// What configuration builds for the `k`-th root C source: an executable
/// named after the source's basename, whose one dependency is the companion
/// `<name>_lib` library holding exactly that source, wired to the
/// `clib_headers` interface and the `common_lib` library.
pub open spec fn root_shape(
    arena: Seq<DependencyNode>,
    roots: Seq<Ref>,
    srcs: Seq<Seq<char>>,
    k: int,
) -> bool {
    let e = roots[k].idx as int;
    let src = srcs[k];
    let ename = spec_basename(spec_trim_suffix(src, seq!['.', 'c']));
    &&& arena[e].name@ == ename
    &&& arena[e].requires@.len() == 1
    &&& {
        let l = arena[e].requires@[0].idx as int;
        &&& 0 <= l < arena.len()
        &&& arena[l].dep_type == DependencyType::LIBRARY
        &&& arena[l].name@ == ename + "_lib"@
        &&& arena[l].files.deep_view() == seq![src]
        &&& arena[l].requires@.len() == 2
        &&& arena[l].requires@[0].idx < arena.len()
        &&& arena[arena[l].requires@[0].idx as int].name@ == "clib_headers"@
        &&& arena[arena[l].requires@[0].idx as int].dep_type == DependencyType::INTERFACE
        &&& arena[l].requires@[1].idx < arena.len()
        &&& arena[arena[l].requires@[1].idx as int].name@ == "common_lib"@
        &&& arena[arena[l].requires@[1].idx as int].dep_type == DependencyType::LIBRARY
    }
}

/// The root and its companion stand past the fixed preamble nodes and below
/// `bound`: later construction never touches them.
spec fn root_shape_sep(arena: Seq<DependencyNode>, roots: Seq<Ref>, k: int, bound: int) -> bool {
    &&& 2 <= roots[k].idx < bound
    &&& arena[roots[k].idx as int].requires@.len() == 1
    &&& 2 <= arena[roots[k].idx as int].requires@[0].idx < bound
}

/// Every interface node sits at the bottom of the construction's rank
/// order.
spec fn ifaces_rank_zero(arena: Seq<DependencyNode>, rank: Seq<int>) -> bool {
    forall|i: int|
        0 <= i < arena.len() && (#[trigger] arena[i]).dep_type == DependencyType::INTERFACE
            ==> rank[i] == 0
}

proof fn lemma_ifz_push(arena: Seq<DependencyNode>, node: DependencyNode, rank: Seq<int>, v: int)
    requires
        rank.len() == arena.len(),
        ifaces_rank_zero(arena, rank),
        node.dep_type == DependencyType::INTERFACE ==> v == 0,
    ensures
        ifaces_rank_zero(arena.push(node), rank.push(v)),
{
    let a2 = arena.push(node);
    let r2 = rank.push(v);
    assert forall|i: int|
        0 <= i < a2.len() && (#[trigger] a2[i]).dep_type == DependencyType::INTERFACE implies r2[i]
        == 0 by {
        if i < arena.len() {
            assert(a2[i] == arena[i]);
            assert(r2[i] == rank[i]);
        }
    }
}

proof fn lemma_ifz_same(a1: Seq<DependencyNode>, a2: Seq<DependencyNode>, rank: Seq<int>)
    requires
        a1.len() == a2.len(),
        forall|i: int| 0 <= i < a1.len() ==> (#[trigger] a2[i]).dep_type == a1[i].dep_type,
        ifaces_rank_zero(a1, rank),
    ensures
        ifaces_rank_zero(a2, rank),
{
    assert forall|i: int|
        0 <= i < a2.len() && (#[trigger] a2[i]).dep_type == DependencyType::INTERFACE implies rank[i] == 0 by {
        assert(a1[i].dep_type == DependencyType::INTERFACE);
    }
}

/// Loads a project laid out in the conventional package style and returns
/// its dependency graph, ready for the scheduler: root sources become
/// executables over companion libraries, the common directory becomes a
/// library, and each dependency package a library with its interface.
pub fn configure_clib_project(
    directory: &str,
    src_dir_contents: &DirReader,
    common_dir_contents: &DirReader,
    dep_dirs: &Vec<DepPackage>,
) -> (r: Result<DependencyGraph, ConfigError>)
    ensures
        r matches Ok(g) ==> graph_ready(&g),
        r matches Ok(g) ==> acyclic(&g),
        // the configured shape, per root source: executable over companion
        // library over the shared interface and the common library
        r matches Ok(g) ==> forall|k: int|
            0 <= k < g.roots@.len() ==> #[trigger] root_shape(
                g.arena@,
                g.roots@,
                spec_files_with_extension(src_dir_contents@, "c"@),
                k,
            ),
        r matches Ok(g) ==> g.roots@.len() == crate::filesystem::spec_files_with_extension(
            src_dir_contents@,
            "c"@,
        ).len(),
        r matches Ok(g) ==> forall|k: int|
            0 <= k < g.roots@.len() ==> g.arena@[(#[trigger] g.roots@[k]).idx as int].dep_type
                == DependencyType::EXECUTABLE,
        // every executable links against curl and carries no extra flags
        r matches Ok(g) ==> forall|k: int|
            0 <= k < g.roots@.len() ==> (g.arena@[(#[trigger] g.roots@[k]).idx as int].options
                matches Some(DependencyOptions::ExecutableOptions { link_flags, link_libraries })
                && link_flags.deep_view() == Seq::<Seq<char>>::empty()
                && link_libraries.deep_view() == seq!["curl"@]),
        // configuration fails only on bad inputs: a listing without headers,
        // a manifest that does not parse to an object, or a declared
        // dependency (which may then fail to resolve)
        r is Err ==> {
            ||| spec_files_with_extension(src_dir_contents@, "h"@).len() == 0
            ||| spec_files_with_extension(common_dir_contents@, "h"@).len() == 0
            ||| exists|p: int|
                0 <= p < dep_dirs@.len() && spec_files_with_extension(
                    (#[trigger] dep_dirs@[p]).contents@,
                    "h"@,
                ).len() == 0
            ||| exists|p: int|
                0 <= p < dep_dirs@.len() && ((#[trigger] dep_dirs@[p]).manifest matches Some(m)
                    && manifest_dep_keys(m@) is None)
            ||| exists|p: int|
                0 <= p < dep_dirs@.len() && ((#[trigger] dep_dirs@[p]).manifest matches Some(m)
                    && manifest_dep_keys(m@) matches Some(keys) && keys.len() > 0)
        },
        // with headers everywhere, parseable manifests and no declared
        // dependencies, configuration cannot fail
        (spec_files_with_extension(src_dir_contents@, "h"@).len() > 0
            && spec_files_with_extension(common_dir_contents@, "h"@).len() > 0 && (forall|p: int|
            0 <= p < dep_dirs@.len() ==> spec_files_with_extension(
                (#[trigger] dep_dirs@[p]).contents@,
                "h"@,
            ).len() > 0) && (forall|p: int|
            0 <= p < dep_dirs@.len() ==> match (#[trigger] dep_dirs@[p]).manifest {
                None => true,
                Some(m) => manifest_dep_keys(m@) matches Some(keys) && keys.len() == 0,
            })) ==> r is Ok,
{
    let mut dependency_graph = DependencyGraph::new();
    // ghost witness that every edge descends a fixed rank order:
    // interfaces 0, package libraries 1, the common library 2, companion
    // libraries 3, executables 4
    let ghost mut rank: Seq<int> = Seq::empty();

    let src_headers = src_dir_contents.get_files_with_extension("h");
    if src_headers.len() == 0 {
        return Err(ConfigError::MissingFiles { name: "clib_headers".to_owned() });
    }
    let ghost a0 = dependency_graph.arena@;
    let root_interface = dependency_graph.add_interface("clib_headers", src_headers);
    proof {
        assert(dependency_graph.arena@ =~= a0.push(
            dependency_graph.arena@[root_interface.idx as int],
        ));
        lemma_ready_parts_push(a0, dependency_graph.arena@[root_interface.idx as int]);
        let rankp = rank;
        rank = rank.push(0);
        lemma_rank_push(a0, dependency_graph.arena@[root_interface.idx as int], rankp, 0);
        lemma_ifz_push(a0, dependency_graph.arena@[root_interface.idx as int], rankp, 0);
    }

    let common_sources = common_dir_contents.get_files_with_extension("c");
    let ghost a1 = dependency_graph.arena@;
    let common_library = dependency_graph.add_library("common_lib", common_sources);
    proof {
        assert(dependency_graph.arena@ =~= a1.push(
            dependency_graph.arena@[common_library.idx as int],
        ));
        lemma_ready_parts_push(a1, dependency_graph.arena@[common_library.idx as int]);
        assert(common_library.idx == 1);
        let rankp = rank;
        rank = rank.push(2);
        lemma_rank_push(a1, dependency_graph.arena@[common_library.idx as int], rankp, 2);
        lemma_ifz_push(a1, dependency_graph.arena@[common_library.idx as int], rankp, 2);
        assert(rank[common_library.idx as int] == 2);
    }

    let common_headers = common_dir_contents.get_files_with_extension("h");
    if common_headers.len() == 0 {
        return Err(ConfigError::MissingFiles { name: "common_headers".to_owned() });
    }
    let ghost a2 = dependency_graph.arena@;
    let common_interface = dependency_graph.add_interface("common_headers", common_headers);
    proof {
        assert(dependency_graph.arena@ =~= a2.push(
            dependency_graph.arena@[common_interface.idx as int],
        ));
        lemma_ready_parts_push(a2, dependency_graph.arena@[common_interface.idx as int]);
        let rankp = rank;
        rank = rank.push(0);
        lemma_rank_push(a2, dependency_graph.arena@[common_interface.idx as int], rankp, 0);
        lemma_ifz_push(a2, dependency_graph.arena@[common_interface.idx as int], rankp, 0);
        assert(rank[common_library.idx as int] == 2);
        assert(rank[common_interface.idx as int] == 0);
    }

    let ghost a3 = dependency_graph.arena@;
    dependency_graph.add_requirement(common_library, common_interface);
    proof {
        lemma_ready_parts_requirement(
            a3,
            dependency_graph.arena@,
            common_library.idx as int,
            common_interface,
        );
        lemma_rank_requirement(
            a3,
            dependency_graph.arena@,
            rank,
            common_library.idx as int,
            common_interface,
        );
        lemma_ifz_same(a3, dependency_graph.arena@, rank);
    }

    let executable_sources = src_dir_contents.get_files_with_extension("c");
    let ghost srcs = spec_files_with_extension(src_dir_contents@, "c"@);
    proof {
        assert(executable_sources.deep_view() == srcs);
        reveal_strlit(".c");
        assert(".c"@ =~= seq!['.', 'c']);
    }
    let es_len = executable_sources.len();
    let mut e: usize = 0;
    while e < es_len
        invariant
            es_len == executable_sources@.len(),
            e <= es_len,
            graph_ready(&dependency_graph),
            dependency_graph.roots@.len() == e,
            forall|k: int|
                0 <= k < dependency_graph.roots@.len() ==> dependency_graph.arena@[(
                #[trigger] dependency_graph.roots@[k]).idx as int].dep_type
                    == DependencyType::EXECUTABLE,
            forall|k: int|
                0 <= k < dependency_graph.roots@.len() ==> (dependency_graph.arena@[(
                #[trigger] dependency_graph.roots@[k]).idx as int].options matches Some(
                    DependencyOptions::ExecutableOptions { link_flags, link_libraries },
                ) && link_flags.deep_view() == Seq::<Seq<char>>::empty()
                    && link_libraries.deep_view() == seq!["curl"@]),
            root_interface.idx < dependency_graph.arena@.len(),
            dependency_graph.arena@[root_interface.idx as int].dep_type
                == DependencyType::INTERFACE,
            dependency_graph.arena@[root_interface.idx as int].name@ == "clib_headers"@,
            common_library.idx == 1,
            common_library.idx < dependency_graph.arena@.len(),
            dependency_graph.arena@[common_library.idx as int].dep_type == DependencyType::LIBRARY,
            dependency_graph.arena@[common_library.idx as int].name@ == "common_lib"@,
            srcs == spec_files_with_extension(src_dir_contents@, "c"@),
            executable_sources.deep_view() == srcs,
            forall|k: int|
                0 <= k < e ==> #[trigger] root_shape(
                    dependency_graph.arena@,
                    dependency_graph.roots@,
                    srcs,
                    k,
                ),
            forall|k: int|
                0 <= k < e ==> #[trigger] root_shape_sep(
                    dependency_graph.arena@,
                    dependency_graph.roots@,
                    k,
                    dependency_graph.arena@.len() as int,
                ),
            rank.len() == dependency_graph.arena@.len(),
            rank_respecting(dependency_graph.arena@, rank),
            ifaces_rank_zero(dependency_graph.arena@, rank),
            rank[common_library.idx as int] == 2,
        decreases es_len - e,
    {
        let executable_src = &executable_sources[e];
        let trimmed = trim_suffix(executable_src.as_str(), ".c");
        let executable_name = basename_of(trimmed.as_str());
        let executable_lib_name = concat_str(executable_name.as_str(), "_lib");
        let mut lib_files: Vec<String> = Vec::new();
        lib_files.push(executable_src.clone());
        let ghost b0 = dependency_graph.arena@;
        let ghost rts0 = dependency_graph.roots@;
        let executable_lib = dependency_graph.add_library(
            executable_lib_name.as_str(),
            lib_files,
        );
        proof {
            assert(dependency_graph.arena@ =~= b0.push(
                dependency_graph.arena@[executable_lib.idx as int],
            ));
            lemma_ready_parts_push(b0, dependency_graph.arena@[executable_lib.idx as int]);
            let rankp = rank;
            rank = rank.push(3);
            lemma_rank_push(b0, dependency_graph.arena@[executable_lib.idx as int], rankp, 3);
            lemma_ifz_push(b0, dependency_graph.arena@[executable_lib.idx as int], rankp, 3);
            assert(rank[executable_lib.idx as int] == 3);
        }
        let ghost b1 = dependency_graph.arena@;
        let executable = dependency_graph.add_executable(executable_name.as_str(), Vec::new());
        proof {
            assert(dependency_graph.arena@ =~= b1.push(
                dependency_graph.arena@[executable.idx as int],
            ));
            lemma_ready_parts_push(b1, dependency_graph.arena@[executable.idx as int]);
            let rankp = rank;
            rank = rank.push(4);
            lemma_rank_push(b1, dependency_graph.arena@[executable.idx as int], rankp, 4);
            lemma_ifz_push(b1, dependency_graph.arena@[executable.idx as int], rankp, 4);
            assert(rank[executable_lib.idx as int] == 3);
            assert(rank[executable.idx as int] == 4);
        }
        let mut link_libraries: Vec<String> = Vec::new();
        link_libraries.push("curl".to_owned());
        proof {
            assert(link_libraries.deep_view() =~= seq!["curl"@]);
        }
        let executable_options = DependencyOptions::ExecutableOptions {
            link_libraries,
            link_flags: Vec::new(),
        };
        let ghost b2 = dependency_graph.arena@;
        dependency_graph.set_executable_options(executable, executable_options);
        proof {
            crate::dependency_graph::lemma_ready_parts_options(
                b2,
                dependency_graph.arena@,
                executable.idx as int,
            );
            lemma_rank_same_edges(b2, dependency_graph.arena@, rank);
            lemma_ifz_same(b2, dependency_graph.arena@, rank);
            assert(dependency_graph.arena@[executable.idx as int].options matches Some(
                DependencyOptions::ExecutableOptions { link_flags, link_libraries }
            ) && link_flags.deep_view() =~= Seq::<Seq<char>>::empty()
                && link_libraries.deep_view() == seq!["curl"@]);
        }
        let ghost b3 = dependency_graph.arena@;
        dependency_graph.add_requirement(executable, executable_lib);
        proof {
            lemma_ready_parts_requirement(
                b3,
                dependency_graph.arena@,
                executable.idx as int,
                executable_lib,
            );
            lemma_rank_requirement(b3, dependency_graph.arena@, rank, executable.idx as int, executable_lib);
            lemma_ifz_same(b3, dependency_graph.arena@, rank);
        }
        let ghost b4 = dependency_graph.arena@;
        dependency_graph.add_requirement(executable_lib, root_interface);
        proof {
            lemma_ready_parts_requirement(
                b4,
                dependency_graph.arena@,
                executable_lib.idx as int,
                root_interface,
            );
            lemma_rank_requirement(b4, dependency_graph.arena@, rank, executable_lib.idx as int, root_interface);
            lemma_ifz_same(b4, dependency_graph.arena@, rank);
        }
        let ghost b5 = dependency_graph.arena@;
        dependency_graph.add_requirement(executable_lib, common_library);
        proof {
            lemma_ready_parts_requirement(
                b5,
                dependency_graph.arena@,
                executable_lib.idx as int,
                common_library,
            );
            lemma_rank_requirement(b5, dependency_graph.arena@, rank, executable_lib.idx as int, common_library);
            lemma_ifz_same(b5, dependency_graph.arena@, rank);
        }
        proof {
            reveal_strlit(".c");
            assert(".c"@ =~= seq!['.', 'c']);
            let a = dependency_graph.arena@;
            let rts = dependency_graph.roots@;
            let ei = executable.idx as int;
            let li = executable_lib.idx as int;
            assert(rts[e as int] == executable);
            assert(li == b0.len() && ei == b1.len() && b1.len() == b0.len() + 1);
            assert(2 <= li && 2 <= ei);
            // the fresh root has the configured shape
            assert(executable_src@ == srcs[e as int]);
            assert(trimmed@ == spec_trim_suffix(srcs[e as int], seq!['.', 'c']));
            assert(executable_name@ == spec_basename(spec_trim_suffix(
                srcs[e as int],
                seq!['.', 'c'],
            )));
            assert(a[ei].name@ == executable_name@);
            assert(a[ei].requires@ =~= seq![executable_lib]);
            assert(a[li].name@ == executable_name@ + "_lib"@);
            assert(a[li].files.deep_view() =~= seq![srcs[e as int]]);
            assert(a[li].requires@ =~= seq![root_interface, common_library]);
            assert(a[root_interface.idx as int].name@ == "clib_headers"@);
            assert(a[common_library.idx as int].name@ == "common_lib"@);
            assert(root_shape(a, rts, srcs, e as int));
            assert(root_shape_sep(a, rts, e as int, a.len() as int));
            // the earlier roots are untouched: all mutations of this pass
            // hit the two fresh nodes only
            assert forall|k: int| 0 <= k < e implies #[trigger] root_shape(a, rts, srcs, k)
                && root_shape_sep(a, rts, k, a.len() as int) by {
                assert(root_shape(b0, rts0, srcs, k));
                assert(root_shape_sep(b0, rts0, k, b0.len() as int));
                let ke = rts0[k].idx as int;
                let kl = b0[ke].requires@[0].idx as int;
                let kri = b0[kl].requires@[0].idx as int;
                let kcm = b0[kl].requires@[1].idx as int;
                assert(rts[k] == rts0[k]);
                // the two fresh nodes sit past every earlier index, so the
                // pushes, the options update and the three recorded
                // requirements leave the earlier nodes' read fields alone
                assert(ke < b0.len() && kl < b0.len() && kri < b0.len() && kcm < b0.len());
                assert(b3[ke] == b0[ke] && b3[kl] == b0[kl] && b3[kri] == b0[kri] && b3[kcm]
                    == b0[kcm]);
                assert(b4[ke].name@ == b3[ke].name@ && b4[ke].dep_type == b3[ke].dep_type
                    && b4[ke].requires@ == b3[ke].requires@);
                assert(b4[kl].name@ == b3[kl].name@ && b4[kl].dep_type == b3[kl].dep_type
                    && b4[kl].files == b3[kl].files && b4[kl].requires@ == b3[kl].requires@);
                assert(b4[kri].name@ == b3[kri].name@ && b4[kri].dep_type == b3[kri].dep_type);
                assert(b4[kcm].name@ == b3[kcm].name@ && b4[kcm].dep_type == b3[kcm].dep_type);
                assert(b5[ke].name@ == b4[ke].name@ && b5[ke].dep_type == b4[ke].dep_type
                    && b5[ke].requires@ == b4[ke].requires@);
                assert(b5[kl].name@ == b4[kl].name@ && b5[kl].dep_type == b4[kl].dep_type
                    && b5[kl].files == b4[kl].files && b5[kl].requires@ == b4[kl].requires@);
                assert(b5[kri].name@ == b4[kri].name@ && b5[kri].dep_type == b4[kri].dep_type);
                assert(b5[kcm].name@ == b4[kcm].name@ && b5[kcm].dep_type == b4[kcm].dep_type);
                assert(a[ke].name@ == b5[ke].name@ && a[ke].dep_type == b5[ke].dep_type
                    && a[ke].requires@ == b5[ke].requires@);
                assert(a[kl].name@ == b5[kl].name@ && a[kl].dep_type == b5[kl].dep_type
                    && a[kl].files == b5[kl].files && a[kl].requires@ == b5[kl].requires@);
                assert(a[kri].name@ == b5[kri].name@ && a[kri].dep_type == b5[kri].dep_type);
                assert(a[kcm].name@ == b5[kcm].name@ && a[kcm].dep_type == b5[kcm].dep_type);
                assert(root_shape(a, rts, srcs, k));
                assert(root_shape_sep(a, rts, k, a.len() as int));
            }
            assert forall|k: int| 0 <= k < e implies #[trigger] root_shape_sep(
                a,
                rts,
                k,
                a.len() as int,
            ) by {
                assert(root_shape(a, rts, srcs, k));
                assert(root_shape_sep(a, rts, k, a.len() as int));
            }
        }
        e += 1;
    }

    // the dependency directory itself is visible as one interface, through a
    // placeholder header beside the packages
    let deps_dir_dummy = concat_str(directory, "/deps/dummy.h");
    let mut deps_files: Vec<String> = Vec::new();
    deps_files.push(deps_dir_dummy);
    let ghost a4 = dependency_graph.arena@;
    let deps_interface = dependency_graph.add_interface("deps_headers", deps_files);
    proof {
        assert(dependency_graph.arena@ =~= a4.push(
            dependency_graph.arena@[deps_interface.idx as int],
        ));
        lemma_ready_parts_push(a4, dependency_graph.arena@[deps_interface.idx as int]);
        let rankp = rank;
        rank = rank.push(0);
        lemma_rank_push(a4, dependency_graph.arena@[deps_interface.idx as int], rankp, 0);
        lemma_ifz_push(a4, dependency_graph.arena@[deps_interface.idx as int], rankp, 0);
        assert(rank[common_library.idx as int] == 2);
        assert(rank[deps_interface.idx as int] == 0);
    }
    let ghost a5 = dependency_graph.arena@;
    dependency_graph.add_requirement(common_library, deps_interface);
    proof {
        lemma_ready_parts_requirement(
            a5,
            dependency_graph.arena@,
            common_library.idx as int,
            deps_interface,
        );
        lemma_rank_requirement(
            a5,
            dependency_graph.arena@,
            rank,
            common_library.idx as int,
            deps_interface,
        );
        lemma_ifz_same(a5, dependency_graph.arena@, rank);
    }
    let ghost epl = dependency_graph.arena@.len() as int;
    proof {
        let a = dependency_graph.arena@;
        let rts = dependency_graph.roots@;
        assert forall|k: int| 0 <= k < rts.len() implies #[trigger] root_shape(a, rts, srcs, k)
            && root_shape_sep(a, rts, k, epl) by {
            assert(root_shape(a4, rts, srcs, k));
            assert(root_shape_sep(a4, rts, k, a4.len() as int));
            let ke = rts[k].idx as int;
            let kl = a4[ke].requires@[0].idx as int;
            let kri = a4[kl].requires@[0].idx as int;
            let kcm = a4[kl].requires@[1].idx as int;
            assert(ke < a4.len() && kl < a4.len() && kri < a4.len() && kcm < a4.len());
            assert(a5[ke] == a4[ke] && a5[kl] == a4[kl] && a5[kri] == a4[kri] && a5[kcm]
                == a4[kcm]);
            assert(common_library.idx == 1 && 2 <= ke && 2 <= kl);
            assert(a[ke].name@ == a5[ke].name@ && a[ke].dep_type == a5[ke].dep_type && a[ke].requires@ == a5[ke].requires@);
            assert(a[kl].name@ == a5[kl].name@ && a[kl].dep_type == a5[kl].dep_type && a[kl].files == a5[kl].files && a[kl].requires@ == a5[kl].requires@);
            assert(a[kri].name@ == a5[kri].name@ && a[kri].dep_type == a5[kri].dep_type);
            assert(a[kcm].name@ == a5[kcm].name@ && a[kcm].dep_type == a5[kcm].dep_type);
            assert(root_shape(a, rts, srcs, k));
            assert(root_shape_sep(a, rts, k, epl));
        }
        assert forall|k: int| 0 <= k < rts.len() implies #[trigger] root_shape_sep(
            a,
            rts,
            k,
            epl,
        ) by {
            assert(root_shape(a, rts, srcs, k));
            assert(root_shape_sep(a, rts, k, epl));
        }
    }

    let mut unresolved_dependencies: Vec<(Ref, String)> = Vec::new();

    // first pass: a library and an interface target for every package
    let dd_len = dep_dirs.len();
    let mut d: usize = 0;
    while d < dd_len
        invariant
            dd_len == dep_dirs@.len(),
            d <= dd_len,
            graph_ready(&dependency_graph),
            dependency_graph.roots@.len() == es_len,
            forall|k: int|
                0 <= k < dependency_graph.roots@.len() ==> dependency_graph.arena@[(
                #[trigger] dependency_graph.roots@[k]).idx as int].dep_type
                    == DependencyType::EXECUTABLE,
            forall|k: int|
                0 <= k < dependency_graph.roots@.len() ==> (dependency_graph.arena@[(
                #[trigger] dependency_graph.roots@[k]).idx as int].options matches Some(
                    DependencyOptions::ExecutableOptions { link_flags, link_libraries },
                ) && link_flags.deep_view() == Seq::<Seq<char>>::empty()
                    && link_libraries.deep_view() == seq!["curl"@]),
            common_library.idx < dependency_graph.arena@.len(),
            dependency_graph.arena@[common_library.idx as int].dep_type == DependencyType::LIBRARY,
            srcs == spec_files_with_extension(src_dir_contents@, "c"@),
            epl <= dependency_graph.arena@.len() as int,
            common_library.idx == 1,
            forall|k: int|
                0 <= k < dependency_graph.roots@.len() ==> #[trigger] root_shape(
                    dependency_graph.arena@,
                    dependency_graph.roots@,
                    srcs,
                    k,
                ),
            forall|k: int|
                0 <= k < dependency_graph.roots@.len() ==> #[trigger] root_shape_sep(
                    dependency_graph.arena@,
                    dependency_graph.roots@,
                    k,
                    epl,
                ),
            forall|m: int|
                0 <= m < unresolved_dependencies@.len() ==> (
                #[trigger] unresolved_dependencies@[m]).0.idx as int >= epl,
            rank.len() == dependency_graph.arena@.len(),
            rank_respecting(dependency_graph.arena@, rank),
            ifaces_rank_zero(dependency_graph.arena@, rank),
            rank[common_library.idx as int] == 2,
            forall|m: int|
                0 <= m < unresolved_dependencies@.len() ==> rank[(
                #[trigger] unresolved_dependencies@[m]).0.idx as int] == 1,
            deps_interface.idx < dependency_graph.arena@.len(),
            dependency_graph.arena@[deps_interface.idx as int].dep_type
                == DependencyType::INTERFACE,
            unresolved_dependencies@.len() > 0 ==> exists|p: int|
                0 <= p < dep_dirs@.len() && ((#[trigger] dep_dirs@[p]).manifest matches Some(m)
                    && manifest_dep_keys(m@) matches Some(keys) && keys.len() > 0),
            forall|m: int|
                0 <= m < unresolved_dependencies@.len() ==> (
                #[trigger] unresolved_dependencies@[m]).0.idx < dependency_graph.arena@.len(),
        decreases dd_len - d,
    {
        let ghost d0 = dependency_graph.arena@;
        let ghost rtsd = dependency_graph.roots@;
        let dep_package = &dep_dirs[d];
        let dep_name = concat_str(dep_package.dir.as_str(), "_lib");
        let dep_sources = dep_package.contents.get_files_with_extension("c");
        let ghost c0 = dependency_graph.arena@;
        let dep = dependency_graph.add_library(dep_name.as_str(), dep_sources);
        proof {
            assert(dependency_graph.arena@ =~= c0.push(
                dependency_graph.arena@[dep.idx as int],
            ));
            lemma_ready_parts_push(c0, dependency_graph.arena@[dep.idx as int]);
            let rankp = rank;
            rank = rank.push(1);
            lemma_rank_push(c0, dependency_graph.arena@[dep.idx as int], rankp, 1);
            lemma_ifz_push(c0, dependency_graph.arena@[dep.idx as int], rankp, 1);
            assert(rank[dep.idx as int] == 1);
        }
        let ghost c1 = dependency_graph.arena@;
        dependency_graph.add_requirement(common_library, dep);
        proof {
            lemma_ready_parts_requirement(
                c1,
                dependency_graph.arena@,
                common_library.idx as int,
                dep,
            );
            lemma_rank_requirement(c1, dependency_graph.arena@, rank, common_library.idx as int, dep);
            lemma_ifz_same(c1, dependency_graph.arena@, rank);
        }
        let dep_interface_name = concat_str(dep_package.dir.as_str(), "_headers");
        let dep_headers = dep_package.contents.get_files_with_extension("h");
        if dep_headers.len() == 0 {
            proof {
                assert(spec_files_with_extension(dep_dirs@[d as int].contents@, "h"@).len()
                    == 0);
            }
            return Err(ConfigError::MissingFiles { name: dep_interface_name });
        }
        let ghost c2 = dependency_graph.arena@;
        let dep_interface = dependency_graph.add_interface(
            dep_interface_name.as_str(),
            dep_headers,
        );
        proof {
            assert(dependency_graph.arena@ =~= c2.push(
                dependency_graph.arena@[dep_interface.idx as int],
            ));
            lemma_ready_parts_push(c2, dependency_graph.arena@[dep_interface.idx as int]);
            let rankp = rank;
            rank = rank.push(0);
            lemma_rank_push(c2, dependency_graph.arena@[dep_interface.idx as int], rankp, 0);
            lemma_ifz_push(c2, dependency_graph.arena@[dep_interface.idx as int], rankp, 0);
            assert(rank[dep.idx as int] == 1);
            assert(rank[dep_interface.idx as int] == 0);
        }
        let ghost c3 = dependency_graph.arena@;
        dependency_graph.add_requirement(dep, dep_interface);
        proof {
            lemma_ready_parts_requirement(
                c3,
                dependency_graph.arena@,
                dep.idx as int,
                dep_interface,
            );
            lemma_rank_requirement(c3, dependency_graph.arena@, rank, dep.idx as int, dep_interface);
            lemma_ifz_same(c3, dependency_graph.arena@, rank);
        }
        let ghost amid = dependency_graph.arena@;
        proof {
            // the package's library, interface and edges all sit past the
            // roots and their companions, which stay as configured
            assert forall|k: int| 0 <= k < rtsd.len() implies #[trigger] root_shape(
                amid,
                rtsd,
                srcs,
                k,
            ) && root_shape_sep(amid, rtsd, k, epl) by {
                assert(root_shape(d0, rtsd, srcs, k));
                assert(root_shape_sep(d0, rtsd, k, epl));
                let ke = rtsd[k].idx as int;
                let kl = d0[ke].requires@[0].idx as int;
                let kri = d0[kl].requires@[0].idx as int;
                let kcm = d0[kl].requires@[1].idx as int;
                assert(ke < d0.len() && kl < d0.len() && kri < d0.len() && kcm < d0.len());
                assert(c1[ke] == d0[ke] && c1[kl] == d0[kl] && c1[kri] == d0[kri] && c1[kcm]
                    == d0[kcm]);
                assert(common_library.idx == 1 && 2 <= ke && 2 <= kl);
                assert(dep.idx as int >= epl && ke < epl && kl < epl);
                assert(c2[ke].name@ == c1[ke].name@ && c2[ke].dep_type == c1[ke].dep_type
                    && c2[ke].requires@ == c1[ke].requires@);
                assert(c2[kl].name@ == c1[kl].name@ && c2[kl].dep_type == c1[kl].dep_type
                    && c2[kl].files == c1[kl].files && c2[kl].requires@ == c1[kl].requires@);
                assert(c2[kri].name@ == c1[kri].name@ && c2[kri].dep_type == c1[kri].dep_type);
                assert(c2[kcm].name@ == c1[kcm].name@ && c2[kcm].dep_type == c1[kcm].dep_type);
                assert(c3[ke] == c2[ke] && c3[kl] == c2[kl]);
                assert(c3[kri].name@ == c2[kri].name@ && c3[kri].dep_type == c2[kri].dep_type);
                assert(c3[kcm].name@ == c2[kcm].name@ && c3[kcm].dep_type == c2[kcm].dep_type);
                assert(amid[ke].name@ == c3[ke].name@ && amid[ke].dep_type == c3[ke].dep_type
                    && amid[ke].requires@ == c3[ke].requires@);
                assert(amid[kl].name@ == c3[kl].name@ && amid[kl].dep_type == c3[kl].dep_type
                    && amid[kl].files == c3[kl].files && amid[kl].requires@ == c3[kl].requires@);
                assert(amid[kri].name@ == c3[kri].name@ && amid[kri].dep_type
                    == c3[kri].dep_type);
                assert(amid[kcm].name@ == c3[kcm].name@ && amid[kcm].dep_type
                    == c3[kcm].dep_type);
                assert(root_shape(amid, rtsd, srcs, k));
                assert(root_shape_sep(amid, rtsd, k, epl));
            }
        }

        let manifest = match &dep_package.manifest {
            Some(m) => Some(m.as_str()),
            None => None,
        };
        proof {
            assert(match dep_package.manifest {
                Some(mm) => manifest matches Some(ms) && ms@ == mm@,
                None => manifest is None,
            });
        }
        let dependencies = match get_clib_dependencies(manifest) {
            Ok(names) => names,
            Err(err) => {
                proof {
                    assert(dep_dirs@[d as int].manifest matches Some(m) && manifest_dep_keys(
                        m@,
                    ) is None);
                }
                return Err(err);
            },
        };
        if dependencies.len() > 0 {
            // package-style includes are of the form `name/header.h`
            let ghost c4 = dependency_graph.arena@;
            dependency_graph.add_requirement(dep, deps_interface);
            proof {
                lemma_ready_parts_requirement(
                    c4,
                    dependency_graph.arena@,
                    dep.idx as int,
                    deps_interface,
                );
                lemma_rank_requirement(
                    c4,
                    dependency_graph.arena@,
                    rank,
                    dep.idx as int,
                    deps_interface,
                );
                lemma_ifz_same(c4, dependency_graph.arena@, rank);
            }
        }

        proof {
            if dependencies@.len() > 0 {
                assert(manifest is Some);
                assert(dep_package.manifest is Some);
                assert(dependencies.deep_view().len() == dependencies@.len());
                assert(dep_dirs@[d as int].manifest matches Some(m) && manifest_dep_keys(m@)
                    matches Some(keys) && keys.len() > 0);
            }
            let a = dependency_graph.arena@;
            assert(dependency_graph.roots@ == rtsd);
            assert forall|k: int| 0 <= k < rtsd.len() implies #[trigger] root_shape(
                a,
                rtsd,
                srcs,
                k,
            ) by {
                assert(root_shape(amid, rtsd, srcs, k));
                assert(root_shape_sep(amid, rtsd, k, epl));
                if a != amid {
                    let ke = rtsd[k].idx as int;
                    let kl = amid[ke].requires@[0].idx as int;
                    let kri = amid[kl].requires@[0].idx as int;
                    let kcm = amid[kl].requires@[1].idx as int;
                    assert(dep.idx as int >= epl && ke < epl && kl < epl);
                    assert(a[ke].name@ == amid[ke].name@ && a[ke].dep_type == amid[ke].dep_type
                        && a[ke].requires@ == amid[ke].requires@);
                    assert(a[kl].name@ == amid[kl].name@ && a[kl].dep_type == amid[kl].dep_type
                        && a[kl].files == amid[kl].files && a[kl].requires@
                        == amid[kl].requires@);
                    assert(a[kri].name@ == amid[kri].name@ && a[kri].dep_type
                        == amid[kri].dep_type);
                    assert(a[kcm].name@ == amid[kcm].name@ && a[kcm].dep_type
                        == amid[kcm].dep_type);
                    assert(root_shape(a, rtsd, srcs, k));
                }
            }
            assert forall|k: int| 0 <= k < rtsd.len() implies #[trigger] root_shape_sep(
                a,
                rtsd,
                k,
                epl,
            ) by {
                assert(root_shape(amid, rtsd, srcs, k));
                assert(root_shape_sep(amid, rtsd, k, epl));
                let ke = rtsd[k].idx as int;
                if a != amid {
                    assert(dep.idx as int >= epl && ke < epl);
                    assert(a[ke].requires@ == amid[ke].requires@);
                }
            }
        }
        let dep_count = dependencies.len();
        let mut q: usize = 0;
        while q < dep_count
            invariant
                dep_count == dependencies@.len(),
                q <= dep_count,
                dep.idx < dependency_graph.arena@.len(),
                dep.idx as int >= epl,
                rank[dep.idx as int] == 1,
                forall|m: int|
                    0 <= m < unresolved_dependencies@.len() ==> (
                    #[trigger] unresolved_dependencies@[m]).0.idx as int >= epl,
                forall|m: int|
                    0 <= m < unresolved_dependencies@.len() ==> rank[(
                    #[trigger] unresolved_dependencies@[m]).0.idx as int] == 1,
                unresolved_dependencies@.len() > 0 ==> exists|p: int|
                    0 <= p < dep_dirs@.len() && ((#[trigger] dep_dirs@[p]).manifest matches Some(
                        m,
                    ) && manifest_dep_keys(m@) matches Some(keys) && keys.len() > 0),
                dep_count > 0 ==> exists|p: int|
                    0 <= p < dep_dirs@.len() && ((#[trigger] dep_dirs@[p]).manifest matches Some(
                        m,
                    ) && manifest_dep_keys(m@) matches Some(keys) && keys.len() > 0),
                forall|m: int|
                    0 <= m < unresolved_dependencies@.len() ==> (
                    #[trigger] unresolved_dependencies@[m]).0.idx < dependency_graph.arena@.len(),
            decreases dep_count - q,
        {
            unresolved_dependencies.push((dep, dependencies[q].clone()));
            q += 1;
        }
        d += 1;
    }

    // second pass: resolve each declared dependency to its interface target
    let un_len = unresolved_dependencies.len();
    let mut u: usize = 0;
    while u < un_len
        invariant
            un_len == unresolved_dependencies@.len(),
            u <= un_len,
            graph_ready(&dependency_graph),
            dependency_graph.roots@.len() == es_len,
            forall|k: int|
                0 <= k < dependency_graph.roots@.len() ==> dependency_graph.arena@[(
                #[trigger] dependency_graph.roots@[k]).idx as int].dep_type
                    == DependencyType::EXECUTABLE,
            forall|k: int|
                0 <= k < dependency_graph.roots@.len() ==> (dependency_graph.arena@[(
                #[trigger] dependency_graph.roots@[k]).idx as int].options matches Some(
                    DependencyOptions::ExecutableOptions { link_flags, link_libraries },
                ) && link_flags.deep_view() == Seq::<Seq<char>>::empty()
                    && link_libraries.deep_view() == seq!["curl"@]),
            unresolved_dependencies@.len() > 0 ==> exists|p: int|
                0 <= p < dep_dirs@.len() && ((#[trigger] dep_dirs@[p]).manifest matches Some(m)
                    && manifest_dep_keys(m@) matches Some(keys) && keys.len() > 0),
            srcs == spec_files_with_extension(src_dir_contents@, "c"@),
            epl <= dependency_graph.arena@.len() as int,
            common_library.idx == 1,
            forall|k: int|
                0 <= k < dependency_graph.roots@.len() ==> #[trigger] root_shape(
                    dependency_graph.arena@,
                    dependency_graph.roots@,
                    srcs,
                    k,
                ),
            forall|k: int|
                0 <= k < dependency_graph.roots@.len() ==> #[trigger] root_shape_sep(
                    dependency_graph.arena@,
                    dependency_graph.roots@,
                    k,
                    epl,
                ),
            forall|m: int|
                0 <= m < unresolved_dependencies@.len() ==> (
                #[trigger] unresolved_dependencies@[m]).0.idx as int >= epl,
            rank.len() == dependency_graph.arena@.len(),
            rank_respecting(dependency_graph.arena@, rank),
            ifaces_rank_zero(dependency_graph.arena@, rank),
            rank[common_library.idx as int] == 2,
            forall|m: int|
                0 <= m < unresolved_dependencies@.len() ==> rank[(
                #[trigger] unresolved_dependencies@[m]).0.idx as int] == 1,
            forall|m: int|
                0 <= m < unresolved_dependencies@.len() ==> (
                #[trigger] unresolved_dependencies@[m]).0.idx < dependency_graph.arena@.len(),
        decreases un_len - u,
    {
        let origin = unresolved_dependencies[u].0;
        let dependency_interface_name = concat_str(
            unresolved_dependencies[u].1.as_str(),
            "_headers",
        );
        match dependency_graph.find_interface(dependency_interface_name.as_str()) {
            Some(dependency_interface) => {
                let ghost r0 = dependency_graph.arena@;
                proof {
                    assert(crate::dependency_graph::spec_iface_match(
                        r0,
                        dependency_interface.idx as int,
                        dependency_interface_name@,
                    ));
                }
                dependency_graph.add_requirement(origin, dependency_interface);
                proof {
                    lemma_ready_parts_requirement(
                        r0,
                        dependency_graph.arena@,
                        origin.idx as int,
                        dependency_interface,
                    );
                    lemma_rank_requirement(
                        r0,
                        dependency_graph.arena@,
                        rank,
                        origin.idx as int,
                        dependency_interface,
                    );
                    lemma_ifz_same(r0, dependency_graph.arena@, rank);
                    let a = dependency_graph.arena@;
                    let rts = dependency_graph.roots@;
                    assert forall|k: int| 0 <= k < rts.len() implies #[trigger] root_shape(
                        a,
                        rts,
                        srcs,
                        k,
                    ) && root_shape_sep(a, rts, k, epl) by {
                        assert(root_shape(r0, rts, srcs, k));
                        assert(root_shape_sep(r0, rts, k, epl));
                        let ke = rts[k].idx as int;
                        let kl = r0[ke].requires@[0].idx as int;
                        let kri = r0[kl].requires@[0].idx as int;
                        let kcm = r0[kl].requires@[1].idx as int;
                        assert(origin.idx as int >= epl && ke < epl && kl < epl);
                        assert(a[ke].name@ == r0[ke].name@ && a[ke].dep_type == r0[ke].dep_type
                            && a[ke].requires@ == r0[ke].requires@);
                        assert(a[kl].name@ == r0[kl].name@ && a[kl].dep_type == r0[kl].dep_type
                            && a[kl].files == r0[kl].files && a[kl].requires@
                            == r0[kl].requires@);
                        assert(a[kri].name@ == r0[kri].name@ && a[kri].dep_type
                            == r0[kri].dep_type);
                        assert(a[kcm].name@ == r0[kcm].name@ && a[kcm].dep_type
                            == r0[kcm].dep_type);
                        assert(root_shape(a, rts, srcs, k));
                        assert(root_shape_sep(a, rts, k, epl));
                    }
                    assert forall|k: int| 0 <= k < rts.len() implies #[trigger] root_shape_sep(
                        a,
                        rts,
                        k,
                        epl,
                    ) by {
                        assert(root_shape(a, rts, srcs, k));
                        assert(root_shape_sep(a, rts, k, epl));
                    }
                }
            },
            None => {
                let name = unresolved_dependencies[u].1.clone();
                return Err(ConfigError::MissingDependency { name });
            },
        }
        u += 1;
    }

    proof {
        lemma_rank_acyclic(&dependency_graph, rank);
    }
    Ok(dependency_graph)
}

} // verus!
