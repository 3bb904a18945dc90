//! Pure transformation from a graph node plus the target data of its direct
//! dependencies into the work instructions that build the node and the target
//! data the node will expose to its own dependents.
use vstd::prelude::*;

use crate::dependency_graph::DependencyGraph;
use crate::dependency_graph::DependencyNode;
use crate::dependency_graph::DependencyOptions;
use crate::dependency_graph::DependencyType;
use crate::dependency_graph::Ref;
use crate::strings::basename_of;
use crate::strings::lemma_push_deep_view;
use crate::strings::concat_str;
use crate::strings::join_path;
use crate::strings::parent_of;
use crate::strings::spec_basename;
use crate::strings::spec_parent;
use crate::target_data::TargetData;
use crate::target_data::TargetDataView;
use crate::work_pool::WorkInstruction;
use crate::work_pool::WorkInstructionView;

verus! {

broadcast use vstd::std_specs::vec::vec_clone_deep_view_proof;

/// Include directories a single dependency contributes downstream.
pub open spec fn include_contribution(d: TargetDataView) -> Seq<Seq<char>> {
    match d {
        TargetDataView::INTERFACE { include_dirs } => include_dirs,
        TargetDataView::LIBRARY { include_dirs, .. } => include_dirs,
        TargetDataView::EXECUTABLE { .. } => Seq::empty(),
    }
}

/// Object files a single dependency contributes to a link step.
pub open spec fn object_contribution(d: TargetDataView) -> Seq<Seq<char>> {
    match d {
        TargetDataView::LIBRARY { object_files, .. } => object_files,
        _ => Seq::empty(),
    }
}

/// Include directories of all dependencies, concatenated in declaration
/// order.
pub open spec fn gathered_include_dirs(deps: Seq<TargetDataView>) -> Seq<Seq<char>>
    decreases deps.len(),
{
    if deps.len() == 0 {
        Seq::empty()
    } else {
        gathered_include_dirs(deps.drop_last()) + include_contribution(deps.last())
    }
}

/// Object files of all library dependencies, concatenated in declaration
/// order.
pub open spec fn gathered_objects(deps: Seq<TargetDataView>) -> Seq<Seq<char>>
    decreases deps.len(),
{
    if deps.len() == 0 {
        Seq::empty()
    } else {
        gathered_objects(deps.drop_last()) + object_contribution(deps.last())
    }
}

/// `<build_dir>/<basename(source)>.o`
pub open spec fn spec_object_path(build_dir: Seq<char>, source: Seq<char>) -> Seq<char> {
    build_dir + seq!['/'] + spec_basename(source) + seq!['.', 'o']
}

/// `<build_dir>/<name>`
pub open spec fn spec_executable_path(build_dir: Seq<char>, name: Seq<char>) -> Seq<char> {
    build_dir + seq!['/'] + name
}

/// The libraries an executable node asks the linker for.
pub open spec fn spec_link_libraries(node: DependencyNode) -> Seq<Seq<char>> {
    match node.options {
        Some(DependencyOptions::ExecutableOptions { link_libraries, .. }) => link_libraries.deep_view(),
        None => Seq::empty(),
    }
}

/// The work instructions owed for `node`: none for an interface, one compile
/// per source for a library, a single link for an executable.
pub open spec fn spec_instructions_for(
    node: DependencyNode,
    deps: Seq<TargetDataView>,
    build_dir: Seq<char>,
) -> Seq<WorkInstructionView> {
    match node.dep_type {
        DependencyType::INTERFACE => Seq::empty(),
        DependencyType::LIBRARY => Seq::new(
            node.files.deep_view().len(),
            |j: int|
                WorkInstructionView::Compile {
                    source_file: node.files.deep_view()[j],
                    include_dirs: gathered_include_dirs(deps),
                    output_file: spec_object_path(build_dir, node.files.deep_view()[j]),
                },
        ),
        DependencyType::EXECUTABLE => seq![
            WorkInstructionView::Link {
                object_files: gathered_objects(deps),
                link_libraries: spec_link_libraries(node),
                output_file: spec_executable_path(build_dir, node.name@),
            },
        ],
    }
}

/// The target data owed for `node`.
pub open spec fn spec_target_data_for(
    node: DependencyNode,
    deps: Seq<TargetDataView>,
    build_dir: Seq<char>,
) -> TargetDataView {
    match node.dep_type {
        DependencyType::INTERFACE => TargetDataView::INTERFACE {
            include_dirs: seq![spec_parent(node.files.deep_view()[0])],
        },
        DependencyType::LIBRARY => TargetDataView::LIBRARY {
            include_dirs: gathered_include_dirs(deps),
            object_files: Seq::new(
                node.files.deep_view().len(),
                |j: int| spec_object_path(build_dir, node.files.deep_view()[j]),
            ),
        },
        DependencyType::EXECUTABLE => TargetDataView::EXECUTABLE {
            executable_file: spec_executable_path(build_dir, node.name@),
        },
    }
}

/// No dependency exposes executable data: executables are roots and never
/// feed a dependent.
pub open spec fn deps_have_no_executable(deps: Seq<TargetDataView>) -> bool {
    forall|k: int| 0 <= k < deps.len() ==> !((#[trigger] deps[k]) is EXECUTABLE)
}

/// What the instructor needs of a node before it can be processed: an
/// interface owns at least one header, an executable carries options, and no
/// dependency of a buildable node is an executable.
pub open spec fn instructable(node: DependencyNode, deps: Seq<TargetDataView>) -> bool {
    &&& node.dep_type == DependencyType::INTERFACE ==> node.files@.len() >= 1
    &&& node.dep_type == DependencyType::EXECUTABLE ==> node.options is Some
    &&& node.dep_type != DependencyType::INTERFACE ==> deps_have_no_executable(deps)
}

/// Appends deep copies of all of `src` to `dst`.
fn extend_strings(dst: &mut Vec<String>, src: &Vec<String>)
    ensures
        final(dst).deep_view() == old(dst).deep_view() + src.deep_view(),
{
    let ghost dst0 = dst.deep_view();
    let n = src.len();
    let mut k: usize = 0;
    while k < n
        invariant
            n == src@.len(),
            k <= n,
            dst.deep_view() == dst0 + src.deep_view().take(k as int),
        decreases n - k,
    {
        let ghost prev_vec = *dst;
        let x = src[k].clone();
        let ghost xg = x;
        dst.push(x);
        proof {
            lemma_push_deep_view(prev_vec, *dst, xg);
            assert(dst.deep_view() =~= dst0 + src.deep_view().take(k + 1));
        }
        k += 1;
    }
    proof {
        assert(src.deep_view().take(n as int) =~= src.deep_view());
    }
}

pub struct Instructor<'a> {
    pub graph: &'a DependencyGraph,
    pub build_dir: String,
    pub node: Option<Ref>,
    pub target_data: Option<TargetData>,
    pub dependency_data: Vec<TargetData>,
    pub work_instructions: Vec<WorkInstruction>,
}

impl<'a> Instructor<'a> {
    /// The node currently set, meaningful only while `self.node is Some`.
    pub open spec fn the_node(&self) -> Ref {
        match self.node {
            Some(n) => n,
            None => Ref { idx: 0 },
        }
    }

    pub fn new(graph: &'a DependencyGraph, build_dir: String) -> (r: Instructor<'a>)
        ensures
            r.graph == graph,
            r.build_dir@ == build_dir@,
            r.node is None,
            r.target_data is None,
            r.dependency_data@.len() == 0,
            r.work_instructions@.len() == 0,
    {
        Instructor {
            graph,
            build_dir,
            node: None,
            target_data: None,
            dependency_data: Vec::new(),
            work_instructions: Vec::new(),
        }
    }

    /// Clears all per-node state so the instructor can serve another node.
    pub fn reset(&mut self)
        ensures
            final(self).graph == old(self).graph,
            final(self).build_dir == old(self).build_dir,
            final(self).node is None,
            final(self).target_data is None,
            final(self).dependency_data@.len() == 0,
            final(self).work_instructions@.len() == 0,
    {
        self.target_data = None;
        self.node = None;
        self.work_instructions = Vec::new();
        self.dependency_data = Vec::new();
    }

    pub fn set_node(&mut self, node: Ref)
        ensures
            *final(self) == (Instructor { node: Some(node), ..*old(self) }),
    {
        self.node = Some(node);
    }

    pub fn set_dependency_targetdata(&mut self, data: Vec<TargetData>)
        ensures
            *final(self) == (Instructor { dependency_data: data, ..*old(self) }),
    {
        self.dependency_data = data;
    }

    /// The target data computed by the last `process` call.
    pub fn get_targetdata(&self) -> (r: TargetData)
        requires
            self.target_data is Some,
        ensures
            match self.target_data {
                Some(td) => r@ == td@,
                None => false,
            },
    {
        match &self.target_data {
            Some(data) => data.duplicate(),
            None => TargetData::INTERFACE { include_dirs: Vec::new() },
        }
    }

    /// The work instructions computed by the last `process` call.
    pub fn get_instructions(&self) -> (r: Vec<WorkInstruction>)
        ensures
            r.deep_view() == self.work_instructions.deep_view(),
    {
        let n = self.work_instructions.len();
        let mut r: Vec<WorkInstruction> = Vec::new();
        let mut k: usize = 0;
        while k < n
            invariant
                n == self.work_instructions@.len(),
                k <= n,
                r.deep_view() == self.work_instructions.deep_view().take(k as int),
            decreases n - k,
        {
            let ghost prev_vec = r;
            let x = self.work_instructions[k].duplicate();
            let ghost xg = x;
            r.push(x);
            proof {
                lemma_push_deep_view(prev_vec, r, xg);
                assert(r.deep_view() =~= self.work_instructions.deep_view().take(k + 1));
            }
            k += 1;
        }
        proof {
            assert(self.work_instructions.deep_view().take(n as int)
                =~= self.work_instructions.deep_view());
        }
        r
    }

    /// Translates the set node and its dependencies' target data into work
    /// instructions and the node's own target data. The transformation is
    /// single-shot: the instructor is reset before the next node.
    pub fn process(&mut self)
        requires
            old(self).node is Some,
            old(self).the_node().idx < old(self).graph.arena@.len(),
            old(self).work_instructions@.len() == 0,
            instructable(
                old(self).graph.arena@[old(self).the_node().idx as int],
                old(self).dependency_data.deep_view(),
            ),
        ensures
            final(self).graph == old(self).graph,
            final(self).build_dir == old(self).build_dir,
            final(self).node == old(self).node,
            final(self).dependency_data == old(self).dependency_data,
            final(self).work_instructions.deep_view() == spec_instructions_for(
                old(self).graph.arena@[old(self).the_node().idx as int],
                old(self).dependency_data.deep_view(),
                old(self).build_dir@,
            ),
            match final(self).target_data {
                Some(td) => td@ == spec_target_data_for(
                    old(self).graph.arena@[old(self).the_node().idx as int],
                    old(self).dependency_data.deep_view(),
                    old(self).build_dir@,
                ),
                None => false,
            },
    {
        let nd = match self.node {
            Some(n) => n,
            None => Ref { idx: 0 },
        };
        let ghost node = self.graph.arena@[nd.idx as int];
        let ghost deps = self.dependency_data.deep_view();
        let ghost bd = self.build_dir@;

        match self.graph.get_type(nd) {
            DependencyType::INTERFACE => {
                let headers = self.graph.get_files(nd);
                proof {
                    assert(headers.deep_view().len() == node.files.deep_view().len());
                }
                let include_dir = parent_of(headers[0].as_str());
                proof {
                    assert(headers[0]@ == headers.deep_view()[0]);
                    assert(node.files.deep_view()[0] == node.files@[0]@);
                }
                let mut dirs: Vec<String> = Vec::new();
                let ghost dirs0 = dirs;
                let ghost dirg = include_dir;
                dirs.push(include_dir);
                proof {
                    lemma_push_deep_view(dirs0, dirs, dirg);
                    assert(dirs.deep_view() =~= seq![spec_parent(node.files.deep_view()[0])]);
                    assert(self.work_instructions.deep_view() =~= Seq::<
                        WorkInstructionView,
                    >::empty());
                }
                self.target_data = Some(TargetData::INTERFACE { include_dirs: dirs });
            },
            DependencyType::LIBRARY => {
                let deps_len = self.dependency_data.len();
                let mut include_dirs: Vec<String> = Vec::new();
                let mut k: usize = 0;
                while k < deps_len
                    invariant
                        self == old(self),
                        deps_len == self.dependency_data@.len(),
                        deps == self.dependency_data.deep_view(),
                        k <= deps_len,
                        deps_have_no_executable(deps),
                        include_dirs.deep_view() == gathered_include_dirs(deps.take(k as int)),
                    decreases deps_len - k,
                {
                    proof {
                        assert(deps.take(k + 1).drop_last() =~= deps.take(k as int));
                        assert(deps.take(k + 1).last() == deps[k as int]);
                        assert(self.dependency_data@[k as int]@ == deps[k as int]);
                    }
                    match &self.dependency_data[k] {
                        TargetData::LIBRARY { include_dirs: lib_include_dirs, .. } => {
                            extend_strings(&mut include_dirs, lib_include_dirs);
                        },
                        TargetData::INTERFACE { include_dirs: lib_include_dirs } => {
                            extend_strings(&mut include_dirs, lib_include_dirs);
                        },
                        TargetData::EXECUTABLE { .. } => {
                            proof {
                                assert(deps[k as int] is EXECUTABLE);
                                assert(false);
                            }
                        },
                    }
                    k += 1;
                }
                proof {
                    assert(deps.take(deps_len as int) =~= deps);
                }
                let files = self.graph.get_files(nd);
                let files_len = files.len();
                let mut object_files: Vec<String> = Vec::new();
                let mut instrs: Vec<WorkInstruction> = Vec::new();
                let mut j: usize = 0;
                while j < files_len
                    invariant
                        self == old(self),
                        node == self.graph.arena@[nd.idx as int],
                        nd.idx < self.graph.arena@.len(),
                        deps == self.dependency_data.deep_view(),
                        bd == self.build_dir@,
                        files.deep_view() == node.files.deep_view(),
                        files_len == files@.len(),
                        j <= files_len,
                        include_dirs.deep_view() == gathered_include_dirs(deps),
                        node.dep_type == DependencyType::LIBRARY,
                        instrs.deep_view() == spec_instructions_for(node, deps, bd).take(j as int),
                        object_files.deep_view() == Seq::new(
                            node.files.deep_view().len(),
                            |i: int| spec_object_path(bd, node.files.deep_view()[i]),
                        ).take(j as int),
                    decreases files_len - j,
                {
                    let source = &files[j];
                    let base = basename_of(source.as_str());
                    let with_dir = join_path(self.build_dir.as_str(), base.as_str());
                    let object_file = concat_str(with_dir.as_str(), ".o");
                    proof {
                        reveal_strlit(".o");
                        assert(".o"@ =~= seq!['.', 'o']);
                        assert(source@ == files.deep_view()[j as int]);
                        assert(object_file@ == spec_object_path(
                            bd,
                            node.files.deep_view()[j as int],
                        ));
                    }
                    let ghost instrs0 = instrs;
                    let ghost objs0 = object_files;
                    let instr = WorkInstruction::Compile {
                        source_file: source.clone(),
                        include_dirs: include_dirs.clone(),
                        output_file: object_file.clone(),
                    };
                    let ghost instrg = instr;
                    instrs.push(instr);
                    let ghost objg = object_file;
                    object_files.push(object_file);
                    proof {
                        lemma_push_deep_view(instrs0, instrs, instrg);
                        lemma_push_deep_view(objs0, object_files, objg);
                        assert(instrs.deep_view() =~= spec_instructions_for(node, deps, bd).take(
                            j + 1,
                        ));
                        assert(object_files.deep_view() =~= Seq::new(
                            node.files.deep_view().len(),
                            |i: int| spec_object_path(bd, node.files.deep_view()[i]),
                        ).take(j + 1));
                    }
                    j += 1;
                }
                proof {
                    assert(spec_instructions_for(node, deps, bd).take(files_len as int)
                        =~= spec_instructions_for(node, deps, bd));
                    assert(Seq::new(
                        node.files.deep_view().len(),
                        |i: int| spec_object_path(bd, node.files.deep_view()[i]),
                    ).take(files_len as int) =~= Seq::new(
                        node.files.deep_view().len(),
                        |i: int| spec_object_path(bd, node.files.deep_view()[i]),
                    ));
                }
                self.work_instructions = instrs;
                self.target_data = Some(
                    TargetData::LIBRARY { include_dirs, object_files },
                );
            },
            DependencyType::EXECUTABLE => {
                let deps_len = self.dependency_data.len();
                let mut object_files: Vec<String> = Vec::new();
                let mut k: usize = 0;
                while k < deps_len
                    invariant
                        self == old(self),
                        deps_len == self.dependency_data@.len(),
                        deps == self.dependency_data.deep_view(),
                        k <= deps_len,
                        deps_have_no_executable(deps),
                        object_files.deep_view() == gathered_objects(deps.take(k as int)),
                    decreases deps_len - k,
                {
                    proof {
                        assert(deps.take(k + 1).drop_last() =~= deps.take(k as int));
                        assert(deps.take(k + 1).last() == deps[k as int]);
                        assert(self.dependency_data@[k as int]@ == deps[k as int]);
                    }
                    match &self.dependency_data[k] {
                        TargetData::LIBRARY { object_files: lib_object_files, .. } => {
                            extend_strings(&mut object_files, lib_object_files);
                        },
                        TargetData::INTERFACE { .. } => {
                            proof {
                                assert(object_files.deep_view() =~= gathered_objects(deps.take(k
                                    + 1)));
                            }
                        },
                        TargetData::EXECUTABLE { .. } => {
                            proof {
                                assert(deps[k as int] is EXECUTABLE);
                                assert(false);
                            }
                        },
                    }
                    k += 1;
                }
                proof {
                    assert(deps.take(deps_len as int) =~= deps);
                }
                let name = self.graph.get_name(nd);
                let executable_file = join_path(self.build_dir.as_str(), name.as_str());
                let executable_options = self.graph.get_options(nd);
                let link_libraries = match executable_options {
                    Some(DependencyOptions::ExecutableOptions { link_libraries, .. }) => link_libraries,
                    None => Vec::new(),
                };
                proof {
                    assert(link_libraries.deep_view() == spec_link_libraries(node));
                }
                let ghost wi0 = self.work_instructions;
                let instr = WorkInstruction::Link {
                    object_files,
                    link_libraries,
                    output_file: executable_file.clone(),
                };
                let ghost instrg = instr;
                self.work_instructions.push(instr);
                proof {
                    lemma_push_deep_view(wi0, self.work_instructions, instrg);
                    assert(self.work_instructions.deep_view() =~= spec_instructions_for(
                        node,
                        deps,
                        bd,
                    ));
                }
                self.target_data = Some(TargetData::EXECUTABLE { executable_file });
            },
        }
    }
}

} // verus!
