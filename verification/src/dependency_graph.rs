//! Typed dependency graph: an arena of target nodes (interface, library,
//! executable) with two mutually inverse edge sets, `requires` and
//! `is_required_by`.
use vstd::prelude::*;

use crate::strings::ends_with_str;
use crate::strings::spec_ends_with;

verus! {

broadcast use vstd::std_specs::vec::vec_clone_deep_view_proof;

#[derive(Debug, Copy, Clone, PartialEq, Eq, Structural)]
pub enum DependencyType {
    INTERFACE,
    LIBRARY,
    EXECUTABLE,
}

#[derive(Debug, Clone)]
pub enum DependencyOptions {
    ExecutableOptions { link_flags: Vec<String>, link_libraries: Vec<String> },
}

/// Opaque stable handle into the graph's arena. Cheap to copy and compare;
/// nodes are never removed, so a handle stays valid for the graph's lifetime.
#[derive(Debug, Copy, Clone, PartialEq, Eq, Hash, Structural)]
pub struct Ref {
    pub idx: usize,
}

#[derive(Debug)]
pub struct DependencyNode {
    pub name: String,
    pub dep_type: DependencyType,
    pub files: Vec<String>,
    pub options: Option<DependencyOptions>,
    pub requires: Vec<Ref>,
    pub is_required_by: Vec<Ref>,
}

#[derive(Debug)]
pub struct DependencyGraph {
    pub arena: Vec<DependencyNode>,
    pub roots: Vec<Ref>,
}

/// Number of occurrences of handles with index `t` in `s`, counting from
/// position `from` on.
pub open spec fn occ_from(s: Seq<Ref>, from: int, t: int) -> nat
    decreases s.len() - from,
{
    if from < 0 || from >= s.len() {
        0
    } else {
        (if s[from].idx == t {
            1nat
        } else {
            0nat
        }) + occ_from(s, from + 1, t)
    }
}

/// Number of occurrences of handles with index `t` in `s`.
pub open spec fn occ(s: Seq<Ref>, t: int) -> nat {
    occ_from(s, 0, t)
}

/// Every edge of node `i` points inside the arena.
pub open spec fn node_edges_in_bounds(arena: Seq<DependencyNode>, i: int) -> bool {
    &&& forall|k: int|
        0 <= k < arena[i].requires@.len() ==> (#[trigger] arena[i].requires@[k]).idx < arena.len()
    &&& forall|k: int|
        0 <= k < arena[i].is_required_by@.len() ==> (#[trigger] arena[i].is_required_by@[k]).idx
            < arena.len()
}

/// The two edge sets are inverse to each other, with multiplicity:
/// `b` occurs in `requires(a)` as often as `a` occurs in `is_required_by(b)`.
pub open spec fn edges_consistent(arena: Seq<DependencyNode>) -> bool {
    forall|a: int, b: int|
        0 <= a < arena.len() && 0 <= b < arena.len() ==> occ(#[trigger] arena[a].requires@, b)
            == occ(#[trigger] arena[b].is_required_by@, a)
}

impl DependencyGraph {
    /// Well-formedness: all handles stay inside the arena and the edge sets
    /// are consistent. Established by the constructors and preserved by every
    /// mutator.
    pub open spec fn wf(&self) -> bool {
        &&& forall|i: int|
            0 <= i < self.arena@.len() ==> #[trigger] node_edges_in_bounds(self.arena@, i)
        &&& forall|k: int|
            0 <= k < self.roots@.len() ==> (#[trigger] self.roots@[k]).idx < self.arena@.len()
        &&& edges_consistent(self.arena@)
    }

    pub open spec fn spec_len(&self) -> nat {
        self.arena@.len()
    }

    pub open spec fn spec_node(&self, i: int) -> DependencyNode {
        self.arena@[i]
    }
}

proof fn lemma_occ_from_push(s: Seq<Ref>, x: Ref, t: int, j: int)
    requires
        0 <= j <= s.len(),
    ensures
        occ_from(s.push(x), j, t) == occ_from(s, j, t) + (if x.idx == t {
            1nat
        } else {
            0nat
        }),
    decreases s.len() - j,
{
    if j == s.len() {
        assert(occ_from(s, j, t) == 0);
        assert(s.push(x)[j] == x);
        assert(occ_from(s.push(x), j + 1, t) == 0);
    } else {
        assert(s.push(x)[j] == s[j]);
        lemma_occ_from_push(s, x, t, j + 1);
    }
}

/// Pushing a handle onto an edge list raises its occurrence count for the
/// pushed index by one and leaves every other count unchanged.
pub proof fn lemma_occ_push(s: Seq<Ref>, x: Ref, t: int)
    ensures
        occ(s.push(x), t) == occ(s, t) + (if x.idx == t {
            1nat
        } else {
            0nat
        }),
{
    lemma_occ_from_push(s, x, t, 0);
}

proof fn lemma_occ_from_zero(s: Seq<Ref>, t: int, j: int)
    requires
        0 <= j <= s.len(),
        forall|k: int| 0 <= k < s.len() ==> (#[trigger] s[k]).idx != t,
    ensures
        occ_from(s, j, t) == 0,
    decreases s.len() - j,
{
    if j < s.len() {
        lemma_occ_from_zero(s, t, j + 1);
    }
}

/// A sequence that never mentions index `t` has occurrence count zero for it.
pub proof fn lemma_occ_zero(s: Seq<Ref>, t: int)
    requires
        forall|k: int| 0 <= k < s.len() ==> (#[trigger] s[k]).idx != t,
    ensures
        occ(s, t) == 0,
{
    lemma_occ_from_zero(s, t, 0);
}

impl DependencyGraph {
    pub fn new() -> (g: DependencyGraph)
        ensures
            g.wf(),
            g.arena@.len() == 0,
            g.roots@.len() == 0,
    {
        DependencyGraph { arena: Vec::new(), roots: Vec::new() }
    }

    /// Allocates a slot in the arena for a node with no edges yet.
    fn add_node(&mut self, node: DependencyNode) -> (r: Ref)
        requires
            old(self).wf(),
            node.requires@.len() == 0,
            node.is_required_by@.len() == 0,
        ensures
            final(self).wf(),
            r.idx == old(self).arena@.len(),
            final(self).arena@ == old(self).arena@.push(node),
            final(self).roots@ == old(self).roots@,
    {
        let index = self.arena.len();
        self.arena.push(node);
        let node_ref = Ref { idx: index };
        proof {
            let a = self.arena@;
            let n = a.len() as int;
            assert forall|i: int| 0 <= i < n implies #[trigger] node_edges_in_bounds(a, i) by {
                if i < n - 1 {
                    assert(node_edges_in_bounds(old(self).arena@, i));
                }
            }
            assert forall|x: int, y: int| 0 <= x < n && 0 <= y < n implies occ(
                #[trigger] a[x].requires@,
                y,
            ) == occ(#[trigger] a[y].is_required_by@, x) by {
                if x < n - 1 && y < n - 1 {
                    assert(occ(old(self).arena@[x].requires@, y) == occ(
                        old(self).arena@[y].is_required_by@,
                        x,
                    ));
                } else if x == n - 1 && y == n - 1 {
                    assert(occ(a[x].requires@, y) == 0);
                    assert(occ(a[y].is_required_by@, x) == 0);
                } else if x == n - 1 {
                    assert(occ(a[x].requires@, y) == 0);
                    assert(forall|k: int|
                        0 <= k < a[y].is_required_by@.len() ==> (#[trigger] a[y].is_required_by@[k]).idx != x) by {
                        assert(node_edges_in_bounds(old(self).arena@, y));
                    }
                    lemma_occ_zero(a[y].is_required_by@, x);
                } else {
                    assert(occ(a[y].is_required_by@, x) == 0);
                    assert(forall|k: int|
                        0 <= k < a[x].requires@.len() ==> (#[trigger] a[x].requires@[k]).idx != y)
                        by {
                        assert(node_edges_in_bounds(old(self).arena@, x));
                    }
                    lemma_occ_zero(a[x].requires@, y);
                }
            }
        }
        node_ref
    }

    pub fn add_executable(&mut self, name: &str, files: Vec<String>) -> (r: Ref)
        requires
            old(self).wf(),
        ensures
            final(self).wf(),
            r.idx == old(self).arena@.len(),
            final(self).arena@.len() == old(self).arena@.len() + 1,
            forall|i: int| 0 <= i < old(self).arena@.len() ==> final(self).arena@[i] == old(self).arena@[i],
            final(self).arena@[r.idx as int].name@ == name@,
            final(self).arena@[r.idx as int].dep_type == DependencyType::EXECUTABLE,
            final(self).arena@[r.idx as int].files == files,
            final(self).arena@[r.idx as int].options is None,
            final(self).arena@[r.idx as int].requires@.len() == 0,
            final(self).arena@[r.idx as int].is_required_by@.len() == 0,
            final(self).roots@ == old(self).roots@.push(r),
    {
        let node = DependencyNode {
            dep_type: DependencyType::EXECUTABLE,
            name: name.to_owned(),
            files,
            options: None,
            requires: Vec::new(),
            is_required_by: Vec::new(),
        };
        let node_ref = self.add_node(node);
        self.roots.push(node_ref);
        node_ref
    }

    pub fn add_interface(&mut self, name: &str, files: Vec<String>) -> (r: Ref)
        requires
            old(self).wf(),
        ensures
            final(self).wf(),
            r.idx == old(self).arena@.len(),
            final(self).arena@.len() == old(self).arena@.len() + 1,
            forall|i: int| 0 <= i < old(self).arena@.len() ==> final(self).arena@[i] == old(self).arena@[i],
            final(self).arena@[r.idx as int].name@ == name@,
            final(self).arena@[r.idx as int].dep_type == DependencyType::INTERFACE,
            final(self).arena@[r.idx as int].files == files,
            final(self).arena@[r.idx as int].options is None,
            final(self).arena@[r.idx as int].requires@.len() == 0,
            final(self).arena@[r.idx as int].is_required_by@.len() == 0,
            final(self).roots@ == old(self).roots@,
    {
        let node = DependencyNode {
            dep_type: DependencyType::INTERFACE,
            name: name.to_owned(),
            files,
            options: None,
            requires: Vec::new(),
            is_required_by: Vec::new(),
        };
        self.add_node(node)
    }

    pub fn add_library(&mut self, name: &str, files: Vec<String>) -> (r: Ref)
        requires
            old(self).wf(),
        ensures
            final(self).wf(),
            r.idx == old(self).arena@.len(),
            final(self).arena@.len() == old(self).arena@.len() + 1,
            forall|i: int| 0 <= i < old(self).arena@.len() ==> final(self).arena@[i] == old(self).arena@[i],
            final(self).arena@[r.idx as int].name@ == name@,
            final(self).arena@[r.idx as int].dep_type == DependencyType::LIBRARY,
            final(self).arena@[r.idx as int].files == files,
            final(self).arena@[r.idx as int].options is None,
            final(self).arena@[r.idx as int].requires@.len() == 0,
            final(self).arena@[r.idx as int].is_required_by@.len() == 0,
            final(self).roots@ == old(self).roots@,
    {
        let node = DependencyNode {
            dep_type: DependencyType::LIBRARY,
            name: name.to_owned(),
            files,
            options: None,
            requires: Vec::new(),
            is_required_by: Vec::new(),
        };
        self.add_node(node)
    }

    fn add_requirement_to_node(&mut self, origin: Ref, requirement: Ref)
        requires
            origin.idx < old(self).arena@.len(),
        ensures
            final(self).arena@ == old(self).arena@.update(
                origin.idx as int,
                DependencyNode {
                    requires: final(self).arena@[origin.idx as int].requires,
                    ..old(self).arena@[origin.idx as int]
                },
            ),
            final(self).arena@[origin.idx as int].requires@ == old(self).arena@[origin.idx as int].requires@.push(requirement),
            final(self).roots@ == old(self).roots@,
    {
        self.arena[origin.idx].requires.push(requirement);
    }

    fn add_is_required_by_to_node(&mut self, origin: Ref, is_required_by: Ref)
        requires
            origin.idx < old(self).arena@.len(),
        ensures
            final(self).arena@ == old(self).arena@.update(
                origin.idx as int,
                DependencyNode {
                    is_required_by: final(self).arena@[origin.idx as int].is_required_by,
                    ..old(self).arena@[origin.idx as int]
                },
            ),
            final(self).arena@[origin.idx as int].is_required_by@ == old(self).arena@[origin.idx as int].is_required_by@.push(is_required_by),
            final(self).roots@ == old(self).roots@,
    {
        self.arena[origin.idx].is_required_by.push(is_required_by);
    }

    /// Records that `origin` depends on `requires`: the edge is stored in both
    /// directions, so the two edge sets stay inverse to each other.
    pub fn add_requirement(&mut self, origin: Ref, required: Ref)
        requires
            old(self).wf(),
            origin.idx < old(self).arena@.len(),
            required.idx < old(self).arena@.len(),
        ensures
            final(self).wf(),
            final(self).arena@.len() == old(self).arena@.len(),
            final(self).roots@ == old(self).roots@,
            final(self).arena@[origin.idx as int].requires@ == old(self).arena@[origin.idx as int].requires@.push(required),
            final(self).arena@[required.idx as int].is_required_by@ == old(self).arena@[required.idx as int].is_required_by@.push(origin),
            forall|i: int|
                0 <= i < final(self).arena@.len() && i != origin.idx ==> (
                #[trigger] final(self).arena@[i]).requires@ == old(self).arena@[i].requires@,
            forall|i: int|
                0 <= i < final(self).arena@.len() && i != required.idx ==> (
                #[trigger] final(self).arena@[i]).is_required_by@ == old(self).arena@[i].is_required_by@,
            forall|i: int|
                0 <= i < final(self).arena@.len() ==> {
                    &&& (#[trigger] final(self).arena@[i]).name@ == old(self).arena@[i].name@
                    &&& final(self).arena@[i].dep_type == old(self).arena@[i].dep_type
                    &&& final(self).arena@[i].files == old(self).arena@[i].files
                    &&& final(self).arena@[i].options == old(self).arena@[i].options
                },
    {
        self.add_requirement_to_node(origin, required);
        self.add_is_required_by_to_node(required, origin);
        proof {
            let a = self.arena@;
            let n = a.len() as int;
            let o = origin.idx as int;
            let q = required.idx as int;
            assert forall|i: int| 0 <= i < n implies #[trigger] node_edges_in_bounds(a, i) by {
                assert(node_edges_in_bounds(old(self).arena@, i));
                if i == o {
                    assert forall|k: int| 0 <= k < a[i].requires@.len() implies (
                    #[trigger] a[i].requires@[k]).idx < n by {
                        let oldr = old(self).arena@[i].requires@;
                        if k < oldr.len() {
                            assert(a[i].requires@[k] == oldr[k]);
                        } else {
                            assert(a[i].requires@[k] == required);
                        }
                    }
                }
                if i == q {
                    assert forall|k: int| 0 <= k < a[i].is_required_by@.len() implies (
                    #[trigger] a[i].is_required_by@[k]).idx < n by {
                        let oldr = old(self).arena@[i].is_required_by@;
                        if k < oldr.len() {
                            assert(a[i].is_required_by@[k] == oldr[k]);
                        } else {
                            assert(a[i].is_required_by@[k] == origin);
                        }
                    }
                }
            }
            assert forall|x: int, y: int| 0 <= x < n && 0 <= y < n implies occ(
                #[trigger] a[x].requires@,
                y,
            ) == occ(#[trigger] a[y].is_required_by@, x) by {
                assert(occ(old(self).arena@[x].requires@, y) == occ(
                    old(self).arena@[y].is_required_by@,
                    x,
                ));
                if x == o {
                    lemma_occ_push(old(self).arena@[x].requires@, required, y);
                }
                if y == q {
                    lemma_occ_push(old(self).arena@[y].is_required_by@, origin, x);
                }
            }
        }
    }
}


/// Node `i` is an interface whose name ends with `name`.
pub open spec fn spec_iface_match(arena: Seq<DependencyNode>, i: int, name: Seq<char>) -> bool {
    arena[i].dep_type == DependencyType::INTERFACE && spec_ends_with(arena[i].name@, name)
}

impl DependencyGraph {
    fn get_node(&self, node: Ref) -> (r: &DependencyNode)
        requires
            node.idx < self.arena@.len(),
        ensures
            *r == self.arena@[node.idx as int],
    {
        &self.arena[node.idx]
    }

    /// Attaches the given options to an executable node. Only executables
    /// carry options; calling this on any other node is a misuse.
    pub fn set_executable_options(&mut self, executable_ref: Ref, options: DependencyOptions)
        requires
            old(self).wf(),
            executable_ref.idx < old(self).arena@.len(),
            old(self).arena@[executable_ref.idx as int].dep_type == DependencyType::EXECUTABLE,
        ensures
            final(self).wf(),
            final(self).arena@ == old(self).arena@.update(
                executable_ref.idx as int,
                DependencyNode {
                    options: Some(options),
                    ..old(self).arena@[executable_ref.idx as int]
                },
            ),
            final(self).roots@ == old(self).roots@,
    {
        self.arena[executable_ref.idx].options = Some(options);
        proof {
            let a = self.arena@;
            let n = a.len() as int;
            assert forall|i: int| 0 <= i < n implies #[trigger] node_edges_in_bounds(a, i) by {
                assert(node_edges_in_bounds(old(self).arena@, i));
                assert(a[i].requires@ == old(self).arena@[i].requires@);
                assert(a[i].is_required_by@ == old(self).arena@[i].is_required_by@);
            }
            assert forall|x: int, y: int| 0 <= x < n && 0 <= y < n implies occ(
                #[trigger] a[x].requires@,
                y,
            ) == occ(#[trigger] a[y].is_required_by@, x) by {
                assert(a[x].requires@ == old(self).arena@[x].requires@);
                assert(a[y].is_required_by@ == old(self).arena@[y].is_required_by@);
                assert(occ(old(self).arena@[x].requires@, y) == occ(
                    old(self).arena@[y].is_required_by@,
                    x,
                ));
            }
        }
    }

    pub fn get_options(&self, node_ref: Ref) -> (r: Option<DependencyOptions>)
        requires
            node_ref.idx < self.arena@.len(),
        ensures
            match r {
                Some(o) => match self.arena@[node_ref.idx as int].options {
                    Some(stored) => match (o, stored) {
                        (
                            DependencyOptions::ExecutableOptions {
                                link_flags: f,
                                link_libraries: l,
                            },
                            DependencyOptions::ExecutableOptions {
                                link_flags: sf,
                                link_libraries: sl,
                            },
                        ) => f.deep_view() == sf.deep_view() && l.deep_view() == sl.deep_view(),
                    },
                    None => false,
                },
                None => self.arena@[node_ref.idx as int].options is None,
            },
    {
        let node = self.get_node(node_ref);
        match &node.options {
            Some(DependencyOptions::ExecutableOptions { link_flags, link_libraries }) => Some(
                DependencyOptions::ExecutableOptions {
                    link_flags: link_flags.clone(),
                    link_libraries: link_libraries.clone(),
                },
            ),
            None => None,
        }
    }

    /// Linear search for the first interface node whose name ends with the
    /// queried string.
    pub fn find_interface(&self, name: &str) -> (r: Option<Ref>)
        ensures
            match r {
                Some(rf) => rf.idx < self.arena@.len() && spec_iface_match(
                    self.arena@,
                    rf.idx as int,
                    name@,
                ) && forall|j: int| 0 <= j < rf.idx ==> !spec_iface_match(self.arena@, j, name@),
                None => forall|j: int|
                    0 <= j < self.arena@.len() ==> !spec_iface_match(self.arena@, j, name@),
            },
    {
        let n = self.arena.len();
        let mut index: usize = 0;
        while index < n
            invariant
                n == self.arena@.len(),
                index <= n,
                forall|j: int| 0 <= j < index ==> !spec_iface_match(self.arena@, j, name@),
            decreases n - index,
        {
            let node = &self.arena[index];
            if node.dep_type == DependencyType::INTERFACE && ends_with_str(
                node.name.as_str(),
                name,
            ) {
                return Some(Ref { idx: index });
            }
            index += 1;
        }
        None
    }

    pub fn get_roots(&self) -> (r: Vec<Ref>)
        ensures
            r@ == self.roots@,
    {
        let r = self.roots.clone();
        proof {
            assert(r@ =~= self.roots@);
        }
        r
    }

    pub fn get_name(&self, node: Ref) -> (r: String)
        requires
            node.idx < self.arena@.len(),
        ensures
            r@ == self.arena@[node.idx as int].name@,
    {
        let node = self.get_node(node);
        node.name.clone()
    }

    pub fn get_dependencies(&self, node: Ref) -> (r: Vec<Ref>)
        requires
            node.idx < self.arena@.len(),
        ensures
            r@ == self.arena@[node.idx as int].requires@,
    {
        let node_data = self.get_node(node);
        let r = node_data.requires.clone();
        proof {
            assert(r@ =~= self.arena@[node.idx as int].requires@);
        }
        r
    }

    /// The inverse edge set: every node that depends on `node`.
    pub fn get_nodes_that_depend_on(&self, node: Ref) -> (r: Vec<Ref>)
        requires
            node.idx < self.arena@.len(),
        ensures
            r@ == self.arena@[node.idx as int].is_required_by@,
    {
        let node_data = self.get_node(node);
        let r = node_data.is_required_by.clone();
        proof {
            assert(r@ =~= self.arena@[node.idx as int].is_required_by@);
        }
        r
    }

    pub fn get_type(&self, node: Ref) -> (r: DependencyType)
        requires
            node.idx < self.arena@.len(),
        ensures
            r == self.arena@[node.idx as int].dep_type,
    {
        let node = self.get_node(node);
        node.dep_type
    }

    pub fn get_files(&self, node: Ref) -> (r: Vec<String>)
        requires
            node.idx < self.arena@.len(),
        ensures
            r.deep_view() == self.arena@[node.idx as int].files.deep_view(),
    {
        let node = self.get_node(node);
        node.files.clone()
    }
}


/// No node requires an executable: executables are roots.
pub open spec fn no_executable_required(arena: Seq<DependencyNode>) -> bool {
    forall|i: int, k: int|
        0 <= i < arena.len() && 0 <= k < arena[i].requires@.len() ==> arena[(
        #[trigger] arena[i].requires@[k]).idx as int].dep_type != DependencyType::EXECUTABLE
}

/// Every interface node owns at least one header file.
pub open spec fn interfaces_have_files(arena: Seq<DependencyNode>) -> bool {
    forall|i: int|
        0 <= i < arena.len() && (#[trigger] arena[i]).dep_type == DependencyType::INTERFACE
            ==> arena[i].files@.len() >= 1
}

/// Every executable node carries its options.
pub open spec fn executables_have_options(arena: Seq<DependencyNode>) -> bool {
    forall|i: int|
        0 <= i < arena.len() && (#[trigger] arena[i]).dep_type == DependencyType::EXECUTABLE
            ==> arena[i].options is Some
}

/// Graph invariants that must hold before the scheduler is invoked; the
/// configurator establishes them.
pub open spec fn graph_ready(g: &DependencyGraph) -> bool {
    &&& g.wf()
    &&& no_executable_required(g.arena@)
    &&& interfaces_have_files(g.arena@)
    &&& executables_have_options(g.arena@)
}

/// Appending a node with no edges preserves the readiness parts, as long as
/// the node itself satisfies them.
pub proof fn lemma_ready_parts_push(arena: Seq<DependencyNode>, node: DependencyNode)
    requires
        forall|i: int| 0 <= i < arena.len() ==> #[trigger] node_edges_in_bounds(arena, i),
        node.requires@.len() == 0,
        no_executable_required(arena),
        interfaces_have_files(arena),
        executables_have_options(arena),
        node.dep_type == DependencyType::INTERFACE ==> node.files@.len() >= 1,
    ensures
        no_executable_required(arena.push(node)),
        interfaces_have_files(arena.push(node)),
        (node.dep_type == DependencyType::EXECUTABLE ==> node.options is Some)
            ==> executables_have_options(arena.push(node)),
{
    let a2 = arena.push(node);
    assert forall|i: int, k: int|
        0 <= i < a2.len() && 0 <= k < a2[i].requires@.len() implies a2[(
    #[trigger] a2[i].requires@[k]).idx as int].dep_type != DependencyType::EXECUTABLE by {
        if i < arena.len() {
            assert(a2[i] == arena[i]);
            assert(node_edges_in_bounds(arena, i));
            let t = arena[i].requires@[k].idx as int;
            assert(arena[t].dep_type != DependencyType::EXECUTABLE);
            assert(a2[t] == arena[t]);
        }
    }
    assert forall|i: int|
        0 <= i < a2.len() && (#[trigger] a2[i]).dep_type == DependencyType::INTERFACE implies a2[i].files@.len() >= 1 by {
        if i < arena.len() {
            assert(a2[i] == arena[i]);
        }
    }
    if node.dep_type == DependencyType::EXECUTABLE ==> node.options is Some {
        assert forall|i: int|
            0 <= i < a2.len() && (#[trigger] a2[i]).dep_type
                == DependencyType::EXECUTABLE implies a2[i].options is Some by {
            if i < arena.len() {
                assert(a2[i] == arena[i]);
            }
        }
    }
}

/// Recording one more requirement whose target is not an executable
/// preserves the readiness parts.
pub proof fn lemma_ready_parts_requirement(
    a1: Seq<DependencyNode>,
    a2: Seq<DependencyNode>,
    o: int,
    rq: Ref,
)
    requires
        a1.len() == a2.len(),
        0 <= o < a1.len(),
        rq.idx < a1.len(),
        forall|i: int|
            0 <= i < a1.len() ==> (#[trigger] a2[i]).dep_type == a1[i].dep_type && a2[i].files
                == a1[i].files && a2[i].options == a1[i].options,
        forall|i: int|
            0 <= i < a1.len() && i != o ==> (#[trigger] a2[i]).requires@ == a1[i].requires@,
        a2[o].requires@ == a1[o].requires@.push(rq),
        a1[rq.idx as int].dep_type != DependencyType::EXECUTABLE,
        forall|i: int| 0 <= i < a1.len() ==> #[trigger] node_edges_in_bounds(a1, i),
        no_executable_required(a1),
        interfaces_have_files(a1),
        executables_have_options(a1),
    ensures
        no_executable_required(a2),
        interfaces_have_files(a2),
        executables_have_options(a2),
{
    assert forall|i: int, k: int|
        0 <= i < a2.len() && 0 <= k < a2[i].requires@.len() implies a2[(
    #[trigger] a2[i].requires@[k]).idx as int].dep_type != DependencyType::EXECUTABLE by {
        if i != o || k < a1[o].requires@.len() {
            let t = a1[i].requires@[k].idx as int;
            assert(a1[t].dep_type != DependencyType::EXECUTABLE);
            assert(node_edges_in_bounds(a1, i));
            assert(t < a1.len());
            assert(a2[t].dep_type == a1[t].dep_type);
        } else {
            assert(a2[i].requires@[k] == rq);
            assert(a1[rq.idx as int].dep_type != DependencyType::EXECUTABLE);
            assert(a2[rq.idx as int].dep_type == a1[rq.idx as int].dep_type);
        }
    }
}

/// Attaching options to an executable preserves the readiness parts.
pub proof fn lemma_ready_parts_options(a1: Seq<DependencyNode>, a2: Seq<DependencyNode>, e: int)
    requires
        a1.len() == a2.len(),
        0 <= e < a1.len(),
        forall|i: int|
            0 <= i < a1.len() ==> (#[trigger] a2[i]).dep_type == a1[i].dep_type && a2[i].files
                == a1[i].files && a2[i].requires@ == a1[i].requires@,
        a2[e].options is Some,
        forall|i: int| 0 <= i < a1.len() && i != e ==> (#[trigger] a2[i]).options == a1[i].options,
        forall|i: int| 0 <= i < a1.len() ==> #[trigger] node_edges_in_bounds(a1, i),
        no_executable_required(a1),
        interfaces_have_files(a1),
        forall|i: int|
            0 <= i < a1.len() && i != e && (#[trigger] a1[i]).dep_type
                == DependencyType::EXECUTABLE ==> a1[i].options is Some,
    ensures
        no_executable_required(a2),
        interfaces_have_files(a2),
        executables_have_options(a2),
{
    assert forall|i: int, k: int|
        0 <= i < a2.len() && 0 <= k < a2[i].requires@.len() implies a2[(
    #[trigger] a2[i].requires@[k]).idx as int].dep_type != DependencyType::EXECUTABLE by {
        let t = a1[i].requires@[k].idx as int;
        assert(a1[t].dep_type != DependencyType::EXECUTABLE);
        assert(node_edges_in_bounds(a1, i));
        assert(t < a1.len());
        assert(a2[t].dep_type == a1[t].dep_type);
    }
    assert forall|i: int|
        0 <= i < a2.len() && (#[trigger] a2[i]).dep_type == DependencyType::EXECUTABLE implies a2[i].options is Some by {
        if i != e {
            assert(a1[i].dep_type == DependencyType::EXECUTABLE);
        }
    }
}


/// `p` is a walk along `requires` edges: every handle in bounds, every
/// consecutive pair an edge.
pub open spec fn is_requires_path(g: &DependencyGraph, p: Seq<Ref>) -> bool {
    &&& p.len() >= 1
    &&& forall|k: int| 0 <= k < p.len() ==> (#[trigger] p[k]).idx < g.arena@.len()
    &&& forall|k: int|
        0 <= k < p.len() - 1 ==> g.arena@[(#[trigger] p[k]).idx as int].requires@.contains(
            p[k + 1],
        )
}

/// `b` lies in the transitive `requires` closure of `a` (reflexively).
pub open spec fn reaches(g: &DependencyGraph, a: Ref, b: Ref) -> bool {
    exists|p: Seq<Ref>|
        (#[trigger] is_requires_path(g, p)) && p.first() == a && p.last() == b
}

pub proof fn lemma_reaches_self(g: &DependencyGraph, a: Ref)
    requires
        a.idx < g.arena@.len(),
    ensures
        reaches(g, a, a),
{
    let p = seq![a];
    assert(is_requires_path(g, p));
    assert(p.first() == a && p.last() == a);
}

/// One `requires` edge extends a walk.
pub proof fn lemma_reaches_step(g: &DependencyGraph, a: Ref, b: Ref, d: Ref)
    requires
        reaches(g, a, b),
        b.idx < g.arena@.len(),
        g.arena@[b.idx as int].requires@.contains(d),
        d.idx < g.arena@.len(),
    ensures
        reaches(g, a, d),
{
    let p = choose|p: Seq<Ref>|
        (#[trigger] is_requires_path(g, p)) && p.first() == a && p.last() == b;
    let p2 = p.push(d);
    assert forall|k: int| 0 <= k < p2.len() - 1 implies g.arena@[(
    #[trigger] p2[k]).idx as int].requires@.contains(p2[k + 1]) by {
        if k < p.len() - 1 {
            assert(p2[k] == p[k] && p2[k + 1] == p[k + 1]);
        } else {
            assert(p2[k] == b && p2[k + 1] == d);
        }
    }
    assert(is_requires_path(g, p2));
    assert(p2.first() == a && p2.last() == d);
}


/// No walk along `requires` edges returns to its start: the graph is
/// acyclic.
pub open spec fn acyclic(g: &DependencyGraph) -> bool {
    forall|p: Seq<Ref>|
        #[trigger] is_requires_path(g, p) && p.len() >= 2 ==> p.first() != p.last()
}

/// `rank` witnesses that every `requires` edge strictly descends.
pub open spec fn rank_respecting(arena: Seq<DependencyNode>, rank: Seq<int>) -> bool {
    &&& rank.len() == arena.len()
    &&& forall|i: int, k: int|
        0 <= i < arena.len() && 0 <= k < arena[i].requires@.len() ==> rank[(
        #[trigger] arena[i].requires@[k]).idx as int] < rank[i]
}

/// Along a rank-respecting walk the rank strictly drops at every step.
proof fn lemma_rank_path(g: &DependencyGraph, rank: Seq<int>, p: Seq<Ref>, j: int)
    requires
        g.wf(),
        rank_respecting(g.arena@, rank),
        is_requires_path(g, p),
        0 <= j < p.len(),
    ensures
        rank[p[j].idx as int] <= rank[p[0].idx as int] - j,
    decreases j,
{
    if j > 0 {
        lemma_rank_path(g, rank, p, j - 1);
        assert(g.arena@[p[j - 1].idx as int].requires@.contains(p[j]));
        let k = choose|k: int|
            0 <= k < g.arena@[p[j - 1].idx as int].requires@.len() && (#[trigger] g.arena@[p[j
                - 1].idx as int].requires@[k]) == p[j];
        assert(g.arena@[p[j - 1].idx as int].requires@[k] == p[j]);
        assert(rank[p[j].idx as int] < rank[p[j - 1].idx as int]);
    }
}

/// A graph with a rank-respecting edge order is acyclic.
pub proof fn lemma_rank_acyclic(g: &DependencyGraph, rank: Seq<int>)
    requires
        g.wf(),
        rank_respecting(g.arena@, rank),
    ensures
        acyclic(g),
{
    assert forall|p: Seq<Ref>|
        #[trigger] is_requires_path(g, p) && p.len() >= 2 implies p.first() != p.last() by {
        lemma_rank_path(g, rank, p, p.len() - 1);
        assert(rank[p.last().idx as int] <= rank[p.first().idx as int] - (p.len() - 1));
    }
}


/// Appending an edgeless node with any rank keeps the order respected.
pub proof fn lemma_rank_push(arena: Seq<DependencyNode>, node: DependencyNode, rank: Seq<int>, v: int)
    requires
        rank_respecting(arena, rank),
        node.requires@.len() == 0,
        forall|i: int| 0 <= i < arena.len() ==> #[trigger] node_edges_in_bounds(arena, i),
    ensures
        rank_respecting(arena.push(node), rank.push(v)),
{
    let a2 = arena.push(node);
    let r2 = rank.push(v);
    assert forall|i: int, k: int|
        0 <= i < a2.len() && 0 <= k < a2[i].requires@.len() implies r2[(
    #[trigger] a2[i].requires@[k]).idx as int] < r2[i] by {
        if i < arena.len() {
            assert(a2[i] == arena[i]);
            assert(node_edges_in_bounds(arena, i));
            let t = arena[i].requires@[k].idx as int;
            assert(rank[t] < rank[i]);
            assert(r2[t] == rank[t] && r2[i] == rank[i]);
        }
    }
}

/// Recording one more requirement whose target ranks strictly lower keeps
/// the order respected.
pub proof fn lemma_rank_requirement(
    a1: Seq<DependencyNode>,
    a2: Seq<DependencyNode>,
    rank: Seq<int>,
    o: int,
    rq: Ref,
)
    requires
        a1.len() == a2.len(),
        0 <= o < a1.len(),
        rq.idx < a1.len(),
        forall|i: int|
            0 <= i < a1.len() && i != o ==> (#[trigger] a2[i]).requires@ == a1[i].requires@,
        a2[o].requires@ == a1[o].requires@.push(rq),
        rank_respecting(a1, rank),
        rank[rq.idx as int] < rank[o],
        forall|i: int| 0 <= i < a1.len() ==> #[trigger] node_edges_in_bounds(a1, i),
    ensures
        rank_respecting(a2, rank),
{
    assert forall|i: int, k: int|
        0 <= i < a2.len() && 0 <= k < a2[i].requires@.len() implies rank[(
    #[trigger] a2[i].requires@[k]).idx as int] < rank[i] by {
        if i != o || k < a1[o].requires@.len() {
            let t = a1[i].requires@[k].idx as int;
            assert(rank[t] < rank[i]);
        } else {
            assert(a2[i].requires@[k] == rq);
        }
    }
}

/// A change that leaves every `requires` list alone keeps the order
/// respected.
pub proof fn lemma_rank_same_edges(a1: Seq<DependencyNode>, a2: Seq<DependencyNode>, rank: Seq<int>)
    requires
        a1.len() == a2.len(),
        forall|i: int| 0 <= i < a1.len() ==> (#[trigger] a2[i]).requires@ == a1[i].requires@,
        rank_respecting(a1, rank),
    ensures
        rank_respecting(a2, rank),
{
    assert forall|i: int, k: int|
        0 <= i < a2.len() && 0 <= k < a2[i].requires@.len() implies rank[(
    #[trigger] a2[i].requires@[k]).idx as int] < rank[i] by {
        let t = a1[i].requires@[k].idx as int;
        assert(rank[t] < rank[i]);
    }
}


/// No two distinct nodes of the same kind carry the same name.
pub open spec fn names_unique_per_kind(arena: Seq<DependencyNode>) -> bool {
    forall|i: int, j: int|
        0 <= i < arena.len() && 0 <= j < arena.len() && i != j && (#[trigger] arena[i]).dep_type
            == (#[trigger] arena[j]).dep_type ==> arena[i].name@ != arena[j].name@
}

impl DependencyGraph {
    /// Whether node names are unique within each kind, as a configured
    /// graph is meant to keep them. The discipline itself rests on the
    /// project's layout, so callers check it rather than every graph
    /// carrying it.
    pub fn check_names_unique(&self) -> (r: bool)
        ensures
            r == names_unique_per_kind(self.arena@),
    {
        let n = self.arena.len();
        let mut i: usize = 0;
        while i < n
            invariant
                n == self.arena@.len(),
                i <= n,
                forall|x: int, y: int|
                    0 <= x < i && 0 <= y < n && x != y && (#[trigger] self.arena@[x]).dep_type == (
                    #[trigger] self.arena@[y]).dep_type ==> self.arena@[x].name@
                        != self.arena@[y].name@,
            decreases n - i,
        {
            let mut j: usize = 0;
            while j < n
                invariant
                    n == self.arena@.len(),
                    i < n,
                    j <= n,
                    forall|y: int|
                        0 <= y < j && i != y && (#[trigger] self.arena@[y]).dep_type
                            == self.arena@[i as int].dep_type ==> self.arena@[i as int].name@
                            != self.arena@[y].name@,
                decreases n - j,
            {
                if j != i && self.arena[i].dep_type == self.arena[j].dep_type
                    && self.arena[i].name == self.arena[j].name {
                    return false;
                }
                j += 1;
            }
            proof {
                assert forall|x: int, y: int|
                    0 <= x < i + 1 && 0 <= y < n && x != y && (#[trigger] self.arena@[x]).dep_type
                        == (#[trigger] self.arena@[y]).dep_type implies self.arena@[x].name@
                    != self.arena@[y].name@ by {
                    if x == i {
                        assert(self.arena@[y].dep_type == self.arena@[x].dep_type);
                    } else if y == i {
                        assert(self.arena@[x].dep_type == self.arena@[i as int].dep_type);
                        assert(self.arena@[i as int].name@ != self.arena@[x].name@);
                    }
                }
            }
            i += 1;
        }
        true
    }
}

} // verus!
