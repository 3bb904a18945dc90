//! The scheduler drives a build: it annotates every reachable node with a
//! readiness counter, repeatedly launches nodes whose dependencies are all
//! built, collates worker results, and propagates completion to dependents.
use vstd::prelude::*;

use crate::dependency_graph::graph_ready;
use crate::dependency_graph::lemma_reaches_self;
use crate::dependency_graph::lemma_reaches_step;
use crate::dependency_graph::reaches;
use crate::dependency_graph::occ;
use crate::dependency_graph::occ_from;
use crate::dependency_graph::DependencyGraph;
use crate::dependency_graph::DependencyType;
use crate::dependency_graph::Ref;
use crate::instructor::instructable;
use crate::instructor::spec_instructions_for;
use crate::instructor::spec_target_data_for;
use crate::instructor::Instructor;
use crate::target_data::TargetData;
use crate::target_data::TargetDataView;
use crate::work_pool::WorkInstruction;
use crate::work_pool::WorkPool;
use crate::work_pool::WorkResult;

verus! {

/// Why a build cannot go on: a worker result that no scheduled node is
/// waiting for, more jobs than ids, or no progress left although unbuilt
/// nodes remain (a dependency cycle among the annotated nodes).
#[derive(Debug, Copy, Clone, PartialEq, Eq, Structural)]
pub enum SchedulerError {
    UnknownJobResult,
    TooManyJobs,
    Stalled,
}

/// Scheduler-private bookkeeping for one node.
#[derive(Debug)]
pub struct TargetStatus {
    pub number_of_unbuilt_dependencies: usize,
    pub is_built: bool,
    pub is_scheduled: bool,
    pub job_ids: Vec<usize>,
}

impl TargetStatus {
    pub fn new_unbuilt() -> (r: TargetStatus)
        ensures
            r.number_of_unbuilt_dependencies == 0,
            !r.is_built,
            !r.is_scheduled,
            r.job_ids@.len() == 0,
    {
        TargetStatus {
            number_of_unbuilt_dependencies: 0,
            is_built: false,
            is_scheduled: false,
            job_ids: Vec::new(),
        }
    }
}

/// The two statuses model the same bookkeeping.
pub open spec fn status_eq(a: Option<TargetStatus>, b: Option<TargetStatus>) -> bool {
    match (a, b) {
        (None, None) => true,
        (Some(x), Some(y)) => {
            &&& x.number_of_unbuilt_dependencies == y.number_of_unbuilt_dependencies
            &&& x.is_built == y.is_built
            &&& x.is_scheduled == y.is_scheduled
            &&& x.job_ids@ == y.job_ids@
        },
        _ => false,
    }
}

/// Number of handles in `reqs` from position `from` on whose node is not yet
/// built according to `built`.
pub open spec fn unbuilt_from(reqs: Seq<Ref>, from: int, built: Seq<bool>) -> nat
    decreases reqs.len() - from,
{
    if from < 0 || from >= reqs.len() {
        0
    } else {
        (if !built[reqs[from].idx as int] {
            1nat
        } else {
            0nat
        }) + unbuilt_from(reqs, from + 1, built)
    }
}

/// Number of handles in `reqs` whose node is not yet built.
pub open spec fn unbuilt_deps(reqs: Seq<Ref>, built: Seq<bool>) -> nat {
    unbuilt_from(reqs, 0, built)
}

/// Marking node `b` as built removes exactly its occurrences from every
/// unbuilt-dependency count.
proof fn lemma_unbuilt_from_update(reqs: Seq<Ref>, from: int, built: Seq<bool>, b: int)
    requires
        0 <= from,
        0 <= b < built.len(),
        !built[b],
        forall|k: int| 0 <= k < reqs.len() ==> 0 <= (#[trigger] reqs[k]).idx < built.len(),
    ensures
        unbuilt_from(reqs, from, built.update(b, true)) + occ_from(reqs, from, b) == unbuilt_from(
            reqs,
            from,
            built,
        ),
    decreases reqs.len() - from,
{
    if from < reqs.len() {
        lemma_unbuilt_from_update(reqs, from + 1, built, b);
    }
}

pub proof fn lemma_unbuilt_update(reqs: Seq<Ref>, built: Seq<bool>, b: int)
    requires
        0 <= b < built.len(),
        !built[b],
        forall|k: int| 0 <= k < reqs.len() ==> 0 <= (#[trigger] reqs[k]).idx < built.len(),
    ensures
        unbuilt_deps(reqs, built.update(b, true)) + occ(reqs, b) == unbuilt_deps(reqs, built),
{
    lemma_unbuilt_from_update(reqs, 0, built, b);
}

/// Two built maps that agree on every handle of `reqs` give the same count.
proof fn lemma_unbuilt_from_congr(reqs: Seq<Ref>, from: int, b1: Seq<bool>, b2: Seq<bool>)
    requires
        0 <= from,
        forall|k: int|
            0 <= k < reqs.len() ==> b1[(#[trigger] reqs[k]).idx as int] == b2[reqs[k].idx as int],
    ensures
        unbuilt_from(reqs, from, b1) == unbuilt_from(reqs, from, b2),
    decreases reqs.len() - from,
{
    if from < reqs.len() {
        lemma_unbuilt_from_congr(reqs, from + 1, b1, b2);
    }
}

pub proof fn lemma_unbuilt_congr(reqs: Seq<Ref>, b1: Seq<bool>, b2: Seq<bool>)
    requires
        forall|k: int|
            0 <= k < reqs.len() ==> b1[(#[trigger] reqs[k]).idx as int] == b2[reqs[k].idx as int],
    ensures
        unbuilt_deps(reqs, b1) == unbuilt_deps(reqs, b2),
{
    lemma_unbuilt_from_congr(reqs, 0, b1, b2);
}

/// With no handle of `reqs` built, the count is the full length.
proof fn lemma_unbuilt_from_init(reqs: Seq<Ref>, from: int, built: Seq<bool>)
    requires
        0 <= from <= reqs.len(),
        forall|k: int| 0 <= k < reqs.len() ==> !built[(#[trigger] reqs[k]).idx as int],
    ensures
        unbuilt_from(reqs, from, built) == reqs.len() - from,
    decreases reqs.len() - from,
{
    if from < reqs.len() {
        lemma_unbuilt_from_init(reqs, from + 1, built);
    }
}

pub proof fn lemma_unbuilt_init(reqs: Seq<Ref>, built: Seq<bool>)
    requires
        forall|k: int| 0 <= k < reqs.len() ==> !built[(#[trigger] reqs[k]).idx as int],
    ensures
        unbuilt_deps(reqs, built) == reqs.len(),
{
    lemma_unbuilt_from_init(reqs, 0, built);
}

/// A zero count means every handle of `reqs` is built.
proof fn lemma_unbuilt_from_zero(reqs: Seq<Ref>, from: int, built: Seq<bool>)
    requires
        0 <= from,
        unbuilt_from(reqs, from, built) == 0,
    ensures
        forall|k: int| from <= k < reqs.len() ==> built[(#[trigger] reqs[k]).idx as int],
    decreases reqs.len() - from,
{
    if from < reqs.len() {
        lemma_unbuilt_from_zero(reqs, from + 1, built);
    }
}

pub proof fn lemma_unbuilt_zero(reqs: Seq<Ref>, built: Seq<bool>)
    requires
        unbuilt_deps(reqs, built) == 0,
    ensures
        forall|k: int| 0 <= k < reqs.len() ==> built[(#[trigger] reqs[k]).idx as int],
{
    lemma_unbuilt_from_zero(reqs, 0, built);
}

/// Number of entries from `from` on that hold an annotated, not yet
/// scheduled status.
pub open spec fn count_unscheduled_from(s: Seq<Option<TargetStatus>>, from: int) -> nat
    decreases s.len() - from,
{
    if from < 0 || from >= s.len() {
        0
    } else {
        (match s[from] {
            Some(st) => if !st.is_scheduled {
                1nat
            } else {
                0nat
            },
            None => 0nat,
        }) + count_unscheduled_from(s, from + 1)
    }
}

pub open spec fn count_unscheduled(s: Seq<Option<TargetStatus>>) -> nat {
    count_unscheduled_from(s, 0)
}

/// Number of entries from `from` on that are not annotated yet.
pub open spec fn count_unannotated_from(s: Seq<Option<TargetStatus>>, from: int) -> nat
    decreases s.len() - from,
{
    if from < 0 || from >= s.len() {
        0
    } else {
        (match s[from] {
            Some(_) => 0nat,
            None => 1nat,
        }) + count_unannotated_from(s, from + 1)
    }
}

pub open spec fn count_unannotated(s: Seq<Option<TargetStatus>>) -> nat {
    count_unannotated_from(s, 0)
}

/// Status maps that agree, entry for entry, on being annotated and on the
/// scheduled flag have the same unscheduled count; ones that agree on being
/// annotated have the same unannotated count.
proof fn lemma_counts_congr_from(s1: Seq<Option<TargetStatus>>, s2: Seq<Option<TargetStatus>>, from: int)
    requires
        0 <= from,
        s1.len() == s2.len(),
        forall|i: int|
            0 <= i < s1.len() ==> ((#[trigger] s1[i]) is Some <==> (#[trigger] s2[i]) is Some),
        forall|i: int|
            0 <= i < s1.len() && s1[i] is Some ==> ((#[trigger] s1[i]) matches Some(x) && (
            #[trigger] s2[i]) matches Some(y) && x.is_scheduled == y.is_scheduled),
    ensures
        count_unscheduled_from(s1, from) == count_unscheduled_from(s2, from),
        count_unannotated_from(s1, from) == count_unannotated_from(s2, from),
    decreases s1.len() - from,
{
    if from < s1.len() {
        lemma_counts_congr_from(s1, s2, from + 1);
    }
}

pub proof fn lemma_counts_congr(s1: Seq<Option<TargetStatus>>, s2: Seq<Option<TargetStatus>>)
    requires
        s1.len() == s2.len(),
        forall|i: int|
            0 <= i < s1.len() ==> ((#[trigger] s1[i]) is Some <==> (#[trigger] s2[i]) is Some),
        forall|i: int|
            0 <= i < s1.len() && s1[i] is Some ==> ((#[trigger] s1[i]) matches Some(x) && (
            #[trigger] s2[i]) matches Some(y) && x.is_scheduled == y.is_scheduled),
    ensures
        count_unscheduled(s1) == count_unscheduled(s2),
        count_unannotated(s1) == count_unannotated(s2),
{
    lemma_counts_congr_from(s1, s2, 0);
}

/// How one updated entry moves the two counts.
proof fn lemma_counts_update_from(
    s: Seq<Option<TargetStatus>>,
    i: int,
    v: Option<TargetStatus>,
    from: int,
)
    requires
        0 <= from <= s.len(),
        0 <= i < s.len(),
    ensures
        count_unscheduled_from(s.update(i, v), from) == count_unscheduled_from(s, from) + (if from
            <= i {
            (match v {
                Some(st) => if !st.is_scheduled {
                    1int
                } else {
                    0int
                },
                None => 0int,
            }) - (match s[i] {
                Some(st) => if !st.is_scheduled {
                    1int
                } else {
                    0int
                },
                None => 0int,
            })
        } else {
            0int
        }),
        count_unannotated_from(s.update(i, v), from) == count_unannotated_from(s, from) + (if from
            <= i {
            (match v {
                Some(_) => 0int,
                None => 1int,
            }) - (match s[i] {
                Some(_) => 0int,
                None => 1int,
            })
        } else {
            0int
        }),
    decreases s.len() - from,
{
    if from < s.len() {
        lemma_counts_update_from(s, i, v, from + 1);
    }
}

pub proof fn lemma_counts_update(s: Seq<Option<TargetStatus>>, i: int, v: Option<TargetStatus>)
    requires
        0 <= i < s.len(),
    ensures
        count_unscheduled(s.update(i, v)) == count_unscheduled(s) + (match v {
            Some(st) => if !st.is_scheduled {
                1int
            } else {
                0int
            },
            None => 0int,
        }) - (match s[i] {
            Some(st) => if !st.is_scheduled {
                1int
            } else {
                0int
            },
            None => 0int,
        }),
        count_unannotated(s.update(i, v)) == count_unannotated(s) + (match v {
            Some(_) => 0int,
            None => 1int,
        }) - (match s[i] {
            Some(_) => 0int,
            None => 1int,
        }),
{
    lemma_counts_update_from(s, i, v, 0);
}

/// Walks the dependency graph and builds every reachable target on a pool of
/// `F`-executing workers, honoring dependency order.
pub struct Scheduler<F> {
    pub target_status_map: Vec<Option<TargetStatus>>,
    pub target_data_map: Vec<Option<TargetData>>,
    pub workpool: WorkPool<F>,
    pub build_dir: String,
}

impl<F: Fn(WorkInstruction) -> Result<String, String> + Send + Clone + 'static> Scheduler<F> {
    /// Node `i` has been annotated by the traversal phase.
    pub open spec fn annotated(&self, i: int) -> bool {
        &&& 0 <= i < self.target_status_map@.len()
        &&& self.target_status_map@[i] is Some
    }

    /// The status in an earlier map, meaningful only where annotated.
    pub open spec fn st_was(&self, smap: Seq<Option<TargetStatus>>, i: int) -> TargetStatus {
        match smap[i] {
            Some(t) => t,
            None => vstd::pervasive::arbitrary(),
        }
    }

    /// The status of node `i`, meaningful only while annotated.
    pub open spec fn st(&self, i: int) -> TargetStatus {
        match self.target_status_map@[i] {
            Some(t) => t,
            None => vstd::pervasive::arbitrary(),
        }
    }

    pub open spec fn built(&self, i: int) -> bool {
        self.annotated(i) && self.st(i).is_built
    }

    pub open spec fn scheduled(&self, i: int) -> bool {
        self.annotated(i) && self.st(i).is_scheduled
    }

    /// Which nodes are built, as one map over the whole arena.
    pub open spec fn built_seq(&self) -> Seq<bool> {
        Seq::new(self.target_status_map@.len(), |i: int| self.built(i))
    }

    /// The target data recorded for node `i`, meaningful only once scheduled.
    pub open spec fn data_view(&self, i: int) -> TargetDataView {
        match self.target_data_map@[i] {
            Some(d) => d@,
            None => vstd::pervasive::arbitrary(),
        }
    }

    /// The target data of `i`'s dependencies, in declaration order.
    pub open spec fn dep_views(&self, g: &DependencyGraph, i: int) -> Seq<TargetDataView> {
        Seq::new(
            g.arena@[i].requires@.len(),
            |k: int| self.data_view(g.arena@[i].requires@[k].idx as int),
        )
    }

    /// Everything the scheduler promises of one annotated node: its counter
    /// equals the number of unbuilt dependencies; its dependencies are
    /// annotated; once scheduled, all its dependencies are built and its
    /// target data is exactly what the instructor owes; flags and job list
    /// are consistent.
    pub open spec fn node_inv(&self, g: &DependencyGraph, i: int) -> bool {
        let stt = self.st(i);
        let node = g.arena@[i];
        &&& stt.number_of_unbuilt_dependencies == unbuilt_deps(node.requires@, self.built_seq())
        &&& (stt.is_scheduled ==> forall|k: int|
            0 <= k < node.requires@.len() ==> self.built((#[trigger] node.requires@[k]).idx as int))
        &&& (stt.is_built ==> stt.is_scheduled)
        &&& (stt.is_built ==> stt.job_ids@.len() == 0)
        &&& (!stt.is_scheduled ==> !stt.is_built && stt.job_ids@.len() == 0)
        &&& (self.target_data_map@[i] is Some <==> stt.is_scheduled)
        &&& (stt.is_scheduled ==> self.data_view(i) == spec_target_data_for(
            node,
            self.dep_views(g, i),
            self.build_dir@,
        ))
    }

    /// The scheduler's state invariant over a graph: maps sized to the
    /// arena, and every annotated node satisfying its node invariant.
    pub open spec fn inv(&self, g: &DependencyGraph) -> bool {
        &&& g.wf()
        &&& self.target_status_map@.len() == g.arena@.len()
        &&& self.target_data_map@.len() == g.arena@.len()
        &&& forall|i: int| self.annotated(i) ==> #[trigger] self.node_inv(g, i)
        &&& forall|i: int|
            0 <= i < g.arena@.len() && self.target_data_map@[i] is Some ==> self.annotated(i)
    }

    /// Every dependency of an annotated node is annotated, except those
    /// still on the traversal's worklist.
    pub open spec fn deps_closed_except(&self, g: &DependencyGraph, pending: Seq<Ref>) -> bool {
        forall|i: int, k: int|
            self.annotated(i) && 0 <= k < g.arena@[i].requires@.len() ==> self.annotated(
                (#[trigger] g.arena@[i].requires@[k]).idx as int,
            ) || pending.contains(g.arena@[i].requires@[k])
    }

    /// Every dependency of an annotated node is annotated.
    pub open spec fn deps_closed(&self, g: &DependencyGraph) -> bool {
        forall|i: int, k: int|
            self.annotated(i) && 0 <= k < g.arena@[i].requires@.len() ==> self.annotated(
                (#[trigger] g.arena@[i].requires@[k]).idx as int,
            )
    }

    /// Nothing is scheduled or built yet: the state during annotation.
    pub open spec fn all_fresh(&self) -> bool {
        forall|i: int|
            self.annotated(i) ==> !(#[trigger] self.st(i)).is_built && !self.st(i).is_scheduled
                && self.st(i).job_ids@.len() == 0
    }

    /// The annotation-time facts about entry `i` of an earlier pair of maps:
    /// freshly annotated or not annotated at all, with the full dependency
    /// count and no target data.
    pub open spec fn status_initial_was(
        g: &DependencyGraph,
        smap: Seq<Option<TargetStatus>>,
        dmap: Seq<Option<TargetData>>,
        i: int,
    ) -> bool {
        &&& (smap[i] matches Some(st) ==> !st.is_built && !st.is_scheduled && st.job_ids@.len()
            == 0 && st.number_of_unbuilt_dependencies == g.arena@[i].requires@.len() && dmap[i]
            is None)
        &&& (dmap[i] is Some ==> smap[i] is Some)
    }

    /// Every annotated counter still holds the full dependency count: the
    /// state that annotation establishes.
    pub open spec fn counts_initial(&self, g: &DependencyGraph) -> bool {
        forall|i: int|
            self.annotated(i) ==> (#[trigger] self.st(i)).number_of_unbuilt_dependencies
                == g.arena@[i].requires@.len()
    }

    pub fn new(number_of_workers: usize, build_dir: String, executor: F) -> (r: Scheduler<F>)
        requires
            number_of_workers >= 1,
        ensures
            r.target_status_map@.len() == 0,
            r.target_data_map@.len() == 0,
            r.build_dir@ == build_dir@,
            r.workpool.next_job_id == 0,
            r.workpool.number_of_jobs_waiting == 0,
            r.workpool.results@.len() == 0,
            r.workpool.wf(),
    {
        Scheduler {
            target_status_map: Vec::new(),
            target_data_map: Vec::new(),
            workpool: WorkPool::new(number_of_workers, executor),
            build_dir,
        }
    }
}


impl<F: Fn(WorkInstruction) -> Result<String, String> + Send + Clone + 'static> Scheduler<F> {
    /// Phase 1 for one root: annotates every node reachable from `node` with
    /// a fresh status whose counter is the number of its dependencies.
    /// Already-annotated nodes are left untouched, so a second pass over the
    /// same root changes nothing.
    pub fn visit_node(&mut self, graph: &DependencyGraph, node: Ref)
        requires
            old(self).inv(graph),
            old(self).all_fresh(),
            old(self).deps_closed(graph),
            old(self).counts_initial(graph),
            node.idx < graph.arena@.len(),
        ensures
            final(self).inv(graph),
            final(self).all_fresh(),
            final(self).deps_closed(graph),
            final(self).counts_initial(graph),
            final(self).annotated(node.idx as int),
            forall|i: int|
                old(self).annotated(i) ==> status_eq(
                    final(self).target_status_map@[i],
                    old(self).target_status_map@[i],
                ) && final(self).annotated(i),
            // only nodes reachable from the argument become annotated
            forall|i: int|
                final(self).annotated(i) && !old(self).annotated(i) ==> reaches(
                    graph,
                    node,
                    Ref { idx: i as usize },
                ),
            // a pass over an already-visited node changes nothing at all
            old(self).annotated(node.idx as int) ==> final(self).target_status_map@ == old(self).target_status_map@,
            final(self).target_data_map@ == old(self).target_data_map@,
            final(self).workpool == old(self).workpool,
            final(self).build_dir == old(self).build_dir,
    {
        let mut stack: Vec<Ref> = Vec::new();
        stack.push(node);
        proof {
            assert(stack@[0] == node);
            lemma_reaches_self(graph, node);
        }
        while stack.len() > 0
            invariant
                self.inv(graph),
                self.all_fresh(),
                self.counts_initial(graph),
                node.idx < graph.arena@.len(),
                self.deps_closed_except(graph, stack@),
                self.target_data_map@ == old(self).target_data_map@,
                self.workpool == old(self).workpool,
                self.build_dir == old(self).build_dir,
                forall|k: int|
                    0 <= k < stack@.len() ==> (#[trigger] stack@[k]).idx < graph.arena@.len(),
                self.annotated(node.idx as int) || stack@.contains(node),
                forall|i: int|
                    old(self).annotated(i) ==> status_eq(
                        self.target_status_map@[i],
                        old(self).target_status_map@[i],
                    ) && self.annotated(i),
                forall|k: int|
                    0 <= k < stack@.len() ==> reaches(graph, node, #[trigger] stack@[k]),
                forall|i: int|
                    self.annotated(i) && !old(self).annotated(i) ==> reaches(
                        graph,
                        node,
                        Ref { idx: i as usize },
                    ),
                old(self).annotated(node.idx as int) ==> self.target_status_map@ == old(self).target_status_map@ && (forall|k: int|
                    0 <= k < stack@.len() ==> self.annotated(
                        (#[trigger] stack@[k]).idx as int,
                    )),
            decreases count_unannotated(self.target_status_map@), stack@.len(),
        {
            let ghost stack0 = stack@;
            let n = match stack.pop() {
                Some(n) => n,
                None => Ref { idx: 0 },
            };
            proof {
                assert(n == stack0.last());
                assert(stack@ == stack0.drop_last());
            }
            let already = match &self.target_status_map[n.idx] {
                Some(_) => true,
                None => false,
            };
            if already {
                proof {
                    assert forall|i: int, k: int|
                        self.annotated(i) && 0 <= k < graph.arena@[i].requires@.len() implies self.annotated(
                        (#[trigger] graph.arena@[i].requires@[k]).idx as int,
                    ) || stack@.contains(graph.arena@[i].requires@[k]) by {
                        let dep = graph.arena@[i].requires@[k];
                        if !self.annotated(dep.idx as int) {
                            assert(stack0.contains(dep));
                            let m = choose|m: int| 0 <= m < stack0.len() && stack0[m] == dep;
                            if m < stack0.len() - 1 {
                                assert(stack@[m] == dep);
                            } else {
                                assert(dep == n);
                            }
                        }
                    }
                    if !self.annotated(node.idx as int) {
                        let m = choose|m: int| 0 <= m < stack0.len() && stack0[m] == node;
                        if m < stack0.len() - 1 {
                            assert(stack@[m] == node);
                        } else {
                            assert(node == n);
                        }
                    }
                }
                continue;
            }
            proof {
                // the popped handle was on the stack, so it is reachable;
                // and if the argument was annotated at entry, every stack
                // entry is annotated, which this branch contradicts
                assert(stack0[stack0.len() - 1] == n);
                assert(reaches(graph, node, n));
                if old(self).annotated(node.idx as int) {
                    assert(self.annotated(n.idx as int));
                    assert(false);
                }
            }
            let dependencies = graph.get_dependencies(n);
            let mut target_status = TargetStatus::new_unbuilt();
            target_status.number_of_unbuilt_dependencies = dependencies.len();
            let ghost smap0 = self.target_status_map@;
            let ghost dmap0 = self.target_data_map@;
            let ghost new_status = target_status;
            proof {
                // during annotation nothing is scheduled or built, so every
                // counter in the map still holds the full dependency count
                assert forall|j: int| 0 <= j < smap0.len() implies Self::status_initial_was(
                    graph,
                    smap0,
                    dmap0,
                    j,
                ) by {
                    if self.annotated(j) {
                        assert(self.node_inv(graph, j));
                        assert(!self.st(j).is_built && !self.st(j).is_scheduled && self.st(
                            j,
                        ).job_ids@.len() == 0);
                        assert(self.st(j).number_of_unbuilt_dependencies
                            == graph.arena@[j].requires@.len());
                        assert(dmap0[j] is None);
                    }
                    if dmap0[j] is Some {
                        assert(self.annotated(j));
                    }
                }
            }
            self.target_status_map[n.idx] = Some(target_status);
            proof {
                let smap1 = self.target_status_map@;
                assert(smap1 == smap0.update(n.idx as int, Some(new_status)));
                lemma_counts_update(smap0, n.idx as int, Some(new_status));
                assert(count_unannotated(smap1) < count_unannotated(smap0));
                assert forall|j: int| 0 <= j < smap1.len() implies !self.built_seq()[j] by {
                    if j != n.idx {
                        assert(smap1[j] == smap0[j]);
                        assert(Self::status_initial_was(graph, smap0, dmap0, j));
                    }
                }
                assert forall|i: int| self.annotated(i) implies #[trigger] self.node_inv(
                    graph,
                    i,
                ) by {
                    assert(crate::dependency_graph::node_edges_in_bounds(graph.arena@, i));
                    assert forall|k: int|
                        0 <= k < graph.arena@[i].requires@.len() implies !self.built_seq()[(
                    #[trigger] graph.arena@[i].requires@[k]).idx as int] by {}
                    lemma_unbuilt_init(graph.arena@[i].requires@, self.built_seq());
                    assert(Self::status_initial_was(graph, smap0, dmap0, i));
                    if i != n.idx {
                        assert(smap1[i] == smap0[i]);
                    }
                }
                assert forall|i: int|
                    0 <= i < graph.arena@.len() && self.target_data_map@[i] is Some implies self.annotated(
                    i,
                ) by {
                    assert(Self::status_initial_was(graph, smap0, dmap0, i));
                    assert(smap0[i] is Some);
                    if i != n.idx {
                        assert(smap1[i] == smap0[i]);
                    }
                }
                assert(self.inv(graph));
                assert forall|i: int| self.annotated(i) implies !(#[trigger] self.st(i)).is_built
                    && !self.st(i).is_scheduled && self.st(i).job_ids@.len() == 0 && self.st(
                    i,
                ).number_of_unbuilt_dependencies == graph.arena@[i].requires@.len() by {
                    assert(Self::status_initial_was(graph, smap0, dmap0, i));
                    if i != n.idx {
                        assert(smap1[i] == smap0[i]);
                    }
                }
            }
            let ghost stack1 = stack@;
            proof {
                // every pending dependency is annotated, still on the stack,
                // or about to be pushed
                assert forall|i: int, k: int|
                    self.annotated(i) && 0 <= k < graph.arena@[i].requires@.len() implies self.annotated(
                    (#[trigger] graph.arena@[i].requires@[k]).idx as int,
                ) || (stack1 + dependencies@).contains(graph.arena@[i].requires@[k]) by {
                    let dep = graph.arena@[i].requires@[k];
                    if !self.annotated(dep.idx as int) {
                        if i == n.idx {
                            assert(dependencies@[k] == dep);
                            assert((stack1 + dependencies@)[stack1.len() + k] == dep);
                        } else {
                            assert(self.target_status_map@[i] == smap0[i]);
                            assert(stack0.contains(dep));
                            let m = choose|m: int| 0 <= m < stack0.len() && stack0[m] == dep;
                            if m < stack0.len() - 1 {
                                assert(stack1[m] == dep);
                                assert((stack1 + dependencies@)[m] == dep);
                            } else {
                                assert(dep == n);
                            }
                        }
                    }
                }
                if !self.annotated(node.idx as int) {
                    assert(stack0.contains(node));
                    let m = choose|m: int| 0 <= m < stack0.len() && stack0[m] == node;
                    if m < stack0.len() - 1 {
                        assert((stack1 + dependencies@)[m] == node);
                    } else {
                        assert(node == n);
                    }
                }
                assert(stack1 + dependencies@.skip(0) =~= stack1 + dependencies@);
                assert(crate::dependency_graph::node_edges_in_bounds(graph.arena@, n.idx as int));
                assert forall|k: int|
                    0 <= k < dependencies@.len() implies (#[trigger] dependencies@[k]).idx
                    < graph.arena@.len() by {
                    assert(graph.arena@[n.idx as int].requires@[k] == dependencies@[k]);
                }
                // the newly annotated node is the popped, reachable handle,
                // and each of its dependencies is reachable through it
                assert(Ref { idx: n.idx as int as usize } == n);
                assert forall|k: int|
                    0 <= k < dependencies@.len() implies reaches(
                    graph,
                    node,
                    #[trigger] dependencies@[k],
                ) by {
                    assert(graph.arena@[n.idx as int].requires@.contains(dependencies@[k])) by {
                        assert(graph.arena@[n.idx as int].requires@[k] == dependencies@[k]);
                    }
                    lemma_reaches_step(graph, node, n, dependencies@[k]);
                }
                assert forall|i: int|
                    self.annotated(i) && !old(self).annotated(i) implies reaches(
                    graph,
                    node,
                    Ref { idx: i as usize },
                ) by {
                    if i != n.idx {
                        assert(self.target_status_map@[i] == smap0[i]);
                    }
                }
            }
            let deps_len = dependencies.len();
            let mut j: usize = 0;
            while j < deps_len
                invariant
                    deps_len == dependencies@.len(),
                    j <= deps_len,
                    forall|k: int|
                        0 <= k < dependencies@.len() ==> (#[trigger] dependencies@[k]).idx
                            < graph.arena@.len(),
                    forall|k: int|
                        0 <= k < stack@.len() ==> (#[trigger] stack@[k]).idx < graph.arena@.len(),
                    forall|k: int|
                        0 <= k < stack@.len() ==> reaches(graph, node, #[trigger] stack@[k]),
                    forall|k: int|
                        0 <= k < dependencies@.len() ==> reaches(
                            graph,
                            node,
                            #[trigger] dependencies@[k],
                        ),
                    self.deps_closed_except(graph, stack@ + dependencies@.skip(j as int)),
                    self.annotated(node.idx as int) || (stack@ + dependencies@.skip(
                        j as int,
                    )).contains(node),
                decreases deps_len - j,
            {
                let ghost stack_pre = stack@;
                stack.push(dependencies[j]);
                proof {
                    let pend_pre = stack_pre + dependencies@.skip(j as int);
                    let pend_post = stack@ + dependencies@.skip(j + 1);
                    assert forall|x: Ref| pend_pre.contains(x) implies pend_post.contains(x) by {
                        let m = choose|m: int| 0 <= m < pend_pre.len() && pend_pre[m] == x;
                        if m < stack_pre.len() {
                            assert(pend_post[m] == x);
                        } else if m == stack_pre.len() {
                            assert(pend_pre[m] == dependencies@[j as int]);
                            assert(pend_post[stack_pre.len() as int] == x);
                        } else {
                            assert(pend_pre[m] == dependencies@.skip(j as int)[m
                                - stack_pre.len()]);
                            assert(pend_post[stack@.len() + (m - stack_pre.len() - 1)] == x);
                        }
                    }
                }
                j += 1;
            }
            proof {
                assert(stack@ + dependencies@.skip(deps_len as int) =~= stack@);
            }
        }
    }
}


/// Outstanding jobs recorded in the status map from index `i` on.
pub open spec fn pending_from(smap: Seq<Option<TargetStatus>>, i: int) -> nat
    decreases smap.len() - i,
{
    if i < 0 || i >= smap.len() {
        0
    } else {
        (match smap[i] {
            Some(st) => st.job_ids@.len(),
            None => 0,
        }) + pending_from(smap, i + 1)
    }
}

/// Total number of job ids the annotated nodes still wait for.
pub open spec fn pending_jobs(smap: Seq<Option<TargetStatus>>) -> nat {
    pending_from(smap, 0)
}

/// With every job list empty, nothing is pending.
proof fn lemma_pending_from_zero(smap: Seq<Option<TargetStatus>>, i: int)
    requires
        0 <= i,
        forall|j: int|
            0 <= j < smap.len() ==> ((#[trigger] smap[j]) matches Some(st) ==> st.job_ids@.len()
                == 0),
    ensures
        pending_from(smap, i) == 0,
    decreases smap.len() - i,
{
    if i < smap.len() {
        lemma_pending_from_zero(smap, i + 1);
    }
}

pub proof fn lemma_pending_zero(smap: Seq<Option<TargetStatus>>)
    requires
        forall|j: int|
            0 <= j < smap.len() ==> ((#[trigger] smap[j]) matches Some(st) ==> st.job_ids@.len()
                == 0),
    ensures
        pending_jobs(smap) == 0,
{
    lemma_pending_from_zero(smap, 0);
}

/// How one slot's job-list length moves the pending total.
proof fn lemma_pending_from_slot(
    s1: Seq<Option<TargetStatus>>,
    s2: Seq<Option<TargetStatus>>,
    n: int,
    i: int,
)
    requires
        0 <= i,
        s1.len() == s2.len(),
        0 <= n < s1.len(),
        forall|j: int|
            0 <= j < s1.len() && j != n ==> ((#[trigger] s2[j]) is Some <==> s1[j] is Some),
        forall|j: int|
            0 <= j < s1.len() && j != n && s1[j] is Some ==> ((#[trigger] s2[j]) matches Some(x)
                && s1[j] matches Some(y) && x.job_ids@ == y.job_ids@),
    ensures
        pending_from(s2, i) + (if i <= n {
            (match s1[n] {
                Some(st) => st.job_ids@.len() as int,
                None => 0int,
            })
        } else {
            0int
        }) == pending_from(s1, i) + (if i <= n {
            (match s2[n] {
                Some(st) => st.job_ids@.len() as int,
                None => 0int,
            })
        } else {
            0int
        }),
    decreases s1.len() - i,
{
    if i < s1.len() {
        lemma_pending_from_slot(s1, s2, n, i + 1);
    }
}

pub proof fn lemma_pending_slot(s1: Seq<Option<TargetStatus>>, s2: Seq<Option<TargetStatus>>, n: int)
    requires
        s1.len() == s2.len(),
        0 <= n < s1.len(),
        forall|j: int|
            0 <= j < s1.len() && j != n ==> ((#[trigger] s2[j]) is Some <==> s1[j] is Some),
        forall|j: int|
            0 <= j < s1.len() && j != n && s1[j] is Some ==> ((#[trigger] s2[j]) matches Some(x)
                && s1[j] matches Some(y) && x.job_ids@ == y.job_ids@),
    ensures
        pending_jobs(s2) + (match s1[n] {
            Some(st) => st.job_ids@.len() as int,
            None => 0int,
        }) == pending_jobs(s1) + (match s2[n] {
            Some(st) => st.job_ids@.len() as int,
            None => 0int,
        }),
{
    lemma_pending_from_slot(s1, s2, n, 0);
}

/// Mid-propagation counting state: every annotated entry's counter equals
/// its unbuilt dependencies under `bn` plus one per unprocessed inverse edge
/// in `rb` from position `j` on.
pub open spec fn counts_owing(
    g: &DependencyGraph,
    smap: Seq<Option<TargetStatus>>,
    bn: Seq<bool>,
    rb: Seq<Ref>,
    j: int,
) -> bool {
    forall|i: int|
        0 <= i < smap.len() && smap[i] is Some ==> ((#[trigger] smap[i]) matches Some(st)
            && st.number_of_unbuilt_dependencies == unbuilt_deps(g.arena@[i].requires@, bn)
            + occ_from(rb, j, i))
}

/// `smap` equals `old_smap` except that node `b` is now built; counters are
/// unconstrained.
pub open spec fn flags_match(
    smap: Seq<Option<TargetStatus>>,
    old_smap: Seq<Option<TargetStatus>>,
    b: int,
) -> bool {
    &&& smap.len() == old_smap.len()
    &&& forall|i: int| 0 <= i < smap.len() ==> ((#[trigger] smap[i]) is Some <==> old_smap[i] is Some)
    &&& forall|i: int|
        0 <= i < smap.len() && smap[i] is Some ==> ((#[trigger] smap[i]) matches Some(st)
            && old_smap[i] matches Some(ost) && st.is_scheduled == ost.is_scheduled && st.job_ids@
            == ost.job_ids@ && st.is_built == (ost.is_built || i == b))
}

impl<F: Fn(WorkInstruction) -> Result<String, String> + Send + Clone + 'static> Scheduler<F> {
    /// Marks `node` as built and lowers the readiness counter of every
    /// annotated node that depends on it, once per edge.
    fn mark_built_and_propagate(&mut self, graph: &DependencyGraph, node: Ref)
        requires
            old(self).inv(graph),
            node.idx < graph.arena@.len(),
            old(self).scheduled(node.idx as int),
            !old(self).built(node.idx as int),
            old(self).st(node.idx as int).job_ids@.len() == 0,
        ensures
            final(self).inv(graph),
            final(self).built(node.idx as int),
            flags_match(
                final(self).target_status_map@,
                old(self).target_status_map@,
                node.idx as int,
            ),
            final(self).target_data_map@ == old(self).target_data_map@,
            final(self).workpool == old(self).workpool,
            final(self).build_dir == old(self).build_dir,
    {
        let b = node.idx;
        let cnt = match &self.target_status_map[b] {
            Some(st) => st.number_of_unbuilt_dependencies,
            None => 0,
        };
        let ghost smap0 = self.target_status_map@;
        self.target_status_map[b] = Some(
            TargetStatus {
                number_of_unbuilt_dependencies: cnt,
                is_built: true,
                is_scheduled: true,
                job_ids: Vec::new(),
            },
        );
        let ghost bn = self.built_seq();
        let dependants = graph.get_nodes_that_depend_on(node);
        let ghost rb = graph.arena@[b as int].is_required_by@;
        proof {
            assert(bn =~= old(self).built_seq().update(b as int, true));
            assert(crate::dependency_graph::node_edges_in_bounds(graph.arena@, b as int));
            assert forall|i: int|
                0 <= i < self.target_status_map@.len() && self.target_status_map@[i]
                    is Some implies ((#[trigger] self.target_status_map@[i]) matches Some(st)
                && old(self).target_status_map@[i] matches Some(ost) && st.is_scheduled
                == ost.is_scheduled && st.job_ids@ == ost.job_ids@ && st.is_built == (ost.is_built
                || i == b)) by {
                if i != b {
                    assert(self.target_status_map@[i] == smap0[i]);
                } else {
                    assert(old(self).st(b as int).job_ids@ =~= Seq::<usize>::empty());
                    assert(self.st(b as int).job_ids@ =~= Seq::<usize>::empty());
                }
            }
            assert(flags_match(self.target_status_map@, old(self).target_status_map@, b as int));
            // initial counting state: every counter owes one decrement per
            // inverse edge of `b`
            assert forall|i: int|
                0 <= i < self.target_status_map@.len() && self.target_status_map@[i] is Some
                    implies ((#[trigger] self.target_status_map@[i]) matches Some(st)
                && st.number_of_unbuilt_dependencies == unbuilt_deps(graph.arena@[i].requires@, bn)
                + occ_from(rb, 0, i)) by {
                assert(old(self).annotated(i));
                assert(old(self).node_inv(graph, i));
                assert(crate::dependency_graph::node_edges_in_bounds(graph.arena@, i));
                assert forall|k: int|
                    0 <= k < graph.arena@[i].requires@.len() implies 0 <= (
                #[trigger] graph.arena@[i].requires@[k]).idx < old(self).built_seq().len() by {}
                lemma_unbuilt_update(graph.arena@[i].requires@, old(self).built_seq(), b as int);
                assert(occ(graph.arena@[i].requires@, b as int) == occ(rb, i));
                assert(self.st(i).number_of_unbuilt_dependencies == old(self).st(
                    i,
                ).number_of_unbuilt_dependencies);
            }
            assert(counts_owing(graph, self.target_status_map@, bn, rb, 0));
        }
        let dlen = dependants.len();
        let mut j: usize = 0;
        while j < dlen
            invariant
                graph.wf(),
                b < graph.arena@.len(),
                rb == graph.arena@[b as int].is_required_by@,
                dependants@ == rb,
                dlen == rb.len(),
                j <= dlen,
                self.target_status_map@.len() == graph.arena@.len(),
                self.target_data_map@.len() == graph.arena@.len(),
                self.built_seq() == bn,
                flags_match(
                    self.target_status_map@,
                    old(self).target_status_map@,
                    b as int,
                ),
                counts_owing(graph, self.target_status_map@, bn, rb, j as int),
                self.target_data_map@ == old(self).target_data_map@,
                self.workpool == old(self).workpool,
                self.build_dir == old(self).build_dir,
            decreases dlen - j,
        {
            let a = dependants[j];
            proof {
                assert(rb[j as int] == a);
                assert(crate::dependency_graph::node_edges_in_bounds(graph.arena@, b as int));
                assert(graph.arena@[b as int].is_required_by@[j as int] == a);
                assert(a.idx < graph.arena@.len());
            }
            let is_ann = match &self.target_status_map[a.idx] {
                Some(_) => true,
                None => false,
            };
            if is_ann {
                let (cnt2, ib2, isch2) = match &self.target_status_map[a.idx] {
                    Some(st) => (st.number_of_unbuilt_dependencies, st.is_built, st.is_scheduled),
                    None => (0, false, false),
                };
                let jids2 = match &self.target_status_map[a.idx] {
                    Some(st) => st.job_ids.clone(),
                    None => Vec::new(),
                };
                let ghost smap_pre = self.target_status_map@;
                proof {
                    assert(smap_pre[a.idx as int] is Some);
                    assert(occ_from(rb, j as int, a.idx as int) == 1 + occ_from(
                        rb,
                        j + 1,
                        a.idx as int,
                    ));
                    assert(cnt2 >= 1);
                    assert(jids2@ =~= (match smap_pre[a.idx as int] {
                        Some(st) => st.job_ids@,
                        None => Seq::empty(),
                    }));
                }
                self.target_status_map[a.idx] = Some(
                    TargetStatus {
                        number_of_unbuilt_dependencies: cnt2 - 1,
                        is_built: ib2,
                        is_scheduled: isch2,
                        job_ids: jids2,
                    },
                );
                proof {
                    assert(self.built_seq() =~= bn);
                    assert forall|i: int|
                        0 <= i < self.target_status_map@.len() && self.target_status_map@[i]
                            is Some implies ((#[trigger] self.target_status_map@[i]) matches Some(
                        st,
                    ) && st.number_of_unbuilt_dependencies == unbuilt_deps(
                        graph.arena@[i].requires@,
                        bn,
                    ) + occ_from(rb, j + 1, i)) by {
                        if i != a.idx {
                            assert(self.target_status_map@[i] == smap_pre[i]);
                            assert(occ_from(rb, j as int, i) == occ_from(rb, j + 1, i));
                        }
                    }
                    assert(counts_owing(graph, self.target_status_map@, bn, rb, j + 1));
                }
            } else {
                proof {
                    assert forall|i: int|
                        0 <= i < self.target_status_map@.len() && self.target_status_map@[i]
                            is Some implies ((#[trigger] self.target_status_map@[i]) matches Some(
                        st,
                    ) && st.number_of_unbuilt_dependencies == unbuilt_deps(
                        graph.arena@[i].requires@,
                        bn,
                    ) + occ_from(rb, j + 1, i)) by {
                        if i == a.idx as int {
                            assert(false);
                        } else {
                            assert(occ_from(rb, j as int, i) == occ_from(rb, j + 1, i));
                        }
                    }
                    assert(counts_owing(graph, self.target_status_map@, bn, rb, j + 1));
                }
            }
            j += 1;
        }
        proof {
            assert forall|i: int| self.annotated(i) implies #[trigger] self.node_inv(graph, i) by {
                assert(self.target_status_map@[i] is Some);
                assert(old(self).annotated(i));
                assert(old(self).node_inv(graph, i));
                assert(occ_from(rb, dlen as int, i) == 0);
                assert(self.st(i).number_of_unbuilt_dependencies == unbuilt_deps(
                    graph.arena@[i].requires@,
                    bn,
                ));
                assert(self.st(i).is_scheduled == old(self).st(i).is_scheduled);
                assert(self.st(i).job_ids@ == old(self).st(i).job_ids@);
                assert(self.st(i).is_built == (old(self).st(i).is_built || i == b));
                assert forall|k: int|
                    self.st(i).is_scheduled && 0 <= k < graph.arena@[i].requires@.len()
                        implies self.built((#[trigger] graph.arena@[i].requires@[k]).idx as int) by {
                    assert(old(self).built(graph.arena@[i].requires@[k].idx as int));
                }
                assert(self.dep_views(graph, i) =~= old(self).dep_views(graph, i));
            }
            assert forall|i: int|
                0 <= i < graph.arena@.len() && self.target_data_map@[i] is Some implies self.annotated(
                i,
            ) by {
                assert(old(self).annotated(i));
            }
        }
    }
}


/// A built map that only grows can only lower the unbuilt count.
proof fn lemma_unbuilt_from_monotone(reqs: Seq<Ref>, from: int, b1: Seq<bool>, b2: Seq<bool>)
    requires
        0 <= from,
        forall|k: int|
            0 <= k < reqs.len() && b1[(#[trigger] reqs[k]).idx as int] ==> b2[reqs[k].idx as int],
    ensures
        unbuilt_from(reqs, from, b2) <= unbuilt_from(reqs, from, b1),
    decreases reqs.len() - from,
{
    if from < reqs.len() {
        lemma_unbuilt_from_monotone(reqs, from + 1, b1, b2);
    }
}

pub proof fn lemma_unbuilt_monotone(reqs: Seq<Ref>, b1: Seq<bool>, b2: Seq<bool>)
    requires
        forall|k: int|
            0 <= k < reqs.len() && b1[(#[trigger] reqs[k]).idx as int] ==> b2[reqs[k].idx as int],
    ensures
        unbuilt_deps(reqs, b2) <= unbuilt_deps(reqs, b1),
{
    lemma_unbuilt_from_monotone(reqs, 0, b1, b2);
}

/// First position of `x` in `v`, if any.
fn find_index_usize(v: &Vec<usize>, x: usize) -> (r: Option<usize>)
    ensures
        match r {
            Some(p) => p < v@.len() && v@[p as int] == x,
            None => forall|k: int| 0 <= k < v@.len() ==> v@[k] != x,
        },
{
    let n = v.len();
    let mut k: usize = 0;
    while k < n
        invariant
            n == v@.len(),
            k <= n,
            forall|m: int| 0 <= m < k ==> v@[m] != x,
        decreases n - k,
    {
        if v[k] == x {
            return Some(k);
        }
        k += 1;
    }
    None
}

impl<F: Fn(WorkInstruction) -> Result<String, String> + Send + Clone + 'static> Scheduler<F> {
    /// Node `i` can be scheduled now: annotated, not yet scheduled, and no
    /// unbuilt dependency left.
    pub open spec fn eligible(&self, i: int) -> bool {
        &&& self.annotated(i)
        &&& !self.st(i).is_scheduled
        &&& self.st(i).number_of_unbuilt_dependencies == 0
    }

    /// `eligible` as a statement about an earlier status map.
    pub open spec fn eligible_was(smap: Seq<Option<TargetStatus>>, i: int) -> bool {
        &&& 0 <= i < smap.len()
        &&& smap[i] matches Some(st) && !st.is_scheduled && st.number_of_unbuilt_dependencies
            == 0
    }

    /// Instructions owed by the scheduled nodes from index `i` on.
    pub open spec fn owed_from(&self, g: &DependencyGraph, i: int) -> nat
        decreases g.arena@.len() - i,
    {
        if i < 0 || i >= g.arena@.len() {
            0
        } else {
            (if self.scheduled(i) {
                spec_instructions_for(g.arena@[i], self.dep_views(g, i), self.build_dir@).len()
            } else {
                0nat
            }) + self.owed_from(g, i + 1)
        }
    }

    /// Total number of instructions owed by all nodes scheduled so far: the
    /// exact number of jobs the pool has been handed.
    pub open spec fn owed(&self, g: &DependencyGraph) -> nat {
        self.owed_from(g, 0)
    }

    /// With nothing scheduled, nothing is owed.
    proof fn lemma_owed_from_zero(&self, g: &DependencyGraph, i: int)
        requires
            0 <= i,
            forall|j: int| !self.scheduled(j),
        ensures
            self.owed_from(g, i) == 0,
        decreases g.arena@.len() - i,
    {
        if i < g.arena@.len() {
            self.lemma_owed_from_zero(g, i + 1);
        }
    }

    /// Two states that schedule the same nodes with the same dependency data
    /// and build directory owe the same.
    proof fn lemma_owed_from_congr(s1: &Self, s2: &Self, g: &DependencyGraph, i: int)
        requires
            0 <= i,
            forall|j: int| 0 <= j < g.arena@.len() ==> s2.scheduled(j) == s1.scheduled(j),
            forall|j: int|
                0 <= j < g.arena@.len() && s1.scheduled(j) ==> s2.dep_views(g, j) == s1.dep_views(
                    g,
                    j,
                ),
            s2.build_dir@ == s1.build_dir@,
        ensures
            s2.owed_from(g, i) == s1.owed_from(g, i),
        decreases g.arena@.len() - i,
    {
        if i < g.arena@.len() {
            Self::lemma_owed_from_congr(s1, s2, g, i + 1);
        }
    }

    /// Scheduling one more node raises the debt by exactly what that node
    /// owes.
    proof fn lemma_owed_from_update(s1: &Self, s2: &Self, g: &DependencyGraph, n: int, i: int)
        requires
            0 <= i,
            0 <= n < g.arena@.len(),
            !s1.scheduled(n),
            s2.scheduled(n),
            forall|j: int|
                0 <= j < g.arena@.len() && j != n ==> s2.scheduled(j) == s1.scheduled(j),
            forall|j: int|
                0 <= j < g.arena@.len() && j != n && s1.scheduled(j) ==> s2.dep_views(g, j)
                    == s1.dep_views(g, j),
            s2.build_dir@ == s1.build_dir@,
        ensures
            s2.owed_from(g, i) == s1.owed_from(g, i) + (if i <= n {
                spec_instructions_for(g.arena@[n], s2.dep_views(g, n), s2.build_dir@).len()
            } else {
                0nat
            }),
        decreases g.arena@.len() - i,
    {
        if i < g.arena@.len() {
            Self::lemma_owed_from_update(s1, s2, g, n, i + 1);
        }
    }

    /// Every node that is ready to be scheduled, in ascending order.
    fn collect_buildable(&self) -> (r: Vec<Ref>)
        ensures
            forall|k: int| 0 <= k < r@.len() ==> self.eligible((#[trigger] r@[k]).idx as int),
            forall|k1: int, k2: int| 0 <= k1 < k2 < r@.len() ==> r@[k1].idx < r@[k2].idx,
            forall|i: int|
                self.eligible(i) ==> exists|k: int|
                    0 <= k < r@.len() && (#[trigger] r@[k]).idx == i,
    {
        let n = self.target_status_map.len();
        let mut r: Vec<Ref> = Vec::new();
        let mut i: usize = 0;
        while i < n
            invariant
                n == self.target_status_map@.len(),
                i <= n,
                forall|k: int| 0 <= k < r@.len() ==> self.eligible((#[trigger] r@[k]).idx as int),
                forall|k: int| 0 <= k < r@.len() ==> (#[trigger] r@[k]).idx < i,
                forall|k1: int, k2: int| 0 <= k1 < k2 < r@.len() ==> r@[k1].idx < r@[k2].idx,
                forall|m: int|
                    0 <= m < i && self.eligible(m) ==> exists|k: int|
                        0 <= k < r@.len() && (#[trigger] r@[k]).idx == m,
            decreases n - i,
        {
            let is_eligible = match &self.target_status_map[i] {
                Some(st) => !st.is_scheduled && st.number_of_unbuilt_dependencies == 0,
                None => false,
            };
            if is_eligible {
                let ghost r0 = r@;
                r.push(Ref { idx: i });
                proof {
                    assert(r@[r0.len() as int] == (Ref { idx: i }));
                    assert forall|m: int|
                        0 <= m < i + 1 && self.eligible(m) implies exists|k: int|
                        0 <= k < r@.len() && (#[trigger] r@[k]).idx == m by {
                        if m < i {
                            let k = choose|k: int| 0 <= k < r0.len() && r0[k].idx == m;
                            assert(r@[k].idx == m);
                        } else {
                            assert(r@[r0.len() as int].idx == m);
                        }
                    }
                }
            }
            i += 1;
        }
        r
    }

    /// True exactly when every annotated node has been built.
    fn all_nodes_built(&self) -> (r: bool)
        ensures
            r == (forall|i: int| #[trigger] self.annotated(i) ==> self.st(i).is_built),
    {
        let n = self.target_status_map.len();
        let mut i: usize = 0;
        while i < n
            invariant
                n == self.target_status_map@.len(),
                i <= n,
                forall|m: int| 0 <= m < i && #[trigger] self.annotated(m) ==> self.st(m).is_built,
            decreases n - i,
        {
            let pending = match &self.target_status_map[i] {
                Some(st) => !st.is_built,
                None => false,
            };
            if pending {
                proof {
                    assert(self.annotated(i as int) && !self.st(i as int).is_built);
                }
                return false;
            }
            i += 1;
        }
        true
    }

    /// The annotated, scheduled, unbuilt node waiting for `job_id`, with the
    /// position of the id in its pending list.
    fn find_node_waiting(&self, job_id: usize) -> (r: Option<(usize, usize)>)
        ensures
            match r {
                Some(ip) => {
                    &&& self.annotated(ip.0 as int)
                    &&& self.st(ip.0 as int).is_scheduled
                    &&& !self.st(ip.0 as int).is_built
                    &&& ip.1 < self.st(ip.0 as int).job_ids@.len()
                    &&& self.st(ip.0 as int).job_ids@[ip.1 as int] == job_id
                },
                None => forall|i: int|
                    #[trigger] self.annotated(i) && self.st(i).is_scheduled && !self.st(i).is_built
                        ==> !self.st(i).job_ids@.contains(job_id),
            },
    {
        let n = self.target_status_map.len();
        let mut i: usize = 0;
        while i < n
            invariant
                n == self.target_status_map@.len(),
                i <= n,
                forall|m: int|
                    0 <= m < i && #[trigger] self.annotated(m) && self.st(m).is_scheduled
                        && !self.st(m).is_built ==> !self.st(m).job_ids@.contains(job_id),
            decreases n - i,
        {
            let candidate = match &self.target_status_map[i] {
                Some(st) => st.is_scheduled && !st.is_built,
                None => false,
            };
            if candidate {
                let pos = match &self.target_status_map[i] {
                    Some(st) => find_index_usize(&st.job_ids, job_id),
                    None => None,
                };
                match pos {
                    Some(p) => {
                        return Some((i, p));
                    },
                    None => {},
                }
            }
            i += 1;
        }
        None
    }

    /// Records one completed job: removes the id from the node that waits
    /// for it, and when that was the node's last outstanding job, marks the
    /// node built and unlocks its dependents. A result that no node waits
    /// for is a misuse of the pool and reported as such.
    pub fn handle_result(&mut self, graph: &DependencyGraph, result: WorkResult) -> (r: Result<
        (),
        SchedulerError,
    >)
        requires
            old(self).inv(graph),
        ensures
            final(self).inv(graph),
            final(self).workpool == old(self).workpool,
            final(self).target_data_map@ == old(self).target_data_map@,
            final(self).build_dir == old(self).build_dir,
            forall|i: int| #[trigger] final(self).annotated(i) == old(self).annotated(i),
            forall|i: int|
                final(self).annotated(i) ==> (#[trigger] final(self).st(i)).is_scheduled == old(self).st(i).is_scheduled,
            forall|i: int| old(self).built(i) ==> final(self).built(i),
            match r {
                Ok(()) => exists|i: int, p: int|
                    {
                        &&& #[trigger] old(self).annotated(i)
                        &&& old(self).st(i).is_scheduled
                        &&& !old(self).st(i).is_built
                        &&& 0 <= p < old(self).st(i).job_ids@.len()
                        &&& (#[trigger] old(self).st(i).job_ids@[p]) == result.job_id
                        &&& final(self).st(i).job_ids@ == old(self).st(i).job_ids@.remove(p)
                        &&& (final(self).st(i).job_ids@.len() == 0 ==> final(self).built(i))
                        // no other node's job list or built flag is touched
                        &&& forall|j: int|
                            j != i && final(self).annotated(j) ==> (#[trigger] final(self).st(
                                j,
                            )).job_ids@ == old(self).st(j).job_ids@ && final(self).st(
                                j,
                            ).is_built == old(self).st(j).is_built
                    },
                Err(e) => {
                    &&& e == SchedulerError::UnknownJobResult
                    &&& *final(self) == *old(self)
                    &&& forall|i: int|
                        #[trigger] old(self).annotated(i) && old(self).st(i).is_scheduled && !old(self).st(i).is_built ==> !old(self).st(i).job_ids@.contains(result.job_id)
                },
            },
    {
        match self.find_node_waiting(result.job_id) {
            None => Err(SchedulerError::UnknownJobResult),
            Some((i, p)) => {
                let (cnt, isch) = match &self.target_status_map[i] {
                    Some(st) => (st.number_of_unbuilt_dependencies, st.is_scheduled),
                    None => (0, false),
                };
                let mut jids = match &self.target_status_map[i] {
                    Some(st) => st.job_ids.clone(),
                    None => Vec::new(),
                };
                proof {
                    assert(jids@ =~= old(self).st(i as int).job_ids@);
                }
                jids.remove(p);
                let ghost jv = jids@;
                let now_empty = jids.len() == 0;
                let ghost smap0 = self.target_status_map@;
                self.target_status_map[i] = Some(
                    TargetStatus {
                        number_of_unbuilt_dependencies: cnt,
                        is_built: false,
                        is_scheduled: isch,
                        job_ids: jids,
                    },
                );
                proof {
                    assert(self.built_seq() =~= old(self).built_seq());
                    assert forall|ii: int| self.annotated(ii) implies #[trigger] self.node_inv(
                        graph,
                        ii,
                    ) by {
                        assert(old(self).annotated(ii));
                        assert(old(self).node_inv(graph, ii));
                        if ii != i {
                            assert(self.target_status_map@[ii] == smap0[ii]);
                        }
                        assert(self.st(ii).number_of_unbuilt_dependencies == old(self).st(
                            ii,
                        ).number_of_unbuilt_dependencies);
                        assert(self.st(ii).is_scheduled == old(self).st(ii).is_scheduled);
                        assert(self.st(ii).is_built ==> old(self).st(ii).is_built);
                        assert forall|k: int|
                            self.st(ii).is_scheduled && 0 <= k
                                < graph.arena@[ii].requires@.len() implies self.built((
                        #[trigger] graph.arena@[ii].requires@[k]).idx as int) by {
                            assert(old(self).built(graph.arena@[ii].requires@[k].idx as int));
                        }
                        assert(self.dep_views(graph, ii) =~= old(self).dep_views(graph, ii));
                    }
                    assert forall|ii: int|
                        0 <= ii < graph.arena@.len() && self.target_data_map@[ii]
                            is Some implies self.annotated(ii) by {
                        assert(old(self).annotated(ii));
                    }
                }
                let ghost smap1 = self.target_status_map@;
                if now_empty {
                    self.mark_built_and_propagate(graph, Ref { idx: i });
                }
                proof {
                    let ii = i as int;
                    let pp = p as int;
                    assert(jv == old(self).st(ii).job_ids@.remove(pp));
                    if now_empty {
                        assert(flags_match(self.target_status_map@, smap1, ii));
                        assert(self.st(ii).job_ids@ == Self::st_was(self, smap1, ii).job_ids@);
                        assert(self.st(ii).job_ids@ =~= jv);
                        assert(self.built(ii));
                    } else {
                        assert(self.st(ii).job_ids@ == jv);
                    }
                    assert(old(self).st(ii).job_ids@[pp] == result.job_id);
                    assert forall|j: int|
                        j != ii && self.annotated(j) implies (#[trigger] self.st(j)).job_ids@
                        == old(self).st(j).job_ids@ && self.st(j).is_built == old(self).st(
                        j,
                    ).is_built by {
                        assert(smap1[j] == smap0[j]);
                        if now_empty {
                            assert(self.st(j).job_ids@ == Self::st_was(self, smap1, j).job_ids@);
                            assert(self.st(j).is_built == (Self::st_was(self, smap1, j).is_built
                                || j == ii));
                        }
                    }
                }
                Ok(())
            },
        }
    }
}


impl<F: Fn(WorkInstruction) -> Result<String, String> + Send + Clone + 'static> Scheduler<F> {
    /// Launches one ready node: asks the instructor for its work
    /// instructions and target data, records the data, dispatches every
    /// instruction to the pool, and marks the node scheduled. A node without
    /// instructions is built on the spot and unlocks its dependents within
    /// this very call.
    pub fn schedule_node<'g>(
        &mut self,
        graph: &'g DependencyGraph,
        instructor: &mut Instructor<'g>,
        node: Ref,
    ) -> (r: Result<(), SchedulerError>)
        requires
            old(self).inv(graph),
            graph_ready(graph),
            old(self).deps_closed(graph),
            old(self).workpool.wf(),
            node.idx < graph.arena@.len(),
            old(self).eligible(node.idx as int),
            old(instructor).graph == graph,
            old(instructor).build_dir@ == old(self).build_dir@,
        ensures
            final(self).inv(graph),
            final(self).deps_closed(graph),
            final(self).workpool.wf(),
            final(instructor).graph == graph,
            final(instructor).build_dir@ == old(self).build_dir@,
            final(self).build_dir == old(self).build_dir,
            final(self).workpool.results@ == old(self).workpool.results@,
            forall|i: int| #[trigger] final(self).annotated(i) == old(self).annotated(i),
            forall|i: int| old(self).built(i) ==> final(self).built(i),
            match r {
                Ok(()) => {
                    &&& final(self).scheduled(node.idx as int)
                    // a node with no instructions is built at once, so its
                    // dependents' counters drop within this very call
                    &&& (spec_instructions_for(
                        graph.arena@[node.idx as int],
                        old(self).dep_views(graph, node.idx as int),
                        old(self).build_dir@,
                    ).len() == 0 ==> final(self).built(node.idx as int))
                    &&& count_unscheduled(final(self).target_status_map@) < count_unscheduled(
                        old(self).target_status_map@,
                    )
                    &&& forall|i: int|
                        i != node.idx && old(self).eligible(i) ==> final(self).eligible(i)
                    &&& forall|i: int|
                        i != node.idx && final(self).annotated(i) ==> (#[trigger] final(self).st(
                            i,
                        )).is_scheduled == old(self).st(i).is_scheduled
                    // no other node's job list or built flag is touched
                    &&& forall|i: int|
                        i != node.idx && final(self).annotated(i) ==> (#[trigger] final(self).st(
                            i,
                        )).job_ids@ == old(self).st(i).job_ids@ && final(self).st(i).is_built
                            == old(self).st(i).is_built
                    // exactly the owed instructions were dispatched, one job
                    // id per instruction, ids consecutive from the pool's
                    // next id
                    &&& final(self).workpool.dispatched@ == old(self).workpool.dispatched@
                        + spec_instructions_for(
                        graph.arena@[node.idx as int],
                        old(self).dep_views(graph, node.idx as int),
                        old(self).build_dir@,
                    )
                    &&& final(self).st(node.idx as int).job_ids@.len() == spec_instructions_for(
                        graph.arena@[node.idx as int],
                        old(self).dep_views(graph, node.idx as int),
                        old(self).build_dir@,
                    ).len()
                    &&& final(self).workpool.number_of_jobs_waiting == old(self).workpool.number_of_jobs_waiting + spec_instructions_for(
                        graph.arena@[node.idx as int],
                        old(self).dep_views(graph, node.idx as int),
                        old(self).build_dir@,
                    ).len()
                    &&& forall|k: int|
                        0 <= k < final(self).st(node.idx as int).job_ids@.len() ==> (
                        #[trigger] final(self).st(node.idx as int).job_ids@[k]) == old(self).workpool.next_job_id + k
                    // only the node's own target data is written, and no
                    // dependency data anyone relies on moves
                    &&& final(self).target_data_map@ == old(self).target_data_map@.update(
                        node.idx as int,
                        final(self).target_data_map@[node.idx as int],
                    )
                    &&& final(self).dep_views(graph, node.idx as int) == old(self).dep_views(
                        graph,
                        node.idx as int,
                    )
                    &&& forall|i: int|
                        i != node.idx && final(self).scheduled(i) ==> #[trigger] final(self).dep_views(graph, i) == old(self).dep_views(graph, i)
                },
                Err(e) => {
                    &&& e == SchedulerError::TooManyJobs
                    &&& *final(self) == *old(self)
                    // the instructions owed for the node outnumber the job
                    // ids that are left
                    &&& spec_instructions_for(
                        graph.arena@[node.idx as int],
                        old(self).dep_views(graph, node.idx as int),
                        old(self).build_dir@,
                    ).len() > usize::MAX - old(self).workpool.next_job_id
                },
            },
    {
        instructor.reset();
        instructor.set_node(node);
        let ghost nodeg = graph.arena@[node.idx as int];
        let dependencies = graph.get_dependencies(node);
        proof {
            assert(old(self).node_inv(graph, node.idx as int));
            lemma_unbuilt_zero(nodeg.requires@, self.built_seq());
            assert(crate::dependency_graph::node_edges_in_bounds(graph.arena@, node.idx as int));
            assert forall|m: int| 0 <= m < nodeg.requires@.len() implies {
                let d = (#[trigger] nodeg.requires@[m]).idx as int;
                &&& self.built(d)
                &&& self.st(d).is_scheduled
                &&& self.target_data_map@[d] is Some
            } by {
                let d = nodeg.requires@[m].idx as int;
                assert(self.built_seq()[d]);
                assert(self.built(d));
                assert(self.node_inv(graph, d));
            }
        }
        let dl = dependencies.len();
        let mut dependencies_targetdata: Vec<TargetData> = Vec::new();
        let mut k: usize = 0;
        while k < dl
            invariant
                dl == dependencies@.len(),
                dependencies@ == graph.arena@[node.idx as int].requires@,
                node.idx < graph.arena@.len(),
                graph.arena@.len() == self.target_data_map@.len(),
                k <= dl,
                forall|m: int|
                    0 <= m < dl ==> (#[trigger] dependencies@[m]).idx < graph.arena@.len(),
                forall|m: int|
                    0 <= m < dl ==> self.target_data_map@[(#[trigger] dependencies@[m]).idx as int]
                        is Some,
                dependencies_targetdata@.len() == k,
                forall|m: int|
                    0 <= m < k ==> (#[trigger] dependencies_targetdata@[m])@ == self.data_view(
                        dependencies@[m].idx as int,
                    ),
            decreases dl - k,
        {
            let dep = dependencies[k];
            let dd = match &self.target_data_map[dep.idx] {
                Some(d) => d.duplicate(),
                None => TargetData::INTERFACE { include_dirs: Vec::new() },
            };
            dependencies_targetdata.push(dd);
            k += 1;
        }
        instructor.set_dependency_targetdata(dependencies_targetdata);
        proof {
            assert(instructor.dependency_data.deep_view() =~= self.dep_views(
                graph,
                node.idx as int,
            ));
            assert forall|m: int|
                0 <= m < instructor.dependency_data.deep_view().len() implies !((
            #[trigger] instructor.dependency_data.deep_view()[m]) is EXECUTABLE) by {
                let d = graph.arena@[node.idx as int].requires@[m].idx as int;
                assert(self.annotated(d));
                assert(self.node_inv(graph, d));
                assert(self.data_view(d) == spec_target_data_for(
                    graph.arena@[d],
                    self.dep_views(graph, d),
                    self.build_dir@,
                ));
                assert(graph.arena@[d].dep_type != DependencyType::EXECUTABLE);
            }
            assert(instructable(nodeg, instructor.dependency_data.deep_view()));
        }
        instructor.process();
        let target_data = instructor.get_targetdata();
        let instructions = instructor.get_instructions();
        let num = instructions.len();
        if num > usize::MAX - self.workpool.next_job_id {
            return Err(SchedulerError::TooManyJobs);
        }
        let ghost dmap0 = self.target_data_map@;
        let ghost smap0 = self.target_status_map@;
        let ghost tdv = target_data@;
        proof {
            assert(instructions.deep_view() == spec_instructions_for(
                nodeg,
                old(self).dep_views(graph, node.idx as int),
                old(self).build_dir@,
            ));
            assert(num == spec_instructions_for(
                nodeg,
                old(self).dep_views(graph, node.idx as int),
                old(self).build_dir@,
            ).len());
        }
        self.target_data_map[node.idx] = Some(target_data);
        let ghost dmap1 = self.target_data_map@;
        let ghost njid0 = self.workpool.next_job_id;
        let ghost res0 = self.workpool.results@;
        let ghost disp0 = self.workpool.dispatched@;
        let ghost w0 = self.workpool.number_of_jobs_waiting;
        let mut job_ids: Vec<usize> = Vec::new();
        let mut q: usize = 0;
        while q < num
            invariant
                num == instructions@.len(),
                q <= num,
                self.workpool.wf(),
                self.workpool.next_job_id == njid0 + q,
                njid0 + num <= usize::MAX,
                self.workpool.results@ == res0,
                self.workpool.number_of_jobs_waiting == w0 + q,
                self.workpool.dispatched@ == disp0 + instructions.deep_view().take(q as int),
                job_ids@.len() == q,
                forall|k: int| 0 <= k < job_ids@.len() ==> (#[trigger] job_ids@[k]) == njid0 + k,
                self.target_status_map@ == smap0,
                self.target_data_map@ == dmap1,
                self.build_dir == old(self).build_dir,
            decreases num - q,
        {
            let instr = instructions[q].duplicate();
            let ghost iv = instr@;
            let jid = self.workpool.schedule_work(instr);
            job_ids.push(jid);
            proof {
                assert(iv == instructions.deep_view()[q as int]);
                assert(self.workpool.dispatched@ =~= disp0 + instructions.deep_view().take(q
                    + 1));
            }
            q += 1;
        }
        proof {
            assert(instructions.deep_view().take(num as int) =~= instructions.deep_view());
        }
        let now_empty = num == 0;
        self.target_status_map[node.idx] = Some(
            TargetStatus {
                number_of_unbuilt_dependencies: 0,
                is_built: false,
                is_scheduled: true,
                job_ids,
            },
        );
        let ghost smap1 = self.target_status_map@;
        proof {
            assert(smap1 == smap0.update(node.idx as int, smap1[node.idx as int]));
            lemma_counts_update(smap0, node.idx as int, smap1[node.idx as int]);
            assert(count_unscheduled(smap1) < count_unscheduled(smap0));
            assert(self.built_seq() =~= old(self).built_seq());
            // the node does not appear among its own dependencies, nor among
            // those of any scheduled node: those are all built already
            assert forall|i: int| self.annotated(i) implies #[trigger] self.node_inv(graph, i) by {
                assert(old(self).annotated(i));
                assert(old(self).node_inv(graph, i));
                if i != node.idx {
                    assert(smap1[i] == smap0[i]);
                    assert(self.st(i) == old(self).st(i));
                }
                assert(self.st(i).number_of_unbuilt_dependencies == unbuilt_deps(
                    graph.arena@[i].requires@,
                    self.built_seq(),
                ));
                if self.st(i).is_scheduled {
                    assert forall|m: int|
                        0 <= m < graph.arena@[i].requires@.len() implies self.built((
                    #[trigger] graph.arena@[i].requires@[m]).idx as int) by {
                        let d = graph.arena@[i].requires@[m].idx as int;
                        if i == node.idx {
                            assert(self.built_seq()[d]);
                        } else {
                            assert(old(self).built(d));
                        }
                    }
                    // the data of every dependency is untouched: each is
                    // built, and the written node is not
                    assert forall|m: int|
                        0 <= m < graph.arena@[i].requires@.len() implies (
                    #[trigger] graph.arena@[i].requires@[m]).idx != node.idx by {
                        let d = graph.arena@[i].requires@[m].idx as int;
                        if d == node.idx {
                            assert(self.built(d));
                            assert(old(self).built(node.idx as int) || self.st(
                                node.idx as int,
                            ).is_built);
                            assert(false);
                        }
                    }
                    assert(self.dep_views(graph, i) =~= old(self).dep_views(graph, i));
                    if i == node.idx {
                        assert(self.data_view(i) == tdv);
                        assert(tdv == spec_target_data_for(
                            nodeg,
                            old(self).dep_views(graph, node.idx as int),
                            self.build_dir@,
                        ));
                    }
                }
            }
            assert forall|i: int|
                0 <= i < graph.arena@.len() && self.target_data_map@[i] is Some implies self.annotated(
                i,
            ) by {
                if i != node.idx {
                    assert(dmap1[i] == dmap0[i]);
                    assert(old(self).annotated(i));
                }
            }
            assert(self.inv(graph));
        }
        if now_empty {
            self.mark_built_and_propagate(graph, node);
        }
        proof {
            assert(njid0 == old(self).workpool.next_job_id);
            assert(disp0 == old(self).workpool.dispatched@);
            assert(w0 == old(self).workpool.number_of_jobs_waiting);
            assert(self.target_data_map@ == dmap1);
            assert(self.target_data_map@ =~= old(self).target_data_map@.update(
                node.idx as int,
                self.target_data_map@[node.idx as int],
            ));
            // the scheduled node's dependencies were all built before this
            // call, so none of them is the node itself and none of their
            // data slots moved
            assert(old(self).node_inv(graph, node.idx as int));
            lemma_unbuilt_zero(nodeg.requires@, old(self).built_seq());
            assert(crate::dependency_graph::node_edges_in_bounds(graph.arena@, node.idx as int));
            assert forall|m: int|
                0 <= m < nodeg.requires@.len() implies (#[trigger] nodeg.requires@[m]).idx
                != node.idx && old(self).target_data_map@[nodeg.requires@[m].idx as int]
                == self.target_data_map@[nodeg.requires@[m].idx as int] by {
                let d = nodeg.requires@[m].idx as int;
                assert(old(self).built_seq()[d]);
                assert(old(self).built(d));
                if d == node.idx {
                    assert(!old(self).st(node.idx as int).is_scheduled);
                    assert(false);
                }
                assert(dmap1[d] == dmap0[d]);
            }
            assert(self.dep_views(graph, node.idx as int) =~= old(self).dep_views(
                graph,
                node.idx as int,
            ));
            assert forall|i: int|
                i != node.idx && self.scheduled(i) implies #[trigger] self.dep_views(graph, i)
                == old(self).dep_views(graph, i) by {
                assert(old(self).scheduled(i));
                assert(old(self).node_inv(graph, i));
                assert(crate::dependency_graph::node_edges_in_bounds(graph.arena@, i));
                assert forall|m: int|
                    0 <= m < graph.arena@[i].requires@.len() implies old(self).target_data_map@[(#[trigger] graph.arena@[i].requires@[m]).idx as int]
                    == self.target_data_map@[graph.arena@[i].requires@[m].idx as int] by {
                    let d = graph.arena@[i].requires@[m].idx as int;
                    assert(old(self).built(d));
                    if d == node.idx {
                        assert(false);
                    }
                    assert(dmap1[d] == dmap0[d]);
                }
                assert(self.dep_views(graph, i) =~= old(self).dep_views(graph, i));
            }
            if now_empty {
                assert(self.workpool.dispatched@ =~= old(self).workpool.dispatched@
                    + spec_instructions_for(
                    nodeg,
                    old(self).dep_views(graph, node.idx as int),
                    old(self).build_dir@,
                ));
                assert(self.st(node.idx as int).job_ids@.len() == 0);
                // after propagation: the annotation and the scheduled flags
                // survive, the counters only shrink
                assert(flags_match(self.target_status_map@, smap1, node.idx as int));
                assert forall|i: int| #[trigger] self.annotated(i) == old(self).annotated(i) by {
                    if 0 <= i < smap1.len() {
                        assert(self.target_status_map@[i] is Some <==> smap1[i] is Some);
                        if i != node.idx {
                            assert(smap1[i] == smap0[i]);
                        }
                    }
                }
                assert forall|i: int| old(self).built(i) implies self.built(i) by {
                    assert(smap1[i] == smap0[i]);
                    assert(self.st(i).is_built == (self.st_was(smap1, i).is_built || i
                        == node.idx));
                }
                lemma_counts_congr(self.target_status_map@, smap1);
                assert(count_unscheduled(self.target_status_map@) < count_unscheduled(smap0));
                assert forall|i: int|
                    i != node.idx && old(self).eligible(i) implies self.eligible(i) by {
                    assert(self.annotated(i));
                    assert(self.node_inv(graph, i));
                    assert(crate::dependency_graph::node_edges_in_bounds(graph.arena@, i));
                    assert forall|m: int|
                        0 <= m < graph.arena@[i].requires@.len() && old(self).built_seq()[(
                    #[trigger] graph.arena@[i].requires@[m]).idx as int] implies self.built_seq()[graph.arena@[i].requires@[m].idx as int] by {
                        let d = graph.arena@[i].requires@[m].idx as int;
                        assert(old(self).built(d) ==> self.built(d));
                    }
                    lemma_unbuilt_monotone(
                        graph.arena@[i].requires@,
                        old(self).built_seq(),
                        self.built_seq(),
                    );
                    assert(unbuilt_deps(graph.arena@[i].requires@, old(self).built_seq()) == old(self).st(i).number_of_unbuilt_dependencies) by {
                        assert(old(self).node_inv(graph, i));
                    }
                    assert(self.st(i).is_scheduled == old(self).st(i).is_scheduled);
                }
                assert forall|i: int|
                    i != node.idx && self.annotated(i) implies (#[trigger] self.st(
                    i,
                )).is_scheduled == old(self).st(i).is_scheduled && self.st(i).job_ids@ == old(self).st(i).job_ids@ && self.st(i).is_built == old(self).st(i).is_built by {
                    assert(smap1[i] == smap0[i]);
                    assert(self.st(i).job_ids@ == Self::st_was(self, smap1, i).job_ids@);
                    assert(self.st(i).is_built == (Self::st_was(self, smap1, i).is_built || i
                        == node.idx));
                }
            } else {
                assert(self.target_status_map@ == smap1);
                assert forall|i: int| #[trigger] self.annotated(i) == old(self).annotated(i) by {
                    if 0 <= i < smap1.len() && i != node.idx {
                        assert(smap1[i] == smap0[i]);
                    }
                }
                assert forall|i: int| old(self).built(i) implies self.built(i) by {
                    assert(smap1[i] == smap0[i]);
                }
                assert forall|i: int|
                    i != node.idx && old(self).eligible(i) implies self.eligible(i) by {
                    assert(smap1[i] == smap0[i]);
                    assert(self.st(i) == old(self).st(i));
                }
                assert forall|i: int|
                    i != node.idx && self.annotated(i) implies (#[trigger] self.st(
                    i,
                )).is_scheduled == old(self).st(i).is_scheduled by {
                    assert(smap1[i] == smap0[i]);
                }
            }
        }
        Ok(())
    }
}


impl<F: Fn(WorkInstruction) -> Result<String, String> + Send + Clone + 'static> Scheduler<F> {
    /// Topological correctness, as a law over the scheduler's state: while
    /// the invariant holds, a node is only ever scheduled after every one of
    /// its dependencies has been built — so its first instruction is
    /// dispatched only after the last result of each dependency came back.
    pub proof fn lemma_scheduled_after_dependencies(&self, graph: &DependencyGraph, a: int)
        requires
            self.inv(graph),
            self.scheduled(a),
        ensures
            forall|k: int|
                0 <= k < graph.arena@[a].requires@.len() ==> self.built(
                    (#[trigger] graph.arena@[a].requires@[k]).idx as int,
                ),
    {
        assert(self.node_inv(graph, a));
    }

    /// The invariant ignores the pool: two states with the same maps and
    /// build directory satisfy it together.
    proof fn lemma_inv_pool_independent(pre: Scheduler<F>, post: Scheduler<F>, graph: &DependencyGraph)
        requires
            pre.inv(graph),
            pre.deps_closed(graph),
            post.target_status_map@ == pre.target_status_map@,
            post.target_data_map@ == pre.target_data_map@,
            post.build_dir == pre.build_dir,
        ensures
            post.inv(graph),
            post.deps_closed(graph),
            forall|i: int| #[trigger] post.annotated(i) == pre.annotated(i),
    {
        assert(post.built_seq() =~= pre.built_seq());
        assert forall|i: int| post.annotated(i) implies #[trigger] post.node_inv(graph, i) by {
            assert(pre.annotated(i));
            assert(pre.node_inv(graph, i));
            assert(post.st(i) == pre.st(i));
            assert(post.dep_views(graph, i) =~= pre.dep_views(graph, i));
        }
        assert forall|i: int|
            0 <= i < graph.arena@.len() && post.target_data_map@[i] is Some implies post.annotated(
            i,
        ) by {
            assert(pre.annotated(i));
        }
    }

    /// Builds every target reachable from the graph's roots: annotates the
    /// graph, then repeatedly launches ready nodes and collates results
    /// until everything annotated is built. Every loop carries a decreasing
    /// measure, so the call returns after finitely many iterations on any
    /// finite graph; on a cyclic one it reports a stall instead of spinning.
    pub fn build_all(&mut self, graph: &DependencyGraph) -> (r: Result<(), SchedulerError>)
        requires
            graph_ready(graph),
            old(self).target_status_map@.len() == 0,
            old(self).target_data_map@.len() == 0,
            old(self).workpool.wf(),
            old(self).workpool.results@.len() == 0,
            old(self).workpool.next_job_id == 0,
        ensures
            final(self).inv(graph),
            final(self).deps_closed(graph),
            // the pool was handed exactly the instructions the scheduled
            // nodes owe, one job id each
            final(self).workpool.dispatched@.len() == final(self).owed(graph),
            r is Ok ==> forall|i: int| #[trigger] final(self).annotated(i) ==> final(self).built(i),
            r is Ok ==> forall|k: int|
                0 <= k < graph.roots@.len() ==> final(self).annotated(
                    (#[trigger] graph.roots@[k]).idx as int,
                ),
            r is Ok ==> final(self).workpool.results@.len() == 0,
            // on success every dispatched job's result has been consumed
            r is Ok ==> final(self).workpool.number_of_jobs_waiting == 0,
            // a stall means exactly that nothing was left to do: some
            // annotated node is unbuilt, yet no node is eligible and no
            // result is outstanding or buffered
            (r matches Err(e) && e == SchedulerError::Stalled) ==> (exists|i: int|
                final(self).annotated(i) && !final(self).built(i)) && (forall|i: int|
                !final(self).eligible(i)) && final(self).workpool.number_of_jobs_waiting == 0
                && final(self).workpool.results@.len() == 0,
            // a result that no node waits for: the offending id is the one
            // last received from the channel
            (r matches Err(e) && e == SchedulerError::UnknownJobResult) ==> final(self).workpool.received@.len() >= 1 && (forall|i: int|
                #[trigger] final(self).annotated(i) && final(self).st(i).is_scheduled && !final(self).st(i).is_built ==> !final(self).st(i).job_ids@.contains(
                    final(self).workpool.received@.last(),
                )),
            // job-id exhaustion: some annotated node owes more instructions
            // than ids remain
            (r matches Err(e) && e == SchedulerError::TooManyJobs) ==> exists|i: int|
                #[trigger] final(self).annotated(i) && spec_instructions_for(
                    graph.arena@[i],
                    final(self).dep_views(graph, i),
                    final(self).build_dir@,
                ).len() > usize::MAX - final(self).workpool.next_job_id,
    {
        let n = graph.arena.len();
        let mut k: usize = 0;
        while k < n
            invariant
                k <= n,
                self.target_status_map@.len() == k,
                self.target_data_map@.len() == k,
                forall|i: int| 0 <= i < k ==> (#[trigger] self.target_status_map@[i]) is None,
                forall|i: int| 0 <= i < k ==> (#[trigger] self.target_data_map@[i]) is None,
                self.workpool == old(self).workpool,
                self.build_dir == old(self).build_dir,
            decreases n - k,
        {
            self.target_status_map.push(None);
            self.target_data_map.push(None);
            k += 1;
        }
        let roots = graph.get_roots();
        let rl = roots.len();
        let mut ri: usize = 0;
        while ri < rl
            invariant
                rl == roots@.len(),
                roots@ == graph.roots@,
                ri <= rl,
                graph_ready(graph),
                self.inv(graph),
                self.all_fresh(),
                self.counts_initial(graph),
                self.deps_closed(graph),
                forall|m: int|
                    0 <= m < ri ==> self.annotated((#[trigger] roots@[m]).idx as int),
                self.workpool == old(self).workpool,
                self.build_dir == old(self).build_dir,
            decreases rl - ri,
        {
            let ghost pre = *self;
            self.visit_node(graph, roots[ri]);
            proof {
                assert forall|m: int| 0 <= m < ri + 1 implies self.annotated(
                    (#[trigger] roots@[m]).idx as int,
                ) by {
                    if m < ri {
                        assert(pre.annotated(roots@[m].idx as int));
                    }
                }
            }
            ri += 1;
        }
        let mut instructor = Instructor::new(graph, self.build_dir.clone());
        proof {
            // nothing is scheduled after annotation, so nothing is owed,
            // pending or outstanding yet
            assert(forall|j: int| !self.scheduled(j));
            self.lemma_owed_from_zero(graph, 0);
            assert(self.workpool.dispatched@.len() == 0);
            assert forall|j: int|
                0 <= j < self.target_status_map@.len() implies ((
            #[trigger] self.target_status_map@[j]) matches Some(st) ==> st.job_ids@.len() == 0) by {
                if self.target_status_map@[j] is Some {
                    assert(self.annotated(j));
                    assert(self.st(j).job_ids@.len() == 0);
                }
            }
            lemma_pending_zero(self.target_status_map@);
            assert(self.workpool.number_of_jobs_waiting == 0);
        }
        loop
            invariant
                graph_ready(graph),
                self.inv(graph),
                self.deps_closed(graph),
                self.workpool.wf(),
                self.workpool.results@.len() == 0,
                self.workpool.dispatched@.len() == self.owed(graph),
                self.workpool.number_of_jobs_waiting == pending_jobs(self.target_status_map@),
                instructor.graph == graph,
                instructor.build_dir@ == self.build_dir@,
                roots@ == graph.roots@,
                forall|m: int|
                    0 <= m < roots@.len() ==> self.annotated((#[trigger] roots@[m]).idx as int),
            decreases
                count_unscheduled(self.target_status_map@),
                self.workpool.number_of_jobs_waiting + self.workpool.results@.len(),
        {
            let ghost c0 = count_unscheduled(self.target_status_map@);
            let buildable = self.collect_buildable();
            let ghost entry_smap = self.target_status_map@;
            proof {
                // record which nodes were eligible, over the map value
                assert forall|i: int| Self::eligible_was(entry_smap, i) implies exists|k: int|
                    0 <= k < buildable@.len() && (#[trigger] buildable@[k]).idx == i by {
                    assert(self.eligible(i));
                }
            }
            if self.all_nodes_built() {
                proof {
                    assert forall|j: int|
                        0 <= j < self.target_status_map@.len() implies ((
                    #[trigger] self.target_status_map@[j]) matches Some(st) ==> st.job_ids@.len()
                        == 0) by {
                        if self.target_status_map@[j] is Some {
                            assert(self.annotated(j));
                            assert(self.st(j).is_built);
                            assert(self.node_inv(graph, j));
                        }
                    }
                    lemma_pending_zero(self.target_status_map@);
                }
                return Ok(());
            }
            let ghost iw: int = choose|i: int| self.annotated(i) && !self.st(i).is_built;
            proof {
                assert(self.annotated(iw) && !self.st(iw).is_built);
            }
            let bl = buildable.len();
            let ghost entry_pool = self.workpool;
            let mut bi: usize = 0;
            while bi < bl
                invariant
                    bl == buildable@.len(),
                    bi <= bl,
                    bi == 0 ==> self.target_status_map@ == entry_smap,
                    bi == 0 ==> self.workpool == entry_pool,
                    graph_ready(graph),
                    self.inv(graph),
                    self.deps_closed(graph),
                    self.workpool.wf(),
                    self.workpool.results@.len() == 0,
                    self.workpool.dispatched@.len() == self.owed(graph),
                    self.workpool.number_of_jobs_waiting == pending_jobs(self.target_status_map@),
                    instructor.graph == graph,
                    instructor.build_dir@ == self.build_dir@,
                    roots@ == graph.roots@,
                    forall|m: int|
                        0 <= m < roots@.len() ==> self.annotated(
                            (#[trigger] roots@[m]).idx as int,
                        ),
                    forall|m: int|
                        0 <= m < bl ==> (#[trigger] buildable@[m]).idx
                            < self.target_status_map@.len(),
                    forall|m1: int, m2: int|
                        0 <= m1 < m2 < bl ==> buildable@[m1].idx < buildable@[m2].idx,
                    forall|m: int|
                        bi <= m < bl ==> self.eligible((#[trigger] buildable@[m]).idx as int),
                    c0 == count_unscheduled(self.target_status_map@) || count_unscheduled(
                        self.target_status_map@,
                    ) < c0,
                    bi > 0 ==> count_unscheduled(self.target_status_map@) < c0,
                decreases bl - bi,
            {
                let ghost pre = *self;
                let node = buildable[bi];
                match self.schedule_node(graph, &mut instructor, node) {
                    Ok(()) => {},
                    Err(e) => {
                        proof {
                            let ii = node.idx as int;
                            assert(self.annotated(ii));
                            assert(spec_instructions_for(
                                graph.arena@[ii],
                                self.dep_views(graph, ii),
                                self.build_dir@,
                            ).len() > usize::MAX - self.workpool.next_job_id);
                        }
                        return Err(e);
                    },
                }
                proof {
                    assert forall|j: int|
                        0 <= j < graph.arena@.len() && j != node.idx implies self.scheduled(j)
                        == pre.scheduled(j) by {
                        assert(self.annotated(j) == pre.annotated(j));
                        if self.annotated(j) {
                            assert(self.st(j).is_scheduled == pre.st(j).is_scheduled);
                        }
                    }
                    Self::lemma_owed_from_update(&pre, self, graph, node.idx as int, 0);
                    assert(self.workpool.dispatched@.len() == self.owed(graph));
                    assert(pre.node_inv(graph, node.idx as int));
                    assert(pre.st(node.idx as int).job_ids@.len() == 0);
                    assert forall|j: int|
                        0 <= j < pre.target_status_map@.len() && j != node.idx implies ((
                    #[trigger] self.target_status_map@[j]) is Some <==> pre.target_status_map@[j] is Some) by {
                        assert(self.annotated(j) == pre.annotated(j));
                    }
                    assert forall|j: int|
                        0 <= j < pre.target_status_map@.len() && j != node.idx
                            && pre.target_status_map@[j] is Some implies ((
                    #[trigger] self.target_status_map@[j]) matches Some(x)
                        && pre.target_status_map@[j] matches Some(y) && x.job_ids@ == y.job_ids@) by {
                        assert(pre.annotated(j) && self.annotated(j));
                        assert(self.st(j).job_ids@ == pre.st(j).job_ids@);
                    }
                    lemma_pending_slot(
                        pre.target_status_map@,
                        self.target_status_map@,
                        node.idx as int,
                    );
                    assert(self.workpool.number_of_jobs_waiting == pending_jobs(
                        self.target_status_map@,
                    ));
                    assert forall|m: int|
                        bi + 1 <= m < bl implies self.eligible(
                        (#[trigger] buildable@[m]).idx as int,
                    ) by {
                        assert(buildable@[m].idx != node.idx);
                        assert(pre.eligible(buildable@[m].idx as int));
                    }
                    assert forall|m: int|
                        0 <= m < roots@.len() implies self.annotated(
                        (#[trigger] roots@[m]).idx as int,
                    ) by {
                        assert(pre.annotated(roots@[m].idx as int));
                    }
                }
                bi += 1;
            }
            let ghost pre_gn = *self;
            let next = self.workpool.get_next_result_blocking();
            proof {
                Self::lemma_inv_pool_independent(pre_gn, *self, graph);
                assert forall|m: int|
                    0 <= m < roots@.len() implies self.annotated(
                    (#[trigger] roots@[m]).idx as int,
                ) by {
                    assert(pre_gn.annotated(roots@[m].idx as int));
                }
                assert forall|j: int|
                    0 <= j < graph.arena@.len() implies self.scheduled(j) == pre_gn.scheduled(
                    j,
                ) && (pre_gn.scheduled(j) ==> self.dep_views(graph, j) == pre_gn.dep_views(
                    graph,
                    j,
                )) by {
                    assert(self.dep_views(graph, j) =~= pre_gn.dep_views(graph, j));
                }
                Self::lemma_owed_from_congr(&pre_gn, self, graph, 0);
                assert(self.workpool.dispatched@.len() == self.owed(graph));
            }
            match next {
                Some(result) => {
                    let ghost rid = result.job_id;
                    proof {
                        assert(self.workpool.received@.len() >= 1);
                        assert(self.workpool.received@.last() == rid);
                    }
                    let ghost pre = *self;
                    match self.handle_result(graph, result) {
                        Ok(()) => {},
                        Err(e) => {
                            proof {
                                assert(self.workpool.received@.last() == rid);
                            }
                            return Err(e);
                        },
                    }
                    proof {
                        assert forall|i: int|
                            0 <= i < self.target_status_map@.len() implies ((
                        #[trigger] self.target_status_map@[i]) is Some <==> (
                        #[trigger] pre.target_status_map@[i]) is Some) by {
                            assert(self.annotated(i) == pre.annotated(i));
                        }
                        assert forall|i: int|
                            0 <= i < self.target_status_map@.len()
                                && self.target_status_map@[i] is Some implies ((
                        #[trigger] self.target_status_map@[i]) matches Some(x) && (
                        #[trigger] pre.target_status_map@[i]) matches Some(y) && x.is_scheduled
                            == y.is_scheduled) by {
                            assert(self.annotated(i) && pre.annotated(i));
                            assert(self.st(i).is_scheduled == pre.st(i).is_scheduled);
                        }
                        lemma_counts_congr(self.target_status_map@, pre.target_status_map@);
                        assert(bl == 0 ==> pre_gn.target_status_map@ == entry_smap);
                        assert forall|j: int|
                            0 <= j < graph.arena@.len() implies self.scheduled(j)
                            == pre.scheduled(j) && (pre.scheduled(j) ==> self.dep_views(
                            graph,
                            j,
                        ) == pre.dep_views(graph, j)) by {
                            assert(self.annotated(j) == pre.annotated(j));
                            if self.annotated(j) {
                                assert(self.st(j).is_scheduled == pre.st(j).is_scheduled);
                            }
                            assert(self.dep_views(graph, j) =~= pre.dep_views(graph, j));
                        }
                        Self::lemma_owed_from_congr(&pre, self, graph, 0);
                        assert(self.workpool.dispatched@.len() == self.owed(graph));
                        let (iw2, pw2) = choose|i: int, p: int|
                            {
                                &&& #[trigger] pre.annotated(i)
                                &&& pre.st(i).is_scheduled
                                &&& !pre.st(i).is_built
                                &&& 0 <= p < pre.st(i).job_ids@.len()
                                &&& (#[trigger] pre.st(i).job_ids@[p]) == rid
                                &&& self.st(i).job_ids@ == pre.st(i).job_ids@.remove(p)
                                &&& (self.st(i).job_ids@.len() == 0 ==> self.built(i))
                                &&& forall|j: int|
                                    j != i && self.annotated(j) ==> (#[trigger] self.st(
                                        j,
                                    )).job_ids@ == pre.st(j).job_ids@ && self.st(j).is_built
                                        == pre.st(j).is_built
                            };
                        assert forall|j: int|
                            0 <= j < pre.target_status_map@.len() && j != iw2 implies ((
                        #[trigger] self.target_status_map@[j]) is Some <==> pre.target_status_map@[j] is Some) by {
                            assert(self.annotated(j) == pre.annotated(j));
                        }
                        assert forall|j: int|
                            0 <= j < pre.target_status_map@.len() && j != iw2
                                && pre.target_status_map@[j] is Some implies ((
                        #[trigger] self.target_status_map@[j]) matches Some(x)
                            && pre.target_status_map@[j] matches Some(y) && x.job_ids@
                            == y.job_ids@) by {
                            assert(pre.annotated(j) && self.annotated(j));
                            assert(self.st(j).job_ids@ == pre.st(j).job_ids@);
                        }
                        lemma_pending_slot(
                            pre.target_status_map@,
                            self.target_status_map@,
                            iw2,
                        );
                        assert(self.workpool.number_of_jobs_waiting == pending_jobs(
                            self.target_status_map@,
                        ));
                        assert forall|m: int|
                            0 <= m < roots@.len() implies self.annotated(
                            (#[trigger] roots@[m]).idx as int,
                        ) by {
                            assert(pre.annotated(roots@[m].idx as int));
                        }
                    }
                },
                None => {
                    if bl == 0 {
                        // nothing is running and nothing can be launched,
                        // yet unbuilt nodes remain
                        proof {
                            Self::lemma_inv_pool_independent(pre_gn, *self, graph);
                            assert(self.target_status_map@ == entry_smap);
                            assert(self.annotated(iw) && !self.built(iw));
                            // an empty buildable list means no node was
                            // eligible, and the maps have not changed since
                            assert forall|i: int| !self.eligible(i) by {
                                if self.eligible(i) {
                                    assert(Self::eligible_was(entry_smap, i));
                                }
                            }
                        }
                        return Err(SchedulerError::Stalled);
                    }
                },
            }
        }
    }
}

} // verus!
