//! The coordinator of the parallel branch-and-bound search. It owns the
//! best-first frontier, the incumbent and the in-flight order count, and it
//! decides: which node to dispatch next, how to fold a worker's response
//! back in, when a node is pruned, and when the search is over. The threads,
//! the channels and the LP engine run outside the library; they feed these
//! step functions with plain values and obey their verdicts.

use vstd::prelude::*;

use crate::branch::branch_dist;
use crate::branch::get_branch_var;
use crate::branch::has_unassigned;
use crate::common::all_integral;
use crate::common::FixedStatus;
use crate::common::LpOutcome;
use crate::common::Node;
use crate::common::SCALE;

verus! {

/// An order sent from the coordinator to a worker.
#[derive(Debug)]
pub enum WorkOrder {
    VisitNode(Node),
    NoMoreWork,
}

/// A worker's report on one branch child.
#[derive(Debug)]
pub enum WorkResponse {
    IntegralSolution(Node),
    Infeasible,
    NewActiveNode(Node),
}

/// A response the coordinator may integrate: its node is well formed, sized
/// to the problem, with a finite objective; an integral solution really is
/// integral within tolerance.
pub open spec fn response_wf(r: WorkResponse, n: int) -> bool {
    match r {
        WorkResponse::Infeasible => true,
        WorkResponse::IntegralSolution(s) => {
            &&& s.wf()
            &&& s.fixed@.len() == n
            &&& s.objective_val < u64::MAX
            &&& all_integral(s.lp_assignments@)
        },
        WorkResponse::NewActiveNode(nd) => {
            &&& nd.wf()
            &&& nd.fixed@.len() == n
            &&& nd.objective_val < u64::MAX
        },
    }
}

/// Counters the coordinator keeps about its own frontier.
#[derive(Clone, Copy, Debug)]
pub struct SolverStats {
    pub max_heap_size: usize,
}

impl Default for SolverStats {
    fn default() -> (r: SolverStats)
        ensures
            r.max_heap_size == 0,
    {
        SolverStats { max_heap_size: 0 }
    }
}

/// What the dispatch phase decided.
pub enum DispatchStep {
    /// Send this node to a worker; two responses are now owed.
    Dispatch(Node),
    /// The frontier held nothing.
    Empty,
    /// The best open node was already dominated by the incumbent, so every
    /// open node was; the frontier was cleared.
    PrunedRemaining,
}

/// Every open node is well formed and sized to the problem.
pub open spec fn frontier_nodes_wf(s: Seq<Node>, n: int) -> bool {
    forall|k: int| 0 <= k < s.len() ==> (#[trigger] s[k]).wf() && s[k].fixed@.len() == n
}

/// The branch-and-bound coordinator's state: frontier, incumbent, in-flight
/// order accounting and statistics.
pub struct IPSolver {
    solver_stats: SolverStats,
    active_nodes: crate::frontier::Frontier,
    current_incumbent: Option<Node>,
    current_incumbent_obj_val: u64,
    in_flight_nodes: usize,
    num_tests: usize,
}

impl IPSolver {
    /// The open nodes, best-first on pop.
    pub closed spec fn frontier(self) -> Seq<Node> {
        self.active_nodes@
    }

    /// The best known feasible integer solution so far, if any.
    pub closed spec fn incumbent(self) -> Option<Node> {
        self.current_incumbent
    }

    /// The incumbent's objective; the maximum stands for plus infinity while
    /// no incumbent exists.
    pub closed spec fn incumbent_obj(self) -> u64 {
        self.current_incumbent_obj_val
    }

    /// Responses still owed by dispatched orders: two per order.
    pub closed spec fn in_flight(self) -> int {
        self.in_flight_nodes as int
    }

    /// Number of tests of the problem instance.
    pub closed spec fn n(self) -> int {
        self.num_tests as int
    }

    /// Largest frontier size recorded so far.
    pub closed spec fn max_heap_size(self) -> int {
        self.solver_stats.max_heap_size as int
    }

    /// The incumbent and its cached objective agree, the incumbent is a well
    /// formed integral solution, and every open node is well formed.
    pub open spec fn wf(self) -> bool {
        &&& frontier_nodes_wf(self.frontier(), self.n())
        &&& match self.incumbent() {
            None => self.incumbent_obj() == u64::MAX,
            Some(nd) => {
                &&& nd.wf()
                &&& nd.fixed@.len() == self.n()
                &&& nd.objective_val == self.incumbent_obj()
                &&& nd.objective_val < u64::MAX
                &&& all_integral(nd.lp_assignments@)
            },
        }
    }

    /// A fresh coordinator: empty frontier, no incumbent (objective plus
    /// infinity), nothing in flight.
    pub fn new(num_tests: usize) -> (r: IPSolver)
        ensures
            r.wf(),
            r.n() == num_tests,
            r.frontier() == Seq::<Node>::empty(),
            r.incumbent() is None,
            r.incumbent_obj() == u64::MAX,
            r.in_flight() == 0,
            r.max_heap_size() == 0,
    {
        IPSolver {
            solver_stats: SolverStats::default(),
            active_nodes: crate::frontier::Frontier::new(),
            current_incumbent: None,
            current_incumbent_obj_val: u64::MAX,
            in_flight_nodes: 0,
            num_tests,
        }
    }

    /// The two root children to seed the frontier with, or None when the
    /// instance has no tests and the bare root's own LP outcome decides the
    /// search. The root has no LP solution yet, so every variable gets the
    /// artificial relaxation value one half; the branching rule then
    /// deterministically picks the lowest index, and the two children fix
    /// that test to present and to absent.
    pub fn root_children(&self) -> (r: Option<(Vec<FixedStatus>, Vec<FixedStatus>)>)
        ensures
            match r {
                None => self.n() == 0,
                Some(p) => {
                    &&& self.n() > 0
                    &&& p.0@.len() == self.n()
                    &&& p.1@.len() == self.n()
                    &&& p.0@[0] is Present
                    &&& p.1@[0] is Absent
                    &&& forall|k: int|
                        1 <= k < self.n() ==> (#[trigger] p.0@[k]) is Unassigned
                            && p.1@[k] is Unassigned
                },
            },
    {
        if self.num_tests == 0 {
            return None;
        }
        let mut initial_fixed: Vec<FixedStatus> = Vec::new();
        let mut initial_assignments: Vec<u64> = Vec::new();
        let mut i: usize = 0;
        while i < self.num_tests
            invariant
                i <= self.num_tests,
                initial_fixed@.len() == i,
                initial_assignments@.len() == i,
                forall|k: int| 0 <= k < i ==> (#[trigger] initial_fixed@[k]) is Unassigned,
                forall|k: int| 0 <= k < i ==> (#[trigger] initial_assignments@[k]) == SCALE / 2,
            decreases self.num_tests - i,
        {
            initial_fixed.push(FixedStatus::Unassigned);
            initial_assignments.push(SCALE / 2);
            i = i + 1;
        }
        let branch_var = get_branch_var(&initial_fixed, &initial_assignments);
        match branch_var {
            None => {
                // Unreachable: index 0 is unassigned, so the rule must pick.
                assert(initial_fixed@[0] is Unassigned);
                assert(has_unassigned(initial_fixed@));
                assert(false);
                None
            },
            Some(b) => {
                assert(b == 0) by {
                    if b != 0 {
                        assert(initial_fixed@[0] is Unassigned);
                        assert(initial_assignments@[0] == SCALE / 2);
                        assert(initial_assignments@[b as int] == SCALE / 2);
                        assert(branch_dist(initial_assignments@[b as int]) < branch_dist(
                            initial_assignments@[0],
                        ));
                    }
                }
                let mut fixed_true = initial_fixed.clone();
                fixed_true.set(b, FixedStatus::Present);
                let mut fixed_false = initial_fixed;
                fixed_false.set(b, FixedStatus::Absent);
                Some((fixed_true, fixed_false))
            },
        }
    }

    /// Coordinator-local treatment of one seeded child, given the LP outcome
    /// of its fixing: discard an infeasible child; prune a child whose bound
    /// already exceeds the incumbent; take a strictly better integral child
    /// as the new incumbent; put a surviving fractional child on the
    /// frontier. The incumbent objective never increases, and when the
    /// incumbent changes it strictly decreases.
    pub fn search(&mut self, fixed: Vec<FixedStatus>, outcome: LpOutcome)
        requires
            old(self).wf(),
            fixed@.len() == old(self).n(),
            outcome.wf(old(self).n()),
        ensures
            final(self).wf(),
            final(self).n() == old(self).n(),
            final(self).in_flight() == old(self).in_flight(),
            final(self).max_heap_size() == old(self).max_heap_size(),
            final(self).incumbent_obj() <= old(self).incumbent_obj(),
            final(self).incumbent() != old(self).incumbent() ==> final(self).incumbent_obj()
                < old(self).incumbent_obj(),
            match outcome {
                LpOutcome::Infeasible => {
                    &&& final(self).frontier() == old(self).frontier()
                    &&& final(self).incumbent() == old(self).incumbent()
                    &&& final(self).incumbent_obj() == old(self).incumbent_obj()
                },
                LpOutcome::Feasible { objective, values } => {
                    &&& objective > old(self).incumbent_obj() ==> {
                        &&& final(self).frontier() == old(self).frontier()
                        &&& final(self).incumbent() == old(self).incumbent()
                        &&& final(self).incumbent_obj() == old(self).incumbent_obj()
                    }
                    &&& objective <= old(self).incumbent_obj() && all_integral(values@) ==> {
                        &&& final(self).frontier() == old(self).frontier()
                        &&& objective < old(self).incumbent_obj() ==> final(self).incumbent()
                            == Some(
                            (Node {
                                objective_val: objective,
                                fixed: fixed,
                                lp_assignments: values,
                            }),
                        ) && final(self).incumbent_obj() == objective
                        &&& objective == old(self).incumbent_obj() ==> final(self).incumbent()
                            == old(self).incumbent() && final(self).incumbent_obj() == old(
                            self,
                        ).incumbent_obj()
                    }
                    &&& objective <= old(self).incumbent_obj() && !all_integral(values@) ==> {
                        &&& final(self).incumbent() == old(self).incumbent()
                        &&& final(self).incumbent_obj() == old(self).incumbent_obj()
                        &&& final(self).frontier() == old(self).frontier().push(
                            (Node {
                                objective_val: objective,
                                fixed: fixed,
                                lp_assignments: values,
                            }),
                        )
                    }
                },
            },
    {
        match outcome {
            LpOutcome::Infeasible => {},
            LpOutcome::Feasible { objective, values } => {
                if objective > self.current_incumbent_obj_val {
                    // Prune: the bound is already dominated.
                    return ;
                }
                let integral = crate::common::is_integral(&values);
                let this_node = Node::new(objective, fixed, values);
                if integral {
                    if this_node.objective_val < self.current_incumbent_obj_val {
                        self.current_incumbent_obj_val = this_node.objective_val;
                        self.current_incumbent = Some(this_node);
                    }
                } else {
                    self.active_nodes.push(this_node);
                }
            },
        }
    }

    /// Dispatch phase step: pop the best open node. If its bound is still
    /// below the incumbent it is handed out and two responses become owed.
    /// Otherwise the frontier is sorted by objective, so every remaining
    /// node is dominated as well and the whole frontier is dropped.
    pub fn dispatch(&mut self) -> (r: DispatchStep)
        requires
            old(self).wf(),
            old(self).in_flight() + 2 <= usize::MAX,
        ensures
            final(self).wf(),
            final(self).n() == old(self).n(),
            final(self).incumbent() == old(self).incumbent(),
            final(self).incumbent_obj() == old(self).incumbent_obj(),
            final(self).max_heap_size() == old(self).max_heap_size(),
            match r {
                DispatchStep::Empty => {
                    &&& old(self).frontier().len() == 0
                    &&& final(self).frontier() == old(self).frontier()
                    &&& final(self).in_flight() == old(self).in_flight()
                },
                DispatchStep::Dispatch(nd) => {
                    &&& old(self).frontier().contains(nd)
                    &&& nd.wf()
                    &&& nd.fixed@.len() == old(self).n()
                    &&& nd.objective_val < old(self).incumbent_obj()
                    &&& forall|k: int|
                        0 <= k < old(self).frontier().len() ==> nd.objective_val <= (#[trigger] old(
                            self,
                        ).frontier()[k]).objective_val
                    &&& old(self).frontier().to_multiset() == final(self)
                        .frontier().to_multiset().insert(nd)
                    &&& final(self).frontier().len() == old(self).frontier().len() - 1
                    &&& final(self).in_flight() == old(self).in_flight() + 2
                },
                DispatchStep::PrunedRemaining => {
                    &&& old(self).frontier().len() > 0
                    &&& forall|k: int|
                        0 <= k < old(self).frontier().len() ==> (#[trigger] old(
                            self,
                        ).frontier()[k]).objective_val >= old(self).incumbent_obj()
                    &&& final(self).frontier().len() == 0
                    &&& final(self).in_flight() == old(self).in_flight()
                },
            },
    {
        let popped = self.active_nodes.pop();
        match popped {
            None => DispatchStep::Empty,
            Some(best_node) => {
                proof {
                    assert(old(self).frontier().contains(best_node));
                    let j = choose|j: int|
                        0 <= j < old(self).frontier().len() && old(self).frontier()[j]
                            == best_node;
                    assert(old(self).frontier()[j].wf());
                }
                if best_node.objective_val < self.current_incumbent_obj_val {
                    self.in_flight_nodes = self.in_flight_nodes + 2;
                    proof {
                        broadcast use vstd::seq_lib::group_to_multiset_ensures;

                        assert forall|k: int|
                            0 <= k < self.frontier().len() implies (
                        #[trigger] self.frontier()[k]).wf() && self.frontier()[k].fixed@.len()
                            == self.n() by {
                            let x = self.frontier()[k];
                            assert(self.frontier().contains(x));
                            assert(self.frontier().to_multiset().count(x) > 0);
                            assert(old(self).frontier().to_multiset() == self
                                .frontier()
                                .to_multiset()
                                .insert(best_node));
                            assert(old(self).frontier().to_multiset().count(x) > 0);
                            assert(old(self).frontier().contains(x));
                            let j = choose|j: int|
                                0 <= j < old(self).frontier().len() && old(self).frontier()[j]
                                    == x;
                            assert(old(self).frontier()[j].wf());
                        }
                    }
                    DispatchStep::Dispatch(best_node)
                } else {
                    self.active_nodes.clear();
                    DispatchStep::PrunedRemaining
                }
            },
        }
    }

    /// Integrate phase step: account one received response and fold it in.
    /// An infeasible child is discarded; a strictly better integral solution
    /// replaces the incumbent; a fractional child re-enters the frontier
    /// only if its bound still beats the incumbent, and is pruned otherwise.
    /// The incumbent objective never increases, and when the incumbent
    /// changes it strictly decreases.
    pub fn integrate(&mut self, response: WorkResponse)
        requires
            old(self).wf(),
            old(self).in_flight() > 0,
            response_wf(response, old(self).n()),
        ensures
            final(self).wf(),
            final(self).n() == old(self).n(),
            final(self).in_flight() == old(self).in_flight() - 1,
            final(self).max_heap_size() == old(self).max_heap_size(),
            final(self).incumbent_obj() <= old(self).incumbent_obj(),
            final(self).incumbent() != old(self).incumbent() ==> final(self).incumbent_obj()
                < old(self).incumbent_obj(),
            match response {
                WorkResponse::Infeasible => {
                    &&& final(self).frontier() == old(self).frontier()
                    &&& final(self).incumbent() == old(self).incumbent()
                    &&& final(self).incumbent_obj() == old(self).incumbent_obj()
                },
                WorkResponse::IntegralSolution(s) => {
                    &&& final(self).frontier() == old(self).frontier()
                    &&& s.objective_val < old(self).incumbent_obj() ==> final(self).incumbent()
                        == Some(s) && final(self).incumbent_obj() == s.objective_val
                    &&& s.objective_val >= old(self).incumbent_obj() ==> final(self).incumbent()
                        == old(self).incumbent() && final(self).incumbent_obj() == old(
                        self,
                    ).incumbent_obj()
                },
                WorkResponse::NewActiveNode(nd) => {
                    &&& final(self).incumbent() == old(self).incumbent()
                    &&& final(self).incumbent_obj() == old(self).incumbent_obj()
                    &&& nd.objective_val < old(self).incumbent_obj() ==> final(self).frontier()
                        == old(self).frontier().push(nd)
                    &&& nd.objective_val >= old(self).incumbent_obj() ==> final(self).frontier()
                        == old(self).frontier()
                },
            },
    {
        self.in_flight_nodes = self.in_flight_nodes - 1;
        match response {
            WorkResponse::Infeasible => {},
            WorkResponse::IntegralSolution(sol) => {
                if sol.objective_val < self.current_incumbent_obj_val {
                    self.current_incumbent_obj_val = sol.objective_val;
                    self.current_incumbent = Some(sol);
                }
            },
            WorkResponse::NewActiveNode(node) => {
                if node.objective_val < self.current_incumbent_obj_val {
                    self.active_nodes.push(node);
                }
            },
        }
    }

    /// Record the current frontier size into the running maximum.
    pub fn record_heap_size(&mut self)
        ensures
            final(self).wf() == old(self).wf(),
            final(self).n() == old(self).n(),
            final(self).frontier() == old(self).frontier(),
            final(self).incumbent() == old(self).incumbent(),
            final(self).incumbent_obj() == old(self).incumbent_obj(),
            final(self).in_flight() == old(self).in_flight(),
            final(self).max_heap_size() == if old(self).frontier().len() > old(
                self,
            ).max_heap_size() {
                old(self).frontier().len() as int
            } else {
                old(self).max_heap_size()
            },
    {
        let len = self.active_nodes.len();
        if len > self.solver_stats.max_heap_size {
            self.solver_stats.max_heap_size = len;
        }
    }

    /// The search is over exactly when no response is owed and no node is
    /// open.
    pub fn is_finished(&self) -> (r: bool)
        ensures
            r == (self.in_flight() == 0 && self.frontier().len() == 0),
    {
        self.in_flight_nodes == 0 && self.active_nodes.is_empty()
    }

    /// Number of responses still owed.
    pub fn in_flight_count(&self) -> (r: usize)
        ensures
            r == self.in_flight(),
    {
        self.in_flight_nodes
    }

    /// The recorded statistics.
    pub fn stats(&self) -> (r: SolverStats)
        ensures
            r.max_heap_size == self.max_heap_size(),
    {
        self.solver_stats
    }

    /// What the search found: the incumbent's objective and solution
    /// vector, or None when no feasible integer solution was ever found.
    pub fn into_result(self) -> (r: Option<(u64, Vec<u64>)>)
        requires
            self.wf(),
        ensures
            match r {
                None => self.incumbent() is None,
                Some(p) => {
                    &&& self.incumbent() matches Some(nd) && p.0 == nd.objective_val && p.1@
                        == nd.lp_assignments@
                    &&& p.0 == self.incumbent_obj()
                    &&& p.0 < u64::MAX
                    &&& all_integral(p.1@)
                },
            },
            r is Some <==> self.incumbent() is Some,
    {
        match self.current_incumbent {
            None => None,
            Some(nd) => Some((self.current_incumbent_obj_val, nd.lp_assignments)),
        }
    }
}

} // verus!
