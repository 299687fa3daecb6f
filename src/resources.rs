//! The resource manager: a replicated state machine of compute nodes, the
//! occupations (resource reservations) placed on them, and tasks. It keeps,
//! on every node, free counters equal to the totals less what running
//! occupations hold.
use vstd::prelude::*;

verus! {

#[derive(Clone, Copy, PartialEq, Eq, Structural, Debug)]
pub enum OccupationStatus {
    Running,
    Released,
    /// The initial status.
    Scheduled,
}

#[derive(Clone, Copy, PartialEq, Eq, Structural, Debug)]
pub enum TaskStatus {
    Succeed,
    Failed,
    Canceled,
}

#[derive(Clone, Copy, PartialEq, Eq, Structural, Debug)]
pub enum RegisterNodeError {
    NodeAlreadyExisted,
}

#[derive(Clone, Copy, PartialEq, Eq, Structural, Debug)]
pub enum RegisterTaskError {
    NodeIdNotFound(u64),
    OccupationStatusNotScheduled,
    /// The stage already runs on that node, or the request names it twice.
    /// Placing it would replace a running occupation whose workers and
    /// memory are still counted as taken, and the node's free counters would
    /// no longer equal its totals less what its running occupations hold.
    StageOccupied(u64),
}

#[derive(Clone, Copy, PartialEq, Eq, Structural, Debug)]
pub enum ChangeOccupationStatusError {
    CannotFindOccupation,
    OccupationTaskNotMatch,
}

#[derive(Clone, Copy, PartialEq, Eq, Structural, Debug)]
pub enum TaskEndedError {
    TaskNotFound(u64),
}

/// A reservation of workers and memory on one node for one stage of a task.
#[derive(Clone, Copy, PartialEq, Eq, Structural, Debug)]
pub struct Occupation {
    pub task_id: u64,
    pub stage_id: u64,
    pub workers: u32,
    pub memory: u64,
    pub node_id: u64,
    pub status: OccupationStatus,
    pub last_updated: u64,
}

impl Occupation {
    /// A scheduled occupation.
    pub fn new(task_id: u64, stage_id: u64, node_id: u64, workers: u32, memory: u64) -> (r: Occupation)
        ensures
            r == (Occupation { task_id, stage_id, workers, memory, node_id, status: OccupationStatus::Scheduled, last_updated: 0 }),
    {
        Occupation { task_id, stage_id, workers, memory, node_id, status: OccupationStatus::Scheduled, last_updated: 0 }
    }
}

/// A compute node: its address, totals, free counters, online flag and
/// occupations.
pub struct ComputeNode {
    address: String,
    memory: u64,
    memory_remains: u64,
    processors: u32,
    processors_remains: u32,
    node_id: u64,
    online: bool,
    occupations: Vec<Occupation>,
}

/// What a compute node holds.
pub struct NodeView {
    pub address: Seq<char>,
    pub memory: u64,
    pub memory_remains: u64,
    pub processors: u32,
    pub processors_remains: u32,
    pub node_id: u64,
    pub online: bool,
    /// In order of first placement; one per stage.
    pub occupations: Seq<Occupation>,
}

impl View for ComputeNode {
    type V = NodeView;

    closed spec fn view(&self) -> NodeView {
        NodeView {
            address: self.address@,
            memory: self.memory,
            memory_remains: self.memory_remains,
            processors: self.processors,
            processors_remains: self.processors_remains,
            node_id: self.node_id,
            online: self.online,
            occupations: self.occupations@,
        }
    }
}

/// Workers that `o` holds.
pub open spec fn held_workers(o: Occupation) -> nat {
    if o.status == OccupationStatus::Running {
        o.workers as nat
    } else {
        0
    }
}

/// Memory that `o` holds.
pub open spec fn held_memory(o: Occupation) -> nat {
    if o.status == OccupationStatus::Running {
        o.memory as nat
    } else {
        0
    }
}

/// Workers held by the running occupations of `s`.
pub open spec fn running_workers(s: Seq<Occupation>) -> nat
    decreases s.len(),
{
    if s.len() == 0 {
        0
    } else {
        running_workers(s.drop_last()) + held_workers(s.last())
    }
}

/// Memory held by the running occupations of `s`.
pub open spec fn running_memory(s: Seq<Occupation>) -> nat
    decreases s.len(),
{
    if s.len() == 0 {
        0
    } else {
        running_memory(s.drop_last()) + held_memory(s.last())
    }
}

/// Where stage `stage` stands in `s`.
pub open spec fn stage_pos(s: Seq<Occupation>, stage: u64) -> Option<int>
    decreases s.len(),
{
    if s.len() == 0 {
        None
    } else if s.last().stage_id == stage {
        Some(s.len() - 1)
    } else {
        stage_pos(s.drop_last(), stage)
    }
}

/// Where node `id` stands in `s`.
pub open spec fn node_pos(s: Seq<NodeView>, id: u64) -> Option<int>
    decreases s.len(),
{
    if s.len() == 0 {
        None
    } else if s.last().node_id == id {
        Some(s.len() - 1)
    } else {
        node_pos(s.drop_last(), id)
    }
}

/// Resource conservation on one node: free counters plus what running
/// occupations hold equal the totals; stages are distinct.
pub open spec fn node_wf(n: NodeView) -> bool {
    &&& n.processors_remains + running_workers(n.occupations) == n.processors
    &&& n.memory_remains + running_memory(n.occupations) == n.memory
    &&& forall|i: int, j: int| 0 <= i < j < n.occupations.len() ==> (#[trigger] n.occupations[i]).stage_id != (#[trigger] n.occupations[j]).stage_id
}

/// Whether stage `stage` runs on `n`.
pub open spec fn stage_running(n: NodeView, stage: u64) -> bool {
    match stage_pos(n.occupations, stage) {
        Some(j) => n.occupations[j].status == OccupationStatus::Running,
        None => false,
    }
}

/// Whether `n` has room for `o` now.
pub open spec fn can_afford(n: NodeView, o: Occupation) -> bool {
    n.memory_remains >= o.memory && n.processors_remains >= o.workers
}

pub open spec fn with_status(o: Occupation, s: OccupationStatus) -> Occupation {
    Occupation { status: s, ..o }
}

/// `n` once `o` at position `j` of its occupations starts running.
pub open spec fn acquired(n: NodeView, j: int) -> NodeView {
    let o = n.occupations[j];
    NodeView {
        memory_remains: (n.memory_remains - o.memory) as u64,
        processors_remains: (n.processors_remains - o.workers) as u32,
        occupations: n.occupations.update(j, with_status(o, OccupationStatus::Running)),
        ..n
    }
}

/// `n` once running `o` at position `j` of its occupations is released.
pub open spec fn released(n: NodeView, j: int) -> NodeView {
    let o = n.occupations[j];
    NodeView {
        memory_remains: (n.memory_remains + o.memory) as u64,
        processors_remains: (n.processors_remains + o.workers) as u32,
        occupations: n.occupations.update(j, with_status(o, OccupationStatus::Released)),
        ..n
    }
}

/// `n` once `o` is placed on it: promoted to running if it fits now, and
/// put in the place of the occupation of its stage, or after the others.
pub open spec fn placed(n: NodeView, o: Occupation) -> NodeView {
    let o2 = if can_afford(n, o) {
        with_status(o, OccupationStatus::Running)
    } else {
        o
    };
    NodeView {
        memory_remains: if can_afford(n, o) {
            (n.memory_remains - o.memory) as u64
        } else {
            n.memory_remains
        },
        processors_remains: if can_afford(n, o) {
            (n.processors_remains - o.workers) as u32
        } else {
            n.processors_remains
        },
        occupations: match stage_pos(n.occupations, o.stage_id) {
            Some(j) => n.occupations.update(j, o2),
            None => n.occupations.push(o2),
        },
        ..n
    }
}

/// The nodes after placing `occs` in order, and the occupations promoted to
/// running, in order.
pub open spec fn place_all(nodes: Seq<NodeView>, occs: Seq<Occupation>) -> (Seq<NodeView>, Seq<Occupation>)
    decreases occs.len(),
{
    if occs.len() == 0 {
        (nodes, Seq::empty())
    } else {
        let prev = place_all(nodes, occs.drop_last());
        let o = occs.last();
        match node_pos(prev.0, o.node_id) {
            Some(i) => {
                let n = prev.0[i];
                if stage_running(n, o.stage_id) {
                    prev
                } else {
                    (prev.0.update(i, placed(n, o)), if can_afford(n, o) {
                        prev.1.push(with_status(o, OccupationStatus::Running))
                    } else {
                        prev.1
                    })
                }
            },
            None => prev,
        }
    }
}

/// Why occupation `i` of a request cannot be placed on `nodes`, if it cannot.
pub open spec fn occupation_error(nodes: Seq<NodeView>, occs: Seq<Occupation>, i: int) -> Option<RegisterTaskError> {
    let o = occs[i];
    if o.status != OccupationStatus::Scheduled {
        Some(RegisterTaskError::OccupationStatusNotScheduled)
    } else if node_pos(nodes, o.node_id) is None {
        Some(RegisterTaskError::NodeIdNotFound(o.node_id))
    } else if stage_running(nodes[node_pos(nodes, o.node_id)->Some_0], o.stage_id) || (exists|j: int| 0 <= j < i && (#[trigger] occs[j]).node_id == o.node_id && occs[j].stage_id == o.stage_id) {
        Some(RegisterTaskError::StageOccupied(o.stage_id))
    } else {
        None
    }
}

/// The error of the first occupation of `occs` from `from` on that cannot be placed.
pub open spec fn first_error(nodes: Seq<NodeView>, occs: Seq<Occupation>, from: int) -> Option<RegisterTaskError>
    decreases occs.len() - from,
{
    if from < 0 || from >= occs.len() {
        None
    } else if occupation_error(nodes, occs, from) is Some {
        occupation_error(nodes, occs, from)
    } else {
        first_error(nodes, occs, from + 1)
    }
}

/// Node ids are distinct and every node conserves its resources.
pub open spec fn nodes_wf(s: Seq<NodeView>) -> bool {
    &&& forall|i: int| 0 <= i < s.len() ==> node_wf(#[trigger] s[i])
    &&& forall|i: int, j: int| 0 <= i < j < s.len() ==> (#[trigger] s[i]).node_id != (#[trigger] s[j]).node_id
}

pub proof fn lemma_running_update(s: Seq<Occupation>, j: int, o: Occupation)
    requires
        0 <= j < s.len(),
    ensures
        running_workers(s.update(j, o)) + held_workers(s[j]) == running_workers(s) + held_workers(o),
        running_memory(s.update(j, o)) + held_memory(s[j]) == running_memory(s) + held_memory(o),
    decreases s.len(),
{
    let t = s.update(j, o);
    assert(t.drop_last() =~= if j == s.len() - 1 { s.drop_last() } else { s.drop_last().update(j, o) });
    if j < s.len() - 1 {
        lemma_running_update(s.drop_last(), j, o);
    }
}

pub proof fn lemma_running_push(s: Seq<Occupation>, o: Occupation)
    ensures
        running_workers(s.push(o)) == running_workers(s) + held_workers(o),
        running_memory(s.push(o)) == running_memory(s) + held_memory(o),
{
    assert(s.push(o).drop_last() =~= s);
}

pub proof fn lemma_stage_pos(s: Seq<Occupation>, stage: u64)
    ensures
        match stage_pos(s, stage) {
            Some(j) => 0 <= j < s.len() && s[j].stage_id == stage,
            None => forall|j: int| 0 <= j < s.len() ==> (#[trigger] s[j]).stage_id != stage,
        },
    decreases s.len(),
{
    if s.len() > 0 {
        lemma_stage_pos(s.drop_last(), stage);
        if s.last().stage_id != stage {
            assert forall|j: int| 0 <= j < s.len() - 1 implies #[trigger] s[j] == s.drop_last()[j] by {}
        }
    }
}

pub proof fn lemma_node_pos(s: Seq<NodeView>, id: u64)
    ensures
        match node_pos(s, id) {
            Some(i) => 0 <= i < s.len() && s[i].node_id == id,
            None => forall|i: int| 0 <= i < s.len() ==> (#[trigger] s[i]).node_id != id,
        },
    decreases s.len(),
{
    if s.len() > 0 {
        lemma_node_pos(s.drop_last(), id);
        if s.last().node_id != id {
            assert forall|j: int| 0 <= j < s.len() - 1 implies #[trigger] s[j] == s.drop_last()[j] by {}
        }
    }
}

/// Placing an occupation keeps a node conserving its resources, unless it
/// replaces a running occupation of its stage.
pub proof fn lemma_placed_wf(n: NodeView, o: Occupation)
    requires
        node_wf(n),
        o.status == OccupationStatus::Scheduled,
        match stage_pos(n.occupations, o.stage_id) {
            Some(j) => n.occupations[j].status != OccupationStatus::Running,
            None => true,
        },
    ensures
        node_wf(placed(n, o)),
{
    let o2 = if can_afford(n, o) {
        with_status(o, OccupationStatus::Running)
    } else {
        o
    };
    let p = placed(n, o);
    lemma_stage_pos(n.occupations, o.stage_id);
    match stage_pos(n.occupations, o.stage_id) {
        Some(j) => {
            lemma_running_update(n.occupations, j, o2);
            assert forall|a: int, b: int| 0 <= a < b < p.occupations.len() implies (#[trigger] p.occupations[a]).stage_id
                != (#[trigger] p.occupations[b]).stage_id by {
                if a != j && b != j {
                    assert(n.occupations[a].stage_id != n.occupations[b].stage_id);
                } else if a == j {
                    assert(n.occupations[j].stage_id != n.occupations[b].stage_id);
                } else {
                    assert(n.occupations[a].stage_id != n.occupations[j].stage_id);
                }
            }
        },
        None => {
            lemma_running_push(n.occupations, o2);
            assert forall|a: int, b: int| 0 <= a < b < p.occupations.len() implies (#[trigger] p.occupations[a]).stage_id
                != (#[trigger] p.occupations[b]).stage_id by {
                if b < n.occupations.len() {
                    assert(n.occupations[a].stage_id != n.occupations[b].stage_id);
                } else {
                    assert(n.occupations[a].stage_id != o.stage_id);
                }
            }
        },
    }
}

/// Starting a scheduled occupation that fits keeps the node conserving its resources.
pub proof fn lemma_acquired_wf(n: NodeView, j: int)
    requires
        node_wf(n),
        0 <= j < n.occupations.len(),
        n.occupations[j].status == OccupationStatus::Scheduled,
        can_afford(n, n.occupations[j]),
    ensures
        node_wf(acquired(n, j)),
{
    let o = n.occupations[j];
    lemma_running_update(n.occupations, j, with_status(o, OccupationStatus::Running));
    let p = acquired(n, j);
    assert forall|a: int, b: int| 0 <= a < b < p.occupations.len() implies (#[trigger] p.occupations[a]).stage_id
        != (#[trigger] p.occupations[b]).stage_id by {
        assert(n.occupations[a].stage_id != n.occupations[b].stage_id);
    }
}

/// Releasing a running occupation keeps the node conserving its resources.
pub proof fn lemma_released_wf(n: NodeView, j: int)
    requires
        node_wf(n),
        0 <= j < n.occupations.len(),
        n.occupations[j].status == OccupationStatus::Running,
    ensures
        node_wf(released(n, j)),
{
    let o = n.occupations[j];
    lemma_running_update(n.occupations, j, with_status(o, OccupationStatus::Released));
    let p = released(n, j);
    assert forall|a: int, b: int| 0 <= a < b < p.occupations.len() implies (#[trigger] p.occupations[a]).stage_id
        != (#[trigger] p.occupations[b]).stage_id by {
        assert(n.occupations[a].stage_id != n.occupations[b].stage_id);
    }
}

/// Whether a change of `o` is announced to those waiting for resources too
/// (every change is announced to occupation watchers).
pub fn notifies_resource_available(o: &Occupation) -> (r: bool)
    ensures
        r == (o.status == OccupationStatus::Released),
{
    o.status == OccupationStatus::Released
}

/// Whether a node may promote `o` now.
pub fn can_afford_occupation(node_mem: u64, occ_mem: u64, node_proc: u32, occ_proc: u32) -> (r: bool)
    ensures
        r == (node_mem >= occ_mem && node_proc >= occ_proc),
{
    node_mem >= occ_mem && node_proc >= occ_proc
}

impl ComputeNode {
    /// An online node with all of its memory and processors free.
    pub fn new(address: &str, node_id: u64, memory: u64, processors: u32) -> (r: ComputeNode)
        ensures
            r@.address == address@,
            r@.node_id == node_id,
            r@.memory == memory,
            r@.memory_remains == memory,
            r@.processors == processors,
            r@.processors_remains == processors,
            r@.online,
            r@.occupations == Seq::<Occupation>::empty(),
            node_wf(r@),
    {
        ComputeNode {
            address: address.to_owned(),
            memory,
            memory_remains: memory,
            processors,
            processors_remains: processors,
            node_id,
            online: true,
            occupations: Vec::new(),
        }
    }

    pub fn node_id(&self) -> (r: u64)
        ensures
            r == self@.node_id,
    {
        self.node_id
    }

    pub fn address(&self) -> (r: &String)
        ensures
            r@ == self@.address,
    {
        &self.address
    }

    pub fn memory(&self) -> (r: u64)
        ensures
            r == self@.memory,
    {
        self.memory
    }

    pub fn memory_remains(&self) -> (r: u64)
        ensures
            r == self@.memory_remains,
    {
        self.memory_remains
    }

    pub fn processors(&self) -> (r: u32)
        ensures
            r == self@.processors,
    {
        self.processors
    }

    pub fn processors_remains(&self) -> (r: u32)
        ensures
            r == self@.processors_remains,
    {
        self.processors_remains
    }

    pub fn online(&self) -> (r: bool)
        ensures
            r == self@.online,
    {
        self.online
    }

    /// The occupations placed on this node, in order of first placement.
    pub fn occupations(&self) -> (r: &Vec<Occupation>)
        ensures
            r@ == self@.occupations,
    {
        &self.occupations
    }

    /// Where stage `stage` stands among the occupations.
    fn find_stage(&self, stage: u64) -> (r: Option<usize>)
        ensures
            r is Some <==> stage_pos(self@.occupations, stage) is Some,
            r is Some ==> r->Some_0 as int == stage_pos(self@.occupations, stage)->Some_0
                && r->Some_0 < self@.occupations.len(),
    {
        let mut i: usize = self.occupations.len();
        proof {
            assert(self@.occupations.take(i as int) =~= self@.occupations);
        }
        while i > 0
            invariant
                i <= self@.occupations.len(),
                stage_pos(self@.occupations, stage) == stage_pos(self@.occupations.take(i as int), stage),
            decreases i,
        {
            let ghost t = self@.occupations.take(i as int);
            if self.occupations[i - 1].stage_id == stage {
                return Some(i - 1);
            }
            proof {
                assert(t.drop_last() =~= self@.occupations.take(i - 1));
            }
            i = i - 1;
        }
        None
    }

    /// The occupation of stage `stage`, if any.
    pub fn occupation(&self, stage: u64) -> (r: Option<Occupation>)
        ensures
            match stage_pos(self@.occupations, stage) {
                Some(j) => r == Some(self@.occupations[j]),
                None => r is None,
            },
    {
        proof {
            lemma_stage_pos(self@.occupations, stage);
        }
        match self.find_stage(stage) {
            Some(j) => Some(self.occupations[j]),
            None => None,
        }
    }
}

impl ComputeNode {
    /// Places `o` on this node; returns whether it was promoted to running.
    fn place(&mut self, o: Occupation) -> (r: bool)
        requires
            node_wf(old(self)@),
            o.status == OccupationStatus::Scheduled,
            !stage_running(old(self)@, o.stage_id),
        ensures
            final(self)@ == placed(old(self)@, o),
            r == can_afford(old(self)@, o),
            node_wf(final(self)@),
    {
        proof {
            lemma_placed_wf(self@, o);
        }
        let fits = can_afford_occupation(self.memory_remains, o.memory, self.processors_remains, o.workers);
        let o2 = if fits {
            Occupation { status: OccupationStatus::Running, ..o }
        } else {
            o
        };
        if fits {
            self.memory_remains = self.memory_remains - o.memory;
            self.processors_remains = self.processors_remains - o.workers;
        }
        match self.find_stage(o.stage_id) {
            Some(j) => {
                self.occupations.set(j, o2);
            },
            None => {
                self.occupations.push(o2);
            },
        }
        proof {
            assert(self@ == placed(old(self)@, o));
        }
        fits
    }

    /// Starts the scheduled occupation at position `j`.
    fn acquire(&mut self, j: usize)
        requires
            node_wf(old(self)@),
            j < old(self)@.occupations.len(),
            old(self)@.occupations[j as int].status == OccupationStatus::Scheduled,
            can_afford(old(self)@, old(self)@.occupations[j as int]),
        ensures
            final(self)@ == acquired(old(self)@, j as int),
            node_wf(final(self)@),
    {
        proof {
            lemma_acquired_wf(self@, j as int);
        }
        let o = self.occupations[j];
        self.memory_remains = self.memory_remains - o.memory;
        self.processors_remains = self.processors_remains - o.workers;
        self.occupations.set(j, Occupation { status: OccupationStatus::Running, ..o });
        proof {
            assert(self@ == acquired(old(self)@, j as int));
        }
    }

    /// Releases the running occupation at position `j`.
    fn release(&mut self, j: usize)
        requires
            node_wf(old(self)@),
            j < old(self)@.occupations.len(),
            old(self)@.occupations[j as int].status == OccupationStatus::Running,
        ensures
            final(self)@ == released(old(self)@, j as int),
            node_wf(final(self)@),
    {
        proof {
            lemma_released_wf(self@, j as int);
            lemma_running_update(self@.occupations, j as int, with_status(self@.occupations[j as int], OccupationStatus::Released));
        }
        let o = self.occupations[j];
        self.memory_remains = self.memory_remains + o.memory;
        self.processors_remains = self.processors_remains + o.workers;
        self.occupations.set(j, Occupation { status: OccupationStatus::Released, ..o });
        proof {
            assert(self@ == released(old(self)@, j as int));
        }
    }

    fn set_online(&mut self, online: bool)
        ensures
            final(self)@ == (NodeView { online, ..old(self)@ }),
    {
        self.online = online;
    }
}

/// A task record.
pub struct Task {
    id: u64,
    name: String,
    status: Option<TaskStatus>,
    stages: Vec<u64>,
    nodes: Vec<u64>,
}

/// What a task record holds.
pub struct TaskView {
    pub id: u64,
    pub name: Seq<char>,
    /// `None` until the task ends.
    pub status: Option<TaskStatus>,
    pub stages: Seq<u64>,
    /// The nodes of its occupations, runs of one node counted once.
    pub nodes: Seq<u64>,
}

impl View for Task {
    type V = TaskView;

    closed spec fn view(&self) -> TaskView {
        TaskView { id: self.id, name: self.name@, status: self.status, stages: self.stages@, nodes: self.nodes@ }
    }
}

/// `s` with each run of equal neighbours kept once.
pub open spec fn dedup_runs(s: Seq<u64>) -> Seq<u64>
    decreases s.len(),
{
    if s.len() <= 1 {
        s
    } else if s.last() == s[s.len() - 2] {
        dedup_runs(s.drop_last())
    } else {
        dedup_runs(s.drop_last()).push(s.last())
    }
}

pub proof fn lemma_dedup_last(s: Seq<u64>)
    requires
        s.len() > 0,
    ensures
        dedup_runs(s).len() > 0,
        dedup_runs(s).last() == s.last(),
    decreases s.len(),
{
    if s.len() > 1 && s.last() == s[s.len() - 2] {
        lemma_dedup_last(s.drop_last());
    }
}

impl Task {
    /// A running task with the given stages and no nodes yet.
    pub fn new(id: u64, name: &str, stages: Vec<u64>) -> (r: Task)
        ensures
            r@.id == id,
            r@.name == name@,
            r@.status is None,
            r@.stages == stages@,
            r@.nodes == Seq::<u64>::empty(),
    {
        Task { id, name: name.to_owned(), status: None, stages, nodes: Vec::new() }
    }

    pub fn id(&self) -> (r: u64)
        ensures
            r == self@.id,
    {
        self.id
    }

    pub fn status(&self) -> (r: Option<TaskStatus>)
        ensures
            r == self@.status,
    {
        self.status
    }

    pub fn nodes(&self) -> (r: &Vec<u64>)
        ensures
            r@ == self@.nodes,
    {
        &self.nodes
    }
}

/// The node ids of `occs`, in order.
pub open spec fn occupation_nodes(occs: Seq<Occupation>) -> Seq<u64> {
    occs.map_values(|o: Occupation| o.node_id)
}

/// What `try_acquire_node_resource` answers and the nodes it leaves.
pub open spec fn acquire_outcome(nodes: Seq<NodeView>, task_id: u64, stage_id: u64, node_id: u64) -> (Result<bool, ChangeOccupationStatusError>, Seq<NodeView>) {
    match node_pos(nodes, node_id) {
        None => (Err(ChangeOccupationStatusError::CannotFindOccupation), nodes),
        Some(i) => {
            let n = nodes[i];
            match stage_pos(n.occupations, stage_id) {
                None => (Err(ChangeOccupationStatusError::CannotFindOccupation), nodes),
                Some(j) => {
                    let o = n.occupations[j];
                    if o.task_id != task_id {
                        (Err(ChangeOccupationStatusError::OccupationTaskNotMatch), nodes)
                    } else if o.status == OccupationStatus::Scheduled && can_afford(n, o) {
                        (Ok(true), nodes.update(i, acquired(n, j)))
                    } else {
                        (Ok(false), nodes)
                    }
                },
            }
        },
    }
}

/// What `release_occupation` answers and the nodes it leaves.
pub open spec fn release_outcome(nodes: Seq<NodeView>, task_id: u64, stage_id: u64, node_id: u64) -> (Result<bool, ChangeOccupationStatusError>, Seq<NodeView>) {
    match node_pos(nodes, node_id) {
        None => (Err(ChangeOccupationStatusError::CannotFindOccupation), nodes),
        Some(i) => {
            let n = nodes[i];
            match stage_pos(n.occupations, stage_id) {
                None => (Err(ChangeOccupationStatusError::CannotFindOccupation), nodes),
                Some(j) => {
                    let o = n.occupations[j];
                    if o.task_id != task_id {
                        (Err(ChangeOccupationStatusError::OccupationTaskNotMatch), nodes)
                    } else if o.status == OccupationStatus::Running {
                        (Ok(true), nodes.update(i, released(n, j)))
                    } else {
                        (Ok(false), nodes)
                    }
                },
            }
        },
    }
}

/// What `register_task` answers (the occupations promoted to running) and
/// the nodes it leaves.
pub open spec fn register_outcome(nodes: Seq<NodeView>, occs: Seq<Occupation>) -> (Result<Seq<Occupation>, RegisterTaskError>, Seq<NodeView>) {
    match first_error(nodes, occs, 0) {
        Some(e) => (Err(e), nodes),
        None => (Ok(place_all(nodes, occs).1), place_all(nodes, occs).0),
    }
}

/// The resource manager's state: nodes in order of registration and tasks.
pub struct ResourceManager {
    compute_nodes: Vec<ComputeNode>,
    tasks: Vec<Task>,
}

impl ResourceManager {
    pub closed spec fn nodes(&self) -> Seq<NodeView> {
        self.compute_nodes@.map_values(|n: ComputeNode| n@)
    }

    pub closed spec fn task_views(&self) -> Seq<TaskView> {
        self.tasks@.map_values(|t: Task| t@)
    }

    /// Nodes have distinct ids and conserve their resources.
    pub open spec fn wf(&self) -> bool {
        nodes_wf(self.nodes())
    }

    pub fn new() -> (r: ResourceManager)
        ensures
            r.wf(),
            r.nodes() == Seq::<NodeView>::empty(),
            r.task_views() == Seq::<TaskView>::empty(),
    {
        let r = ResourceManager { compute_nodes: Vec::new(), tasks: Vec::new() };
        assert(r.nodes() =~= Seq::<NodeView>::empty());
        assert(r.task_views() =~= Seq::<TaskView>::empty());
        r
    }

    fn find_node(&self, id: u64) -> (r: Option<usize>)
        ensures
            r is Some <==> node_pos(self.nodes(), id) is Some,
            r is Some ==> r->Some_0 as int == node_pos(self.nodes(), id)->Some_0 && r->Some_0 < self.nodes().len(),
    {
        let mut i: usize = self.compute_nodes.len();
        proof {
            assert(self.nodes().take(i as int) =~= self.nodes());
        }
        while i > 0
            invariant
                i <= self.nodes().len(),
                self.nodes().len() == self.compute_nodes@.len(),
                node_pos(self.nodes(), id) == node_pos(self.nodes().take(i as int), id),
            decreases i,
        {
            let ghost t = self.nodes().take(i as int);
            if self.compute_nodes[i - 1].node_id() == id {
                return Some(i - 1);
            }
            proof {
                assert(t.drop_last() =~= self.nodes().take(i - 1));
            }
            i = i - 1;
        }
        None
    }

    /// The node with id `id`, if registered.
    pub fn node(&self, id: u64) -> (r: Option<&ComputeNode>)
        ensures
            match node_pos(self.nodes(), id) {
                Some(i) => r is Some && r->Some_0@ == self.nodes()[i],
                None => r is None,
            },
    {
        match self.find_node(id) {
            Some(i) => Some(&self.compute_nodes[i]),
            None => None,
        }
    }

    /// All nodes, in order of registration.
    pub fn compute_nodes(&self) -> (r: &Vec<ComputeNode>)
        ensures
            r@.map_values(|n: ComputeNode| n@) == self.nodes(),
    {
        &self.compute_nodes
    }

    /// All tasks, in order of first registration.
    pub fn tasks(&self) -> (r: &Vec<Task>)
        ensures
            r@.map_values(|t: Task| t@) == self.task_views(),
    {
        &self.tasks
    }

    /// Adds `node`; fails if a node with its id exists.
    pub fn register_node(&mut self, node: ComputeNode) -> (r: Result<(), RegisterNodeError>)
        requires
            old(self).wf(),
            node_wf(node@),
        ensures
            final(self).wf(),
            final(self).task_views() == old(self).task_views(),
            node_pos(old(self).nodes(), node@.node_id) is Some ==> r == Err::<(), RegisterNodeError>(RegisterNodeError::NodeAlreadyExisted)
                && final(self).nodes() == old(self).nodes(),
            node_pos(old(self).nodes(), node@.node_id) is None ==> r is Ok && final(self).nodes() == old(self).nodes().push(node@),
    {
        if self.find_node(node.node_id()).is_some() {
            return Err(RegisterNodeError::NodeAlreadyExisted);
        }
        let ghost nv = node@;
        self.compute_nodes.push(node);
        proof {
            lemma_node_pos(old(self).nodes(), nv.node_id);
            assert(self.nodes() =~= old(self).nodes().push(nv));
        }
        Ok(())
    }

    /// Removes the node with id `id`, if any.
    pub fn deregister_node(&mut self, id: u64)
        requires
            old(self).wf(),
        ensures
            final(self).wf(),
            final(self).task_views() == old(self).task_views(),
            final(self).nodes() == match node_pos(old(self).nodes(), id) {
                Some(i) => old(self).nodes().remove(i),
                None => old(self).nodes(),
            },
    {
        match self.find_node(id) {
            Some(i) => {
                self.compute_nodes.remove(i);
                proof {
                    let s = old(self).nodes();
                    assert(self.nodes() =~= s.remove(i as int));
                    let t = self.nodes();
                    assert forall|a: int, b: int| 0 <= a < b < t.len() implies (#[trigger] t[a]).node_id != (#[trigger] t[b]).node_id by {
                        let a0 = if a < i { a } else { a + 1 };
                        let b0 = if b < i { b } else { b + 1 };
                        assert(t[a] == s[a0]);
                        assert(t[b] == s[b0]);
                    }
                    assert forall|a: int| 0 <= a < t.len() implies node_wf(#[trigger] t[a]) by {
                        let a0 = if a < i { a } else { a + 1 };
                        assert(t[a] == s[a0]);
                    }
                }
            },
            None => {},
        }
    }

    /// Marks the node with id `id` online or offline; returns whether it exists.
    pub fn mark_member(&mut self, id: u64, online: bool) -> (r: bool)
        requires
            old(self).wf(),
        ensures
            final(self).wf(),
            final(self).task_views() == old(self).task_views(),
            r == node_pos(old(self).nodes(), id) is Some,
            final(self).nodes() == match node_pos(old(self).nodes(), id) {
                Some(i) => old(self).nodes().update(i, NodeView { online, ..old(self).nodes()[i] }),
                None => old(self).nodes(),
            },
    {
        match self.find_node(id) {
            Some(i) => {
                let mut n = self.compute_nodes.remove(i);
                n.set_online(online);
                let ghost nv = n@;
                self.compute_nodes.insert(i, n);
                proof {
                    let s = old(self).nodes();
                    assert(self.nodes() =~= s.update(i as int, nv));
                    let t = self.nodes();
                    assert forall|a: int, b: int| 0 <= a < b < t.len() implies (#[trigger] t[a]).node_id != (#[trigger] t[b]).node_id by {
                        assert(s[a].node_id != s[b].node_id);
                    }
                    assert forall|a: int| 0 <= a < t.len() implies node_wf(#[trigger] t[a]) by {
                        assert(node_wf(s[a]));
                    }
                }
                true
            },
            None => false,
        }
    }

    /// Replaces node `i` by `n`, which has the same id.
    fn update_node(&mut self, i: usize, n: ComputeNode)
        requires
            old(self).wf(),
            i < old(self).nodes().len(),
            n@.node_id == old(self).nodes()[i as int].node_id,
            node_wf(n@),
        ensures
            final(self).wf(),
            final(self).task_views() == old(self).task_views(),
            final(self).nodes() == old(self).nodes().update(i as int, n@),
    {
        let ghost nv = n@;
        self.compute_nodes.set(i, n);
        proof {
            let s = old(self).nodes();
            assert(self.nodes() =~= s.update(i as int, nv));
            let t = self.nodes();
            assert forall|a: int, b: int| 0 <= a < b < t.len() implies (#[trigger] t[a]).node_id != (#[trigger] t[b]).node_id by {
                assert(s[a].node_id != s[b].node_id);
            }
            assert forall|a: int| 0 <= a < t.len() implies node_wf(#[trigger] t[a]) by {
                if a != i {
                    assert(node_wf(s[a]));
                }
            }
        }
    }

    /// If the occupation of stage `stage_id` of task `task_id` on node
    /// `node_id` is scheduled and fits now, starts it and answers `true`;
    /// otherwise answers `false`. Fails if there is no such occupation.
    pub fn try_acquire_node_resource(&mut self, task_id: u64, stage_id: u64, node_id: u64) -> (r: Result<bool, ChangeOccupationStatusError>)
        requires
            old(self).wf(),
        ensures
            final(self).wf(),
            final(self).task_views() == old(self).task_views(),
            (r, final(self).nodes()) == acquire_outcome(old(self).nodes(), task_id, stage_id, node_id),
    {
        let i = match self.find_node(node_id) {
            None => return Err(ChangeOccupationStatusError::CannotFindOccupation),
            Some(i) => i,
        };
        proof {
            assert(self.nodes()[i as int] == self.compute_nodes@[i as int]@);
            assert(node_wf(self.nodes()[i as int]));
        }
        let j = match self.compute_nodes[i].find_stage(stage_id) {
            None => return Err(ChangeOccupationStatusError::CannotFindOccupation),
            Some(j) => j,
        };
        let o = self.compute_nodes[i].occupations()[j];
        if o.task_id != task_id {
            return Err(ChangeOccupationStatusError::OccupationTaskNotMatch);
        }
        let n = &self.compute_nodes[i];
        if o.status == OccupationStatus::Scheduled && can_afford_occupation(n.memory_remains(), o.memory, n.processors_remains(), o.workers) {
            let mut n = self.compute_nodes[i].copy();
            n.acquire(j);
            self.update_node(i, n);
            Ok(true)
        } else {
            Ok(false)
        }
    }

    /// If the occupation of stage `stage_id` of task `task_id` on node
    /// `node_id` runs, releases it, gives its resources back and answers
    /// `true`; otherwise answers `false`. Fails if there is no such occupation.
    pub fn release_occupation(&mut self, task_id: u64, stage_id: u64, node_id: u64) -> (r: Result<bool, ChangeOccupationStatusError>)
        requires
            old(self).wf(),
        ensures
            final(self).wf(),
            final(self).task_views() == old(self).task_views(),
            (r, final(self).nodes()) == release_outcome(old(self).nodes(), task_id, stage_id, node_id),
    {
        let i = match self.find_node(node_id) {
            None => return Err(ChangeOccupationStatusError::CannotFindOccupation),
            Some(i) => i,
        };
        proof {
            assert(self.nodes()[i as int] == self.compute_nodes@[i as int]@);
            assert(node_wf(self.nodes()[i as int]));
        }
        let j = match self.compute_nodes[i].find_stage(stage_id) {
            None => return Err(ChangeOccupationStatusError::CannotFindOccupation),
            Some(j) => j,
        };
        let o = self.compute_nodes[i].occupations()[j];
        if o.task_id != task_id {
            return Err(ChangeOccupationStatusError::OccupationTaskNotMatch);
        }
        if o.status == OccupationStatus::Running {
            let mut n = self.compute_nodes[i].copy();
            n.release(j);
            self.update_node(i, n);
            Ok(true)
        } else {
            Ok(false)
        }
    }

    /// Sets the final status of task `task_id`; fails if it is unknown.
    pub fn task_ended(&mut self, task_id: u64, status: TaskStatus) -> (r: Result<(), TaskEndedError>)
        requires
            old(self).wf(),
        ensures
            final(self).wf(),
            final(self).nodes() == old(self).nodes(),
            (exists|k: int| 0 <= k < old(self).task_views().len() && (#[trigger] old(self).task_views()[k]).id == task_id) <==> r is Ok,
            r is Err ==> r == Err::<(), TaskEndedError>(TaskEndedError::TaskNotFound(task_id)) && final(self).task_views() == old(self).task_views(),
            r is Ok ==> exists|k: int| 0 <= k < old(self).task_views().len() && (#[trigger] old(self).task_views()[k]).id == task_id
                && final(self).task_views() == old(self).task_views().update(k, TaskView { status: Some(status), ..old(self).task_views()[k] }),
    {
        let mut k: usize = 0;
        while k < self.tasks.len()
            invariant
                k <= self.tasks@.len(),
                self.task_views() == old(self).task_views(),
                self.nodes() == old(self).nodes(),
                self.wf(),
                forall|q: int| 0 <= q < k ==> (#[trigger] self.task_views()[q]).id != task_id,
            decreases self.tasks@.len() - k,
        {
            if self.tasks[k].id == task_id {
                let mut t = self.tasks.remove(k);
                t.status = Some(status);
                let ghost tv = t@;
                self.tasks.insert(k, t);
                proof {
                    assert(self.task_views() =~= old(self).task_views().update(k as int, tv));
                    assert(self.nodes() =~= old(self).nodes());
                    assert(old(self).task_views()[k as int].id == task_id);
                }
                return Ok(());
            }
            proof {
                assert(self.task_views()[k as int] == self.tasks@[k as int]@);
            }
            k = k + 1;
        }
        Err(TaskEndedError::TaskNotFound(task_id))
    }
}

impl ComputeNode {
    /// A copy of this node.
    fn copy(&self) -> (r: ComputeNode)
        ensures
            r@ == self@,
    {
        let mut occs: Vec<Occupation> = Vec::with_capacity(self.occupations.len());
        let mut i: usize = 0;
        while i < self.occupations.len()
            invariant
                i <= self.occupations@.len(),
                occs@ == self.occupations@.subrange(0, i as int),
            decreases self.occupations@.len() - i,
        {
            occs.push(self.occupations[i]);
            assert(occs@ =~= self.occupations@.subrange(0, i + 1));
            i = i + 1;
        }
        assert(occs@ =~= self.occupations@);
        ComputeNode {
            address: self.address.clone(),
            memory: self.memory,
            memory_remains: self.memory_remains,
            processors: self.processors,
            processors_remains: self.processors_remains,
            node_id: self.node_id,
            online: self.online,
            occupations: occs,
        }
    }
}

/// Where task `id` stands in `s`.
pub open spec fn task_pos(s: Seq<TaskView>, id: u64) -> Option<int>
    decreases s.len(),
{
    if s.len() == 0 {
        None
    } else if s.last().id == id {
        Some(s.len() - 1)
    } else {
        task_pos(s.drop_last(), id)
    }
}

/// `s` with `t` recorded: in place of the task with its id, or after the others.
pub open spec fn record_task(s: Seq<TaskView>, t: TaskView) -> Seq<TaskView> {
    match task_pos(s, t.id) {
        Some(k) => s.update(k, t),
        None => s.push(t),
    }
}

/// With no error among the occupations from `from` to `i`, the first error
/// from `from` is the first error from `i`.
pub proof fn lemma_first_error_skip(nodes: Seq<NodeView>, occs: Seq<Occupation>, from: int, i: int)
    requires
        0 <= from <= i <= occs.len(),
        forall|k: int| from <= k < i ==> (#[trigger] occupation_error(nodes, occs, k)) is None,
    ensures
        first_error(nodes, occs, from) == first_error(nodes, occs, i),
    decreases i - from,
{
    if from < i {
        lemma_first_error_skip(nodes, occs, from + 1, i);
    }
}

/// Without an error in a request, every occupation of it is scheduled.
pub proof fn lemma_no_error_scheduled(nodes: Seq<NodeView>, occs: Seq<Occupation>, from: int)
    requires
        0 <= from <= occs.len(),
        first_error(nodes, occs, from) is None,
    ensures
        forall|k: int| from <= k < occs.len() ==> (#[trigger] occs[k]).status == OccupationStatus::Scheduled,
    decreases occs.len() - from,
{
    if from < occs.len() {
        lemma_no_error_scheduled(nodes, occs, from + 1);
    }
}

/// Placing scheduled occupations keeps every node conserving its resources
/// and keeps node ids.
pub proof fn lemma_place_all_wf(nodes: Seq<NodeView>, occs: Seq<Occupation>)
    requires
        nodes_wf(nodes),
        forall|k: int| 0 <= k < occs.len() ==> (#[trigger] occs[k]).status == OccupationStatus::Scheduled,
    ensures
        nodes_wf(place_all(nodes, occs).0),
        place_all(nodes, occs).0.len() == nodes.len(),
        forall|i: int| 0 <= i < nodes.len() ==> (#[trigger] place_all(nodes, occs).0[i]).node_id == nodes[i].node_id,
    decreases occs.len(),
{
    if occs.len() > 0 {
        let init = occs.drop_last();
        assert forall|k: int| 0 <= k < init.len() implies (#[trigger] init[k]).status == OccupationStatus::Scheduled by {
            assert(init[k] == occs[k]);
        }
        lemma_place_all_wf(nodes, init);
        let prev = place_all(nodes, init);
        let o = occs.last();
        lemma_node_pos(prev.0, o.node_id);
        match node_pos(prev.0, o.node_id) {
            Some(i) => {
                let n = prev.0[i];
                if !stage_running(n, o.stage_id) {
                    lemma_placed_wf(n, o);
                    lemma_nodes_update_wf(prev.0, i, placed(n, o));
                }
            },
            None => {},
        }
    }
}

/// Replacing a node by one with the same id that conserves its resources
/// keeps all nodes well formed.
pub proof fn lemma_nodes_update_wf(s: Seq<NodeView>, i: int, n: NodeView)
    requires
        nodes_wf(s),
        0 <= i < s.len(),
        n.node_id == s[i].node_id,
        node_wf(n),
    ensures
        nodes_wf(s.update(i, n)),
{
    let t = s.update(i, n);
    assert forall|a: int, b: int| 0 <= a < b < t.len() implies (#[trigger] t[a]).node_id != (#[trigger] t[b]).node_id by {
        assert(s[a].node_id != s[b].node_id);
    }
    assert forall|a: int| 0 <= a < t.len() implies node_wf(#[trigger] t[a]) by {
        if a != i {
            assert(node_wf(s[a]));
        }
    }
}

impl ResourceManager {
    /// Records `task` and places its occupations, which must all be
    /// scheduled, on registered nodes, and must not name a stage that runs
    /// on its node or name one (node, stage) twice; otherwise fails with the
    /// error of the first that breaks this, changing nothing.
    /// (A request that would replace a running occupation is refused so that
    /// every node keeps conserving its resources; see `StageOccupied`.) Each
    /// occupation, in order, is promoted to running if its node has room for
    /// it at that point; the promoted ones are returned.
    pub fn register_task(&mut self, task: Task, occupations: Vec<Occupation>) -> (r: Result<Vec<Occupation>, RegisterTaskError>)
        requires
            old(self).wf(),
        ensures
            final(self).wf(),
            match r {
                Ok(v) => register_outcome(old(self).nodes(), occupations@) == (Ok::<Seq<Occupation>, RegisterTaskError>(v@), final(self).nodes()),
                Err(e) => register_outcome(old(self).nodes(), occupations@) == (Err::<Seq<Occupation>, RegisterTaskError>(e), final(self).nodes()),
            },
            r is Err ==> final(self).task_views() == old(self).task_views(),
            r is Ok ==> final(self).task_views() == record_task(
                old(self).task_views(),
                TaskView { nodes: dedup_runs(occupation_nodes(occupations@)), ..task@ },
            ),
    {
        let ghost nodes0 = self.nodes();
        let ghost occs = occupations@;
        let n = occupations.len();
        let mut i: usize = 0;
        while i < n
            invariant
                n == occs.len(),
                occs == occupations@,
                i <= n,
                self.nodes() == nodes0,
                nodes0 == old(self).nodes(),
                self.wf(),
                self.task_views() == old(self).task_views(),
                forall|k: int| 0 <= k < i ==> (#[trigger] occupation_error(nodes0, occs, k)) is None,
            decreases n - i,
        {
            let o = occupations[i];
            if o.status != OccupationStatus::Scheduled {
                proof {
                    lemma_first_error_skip(nodes0, occs, 0, i as int);
                }
                return Err(RegisterTaskError::OccupationStatusNotScheduled);
            }
            let ni = match self.find_node(o.node_id) {
                None => {
                    proof {
                        lemma_first_error_skip(nodes0, occs, 0, i as int);
                    }
                    return Err(RegisterTaskError::NodeIdNotFound(o.node_id));
                },
                Some(ni) => ni,
            };
            proof {
                assert(self.nodes()[ni as int] == self.compute_nodes@[ni as int]@);
            }
            let running = match self.compute_nodes[ni].find_stage(o.stage_id) {
                Some(j) => self.compute_nodes[ni].occupations()[j].status == OccupationStatus::Running,
                None => false,
            };
            let mut dup = false;
            let mut j: usize = 0;
            while j < i
                invariant
                    j <= i,
                    i < n,
                    n == occs.len(),
                    occs == occupations@,
                    o == occs[i as int],
                    dup == exists|q: int| 0 <= q < j && (#[trigger] occs[q]).node_id == o.node_id && occs[q].stage_id == o.stage_id,
                decreases i - j,
            {
                if occupations[j].node_id == o.node_id && occupations[j].stage_id == o.stage_id {
                    dup = true;
                }
                j = j + 1;
            }
            if running || dup {
                proof {
                    lemma_first_error_skip(nodes0, occs, 0, i as int);
                }
                return Err(RegisterTaskError::StageOccupied(o.stage_id));
            }
            assert(occupation_error(nodes0, occs, i as int) is None);
            i = i + 1;
        }
        proof {
            lemma_first_error_skip(nodes0, occs, 0, n as int);
            lemma_no_error_scheduled(nodes0, occs, 0);
            assert(occs.take(0) =~= Seq::<Occupation>::empty());
        }
        let mut promoted: Vec<Occupation> = Vec::new();
        let mut i: usize = 0;
        while i < n
            invariant
                n == occs.len(),
                occs == occupations@,
                i <= n,
                self.wf(),
                self.task_views() == old(self).task_views(),
                forall|k: int| 0 <= k < occs.len() ==> (#[trigger] occs[k]).status == OccupationStatus::Scheduled,
                (self.nodes(), promoted@) == place_all(nodes0, occs.take(i as int)),
            decreases n - i,
        {
            let o = occupations[i];
            proof {
                assert(occs.take(i + 1).drop_last() =~= occs.take(i as int));
                assert(occs.take(i + 1).last() == o);
            }
            match self.find_node(o.node_id) {
                None => {},
                Some(ni) => {
                    proof {
                        assert(self.nodes()[ni as int] == self.compute_nodes@[ni as int]@);
                        assert(node_wf(self.nodes()[ni as int]));
                        lemma_stage_pos(self.nodes()[ni as int].occupations, o.stage_id);
                    }
                    let running = match self.compute_nodes[ni].find_stage(o.stage_id) {
                        Some(j) => self.compute_nodes[ni].occupations()[j].status == OccupationStatus::Running,
                        None => false,
                    };
                    if !running {
                        let mut nd = self.compute_nodes[ni].copy();
                        let up = nd.place(o);
                        self.update_node(ni, nd);
                        if up {
                            promoted.push(Occupation { status: OccupationStatus::Running, ..o });
                        }
                    }
                },
            }
            i = i + 1;
        }
        proof {
            assert(occs.take(n as int) =~= occs);
        }
        // the task's nodes, runs of one node counted once
        let mut nodes: Vec<u64> = Vec::new();
        let mut k: usize = 0;
        while k < n
            invariant
                n == occs.len(),
                occs == occupations@,
                k <= n,
                nodes@ == dedup_runs(occupation_nodes(occs.take(k as int))),
            decreases n - k,
        {
            let id = occupations[k].node_id;
            let ghost prev = occupation_nodes(occs.take(k as int));
            proof {
                assert(occupation_nodes(occs.take(k + 1)) =~= prev.push(id));
                assert(prev.push(id).drop_last() =~= prev);
                if k > 0 {
                    lemma_dedup_last(prev);
                }
            }
            if nodes.len() == 0 || nodes[nodes.len() - 1] != id {
                nodes.push(id);
            }
            k = k + 1;
        }
        proof {
            assert(occs.take(n as int) =~= occs);
        }
        let mut task = task;
        task.nodes = nodes;
        self.record(task);
        Ok(promoted)
    }

    fn record(&mut self, task: Task)
        ensures
            final(self).nodes() == old(self).nodes(),
            final(self).task_views() == record_task(old(self).task_views(), task@),
    {
        let mut k: usize = self.tasks.len();
        proof {
            assert(self.task_views().take(k as int) =~= self.task_views());
        }
        while k > 0
            invariant
                k <= self.tasks@.len(),
                self.task_views() == old(self).task_views(),
                self.nodes() == old(self).nodes(),
                task_pos(self.task_views(), task@.id) == task_pos(self.task_views().take(k as int), task@.id),
            decreases k,
        {
            let ghost t = self.task_views().take(k as int);
            proof {
                assert(self.task_views()[k - 1] == self.tasks@[k - 1]@);
            }
            if self.tasks[k - 1].id == task.id {
                let ghost tv = task@;
                self.tasks.set(k - 1, task);
                proof {
                    assert(self.task_views() =~= old(self).task_views().update(k - 1, tv));
                    assert(self.nodes() =~= old(self).nodes());
                }
                return;
            }
            proof {
                assert(t.drop_last() =~= self.task_views().take(k - 1));
            }
            k = k - 1;
        }
        let ghost tv = task@;
        self.tasks.push(task);
        proof {
            assert(self.task_views() =~= old(self).task_views().push(tv));
            assert(self.nodes() =~= old(self).nodes());
        }
    }
}

/// A command of the resource manager that moves resources.
pub enum ResourceCommand {
    RegisterTask(Seq<Occupation>),
    TryAcquire(u64, u64, u64),
    Release(u64, u64, u64),
}

/// The nodes after one command.
pub open spec fn apply_command(nodes: Seq<NodeView>, c: ResourceCommand) -> Seq<NodeView> {
    match c {
        ResourceCommand::RegisterTask(occs) => register_outcome(nodes, occs).1,
        ResourceCommand::TryAcquire(t, s, n) => acquire_outcome(nodes, t, s, n).1,
        ResourceCommand::Release(t, s, n) => release_outcome(nodes, t, s, n).1,
    }
}

/// The nodes after a sequence of commands.
pub open spec fn run_commands(nodes: Seq<NodeView>, cs: Seq<ResourceCommand>) -> Seq<NodeView>
    decreases cs.len(),
{
    if cs.len() == 0 {
        nodes
    } else {
        apply_command(run_commands(nodes, cs.drop_last()), cs.last())
    }
}

/// Each command keeps every node conserving its resources.
pub proof fn lemma_command_wf(nodes: Seq<NodeView>, c: ResourceCommand)
    requires
        nodes_wf(nodes),
    ensures
        nodes_wf(apply_command(nodes, c)),
{
    match c {
        ResourceCommand::RegisterTask(occs) => {
            if first_error(nodes, occs, 0) is None {
                lemma_no_error_scheduled(nodes, occs, 0);
                lemma_place_all_wf(nodes, occs);
            }
        },
        ResourceCommand::TryAcquire(t, s, n) => {
            lemma_node_pos(nodes, n);
            if let Some(i) = node_pos(nodes, n) {
                lemma_stage_pos(nodes[i].occupations, s);
                if let Some(j) = stage_pos(nodes[i].occupations, s) {
                    let o = nodes[i].occupations[j];
                    if o.task_id == t && o.status == OccupationStatus::Scheduled && can_afford(nodes[i], o) {
                        lemma_acquired_wf(nodes[i], j);
                        lemma_nodes_update_wf(nodes, i, acquired(nodes[i], j));
                    }
                }
            }
        },
        ResourceCommand::Release(t, s, n) => {
            lemma_node_pos(nodes, n);
            if let Some(i) = node_pos(nodes, n) {
                lemma_stage_pos(nodes[i].occupations, s);
                if let Some(j) = stage_pos(nodes[i].occupations, s) {
                    let o = nodes[i].occupations[j];
                    if o.task_id == t && o.status == OccupationStatus::Running {
                        lemma_released_wf(nodes[i], j);
                        lemma_nodes_update_wf(nodes, i, released(nodes[i], j));
                    }
                }
            }
        },
    }
}

/// Resource conservation: after every prefix of any sequence of
/// `register_task`, `try_acquire_node_resource` and `release_occupation`
/// commands, each node's free processors plus the workers of its running
/// occupations equal its processors, and likewise for memory.
pub proof fn lemma_resource_conservation(nodes: Seq<NodeView>, cs: Seq<ResourceCommand>, k: int, i: int)
    requires
        nodes_wf(nodes),
        0 <= k <= cs.len(),
        0 <= i < run_commands(nodes, cs.take(k)).len(),
    ensures
        ({
            let n = run_commands(nodes, cs.take(k))[i];
            &&& n.processors_remains + running_workers(n.occupations) == n.processors
            &&& n.memory_remains + running_memory(n.occupations) == n.memory
        }),
{
    lemma_run_wf(nodes, cs.take(k));
}

pub proof fn lemma_run_wf(nodes: Seq<NodeView>, cs: Seq<ResourceCommand>)
    requires
        nodes_wf(nodes),
    ensures
        nodes_wf(run_commands(nodes, cs)),
    decreases cs.len(),
{
    if cs.len() > 0 {
        lemma_run_wf(nodes, cs.drop_last());
        lemma_command_wf(run_commands(nodes, cs.drop_last()), cs.last());
    }
}

pub proof fn lemma_running_take(s: Seq<Occupation>, i: int)
    requires
        0 <= i < s.len(),
    ensures
        running_workers(s.take(i + 1)) == running_workers(s.take(i)) + held_workers(s[i]),
        running_memory(s.take(i + 1)) == running_memory(s.take(i)) + held_memory(s[i]),
{
    assert(s.take(i + 1).drop_last() =~= s.take(i));
}

pub proof fn lemma_running_prefix_le(s: Seq<Occupation>, i: int)
    requires
        0 <= i <= s.len(),
    ensures
        running_workers(s.take(i)) <= running_workers(s),
        running_memory(s.take(i)) <= running_memory(s),
    decreases s.len() - i,
{
    if i == s.len() {
        assert(s.take(i) =~= s);
    } else {
        lemma_running_take(s, i);
        lemma_running_prefix_le(s, i + 1);
    }
}

impl ComputeNode {
    /// A node with the given parts, if they conserve resources: free
    /// counters plus what running occupations hold equal the totals, and no
    /// stage occurs twice.
    pub fn from_parts(
        address: String,
        node_id: u64,
        memory: u64,
        memory_remains: u64,
        processors: u32,
        processors_remains: u32,
        online: bool,
        occupations: Vec<Occupation>,
    ) -> (r: Option<ComputeNode>)
        ensures
            ({
                let v = NodeView {
                    address: address@,
                    memory,
                    memory_remains,
                    processors,
                    processors_remains,
                    node_id,
                    online,
                    occupations: occupations@,
                };
                &&& r is Some <==> node_wf(v)
                &&& r is Some ==> r->Some_0@ == v
            }),
    {
        let ghost s = occupations@;
        let n = occupations.len();
        let mut workers: u64 = 0;
        let mut mem: u64 = 0;
        let mut i: usize = 0;
        proof {
            assert(s.take(0) =~= Seq::<Occupation>::empty());
        }
        while i < n
            invariant
                n == s.len(),
                s == occupations@,
                i <= n,
                workers as nat == running_workers(s.take(i as int)),
                mem as nat == running_memory(s.take(i as int)),
                workers <= processors,
                mem <= memory,
            decreases n - i,
        {
            let o = occupations[i];
            proof {
                lemma_running_take(s, i as int);
                lemma_running_prefix_le(s, i + 1);
            }
            if o.status == OccupationStatus::Running {
                if o.workers as u64 > processors as u64 - workers || o.memory > memory - mem {
                    return None;
                }
                workers = workers + o.workers as u64;
                mem = mem + o.memory;
            }
            i = i + 1;
        }
        proof {
            assert(s.take(n as int) =~= s);
        }
        if processors_remains as u64 + workers != processors as u64 || memory_remains as u128 + mem as u128 != memory as u128 {
            return None;
        }
        let mut a: usize = 0;
        while a < n
            invariant
                n == s.len(),
                s == occupations@,
                a <= n,
                forall|x: int, y: int| 0 <= x < y < s.len() && x < a ==> (#[trigger] s[x]).stage_id != (#[trigger] s[y]).stage_id,
            decreases n - a,
        {
            let mut b: usize = a + 1;
            while b < n
                invariant
                    n == s.len(),
                    s == occupations@,
                    a < n,
                    a < b <= n,
                    forall|x: int, y: int| 0 <= x < y < s.len() && x < a ==> (#[trigger] s[x]).stage_id != (#[trigger] s[y]).stage_id,
                    forall|y: int| a < y < b ==> s[a as int].stage_id != (#[trigger] s[y]).stage_id,
                decreases n - b,
            {
                if occupations[a].stage_id == occupations[b].stage_id {
                    return None;
                }
                b = b + 1;
            }
            a = a + 1;
        }
        Some(ComputeNode {
            address,
            memory,
            memory_remains,
            processors,
            processors_remains,
            node_id,
            online,
            occupations,
        })
    }
}

impl Task {
    /// A task record with the given parts.
    pub fn from_parts(id: u64, name: String, status: Option<TaskStatus>, stages: Vec<u64>, nodes: Vec<u64>) -> (r: Task)
        ensures
            r@ == (TaskView { id, name: name@, status, stages: stages@, nodes: nodes@ }),
    {
        Task { id, name, status, stages, nodes }
    }

    pub fn name(&self) -> (r: &String)
        ensures
            r@ == self@.name,
    {
        &self.name
    }

    pub fn stages(&self) -> (r: &Vec<u64>)
        ensures
            r@ == self@.stages,
    {
        &self.stages
    }
}

impl ResourceManager {
    /// A manager holding `nodes` and `tasks`, as a snapshot recorded them,
    /// if node ids are distinct; the nodes conserve resources by construction.
    pub fn from_parts(nodes: Vec<ComputeNode>, tasks: Vec<Task>) -> (r: Option<ResourceManager>)
        requires
            forall|i: int| 0 <= i < nodes@.len() ==> node_wf(#[trigger] nodes@[i]@),
        ensures
            r is Some <==> forall|i: int, j: int| 0 <= i < j < nodes@.len() ==> (#[trigger] nodes@[i]@).node_id != (#[trigger] nodes@[j]@).node_id,
            r is Some ==> r->Some_0.wf() && r->Some_0.nodes() == nodes@.map_values(|n: ComputeNode| n@)
                && r->Some_0.task_views() == tasks@.map_values(|t: Task| t@),
    {
        let n = nodes.len();
        let mut a: usize = 0;
        while a < n
            invariant
                n == nodes@.len(),
                a <= n,
                forall|x: int, y: int| 0 <= x < y < nodes@.len() && x < a ==> (#[trigger] nodes@[x]@).node_id != (#[trigger] nodes@[y]@).node_id,
            decreases n - a,
        {
            let mut b: usize = a + 1;
            while b < n
                invariant
                    n == nodes@.len(),
                    a < n,
                    a < b <= n,
                    forall|x: int, y: int| 0 <= x < y < nodes@.len() && x < a ==> (#[trigger] nodes@[x]@).node_id != (#[trigger] nodes@[y]@).node_id,
                    forall|y: int| a < y < b ==> nodes@[a as int]@.node_id != (#[trigger] nodes@[y]@).node_id,
                decreases n - b,
            {
                if nodes[a].node_id() == nodes[b].node_id() {
                    return None;
                }
                b = b + 1;
            }
            a = a + 1;
        }
        let r = ResourceManager { compute_nodes: nodes, tasks };
        proof {
            let v = r.nodes();
            assert forall|i: int| 0 <= i < v.len() implies node_wf(#[trigger] v[i]) by {
                assert(v[i] == r.compute_nodes@[i]@);
            }
            assert forall|i: int, j: int| 0 <= i < j < v.len() implies (#[trigger] v[i]).node_id != (#[trigger] v[j]).node_id by {
                assert(v[i] == r.compute_nodes@[i]@);
                assert(v[j] == r.compute_nodes@[j]@);
            }
        }
        Some(r)
    }
}

} // verus!
