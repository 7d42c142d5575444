use vstd::prelude::*;
use crate::model::{Status, texts};
use vstd::set_lib::{lemma_int_range, lemma_len_subset, set_int_range};

verus! {

/// The dependency-aware schedule over one collection of named nodes (the jobs
/// of a run, or the tasks of a job). It decides which nodes start, records
/// which have finished, and detects when no progress is possible; running the
/// nodes themselves is up to the caller.
pub struct Schedule {
    names: Vec<String>,
    depends: Vec<Vec<String>>,
    status: Vec<Status>,
    finished: Vec<usize>,
}

pub struct ScheduleView {
    pub names: Seq<Seq<char>>,
    pub depends: Seq<Seq<Seq<char>>>,
    pub status: Seq<Status>,
    /// Finished nodes, in the order in which they completed.
    pub finished: Seq<usize>,
}

/// What the caller does next.
#[derive(Debug)]
pub enum Decision {
    /// Start the given nodes, then wait for any running node to complete.
    Wait(Vec<usize>),
    /// Every node has finished.
    Done,
    /// Nothing runs and nothing pending can start: the dependencies are
    /// circular or cannot be satisfied.
    Stuck,
}

impl ScheduleView {
    pub open spec fn len(self) -> int {
        self.names.len() as int
    }

    pub open spec fn valid_node(self, i: int) -> bool {
        0 <= i < self.len()
    }

    /// Some node among the first `p` finished ones is named `d`.
    pub open spec fn done_before(self, d: Seq<char>, p: int) -> bool {
        exists|q: int| 0 <= q < p && #[trigger] self.names[self.finished[q] as int] == d
    }

    /// Some finished node is named `d`.
    pub open spec fn done(self, d: Seq<char>) -> bool {
        self.done_before(d, self.finished.len() as int)
    }

    /// Every dependency of node `i` names a finished node.
    pub open spec fn ready(self, i: int) -> bool {
        forall|k: int| 0 <= k < self.depends[i].len() ==> self.done(#[trigger] self.depends[i][k])
    }

    /// Node `i` is pending and all its dependencies have finished.
    pub open spec fn startable(self, i: int) -> bool {
        self.valid_node(i) && self.status[i] == Status::Pending && self.ready(i)
    }

    pub open spec fn any_running(self) -> bool {
        exists|i: int| self.valid_node(i) && #[trigger] self.status[i] == Status::Running
    }

    pub open spec fn any_pending(self) -> bool {
        exists|i: int| self.valid_node(i) && #[trigger] self.status[i] == Status::Pending
    }

    pub open spec fn all_finished(self) -> bool {
        forall|i: int| self.valid_node(i) ==> #[trigger] self.status[i] == Status::Finished
    }

    /// Every dependency of every node names some node of the collection.
    pub open spec fn satisfiable(self) -> bool {
        forall|i: int, k: int|
            self.valid_node(i) && 0 <= k < self.depends[i].len() ==> self.names.contains(
                #[trigger] self.depends[i][k],
            )
    }

    /// No two nodes share a name.
    pub open spec fn unique_names(self) -> bool {
        forall|i: int, j: int|
            self.valid_node(i) && self.valid_node(j) && #[trigger] self.names[i]
                == #[trigger] self.names[j] ==> i == j
    }

    /// `rank` orders the nodes so that every node depends only on nodes of
    /// lower rank: the dependency graph has no cycle.
    pub open spec fn ranked_by(self, rank: Seq<nat>) -> bool {
        &&& rank.len() == self.len()
        &&& forall|i: int, k: int, j: int|
            self.valid_node(i) && 0 <= k < self.depends[i].len() && self.valid_node(j)
                && #[trigger] self.names[j] == #[trigger] self.depends[i][k] ==> rank[j] < rank[i]
    }

    /// Node `c[m]` depends on node `c[m + 1]`, and the last on the first.
    pub open spec fn is_cycle(self, c: Seq<int>) -> bool {
        &&& c.len() > 0
        &&& forall|m: int| 0 <= m < c.len() ==> self.valid_node(#[trigger] c[m])
        &&& forall|m: int|
            0 <= m < c.len() - 1 ==> self.depends[#[trigger] c[m]].contains(self.names[c[m + 1]])
        &&& self.depends[c[c.len() - 1]].contains(self.names[c[0]])
    }

    /// The status of every node in `next` is its status here or a step forward.
    pub open spec fn moves_to(self, next: ScheduleView) -> bool {
        &&& next.len() == self.len()
        &&& forall|i: int| self.valid_node(i) ==> #[trigger] self.status[i].may_become(next.status[i])
    }

    /// Where node `x` stands in the completion order.
    pub open spec fn position(self, x: int) -> int {
        choose|p: int| 0 <= p < self.finished.len() && self.finished[p] as int == x
    }

    pub open spec fn wf(self) -> bool {
        &&& self.len() <= usize::MAX
        &&& self.depends.len() == self.len()
        &&& self.status.len() == self.len()
        &&& forall|i: int| self.valid_node(i) ==> #[trigger] self.status[i] != Status::Failed
        &&& forall|p: int|
            0 <= p < self.finished.len() ==> self.valid_node(#[trigger] self.finished[p] as int)
        &&& forall|p: int|
            0 <= p < self.finished.len() ==> self.status[#[trigger] self.finished[p] as int]
                == Status::Finished
        &&& forall|p: int, q: int|
            0 <= p < q < self.finished.len() ==> #[trigger] self.finished[p]
                != #[trigger] self.finished[q]
        &&& forall|i: int|
            self.valid_node(i) && #[trigger] self.status[i] == Status::Finished
                ==> self.finished.contains(i as usize)
        // a finished node completed after all its dependencies
        &&& forall|p: int, k: int|
            0 <= p < self.finished.len() && 0 <= k < self.depends[self.finished[p] as int].len()
                ==> self.done_before(
                #[trigger] self.depends[#[trigger] self.finished[p] as int][k],
                p,
            )
        // a running node started after all its dependencies finished
        &&& forall|i: int|
            self.valid_node(i) && #[trigger] self.status[i] == Status::Running ==> self.ready(i)
    }
}

impl View for Schedule {
    type V = ScheduleView;

    closed spec fn view(&self) -> ScheduleView {
        ScheduleView {
            names: texts(self.names@),
            depends: nested_texts(self.depends@),
            status: self.status@,
            finished: self.finished@,
        }
    }
}

/// The character sequences of each list of strings.
pub open spec fn nested_texts(v: Seq<Vec<String>>) -> Seq<Seq<Seq<char>>> {
    v.map_values(|w: Vec<String>| texts(w@))
}

/// Dependency `k` of node `i` names no node of the collection.
pub open spec fn missing(names: Seq<Seq<char>>, depends: Seq<Seq<Seq<char>>>, i: int, k: int) -> bool {
    0 <= i < depends.len() && 0 <= k < depends[i].len() && !names.contains(depends[i][k])
}

/// No name occurs twice.
pub open spec fn distinct(names: Seq<Seq<char>>) -> bool {
    forall|a: int, b: int| 0 <= a < b < names.len() ==> names[a] != names[b]
}

/// `d` is the name at the first position that repeats an earlier name.
pub open spec fn first_repeat(names: Seq<Seq<char>>, d: Seq<char>) -> bool {
    exists|b: int|
        {
            &&& 0 <= b < names.len()
            &&& names[b] == d
            &&& exists|a: int| 0 <= a < b && names[a] == d
            &&& distinct(#[trigger] names.take(b))
        }
}

/// Why a collection of nodes cannot be scheduled.
#[derive(Debug)]
pub enum ScheduleError {
    /// A dependency that names no node.
    Missing(String),
    /// A name that two nodes share.
    Duplicate(String),
}

/// `(i, k)` comes before `(i2, k2)` in declaration order.
pub open spec fn precedes(i: int, k: int, i2: int, k2: int) -> bool {
    i < i2 || (i == i2 && k < k2)
}

/// Some string of `names` equals `d`.
pub fn contains_name(names: &Vec<String>, d: &String) -> (r: bool)
    ensures
        r == texts(names@).contains(d@),
{
    let mut j: usize = 0;
    while j < names.len()
        invariant
            j <= names.len(),
            forall|m: int| 0 <= m < j ==> names@[m]@ != d@,
        decreases names.len() - j,
    {
        if names[j] == *d {
            assert(texts(names@)[j as int] == d@);
            return true;
        }
        j = j + 1;
    }
    assert forall|m: int| 0 <= m < texts(names@).len() implies texts(names@)[m] != d@ by {
        assert(texts(names@)[m] == names@[m]@);
    }
    false
}

impl Schedule {
    /// A schedule with every node pending. Refused with the first dependency
    /// (in declaration order) that names no node of the collection; failing
    /// that, with the first name that a later node repeats.
    pub fn new(names: Vec<String>, depends: Vec<Vec<String>>) -> (r: Result<Schedule, ScheduleError>)
        requires
            names.len() == depends.len(),
        ensures
            match r {
                Ok(s) => {
                    &&& s@.wf()
                    &&& s@.satisfiable()
                    &&& s@.unique_names()
                    &&& s@.names == texts(names@)
                    &&& s@.depends == nested_texts(depends@)
                    &&& s@.finished.len() == 0
                    &&& forall|i: int| s@.valid_node(i) ==> s@.status[i] == Status::Pending
                },
                Err(ScheduleError::Missing(d)) => exists|i: int, k: int|
                    {
                        &&& missing(texts(names@), nested_texts(depends@), i, k)
                        &&& d@ == depends@[i]@[k]@
                        &&& forall|i2: int, k2: int|
                            #[trigger] precedes(i2, k2, i, k) ==> !missing(
                                texts(names@),
                                nested_texts(depends@),
                                i2,
                                k2,
                            )
                    },
                Err(ScheduleError::Duplicate(d)) => {
                    &&& forall|i: int, k: int| !#[trigger] missing(texts(names@), nested_texts(depends@), i, k)
                    &&& first_repeat(texts(names@), d@)
                },
            },
            r matches Err(ScheduleError::Missing(_)) <==> exists|i: int, k: int|
                #[trigger] missing(texts(names@), nested_texts(depends@), i, k),
            r is Ok <==> (forall|i: int, k: int|
                !#[trigger] missing(texts(names@), nested_texts(depends@), i, k)) && distinct(
                texts(names@),
            ),
    {
        let ghost ns = texts(names@);
        let ghost ds = nested_texts(depends@);
        let mut i: usize = 0;
        while i < depends.len()
            invariant
                i <= depends.len(),
                ns == texts(names@),
                ds == nested_texts(depends@),
                forall|i2: int, k2: int| 0 <= i2 < i ==> !missing(ns, ds, i2, k2),
            decreases depends.len() - i,
        {
            let deps = &depends[i];
            let mut k: usize = 0;
            while k < deps.len()
                invariant
                    i < depends.len(),
                    deps == depends@[i as int],
                    k <= deps.len(),
                    ns == texts(names@),
                    ds == nested_texts(depends@),
                    forall|i2: int, k2: int| 0 <= i2 < i ==> !missing(ns, ds, i2, k2),
                    forall|k2: int| 0 <= k2 < k ==> !missing(ns, ds, i as int, k2),
                decreases deps.len() - k,
            {
                if !contains_name(&names, &deps[k]) {
                    assert(ds[i as int][k as int] == deps@[k as int]@);
                    assert(missing(ns, ds, i as int, k as int));
                    assert forall|i2: int, k2: int| #[trigger] precedes(i2, k2, i as int, k as int) implies !missing(ns, ds, i2, k2) by {}
                    return Err(ScheduleError::Missing(deps[k].clone()));
                }
                assert(ds[i as int][k as int] == deps@[k as int]@);
                k = k + 1;
            }
            assert forall|i2: int, k2: int| 0 <= i2 < i + 1 implies !missing(ns, ds, i2, k2) by {
                if i2 == i && 0 <= k2 < ds[i2].len() {
                    assert(ds[i2].len() == deps@.len());
                }
            }
            i = i + 1;
        }
        assert forall|i2: int, k2: int| !#[trigger] missing(ns, ds, i2, k2) by {
            if 0 <= i2 < ds.len() {
                assert(!missing(ns, ds, i2, k2));
            }
        }
        let mut j: usize = 0;
        while j < names.len()
            invariant
                j <= names.len(),
                ns == texts(names@),
                ds == nested_texts(depends@),
                forall|i2: int, k2: int| !#[trigger] missing(ns, ds, i2, k2),
                forall|a: int, b: int| 0 <= a < b < j ==> ns[a] != ns[b],
            decreases names.len() - j,
        {
            let mut i: usize = 0;
            while i < j
                invariant
                    j < names.len(),
                    i <= j,
                    ns == texts(names@),
                    ds == nested_texts(depends@),
                    forall|i2: int, k2: int| !#[trigger] missing(ns, ds, i2, k2),
                    forall|a: int, b: int| 0 <= a < b < j ==> ns[a] != ns[b],
                    forall|a: int| 0 <= a < i ==> ns[a] != ns[j as int],
                decreases j - i,
            {
                if names[i] == names[j] {
                    proof {
                        assert(ns[i as int] == ns[j as int]);
                        let t = ns.take(j as int);
                        assert forall|a: int, b: int| 0 <= a < b < t.len() implies t[a] != t[b] by {
                            assert(t[a] == ns[a] && t[b] == ns[b]);
                        }
                        assert(distinct(t));
                        assert(first_repeat(ns, ns[j as int]));
                        assert(ns[j as int] == names@[j as int]@);
                    }
                    return Err(ScheduleError::Duplicate(names[j].clone()));
                }
                i = i + 1;
            }
            j = j + 1;
        }
        let mut status: Vec<Status> = Vec::new();
        let mut j: usize = 0;
        while j < names.len()
            invariant
                j <= names.len(),
                status.len() == j,
                forall|m: int| 0 <= m < j ==> status@[m] == Status::Pending,
            decreases names.len() - j,
        {
            status.push(Status::Pending);
            j = j + 1;
        }
        let s = Schedule { names, depends, status, finished: Vec::new() };
        assert forall|a: int, k: int|
            s@.valid_node(a) && 0 <= k < s@.depends[a].len() implies s@.names.contains(
                #[trigger] s@.depends[a][k],
            ) by {
            assert(!missing(ns, ds, a, k));
        }
        assert forall|a: int, b: int|
            s@.valid_node(a) && s@.valid_node(b) && #[trigger] s@.names[a] == #[trigger] s@.names[b]
                implies a == b by {
            if a < b {
                assert(ns[a] != ns[b]);
            } else if b < a {
                assert(ns[b] != ns[a]);
            }
        }
        Ok(s)
    }

    pub fn len(&self) -> (r: usize)
        requires
            self@.wf(),
        ensures
            r == self@.len(),
    {
        self.names.len()
    }

    /// The name of node `i`.
    pub fn name(&self, i: usize) -> (r: &String)
        requires
            self@.wf(),
            i < self@.len(),
        ensures
            r@ == self@.names[i as int],
    {
        &self.names[i]
    }

    /// Where node `i` stands: pending, running or finished.
    pub fn status(&self, i: usize) -> (r: Status)
        requires
            self@.wf(),
            i < self@.len(),
        ensures
            r == self@.status[i as int],
    {
        self.status[i]
    }

    /// The finished nodes, in the order in which they completed.
    pub fn finished(&self) -> (r: &Vec<usize>)
        ensures
            r@ == self@.finished,
    {
        &self.finished
    }

    /// Whether some finished node is named `d`.
    pub fn is_done(&self, d: &String) -> (r: bool)
        requires
            self@.wf(),
        ensures
            r == self@.done(d@),
    {
        let mut q: usize = 0;
        while q < self.finished.len()
            invariant
                self@.wf(),
                q <= self.finished.len(),
                forall|m: int| 0 <= m < q ==> self@.names[self@.finished[m] as int] != d@,
            decreases self.finished.len() - q,
        {
            let j = self.finished[q];
            assert(self@.valid_node(self@.finished[q as int] as int));
            if self.names[j] == *d {
                assert(self@.names[self@.finished[q as int] as int] == d@);
                return true;
            }
            q = q + 1;
        }
        false
    }

    /// Whether every dependency of node `i` has finished.
    pub fn is_ready(&self, i: usize) -> (r: bool)
        requires
            self@.wf(),
            i < self@.len(),
        ensures
            r == self@.ready(i as int),
    {
        let deps = &self.depends[i];
        assert(self@.depends[i as int] == texts(deps@));
        let mut k: usize = 0;
        while k < deps.len()
            invariant
                self@.wf(),
                i < self@.len(),
                deps == self.depends@[i as int],
                self@.depends[i as int] == texts(deps@),
                k <= deps.len(),
                forall|m: int| 0 <= m < k ==> self@.done(#[trigger] self@.depends[i as int][m]),
            decreases deps.len() - k,
        {
            assert(self@.depends[i as int][k as int] == deps@[k as int]@);
            if !self.is_done(&deps[k]) {
                return false;
            }
            k = k + 1;
        }
        true
    }

    /// Starts every pending node whose dependencies have all finished, in
    /// declaration order, and says what to do next.
    pub fn advance(&mut self) -> (r: Decision)
        requires
            old(self)@.wf(),
        ensures
            final(self)@.wf(),
            final(self)@.names == old(self)@.names,
            final(self)@.depends == old(self)@.depends,
            final(self)@.finished == old(self)@.finished,
            old(self)@.moves_to(final(self)@),
            forall|i: int|
                old(self)@.valid_node(i) ==> #[trigger] final(self)@.status[i] == if old(
                    self,
                )@.startable(i) {
                    Status::Running
                } else {
                    old(self)@.status[i]
                },
            r is Wait <==> final(self)@.any_running(),
            r is Done <==> final(self)@.all_finished(),
            r is Stuck <==> !final(self)@.any_running() && final(self)@.any_pending(),
            r matches Decision::Wait(l) ==> {
                &&& forall|m: int, n: int| 0 <= m < n < l@.len() ==> l@[m] < l@[n]
                &&& forall|i: usize| #[trigger] old(self)@.startable(i as int) <==> l@.contains(i)
            },
    {
        let ghost pre = self@;
        let mut launched: Vec<usize> = Vec::new();
        let mut i: usize = 0;
        while i < self.names.len()
            invariant
                pre == old(self)@,
                self@.wf(),
                self@.names == pre.names,
                self@.depends == pre.depends,
                self@.finished == pre.finished,
                i <= self@.len(),
                forall|j: int|
                    0 <= j < i ==> #[trigger] self@.status[j] == if pre.startable(j) {
                        Status::Running
                    } else {
                        pre.status[j]
                    },
                forall|j: int| i <= j < self@.len() ==> #[trigger] self@.status[j] == pre.status[j],
                forall|m: int, n: int| 0 <= m < n < launched@.len() ==> launched@[m] < launched@[n],
                forall|m: int|
                    0 <= m < launched@.len() ==> launched@[m] < i && pre.startable(
                        #[trigger] launched@[m] as int,
                    ),
                forall|j: usize| j < i && #[trigger] pre.startable(j as int) ==> launched@.contains(j),
            decreases self@.len() - i,
        {
            assert(self@.ready(i as int) == pre.ready(i as int));
            if self.status[i] == Status::Pending && self.is_ready(i) {
                let ghost prior = self@;
                self.status[i] = Status::Running;
                proof {
                    let post = self@;
                    assert forall|p: int| 0 <= p < post.finished.len() implies post.status[#[trigger] post.finished[p] as int] == Status::Finished by {
                        assert(prior.status[prior.finished[p] as int] == Status::Finished);
                    }
                    assert forall|j: int| post.valid_node(j) && #[trigger] post.status[j] == Status::Running implies post.ready(j) by {
                        if j != i {
                            assert(prior.status[j] == Status::Running);
                        }
                    }
                }
                let ghost prev = launched@;
                launched.push(i);
                assert(launched@ == prev.push(i));
                assert forall|j: usize| j < i + 1 && #[trigger] pre.startable(j as int) implies launched@.contains(j) by {
                    if j < i {
                        let m = choose|m: int| 0 <= m < prev.len() && prev[m] == j;
                        assert(launched@[m] == j);
                    } else {
                        assert(launched@[prev.len() as int] == j);
                    }
                }
            }
            i = i + 1;
        }
        assert forall|j: usize| #[trigger] pre.startable(j as int) <==> launched@.contains(j) by {
            if launched@.contains(j) {
                let m = choose|m: int| 0 <= m < launched@.len() && launched@[m] == j;
                assert(pre.startable(launched@[m] as int));
            }
        }
        let mut running = false;
        let mut pending = false;
        let mut j: usize = 0;
        while j < self.status.len()
            invariant
                self@.wf(),
                j <= self@.len(),
                running <==> exists|m: int| 0 <= m < j && self@.status[m] == Status::Running,
                pending <==> exists|m: int| 0 <= m < j && self@.status[m] == Status::Pending,
            decreases self@.len() - j,
        {
            if self.status[j] == Status::Running {
                running = true;
            } else if self.status[j] == Status::Pending {
                pending = true;
            }
            j = j + 1;
        }
        if running {
            proof {
                let m = choose|m: int| 0 <= m < j && self@.status[m] == Status::Running;
                assert(self@.valid_node(m));
            }
            Decision::Wait(launched)
        } else if pending {
            proof {
                let m = choose|m: int| 0 <= m < j && self@.status[m] == Status::Pending;
                assert(self@.valid_node(m));
            }
            assert(!self@.any_running()) by {
                if self@.any_running() {
                    let n = choose|n: int| self@.valid_node(n) && self@.status[n] == Status::Running;
                    assert(0 <= n < j);
                }
            }
            Decision::Stuck
        } else {
            assert(!self@.any_running()) by {
                if self@.any_running() {
                    let n = choose|n: int| self@.valid_node(n) && self@.status[n] == Status::Running;
                    assert(0 <= n < j);
                }
            }
            assert(!self@.any_pending()) by {
                if self@.any_pending() {
                    let n = choose|n: int| self@.valid_node(n) && self@.status[n] == Status::Pending;
                    assert(0 <= n < j);
                }
            }
            assert forall|m: int| self@.valid_node(m) implies self@.status[m] == Status::Finished by {
                assert(self@.status[m] != Status::Failed);
            }
            Decision::Done
        }
    }

    /// Records that running node `i` completed successfully.
    pub fn complete(&mut self, i: usize)
        requires
            old(self)@.wf(),
            i < old(self)@.len(),
            old(self)@.status[i as int] == Status::Running,
        ensures
            final(self)@.wf(),
            final(self)@.names == old(self)@.names,
            final(self)@.depends == old(self)@.depends,
            final(self)@.status == old(self)@.status.update(i as int, Status::Finished),
            final(self)@.finished == old(self)@.finished.push(i),
            old(self)@.moves_to(final(self)@),
    {
        let ghost pre = self@;
        self.status[i] = Status::Finished;
        self.finished.push(i);
        let ghost post = self@;
        assert(post.finished == pre.finished.push(i));
        assert forall|j: int| post.valid_node(j) && #[trigger] post.status[j] == Status::Finished implies post.finished.contains(j as usize) by {
            if j != i {
                let q = choose|q: int| 0 <= q < pre.finished.len() && pre.finished[q] == j as usize;
                assert(post.finished[q] == j as usize);
            } else {
                assert(post.finished[pre.finished.len() as int] == i);
            }
        }
        assert forall|p: int, k: int|
            0 <= p < post.finished.len() && 0 <= k < post.depends[post.finished[p] as int].len()
                implies post.done_before(
                #[trigger] post.depends[#[trigger] post.finished[p] as int][k],
                p,
            ) by {
            let d = post.depends[post.finished[p] as int][k];
            if p < pre.finished.len() {
                assert(pre.finished[p] == post.finished[p]);
                assert(pre.done_before(pre.depends[pre.finished[p] as int][k], p));
                let q = choose|q: int| 0 <= q < p && #[trigger] pre.names[pre.finished[q] as int] == d;
                assert(post.names[post.finished[q] as int] == d);
            } else {
                assert(pre.ready(i as int));
                assert(pre.done(pre.depends[i as int][k]));
                let q = choose|q: int| 0 <= q < pre.finished.len() && #[trigger] pre.names[pre.finished[q] as int] == d;
                assert(post.names[post.finished[q] as int] == d);
            }
        }
        assert forall|j: int| post.valid_node(j) && #[trigger] post.status[j] == Status::Running implies post.ready(j) by {
            assert(pre.ready(j));
            assert forall|k: int| 0 <= k < post.depends[j].len() implies post.done(#[trigger] post.depends[j][k]) by {
                let d = pre.depends[j][k];
                assert(pre.done(d));
                let q = choose|q: int| 0 <= q < pre.finished.len() && #[trigger] pre.names[pre.finished[q] as int] == d;
                assert(post.names[post.finished[q] as int] == d);
            }
        }
        assert forall|p: int, q: int|
            0 <= p < q < post.finished.len() implies #[trigger] post.finished[p]
                != #[trigger] post.finished[q] by {
            if q == pre.finished.len() {
                assert(pre.status[pre.finished[p] as int] == Status::Finished);
            }
        }

    }
}


/// In a collection without cycles whose dependencies all name nodes of it,
/// whenever nothing is running and some node is pending, some pending node can
/// start: `advance` never reports `Stuck` there.
pub proof fn lemma_acyclic_never_stuck(s: ScheduleView, rank: Seq<nat>)
    requires
        s.wf(),
        s.satisfiable(),
        s.ranked_by(rank),
        !s.any_running(),
        s.any_pending(),
    ensures
        exists|i: int| s.startable(i),
{
    let i = choose|i: int| s.valid_node(i) && s.status[i] == Status::Pending;
    lemma_pending_leads_to_startable(s, rank, i);
}

proof fn lemma_pending_leads_to_startable(s: ScheduleView, rank: Seq<nat>, i: int)
    requires
        s.wf(),
        s.satisfiable(),
        s.ranked_by(rank),
        !s.any_running(),
        s.valid_node(i),
        s.status[i] == Status::Pending,
    ensures
        exists|j: int| s.startable(j),
    decreases rank[i],
{
    if s.ready(i) {
        assert(s.startable(i));
    } else {
        let k = choose|k: int| 0 <= k < s.depends[i].len() && !s.done(#[trigger] s.depends[i][k]);
        let d = s.depends[i][k];
        assert(s.names.contains(d));
        let j = choose|j: int| 0 <= j < s.names.len() && s.names[j] == d;
        assert(rank[j] < rank[i]);
        if s.status[j] == Status::Finished {
            assert(s.finished.contains(j as usize));
            let q = choose|q: int| 0 <= q < s.finished.len() && s.finished[q] == j as usize;
            assert(s.names[s.finished[q] as int] == d);
        }
        if s.status[j] == Status::Running {
            assert(s.any_running());
        }
        assert(s.status[j] != Status::Failed);
        lemma_pending_leads_to_startable(s, rank, j);
    }
}

/// Once every node has finished, the completion order holds every node once,
/// and each node comes after every node that one of its dependencies names.
pub proof fn lemma_finished_in_dependency_order(s: ScheduleView)
    requires
        s.wf(),
        s.all_finished(),
    ensures
        forall|i: int| s.valid_node(i) ==> s.finished.contains(i as usize),
        forall|p: int, q: int|
            0 <= p < q < s.finished.len() ==> #[trigger] s.finished[p] != #[trigger] s.finished[q],
        forall|p: int, k: int|
            0 <= p < s.finished.len() && 0 <= k < s.depends[s.finished[p] as int].len()
                ==> s.done_before(#[trigger] s.depends[#[trigger] s.finished[p] as int][k], p),
{
    assert forall|i: int| s.valid_node(i) implies s.finished.contains(i as usize) by {
        assert(s.status[i] == Status::Finished);
    }
}

/// The completion order never holds more entries than there are nodes.
/// Since `complete` appends one entry and, while anything runs, `advance`
/// reports `Wait`, a run whose nodes all succeed reaches `Done` after at most
/// one completion per node, unless it gets stuck first.
pub proof fn lemma_finished_bounded(s: ScheduleView)
    requires
        s.wf(),
    ensures
        s.finished.len() <= s.len(),
{
    let f = s.finished.map_values(|x: usize| x as int);
    assert forall|a: int, b: int| 0 <= a < f.len() && 0 <= b < f.len() && a != b implies f[a] != f[b] by {
        if a < b {
            assert(s.finished[a] != s.finished[b]);
        } else {
            assert(s.finished[b] != s.finished[a]);
        }
    }
    assert(f.no_duplicates());
    f.unique_seq_to_set();
    lemma_int_range(0, s.len());
    assert forall|x: int| f.to_set().contains(x) implies set_int_range(0, s.len()).contains(x) by {
        let p = choose|p: int| 0 <= p < f.len() && f[p] == x;
        assert(s.valid_node(s.finished[p] as int));
    }
    lemma_len_subset(f.to_set(), set_int_range(0, s.len()));
}

/// Along any sequence of schedule states in which each state moves to the
/// next, the status of no node ever goes back.
pub proof fn lemma_status_never_regresses(t: Seq<ScheduleView>, a: int, b: int, i: int)
    requires
        0 <= a <= b < t.len(),
        forall|m: int| 0 <= m < t.len() - 1 ==> (#[trigger] t[m]).moves_to(t[m + 1]),
        t[a].valid_node(i),
    ensures
        t[a].status[i].rank() <= t[b].status[i].rank(),
        t[b].valid_node(i),
    decreases b - a,
{
    if a < b {
        lemma_status_never_regresses(t, a, b - 1, i);
        assert(t[b - 1].moves_to(t[b]));
        assert(t[b - 1].status[i].may_become(t[b].status[i]));
    }
}

proof fn lemma_position(s: ScheduleView, x: int)
    requires
        s.wf(),
        s.valid_node(x),
        s.status[x] == Status::Finished,
    ensures
        0 <= s.position(x) < s.finished.len(),
        s.finished[s.position(x)] as int == x,
        forall|q: int| 0 <= q < s.finished.len() && s.finished[q] as int == x ==> q == s.position(x),
{
    assert(s.finished.contains(x as usize));
    let q0 = choose|q: int| 0 <= q < s.finished.len() && s.finished[q] == x as usize;
    assert(s.finished[q0] as int == x);
    let p = s.position(x);
    assert forall|q: int| 0 <= q < s.finished.len() && s.finished[q] as int == x implies q == p by {
        if q < p {
            assert(s.finished[q] != s.finished[p]);
        } else if p < q {
            assert(s.finished[p] != s.finished[q]);
        }
    }
}

/// A node that has started depends only on finished nodes, and a finished
/// node only on nodes that finished before it.
proof fn lemma_dependency_finished(s: ScheduleView, a: int, b: int)
    requires
        s.wf(),
        s.unique_names(),
        s.valid_node(a),
        s.valid_node(b),
        s.status[a] != Status::Pending,
        s.depends[a].contains(s.names[b]),
    ensures
        s.status[b] == Status::Finished,
        s.finished.contains(b as usize),
        s.finished[s.position(b)] == b as usize,
        0 <= s.position(b) < s.finished.len(),
        s.status[a] == Status::Finished ==> {
            &&& s.finished.contains(a as usize)
            &&& s.finished[s.position(a)] == a as usize
            &&& s.position(b) < s.position(a)
        },
{
    let k = choose|k: int| 0 <= k < s.depends[a].len() && s.depends[a][k] == s.names[b];
    if s.status[a] == Status::Running {
        assert(s.ready(a));
        assert(s.done(s.depends[a][k]));
        let q = choose|q: int|
            0 <= q < s.finished.len() && #[trigger] s.names[s.finished[q] as int] == s.names[b];
        assert(s.valid_node(s.finished[q] as int));
        assert(s.finished[q] as int == b);
        lemma_position(s, b);
    } else {
        assert(s.status[a] == Status::Finished);
        lemma_position(s, a);
        let p = s.position(a);
        assert(s.done_before(s.depends[s.finished[p] as int][k], p));
        let q = choose|q: int| 0 <= q < p && #[trigger] s.names[s.finished[q] as int] == s.names[b];
        assert(s.valid_node(s.finished[q] as int));
        assert(s.finished[q] as int == b);
        lemma_position(s, b);
    }
    assert(s.finished[s.position(b)] == b as usize);
}

proof fn lemma_cycle_forward(s: ScheduleView, c: Seq<int>, m0: int)
    requires
        s.wf(),
        s.unique_names(),
        s.is_cycle(c),
        0 <= m0 < c.len(),
        s.status[c[m0]] != Status::Pending,
    ensures
        forall|m: int| m0 < m < c.len() ==> s.status[#[trigger] c[m]] == Status::Finished,
    decreases c.len() - m0,
{
    if m0 + 1 < c.len() {
        assert(s.valid_node(c[m0]) && s.valid_node(c[m0 + 1]));
        lemma_dependency_finished(s, c[m0], c[m0 + 1]);
        lemma_cycle_forward(s, c, m0 + 1);
    }
}

proof fn lemma_cycle_descends(s: ScheduleView, c: Seq<int>, m: int)
    requires
        s.wf(),
        s.unique_names(),
        s.is_cycle(c),
        0 <= m < c.len(),
        forall|n: int| 0 <= n < c.len() ==> s.status[#[trigger] c[n]] == Status::Finished,
    ensures
        s.position(c[m]) <= s.position(c[0]) - m,
    decreases m,
{
    if m > 0 {
        lemma_cycle_descends(s, c, m - 1);
        assert(s.valid_node(c[m - 1]) && s.valid_node(c[m]));
        lemma_dependency_finished(s, c[m - 1], c[m]);
    }
}

/// When names are unique, no node on a dependency cycle ever starts: in
/// every state the schedule can reach, each of them is still pending, so the
/// schedule never has every node finished and `advance` never reports `Done`.
pub proof fn lemma_cycle_never_starts(s: ScheduleView, c: Seq<int>)
    requires
        s.wf(),
        s.unique_names(),
        s.is_cycle(c),
    ensures
        forall|m: int| 0 <= m < c.len() ==> s.status[#[trigger] c[m]] == Status::Pending,
        !s.all_finished(),
{
    assert forall|m0: int| 0 <= m0 < c.len() implies s.status[#[trigger] c[m0]] == Status::Pending by {
        if s.status[c[m0]] != Status::Pending {
            let last = c.len() - 1;
            lemma_cycle_forward(s, c, m0);
            assert(s.status[c[last]] != Status::Pending);
            assert(s.valid_node(c[last]) && s.valid_node(c[0]));
            lemma_dependency_finished(s, c[last], c[0]);
            lemma_cycle_forward(s, c, 0);
            assert forall|n: int| 0 <= n < c.len() implies s.status[#[trigger] c[n]] == Status::Finished by {
                if n > 0 {
                    assert(s.status[c[n]] == Status::Finished);
                }
            }
            lemma_cycle_descends(s, c, last);
            lemma_dependency_finished(s, c[last], c[0]);
        }
    }
    assert(s.status[c[0]] == Status::Pending);
    assert(s.valid_node(c[0]));
}

} // verus!
