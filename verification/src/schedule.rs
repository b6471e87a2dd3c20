//! The stage scheduler: named stages, each with a declared list of
//! prerequisite stage names, forming a dependency graph that must be
//! acyclic. Planning resolves the names, rejects duplicate and unknown
//! names and cycles, and produces an execution order in which every stage
//! runs exactly once, never before one of its prerequisites.

use vstd::prelude::*;

verus! {

/// One registered stage: its name and the names of the stages that must
/// complete earlier in the same tick.
struct StageDecl {
    name: String,
    prereqs: Vec<String>,
}

/// Why scheduler construction was rejected.
#[derive(Clone, Copy, PartialEq, Eq, Structural, Debug)]
pub enum GraphError {
    /// Two registered stages share a name.
    DuplicateName,
    /// A prerequisite list names a stage that was never registered.
    UnknownName,
    /// The prerequisite edges admit no completion order.
    Cycle,
}

/// `u` is placed strictly before `v` in `order`: in sequential execution,
/// stage `u` finishes before stage `v` begins.
pub open spec fn comes_before(order: Seq<usize>, u: usize, v: usize) -> bool {
    exists|i: int, j: int| 0 <= i < j < order.len() && order[i] == u && order[j] == v
}

/// A registry of named stages with declared prerequisites and a fixed
/// worker-pool size. Registration never fails; `plan` validates the graph
/// and yields the execution order.
pub struct SystemScheduler {
    workers: usize,
    stages: Vec<StageDecl>,
}

impl SystemScheduler {
    /// How many stages are registered.
    pub closed spec fn num_stages(&self) -> nat {
        self.stages@.len()
    }

    /// The name of stage `v`, as a sequence of characters.
    pub closed spec fn stage_name(&self, v: int) -> Seq<char> {
        self.stages@[v].name@
    }

    /// The declared prerequisite names of stage `v`.
    pub closed spec fn stage_prereqs(&self, v: int) -> Seq<Seq<char>> {
        self.stages@[v].prereqs@.map(|k: int, s: String| s@)
    }

    /// The configured worker-pool size.
    pub closed spec fn workers(&self) -> nat {
        self.workers as nat
    }

    /// Two registered stages share a name.
    pub open spec fn has_duplicate_names(&self) -> bool {
        exists|i: int, j: int|
            0 <= i < j < self.num_stages() && self.stage_name(i) == self.stage_name(j)
    }

    /// The `k`-th prerequisite of stage `v` names some registered stage.
    pub open spec fn resolves_at(&self, v: int, k: int) -> bool {
        exists|u: int|
            0 <= u < self.num_stages() && self.stage_name(u) == self.stage_prereqs(v)[k]
    }

    /// Every declared prerequisite names some registered stage.
    pub open spec fn resolves(&self) -> bool {
        forall|v: int, k: int|
            0 <= v < self.num_stages() && 0 <= k < self.stage_prereqs(v).len()
                ==> #[trigger] self.resolves_at(v, k)
    }

    /// Dependency edge `u -> v`: stage `v` lists stage `u`'s name as a
    /// prerequisite, so `u` must complete before `v` begins.
    pub open spec fn edge(&self, u: int, v: int) -> bool {
        &&& 0 <= u < self.num_stages()
        &&& 0 <= v < self.num_stages()
        &&& self.stage_prereqs(v).contains(self.stage_name(u))
    }

    /// `order` runs every registered stage exactly once and runs no stage
    /// before a stage it depends on.
    pub open spec fn is_valid_order(&self, order: Seq<usize>) -> bool {
        &&& order.len() == self.num_stages()
        &&& forall|k: int| 0 <= k < order.len() ==> (#[trigger] order[k] as nat) < self.num_stages()
        &&& order.no_duplicates()
        &&& forall|v: usize| (v as nat) < self.num_stages() ==> order.contains(v)
        &&& forall|u: usize, v: usize|
            #[trigger] self.edge(u as int, v as int) ==> comes_before(order, u, v)
    }

    pub fn new(workers: usize) -> (r: Self)
        ensures
            r.num_stages() == 0,
            r.workers() == workers,
    {
        SystemScheduler { workers, stages: Vec::new() }
    }

    /// The configured worker-pool size.
    pub fn worker_count(&self) -> (r: usize)
        ensures
            r as nat == self.workers(),
    {
        self.workers
    }

    /// The number of registered stages.
    pub fn stage_count(&self) -> (r: usize)
        ensures
            r as nat == self.num_stages(),
    {
        self.stages.len()
    }

    /// Registers a stage. Prerequisites may name stages registered earlier
    /// or later; the graph is validated as a whole by `plan`.
    pub fn add(&mut self, name: String, prereqs: Vec<String>)
        ensures
            final(self).num_stages() == old(self).num_stages() + 1,
            final(self).workers() == old(self).workers(),
            forall|v: int|
                0 <= v < old(self).num_stages() ==> final(self).stage_name(v) == old(
                    self,
                ).stage_name(v) && final(self).stage_prereqs(v) == old(self).stage_prereqs(v),
            final(self).stage_name(old(self).num_stages() as int) == name@,
            final(self).stage_prereqs(old(self).num_stages() as int) == prereqs@.map(
                |k: int, s: String| s@,
            ),
    {
        self.stages.push(StageDecl { name, prereqs });
    }
}

/// How many entries of `s` are `false`.
spec fn count_false(s: Seq<bool>) -> nat
    decreases s.len(),
{
    if s.len() == 0 {
        0
    } else {
        count_false(s.drop_last()) + if s.last() {
            0nat
        } else {
            1nat
        }
    }
}

proof fn lemma_count_false_update(s: Seq<bool>, i: int)
    requires
        0 <= i < s.len(),
        !s[i],
    ensures
        count_false(s.update(i, true)) + 1 == count_false(s),
    decreases s.len(),
{
    if i == s.len() - 1 {
        assert(s.update(i, true).drop_last() =~= s.drop_last());
    } else {
        assert(s.update(i, true).drop_last() =~= s.drop_last().update(i, true));
        lemma_count_false_update(s.drop_last(), i);
    }
}

proof fn lemma_count_false_zero(s: Seq<bool>)
    requires
        count_false(s) == 0,
    ensures
        forall|i: int| 0 <= i < s.len() ==> s[i],
    decreases s.len(),
{
    if s.len() > 0 {
        lemma_count_false_zero(s.drop_last());
        assert forall|i: int| 0 <= i < s.len() implies s[i] by {
            if i < s.len() - 1 {
                assert(s.drop_last()[i]);
            } else {
                assert(s.last());
            }
        }
    }
}

proof fn lemma_count_false_pos(s: Seq<bool>)
    requires
        count_false(s) > 0,
    ensures
        exists|i: int| 0 <= i < s.len() && !s[i],
    decreases s.len(),
{
    if s.last() {
        lemma_count_false_pos(s.drop_last());
        let i = choose|i: int| 0 <= i < s.drop_last().len() && !s.drop_last()[i];
        assert(!s[i]);
    } else {
        assert(!s[s.len() - 1]);
    }
}

/// Among the indices satisfying `q` there is a least one, provided any does.
proof fn lemma_exists_least(q: spec_fn(int) -> bool, j: int)
    requires
        0 <= j,
        q(j),
    ensures
        exists|i: int|
            {
                &&& 0 <= i <= j
                &&& #[trigger] q(i)
                &&& forall|k: int| 0 <= k < i ==> !#[trigger] q(k)
            },
    decreases j,
{
    if exists|k: int| 0 <= k < j && #[trigger] q(k) {
        let k = choose|k: int| 0 <= k < j && #[trigger] q(k);
        lemma_exists_least(q, k);
    } else {
        assert(0 <= j <= j && q(j) && forall|k: int| 0 <= k < j ==> !#[trigger] q(k));
    }
}

impl SystemScheduler {
    /// A dependency cycle: a nonempty chain of stages, each with an edge to
    /// the next, whose last stage has an edge back to the first.
    pub open spec fn is_cycle(&self, c: Seq<usize>) -> bool {
        &&& c.len() >= 1
        &&& forall|i: int| 0 <= i < c.len() - 1 ==> self.edge(#[trigger] c[i] as int, c[i + 1] as int)
        &&& self.edge(c.last() as int, c[0] as int)
    }

    proof fn lemma_chain_comes_before(&self, c: Seq<usize>, o: Seq<usize>, k: int)
        requires
            self.is_valid_order(o),
            1 <= k < c.len(),
            forall|i: int|
                0 <= i < c.len() - 1 ==> self.edge(#[trigger] c[i] as int, c[i + 1] as int),
        ensures
            comes_before(o, c[0], c[k]),
        decreases k,
    {
        if k == 1 {
            assert(self.edge(c[0] as int, c[1] as int));
        } else {
            self.lemma_chain_comes_before(c, o, k - 1);
            assert(self.edge(c[k - 1] as int, c[k] as int));
            lemma_comes_before_trans(o, c[0], c[k - 1], c[k]);
        }
    }

    /// A graph with a dependency cycle admits no valid execution order:
    /// every stage of the cycle would have to run strictly before itself.
    pub proof fn lemma_cycle_has_no_order(&self, c: Seq<usize>)
        requires
            self.is_cycle(c),
        ensures
            forall|o: Seq<usize>| !self.is_valid_order(o),
    {
        assert forall|o: Seq<usize>| !self.is_valid_order(o) by {
            if self.is_valid_order(o) {
                if c.len() == 1 {
                    assert(self.edge(c[0] as int, c[0] as int));
                    assert(comes_before(o, c[0], c[0]));
                } else {
                    self.lemma_chain_comes_before(c, o, c.len() - 1);
                    assert(self.edge(c.last() as int, c[0] as int));
                    assert(comes_before(o, c.last(), c[0]));
                    lemma_comes_before_trans(o, c[0], c.last(), c[0]);
                }
                let (i, j) = choose|i: int, j: int|
                    0 <= i < j < o.len() && o[i] == c[0] && o[j] == c[0];
                assert(o[i] == o[j]);
                assert(false);
            }
        }
    }
}

proof fn lemma_comes_before_trans(o: Seq<usize>, a: usize, b: usize, c: usize)
    requires
        o.no_duplicates(),
        comes_before(o, a, b),
        comes_before(o, b, c),
    ensures
        comes_before(o, a, c),
{
    let (i1, j1) = choose|i1: int, j1: int|
        0 <= i1 < j1 < o.len() && o[i1] == a && o[j1] == b;
    let (i2, j2) = choose|i2: int, j2: int|
        0 <= i2 < j2 < o.len() && o[i2] == b && o[j2] == c;
    assert(j1 == i2);
    assert(0 <= i1 < j2 < o.len() && o[i1] == a && o[j2] == c);
}

/// Well-formed resolved prerequisite rows: every listed index is a stage.
spec fn pre_wf(p: Seq<Vec<usize>>) -> bool {
    forall|v: int, k: int|
        0 <= v < p.len() && 0 <= k < p[v]@.len() ==> (#[trigger] p[v]@[k] as int) < p.len()
}

/// `order` is a run of the index-resolved graph `p`: every stage exactly
/// once, and each stage after every stage its row lists.
spec fn pre_valid_order(p: Seq<Vec<usize>>, order: Seq<usize>) -> bool {
    &&& order.len() == p.len()
    &&& forall|k: int| 0 <= k < order.len() ==> (#[trigger] order[k] as int) < p.len()
    &&& order.no_duplicates()
    &&& forall|v: usize| (v as int) < p.len() ==> order.contains(v)
    &&& forall|u: usize, v: usize|
        (v as int) < p.len() && #[trigger] p[v as int]@.contains(u) ==> comes_before(order, u, v)
}

/// Repeatedly runs every stage whose prerequisites have all run, until no
/// stage is left or none is eligible. Succeeds exactly when the graph
/// admits a valid order.
fn toposort(pre: &Vec<Vec<usize>>) -> (r: Option<Vec<usize>>)
    requires
        pre_wf(pre@),
    ensures
        match r {
            Some(o) => pre_valid_order(pre@, o@),
            None => !exists|o: Seq<usize>| pre_valid_order(pre@, o),
        },
{
    let n = pre.len();
    let mut done: Vec<bool> = Vec::new();
    while done.len() < n
        invariant
            done@.len() <= n,
            count_false(done@) == done@.len(),
            forall|i: int| 0 <= i < done@.len() ==> !(#[trigger] done@[i]),
        decreases n - done@.len(),
    {
        proof {
            assert(done@.push(false).drop_last() =~= done@);
        }
        done.push(false);
    }
    let mut order: Vec<usize> = Vec::new();
    let mut progress = true;
    while progress
        invariant
            n == pre@.len(),
            pre_wf(pre@),
            done@.len() == n,
            order@.len() <= n,
            count_false(done@) + order@.len() == n,
            forall|k: int| 0 <= k < order@.len() ==> (#[trigger] order@[k] as int) < n,
            order@.no_duplicates(),
            forall|vv: usize| (vv as int) < n ==> (done@[vv as int] <==> #[trigger] order@.contains(vv)),
            forall|j: int, u: usize|
                0 <= j < order@.len() && #[trigger] pre@[order@[j] as int]@.contains(u)
                    ==> exists|i: int| 0 <= i < j && order@[i] == u,
            !progress ==> forall|vv: int|
                0 <= vv < n && !(#[trigger] done@[vv]) ==> exists|k: int|
                    0 <= k < pre@[vv]@.len() && !done@[pre@[vv]@[k] as int],
        decreases n - order@.len() + if progress {
            1int
        } else {
            0int
        },
    {
        progress = false;
        let ghost done0 = done@;
        let ghost order0 = order@;
        let mut v: usize = 0;
        while v < n
            invariant
                n == pre@.len(),
                pre_wf(pre@),
                done@.len() == n,
                v <= n,
                order@.len() <= n,
                order0.len() <= order@.len(),
                progress ==> order@.len() > order0.len(),
                count_false(done@) + order@.len() == n,
                forall|k: int| 0 <= k < order@.len() ==> (#[trigger] order@[k] as int) < n,
                order@.no_duplicates(),
                forall|vv: usize| (vv as int) < n ==> (done@[vv as int] <==> #[trigger] order@.contains(vv)),
                forall|j: int, u: usize|
                    0 <= j < order@.len() && #[trigger] pre@[order@[j] as int]@.contains(u)
                        ==> exists|i: int| 0 <= i < j && order@[i] == u,
                !progress ==> done@ == done0,
                !progress ==> forall|vv: int|
                    0 <= vv < v && !(#[trigger] done@[vv]) ==> exists|k: int|
                        0 <= k < pre@[vv]@.len() && !done@[pre@[vv]@[k] as int],
            decreases n - v,
        {
            if !done[v] {
                let row = &pre[v];
                let mut all = true;
                let mut k: usize = 0;
                while k < row.len()
                    invariant
                        n == pre@.len(),
                        pre_wf(pre@),
                        done@.len() == n,
                        (v as int) < n,
                        row@ == pre@[v as int]@,
                        k <= row@.len(),
                        all <==> (forall|k2: int|
                            0 <= k2 < k ==> done@[(#[trigger] row@[k2]) as int]),
                    decreases row@.len() - k,
                {
                    let u = row[k];
                    proof {
                        assert((pre@[v as int]@[k as int] as int) < n);
                    }
                    if !done[u] {
                        all = false;
                    }
                    k = k + 1;
                }
                if all {
                    proof {
                        lemma_count_false_update(done@, v as int);
                        assert(!order@.contains(v));
                    }
                    let ghost order_before = order@;
                    let ghost done_before = done@;
                    done.set(v, true);
                    order.push(v);
                    progress = true;
                    proof {
                        assert forall|vv: usize| (vv as int) < n implies (done@[vv as int]
                            <==> #[trigger] order@.contains(vv)) by {
                            if vv == v {
                                assert(order@[order_before.len() as int] == v);
                            } else {
                                assert(order@.contains(vv) <==> order_before.contains(vv)) by {
                                    if order_before.contains(vv) {
                                        let i = choose|i: int|
                                            0 <= i < order_before.len() && order_before[i] == vv;
                                        assert(order@[i] == vv);
                                    }
                                    if order@.contains(vv) {
                                        let i = choose|i: int|
                                            0 <= i < order@.len() && order@[i] == vv;
                                        assert(0 <= i < order_before.len());
                                        assert(order_before[i] == vv);
                                    }
                                }
                            }
                        }
                        assert forall|j: int, u: usize|
                            0 <= j < order@.len() && #[trigger] pre@[order@[j] as int]@.contains(
                            u) implies exists|i: int| 0 <= i < j && order@[i] == u by {
                            if j < order_before.len() {
                                assert(order@[j] == order_before[j]);
                                assert(pre@[order_before[j] as int]@.contains(u));
                                let i = choose|i: int| 0 <= i < j && order_before[i] == u;
                                assert(order@[i] == u);
                            } else {
                                assert(order@[j] == v);
                                let k2 = choose|k2: int|
                                    0 <= k2 < pre@[v as int]@.len() && pre@[v as int]@[k2] == u;
                                assert(done_before[(pre@[v as int]@[k2] as int)]);
                                assert(done_before[u as int]);
                                assert(u != v);
                                assert(order_before.contains(u));
                                let i = choose|i: int|
                                    0 <= i < order_before.len() && order_before[i] == u;
                                assert(order@[i] == u);
                            }
                        }
                    }
                }
            }
            v = v + 1;
        }
    }
    if order.len() == n {
        proof {
            lemma_count_false_zero(done@);
            assert forall|vv: usize| (vv as int) < pre@.len() implies order@.contains(vv) by {
                assert(done@[vv as int]);
            }
            assert forall|u: usize, vv: usize|
                (vv as int) < pre@.len() && #[trigger] pre@[vv as int]@.contains(
                u) implies comes_before(order@, u, vv) by {
                assert(done@[vv as int]);
                assert(order@.contains(vv));
                let j = choose|j: int| 0 <= j < order@.len() && order@[j] == vv;
                assert(order@[j] == vv);
                assert(pre@[order@[j] as int]@.contains(u));
                let i = choose|i: int| 0 <= i < j && order@[i] == u;
                assert(0 <= i < j < order@.len() && order@[i] == u && order@[j] == vv);
            }
        }
        Some(order)
    } else {
        proof {
            assert(!exists|o: Seq<usize>| pre_valid_order(pre@, o)) by {
                if exists|o: Seq<usize>| pre_valid_order(pre@, o) {
                    let o = choose|o: Seq<usize>| pre_valid_order(pre@, o);
                    lemma_count_false_pos(done@);
                    let w = choose|i: int| 0 <= i < done@.len() && !done@[i];
                    assert(o.contains(w as usize));
                    let jw = choose|j: int| 0 <= j < o.len() && o[j] == (w as usize);
                    let q = |j: int| 0 <= j < o.len() && !done@[o[j] as int];
                    assert(q(jw));
                    lemma_exists_least(q, jw);
                    let i0 = choose|i: int|
                        {
                            &&& 0 <= i <= jw
                            &&& #[trigger] q(i)
                            &&& forall|k2: int| 0 <= k2 < i ==> !#[trigger] q(k2)
                        };
                    let vx = o[i0];
                    assert(!done@[vx as int]);
                    assert((vx as int) < n);
                    let k = choose|k: int|
                        0 <= k < pre@[vx as int]@.len() && !done@[pre@[vx as int]@[k] as int];
                    let u = pre@[vx as int]@[k];
                    assert(pre@[vx as int]@.contains(u));
                    assert(comes_before(o, u, vx));
                    let (a, b) = choose|a: int, b: int|
                        0 <= a < b < o.len() && o[a] == u && o[b] == vx;
                    assert(b == i0);
                    assert(q(a));
                    assert(false);
                }
            }
        }
        None
    }
}

impl SystemScheduler {
    /// Under the facts established by name resolution, the resolved rows
    /// carry exactly the declared edges, so the two order predicates agree.
    proof fn lemma_orders_agree(&self, p: Seq<Vec<usize>>)
        requires
            p.len() == self.num_stages(),
            forall|a: int| 0 <= a < p.len() ==> (#[trigger] p[a]@).len() == self.stage_prereqs(a).len(),
            forall|a: int, k: int|
                0 <= a < p.len() && 0 <= k < p[a]@.len() ==> (#[trigger] p[a]@[k] as int) < p.len()
                    && self.stage_name(p[a]@[k] as int) == self.stage_prereqs(a)[k],
            !self.has_duplicate_names(),
        ensures
            forall|o: Seq<usize>|
                #![trigger self.is_valid_order(o)]
                #![trigger pre_valid_order(p, o)]
                self.is_valid_order(o) <==> pre_valid_order(p, o),
    {
        assert forall|u: usize, v: usize|
            #![trigger p[v as int]@.contains(u)]
            #![trigger self.edge(u as int, v as int)]
            (v as int) < p.len() implies (p[v as int]@.contains(u) <==> self.edge(
            u as int,
            v as int,
        )) by {
            if p[v as int]@.contains(u) {
                let k = choose|k: int| 0 <= k < p[v as int]@.len() && p[v as int]@[k] == u;
                assert(self.stage_name(u as int) == self.stage_prereqs(v as int)[k]);
                assert(self.stage_prereqs(v as int).contains(self.stage_name(u as int)));
            }
            if self.edge(u as int, v as int) {
                let k = choose|k: int|
                    0 <= k < self.stage_prereqs(v as int).len() && self.stage_prereqs(v as int)[k]
                        == self.stage_name(u as int);
                let u2 = p[v as int]@[k];
                assert(self.stage_name(u2 as int) == self.stage_name(u as int));
                assert(u2 == u) by {
                    if u2 != u {
                        let a = if (u2 as int) < (u as int) {
                            u2 as int
                        } else {
                            u as int
                        };
                        let b = if (u2 as int) < (u as int) {
                            u as int
                        } else {
                            u2 as int
                        };
                        assert(0 <= a < b < self.num_stages() && self.stage_name(a)
                            == self.stage_name(b));
                        assert(false);
                    }
                }
                assert(p[v as int]@[k] == u);
                assert(p[v as int]@.contains(u));
            }
        }
        assert forall|o: Seq<usize>|
            #![trigger self.is_valid_order(o)]
            #![trigger pre_valid_order(p, o)]
            self.is_valid_order(o) <==> pre_valid_order(p, o) by {
            if self.is_valid_order(o) {
                assert forall|u: usize, v: usize|
                    (v as int) < p.len() && #[trigger] p[v as int]@.contains(
                    u) implies comes_before(o, u, v) by {
                    assert(self.edge(u as int, v as int));
                }
                assert(pre_valid_order(p, o));
            }
            if pre_valid_order(p, o) {
                assert forall|u: usize, v: usize| #[trigger]
                    self.edge(u as int, v as int) implies comes_before(o, u, v) by {
                    assert(p[v as int]@.contains(u));
                }
                assert(self.is_valid_order(o));
            }
        }
    }

    /// In any valid execution order every dependency is serialized: if stage
    /// `v` depends on stage `u`, then `u` is placed strictly before `v`, so
    /// `u` finishes before `v` begins.
    pub proof fn lemma_order_serializes_deps(&self, order: Seq<usize>, u: usize, v: usize)
        requires
            self.is_valid_order(order),
            self.edge(u as int, v as int),
        ensures
            comes_before(order, u, v),
    {
    }

    /// Validates the registered graph and computes the tick's execution
    /// order. Fails, rather than hanging or running stages out of order,
    /// exactly when two stages share a name, a prerequisite names no
    /// registered stage, or the dependency edges form a cycle (equivalently:
    /// admit no valid order).
    pub fn plan(&self) -> (r: Result<Vec<usize>, GraphError>)
        ensures
            r is Ok ==> self.is_valid_order(r->Ok_0@),
            (r is Err && r->Err_0 == GraphError::DuplicateName) <==> self.has_duplicate_names(),
            !self.has_duplicate_names() ==> ((r is Err && r->Err_0 == GraphError::UnknownName)
                <==> !self.resolves()),
            (!self.has_duplicate_names() && self.resolves()) ==> (r is Ok <==> exists|o: Seq<usize>|
                self.is_valid_order(o)),
            (!self.has_duplicate_names() && self.resolves()) ==> ((r is Err && r->Err_0
                == GraphError::Cycle) <==> !(exists|o: Seq<usize>| self.is_valid_order(o))),
    {
        let n = self.stages.len();
        let mut i: usize = 0;
        while i < n
            invariant
                n == self.num_stages(),
                i <= n,
                forall|a: int, b: int|
                    0 <= a < b < n && a < i ==> self.stage_name(a) != self.stage_name(b),
            decreases n - i,
        {
            let mut j: usize = i + 1;
            while j < n
                invariant
                    n == self.num_stages(),
                    (i as int) < n,
                    i < j <= n,
                    forall|a: int, b: int|
                        0 <= a < b < n && a < i ==> self.stage_name(a) != self.stage_name(b),
                    forall|b: int| i < b < j ==> self.stage_name(i as int) != self.stage_name(b),
                decreases n - j,
            {
                if self.stages[i].name == self.stages[j].name {
                    proof {
                        assert((i as int) < (j as int) && (j as int) < self.num_stages()
                            && self.stage_name(i as int) == self.stage_name(j as int));
                    }
                    return Err(GraphError::DuplicateName);
                }
                j = j + 1;
            }
            i = i + 1;
        }
        proof {
            assert(!self.has_duplicate_names());
        }
        let mut pre: Vec<Vec<usize>> = Vec::new();
        let mut v: usize = 0;
        while v < n
            invariant
                n == self.num_stages(),
                v <= n,
                pre@.len() == v,
                forall|a: int|
                    0 <= a < v ==> (#[trigger] pre@[a]@).len() == self.stage_prereqs(a).len(),
                forall|a: int, k: int|
                    0 <= a < v && 0 <= k < pre@[a]@.len() ==> (#[trigger] pre@[a]@[k] as int) < n
                        && self.stage_name(pre@[a]@[k] as int) == self.stage_prereqs(a)[k],
                !self.has_duplicate_names(),
            decreases n - v,
        {
            let prereq_count = self.stages[v].prereqs.len();
            let mut row: Vec<usize> = Vec::new();
            let mut k: usize = 0;
            while k < prereq_count
                invariant
                    n == self.num_stages(),
                    (v as int) < n,
                    prereq_count == self.stage_prereqs(v as int).len(),
                    row@.len() == k,
                    k <= prereq_count,
                    forall|k2: int|
                        0 <= k2 < k ==> (#[trigger] row@[k2] as int) < n && self.stage_name(
                            row@[k2] as int,
                        ) == self.stage_prereqs(v as int)[k2],
                    !self.has_duplicate_names(),
                decreases prereq_count - k,
            {
                let mut u: usize = 0;
                let mut found: bool = false;
                let mut idx: usize = 0;
                while u < n
                    invariant
                        n == self.num_stages(),
                        (v as int) < n,
                        (k as int) < self.stage_prereqs(v as int).len(),
                        u <= n,
                        found ==> (idx as int) < n && self.stage_name(idx as int)
                            == self.stage_prereqs(v as int)[k as int],
                        !found ==> forall|u2: int|
                            0 <= u2 < u ==> self.stage_name(u2) != self.stage_prereqs(
                                v as int,
                            )[k as int],
                    decreases n - u,
                {
                    if !found && self.stages[u].name == self.stages[v].prereqs[k] {
                        found = true;
                        idx = u;
                    }
                    u = u + 1;
                }
                if !found {
                    proof {
                        assert(!self.resolves_at(v as int, k as int)) by {
                            if self.resolves_at(v as int, k as int) {
                                let target = self.stage_prereqs(v as int)[k as int];
                                let u2 = choose|u2: int|
                                    0 <= u2 < self.num_stages() && self.stage_name(u2) == target;
                                assert(self.stage_name(u2) != target);
                            }
                        }
                        assert(!self.resolves());
                    }
                    return Err(GraphError::UnknownName);
                }
                row.push(idx);
                k = k + 1;
            }
            pre.push(row);
            v = v + 1;
        }
        proof {
            assert(self.resolves()) by {
                assert forall|v2: int, k2: int|
                    0 <= v2 < self.num_stages() && 0 <= k2 < self.stage_prereqs(
                        v2,
                    ).len() implies #[trigger] self.resolves_at(v2, k2) by {
                    assert(0 <= k2 < pre@[v2]@.len());
                    let uu = pre@[v2]@[k2] as int;
                    assert(0 <= uu < self.num_stages() && self.stage_name(uu)
                        == self.stage_prereqs(v2)[k2]);
                }
            }
            assert(pre_wf(pre@));
            self.lemma_orders_agree(pre@);
        }
        match toposort(&pre) {
            Some(order) => {
                proof {
                    assert(self.is_valid_order(order@));
                }
                Ok(order)
            },
            None => {
                proof {
                    assert(!(exists|o: Seq<usize>| self.is_valid_order(o))) by {
                        if exists|o: Seq<usize>| self.is_valid_order(o) {
                            let o = choose|o: Seq<usize>| self.is_valid_order(o);
                            assert(pre_valid_order(pre@, o));
                        }
                    }
                }
                Err(GraphError::Cycle)
            },
        }
    }
}

} // verus!
