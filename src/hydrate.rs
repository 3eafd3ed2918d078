//! Expands seed requirements into the full, constraint-merged set of requirements.
//!
//! The hydrator is a state machine: [`Hydrator::next`] names a node whose direct
//! dependencies are needed, the caller looks them up and hands them to
//! [`Hydrator::feed`], and [`Hydrator::finish`] gives the requirements ordered by depth.
use crate::types::PackageReq;
use crate::version::{lemma_bound_inhabited, same, Bound, Version, VersionRange};
use vstd::prelude::*;

verus! {

/// Why hydration stopped.
#[derive(Debug, Clone)]
pub enum HydrateError {
    /// Two requirements on one project admit no common version.
    ConstraintConflict { project: String, a: VersionRange, b: VersionRange },
    /// A requirement's range has no versions in it.
    Malformed { project: String },
}

/// The graph of one hydration: node `i` is `projects[i]` with the merged range
/// `constraints[i]`, found at `depths[i]` steps from a seed.
pub struct Hydrator {
    pub projects: Vec<String>,
    pub constraints: Vec<VersionRange>,
    pub depths: Vec<usize>,
    /// Nodes waiting to have their dependencies merged.
    pub stack: Vec<usize>,
    /// Requirements on soft projects that could not be merged, kept as they came.
    pub extra: Vec<PackageReq>,
    /// Projects whose conflicting requirements are kept apart instead of failing.
    pub soft: Vec<String>,
}

/// Every version that `b` admits is admitted by `a`.
pub open spec fn within(b: VersionRange, a: VersionRange) -> bool {
    forall|v: Version| #[trigger] b.holds(v) ==> a.holds(v)
}

pub open spec fn admits_both(a: VersionRange, b: VersionRange) -> bool {
    exists|v: Version| a.holds(v) && b.holds(v)
}

/// What merging `req` found at `depth` into `old` gives: a new node for a new project;
/// for a known one, its range narrowed to the intersection, or, for a soft project whose
/// ranges do not meet, `req` kept apart.
pub open spec fn absorbed(old: Hydrator, new: Hydrator, req: PackageReq, depth: usize) -> bool {
    match old.node_of(req.project@) {
        None => new.projects@ == old.projects@.push(req.project)
            && new.constraints@ == old.constraints@.push(req.constraint)
            && new.depths@ == old.depths@.push(depth)
            && new.extra@ == old.extra@
            && new.stack@ == old.stack@,
        Some(i) => new.stack@ == old.stack@ && new.projects@ == old.projects@
            && new.depths@ == old.depths@
            && (forall|j: int| 0 <= j < new.constraints@.len() && j != i
                ==> new.constraints@[j] == old.constraints@[j])
            && if admits_both(old.constraints@[i], req.constraint) {
                new.extra@ == old.extra@
                && forall|v: Version| #[trigger] new.constraints@[i].holds(v)
                    <==> old.constraints@[i].holds(v) && req.constraint.holds(v)
            } else {
                old.is_soft(req.project@) && new.constraints@ == old.constraints@
                    && new.extra@ == old.extra@.push(req)
            },
    }
}

/// `e` reports that `req` cannot be merged into `old`: its project has a node whose range
/// shares no version with `req`'s, and the project is not soft.
pub open spec fn conflicted(old: Hydrator, req: PackageReq, e: HydrateError) -> bool {
    old.node_of(req.project@) matches Some(i)
        && !admits_both(old.constraints@[i], req.constraint)
        && !old.is_soft(req.project@)
        && (e matches HydrateError::ConstraintConflict { project, a, b } && project == req.project
            && a.raw == old.constraints@[i].raw && a.set@ == old.constraints@[i].set@
            && b == req.constraint)
}

/// Every requirement of `reqs` on project `p` admits `v`.
pub open spec fn all_admit(reqs: Seq<PackageReq>, p: Seq<char>, v: Version) -> bool {
    forall|k: int| 0 <= k < reqs.len() && (#[trigger] reqs[k]).project@ == p ==> reqs[k].constraint.holds(v)
}

/// What merging all of `reqs`, found at `depth`, into `old` gives: each of their projects
/// has a node; each node of a project that is not soft admits exactly the versions that
/// its former range and every requirement of `reqs` on it admit; the new nodes come from
/// `reqs` and lie at `depth`; the requirements kept apart gain only copies of requirements
/// of `reqs` on soft projects.
pub open spec fn merged(old: Hydrator, new: Hydrator, reqs: Seq<PackageReq>, depth: usize) -> bool {
    &&& forall|e: int| old.extra@.len() <= e < new.extra@.len() ==> new.is_soft((#[trigger] new.extra@[e]).project@)
        && exists|k: int| 0 <= k < reqs.len() && (#[trigger] reqs[k]).project == new.extra@[e].project
            && reqs[k].constraint.set@ == new.extra@[e].constraint.set@
    &&& forall|k: int| 0 <= k < reqs.len() ==> new.node_of((#[trigger] reqs[k]).project@) is Some
    &&& forall|i: int, v: Version| 0 <= i < new.projects@.len() && !new.is_soft(new.projects@[i]@) ==>
        (#[trigger] new.constraints@[i].holds(v) <==> ((i < old.projects@.len() ==> old.constraints@[i].holds(v))
            && all_admit(reqs, new.projects@[i]@, v)))
    &&& forall|i: int| old.projects@.len() <= i < new.projects@.len() ==> #[trigger] new.depths@[i] == depth
        && exists|k: int| 0 <= k < reqs.len() && (#[trigger] reqs[k]).project@ == new.projects@[i]@
}

/// The two bounds have the same numbers.
pub open spec fn bound_same(a: Bound, b: Bound) -> bool {
    match (a, b) {
        (Bound::Any, Bound::Any) => true,
        (Bound::Single(x), Bound::Single(y)) => same(x, y),
        (Bound::Contiguous(x1, x2), Bound::Contiguous(y1, y2)) => same(x1, y1) && same(x2, y2),
        _ => false,
    }
}

/// The two lists of bounds have the same numbers, bound by bound.
pub open spec fn bounds_same(a: Seq<Bound>, b: Seq<Bound>) -> bool {
    a.len() == b.len() && forall|i: int| 0 <= i < a.len() ==> bound_same(#[trigger] a[i], b[i])
}

/// The nodes among the first `n` that wait again after a merge: those that are new, and
/// those whose bounds changed, in order.
pub open spec fn pushed(old_cs: Seq<VersionRange>, new_cs: Seq<VersionRange>, n: int) -> Seq<usize>
    decreases n,
{
    if n <= 0 {
        Seq::empty()
    } else {
        pushed(old_cs, new_cs, n - 1) + if n - 1 >= old_cs.len() || !bounds_same(old_cs[n - 1].set@, new_cs[n - 1].set@) {
            seq![(n - 1) as usize]
        } else {
            Seq::empty()
        }
    }
}

/// The stack after a merge: what waited before, then the nodes that `pushed` names.
pub open spec fn waiting(old: Hydrator, new: Hydrator) -> bool {
    new.stack@ == old.stack@ + pushed(old.constraints@, new.constraints@, new.constraints@.len() as int)
}

/// `e` reports why `reqs` could not be merged into `old`.
pub open spec fn refused(old: Hydrator, reqs: Seq<PackageReq>, e: HydrateError) -> bool {
    &&& !mergeable(old, reqs)
    &&& match e {
        HydrateError::Malformed { project } => exists|k: int| 0 <= k < reqs.len()
            && (#[trigger] reqs[k]).project == project && !reqs[k].constraint.wf(),
        HydrateError::ConstraintConflict { project, a, b } => !old.is_soft(project@)
            && !admits_both(a, b) && exists|j: int| 0 <= j < reqs.len()
            && (#[trigger] reqs[j]).project == project && b.set@ == reqs[j].constraint.set@
            && forall|v: Version| #[trigger] a.holds(v) <==> prior(old, reqs.take(j), project@, v),
    }
}

/// `v` lies in what project `p` may be before the requirements after `reqs` are merged: in
/// the range of its node of `old`, if it has one, and in every requirement of `reqs` on it.
pub open spec fn prior(old: Hydrator, reqs: Seq<PackageReq>, p: Seq<char>, v: Version) -> bool {
    (old.node_of(p) matches Some(i) ==> old.constraints@[i].holds(v)) && all_admit(reqs, p, v)
}

/// Merging `reqs` into `old` succeeds: every range is well formed, and for each project
/// that is not soft some version lies in its node's range and in every requirement on it.
pub open spec fn mergeable(old: Hydrator, reqs: Seq<PackageReq>) -> bool {
    &&& forall|k: int| 0 <= k < reqs.len() ==> (#[trigger] reqs[k]).constraint.wf()
    &&& forall|k: int| 0 <= k < reqs.len() && !old.is_soft((#[trigger] reqs[k]).project@) ==>
        exists|v: Version| prior(old, reqs, reqs[k].project@, v)
}

/// Once `reqs` are merged, the node of a project that is not soft admits exactly what
/// `prior` says.
proof fn lemma_prior_of_node(start: Hydrator, h: Hydrator, reqs: Seq<PackageReq>, depth: usize, p: Seq<char>)
    requires
        start.wf(),
        h.wf(),
        h.narrows(&start),
        merged(start, h, reqs, depth),
        h.node_of(p) is Some,
        !h.is_soft(p),
    ensures
        forall|v: Version| #[trigger] h.constraints@[h.node_of(p)->0].holds(v) <==> prior(start, reqs, p, v),
{
    let i = h.node_of(p)->0;
    match start.node_of(p) {
        Some(i2) => {
            assert(h.projects@[i2] == start.projects@[i2]);
            lemma_node_of(h, p, i2);
        },
        None => {
            if i < start.projects@.len() {
                assert(start.projects@[i] == h.projects@[i]);
                assert(start.projects@[i]@ == p);
            }
        },
    }
    assert forall|v: Version| #[trigger] h.constraints@[i].holds(v) <==> prior(start, reqs, p, v) by {
        assert(h.constraints@[i].holds(v) <==> ((i < start.projects@.len() ==> start.constraints@[i].holds(v))
            && all_admit(reqs, h.projects@[i]@, v)));
    }
}

proof fn lemma_node_of(h: Hydrator, p: Seq<char>, i: int)
    requires
        h.wf(),
        0 <= i < h.projects@.len(),
        h.projects@[i]@ == p,
    ensures
        h.node_of(p) == Some(i),
{
    let c = choose|k: int| 0 <= k < h.projects@.len() && #[trigger] h.projects@[k]@ == p;
    if c != i {
        if c < i {
            assert(h.projects@[c]@ != h.projects@[i]@);
        } else {
            assert(h.projects@[i]@ != h.projects@[c]@);
        }
    }
}

proof fn lemma_extra_soft(old: Hydrator, new: Hydrator)
    requires
        forall|e: int| 0 <= e < old.extra@.len() ==> old.is_soft((#[trigger] old.extra@[e]).project@),
        new.soft == old.soft,
        old.extra@.len() <= new.extra@.len(),
        forall|e: int| 0 <= e < old.extra@.len() ==> #[trigger] new.extra@[e] == old.extra@[e],
        forall|e: int| old.extra@.len() <= e < new.extra@.len() ==> old.is_soft((#[trigger] new.extra@[e]).project@),
    ensures
        forall|e: int| 0 <= e < new.extra@.len() ==> new.is_soft((#[trigger] new.extra@[e]).project@),
{
    assert forall|e: int| 0 <= e < new.extra@.len() implies new.is_soft((#[trigger] new.extra@[e]).project@) by {
        let p = new.extra@[e].project@;
        if e < old.extra@.len() {
            assert(old.extra@[e] == new.extra@[e]);
        }
        assert(old.is_soft(p));
        let w = choose|i: int| 0 <= i < old.soft@.len() && #[trigger] old.soft@[i]@ == p;
        assert(new.soft@[w]@ == p);
    }
}

proof fn lemma_merged_frame(old: Hydrator, a: Hydrator, b: Hydrator, reqs: Seq<PackageReq>, depth: usize)
    requires
        merged(old, a, reqs, depth),
        b.projects == a.projects,
        b.constraints == a.constraints,
        b.depths == a.depths,
        b.extra == a.extra,
        b.soft == a.soft,
    ensures
        merged(old, b, reqs, depth),
{
    assert forall|p: Seq<char>| b.is_soft(p) == a.is_soft(p) by {}
    assert forall|p: Seq<char>| b.node_of(p) == a.node_of(p) by {}
}

proof fn lemma_merge_step(start: Hydrator, before: Hydrator, after: Hydrator, reqs: Seq<PackageReq>,
    j: int, q: PackageReq, depth: usize)
    requires
        0 <= j < reqs.len(),
        before.wf(),
        after.wf(),
        before.narrows(&start),
        after.narrows(&before),
        merged(start, before, reqs.take(j), depth),
        absorbed(before, after, q, depth),
        q.project == reqs[j].project,
        q.constraint.set@ == reqs[j].constraint.set@,
    ensures
        after.narrows(&start),
        merged(start, after, reqs.take(j + 1), depth),
{
    let pre = reqs.take(j);
    let post = reqs.take(j + 1);
    assert forall|k: int| 0 <= k < j implies #[trigger] post[k] == pre[k] by {}
    assert(post[j] == reqs[j]);
    assert forall|v: Version| q.constraint.holds(v) == reqs[j].constraint.holds(v) by {}
    assert forall|e: int| start.extra@.len() <= e < after.extra@.len() implies after.is_soft((#[trigger] after.extra@[e]).project@)
        && exists|k: int| 0 <= k < post.len() && (#[trigger] post[k]).project == after.extra@[e].project
            && post[k].constraint.set@ == after.extra@[e].constraint.set@ by {
        assert(after.soft@ == before.soft@);
        if e < before.extra@.len() {
            assert(after.extra@[e] == before.extra@[e]);
            let k = choose|k: int| 0 <= k < pre.len() && (#[trigger] pre[k]).project == before.extra@[e].project
                && pre[k].constraint.set@ == before.extra@[e].constraint.set@;
            assert(post[k] == pre[k]);
        } else {
            assert(after.extra@ == before.extra@.push(q));
            assert(after.extra@[e] == q);
            assert(post[j].project == q.project);
        }
    }
    // narrowing composes
    assert forall|i: int| 0 <= i < start.projects@.len() implies #[trigger] after.projects@[i] == start.projects@[i]
        && after.depths@[i] == start.depths@[i] && within(after.constraints@[i], start.constraints@[i]) by {
        assert(after.projects@[i] == before.projects@[i]);
        assert(within(after.constraints@[i], before.constraints@[i]));
        assert(within(before.constraints@[i], start.constraints@[i]));
        assert forall|v: Version| #[trigger] after.constraints@[i].holds(v) implies start.constraints@[i].holds(v) by {
            assert(before.constraints@[i].holds(v));
        }
    }
    assert forall|i: int| 0 <= i < start.extra@.len() implies #[trigger] after.extra@[i] == start.extra@[i] by {
        assert(before.extra@[i] == start.extra@[i]);
    }
    // every project seen so far has a node
    assert forall|k: int| 0 <= k < post.len() implies after.node_of((#[trigger] post[k]).project@) is Some by {
        let p = post[k].project@;
        if k < j {
            assert(before.node_of(pre[k].project@) is Some);
            let c = choose|c: int| 0 <= c < before.projects@.len() && #[trigger] before.projects@[c]@ == p;
            assert(after.projects@[c] == before.projects@[c]);
        } else {
            match before.node_of(q.project@) {
                None => {
                    let n = before.projects@.len() as int;
                    assert(after.projects@[n] == q.project);
                },
                Some(m) => {
                    assert(after.projects@[m] == before.projects@[m]);
                },
            }
        }
    }
    let qp = q.project@;
    // the new project, if any, had no earlier requirement
    if before.node_of(qp) is None {
        assert forall|k: int| 0 <= k < pre.len() implies (#[trigger] pre[k]).project@ != qp by {
            assert(before.node_of(pre[k].project@) is Some);
        }
    }
    assert forall|i: int, v: Version| 0 <= i < after.projects@.len() && !after.is_soft(after.projects@[i]@) implies
        (#[trigger] after.constraints@[i].holds(v) <==> ((i < start.projects@.len() ==> start.constraints@[i].holds(v))
            && all_admit(post, after.projects@[i]@, v))) by {
        let p = after.projects@[i]@;
        assert(after.is_soft(p) == before.is_soft(p));
        let extra_ok = (reqs[j].project@ == p ==> reqs[j].constraint.holds(v));
        assert(all_admit(post, p, v) == (all_admit(pre, p, v) && extra_ok)) by {
            if all_admit(pre, p, v) && extra_ok {
                assert forall|k: int| 0 <= k < post.len() && (#[trigger] post[k]).project@ == p implies post[k].constraint.holds(v) by {
                    if k < j {
                        assert(post[k] == pre[k]);
                    }
                }
            }
            if all_admit(post, p, v) {
                assert forall|k: int| 0 <= k < pre.len() && (#[trigger] pre[k]).project@ == p implies pre[k].constraint.holds(v) by {
                    assert(post[k] == pre[k]);
                }
                if reqs[j].project@ == p {
                    assert(post[j].project@ == p);
                }
            }
        }
        match before.node_of(qp) {
            None => {
                let n = before.projects@.len() as int;
                if i < n {
                    assert(after.constraints@[i] == before.constraints@[i]);
                    assert(before.projects@[i] == after.projects@[i]);
                    lemma_node_of(before, p, i);
                    assert(p != qp);
                } else {
                    assert(i == n);
                    assert(after.constraints@[i] == q.constraint);
                    assert(p == qp);
                    assert(all_admit(pre, p, v));
                }
            },
            Some(m) => {
                assert(after.projects@[i] == before.projects@[i]);
                if i == m {
                    assert(p == qp);
                    if admits_both(before.constraints@[m], q.constraint) {
                        assert(before.constraints@[m].holds(v) == ((i < start.projects@.len() ==> start.constraints@[i].holds(v))
                            && all_admit(pre, p, v)));
                    } else {
                        assert(before.is_soft(qp));
                    }
                } else {
                    assert(after.constraints@[i] == before.constraints@[i]);
                    lemma_node_of(before, p, i);
                    assert(p != qp);
                    assert(before.constraints@[i].holds(v) == ((i < start.projects@.len() ==> start.constraints@[i].holds(v))
                        && all_admit(pre, p, v)));
                }
            },
        }
    }
    assert forall|i: int| start.projects@.len() <= i < after.projects@.len() implies #[trigger] after.depths@[i] == depth
        && exists|k: int| 0 <= k < post.len() && (#[trigger] post[k]).project@ == after.projects@[i]@ by {
        if i < before.projects@.len() {
            assert(after.depths@[i] == before.depths@[i]);
            assert(after.projects@[i] == before.projects@[i]);
            let k = choose|k: int| 0 <= k < pre.len() && (#[trigger] pre[k]).project@ == before.projects@[i]@;
            assert(post[k] == pre[k]);
        } else {
            assert(post[j].project@ == after.projects@[i]@);
        }
    }
}

impl Hydrator {
    /// Merges `reqs`, found at `depth`, into the graph, one after the other.
    fn merge_all(&mut self, reqs: &Vec<PackageReq>, depth: usize) -> (r: Result<(), HydrateError>)
        requires
            old(self).wf(),
            depth <= old(self).projects@.len(),
        ensures
            r is Ok ==> final(self).wf() && final(self).narrows(old(self))
                && merged(*old(self), *final(self), reqs@, depth) && waiting(*old(self), *final(self))
                && mergeable(*old(self), reqs@),
            r matches Err(e) ==> refused(*old(self), reqs@, e),
    {
        let ghost start: Hydrator = *old(self);
        let snap = copy_ranges(&self.constraints);
        let mut j: usize = 0;
        proof {
            assert(reqs@.take(0) =~= Seq::<PackageReq>::empty());
            assert forall|i: int| 0 <= i < start.projects@.len() implies #[trigger] self.projects@[i] == start.projects@[i]
                && self.depths@[i] == start.depths@[i] && within(self.constraints@[i], start.constraints@[i]) by {}
        }
        while j < reqs.len()
            invariant
                j <= reqs@.len(),
                self.wf(),
                depth <= start.projects@.len(),
                start == *old(self),
                start.wf(),
                self.narrows(&start),
                self.stack@ == start.stack@,
                snap@.len() == start.constraints@.len(),
                forall|k: int| 0 <= k < snap@.len() ==> (#[trigger] snap@[k]).set@ == start.constraints@[k].set@,
                merged(start, *self, reqs@.take(j as int), depth),
                forall|k: int| 0 <= k < j ==> (#[trigger] reqs@[k]).constraint.wf(),
            decreases reqs@.len() - j,
        {
            if !reqs[j].constraint.is_wf() {
                let e = HydrateError::Malformed { project: reqs[j].project.clone() };
                assert(!mergeable(start, reqs@));
                return Err(e);
            }
            let ghost before: Hydrator = *self;
            let q = reqs[j].duplicate();
            assert forall|v: Version| q.constraint.holds(v) == reqs@[j as int].constraint.holds(v) by {}
            let r = self.absorb(q, depth);
            match r {
                Err(e) => {
                    proof {
                        assert(before.soft@ == start.soft@);
                        assert(reqs@[j as int].project == q.project);
                        if e is ConstraintConflict {
                            let i = before.node_of(q.project@)->0;
                            let a = e->ConstraintConflict_a;
                            assert(!admits_both(before.constraints@[i], q.constraint));
                            assert forall|v: Version| a.holds(v) == before.constraints@[i].holds(v) by {}
                            assert(!admits_both(a, e->ConstraintConflict_b));
                            assert(e->ConstraintConflict_project == q.project);
                            assert(!before.is_soft(q.project@));
                            assert(!start.is_soft(q.project@));
                            assert(reqs@[j as int].project == e->ConstraintConflict_project
                                && e->ConstraintConflict_b.set@ == reqs@[j as int].constraint.set@);
                            let p = q.project@;
                            let pre = reqs@.take(j as int);
                            assert(before.is_soft(p) == start.is_soft(p));
                            lemma_prior_of_node(start, before, pre, depth, p);
                            assert forall|v: Version| #[trigger] a.holds(v) <==> prior(start, pre, p, v) by {
                                assert(before.constraints@[i].holds(v) <==> prior(start, pre, p, v));
                            }
                            assert(!mergeable(start, reqs@)) by {
                                if mergeable(start, reqs@) {
                                    assert(!start.is_soft(reqs@[j as int].project@));
                                    let v = choose|v: Version| prior(start, reqs@, reqs@[j as int].project@, v);
                                    assert(reqs@[j as int].constraint.holds(v));
                                    assert(q.constraint.holds(v));
                                    assert forall|k: int| 0 <= k < pre.len() && (#[trigger] pre[k]).project@ == p
                                        implies pre[k].constraint.holds(v) by {
                                        assert(pre[k] == reqs@[k]);
                                    }
                                    assert(prior(start, pre, p, v));
                                    assert(before.constraints@[i].holds(v));
                                    assert(admits_both(before.constraints@[i], q.constraint));
                                }
                            }
                        }
                        assert(e is ConstraintConflict);
                        assert(refused(start, reqs@, e));
                    }
                    return Err(e);
                },
                Ok(()) => {},
            }
            proof {
                lemma_merge_step(start, before, *self, reqs@, j as int, q, depth);
                assert(reqs@.take(j + 1 as int) =~= reqs@.take(j + 1 as int));
            }
            j = j + 1;
        }
        assert(reqs@.take(reqs@.len() as int) =~= reqs@);
        let ghost mid: Hydrator = *self;
        let n = self.constraints.len();
        let mut i: usize = 0;
        while i < n
            invariant
                i <= n,
                n == mid.constraints@.len(),
                mid.wf(),
                self.projects == mid.projects,
                self.constraints == mid.constraints,
                self.depths == mid.depths,
                self.extra == mid.extra,
                self.soft == mid.soft,
                self.stack@ == mid.stack@ + pushed(start.constraints@, mid.constraints@, i as int),
                forall|k: int| 0 <= k < self.stack@.len() ==> #[trigger] self.stack@[k] < n,
                snap@.len() == start.constraints@.len(),
                forall|k: int| 0 <= k < snap@.len() ==> (#[trigger] snap@[k]).set@ == start.constraints@[k].set@,
            decreases n - i,
        {
            let again = i >= snap.len() || !same_bounds(&snap[i].set, &self.constraints[i].set);
            let ghost before = self.stack@;
            if again {
                self.stack.push(i);
            }
            proof {
                assert(self.stack@ =~= mid.stack@ + pushed(start.constraints@, mid.constraints@, i + 1));
            }
            i = i + 1;
        }
        proof {
            assert(mid.stack@ == start.stack@);
            assert forall|k: int| 0 <= k < reqs@.len() && !start.is_soft((#[trigger] reqs@[k]).project@) implies
                exists|v: Version| prior(start, reqs@, reqs@[k].project@, v) by {
                let p = reqs@[k].project@;
                assert(mid.is_soft(p) == start.is_soft(p));
                assert(mid.node_of(p) is Some);
                lemma_prior_of_node(start, mid, reqs@, depth, p);
                let i = mid.node_of(p)->0;
                lemma_range_inhabited(mid.constraints@[i]);
                let v = choose|v: Version| mid.constraints@[i].holds(v);
                assert(prior(start, reqs@, p, v));
            }
            assert(mergeable(start, reqs@));
            assert(self.narrows(&start));
            assert(merged(start, mid, reqs@, depth));
            let h = *self;
            lemma_merged_frame(start, mid, h, reqs@, depth);
        }
        Ok(())
    }

    pub open spec fn wf(&self) -> bool {
        &&& self.projects@.len() == self.constraints@.len()
        &&& self.projects@.len() == self.depths@.len()
        &&& forall|i: int| 0 <= i < self.constraints@.len() ==> (#[trigger] self.constraints@[i]).wf()
        &&& forall|i: int, j: int| 0 <= i < j < self.projects@.len() ==> self.projects@[i]@ != self.projects@[j]@
        &&& forall|k: int| 0 <= k < self.stack@.len() ==> #[trigger] self.stack@[k] < self.projects@.len()
        &&& forall|i: int| 0 <= i < self.depths@.len() ==> #[trigger] self.depths@[i] <= i
        &&& forall|e: int| 0 <= e < self.extra@.len() ==> self.is_soft((#[trigger] self.extra@[e]).project@)
    }

    pub open spec fn is_soft(&self, p: Seq<char>) -> bool {
        exists|i: int| 0 <= i < self.soft@.len() && #[trigger] self.soft@[i]@ == p
    }

    /// The node of project `p`.
    pub open spec fn node_of(&self, p: Seq<char>) -> Option<int> {
        if exists|i: int| 0 <= i < self.projects@.len() && #[trigger] self.projects@[i]@ == p {
            Some(choose|i: int| 0 <= i < self.projects@.len() && #[trigger] self.projects@[i]@ == p)
        } else {
            None
        }
    }

    /// The nodes of `old` keep their projects and depths and only narrow.
    pub open spec fn narrows(&self, old: &Hydrator) -> bool {
        &&& old.projects@.len() <= self.projects@.len()
        &&& self.soft@ == old.soft@
        &&& forall|i: int| 0 <= i < old.projects@.len() ==> #[trigger] self.projects@[i] == old.projects@[i]
            && self.depths@[i] == old.depths@[i] && within(self.constraints@[i], old.constraints@[i])
        &&& old.extra@.len() <= self.extra@.len()
        &&& forall|i: int| 0 <= i < old.extra@.len() ==> #[trigger] self.extra@[i] == old.extra@[i]
    }

    fn find(&self, p: &String) -> (r: Option<usize>)
        requires
            self.wf(),
        ensures
            match r {
                Some(i) => i < self.projects@.len() && self.projects@[i as int]@ == p@,
                None => forall|i: int| 0 <= i < self.projects@.len() ==> #[trigger] self.projects@[i]@ != p@,
            },
    {
        let mut i: usize = 0;
        while i < self.projects.len()
            invariant
                i <= self.projects@.len(),
                forall|k: int| 0 <= k < i ==> #[trigger] self.projects@[k]@ != p@,
            decreases self.projects@.len() - i,
        {
            if self.projects[i] == *p {
                return Some(i);
            }
            i = i + 1;
        }
        None
    }

    fn soft_has(&self, p: &String) -> (r: bool)
        ensures
            r == self.is_soft(p@),
    {
        let mut i: usize = 0;
        while i < self.soft.len()
            invariant
                i <= self.soft@.len(),
                forall|k: int| 0 <= k < i ==> #[trigger] self.soft@[k]@ != p@,
            decreases self.soft@.len() - i,
        {
            if self.soft[i] == *p {
                return true;
            }
            i = i + 1;
        }
        false
    }

    /// Merges one requirement found at `depth` into the graph: a new project becomes a
    /// node; a known one has its range narrowed to the intersection.
    fn absorb(&mut self, req: PackageReq, depth: usize) -> (r: Result<(), HydrateError>)
        requires
            old(self).wf(),
            req.constraint.wf(),
            depth <= old(self).projects@.len(),
        ensures
            r is Ok ==> final(self).wf() && final(self).narrows(old(self)),
            r is Ok ==> absorbed(*old(self), *final(self), req, depth),
            r matches Err(e) ==> conflicted(*old(self), req, e),
    {
        match self.find(&req.project) {
            None => {
                let n = self.projects.len();
                self.projects.push(req.project);
                self.constraints.push(req.constraint);
                self.depths.push(depth);
                proof {
                    assert(old(self).node_of(req.project@) is None);
                    assert forall|i: int, j: int| 0 <= i < j < self.projects@.len() implies
                        self.projects@[i]@ != self.projects@[j]@ by {
                        if j == n {
                            assert(old(self).projects@[i]@ != req.project@);
                        } else {
                            assert(self.projects@[i] == old(self).projects@[i]);
                            assert(self.projects@[j] == old(self).projects@[j]);
                        }
                    }
                    assert forall|i: int| 0 <= i < n implies within(#[trigger] self.constraints@[i], old(self).constraints@[i]) by {
                        assert(self.constraints@[i] == old(self).constraints@[i]);
                    }
                }
                proof { lemma_extra_soft(*old(self), *self); }
                Ok(())
            },
            Some(i) => {
                proof {
                    assert(old(self).node_of(req.project@) is Some);
                    let c = choose|k: int| 0 <= k < self.projects@.len() && #[trigger] self.projects@[k]@ == req.project@;
                    if c != i {
                        if c < i {
                            assert(self.projects@[c]@ != self.projects@[i as int]@);
                        } else {
                            assert(self.projects@[i as int]@ != self.projects@[c]@);
                        }
                    }
                    assert(old(self).node_of(req.project@) == Some(i as int));
                }
                let merged = self.constraints[i].intersect(&req.constraint);
                match merged {
                    Some(c) => {
                        self.constraints.set(i, c);
                        proof {
                            assert forall|j: int| 0 <= j < old(self).projects@.len() implies
                                within(#[trigger] self.constraints@[j], old(self).constraints@[j]) by {
                                if j == i {
                                    assert forall|v: Version| #[trigger] self.constraints@[j].holds(v)
                                        implies old(self).constraints@[j].holds(v) by {}
                                }
                            }
                        }
                        proof { lemma_extra_soft(*old(self), *self); }
                Ok(())
                    },
                    None => {
                        if self.soft_has(&req.project) {
                            self.extra.push(req);
                            proof {
                                assert forall|j: int| 0 <= j < old(self).projects@.len() implies
                                    within(#[trigger] self.constraints@[j], old(self).constraints@[j]) by {}
                            }
                            proof { lemma_extra_soft(*old(self), *self); }
                Ok(())
                        } else {
                            Err(HydrateError::ConstraintConflict {
                                project: req.project,
                                a: self.constraints[i].duplicate(),
                                b: req.constraint,
                            })
                        }
                    },
                }
            },
        }
    }
}

fn copy_ranges(v: &Vec<VersionRange>) -> (r: Vec<VersionRange>)
    ensures
        r@.len() == v@.len(),
        forall|k: int| 0 <= k < v@.len() ==> (#[trigger] r@[k]).set@ == v@[k].set@,
{
    let mut out: Vec<VersionRange> = Vec::new();
    let mut i: usize = 0;
    while i < v.len()
        invariant
            i <= v@.len(),
            out@.len() == i,
            forall|k: int| 0 <= k < i ==> (#[trigger] out@[k]).set@ == v@[k].set@,
        decreases v@.len() - i,
    {
        out.push(v[i].duplicate());
        i = i + 1;
    }
    out
}

/// The two lists of bounds have the same numbers, bound by bound.
fn same_bounds(a: &Vec<Bound>, b: &Vec<Bound>) -> (r: bool)
    ensures
        r == bounds_same(a@, b@),
{
    if a.len() != b.len() {
        return false;
    }
    let mut i: usize = 0;
    while i < a.len()
        invariant
            i <= a@.len(),
            a@.len() == b@.len(),
            forall|k: int| 0 <= k < i ==> bound_same(#[trigger] a@[k], b@[k]),
        decreases a@.len() - i,
    {
        let eq = match (&a[i], &b[i]) {
            (Bound::Any, Bound::Any) => true,
            (Bound::Single(x), Bound::Single(y)) => x.is_same(y),
            (Bound::Contiguous(x1, x2), Bound::Contiguous(y1, y2)) => x1.is_same(y1) && x2.is_same(y2),
            _ => false,
        };
        assert(eq == bound_same(a@[i as int], b@[i as int]));
        if !eq {
            return false;
        }
        i = i + 1;
    }
    true
}


/// The nodes of depth `d` among the first `n`, in order.
pub open spec fn layer(depths: Seq<usize>, d: int, n: int) -> Seq<int>
    decreases n,
{
    if n <= 0 {
        Seq::empty()
    } else if depths[n - 1] == d {
        layer(depths, d, n - 1).push(n - 1)
    } else {
        layer(depths, d, n - 1)
    }
}

/// The nodes of depth below `d`, shallowest first, in order within each depth.
pub open spec fn layers(depths: Seq<usize>, d: int) -> Seq<int>
    decreases d,
{
    if d <= 0 {
        Seq::empty()
    } else {
        layers(depths, d - 1) + layer(depths, d - 1, depths.len() as int)
    }
}

/// The order in which a finished hydration lists its nodes: by depth, then by the order in
/// which they were found.
pub open spec fn node_order(h: Hydrator) -> Seq<int> {
    layers(h.depths@, h.depths@.len() as int)
}

/// The requirement of node `i`.
pub open spec fn node_req(h: Hydrator, i: int, q: PackageReq) -> bool {
    q.project == h.projects@[i] && q.constraint.raw == h.constraints@[i].raw
        && q.constraint.set@ == h.constraints@[i].set@
}

impl Hydrator {
    /// Starts a hydration from the seed requirements: requirements on one project are
    /// merged by intersecting their ranges. Requirements on a project of `soft` whose
    /// ranges do not meet are kept apart instead of failing. Every node then waits to be
    /// expanded, in order.
    pub fn new(input: &Vec<PackageReq>, soft: Vec<String>) -> (r: Result<Hydrator, HydrateError>)
        ensures
            r is Ok <==> seeds_ok(soft@, input@),
            r matches Ok(h) ==> h.wf() && h.soft@ == soft@ && seeded(h, input@),
            r matches Err(e) ==> refused_seed(soft@, input@, e),
    {
        let mut h = Hydrator {
            projects: Vec::new(),
            constraints: Vec::new(),
            depths: Vec::new(),
            stack: Vec::new(),
            extra: Vec::new(),
            soft,
        };
        let ghost start = h;
        match h.merge_all(input, 0) {
            Ok(()) => {
                proof {
                    assert(start.constraints@ =~= Seq::<VersionRange>::empty());
                    assert(h.constraints@.len() <= usize::MAX) by { let l = h.constraints.len(); }
                    lemma_pushed_fresh(h.constraints@, h.constraints@.len() as int);
                    assert(h.stack@ =~= pushed(Seq::<VersionRange>::empty(), h.constraints@, h.constraints@.len() as int));
                    assert forall|k: int| 0 <= k < input@.len() && !in_soft(soft@, (#[trigger] input@[k]).project@) implies
                        exists|v: Version| all_admit(input@, input@[k].project@, v) by {
                        let p = input@[k].project@;
                        assert(start.is_soft(p) == in_soft(soft@, p));
                        assert(start.node_of(p) is None);
                        let v = choose|v: Version| prior(start, input@, p, v);
                        assert(all_admit(input@, p, v));
                    }
                }
                Ok(h)
            },
            Err(e) => {
                proof {
                    assert(start.soft@ == soft@);
                    assert forall|p: Seq<char>| start.is_soft(p) == in_soft(soft@, p) && start.node_of(p) is None by {}
                    assert(!seeds_ok(soft@, input@)) by {
                        if seeds_ok(soft@, input@) {
                            assert forall|k: int| 0 <= k < input@.len() && !start.is_soft((#[trigger] input@[k]).project@) implies
                                exists|v: Version| prior(start, input@, input@[k].project@, v) by {
                                let v = choose|v: Version| all_admit(input@, input@[k].project@, v);
                                assert(prior(start, input@, input@[k].project@, v));
                            }
                            assert(mergeable(start, input@));
                        }
                    }
                    if e is ConstraintConflict {
                        assert(!start.is_soft(e->ConstraintConflict_project@));
                        assert(refused(start, input@, e));
                        let j = choose|j: int| 0 <= j < input@.len()
                            && (#[trigger] input@[j]).project == e->ConstraintConflict_project
                            && e->ConstraintConflict_b.set@ == input@[j].constraint.set@
                            && forall|v: Version| #[trigger] e->ConstraintConflict_a.holds(v)
                                <==> prior(start, input@.take(j), e->ConstraintConflict_project@, v);
                        assert forall|v: Version| #[trigger] e->ConstraintConflict_a.holds(v)
                            <==> all_admit(input@.take(j), e->ConstraintConflict_project@, v) by {
                            assert(prior(start, input@.take(j), e->ConstraintConflict_project@, v)
                                == all_admit(input@.take(j), e->ConstraintConflict_project@, v));
                        }
                    }
                }
                Err(e)
            },
        }
    }

    /// Takes the next node whose dependencies are to be merged, if any is waiting.
    pub fn next(&mut self) -> (r: Option<usize>)
        requires
            old(self).wf(),
        ensures
            final(self).wf(),
            final(self).projects@ == old(self).projects@,
            final(self).constraints@ == old(self).constraints@,
            final(self).depths@ == old(self).depths@,
            final(self).extra@ == old(self).extra@,
            final(self).soft@ == old(self).soft@,
            r is None <==> old(self).stack@.len() == 0,
            r matches Some(i) ==> i < old(self).projects@.len() && i == old(self).stack@.last()
                && final(self).stack@ == old(self).stack@.drop_last(),
    {
        let r = self.stack.pop();
        proof {
            lemma_extra_soft(*old(self), *self);
        }
        r
    }

    /// Merges the direct dependencies `deps` of node `id` into the graph; new nodes lie
    /// one step deeper than `id`. The new nodes and the nodes whose bounds changed wait to
    /// be expanded; a merge that changes nothing leaves nothing waiting, so a cycle ends.
    pub fn feed(&mut self, id: usize, deps: &Vec<PackageReq>) -> (r: Result<(), HydrateError>)
        requires
            old(self).wf(),
            id < old(self).projects@.len(),
        ensures
            r is Ok ==> final(self).wf() && final(self).narrows(old(self))
                && merged(*old(self), *final(self), deps@, (old(self).depths@[id as int] + 1) as usize)
                && waiting(*old(self), *final(self)) && mergeable(*old(self), deps@),
            r matches Err(e) ==> refused(*old(self), deps@, e),
    {
        let n = self.projects.len();
        assert(self.depths@[id as int] <= id && id < n);
        let depth = self.depths[id] + 1;
        self.merge_all(deps, depth)
    }

    /// The merged requirements, shallowest first, followed by the requirements on soft
    /// projects that were kept apart.
    pub fn finish(&self) -> (r: Vec<PackageReq>)
        requires
            self.wf(),
        ensures
            r@.len() == node_order(*self).len() + self.extra@.len(),
            forall|k: int| 0 <= k < node_order(*self).len() ==> node_req(*self, #[trigger] node_order(*self)[k], r@[k]),
            forall|k: int| 0 <= k < self.extra@.len() ==> #[trigger] r@[node_order(*self).len() + k].project == self.extra@[k].project
                && r@[node_order(*self).len() + k].constraint.set@ == self.extra@[k].constraint.set@,
            forall|a: int, b: int| 0 <= a < b < r@.len() && (#[trigger] r@[a]).project@ == (#[trigger] r@[b]).project@
                ==> self.is_soft(r@[a].project@),
    {
        let n = self.projects.len();
        let mut out: Vec<PackageReq> = Vec::new();
        let mut d: usize = 0;
        while d < n
            invariant
                self.wf(),
                n == self.projects@.len(),
                d <= n,
                out@.len() == layers(self.depths@, d as int).len(),
                forall|k: int| 0 <= k < out@.len() ==> 0 <= #[trigger] layers(self.depths@, d as int)[k] < n
                    && node_req(*self, layers(self.depths@, d as int)[k], out@[k]),
            decreases n - d,
        {
            let mut i: usize = 0;
            let ghost base = out@;
            let ghost prev = layers(self.depths@, d as int);
            while i < n
                invariant
                    self.wf(),
                    n == self.projects@.len(),
                    d < n,
                    i <= n,
                    prev == layers(self.depths@, d as int),
                    base.len() == prev.len(),
                    out@.len() == base.len() + layer(self.depths@, d as int, i as int).len(),
                    forall|k: int| 0 <= k < base.len() ==> #[trigger] out@[k] == base[k],
                    forall|k: int| 0 <= k < base.len() ==> 0 <= #[trigger] prev[k] < n && node_req(*self, prev[k], base[k]),
                    forall|k: int| 0 <= k < layer(self.depths@, d as int, i as int).len() ==>
                        0 <= #[trigger] layer(self.depths@, d as int, i as int)[k] < i
                        && node_req(*self, layer(self.depths@, d as int, i as int)[k], out@[base.len() + k]),
                decreases n - i,
            {
                if self.depths[i] == d {
                    let q = PackageReq { project: self.projects[i].clone(), constraint: self.constraints[i].duplicate() };
                    out.push(q);
                }
                proof {
                    let lp = layer(self.depths@, d as int, i as int);
                    let ln = layer(self.depths@, d as int, i + 1);
                    if self.depths@[i as int] == d {
                        assert(ln == lp.push(i as int));
                        assert(ln[lp.len() as int] == i);
                    } else {
                        assert(ln == lp);
                    }
                    assert forall|k: int| 0 <= k < ln.len() implies
                        0 <= #[trigger] ln[k] < i + 1 && node_req(*self, ln[k], out@[base.len() + k]) by {
                        if k < lp.len() {
                            assert(ln[k] == lp[k]);
                        }
                    }
                }
                i = i + 1;
            }
            proof {
                let nx = layers(self.depths@, d + 1);
                let l = layer(self.depths@, d as int, n as int);
                assert(nx == prev + l);
                assert forall|k: int| 0 <= k < out@.len() implies 0 <= #[trigger] nx[k] < n
                    && node_req(*self, nx[k], out@[k]) by {
                    if k < base.len() {
                        assert(nx[k] == prev[k]);
                    } else {
                        assert(nx[k] == l[k - base.len()]);
                    }
                }
            }
            d = d + 1;
        }
        let m = out.len();
        let mut j: usize = 0;
        while j < self.extra.len()
            invariant
                out@.len() == m + j,
                j <= self.extra@.len(),
                m == node_order(*self).len(),
                forall|k: int| 0 <= k < m ==> node_req(*self, #[trigger] node_order(*self)[k], out@[k]),
                forall|k: int| 0 <= k < j ==> #[trigger] out@[m + k].project == self.extra@[k].project
                    && out@[m + k].constraint.set@ == self.extra@[k].constraint.set@,
            decreases self.extra@.len() - j,
        {
            out.push(self.extra[j].duplicate());
            j = j + 1;
        }
        proof {
            let ord = node_order(*self);
            lemma_order_by_depth(self.depths@, self.depths@.len() as int);
            assert forall|a: int, b: int| 0 <= a < b < out@.len() && (#[trigger] out@[a]).project@ == (#[trigger] out@[b]).project@
                implies self.is_soft(out@[a].project@) by {
                if b >= m {
                    let e = b - m;
                    assert(out@[m + e].project == self.extra@[e].project);
                } else {
                    assert(node_req(*self, ord[a], out@[a]));
                    assert(node_req(*self, ord[b], out@[b]));
                    assert(ord[a] != ord[b]);
                    if ord[a] < ord[b] {
                        assert(self.projects@[ord[a]]@ != self.projects@[ord[b]]@);
                    } else {
                        assert(self.projects@[ord[b]]@ != self.projects@[ord[a]]@);
                    }
                }
            }
        }
        out
    }
}

proof fn lemma_layer_depth(depths: Seq<usize>, d: int, n: int)
    requires
        0 <= n <= depths.len(),
    ensures
        forall|k: int| 0 <= k < layer(depths, d, n).len() ==> 0 <= #[trigger] layer(depths, d, n)[k] < n
            && depths[layer(depths, d, n)[k]] == d,
        forall|a: int, b: int| 0 <= a < b < layer(depths, d, n).len() ==> layer(depths, d, n)[a] < layer(depths, d, n)[b],
    decreases n,
{
    if n > 0 {
        lemma_layer_depth(depths, d, n - 1);
        let p = layer(depths, d, n - 1);
        if depths[n - 1] == d {
            let q = p.push(n - 1);
            assert forall|k: int| 0 <= k < q.len() implies 0 <= #[trigger] q[k] < n && depths[q[k]] == d by {
                if k < p.len() {
                    assert(q[k] == p[k]);
                }
            }
            assert forall|a: int, b: int| 0 <= a < b < q.len() implies q[a] < q[b] by {
                assert(q[a] == p[a]);
                if b < p.len() {
                    assert(q[b] == p[b]);
                }
            }
        }
    }
}

/// The hydration order lists nodes shallowest first: depths never decrease along it, and
/// it names each node of depth below `d` (with `d` the node count for the whole order)
/// once, ascending within each depth.
pub proof fn lemma_order_by_depth(depths: Seq<usize>, d: int)
    requires
        0 <= d,
    ensures
        forall|k: int| 0 <= k < layers(depths, d).len() ==> 0 <= #[trigger] layers(depths, d)[k] < depths.len()
            && depths[layers(depths, d)[k]] < d,
        forall|a: int, b: int| 0 <= a < b < layers(depths, d).len() ==>
            depths[layers(depths, d)[a]] <= depths[layers(depths, d)[b]],
        forall|a: int, b: int| 0 <= a < b < layers(depths, d).len() ==> layers(depths, d)[a] != layers(depths, d)[b],
    decreases d,
{
    if d > 0 {
        lemma_order_by_depth(depths, d - 1);
        lemma_layer_depth(depths, d - 1, depths.len() as int);
        let p = layers(depths, d - 1);
        let l = layer(depths, d - 1, depths.len() as int);
        let q = p + l;
        assert(layers(depths, d) == q);
        assert forall|k: int| 0 <= k < q.len() implies 0 <= #[trigger] q[k] < depths.len() && depths[q[k]] < d by {
            if k < p.len() {
                assert(q[k] == p[k]);
            } else {
                assert(q[k] == l[k - p.len()]);
            }
        }
        assert forall|a: int, b: int| 0 <= a < b < q.len() implies depths[q[a]] <= depths[q[b]] && q[a] != q[b] by {
            if b < p.len() {
                assert(q[a] == p[a] && q[b] == p[b]);
            } else if a < p.len() {
                assert(q[a] == p[a] && q[b] == l[b - p.len()]);
            } else {
                assert(q[a] == l[a - p.len()] && q[b] == l[b - p.len()]);
            }
        }
    }
}

/// What seeding gives: each seed's project has a node at depth 0; each node of a project
/// that is not soft admits exactly the versions that every seed on its project admits.
pub open spec fn seeded(h: Hydrator, input: Seq<PackageReq>) -> bool {
    &&& forall|k: int| 0 <= k < input.len() ==> h.node_of((#[trigger] input[k]).project@) is Some
    &&& forall|i: int, v: Version| 0 <= i < h.projects@.len() && !h.is_soft(h.projects@[i]@) ==>
        (#[trigger] h.constraints@[i].holds(v) <==> all_admit(input, h.projects@[i]@, v))
    &&& forall|i: int| 0 <= i < h.projects@.len() ==> #[trigger] h.depths@[i] == 0
        && exists|k: int| 0 <= k < input.len() && (#[trigger] input[k]).project@ == h.projects@[i]@
    &&& h.stack@.len() == h.projects@.len()
    &&& forall|i: int| 0 <= i < h.stack@.len() ==> #[trigger] h.stack@[i] == i
    &&& forall|e: int| 0 <= e < h.extra@.len() ==> h.is_soft((#[trigger] h.extra@[e]).project@)
        && exists|k: int| 0 <= k < input.len() && (#[trigger] input[k]).project == h.extra@[e].project
            && input[k].constraint.set@ == h.extra@[e].constraint.set@
}

/// Merging into an empty graph makes every node wait, in order.
proof fn lemma_pushed_fresh(new_cs: Seq<VersionRange>, n: int)
    requires
        0 <= n <= usize::MAX,
    ensures
        pushed(Seq::empty(), new_cs, n).len() == n,
        forall|i: int| 0 <= i < n ==> #[trigger] pushed(Seq::empty(), new_cs, n)[i] == i,
    decreases n,
{
    if n > 0 {
        lemma_pushed_fresh(new_cs, n - 1);
        let p = pushed(Seq::<VersionRange>::empty(), new_cs, n - 1);
        assert(pushed(Seq::<VersionRange>::empty(), new_cs, n) == p + seq![(n - 1) as usize]);
        assert forall|i: int| 0 <= i < n implies #[trigger] pushed(Seq::empty(), new_cs, n)[i] == i by {
            if i < n - 1 {
                assert(pushed(Seq::<VersionRange>::empty(), new_cs, n)[i] == p[i]);
            }
        }
    }
}

/// `e` reports why the seeds `input` could not be merged.
pub open spec fn refused_seed(soft: Seq<String>, input: Seq<PackageReq>, e: HydrateError) -> bool {
    &&& !seeds_ok(soft, input)
    &&& match e {
        HydrateError::Malformed { project } => exists|k: int| 0 <= k < input.len()
            && (#[trigger] input[k]).project == project && !input[k].constraint.wf(),
        HydrateError::ConstraintConflict { project, a, b } => !in_soft(soft, project@)
            && !admits_both(a, b) && exists|j: int| 0 <= j < input.len()
            && (#[trigger] input[j]).project == project && b.set@ == input[j].constraint.set@
            && forall|v: Version| #[trigger] a.holds(v) <==> all_admit(input.take(j), project@, v),
    }
}

/// `p` is one of the soft projects.
pub open spec fn in_soft(soft: Seq<String>, p: Seq<char>) -> bool {
    exists|i: int| 0 <= i < soft.len() && #[trigger] soft[i]@ == p
}

/// Seeding succeeds: every range is well formed, and for each project that is not soft
/// some version lies in every seed on it.
pub open spec fn seeds_ok(soft: Seq<String>, input: Seq<PackageReq>) -> bool {
    &&& forall|k: int| 0 <= k < input.len() ==> (#[trigger] input[k]).constraint.wf()
    &&& forall|k: int| 0 <= k < input.len() && !in_soft(soft, (#[trigger] input[k]).project@) ==>
        exists|v: Version| all_admit(input, input[k].project@, v)
}

/// A well-formed range admits some version.
proof fn lemma_range_inhabited(r: VersionRange)
    requires
        r.wf(),
    ensures
        exists|v: Version| r.holds(v),
{
    lemma_bound_inhabited(r.set@[0]);
    let v = choose|v: Version| crate::version::bound_holds(r.set@[0], v);
    assert(r.holds(v));
}

/// Two requirements on a project that is not soft whose ranges share no version cannot
/// both be merged: a merge that takes them in never succeeds.
pub proof fn lemma_conflict_fails(old: Hydrator, new: Hydrator, reqs: Seq<PackageReq>, depth: usize, a: int, b: int)
    requires
        new.wf(),
        0 <= a < reqs.len(),
        0 <= b < reqs.len(),
        reqs[a].project@ == reqs[b].project@,
        !new.is_soft(reqs[a].project@),
        !admits_both(reqs[a].constraint, reqs[b].constraint),
    ensures
        !merged(old, new, reqs, depth),
{
    if merged(old, new, reqs, depth) {
        let p = reqs[a].project@;
        let i = new.node_of(p)->0;
        assert(new.node_of(reqs[a].project@) is Some);
        lemma_range_inhabited(new.constraints@[i]);
        let v = choose|v: Version| new.constraints@[i].holds(v);
        assert(new.constraints@[i].holds(v));
        assert(all_admit(reqs, p, v));
        assert(reqs[a].constraint.holds(v) && reqs[b].constraint.holds(v));
    }
}

/// The same for seeds: two seeds on a project that is not soft whose ranges share no
/// version never give a hydrator.
pub proof fn lemma_seed_conflict_fails(h: Hydrator, input: Seq<PackageReq>, a: int, b: int)
    requires
        h.wf(),
        0 <= a < input.len(),
        0 <= b < input.len(),
        input[a].project@ == input[b].project@,
        !h.is_soft(input[a].project@),
        !admits_both(input[a].constraint, input[b].constraint),
    ensures
        !seeded(h, input),
{
    if seeded(h, input) {
        let p = input[a].project@;
        assert(h.node_of(input[a].project@) is Some);
        let i = h.node_of(p)->0;
        lemma_range_inhabited(h.constraints@[i]);
        let v = choose|v: Version| h.constraints@[i].holds(v);
        assert(h.constraints@[i].holds(v));
        assert(all_admit(input, p, v));
        assert(input[a].constraint.holds(v) && input[b].constraint.holds(v));
    }
}

} // verus!
