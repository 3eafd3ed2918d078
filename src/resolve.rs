//! Splits hydrated requirements into those already installed and those to download.
use crate::cellar::{best, serves};
use crate::types::{Installation, Package, PackageReq};
use crate::version::not_after;
use vstd::prelude::*;

verus! {

/// The outcome of resolving requirements.
#[derive(Debug, Clone)]
pub struct Resolution {
    /// One package per requirement, installed or not.
    pub pkgs: Vec<Package>,
    /// The installations that serve requirements.
    pub installed: Vec<Installation>,
    /// The packages that are to be downloaded.
    pub pending: Vec<Package>,
}

/// No installed or published version serves a requirement.
#[derive(Debug, Clone)]
pub struct ResolveError {
    pub pkg: PackageReq,
}

/// A published package `p` can serve `req`.
pub open spec fn offers(req: PackageReq, p: Package) -> bool {
    p.project@ == req.project@ && req.constraint.holds(p.version)
}

pub open spec fn has_installed(req: PackageReq, installed: Seq<Installation>) -> bool {
    exists|i: int| 0 <= i < installed.len() && serves(req, #[trigger] installed[i])
}

pub open spec fn has_offer(req: PackageReq, available: Seq<Package>) -> bool {
    exists|i: int| 0 <= i < available.len() && offers(req, #[trigger] available[i])
}

/// The positions, among the first `n` requirements, of those that an installation serves.
pub open spec fn served_at(reqs: Seq<PackageReq>, installed: Seq<Installation>, n: int) -> Seq<int>
    decreases n,
{
    if n <= 0 {
        Seq::empty()
    } else {
        served_at(reqs, installed, n - 1) + if has_installed(reqs[n - 1], installed) { seq![n - 1] } else { Seq::empty() }
    }
}

/// The positions, among the first `n` requirements, of those that no installation serves.
pub open spec fn unserved_at(reqs: Seq<PackageReq>, installed: Seq<Installation>, n: int) -> Seq<int>
    decreases n,
{
    if n <= 0 {
        Seq::empty()
    } else {
        unserved_at(reqs, installed, n - 1) + if has_installed(reqs[n - 1], installed) { Seq::empty() } else { seq![n - 1] }
    }
}

/// No two requirements are on the same project.
pub open spec fn distinct_projects(reqs: Seq<PackageReq>) -> bool {
    forall|a: int, b: int| 0 <= a < b < reqs.len() ==> (#[trigger] reqs[a]).project@ != (#[trigger] reqs[b]).project@
}

proof fn lemma_positions(reqs: Seq<PackageReq>, installed: Seq<Installation>, n: int)
    requires
        0 <= n <= reqs.len(),
    ensures
        forall|j: int| 0 <= j < served_at(reqs, installed, n).len() ==> 0 <= #[trigger] served_at(reqs, installed, n)[j] < n
            && has_installed(reqs[served_at(reqs, installed, n)[j]], installed),
        forall|j: int| 0 <= j < unserved_at(reqs, installed, n).len() ==> 0 <= #[trigger] unserved_at(reqs, installed, n)[j] < n
            && !has_installed(reqs[unserved_at(reqs, installed, n)[j]], installed),
    decreases n,
{
    if n > 0 {
        lemma_positions(reqs, installed, n - 1);
        let s0 = served_at(reqs, installed, n - 1);
        let u0 = unserved_at(reqs, installed, n - 1);
        assert forall|j: int| 0 <= j < served_at(reqs, installed, n).len() implies 0 <= #[trigger] served_at(reqs, installed, n)[j] < n
            && has_installed(reqs[served_at(reqs, installed, n)[j]], installed) by {
            if j < s0.len() {
                assert(served_at(reqs, installed, n)[j] == s0[j]);
            }
        }
        assert forall|j: int| 0 <= j < unserved_at(reqs, installed, n).len() implies 0 <= #[trigger] unserved_at(reqs, installed, n)[j] < n
            && !has_installed(reqs[unserved_at(reqs, installed, n)[j]], installed) by {
            if j < u0.len() {
                assert(unserved_at(reqs, installed, n)[j] == u0[j]);
            }
        }
    }
}

/// `p` is the package chosen for `req`: the greatest installed version that serves it,
/// or else the greatest published one.
pub open spec fn chosen(req: PackageReq, p: Package, installed: Seq<Installation>, available: Seq<Package>) -> bool {
    &&& p.project@ == req.project@
    &&& req.constraint.holds(p.version)
    &&& if has_installed(req, installed) {
        (exists|k: int| 0 <= k < installed.len() && serves(req, installed[k]) && #[trigger] installed[k].pkg == p)
        && forall|i: int| 0 <= i < installed.len() && serves(req, #[trigger] installed[i])
            ==> not_after(installed[i].pkg.version, p.version)
    } else {
        (exists|k: int| 0 <= k < available.len() && offers(req, available[k]) && #[trigger] available[k] == p)
        && forall|i: int| 0 <= i < available.len() && offers(req, #[trigger] available[i])
            ==> not_after(available[i].version, p.version)
    }
}

fn best_offer(req: &PackageReq, available: &Vec<Package>) -> (r: Option<usize>)
    ensures
        r is None <==> !has_offer(*req, available@),
        r matches Some(k) ==> k < available@.len() && offers(*req, available@[k as int])
            && (forall|i: int| 0 <= i < available@.len() && offers(*req, #[trigger] available@[i])
                ==> not_after(available@[i].version, available@[k as int].version)),
{
    let mut found: Option<usize> = None;
    let mut i: usize = 0;
    while i < available.len()
        invariant
            i <= available@.len(),
            found is None <==> forall|j: int| 0 <= j < i ==> !offers(*req, #[trigger] available@[j]),
            found matches Some(k) ==> k < i && offers(*req, available@[k as int])
                && (forall|j: int| 0 <= j < i && offers(*req, #[trigger] available@[j])
                    ==> not_after(available@[j].version, available@[k as int].version)),
        decreases available@.len() - i,
    {
        let c = &available[i];
        if c.project == req.project && req.constraint.satisfies(&c.version) {
            match found {
                None => {
                    found = Some(i);
                },
                Some(k) => {
                    if !c.version.is_before(&available[k].version) {
                        found = Some(i);
                    }
                },
            }
        }
        i = i + 1;
    }
    found
}

/// How a resolution splits its packages: `installed` holds, in order, the installation
/// chosen for each requirement that one serves, and `pending` the package chosen for each
/// of the others; with requirements on distinct projects, no project is in both.
pub open spec fn res_split(reqs: Seq<PackageReq>, installed: Seq<Installation>, available: Seq<Package>, res: Resolution) -> bool {
    let sv = served_at(reqs, installed, reqs.len() as int);
    let un = unserved_at(reqs, installed, reqs.len() as int);
    &&& res.installed@.len() == sv.len()
    &&& forall|j: int| 0 <= j < sv.len() ==> (#[trigger] res.installed@[j]).pkg == res.pkgs@[sv[j]]
        && serves(reqs[sv[j]], res.installed@[j]) && installed.contains(res.installed@[j])
    &&& res.pending@.len() == un.len()
    &&& forall|j: int| 0 <= j < un.len() ==> #[trigger] res.pending@[j] == res.pkgs@[un[j]]
        && available.contains(res.pending@[j])
    &&& distinct_projects(reqs) ==> forall|a: int, b: int| 0 <= a < res.installed@.len() && 0 <= b < res.pending@.len()
        ==> (#[trigger] res.installed@[a]).pkg.project@ != (#[trigger] res.pending@[b]).project@
}

/// `res` resolves `reqs`: one chosen package per requirement, split as `res_split` says.
pub open spec fn resolved(reqs: Seq<PackageReq>, installed: Seq<Installation>, available: Seq<Package>, res: Resolution) -> bool {
    &&& res.pkgs@.len() == reqs.len()
    &&& forall|k: int| 0 <= k < reqs.len() ==> chosen(#[trigger] reqs[k], res.pkgs@[k], installed, available)
    &&& res_split(reqs, installed, available, res)
}

proof fn lemma_one_served(reqs: Seq<PackageReq>, installed: Seq<Installation>, k0: int, n: int)
    requires
        0 <= k0 < reqs.len(),
        0 <= n <= reqs.len(),
        has_installed(reqs[k0], installed),
        forall|k: int| 0 <= k < reqs.len() && k != k0 ==> !has_installed(#[trigger] reqs[k], installed),
    ensures
        served_at(reqs, installed, n) == if n > k0 { seq![k0] } else { Seq::<int>::empty() },
        unserved_at(reqs, installed, n).len() == if n > k0 { n - 1 } else { n },
    decreases n,
{
    if n > 0 {
        lemma_one_served(reqs, installed, k0, n - 1);
        if n - 1 == k0 {
            assert(served_at(reqs, installed, n) =~= seq![k0]);
        } else if n > k0 {
            assert(served_at(reqs, installed, n) =~= served_at(reqs, installed, n - 1));
        } else {
            assert(served_at(reqs, installed, n) =~= Seq::<int>::empty());
        }
    }
}

/// With requirements on distinct projects, of which exactly one is served by an
/// installation and the rest by published packages, resolving gives one installed package
/// (that requirement's), the rest pending, and one package per project.
pub proof fn lemma_one_installed(reqs: Seq<PackageReq>, installed: Seq<Installation>, available: Seq<Package>,
    res: Resolution, k0: int)
    requires
        distinct_projects(reqs),
        0 <= k0 < reqs.len(),
        has_installed(reqs[k0], installed),
        forall|k: int| 0 <= k < reqs.len() && k != k0 ==> !has_installed(#[trigger] reqs[k], installed)
            && has_offer(reqs[k], available),
        resolved(reqs, installed, available, res),
    ensures
        res.installed@.len() == 1,
        res.pending@.len() == reqs.len() - 1,
        res.pkgs@.len() == reqs.len(),
        res.installed@[0].pkg.project@ == reqs[k0].project@,
        forall|a: int, b: int| 0 <= a < b < res.pkgs@.len() ==> (#[trigger] res.pkgs@[a]).project@ != (#[trigger] res.pkgs@[b]).project@,
{
    let n = reqs.len() as int;
    lemma_one_served(reqs, installed, k0, n);
    assert(served_at(reqs, installed, n)[0] == k0);
    assert(chosen(reqs[k0], res.pkgs@[k0], installed, available));
    assert forall|a: int, b: int| 0 <= a < b < res.pkgs@.len() implies (#[trigger] res.pkgs@[a]).project@ != (#[trigger] res.pkgs@[b]).project@ by {
        assert(chosen(reqs[a], res.pkgs@[a], installed, available));
        assert(chosen(reqs[b], res.pkgs@[b], installed, available));
    }
}

/// Resolves each requirement, in order, to the greatest installed version that serves it,
/// or else to the greatest published version it admits. `installed` holds the store's
/// installations of the requested projects, `available` the published packages.
pub fn resolve(reqs: &Vec<PackageReq>, installed: &Vec<Installation>, available: &Vec<Package>)
    -> (r: Result<Resolution, ResolveError>)
    ensures
        match r {
            Ok(res) => resolved(reqs@, installed@, available@, res),
            Err(e) => exists|k: int| 0 <= k < reqs@.len() && !has_installed(#[trigger] reqs@[k], installed@)
                && !has_offer(reqs@[k], available@) && e.pkg.project == reqs@[k].project
                && e.pkg.constraint.raw == reqs@[k].constraint.raw && e.pkg.constraint.set@ == reqs@[k].constraint.set@
                && (forall|i: int| 0 <= i < k ==> #[trigger] has_installed(reqs@[i], installed@) || has_offer(reqs@[i], available@)),
        },
{
    let mut pkgs: Vec<Package> = Vec::new();
    let mut inst: Vec<Installation> = Vec::new();
    let mut pending: Vec<Package> = Vec::new();
    let mut k: usize = 0;
    while k < reqs.len()
        invariant
            k <= reqs@.len(),
            pkgs@.len() == k,
            forall|j: int| 0 <= j < k ==> chosen(#[trigger] reqs@[j], pkgs@[j], installed@, available@),
            forall|j: int| 0 <= j < k ==> #[trigger] has_installed(reqs@[j], installed@) || has_offer(reqs@[j], available@),
            inst@.len() == served_at(reqs@, installed@, k as int).len(),
            forall|j: int| 0 <= j < inst@.len() ==> (#[trigger] inst@[j]).pkg == pkgs@[served_at(reqs@, installed@, k as int)[j]]
                && serves(reqs@[served_at(reqs@, installed@, k as int)[j]], inst@[j]) && installed@.contains(inst@[j]),
            pending@.len() == unserved_at(reqs@, installed@, k as int).len(),
            forall|j: int| 0 <= j < pending@.len() ==> #[trigger] pending@[j] == pkgs@[unserved_at(reqs@, installed@, k as int)[j]]
                && available@.contains(pending@[j]),
        decreases reqs@.len() - k,
    {
        let req = &reqs[k];
        let ghost inst0 = inst@;
        let ghost pend0 = pending@;
        let ghost pk0 = pkgs@;
        let ghost sv0 = served_at(reqs@, installed@, k as int);
        let ghost un0 = unserved_at(reqs@, installed@, k as int);
        proof {
            lemma_positions(reqs@, installed@, k as int);
        }
        match best(req, installed) {
            Some(i) => {
                let x = installed[i].duplicate();
                pkgs.push(x.pkg.duplicate());
                inst.push(x);
                proof {
                    assert(has_installed(*req, installed@));
                    assert(serves(*req, installed@[i as int]) && installed@[i as int].pkg == pkgs@[k as int]);
                    assert(inst@[inst@.len() - 1] == installed@[i as int]);
                    let sv1 = served_at(reqs@, installed@, k + 1);
                    assert(sv1 == sv0 + seq![k as int]);
                    assert(unserved_at(reqs@, installed@, k + 1) =~= un0);
                    assert forall|j: int| 0 <= j < inst@.len() implies (#[trigger] inst@[j]).pkg == pkgs@[sv1[j]]
                        && serves(reqs@[sv1[j]], inst@[j]) && installed@.contains(inst@[j]) by {
                        if j < inst0.len() {
                            assert(inst@[j] == inst0[j]);
                            assert(sv1[j] == sv0[j]);
                            assert(pkgs@[sv0[j]] == pk0[sv0[j]]);
                        } else {
                            assert(inst@[j] == installed@[i as int]);
                            assert(sv1[j] == k);
                        }
                    }
                    assert forall|j: int| 0 <= j < pending@.len() implies #[trigger] pending@[j] == pkgs@[un0[j]]
                        && available@.contains(pending@[j]) by {
                        assert(pkgs@[un0[j]] == pk0[un0[j]]);
                    }
                }
            },
            None => {
                match best_offer(req, available) {
                    Some(i) => {
                        let p = available[i].duplicate();
                        pkgs.push(p.duplicate());
                        pending.push(p);
                        proof {
                            assert(!has_installed(*req, installed@));
                            assert(offers(*req, available@[i as int]) && available@[i as int] == pkgs@[k as int]);
                            assert(has_offer(*req, available@));
                            assert(pending@[pending@.len() - 1] == available@[i as int]);
                            let un1 = unserved_at(reqs@, installed@, k + 1);
                            assert(un1 == un0 + seq![k as int]);
                            assert(served_at(reqs@, installed@, k + 1) =~= sv0);
                            assert forall|j: int| 0 <= j < pending@.len() implies #[trigger] pending@[j] == pkgs@[un1[j]]
                                && available@.contains(pending@[j]) by {
                                if j < pend0.len() {
                                    assert(pending@[j] == pend0[j]);
                                    assert(un1[j] == un0[j]);
                                    assert(pkgs@[un0[j]] == pk0[un0[j]]);
                                } else {
                                    assert(pending@[j] == available@[i as int]);
                                    assert(un1[j] == k);
                                }
                            }
                            assert forall|j: int| 0 <= j < inst@.len() implies (#[trigger] inst@[j]).pkg == pkgs@[sv0[j]]
                                && serves(reqs@[sv0[j]], inst@[j]) && installed@.contains(inst@[j]) by {
                                assert(pkgs@[sv0[j]] == pk0[sv0[j]]);
                            }
                        }
                    },
                    None => {
                        return Err(ResolveError { pkg: req.duplicate() });
                    },
                }
            },
        }
        k = k + 1;
    }
    let res = Resolution { pkgs, installed: inst, pending };
    proof {
        let n = reqs@.len() as int;
        lemma_positions(reqs@, installed@, n);
        let sv = served_at(reqs@, installed@, n);
        let un = unserved_at(reqs@, installed@, n);
        if distinct_projects(reqs@) {
            assert forall|a: int, b: int| 0 <= a < res.installed@.len() && 0 <= b < res.pending@.len()
                implies (#[trigger] res.installed@[a]).pkg.project@ != (#[trigger] res.pending@[b]).project@ by {
                let x = sv[a];
                let y = un[b];
                assert(x != y);
                assert(chosen(reqs@[x], res.pkgs@[x], installed@, available@));
                assert(chosen(reqs@[y], res.pkgs@[y], installed@, available@));
                if x < y {
                    assert(reqs@[x].project@ != reqs@[y].project@);
                } else {
                    assert(reqs@[y].project@ != reqs@[x].project@);
                }
            }
        }
    }
    Ok(res)
}

} // verus!
