//! Package specifications on the command line: a requirement, or `project@latest`.
use crate::text::{chars_of, slice_chars, string_of};
use crate::types::{req_of_text, PackageReq, ReqError};
use crate::version::{not_after, same, Version, VersionRange};
use vstd::prelude::*;

verus! {

/// A requirement, or the newest published version of a project.
#[derive(Debug, Clone)]
pub enum Pkgspec {
    Req(PackageReq),
    Latest(String),
}

/// `s` ends with `@latest`.
pub open spec fn ends_latest(s: Seq<char>) -> bool {
    s.len() >= 7 && s.subrange(s.len() - 7, s.len() as int) == "@latest"@
}

/// Reads `project@latest`, or else a requirement.
pub fn parse_pkgspec(pkgspec: &str) -> (r: Result<Pkgspec, ReqError>)
    ensures
        ends_latest(pkgspec@) ==> (r matches Ok(Pkgspec::Latest(p)) && p@ == pkgspec@.subrange(0, pkgspec@.len() - 7)),
        !ends_latest(pkgspec@) ==> match r {
            Ok(Pkgspec::Req(q)) => req_of_text(pkgspec@) == Ok::<_, ReqError>(q@),
            Ok(Pkgspec::Latest(_)) => false,
            Err(e) => req_of_text(pkgspec@) == Err::<(Seq<char>, (Seq<char>, Seq<crate::version::BoundView>)), _>(e),
        },
{
    let t = chars_of(pkgspec);
    let tail = chars_of("@latest");
    proof {
        reveal_strlit("@latest");
    }
    if t.len() >= 7 && crate::text::matches_at(&t, &tail, t.len() - 7) {
        let p = slice_chars(&t, 0, t.len() - 7);
        return Ok(Pkgspec::Latest(string_of(&p)));
    }
    match PackageReq::parse(pkgspec) {
        Ok(q) => Ok(Pkgspec::Req(q)),
        Err(e) => Err(e),
    }
}

/// `vs[k]` is a greatest version of `vs`.
pub open spec fn newest_at(vs: Seq<Version>, k: int) -> bool {
    0 <= k < vs.len() && forall|i: int| 0 <= i < vs.len() ==> not_after(#[trigger] vs[i], vs[k])
}

impl Pkgspec {
    pub open spec fn project_spec(&self) -> Seq<char> {
        match self {
            Pkgspec::Req(q) => q.project@,
            Pkgspec::Latest(p) => p@,
        }
    }

    /// The project named.
    pub fn project(&self) -> (r: String)
        ensures
            r@ == self.project_spec(),
    {
        match self {
            Pkgspec::Req(q) => q.project.clone(),
            Pkgspec::Latest(p) => p.clone(),
        }
    }

    /// Names another project, keeping the rest.
    pub fn set_project(&mut self, project: String)
        ensures
            final(self).project_spec() == project@,
            (*old(self) is Req) <==> (*final(self) is Req),
            *old(self) matches Pkgspec::Req(q) ==> (*final(self) matches Pkgspec::Req(n) && n.constraint == q.constraint),
    {
        match self {
            Pkgspec::Req(q) => {
                q.project = project;
            },
            Pkgspec::Latest(_) => {
                *self = Pkgspec::Latest(project);
            },
        }
    }

    /// The requirement to resolve: the one given, or for `@latest` exactly the newest of
    /// the published `versions` (any version when none is known).
    pub fn pkgreq(&self, versions: &Vec<Version>) -> (r: PackageReq)
        ensures
            r.project@ == self.project_spec(),
            *self matches Pkgspec::Req(q) ==> r.constraint.raw == q.constraint.raw && r.constraint.set@ == q.constraint.set@,
            *self is Latest && versions@.len() == 0 ==> r.constraint.raw@ == seq!['*'] && forall|w: Version| r.constraint.holds(w),
            *self is Latest && versions@.len() > 0 ==> exists|k: int| #[trigger] newest_at(versions@, k)
                && (forall|w: Version| r.constraint.holds(w) <==> same(versions@[k], w)),
    {
        match self {
            Pkgspec::Req(q) => q.duplicate(),
            Pkgspec::Latest(p) => {
                let any = VersionRange::any();
                match any.select(versions) {
                    Some(k) => {
                        proof {
                            assert forall|i: int| 0 <= i < versions@.len() implies not_after(#[trigger] versions@[i], versions@[k as int]) by {
                                assert(any.holds(versions@[i]));
                            }
                            assert(newest_at(versions@, k as int));
                        }
                        PackageReq { project: p.clone(), constraint: VersionRange::single(&versions[k]) }
                    },
                    None => {
                        proof {
                            if versions@.len() > 0 {
                                assert(any.holds(versions@[0]));
                            }
                        }
                        PackageReq { project: p.clone(), constraint: any }
                    },
                }
            },
        }
    }
}

} // verus!
