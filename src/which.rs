//! Which project provides a program.
use crate::types::PackageReq;
use vstd::prelude::*;

verus! {

/// Why no single project was found.
#[derive(Debug, Clone, PartialEq, Eq)]
pub enum WhichError {
    /// No project provides the program.
    CmdNotFound(String),
    /// Several do, and the requested packages do not settle which.
    MultipleProjects(String, Vec<String>),
}

/// Some requested package is of project `c`.
pub open spec fn requested(pkgs: Seq<PackageReq>, c: Seq<char>) -> bool {
    exists|k: int| 0 <= k < pkgs.len() && (#[trigger] pkgs[k]).project@ == c
}

/// The candidates that are among the requested packages, in order.
pub open spec fn picked(cands: Seq<String>, pkgs: Seq<PackageReq>) -> Seq<Seq<char>>
    decreases cands.len(),
{
    if cands.len() == 0 {
        Seq::empty()
    } else {
        let rest = picked(cands.drop_last(), pkgs);
        if requested(pkgs, cands.last()@) { rest.push(cands.last()@) } else { rest }
    }
}

fn is_requested(pkgs: &[PackageReq], c: &String) -> (r: bool)
    ensures
        r == requested(pkgs@, c@),
{
    let mut k: usize = 0;
    while k < pkgs.len()
        invariant
            k <= pkgs@.len(),
            forall|j: int| 0 <= j < k ==> (#[trigger] pkgs@[j]).project@ != c@,
        decreases pkgs@.len() - k,
    {
        if pkgs[k].project == *c {
            return true;
        }
        k = k + 1;
    }
    false
}

/// The project that provides `cmd`, given the `candidates` that provide it: the only one,
/// or else the only one among the requested packages `pkgs`.
pub fn which(cmd: &String, candidates: &Vec<String>, pkgs: &[PackageReq]) -> (r: Result<String, WhichError>)
    ensures
        candidates@.len() == 1 ==> r == Ok::<String, WhichError>(candidates@[0]),
        candidates@.len() == 0 ==> r == Err::<String, _>(WhichError::CmdNotFound(*cmd)),
        candidates@.len() > 1 ==> match r {
            Ok(p) => picked(candidates@, pkgs@).len() == 1 && p@ == picked(candidates@, pkgs@)[0],
            Err(e) => picked(candidates@, pkgs@).len() != 1 && (e matches WhichError::MultipleProjects(c, ps)
                && c == *cmd && ps@ == candidates@),
        },
{
    if candidates.len() == 1 {
        return Ok(candidates[0].clone());
    }
    if candidates.len() == 0 {
        return Err(WhichError::CmdNotFound(cmd.clone()));
    }
    let mut first: Option<usize> = None;
    let mut count: usize = 0;
    let mut i: usize = 0;
    while i < candidates.len()
        invariant
            i <= candidates@.len(),
            count as nat == picked(candidates@.take(i as int), pkgs@).len(),
            count <= i,
            first matches Some(f) ==> f < i && count >= 1 && picked(candidates@.take(i as int), pkgs@)[0] == candidates@[f as int]@,
            first is None ==> count == 0,
        decreases candidates@.len() - i,
    {
        let ghost before = picked(candidates@.take(i as int), pkgs@);
        proof {
            let t = candidates@.take(i + 1);
            assert(t.drop_last() =~= candidates@.take(i as int));
            assert(t.last() == candidates@[i as int]);
        }
        if is_requested(pkgs, &candidates[i]) {
            if count == 0 {
                first = Some(i);
            }
            count = count + 1;
        }
        i = i + 1;
    }
    assert(candidates@.take(candidates@.len() as int) =~= candidates@);
    match first {
        Some(f) => {
            if count == 1 {
                return Ok(candidates[f].clone());
            }
        },
        None => {},
    }
    let all = candidates.clone();
    assert(all@ =~= candidates@);
    Err(WhichError::MultipleProjects(cmd.clone(), all))
}

} // verus!
