//! Installation planning: which version aliases to point at a new installation, and
//! where its files are unpacked.
use crate::text::{append_chars, chars_of, decimal, decimal_chars, string_of};
use crate::types::Package;
use crate::version::{before, Version};
use vstd::prelude::*;

verus! {

/// Progress of one download.
#[derive(Debug, Clone, Copy, PartialEq, Eq, Structural)]
pub enum InstallEvent {
    /// Total size of the download in bytes.
    DownloadSize(u64),
    /// Bytes received since the last event.
    Progress(u64),
}

/// No installed version of `v`'s minor line comes after `v`.
pub open spec fn newest_of_minor(installed: Seq<Version>, v: Version) -> bool {
    forall|i: int| 0 <= i < installed.len() && (#[trigger] installed[i]).major == v.major
        && installed[i].minor == v.minor ==> !before(v, installed[i])
}

/// No installed version of `v`'s major line comes after `v`.
pub open spec fn newest_of_major(installed: Seq<Version>, v: Version) -> bool {
    forall|i: int| 0 <= i < installed.len() && (#[trigger] installed[i]).major == v.major ==> !before(v, installed[i])
}

/// No installed version comes after `v`.
pub open spec fn newest_of_all(installed: Seq<Version>, v: Version) -> bool {
    forall|i: int| 0 <= i < installed.len() ==> !before(v, #[trigger] installed[i])
}

/// `v<major>.<minor>`.
pub open spec fn minor_alias(v: Version) -> Seq<char> {
    seq!['v'] + decimal(v.major as nat) + seq!['.'] + decimal(v.minor as nat)
}

/// `v<major>`.
pub open spec fn major_alias(v: Version) -> Seq<char> {
    seq!['v'] + decimal(v.major as nat)
}

/// The newest of a line is the newest of every narrower line that holds it.
pub proof fn lemma_alias_lines(installed: Seq<Version>, v: Version)
    ensures
        newest_of_all(installed, v) ==> newest_of_major(installed, v),
        newest_of_major(installed, v) ==> newest_of_minor(installed, v),
{
}

/// The aliases to point at the installation of `v`, given every installed version of its
/// project: `v<major>.<minor>` when `v` is the newest of its minor line, then
/// `v<major>` when it is the newest of its major line, then `v*` when it is the newest of
/// all.
pub fn aliases(installed: &Vec<Version>, v: &Version) -> (r: Vec<String>)
    ensures
        r@.len() >= 1 <==> newest_of_minor(installed@, *v),
        r@.len() >= 2 <==> newest_of_major(installed@, *v),
        r@.len() == 3 <==> newest_of_all(installed@, *v),
        r@.len() <= 3,
        r@.len() >= 1 ==> r@[0]@ == minor_alias(*v),
        r@.len() >= 2 ==> r@[1]@ == major_alias(*v),
        r@.len() == 3 ==> r@[2]@ == seq!['v', '*'],
{
    let mut minor = true;
    let mut major = true;
    let mut all = true;
    let mut i: usize = 0;
    while i < installed.len()
        invariant
            i <= installed@.len(),
            minor == forall|j: int| 0 <= j < i && (#[trigger] installed@[j]).major == v.major
                && installed@[j].minor == v.minor ==> !before(*v, installed@[j]),
            major == forall|j: int| 0 <= j < i && (#[trigger] installed@[j]).major == v.major ==> !before(*v, installed@[j]),
            all == forall|j: int| 0 <= j < i ==> !before(*v, #[trigger] installed@[j]),
        decreases installed@.len() - i,
    {
        let w = &installed[i];
        if v.is_before(w) {
            all = false;
            if w.major == v.major {
                major = false;
                if w.minor == v.minor {
                    minor = false;
                }
            }
        }
        proof {
            if !minor {
                assert(exists|j: int| 0 <= j < i + 1 && (#[trigger] installed@[j]).major == v.major
                    && installed@[j].minor == v.minor && before(*v, installed@[j]));
            }
        }
        i = i + 1;
    }
    let mut r: Vec<String> = Vec::new();
    if !minor {
        return r;
    }
    let mut a = chars_of("v");
    let maj = decimal_chars(v.major as u64);
    append_chars(&mut a, &maj);
    let b = a.clone();
    a.push('.');
    let min = decimal_chars(v.minor as u64);
    append_chars(&mut a, &min);
    proof {
        reveal_strlit("v");
    }
    r.push(string_of(&a));
    assert(r@[0]@ =~= minor_alias(*v));
    if !major {
        return r;
    }
    r.push(string_of(&b));
    assert(r@[1]@ =~= major_alias(*v));
    if !all {
        return r;
    }
    let mut c = chars_of("v");
    c.push('*');
    proof {
        reveal_strlit("v");
    }
    r.push(string_of(&c));
    assert(r@[2]@ =~= seq!['v', '*']);
    r
}

/// Where the package's files lie inside the unpacked archive: `<project>/v<version>`.
pub fn partial_path(pkg: &Package) -> (r: String)
    ensures
        r@ == pkg.project@ + seq!['/', 'v'] + pkg.version.raw@,
{
    let mut t = chars_of(pkg.project.as_str());
    t.push('/');
    t.push('v');
    let raw = chars_of(pkg.version.raw.as_str());
    append_chars(&mut t, &raw);
    string_of(&t)
}

} // verus!
