//! Environment variable names compared as the platform compares them.
use crate::text::chars_of;
use vstd::prelude::*;

verus! {

/// A variable name compared without regard to ASCII case, as on platforms whose
/// environment ignores case.
#[derive(Debug, Clone)]
pub struct CaseInsensitiveKey(pub String);

pub open spec fn lower(c: char) -> char {
    if 'A' <= c <= 'Z' { ((c as u32 + 32) as u8) as char } else { c }
}

/// `a` and `b` are equal when ASCII letters are folded to lower case.
pub open spec fn same_ignoring_case(a: Seq<char>, b: Seq<char>) -> bool {
    a.len() == b.len() && forall|i: int| 0 <= i < a.len() ==> lower(#[trigger] a[i]) == lower(b[i])
}

fn lower_exec(c: char) -> (r: char)
    ensures
        r == lower(c),
{
    if 'A' <= c && c <= 'Z' {
        let b: u8 = (c as u32 + 32) as u8;
        b as char
    } else {
        c
    }
}

impl CaseInsensitiveKey {
    /// Whether the two names are the same but for ASCII case.
    pub fn matches(&self, other: &CaseInsensitiveKey) -> (r: bool)
        ensures
            r == same_ignoring_case(self.0@, other.0@),
    {
        let a = chars_of(self.0.as_str());
        let b = chars_of(other.0.as_str());
        if a.len() != b.len() {
            return false;
        }
        let mut i: usize = 0;
        while i < a.len()
            invariant
                i <= a@.len(),
                a@.len() == b@.len(),
                a@ == self.0@,
                b@ == other.0@,
                forall|k: int| 0 <= k < i ==> lower(#[trigger] a@[k]) == lower(b@[k]),
            decreases a@.len() - i,
        {
            if lower_exec(a[i]) != lower_exec(b[i]) {
                assert(lower(a@[i as int]) != lower(b@[i as int]));
                return false;
            }
            i = i + 1;
        }
        true
    }
}

impl PartialEq for CaseInsensitiveKey {
    fn eq(&self, other: &CaseInsensitiveKey) -> (r: bool) {
        self.matches(other)
    }
}

impl vstd::std_specs::cmp::PartialEqSpecImpl for CaseInsensitiveKey {
    open spec fn obeys_eq_spec() -> bool {
        true
    }

    open spec fn eq_spec(&self, other: &CaseInsensitiveKey) -> bool {
        same_ignoring_case(self.0@, other.0@)
    }
}

/// The key under which a variable is kept: on POSIX systems, whose environment is case
/// sensitive, the name itself.
pub fn construct_platform_case_aware_env_key(key: String) -> (r: String)
    ensures
        r == key,
{
    key
}

} // verus!
