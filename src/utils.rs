//! Small decisions about programs on the host.
use crate::config::{join, joined};
use crate::text::{chars_of, slice_chars};
use vstd::prelude::*;

verus! {

/// The macOS system tools that only work once the command line developer tools are
/// installed.
pub open spec fn needs_clt(cmd: Seq<char>) -> bool {
    cmd == "/usr/bin/cc"@ || cmd == "/usr/bin/c++"@ || cmd == "/usr/bin/make"@ || cmd == "/usr/bin/python3"@
        || cmd == "/usr/bin/pip3"@ || cmd == "/usr/bin/strip"@ || cmd == "/usr/bin/git"@
}

/// Whether the system's `cmd` can be used on macOS: the tools that are only stubs until
/// the command line developer tools are installed need `has_xcode_clt`.
pub fn good_on_macos(cmd: &str, has_xcode_clt: bool) -> (r: bool)
    ensures
        r == (!needs_clt(cmd@) || has_xcode_clt),
{
    let c = String::from_str(cmd);
    let stubs = ["/usr/bin/cc", "/usr/bin/c++", "/usr/bin/make", "/usr/bin/python3", "/usr/bin/pip3", "/usr/bin/strip", "/usr/bin/git"];
    let mut i: usize = 0;
    while i < 7
        invariant
            i <= 7,
            c@ == cmd@,
            stubs@ == seq!["/usr/bin/cc", "/usr/bin/c++", "/usr/bin/make", "/usr/bin/python3", "/usr/bin/pip3", "/usr/bin/strip", "/usr/bin/git"],
            forall|k: int| 0 <= k < i ==> cmd@ != (#[trigger] stubs@[k])@,
        decreases 7 - i,
    {
        if c == String::from_str(stubs[i]) {
            return has_xcode_clt;
        }
        i = i + 1;
    }
    assert(!needs_clt(cmd@)) by {
        assert(cmd@ != stubs@[0]@);
        assert(cmd@ != stubs@[1]@);
        assert(cmd@ != stubs@[2]@);
        assert(cmd@ != stubs@[3]@);
        assert(cmd@ != stubs@[4]@);
        assert(cmd@ != stubs@[5]@);
        assert(cmd@ != stubs@[6]@);
    }
    true
}


/// Where to look for `arg` on each directory of `paths`, in order.
pub fn program_candidates(arg: &str, paths: &Vec<String>) -> (r: Vec<String>)
    ensures
        r@.len() == paths@.len(),
        forall|k: int| 0 <= k < paths@.len() ==> (#[trigger] r@[k])@ == joined(paths@[k]@, arg@),
{
    let mut out: Vec<String> = Vec::new();
    let mut i: usize = 0;
    while i < paths.len()
        invariant
            i <= paths@.len(),
            out@.len() == i,
            forall|k: int| 0 <= k < i ==> (#[trigger] out@[k])@ == joined(paths@[k]@, arg@),
        decreases paths@.len() - i,
    {
        out.push(join(paths[i].as_str(), arg));
        i = i + 1;
    }
    out
}

/// The program to run for `arg`: an absolute path as it is, a relative path against the
/// working directory `cwd`, and a bare name as the first of `executables` (the candidates
/// that are executable files); `None` when there is none.
pub fn find_program(arg: &str, cwd: &str, executables: &Vec<String>) -> (r: Option<String>)
    ensures
        arg@.len() > 0 && arg@[0] == '/' ==> (r matches Some(p) && p@ == arg@),
        !(arg@.len() > 0 && arg@[0] == '/') && arg@.contains('/') ==> (r matches Some(p) && p@ == joined(cwd@, arg@)),
        !arg@.contains('/') ==> match r {
            Some(p) => executables@.len() > 0 && p@ == executables@[0]@,
            None => executables@.len() == 0,
        },
{
    let a = chars_of(arg);
    if a.len() > 0 && a[0] == '/' {
        return Some(String::from_str(arg));
    }
    let mut i: usize = 0;
    while i < a.len()
        invariant
            i <= a@.len(),
            a@ == arg@,
            !(arg@.len() > 0 && arg@[0] == '/'),
            forall|k: int| 0 <= k < i ==> a@[k] != '/',
        decreases a@.len() - i,
    {
        if a[i] == '/' {
            assert(a@[i as int] == '/');
            assert(arg@.contains('/'));
            return Some(join(cwd, arg));
        }
        i = i + 1;
    }
    if executables.len() > 0 {
        Some(executables[0].clone())
    } else {
        None
    }
}

/// The value of a decimal text as `str::parse::<i32>` reads it: an optional sign, then one
/// or more ASCII digits, in range.
pub open spec fn digits_value(s: Seq<char>) -> int
    decreases s.len(),
{
    if s.len() == 0 { 0 } else { digits_value(s.drop_last()) * 10 + (s.last() as int - '0' as int) }
}

pub open spec fn all_digits(s: Seq<char>) -> bool {
    s.len() > 0 && forall|i: int| 0 <= i < s.len() ==> '0' <= #[trigger] s[i] <= '9'
}

pub open spec fn int_of_text(s: Seq<char>) -> Option<int> {
    let (neg, body) = if s.len() > 0 && (s[0] == '+' || s[0] == '-') { (s[0] == '-', s.skip(1)) } else { (false, s) };
    if !all_digits(body) {
        None
    } else {
        let v = if neg { -digits_value(body) } else { digits_value(body) };
        if -2147483648 <= v <= 2147483647 { Some(v) } else { None }
    }
}

/// How deeply this program may nest inside itself.
pub const MAX_LEVEL: i64 = 10;

/// The nesting level of a program started now, from the parent's `PKGX_LVL` (a value that
/// does not read as a number counts as 0); `None` when it would reach the limit.
pub fn next_level(current: Option<&str>) -> (r: Option<i64>)
    ensures
        ({
            let base = match current {
                Some(t) => match int_of_text(t@) { Some(v) => v, None => 0 },
                None => 0,
            };
            if base + 1 >= MAX_LEVEL { r is None } else { r == Some((base + 1) as i64) }
        }),
{
    let base: i64 = match current {
        None => 0,
        Some(t) => match read_i32(t) {
            Some(v) => v,
            None => 0,
        },
    };
    if base + 1 >= MAX_LEVEL {
        None
    } else {
        Some(base + 1)
    }
}

proof fn lemma_digits_bound(s: Seq<char>)
    requires
        forall|i: int| 0 <= i < s.len() ==> '0' <= #[trigger] s[i] <= '9',
    ensures
        digits_value(s) >= 0,
    decreases s.len(),
{
    if s.len() > 0 {
        assert forall|i: int| 0 <= i < s.drop_last().len() implies '0' <= #[trigger] s.drop_last()[i] <= '9' by {
            assert(s.drop_last()[i] == s[i]);
        }
        lemma_digits_bound(s.drop_last());
        assert(s[s.len() - 1] == s.last());
    }
}

fn read_i32(t: &str) -> (r: Option<i64>)
    ensures
        match r {
            Some(v) => int_of_text(t@) == Some(v as int),
            None => int_of_text(t@) is None,
        },
{
    let s = chars_of(t);
    let signed = s.len() > 0 && (s[0] == '+' || s[0] == '-');
    assert(s@ == t@);
    let neg = signed && s[0] == '-';
    let body = if signed { slice_chars(&s, 1, s.len()) } else { slice_chars(&s, 0, s.len()) };
    assert(signed ==> body@ =~= s@.skip(1));
    assert(!signed ==> body@ =~= s@);
    if body.len() == 0 {
        return None;
    }
    let mut v: i64 = 0;
    let mut i: usize = 0;
    while i < body.len()
        invariant
            i <= body@.len(),
            body@.len() > 0,
            signed == (t@.len() > 0 && (t@[0] == '+' || t@[0] == '-')),
            neg == (signed && t@[0] == '-'),
            body@ == if signed { t@.skip(1) } else { t@ },
            forall|k: int| 0 <= k < i ==> '0' <= #[trigger] body@[k] <= '9',
            v as int == digits_value(body@.take(i as int)),
            0 <= v <= 2147483648,
        decreases body@.len() - i,
    {
        let c = body[i];
        if !('0' <= c && c <= '9') {
            assert(!all_digits(body@));
            return None;
        }
        let d = (c as u32 - '0' as u32) as i64;
        proof {
            let tk = body@.take(i + 1);
            assert(tk.drop_last() =~= body@.take(i as int));
            assert(tk.last() == c);
        }
        if v * 10 + d > 2147483648 {
            proof {
                assert(digits_value(body@.take(i + 1)) == v * 10 + d);
                lemma_digits_grow(body@, i + 1);
            }
            return None;
        }
        v = v * 10 + d;
        i = i + 1;
    }
    assert(body@.take(body@.len() as int) =~= body@);
    let value: i64 = if neg { -v } else { v };
    if value > 2147483647 {
        return None;
    }
    Some(value)
}

/// A value only grows as digits are added.
proof fn lemma_digits_grow(s: Seq<char>, n: int)
    requires
        0 <= n <= s.len(),
    ensures
        all_digits(s) ==> digits_value(s) >= digits_value(s.take(n)),
    decreases s.len() - n,
{
    if n < s.len() {
        lemma_digits_grow(s, n + 1);
        if all_digits(s) {
            let tk = s.take(n + 1);
            assert(tk.drop_last() =~= s.take(n));
            assert(tk.last() == s[n]);
            assert forall|i: int| 0 <= i < s.take(n).len() implies '0' <= #[trigger] s.take(n)[i] <= '9' by {
                assert(s.take(n)[i] == s[i]);
            }
            lemma_digits_bound(s.take(n));
        }
    } else {
        assert(s.take(n) =~= s);
    }
}

} // verus!
