//! The command line: modes, flags, packages to add and the program to run.
use crate::text::{chars_of, slice_chars, string_of};
use vstd::prelude::*;

verus! {

#[derive(Debug, Clone, Copy, PartialEq, Eq, Structural)]
pub enum Mode {
    X,
    Help,
    Version,
    Query,
}

#[derive(Debug, Clone, Copy, PartialEq, Eq, Structural)]
pub struct Flags {
    pub quiet: bool,
    pub silent: bool,
    pub json: bool,
    pub version_n_continue: bool,
    pub shebang: bool,
}

#[derive(Debug, Clone)]
pub struct Args {
    pub plus: Vec<String>,
    pub args: Vec<String>,
    pub find_program: bool,
    pub mode: Mode,
    pub flags: Flags,
}

/// Why the command line was refused.
#[derive(Debug, Clone, PartialEq, Eq)]
pub enum ArgsError {
    /// An option this program does not know.
    UnknownArgument(String),
    /// `--shellcode`, which this version no longer offers.
    MigrationRequired,
}

/// What has been read of the command line so far.
pub struct Reading {
    pub plus: Seq<Seq<char>>,
    pub args: Seq<Seq<char>>,
    pub find_program: bool,
    pub collecting: bool,
    pub mode: Mode,
    pub flags: Flags,
}

pub open spec fn strs(v: Seq<String>) -> Seq<Seq<char>> {
    v.map_values(|s: String| s@)
}

/// `s` without its leading `+` signs.
pub open spec fn strip_plus(s: Seq<char>) -> Seq<char>
    decreases s.len(),
{
    if s.len() > 0 && s[0] == '+' { strip_plus(s.skip(1)) } else { s }
}

/// Reads the letters of a bundle of short options such as `-qq`, from position `i`.
pub open spec fn read_letters(f: Flags, m: Mode, a: Seq<char>, i: int) -> Option<(Flags, Mode)>
    decreases a.len() - i,
{
    if i >= a.len() || i < 0 {
        Some((f, m))
    } else {
        let c = a[i];
        if c == 'q' {
            if f.quiet { read_letters(Flags { silent: true, ..f }, m, a, i + 1) }
            else { read_letters(Flags { quiet: true, ..f }, m, a, i + 1) }
        } else if c == 'h' {
            read_letters(f, Mode::Help, a, i + 1)
        } else if c == 's' {
            read_letters(Flags { silent: true, ..f }, m, a, i + 1)
        } else if c == 'j' {
            read_letters(Flags { json: true, ..f }, m, a, i + 1)
        } else if c == 'v' {
            read_letters(Flags { version_n_continue: true, ..f }, m, a, i + 1)
        } else if c == '!' {
            read_letters(Flags { shebang: true, ..f }, m, a, i + 1)
        } else if c == 'Q' {
            read_letters(f, Mode::Query, a, i + 1)
        } else {
            None
        }
    }
}

/// What one more argument makes of a reading, or the error it causes.
pub open spec fn read_arg(r: Reading, a: Seq<char>) -> Result<Reading, ArgsError> {
    let f = r.flags;
    if r.collecting {
        Ok(Reading { args: r.args.push(a), ..r })
    } else if a.len() > 0 && a[0] == '+' {
        Ok(Reading { plus: r.plus.push(strip_plus(a)), ..r })
    } else if a == "--"@ {
        Ok(Reading { find_program: false, collecting: true, ..r })
    } else if a.len() >= 2 && a[0] == '-' && a[1] == '-' {
        if a == "--json"@ || a == "--json=v1"@ {
            Ok(Reading { flags: Flags { json: true, ..f }, ..r })
        } else if a == "--shebang"@ {
            Ok(Reading { flags: Flags { shebang: true, ..f }, ..r })
        } else if a == "--silent"@ {
            Ok(Reading { flags: Flags { silent: true, ..f }, ..r })
        } else if a == "--quiet"@ {
            Ok(Reading { flags: Flags { quiet: true, ..f }, ..r })
        } else if a == "--help"@ {
            Ok(Reading { mode: Mode::Help, ..r })
        } else if a == "--version"@ {
            Ok(Reading { mode: Mode::Version, ..r })
        } else if a == "--query"@ {
            Ok(Reading { mode: Mode::Query, ..r })
        } else if a == "--shellcode"@ {
            Err(ArgsError::MigrationRequired)
        } else {
            Err(ArgsError::UnknownArgument(arbitrary()))
        }
    } else if a.len() > 0 && a[0] == '-' {
        match read_letters(r.flags, r.mode, a, 1) {
            Some((f2, m2)) => Ok(Reading { flags: f2, mode: m2, ..r }),
            None => Err(ArgsError::UnknownArgument(arbitrary())),
        }
    } else {
        Ok(Reading { find_program: !a.contains('/'), collecting: true, args: r.args.push(a), ..r })
    }
}

pub open spec fn start_reading() -> Reading {
    Reading {
        plus: Seq::empty(),
        args: Seq::empty(),
        find_program: false,
        collecting: false,
        mode: Mode::X,
        flags: Flags { quiet: false, silent: false, json: false, version_n_continue: false, shebang: false },
    }
}

/// Reads arguments one after the other.
pub open spec fn read_all(argv: Seq<Seq<char>>) -> Result<Reading, ArgsError>
    decreases argv.len(),
{
    if argv.len() == 0 {
        Ok(start_reading())
    } else {
        match read_all(argv.drop_last()) {
            Ok(r) => read_arg(r, argv.last()),
            Err(e) => Err(e),
        }
    }
}

/// The same kind of outcome: both read, or both refused for the same reason.
pub open spec fn same_outcome(r: Result<Args, ArgsError>, s: Result<Reading, ArgsError>) -> bool {
    match (r, s) {
        (Ok(a), Ok(m)) => strs(a.plus@) == m.plus && strs(a.args@) == m.args
            && a.find_program == m.find_program && a.mode == m.mode && a.flags == m.flags,
        (Err(ArgsError::MigrationRequired), Err(ArgsError::MigrationRequired)) => true,
        (Err(ArgsError::UnknownArgument(_)), Err(ArgsError::UnknownArgument(_))) => true,
        _ => false,
    }
}

fn eq_lit(a: &Vec<char>, lit: &str) -> (r: bool)
    ensures
        r == (a@ == lit@),
{
    let b = chars_of(lit);
    if a.len() != b.len() {
        return false;
    }
    let mut i: usize = 0;
    while i < a.len()
        invariant
            i <= a@.len(),
            a@.len() == b@.len(),
            b@ == lit@,
            forall|k: int| 0 <= k < i ==> a@[k] == b@[k],
        decreases a@.len() - i,
    {
        if a[i] != b[i] {
            assert(a@[i as int] != b@[i as int]);
            return false;
        }
        i = i + 1;
    }
    assert(a@ =~= b@);
    true
}

fn has_slash(a: &Vec<char>) -> (r: bool)
    ensures
        r == a@.contains('/'),
{
    let mut i: usize = 0;
    while i < a.len()
        invariant
            i <= a@.len(),
            forall|k: int| 0 <= k < i ==> a@[k] != '/',
        decreases a@.len() - i,
    {
        if a[i] == '/' {
            assert(a@[i as int] == '/');
            return true;
        }
        i = i + 1;
    }
    false
}

/// The reading that `out` and `collecting` stand for.
pub open spec fn model(out: Args, collecting: bool) -> Reading {
    Reading {
        plus: strs(out.plus@),
        args: strs(out.args@),
        find_program: out.find_program,
        collecting,
        mode: out.mode,
        flags: out.flags,
    }
}

pub open spec fn same_error(e: ArgsError, s: Result<Reading, ArgsError>) -> bool {
    match (e, s) {
        (ArgsError::MigrationRequired, Err(ArgsError::MigrationRequired)) => true,
        (ArgsError::UnknownArgument(_), Err(ArgsError::UnknownArgument(_))) => true,
        _ => false,
    }
}

fn read_bundle(flags: &mut Flags, mode: &mut Mode, a: &Vec<char>) -> (ok: bool)
    ensures
        ok <==> read_letters(*old(flags), *old(mode), a@, 1) is Some,
        ok ==> read_letters(*old(flags), *old(mode), a@, 1) == Some((*final(flags), *final(mode))),
{
    let mut k: usize = 1;
    if a.len() < 1 {
        return true;
    }
    while k < a.len()
        invariant
            1 <= k <= a@.len(),
            read_letters(*old(flags), *old(mode), a@, 1) == read_letters(*flags, *mode, a@, k as int),
        decreases a@.len() - k,
    {
        let c = a[k];
        if c == 'q' {
            if flags.quiet {
                flags.silent = true;
            } else {
                flags.quiet = true;
            }
        } else if c == 'h' {
            *mode = Mode::Help;
        } else if c == 's' {
            flags.silent = true;
        } else if c == 'j' {
            flags.json = true;
        } else if c == 'v' {
            flags.version_n_continue = true;
        } else if c == '!' {
            flags.shebang = true;
        } else if c == 'Q' {
            *mode = Mode::Query;
        } else {
            return false;
        }
        k = k + 1;
    }
    true
}

fn read_one(out: &mut Args, collecting: &mut bool, arg: &String) -> (r: Result<(), ArgsError>)
    ensures
        r is Ok ==> read_arg(model(*old(out), *old(collecting)), arg@) == Ok::<_, ArgsError>(model(*final(out), *final(collecting))),
        r matches Err(e) ==> same_error(e, read_arg(model(*old(out), *old(collecting)), arg@)),
{
    let a = chars_of(arg.as_str());
    if *collecting {
        out.args.push(arg.clone());
        assert(strs(out.args@) =~= strs(old(out).args@).push(a@));
        return Ok(());
    }
    if a.len() > 0 && a[0] == '+' {
        let mut k: usize = 0;
        assert(a@.skip(0) =~= a@);
        while k < a.len() && a[k] == '+'
            invariant
                k <= a@.len(),
                strip_plus(a@) == strip_plus(a@.skip(k as int)),
            decreases a@.len() - k,
        {
            assert(a@.skip(k as int).skip(1) =~= a@.skip(k + 1));
            k = k + 1;
        }
        let rest = slice_chars(&a, k, a.len());
        assert(rest@ =~= a@.skip(k as int));
        out.plus.push(string_of(&rest));
        assert(strs(out.plus@) =~= strs(old(out).plus@).push(strip_plus(a@)));
        return Ok(());
    }
    if eq_lit(&a, "--") {
        out.find_program = false;
        *collecting = true;
        return Ok(());
    }
    if a.len() >= 2 && a[0] == '-' && a[1] == '-' {
        if eq_lit(&a, "--json") || eq_lit(&a, "--json=v1") {
            out.flags.json = true;
        } else if eq_lit(&a, "--shebang") {
            out.flags.shebang = true;
        } else if eq_lit(&a, "--silent") {
            out.flags.silent = true;
        } else if eq_lit(&a, "--quiet") {
            out.flags.quiet = true;
        } else if eq_lit(&a, "--help") {
            out.mode = Mode::Help;
        } else if eq_lit(&a, "--version") {
            out.mode = Mode::Version;
        } else if eq_lit(&a, "--query") {
            out.mode = Mode::Query;
        } else if eq_lit(&a, "--shellcode") {
            return Err(ArgsError::MigrationRequired);
        } else {
            return Err(ArgsError::UnknownArgument(arg.clone()));
        }
        return Ok(());
    }
    if a.len() > 0 && a[0] == '-' {
        if read_bundle(&mut out.flags, &mut out.mode, &a) {
            return Ok(());
        }
        return Err(ArgsError::UnknownArgument(arg.clone()));
    }
    out.find_program = !has_slash(&a);
    *collecting = true;
    out.args.push(arg.clone());
    assert(strs(out.args@) =~= strs(old(out).args@).push(a@));
    Ok(())
}

/// Reads the command line `argv` (without the program's own name): `+pkg` adds a package,
/// options set the mode and flags, and the first other argument, with all that follow it
/// (or all that follow `--`), is the command to run.
pub fn parse(argv: &Vec<String>) -> (r: Result<Args, ArgsError>)
    ensures
        same_outcome(r, read_all(strs(argv@))),
{
    let mut out = Args {
        plus: Vec::new(),
        args: Vec::new(),
        find_program: false,
        mode: Mode::X,
        flags: Flags { quiet: false, silent: false, json: false, version_n_continue: false, shebang: false },
    };
    let mut collecting = false;
    let mut i: usize = 0;
    assert(model(out, collecting) == start_reading()) by {
        assert(strs(out.plus@) =~= Seq::<Seq<char>>::empty());
        assert(strs(out.args@) =~= Seq::<Seq<char>>::empty());
    }
    assert(strs(argv@).take(0) =~= Seq::<Seq<char>>::empty());
    while i < argv.len()
        invariant
            i <= argv@.len(),
            read_all(strs(argv@).take(i as int)) == Ok::<_, ArgsError>(model(out, collecting)),
        decreases argv@.len() - i,
    {
        proof {
            let t = strs(argv@).take(i + 1);
            assert(t.drop_last() =~= strs(argv@).take(i as int));
            assert(t.last() == argv@[i as int]@);
        }
        match read_one(&mut out, &mut collecting, &argv[i]) {
            Ok(()) => {},
            Err(e) => {
                proof {
                    lemma_errors_stay(strs(argv@), i as int + 1);
                }
                return Err(e);
            },
        }
        i = i + 1;
    }
    assert(strs(argv@).take(argv@.len() as int) =~= strs(argv@));
    Ok(out)
}

/// Once an argument is refused, reading more keeps the refusal.
proof fn lemma_errors_stay(argv: Seq<Seq<char>>, n: int)
    requires
        0 <= n <= argv.len(),
        read_all(argv.take(n)) is Err,
    ensures
        read_all(argv) is Err,
        read_all(argv.take(n)) == read_all(argv),
    decreases argv.len() - n,
{
    if n < argv.len() {
        let t = argv.take(n + 1);
        assert(t.drop_last() =~= argv.take(n));
        lemma_errors_stay(argv, n + 1);
    } else {
        assert(argv.take(n) =~= argv);
    }
}

} // verus!
