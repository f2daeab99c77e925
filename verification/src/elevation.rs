//! The elevation protocol and the change broadcast: what is asked of the
//! system, and what its answer means. The calls themselves are the caller's.

use crate::text::{chars_of, join_with, push_chars, string_of, sub_chars, texts};
use crate::utf16::{encode_units, to_wide};
use vstd::prelude::*;

verus! {

/// The highest status code with which a launch request reports failure.
pub const LAUNCH_FAILURE_MAX: isize = 32;

/// The number of milliseconds that the change broadcast waits for a window.
pub const BROADCAST_TIMEOUT_MS: u32 = 2000;

/// A launch request could not be dispatched; `code` is the status that the
/// system gave. A declined elevation prompt shows up the same way.
#[derive(Clone, Copy, Debug, PartialEq, Eq, Structural)]
pub struct LaunchError {
    pub code: isize,
}

/// What to ask of the system to start the program again with administrator
/// rights. All texts are NUL-terminated wide strings.
#[derive(Clone, Debug, PartialEq, Eq)]
pub struct LaunchRequest {
    /// The operation, `runas`.
    pub operation: Vec<u16>,
    /// The path of the program.
    pub file: Vec<u16>,
    /// The command line arguments, or `None` if there are none to pass.
    pub parameters: Option<Vec<u16>>,
}

/// What to send to all top-level windows after a save.
#[derive(Clone, Debug, PartialEq, Eq)]
pub struct BroadcastRequest {
    /// The name of the setting that changed, a NUL-terminated wide string.
    pub setting: Vec<u16>,
    /// How long to wait for each window, in milliseconds.
    pub timeout_ms: u32,
}

/// Whether an argument has to be quoted: it holds a space or a quote.
pub open spec fn needs_quotes(s: Seq<char>) -> bool {
    exists|i: int| 0 <= i < s.len() && (s[i] == ' ' || s[i] == '"')
}

/// `s` with a backslash put before every quote.
pub open spec fn escaped(s: Seq<char>) -> Seq<char>
    decreases s.len(),
{
    if s.len() == 0 {
        Seq::empty()
    } else if s.last() == '"' {
        escaped(s.drop_last()) + seq!['\\', '"']
    } else {
        escaped(s.drop_last()).push(s.last())
    }
}

/// The argument as it stands on a command line: between quotes and with its
/// own quotes escaped if it needs quotes, and unchanged if not.
pub open spec fn quoted(s: Seq<char>) -> Seq<char> {
    if needs_quotes(s) {
        seq!['"'] + escaped(s) + seq!['"']
    } else {
        s
    }
}

/// Each argument as it stands on a command line.
pub open spec fn quoted_all(xs: Seq<Seq<char>>) -> Seq<Seq<char>> {
    Seq::new(xs.len(), |i: int| quoted(xs[i]))
}

/// The command line of the arguments: each quoted as needed, one space
/// between neighbours.
pub open spec fn command_line(xs: Seq<Seq<char>>) -> Seq<char> {
    join_with(quoted_all(xs), seq![' '])
}

/// Quotes a command line argument: one that holds a space or a quote is put
/// between quotes, with a backslash before each quote of its own; any other
/// is returned as it is.
pub fn quote_arg(arg: &str) -> (r: String)
    ensures
        r@ == quoted(arg@),
{
    let v = chars_of(arg);
    let q = quote_chars(&v);
    string_of(&q)
}

/// `quote_arg` on characters.
fn quote_chars(v: &Vec<char>) -> (r: Vec<char>)
    ensures
        r@ == quoted(v@),
{
    let n = v.len();
    let mut needed = false;
    let mut i: usize = 0;
    while i < n
        invariant
            n == v.len(),
            i <= n,
            needed == exists|k: int| 0 <= k < i && (v@[k] == ' ' || v@[k] == '"'),
        decreases n - i,
    {
        if v[i] == ' ' || v[i] == '"' {
            needed = true;
            proof {
                assert(v@[i as int] == ' ' || v@[i as int] == '"');
            }
        }
        i += 1;
    }
    if !needed {
        return sub_chars(v, 0, n);
    }
    let mut r: Vec<char> = Vec::new();
    r.push('"');
    let mut j: usize = 0;
    proof {
        assert(v@.take(0) =~= Seq::<char>::empty());
        assert(r@ =~= seq!['"'] + escaped(v@.take(0)));
    }
    while j < n
        invariant
            n == v.len(),
            j <= n,
            r@ == seq!['"'] + escaped(v@.take(j as int)),
        decreases n - j,
    {
        let c = v[j];
        let ghost before = r@;
        proof {
            assert(v@.take(j + 1).drop_last() =~= v@.take(j as int));
            assert(v@.take(j + 1).last() == c);
        }
        if c == '"' {
            r.push('\\');
            r.push('"');
            proof {
                assert(r@ =~= before + seq!['\\', '"']);
                assert(r@ =~= seq!['"'] + escaped(v@.take(j + 1)));
            }
        } else {
            r.push(c);
            proof {
                assert(r@ =~= seq!['"'] + escaped(v@.take(j + 1)));
            }
        }
        j += 1;
    }
    r.push('"');
    proof {
        assert(v@.take(n as int) =~= v@);
        assert(r@ =~= seq!['"'] + escaped(v@) + seq!['"']);
    }
    r
}

/// The command line that hands `args` on to a new instance of the program:
/// each argument quoted as `quote_arg` does, with one space between
/// neighbours.
pub fn relaunch_arguments(args: &[String]) -> (line: String)
    ensures
        line@ == command_line(texts(args@)),
{
    let ghost items = quoted_all(texts(args@));
    let mut out: Vec<char> = Vec::new();
    let mut i: usize = 0;
    proof {
        assert(items.take(0) =~= Seq::<Seq<char>>::empty());
    }
    while i < args.len()
        invariant
            i <= args.len(),
            items == quoted_all(texts(args@)),
            out@ == join_with(items.take(i as int), seq![' ']),
        decreases args.len() - i,
    {
        let item = quote_chars(&chars_of(args[i].as_str()));
        let ghost before = out@;
        proof {
            let next = items.take(i + 1);
            assert(next.drop_last() =~= items.take(i as int));
            assert(next.last() == item@);
        }
        if i > 0 {
            out.push(' ');
        }
        push_chars(&mut out, &item);
        proof {
            if i > 0 {
                assert(out@ =~= before + seq![' '] + item@);
            } else {
                assert(out@ =~= item@);
            }
        }
        i += 1;
    }
    proof {
        assert(items.take(args.len() as int) =~= items);
    }
    string_of(&out)
}

/// The request that starts the program at `exe` again with administrator
/// rights and the given arguments. An empty command line is not passed at
/// all.
pub fn restart_as_admin(exe: &str, args: &[String]) -> (request: LaunchRequest)
    ensures
        request.operation@ == encode_units("runas"@).push(0),
        request.file@ == encode_units(exe@).push(0),
        command_line(texts(args@)).len() == 0 ==> request.parameters is None,
        command_line(texts(args@)).len() > 0 ==> (request.parameters matches Some(p) && p@
            == encode_units(command_line(texts(args@))).push(0)),
{
    let line = relaunch_arguments(args);
    let parameters = if line.as_str().is_empty() {
        None
    } else {
        Some(to_wide(line.as_str()))
    };
    LaunchRequest { operation: to_wide("runas"), file: to_wide(exe), parameters }
}

/// What the status of a launch request means: a code of 32 or less is a
/// failure, which carries the code; any higher code is success, after which
/// the current process has to end.
pub fn launch_outcome(code: isize) -> (r: Result<(), LaunchError>)
    ensures
        r is Ok <==> code > LAUNCH_FAILURE_MAX,
        r matches Err(e) ==> e.code == code,
{
    if code <= LAUNCH_FAILURE_MAX {
        Err(LaunchError { code })
    } else {
        Ok(())
    }
}

/// The message that tells the other processes that the environment changed:
/// the setting `Environment`, with a wait of two seconds for each window.
pub fn broadcast_env_change() -> (request: BroadcastRequest)
    ensures
        request.setting@ == encode_units("Environment"@).push(0),
        request.timeout_ms == BROADCAST_TIMEOUT_MS,
{
    BroadcastRequest { setting: to_wide("Environment"), timeout_ms: BROADCAST_TIMEOUT_MS }
}

} // verus!
