//! Recognizing `attend listen` invocations and `/attend` prompts.

use vstd::prelude::*;
use crate::hook_types::{HookInput, HookKind};
use crate::text::{chars_eq, chars_of, is_whitespace, is_ws, str_eq, string_of, trim_chars, trim_spec};

verus! {

broadcast use vstd::string::group_string_axioms;

/// What kind of `attend listen` invocation was detected.
#[derive(Debug, Clone, Copy, PartialEq, Eq, Structural)]
pub enum ListenCommand {
    /// `attend listen` (start/wait mode).
    Listen,
    /// `attend listen --stop` (deactivation).
    ListenStop,
}

/// Splitting `s` into maximal runs of non-whitespace characters, given the
/// run collected so far (`cur`) and the finished runs (`acc`).
pub open spec fn split_fold(s: Seq<char>, cur: Seq<char>, acc: Seq<Seq<char>>) -> Seq<Seq<char>>
    decreases s.len(),
{
    if s.len() == 0 {
        if cur.len() > 0 {
            acc.push(cur)
        } else {
            acc
        }
    } else if is_ws(s[0]) {
        split_fold(
            s.drop_first(),
            Seq::empty(),
            if cur.len() > 0 {
                acc.push(cur)
            } else {
                acc
            },
        )
    } else {
        split_fold(s.drop_first(), cur.push(s[0]), acc)
    }
}

/// `str::split_whitespace`: the maximal runs of non-whitespace characters.
pub open spec fn ws_tokens(s: Seq<char>) -> Seq<Seq<char>> {
    split_fold(s, Seq::empty(), Seq::empty())
}

/// `Path::file_name` of a path, as a string.
pub uninterp spec fn file_name_text(path: Seq<char>) -> Option<Seq<char>>;

/// The file name of a path: its last component, unless that is `..` or
/// there is none.
///
/// Trusted: calls `std::path::Path::file_name`, a function of the path
/// alone; the file name of a `&str` path is valid UTF-8, so `to_str` keeps it.
#[verifier::external_body]
fn path_file_name(path: &str) -> (r: Option<String>)
    ensures
        match file_name_text(path@) {
            Some(n) => r matches Some(x) && x@ == n,
            None => r is None,
        },
{
    std::path::Path::new(path).file_name().and_then(|n| n.to_str()).map(|n| n.to_string())
}

/// The listen command that the shell command `cmd` invokes through the binary `bin`.
pub open spec fn listen_command_spec(cmd: Seq<char>, bin: Seq<char>) -> Option<ListenCommand> {
    let t = ws_tokens(cmd);
    if t.len() < 2 {
        None
    } else {
        listen_from_name(cmd, file_name_text(t[0]), bin)
    }
}

/// The listen command that the shell command `cmd` invokes through the
/// binary `bin`, given the file name of its first word.
pub open spec fn listen_from_name(cmd: Seq<char>, name: Option<Seq<char>>, bin: Seq<char>) -> Option<ListenCommand> {
    let t = ws_tokens(cmd);
    if t.len() < 2 {
        None
    } else if name != Some(bin) || t[1] != seq!['l', 'i', 's', 't', 'e', 'n'] {
        None
    } else if exists|k: int|
        2 <= k < t.len() && #[trigger] t[k] == seq!['-', '-', 's', 't', 'o', 'p'] {
        Some(ListenCommand::ListenStop)
    } else {
        Some(ListenCommand::Listen)
    }
}

/// Deep view of a vector of character vectors.
pub open spec fn deep_chars(v: Seq<Vec<char>>) -> Seq<Seq<char>> {
    v.map_values(|x: Vec<char>| x@)
}

/// Splits `s` into maximal runs of non-whitespace characters.
fn split_on(s: &Vec<char>) -> (r: Vec<Vec<char>>)
    ensures
        deep_chars(r@) == split_fold(s@, Seq::empty(), Seq::empty()),
{
    let mut acc: Vec<Vec<char>> = Vec::new();
    let mut cur: Vec<char> = Vec::new();
    let mut i: usize = 0;
    assert(s@.skip(0) =~= s@);
    assert(deep_chars(acc@) =~= Seq::<Seq<char>>::empty());
    while i < s.len()
        invariant
            i <= s.len(),
            split_fold(s@, Seq::empty(), Seq::empty()) == split_fold(
                s@.skip(i as int),
                cur@,
                deep_chars(acc@),
            ),
        decreases s.len() - i,
    {
        let c = s[i];
        let sep = is_whitespace(c);
        let ghost old_cur = cur@;
        let ghost old_acc = deep_chars(acc@);
        proof {
            assert(s@.skip(i as int).drop_first() == s@.skip(i + 1));
            assert(s@.skip(i as int)[0] == c);
            assert(sep == is_ws(c));
        }
        if sep {
            if cur.len() > 0 {
                acc.push(cur);
                proof {
                    assert(deep_chars(acc@) =~= old_acc.push(old_cur));
                }
                cur = Vec::new();
            }
            proof {
                assert(cur@ =~= Seq::<char>::empty());
            }
        } else {
            cur.push(c);
        }
        proof {
            assert(split_fold(s@.skip(i as int), old_cur, old_acc) == split_fold(
                s@.skip(i + 1),
                cur@,
                deep_chars(acc@),
            ));
        }
        i += 1;
    }
    if cur.len() > 0 {
        let ghost old_acc = acc@;
        let ghost old_cur = cur@;
        acc.push(cur);
        proof {
            assert(deep_chars(acc@) =~= deep_chars(old_acc).push(old_cur));
        }
    }
    proof {
        assert(s@.skip(s.len() as int) =~= Seq::<char>::empty());
    }
    acc
}

/// The whitespace-separated tokens of `s`.
pub fn whitespace_tokens(s: &str) -> (r: Vec<Vec<char>>)
    ensures
        deep_chars(r@) == ws_tokens(s@),
{
    let v = chars_of(s);
    split_on(&v)
}

/// Parse a command string for `<bin_name> listen [--stop]`.
///
/// The command token may be a bare name or a full path; only the filename
/// component is compared against `bin_name`.
pub fn parse_listen_command(cmd: &str, bin_name: &str) -> (r: Option<ListenCommand>)
    ensures
        r == listen_command_spec(cmd@, bin_name@),
{
    let t = whitespace_tokens(cmd);
    if t.len() < 2 {
        return None;
    }
    let first = string_of(t[0].as_slice());
    let name = path_file_name(first.as_str());
    let n: Option<&str> = match &name {
        Some(x) => Some(x.as_str()),
        None => None,
    };
    listen_command_named(cmd, n, bin_name)
}

/// The listen command that `cmd` invokes through `bin_name`, given the file
/// name of the command's first word (`None` when it has none).
pub fn listen_command_named(cmd: &str, name: Option<&str>, bin_name: &str) -> (r: Option<ListenCommand>)
    ensures
        r == listen_from_name(cmd@, crate::paths::opt_view(name), bin_name@),
{
    let t = whitespace_tokens(cmd);
    let ghost dt = deep_chars(t@);
    if t.len() < 2 {
        return None;
    }
    let listen: Vec<char> = vec!['l', 'i', 's', 't', 'e', 'n'];
    let stop: Vec<char> = vec!['-', '-', 's', 't', 'o', 'p'];
    assert(dt[0] == t@[0]@ && dt[1] == t@[1]@);
    match name {
        None => {
            return None;
        },
        Some(n) => {
            if !str_eq(n, bin_name) {
                return None;
            }
        },
    }
    if !chars_eq(t[1].as_slice(), listen.as_slice()) {
        return None;
    }
    let mut k: usize = 2;
    while k < t.len()
        invariant
            2 <= k <= t.len(),
            dt == deep_chars(t@),
            dt == ws_tokens(cmd@),
            crate::paths::opt_view(name) == Some(bin_name@),
            dt[1] == seq!['l', 'i', 's', 't', 'e', 'n'],
            stop@ == seq!['-', '-', 's', 't', 'o', 'p'],
            forall|m: int| 2 <= m < k ==> dt[m] != stop@,
        decreases t.len() - k,
    {
        assert(dt[k as int] == t@[k as int]@);
        if chars_eq(t[k].as_slice(), stop.as_slice()) {
            assert(ws_tokens(cmd@)[k as int] == stop@);
            return Some(ListenCommand::ListenStop);
        }
        k += 1;
    }
    Some(ListenCommand::Listen)
}

/// Whether `cmd` runs `<bin_name> listen`, with or without `--stop`.
pub fn is_listen_command(cmd: &str, bin_name: &str) -> (r: bool)
    ensures
        r == listen_command_spec(cmd@, bin_name@) is Some,
{
    parse_listen_command(cmd, bin_name).is_some()
}

/// Detect whether the tool being invoked is `<binary> listen [--stop]`, given the file
/// name of the running binary (`None` when it cannot be determined).
pub fn detect_listen_command(input: &HookInput, bin_name: Option<&str>) -> (r: Option<ListenCommand>)
    ensures
        r == (match (&input.kind, bin_name) {
            (HookKind::ToolUse { bash_command: Some(cmd) }, Some(b)) => listen_command_spec(cmd@, b@),
            _ => None,
        }),
{
    match (&input.kind, bin_name) {
        (HookKind::ToolUse { bash_command: Some(cmd) }, Some(b)) => parse_listen_command(cmd.as_str(), b),
        _ => None,
    }
}

/// The prompt text that activates narration.
pub open spec fn is_attend_text(p: Seq<char>) -> bool {
    ||| trim_spec(p) == seq!['/', 'a', 't', 't', 'e', 'n', 'd']
    ||| trim_spec(p) == seq!['/', 'a', 't', 't', 'e', 'n', 'd', ':', 's', 't', 'a', 'r', 't']
}

/// The prompt text that deactivates narration.
pub open spec fn is_unattend_text(p: Seq<char>) -> bool {
    ||| trim_spec(p) == seq!['/', 'u', 'n', 'a', 't', 't', 'e', 'n', 'd']
    ||| trim_spec(p) == seq!['/', 'a', 't', 't', 'e', 'n', 'd', ':', 's', 't', 'o', 'p']
}

/// Check if the user prompt is `/attend` (manual install) or `/attend:start` (plugin).
pub fn is_attend_prompt(input: &HookInput) -> (r: bool)
    ensures
        r == (input.kind matches HookKind::UserPrompt { prompt: Some(p) } && is_attend_text(p@)),
{
    match &input.kind {
        HookKind::UserPrompt { prompt: Some(p) } => {
            let t = trim_chars(p.as_str());
            let a: Vec<char> = vec!['/', 'a', 't', 't', 'e', 'n', 'd'];
            let b: Vec<char> = vec!['/', 'a', 't', 't', 'e', 'n', 'd', ':', 's', 't', 'a', 'r', 't'];
            chars_eq(t.as_slice(), a.as_slice()) || chars_eq(t.as_slice(), b.as_slice())
        },
        _ => false,
    }
}

/// Check if the user prompt is `/unattend` (manual install) or `/attend:stop` (plugin).
pub fn is_unattend_prompt(input: &HookInput) -> (r: bool)
    ensures
        r == (input.kind matches HookKind::UserPrompt { prompt: Some(p) } && is_unattend_text(p@)),
{
    match &input.kind {
        HookKind::UserPrompt { prompt: Some(p) } => {
            let t = trim_chars(p.as_str());
            let a: Vec<char> = vec!['/', 'u', 'n', 'a', 't', 't', 'e', 'n', 'd'];
            let b: Vec<char> = vec!['/', 'a', 't', 't', 'e', 'n', 'd', ':', 's', 't', 'o', 'p'];
            chars_eq(t.as_slice(), a.as_slice()) || chars_eq(t.as_slice(), b.as_slice())
        },
        _ => false,
    }
}

} // verus!
