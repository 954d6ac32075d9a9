//! Persisted AI sessions: identifiers, bounded conversation history, and
//! the replacement of a session file that keeps the old one on failure.

use vstd::prelude::*;
use crate::analysis::{AiChatTurn, LeakInsight};
use crate::errors::CoreError;
use crate::text::{chars_of, dec_chars, push_decimal, push_str, string_from_chars};

verus! {

/// The format version of persisted sessions.
pub const MCP_SESSION_VERSION: u32 = 1;

/// How many conversation turns a session keeps.
pub const MAX_SESSION_HISTORY: usize = 3;

/// The conversation part of a session.
#[derive(Debug, Clone, PartialEq, Eq)]
pub struct SessionConversationSnapshot {
    pub focus_leak_id: Option<String>,
    pub history: Vec<AiChatTurn>,
}

/// Appends a turn and keeps only the last `MAX_SESSION_HISTORY` turns.
pub fn trim_history(history: &mut Vec<AiChatTurn>, turn: AiChatTurn)
    requires
        old(history)@.len() < usize::MAX,
    ensures
        ({
            let all = old(history)@.push(turn);
            final(history)@ == if all.len() > MAX_SESSION_HISTORY {
                all.skip(all.len() - MAX_SESSION_HISTORY)
            } else {
                all
            }
        }),
{
    history.push(turn);
    if history.len() > MAX_SESSION_HISTORY {
        let excess = history.len() - MAX_SESSION_HISTORY;
        let ghost all = history@;
        let mut k: usize = 0;
        while k < excess
            invariant
                k <= excess,
                excess == all.len() - MAX_SESSION_HISTORY,
                history@ == all.skip(k as int),
            decreases excess - k,
        {
            history.remove(0);
            k = k + 1;
            proof {
                assert(history@ =~= all.skip(k as int));
            }
        }
    }
}

/// Session ids are non-empty runs of ASCII letters, digits and `-`.
pub open spec fn valid_session_id(id: Seq<char>) -> bool {
    id.len() > 0 && forall|i: int| 0 <= i < id.len() ==> {
        let c = #[trigger] id[i];
        ('0' <= c <= '9') || ('a' <= c <= 'z') || ('A' <= c <= 'Z') || c == '-'
    }
}

/// How many leaks a session remembers as its top leaks.
pub open spec fn top_leak_count() -> nat {
    3
}

/// The identifiers of the first three leaks (all of them when there are
/// fewer), in order.
pub fn top_leak_ids(leaks: &[LeakInsight]) -> (ids: Vec<String>)
    ensures
        ids@.len() == if leaks@.len() < top_leak_count() { leaks@.len() } else { top_leak_count() },
        forall|i: int| 0 <= i < ids@.len() ==> (#[trigger] ids@[i])@ == leaks@[i].id@,
{
    let mut ids: Vec<String> = Vec::new();
    let mut i: usize = 0;
    while i < leaks.len() && i < 3
        invariant
            i <= leaks@.len(),
            i <= 3,
            ids@.len() == i,
            forall|j: int| 0 <= j < i ==> (#[trigger] ids@[j])@ == leaks@[j].id@,
        decreases leaks@.len() - i,
    {
        ids.push(leaks[i].id.clone());
        i = i + 1;
    }
    ids
}

/// Accepts a valid session id, and refuses any other (such as one that
/// would name a path outside the session directory).
pub fn validate_session_id(session_id: &str) -> (r: Result<(), CoreError>)
    ensures
        r is Ok <==> valid_session_id(session_id@),
        r matches Err(e) ==> e matches CoreError::InvalidInput(m) && m@ == "invalid session_id: "@ + session_id@,
{
    let cs = chars_of(session_id);
    let mut ok = cs.len() > 0;
    let mut i: usize = 0;
    while i < cs.len()
        invariant
            i <= cs@.len(),
            cs@ == session_id@,
            ok == (cs@.len() > 0 && forall|j: int| 0 <= j < i ==> {
                let c = #[trigger] cs@[j];
                ('0' <= c <= '9') || ('a' <= c <= 'z') || ('A' <= c <= 'Z') || c == '-'
            }),
        decreases cs.len() - i,
    {
        let c = cs[i];
        if !(('0' <= c && c <= '9') || ('a' <= c && c <= 'z') || ('A' <= c && c <= 'Z') || c == '-') {
            ok = false;
        }
        i = i + 1;
    }
    if ok {
        Ok(())
    } else {
        let mut m: Vec<char> = Vec::new();
        push_str(&mut m, "invalid session_id: ");
        push_str(&mut m, session_id);
        Err(CoreError::InvalidInput(string_from_chars(&m)))
    }
}

/// The file name of a session: its id and `.json`.
pub fn session_file_name(session_id: &str) -> (name: String)
    ensures
        name@ == session_id@ + ".json"@,
{
    let mut m: Vec<char> = Vec::new();
    push_str(&mut m, session_id);
    push_str(&mut m, ".json");
    string_from_chars(&m)
}

/// The name of the backup kept while a session file is replaced.
pub fn backup_path(target: &str) -> (p: String)
    ensures
        p@ == target@ + ".bak"@,
{
    let mut m: Vec<char> = Vec::new();
    push_str(&mut m, target);
    push_str(&mut m, ".bak");
    string_from_chars(&m)
}

/// The nanoseconds since the Unix epoch on the system clock (std
/// `SystemTime::now`, zero before the epoch). Nothing is claimed of the
/// value.
#[verifier::external_body]
fn unix_nanos_now() -> (n: u128) {
    std::time::SystemTime::now().duration_since(std::time::UNIX_EPOCH).unwrap_or_default().as_nanos()
}

/// The seconds since the Unix epoch on the system clock (std
/// `SystemTime::now`, zero before the epoch). Nothing is claimed of the
/// value.
#[verifier::external_body]
fn unix_secs_now() -> (n: u64) {
    std::time::SystemTime::now().duration_since(std::time::UNIX_EPOCH).unwrap_or_default().as_secs()
}

/// Decimal digits of a 128-bit number.
pub fn decimal_u128(n: u128) -> (s: Vec<char>)
    ensures
        s@ == dec_chars(n as nat),
    decreases n,
{
    if n < 10 {
        let mut v: Vec<char> = Vec::new();
        v.push(crate::text::digit_to_char(n as u64));
        proof {
            assert(v@ =~= dec_chars(n as nat));
        }
        v
    } else {
        let mut v = decimal_u128(n / 10);
        v.push(crate::text::digit_to_char((n % 10) as u64));
        proof {
            assert(v@ =~= dec_chars(n as nat));
        }
        v
    }
}

/// A new session id: `mcp-` and the current time in nanoseconds.
pub fn new_session_id() -> (id: String)
    ensures
        exists|n: nat| id@ == "mcp-"@ + dec_chars(n),
{
    let nanos = unix_nanos_now();
    let mut m: Vec<char> = Vec::new();
    push_str(&mut m, "mcp-");
    let digits = decimal_u128(nanos);
    crate::text::push_chars(&mut m, &digits);
    proof {
        assert(m@ == "mcp-"@ + dec_chars(nanos as nat));
    }
    string_from_chars(&m)
}

/// The current time in whole seconds since the Unix epoch, in decimal.
pub fn timestamp_now() -> (t: String)
    ensures
        exists|n: nat| t@ == dec_chars(n),
{
    let secs = unix_secs_now();
    crate::text::decimal_string(secs)
}


#[verifier::external_type_specification]
#[verifier::external_body]
pub struct ExIoError(std::io::Error);

/// The file operations that replacing a session file needs, supplied by the
/// program (the file system, or a stand-in). Each operation's answer is the
/// supplier's; the spec functions say which answers it may give for which
/// paths.
pub trait SessionFileOps {
    /// Whether `answer` is something `path_exists` may say of `path`;
    /// unless a supplier says more, anything.
    closed spec fn exists_answer(&self, path: Seq<char>, answer: bool) -> bool {
        true
    }

    /// Whether `outcome` is something `rename` may report for moving `from`
    /// to `to`; unless a supplier says more, anything.
    closed spec fn rename_answer(&self, from: Seq<char>, to: Seq<char>, outcome: Result<(), std::io::Error>) -> bool {
        true
    }

    /// Whether `outcome` is something `remove_file` may report for `path`;
    /// unless a supplier says more, anything.
    closed spec fn remove_answer(&self, path: Seq<char>, outcome: Result<(), std::io::Error>) -> bool {
        true
    }

    fn path_exists(&self, path: &str) -> (answer: bool)
        ensures
            self.exists_answer(path@, answer),
    ;

    fn rename(&self, from: &str, to: &str) -> (outcome: Result<(), std::io::Error>)
        ensures
            self.rename_answer(from@, to@, outcome),
    ;

    fn remove_file(&self, path: &str) -> (outcome: Result<(), std::io::Error>)
        ensures
            self.remove_answer(path@, outcome),
    ;
}

/// What replacing a session file returns, given the answers of the
/// operations it made: with no existing target, the install's outcome;
/// otherwise the first failure among removing a stale backup, moving the
/// target aside and installing, or, when all of them succeed, the outcome of
/// removing the backup.
pub open spec fn replace_outcome(
    target_exists: bool,
    backup_exists: bool,
    stale: Result<(), std::io::Error>,
    aside: Result<(), std::io::Error>,
    install: Result<(), std::io::Error>,
    cleanup: Result<(), std::io::Error>,
) -> Result<(), std::io::Error> {
    if !target_exists {
        install
    } else if backup_exists && stale is Err {
        stale
    } else if aside is Err {
        aside
    } else if install is Err {
        install
    } else {
        cleanup
    }
}

/// Installs `temp` as `target`. An existing target is first moved to its
/// backup name (a stale backup is removed before); if the install then
/// fails, the backup is moved back and the install's error returned; if it
/// succeeds, the backup is removed. The outcome of each operation is the
/// supplier's: there are answers the supplier may give such that `target`
/// is asked for; without it, `temp` is renamed to `target`. With it, the
/// backup name `target + ".bak"` is asked for and, when present, removed;
/// `target` is renamed to the backup, then `temp` to `target`. After a
/// successful install the backup is removed; after a failed one it is
/// renamed back to `target`. Each step is made only when the steps before it
/// succeeded, and what is returned is `replace_outcome` of those answers.
pub fn replace_session_file_with_ops(temp: &str, target: &str, ops: &dyn SessionFileOps) -> (r: Result<(), std::io::Error>)
    ensures
        exists|target_exists: bool, backup_exists: bool, stale: Result<(), std::io::Error>, aside: Result<(), std::io::Error>,
            install: Result<(), std::io::Error>, cleanup: Result<(), std::io::Error>|
            #![trigger replace_outcome(target_exists, backup_exists, stale, aside, install, cleanup)]
        {
            &&& ops.exists_answer(target@, target_exists)
            &&& !target_exists ==> ops.rename_answer(temp@, target@, install)
            &&& target_exists ==> {
                &&& ops.exists_answer(target@ + ".bak"@, backup_exists)
                &&& backup_exists ==> ops.remove_answer(target@ + ".bak"@, stale)
                &&& (!backup_exists || stale is Ok) ==> {
                    &&& ops.rename_answer(target@, target@ + ".bak"@, aside)
                    &&& aside is Ok ==> {
                        &&& ops.rename_answer(temp@, target@, install)
                        &&& install is Ok ==> ops.remove_answer(target@ + ".bak"@, cleanup)
                        &&& install is Err ==> exists|restore: Result<(), std::io::Error>| #[trigger] ops.rename_answer(
                            target@ + ".bak"@,
                            target@,
                            restore,
                        )
                    }
                }
            }
            &&& r == replace_outcome(target_exists, backup_exists, stale, aside, install, cleanup)
        },
{
    let target_exists = ops.path_exists(target);
    if !target_exists {
        let install = ops.rename(temp, target);
        proof {
            let ok: Result<(), std::io::Error> = Ok(());
            assert(ops.exists_answer(target@, false));
            assert(ops.rename_answer(temp@, target@, install));
            assert(replace_outcome(false, false, ok, ok, install, ok) == install);
        }
        return install;
    }
    let backup = backup_path(target);
    let backup_exists = ops.path_exists(backup.as_str());
    let ghost mut stale: Result<(), std::io::Error> = Ok(());
    if backup_exists {
        let removed = ops.remove_file(backup.as_str());
        proof {
            stale = removed;
        }
        match removed {
            Ok(()) => {},
            Err(e) => {
                let ghost failed: Result<(), std::io::Error> = Err(e);
                proof {
                    assert(replace_outcome(true, true, failed, Ok(()), Ok(()), Ok(())) == failed);
                }
                return Err(e);
            },
        }
    }
    let moved = ops.rename(target, backup.as_str());
    let ghost aside = moved;
    match moved {
        Ok(()) => {},
        Err(e) => {
            proof {
                assert(replace_outcome(true, backup_exists, stale, aside, Ok(()), Ok(())) == aside);
            }
            return Err(e);
        },
    }
    let installed = ops.rename(temp, target);
    let ghost install = installed;
    match installed {
        Ok(()) => {
            let cleanup = ops.remove_file(backup.as_str());
            proof {
                assert(replace_outcome(true, backup_exists, stale, aside, install, cleanup) == cleanup);
            }
            cleanup
        },
        Err(err) => {
            let _restored = ops.rename(backup.as_str(), target);
            proof {
                assert(replace_outcome(true, backup_exists, stale, aside, install, Ok(())) == install);
            }
            Err(err)
        },
    }
}


/// The error for a session file that could not be read: a missing file is
/// an unknown session, anything else an I/O failure with its description.
pub fn session_load_error(session_id: &str, not_found: bool, io_description: String) -> (e: CoreError)
    ensures
        not_found ==> (e matches CoreError::InvalidInput(m) && m@ == "session not found: "@ + session_id@),
        !not_found ==> e == CoreError::Io(io_description),
{
    if not_found {
        let mut m: Vec<char> = Vec::new();
        crate::text::push_str(&mut m, "session not found: ");
        crate::text::push_str(&mut m, session_id);
        return CoreError::InvalidInput(crate::text::string_from_chars(&m));
    }
    CoreError::Io(io_description)
}

/// The error for a session file that is not a valid session document.
pub fn session_parse_error(session_id: &str, parse_error: &str) -> (e: CoreError)
    ensures
        e matches CoreError::InvalidInput(m) && m@ == "session load failed: "@ + session_id@ + ": "@ + parse_error@,
{
    let mut m: Vec<char> = Vec::new();
    crate::text::push_str(&mut m, "session load failed: ");
    crate::text::push_str(&mut m, session_id);
    crate::text::push_str(&mut m, ": ");
    crate::text::push_str(&mut m, parse_error);
    CoreError::InvalidInput(crate::text::string_from_chars(&m))
}

/// Accepts a session read from disk only if it is the one requested and
/// of the supported version.
pub fn check_loaded_session(requested: &str, embedded: &str, session_version: u32) -> (r: Result<(), CoreError>)
    ensures
        embedded@ != requested@ ==> (r matches Err(CoreError::InvalidInput(m)) && m@ == "session load failed: "@
            + requested@ + ": embedded session_id "@ + embedded@ + " does not match requested session_id "@
            + requested@),
        embedded@ == requested@ && session_version != MCP_SESSION_VERSION ==> (r matches Err(
            CoreError::Unsupported(m),
        ) && m@ == "session_version "@ + crate::text::dec_chars(session_version as nat) + " is unsupported"@),
        embedded@ == requested@ && session_version == MCP_SESSION_VERSION ==> r is Ok,
{
    if !crate::text::str_eq(embedded, requested) {
        let mut m: Vec<char> = Vec::new();
        crate::text::push_str(&mut m, "session load failed: ");
        crate::text::push_str(&mut m, requested);
        crate::text::push_str(&mut m, ": embedded session_id ");
        crate::text::push_str(&mut m, embedded);
        crate::text::push_str(&mut m, " does not match requested session_id ");
        crate::text::push_str(&mut m, requested);
        return Err(CoreError::InvalidInput(crate::text::string_from_chars(&m)));
    }
    if session_version != MCP_SESSION_VERSION {
        let mut m: Vec<char> = Vec::new();
        crate::text::push_str(&mut m, "session_version ");
        crate::text::push_decimal(&mut m, session_version as u64);
        crate::text::push_str(&mut m, " is unsupported");
        return Err(CoreError::Unsupported(crate::text::string_from_chars(&m)));
    }
    Ok(())
}


/// Decimal digits are digits.
proof fn lemma_dec_chars_digits(n: nat)
    ensures
        dec_chars(n).len() > 0,
        forall|i: int| 0 <= i < dec_chars(n).len() ==> '0' <= #[trigger] dec_chars(n)[i] <= '9',
    decreases n,
{
    if n >= 10 {
        lemma_dec_chars_digits(n / 10);
        let d = n % 10;
        assert(crate::text::digit_char(d) >= '0' && crate::text::digit_char(d) <= '9');
        assert forall|i: int| 0 <= i < dec_chars(n).len() implies '0' <= #[trigger] dec_chars(n)[i] <= '9' by {
            if i < dec_chars(n / 10).len() {
                assert(dec_chars(n)[i] == dec_chars(n / 10)[i]);
            }
        }
    } else {
        assert(crate::text::digit_char(n) >= '0' && crate::text::digit_char(n) <= '9');
    }
}

/// Every session id that `new_session_id` makes is accepted by
/// `validate_session_id`.
pub proof fn lemma_new_session_ids_are_valid(n: nat)
    ensures
        valid_session_id("mcp-"@ + dec_chars(n)),
{
    reveal_strlit("mcp-");
    lemma_dec_chars_digits(n);
    let id = "mcp-"@ + dec_chars(n);
    assert forall|i: int| 0 <= i < id.len() implies {
        let c = #[trigger] id[i];
        ('0' <= c <= '9') || ('a' <= c <= 'z') || ('A' <= c <= 'Z') || c == '-'
    } by {
        if i >= 4 {
            assert(id[i] == dec_chars(n)[i - 4]);
        }
    }
}

/// After `trim_history` a session history holds at most
/// `MAX_SESSION_HISTORY` turns and ends with the newest one.
pub proof fn lemma_history_bounded(history: Seq<AiChatTurn>, turn: AiChatTurn)
    ensures
        ({
            let all = history.push(turn);
            let kept = if all.len() > MAX_SESSION_HISTORY { all.skip(all.len() - MAX_SESSION_HISTORY) } else { all };
            &&& kept.len() <= MAX_SESSION_HISTORY
            &&& kept.len() > 0 && kept.last() == turn
        }),
{
}

} // verus!
