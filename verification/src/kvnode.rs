//! Start-up of a node: where it listens, and whether a log replayed at
//! start-up is kept.
use vstd::prelude::*;
use vstd::string::StringExecFns;

verus! {

/// The port a node listens on when none is given.
pub const DEFAULT_PORT: u16 = 3000;

/// The address a node listens on: the one given, else every interface;
/// the port given, else the default port.
pub fn listen_address(address: Option<String>, port: Option<u16>) -> (r: (String, u16))
    ensures
        r.0@ == (match address {
            Some(a) => a@,
            None => "0.0.0.0"@,
        }),
        r.1 == (match port {
            Some(p) => p,
            None => DEFAULT_PORT,
        }),
{
    let host = match address {
        Some(a) => a,
        None => String::from_str("0.0.0.0"),
    };
    let p = match port {
        Some(p) => p,
        None => DEFAULT_PORT,
    };
    (host, p)
}

/// What start-up does with the log it has replayed into a fresh one.
#[derive(Debug, PartialEq, Eq)]
pub enum RecoveryAction {
    /// Keep the new log and drop the backup.
    KeepReplayed,
    /// Restore the log from the backup and report failure.
    RollBack,
}

/// Decides the outcome of recovery: the replayed log is kept only when the
/// replay succeeded (`new_digest` is its digest) and the new log has the
/// same digest as the one it was replayed from.
pub fn recovery_action(old_digest: &String, new_digest: Option<&String>) -> (a: RecoveryAction)
    ensures
        a == (match new_digest {
            Some(d) => if d@ == old_digest@ {
                RecoveryAction::KeepReplayed
            } else {
                RecoveryAction::RollBack
            },
            None => RecoveryAction::RollBack,
        }),
{
    match new_digest {
        Some(d) => {
            if *d == *old_digest {
                RecoveryAction::KeepReplayed
            } else {
                RecoveryAction::RollBack
            }
        },
        None => RecoveryAction::RollBack,
    }
}

/// The SHA-256 digest of a byte sequence, as lowercase hexadecimal.
pub uninterp spec fn sha256_hex(bytes: Seq<u8>) -> Seq<char>;

/// Calls `sha256::digest` on a byte slice. The contract claims only that
/// the result is the digest of exactly the bytes passed; nothing is said of
/// its value.
#[verifier::external_body]
fn sha256_of(bytes: &[u8]) -> (d: String)
    ensures
        d@ == sha256_hex(bytes@),
{
    sha256::digest(bytes)
}

/// Decides the outcome of recovery from the logs themselves: `old_log` is
/// the log that was replayed (its valid records), `new_log` the log the
/// replay wrote, where the replay succeeded. The new log is kept only when
/// the two have the same SHA-256 digest.
pub fn recovery_action_of_logs(old_log: &[u8], new_log: Option<&[u8]>) -> (a: RecoveryAction)
    ensures
        a == (match new_log {
            Some(n) => if sha256_hex(n@) == sha256_hex(old_log@) {
                RecoveryAction::KeepReplayed
            } else {
                RecoveryAction::RollBack
            },
            None => RecoveryAction::RollBack,
        }),
{
    let old_digest = sha256_of(old_log);
    match new_log {
        Some(n) => {
            let new_digest = sha256_of(n);
            recovery_action(&old_digest, Some(&new_digest))
        },
        None => recovery_action(&old_digest, None),
    }
}

} // verus!
