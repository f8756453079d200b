//! Merge-queue coordination engine for a bors-style integration bot.
//!
//! The crate owns the lifecycle of every pull request under management:
//! who approved what, one integration attempt in flight per lane, aggregation
//! of per-builder results, the tree-close gate, and the retry/timeout
//! supervisor. All state transitions are verified; durable storage and
//! transports live outside the crate and mirror the state held here.

pub mod cli;
pub mod config;
pub mod engine;
pub mod laws;
pub mod models;
pub mod template;

use vstd::prelude::*;

verus! {

/// Default maximum test duration, in seconds.
pub const DEFAULT_TEST_TIMEOUT: i32 = 3600 * 10;

/// The notice posted on a build this coordinator interrupted, naming what
/// interrupted it.
pub fn interrupted_message(src: &str) -> (r: String)
    ensures
        r@ == "Interrupted by Homu ("@ + src@ + ")"@,
{
    let mut r = String::from_str("Interrupted by Homu (");
    r.append(src);
    r.append(")");
    r
}

/// A named continuous-integration status, ranked by how far along it is.
///
/// Returns the rank of a commit status string: higher means further along,
/// and `-1` means the string is not a recognized status.
pub fn status_to_priority(s: &str) -> (r: i32)
    ensures
        r == status_priority_spec(s@),
{
    if str_eq(s, "pending") {
        1
    } else if str_eq(s, "approved") {
        2
    } else if str_eq(s, "") {
        3
    } else if str_eq(s, "error") {
        4
    } else if str_eq(s, "failure") {
        5
    } else if str_eq(s, "success") {
        6
    } else {
        -1
    }
}

/// Rank of a commit status string; `-1` for an unrecognized one.
pub open spec fn status_priority_spec(s: Seq<char>) -> int {
    if s == "pending"@ {
        1
    } else if s == "approved"@ {
        2
    } else if s == ""@ {
        3
    } else if s == "error"@ {
        4
    } else if s == "failure"@ {
        5
    } else if s == "success"@ {
        6
    } else {
        -1
    }
}

/// Character-wise string equality, decided through the unicode views.
pub fn str_eq(a: &str, b: &str) -> (r: bool)
    ensures
        r == (a@ == b@),
{
    let la = a.unicode_len();
    let lb = b.unicode_len();
    if la != lb {
        proof {
            assert(a@ != b@) by {
                assert(a@.len() != b@.len());
            }
        }
        return false;
    }
    let mut i: usize = 0;
    while i < la
        invariant
            i <= la,
            la == a@.len(),
            la == b@.len(),
            forall|j: int| 0 <= j < i ==> a@[j] == b@[j],
        decreases la - i,
    {
        if a.get_char(i) != b.get_char(i) {
            return false;
        }
        i = i + 1;
    }
    proof {
        assert(a@ =~= b@);
    }
    true
}

} // verus!
