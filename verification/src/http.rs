//! The rules that requests to a registry follow: how often a failed request
//! is tried again, and how many requests may be under way at once.

use vstd::prelude::*;

verus! {

/// How many times a request is tried before its failure is final.
pub const RETRY_TIMES: usize = 5;

/// How many requests may be under way at once.
pub const MAX_IN_FLIGHT: usize = 50;

/// What follows an attempt.
#[derive(Clone, Copy, Debug, PartialEq, Eq, Structural)]
pub enum RetryStep {
    /// The request is tried again, at once.
    Again,
    /// The outcome of the last attempt stands.
    Stop,
}

/// Whether a request that was tried `attempts` times, and failed the last
/// time if `failed`, is tried again when it may be tried `times` times.
pub open spec fn tries_again(times: nat, attempts: nat, failed: bool) -> bool {
    failed && attempts < times
}

/// Decides what follows the attempt number `attempts` of a request that may
/// be tried `times` times: it is tried again if it failed and has tries
/// left.
pub fn retry_step(times: usize, attempts: usize, failed: bool) -> (step: RetryStep)
    ensures
        step == if tries_again(times as nat, attempts as nat, failed) {
            RetryStep::Again
        } else {
            RetryStep::Stop
        },
{
    if failed && attempts < times {
        RetryStep::Again
    } else {
        RetryStep::Stop
    }
}

/// The number of the attempt at which a request stops, counting from the
/// attempt number `attempts`, where `failing` holds the numbers of the
/// attempts that fail.
pub open spec fn last_attempt(times: nat, failing: Set<nat>, attempts: nat) -> nat
    decreases times - attempts,
{
    if tries_again(times, attempts, failing.contains(attempts)) {
        last_attempt(times, failing, attempts + 1)
    } else {
        attempts
    }
}

/// A request is tried at least once and at most `times` times, or once where
/// `times` is zero. It stops at its first success, and fails for good only
/// when every one of its attempts failed.
pub proof fn lemma_retry_is_bounded(times: nat, failing: Set<nat>)
    ensures
        1 <= last_attempt(times, failing, 1),
        last_attempt(times, failing, 1) <= if times == 0 {
            1
        } else {
            times
        },
        forall|n: nat| 1 <= n < last_attempt(times, failing, 1) ==> failing.contains(n),
        failing.contains(last_attempt(times, failing, 1)) ==> last_attempt(times, failing, 1) >= times,
{
    lemma_last_attempt(times, failing, 1);
}

proof fn lemma_last_attempt(times: nat, failing: Set<nat>, attempts: nat)
    ensures
        attempts <= last_attempt(times, failing, attempts),
        last_attempt(times, failing, attempts) <= if times <= attempts {
            attempts
        } else {
            times
        },
        forall|n: nat| attempts <= n < last_attempt(times, failing, attempts) ==> failing.contains(n),
        failing.contains(last_attempt(times, failing, attempts)) ==> last_attempt(times, failing, attempts)
            >= times,
    decreases times - attempts,
{
    if tries_again(times, attempts, failing.contains(attempts)) {
        lemma_last_attempt(times, failing, attempts + 1);
    }
}

} // verus!
