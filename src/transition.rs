//! The transition function and the trajectories it generates.
use vstd::prelude::*;

verus! {

/// One step of the transition on unbounded naturals: halve an even value,
/// map an odd one to `3n + 1`.
pub open spec fn step(n: nat) -> nat {
    if n % 2 == 0 {
        n / 2
    } else {
        3 * n + 1
    }
}

/// The value reached from `n` after `k` transitions (ignoring the stop at 1).
pub open spec fn iterate(n: nat, k: nat) -> nat
    decreases k,
{
    if k == 0 {
        n
    } else {
        iterate(step(n), (k - 1) as nat)
    }
}

/// The trajectory from `n` is at 1 after `k` transitions and at no earlier point.
pub open spec fn hits_one_first_at(n: nat, k: nat) -> bool {
    &&& iterate(n, k) == 1
    &&& forall|i: nat| i < k ==> #[trigger] iterate(n, i) != 1
}

/// The first `k` values of the trajectory from `n` all have a successor that
/// is representable as a `u32`.
pub open spec fn fits_until(n: nat, k: nat) -> bool {
    forall|i: nat| #![trigger iterate(n, i)] i < k ==> step(iterate(n, i)) <= u32::MAX
}

/// The trajectory from `n` reaches 1 without leaving `u32`, within a number of
/// transitions that a `u64` counter can hold.
pub open spec fn reaches_one(n: nat) -> bool {
    exists|k: nat| k <= u64::MAX && hits_one_first_at(n, k) && fits_until(n, k)
}

/// The number of transitions after which the trajectory from `n` first reaches 1.
pub open spec fn stopping_time(n: nat) -> nat
    recommends
        reaches_one(n),
{
    choose|k: nat| k <= u64::MAX && hits_one_first_at(n, k) && fits_until(n, k)
}

/// The values visited from `n` through the first `k` transitions, `n` first.
pub open spec fn trace(n: nat, k: nat) -> Seq<nat> {
    Seq::new(k + 1, |i: int| iterate(n, i as nat))
}

/// Unfolding `iterate` from the end: one more transition steps the last value.
pub proof fn lemma_iterate_succ(n: nat, k: nat)
    ensures
        iterate(n, k + 1) == step(iterate(n, k)),
    decreases k,
{
    assert(iterate(n, k + 1) == iterate(step(n), k));
    if k > 0 {
        lemma_iterate_succ(step(n), (k - 1) as nat);
        assert(iterate(n, k) == iterate(step(n), (k - 1) as nat));
    }
}

/// The first visit to 1 is unique.
pub proof fn lemma_first_hit_unique(n: nat, a: nat, b: nat)
    requires
        hits_one_first_at(n, a),
        hits_one_first_at(n, b),
    ensures
        a == b,
{
    if a < b {
        assert(iterate(n, a) != 1);
    } else if b < a {
        assert(iterate(n, b) != 1);
    }
}

/// Bound on odd values whose successor `3n + 1` still fits in a `u32`.
pub const ODD_LIMIT: u32 = 1431655764;

/// Applies the transition function once.
///
/// Returns `None` when `n` is 1 (the terminal value), and otherwise the next
/// value of the trajectory.
pub fn collatz(n: u32) -> (r: Option<u32>)
    requires
        step(n as nat) <= u32::MAX,
    ensures
        n == 1 ==> r is None,
        n != 1 ==> r == Some(step(n as nat) as u32),
        n > 1 ==> (r matches Some(m) && m >= 1),
        n > 1 && n % 2 == 0 ==> (r matches Some(m) && m < n),
        n > 1 && n % 2 == 1 ==> (r matches Some(m) && m > n),
{
    if n == 1 {
        None
    } else if n % 2 == 0 {
        Some(n / 2)
    } else {
        Some(3 * n + 1)
    }
}

} // verus!

verus! {

/// The baseline workload: runs the transition function from `seed` in a tight
/// loop until the terminal value, with no locking. Returns the number of
/// transitions applied.
pub fn baseline(seed: u32) -> (steps: u64)
    requires
        reaches_one(seed as nat),
    ensures
        steps == stopping_time(seed as nat),
        hits_one_first_at(seed as nat, steps as nat),
{
    let ghost t = stopping_time(seed as nat);
    let mut cur: u32 = seed;
    let mut steps: u64 = 0;
    loop
        invariant
            t == stopping_time(seed as nat),
            t <= u64::MAX,
            hits_one_first_at(seed as nat, t),
            fits_until(seed as nat, t),
            steps <= t,
            cur == iterate(seed as nat, steps as nat),
        decreases t - steps,
    {
        proof {
            lemma_iterate_succ(seed as nat, steps as nat);
        }
        match collatz(cur) {
            None => {
                return steps;
            },
            Some(next) => {
                cur = next;
                steps = steps + 1;
            },
        }
    }
}

/// Runs the trajectory from `seed` for at most `limit` transitions, checking
/// every step for overflow. Returns the stopping time when the trajectory
/// reaches 1 within `limit` transitions and stays within `u32` on the way, and
/// `None` otherwise.
pub fn checked_stopping_time(seed: u32, limit: u64) -> (r: Option<u64>)
    ensures
        (r is Some) == (exists|k: nat|
            k <= limit && hits_one_first_at(seed as nat, k) && fits_until(seed as nat, k)),
        r matches Some(t) ==> reaches_one(seed as nat) && t == stopping_time(seed as nat),
{
    let mut cur: u32 = seed;
    let mut steps: u64 = 0;
    loop
        invariant
            steps <= limit,
            cur == iterate(seed as nat, steps as nat),
            forall|i: nat| i < steps ==> #[trigger] iterate(seed as nat, i) != 1,
            fits_until(seed as nat, steps as nat),
        decreases limit - steps,
    {
        proof {
            lemma_iterate_succ(seed as nat, steps as nat);
        }
        if cur % 2 == 1 && cur > ODD_LIMIT {
            proof {
                assert forall|k: nat|
                    k <= limit && hits_one_first_at(seed as nat, k) implies !fits_until(
                    seed as nat,
                    k,
                ) by {
                    if k <= steps {
                        assert(iterate(seed as nat, k) != 1);
                    } else {
                        assert(step(iterate(seed as nat, steps as nat)) > u32::MAX);
                    }
                }
            }
            return None;
        }
        match collatz(cur) {
            None => {
                proof {
                    let k = steps as nat;
                    assert(hits_one_first_at(seed as nat, k));
                    assert(reaches_one(seed as nat));
                    let t = stopping_time(seed as nat);
                    lemma_first_hit_unique(seed as nat, k, t);
                }
                return Some(steps);
            },
            Some(next) => {
                if steps == limit {
                    proof {
                        assert forall|k: nat|
                            k <= limit && fits_until(seed as nat, k) implies !hits_one_first_at(
                            seed as nat,
                            k,
                        ) by {
                            assert(iterate(seed as nat, k) != 1);
                        }
                    }
                    return None;
                }
                cur = next;
                steps = steps + 1;
            },
        }
    }
}

} // verus!
