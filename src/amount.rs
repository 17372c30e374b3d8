use vstd::prelude::*;

use crate::error::WalletError;

verus! {

/// `v` is a power of two (1, 2, 4, ...): the denominations a mint signs.
pub open spec fn is_power_of_two(v: nat) -> bool
    decreases v,
{
    if v == 1 {
        true
    } else if v == 0 || v % 2 == 1 {
        false
    } else {
        is_power_of_two(v / 2)
    }
}

/// The sum of a sequence of amounts, as a mathematical integer.
pub open spec fn sum(s: Seq<u64>) -> int
    decreases s.len(),
{
    if s.len() == 0 {
        0
    } else {
        sum(s.drop_last()) + s.last() as int
    }
}

/// Every element is a power of two.
pub open spec fn all_denominations(s: Seq<u64>) -> bool {
    forall|i: int| 0 <= i < s.len() ==> is_power_of_two(#[trigger] s[i] as nat)
}

/// Strictly decreasing: every denomination occurs at most once, largest first.
pub open spec fn strictly_decreasing(s: Seq<u64>) -> bool {
    forall|i: int, j: int| 0 <= i < j < s.len() ==> s[i] > s[j]
}

/// How an amount is to be cut into denominations.
#[derive(Clone, Copy, Debug, PartialEq, Eq, Structural)]
pub enum SplitPolicy {
    /// The fewest outputs: one of each power of two in the amount's binary form.
    Minimal,
    /// As many outputs of the given denomination as fit, the rest split minimally.
    Value(u64),
}

pub proof fn lemma_sum_push(s: Seq<u64>, v: u64)
    ensures
        sum(s.push(v)) == sum(s) + v,
{
    assert(s.push(v).drop_last() =~= s);
}

pub proof fn lemma_sum_append(a: Seq<u64>, b: Seq<u64>)
    ensures
        sum(a + b) == sum(a) + sum(b),
    decreases b.len(),
{
    if b.len() == 0 {
        assert(a + b =~= a);
    } else {
        lemma_sum_append(a, b.drop_last());
        assert((a + b).drop_last() =~= a + b.drop_last());
    }
}

proof fn lemma_top_denomination()
    ensures
        is_power_of_two(0x8000_0000_0000_0000nat),
{
    reveal_with_fuel(is_power_of_two, 65);
}

/// The minimal split: the powers of two of `amount`'s binary form, largest first.
pub fn split_minimal(amount: u64) -> (r: Vec<u64>)
    ensures
        sum(r@) == amount,
        all_denominations(r@),
        strictly_decreasing(r@),
{
    let mut out: Vec<u64> = Vec::new();
    let mut rem: u64 = amount;
    let mut p: u64 = 0x8000_0000_0000_0000;
    proof {
        lemma_top_denomination();
    }
    loop
        invariant_except_break
            p >= 1,
            is_power_of_two(p as nat),
            rem < 2 * (p as int),
            sum(out@) + rem == amount,
            all_denominations(out@),
            strictly_decreasing(out@),
            forall|i: int| 0 <= i < out@.len() ==> out@[i] >= 2 * (p as int),
        ensures
            sum(out@) == amount,
            all_denominations(out@),
            strictly_decreasing(out@),
        decreases p,
    {
        if rem >= p {
            proof {
                lemma_sum_push(out@, p);
            }
            out.push(p);
            rem = rem - p;
        }
        if p == 1 {
            break;
        }
        p = p / 2;
    }
    out
}

/// `policy` can cut `amount`: a fixed denomination must be a power of two.
pub open spec fn policy_valid(policy: SplitPolicy) -> bool {
    match policy {
        SplitPolicy::Minimal => true,
        SplitPolicy::Value(v) => is_power_of_two(v as nat),
    }
}

/// Cuts `amount` into denominations under `policy`.
pub fn split(amount: u64, policy: SplitPolicy) -> (r: Result<Vec<u64>, WalletError>)
    ensures
        r is Err <==> (amount == 0 || !policy_valid(policy)),
        r is Err ==> r == Err::<Vec<u64>, WalletError>(WalletError::InvalidAmount),
        r matches Ok(v) ==> sum(v@) == amount && all_denominations(v@) && v@.len() > 0,
        r matches Ok(v) ==> (policy == SplitPolicy::Minimal ==> strictly_decreasing(v@)),
        r matches Ok(v) ==> (policy matches SplitPolicy::Value(d) ==> v@.len() >= amount / d
            && (forall|i: int| 0 <= i < amount / d ==> v@[i] == d) && strictly_decreasing(
            v@.subrange((amount / d) as int, v@.len() as int),
        )),
{
    if amount == 0 {
        return Err(WalletError::InvalidAmount);
    }
    match policy {
        SplitPolicy::Minimal => {
            let v = split_minimal(amount);
            if v.len() == 0 {
                proof {
                    assert(sum(v@) == 0);
                }
            }
            Ok(v)
        },
        SplitPolicy::Value(d) => {
            if !check_power_of_two(d) {
                return Err(WalletError::InvalidAmount);
            }
            let count: u64 = amount / d;
            let mut out: Vec<u64> = Vec::new();
            let mut i: u64 = 0;
            while i < count
                invariant
                    d >= 1,
                    is_power_of_two(d as nat),
                    count == amount / d,
                    i <= count,
                    out@.len() == i,
                    sum(out@) == i * d,
                    all_denominations(out@),
                    forall|k: int| 0 <= k < i ==> out@[k] == d,
                decreases count - i,
            {
                proof {
                    lemma_sum_push(out@, d);
                    assert((i + 1) * d == i * d + d) by (nonlinear_arith);
                }
                out.push(d);
                i = i + 1;
            }
            proof {
                assert(count * d <= amount) by (nonlinear_arith)
                    requires count == amount / d, d >= 1;
            }
            let used: u64 = count * d;
            let rest = amount - used;
            let mut tail = split_minimal(rest);
            proof {
                lemma_sum_append(out@, tail@);
            }
            let ghost head = out@;
            let ghost rest_seq = tail@;
            out.append(&mut tail);
            proof {
                assert(out@ =~= head + rest_seq);
                assert(out@.subrange(count as int, out@.len() as int) =~= rest_seq);
                if count == 0 {
                    assert(rest == amount);
                    assert(out@.len() > 0) by {
                        if out@.len() == 0 {
                            assert(rest_seq =~= out@);
                        }
                    }
                }
            }
            Ok(out)
        },
    }
}

/// Whether `v` is a power of two.
pub fn check_power_of_two(v: u64) -> (r: bool)
    ensures
        r == is_power_of_two(v as nat),
{
    let mut x: u64 = v;
    while x > 1 && x % 2 == 0
        invariant
            is_power_of_two(x as nat) == is_power_of_two(v as nat),
        decreases x,
    {
        x = x / 2;
    }
    x == 1
}

/// The denominations to request in a swap of inputs worth `input_total` that must yield
/// `target` to send: the minimal split of the target, and of the change that remains.
pub fn swap_outputs(input_total: u64, target: u64) -> (r: Result<(Vec<u64>, Vec<u64>), WalletError>)
    ensures
        r is Err <==> (target == 0 || target > input_total),
        r is Err ==> r == Err::<(Vec<u64>, Vec<u64>), WalletError>(WalletError::InvalidAmount),
        r matches Ok((send, change)) ==> {
            &&& sum(send@) == target
            &&& sum(change@) == input_total - target
            &&& all_denominations(send@) && strictly_decreasing(send@)
            &&& all_denominations(change@) && strictly_decreasing(change@)
        },
{
    if target == 0 || target > input_total {
        return Err(WalletError::InvalidAmount);
    }
    Ok((split_minimal(target), split_minimal(input_total - target)))
}

} // verus!
