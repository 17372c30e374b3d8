use vstd::prelude::*;

use crate::error::WalletError;

verus! {

/// The sum of the amounts whose flag is set, over the first `n` positions.
pub open spec fn chosen_sum(amounts: Seq<u64>, chosen: Seq<bool>, n: int) -> int
    decreases n,
{
    if n <= 0 {
        0
    } else {
        chosen_sum(amounts, chosen, n - 1) + if chosen[n - 1] {
            amounts[n - 1] as int
        } else {
            0
        }
    }
}

/// Every flag set.
pub open spec fn all_chosen(n: nat) -> Seq<bool> {
    Seq::new(n, |i: int| true)
}

/// The sum of all amounts.
pub open spec fn total(amounts: Seq<u64>) -> int {
    chosen_sum(amounts, all_chosen(amounts.len()), amounts.len() as int)
}

/// A choice among the available proofs.
#[derive(Clone, Debug, PartialEq, Eq)]
pub struct Selection {
    /// One flag per available proof: whether it is spent in this operation.
    pub chosen: Vec<bool>,
    /// The sum of the chosen amounts.
    pub total: u64,
    /// The chosen amounts meet the target exactly, so no swap is needed.
    pub exact: bool,
}

proof fn lemma_chosen_sum_frame(amounts: Seq<u64>, a: Seq<bool>, b: Seq<bool>, n: int)
    requires
        forall|i: int| 0 <= i < n ==> a[i] == b[i],
    ensures
        chosen_sum(amounts, a, n) == chosen_sum(amounts, b, n),
    decreases n,
{
    if n > 0 {
        lemma_chosen_sum_frame(amounts, a, b, n - 1);
    }
}

proof fn lemma_chosen_sum_frame2(a: Seq<u64>, b: Seq<u64>, f: Seq<bool>, g: Seq<bool>, n: int)
    requires
        forall|i: int| 0 <= i < n ==> a[i] == b[i] && f[i] == g[i],
    ensures
        chosen_sum(a, f, n) == chosen_sum(b, g, n),
    decreases n,
{
    if n > 0 {
        lemma_chosen_sum_frame2(a, b, f, g, n - 1);
    }
}

/// Appending an amount adds it to the total.
pub proof fn lemma_total_push(a: Seq<u64>, x: u64)
    ensures
        total(a.push(x)) == total(a) + x,
{
    let n = a.len() as int;
    lemma_chosen_sum_frame2(a.push(x), a, all_chosen((n + 1) as nat), all_chosen(n as nat), n);
}

/// Setting one more flag adds that amount to the sum.
proof fn lemma_chosen_sum_set(amounts: Seq<u64>, chosen: Seq<bool>, k: int, n: int)
    requires
        0 <= k < n,
        n <= chosen.len(),
        !chosen[k],
    ensures
        chosen_sum(amounts, chosen.update(k, true), n) == chosen_sum(amounts, chosen, n)
            + amounts[k],
    decreases n,
{
    if n - 1 == k {
        lemma_chosen_sum_frame(amounts, chosen.update(k, true), chosen, n - 1);
    } else {
        lemma_chosen_sum_set(amounts, chosen, k, n - 1);
    }
}

/// A sum over some flags is at most the sum over all.
proof fn lemma_chosen_sum_le_total(amounts: Seq<u64>, chosen: Seq<bool>, n: int)
    requires
        n <= amounts.len(),
    ensures
        chosen_sum(amounts, chosen, n) <= chosen_sum(
            amounts,
            all_chosen(amounts.len()),
            n,
        ),
    decreases n,
{
    if n > 0 {
        lemma_chosen_sum_le_total(amounts, chosen, n - 1);
    }
}

/// The sum of all amounts, or `None` where it does not fit in 64 bits.
pub fn checked_total(amounts: &Vec<u64>) -> (r: Option<u64>)
    ensures
        r matches Some(t) ==> t == total(amounts@),
        r is None ==> total(amounts@) > u64::MAX,
{
    let ghost all = all_chosen(amounts@.len());
    let mut sum: u64 = 0;
    let mut i: usize = 0;
    while i < amounts.len()
        invariant
            i <= amounts@.len(),
            all == all_chosen(amounts@.len()),
            sum == chosen_sum(amounts@, all, i as int),
        decreases amounts@.len() - i,
    {
        if amounts[i] > u64::MAX - sum {
            proof {
                lemma_total_prefix_le(amounts@, (i + 1) as int);
            }
            return None;
        }
        sum = sum + amounts[i];
        i = i + 1;
    }
    Some(sum)
}

/// A prefix sum of non-negative amounts is at most the whole sum.
proof fn lemma_total_prefix_le(amounts: Seq<u64>, n: int)
    requires
        0 <= n <= amounts.len(),
    ensures
        chosen_sum(amounts, all_chosen(amounts.len()), n) <= total(amounts),
    decreases amounts.len() - n,
{
    if n < amounts.len() {
        lemma_total_prefix_le(amounts, n + 1);
    }
}

/// The index of the largest unchosen non-zero amount at most `limit`, if any.
fn largest_fitting(amounts: &Vec<u64>, chosen: &Vec<bool>, limit: u64) -> (r: Option<usize>)
    requires
        chosen@.len() == amounts@.len(),
    ensures
        r matches Some(k) ==> k < amounts@.len() && !chosen@[k as int] && 0 < amounts@[k as int]
            <= limit,
        r is None ==> forall|k: int|
            0 <= k < amounts@.len() && !chosen@[k] ==> amounts@[k] > limit || amounts@[k] == 0,
{
    let mut best: Option<usize> = None;
    let mut i: usize = 0;
    while i < amounts.len()
        invariant
            chosen@.len() == amounts@.len(),
            i <= amounts@.len(),
            best matches Some(k) ==> k < amounts@.len() && !chosen@[k as int] && 0 < amounts@[k
                as int] <= limit,
            best is None ==> forall|k: int|
                0 <= k < i && !chosen@[k] ==> amounts@[k] > limit || amounts@[k] == 0,
        decreases amounts@.len() - i,
    {
        if !chosen[i] && amounts[i] <= limit && amounts[i] > 0 {
            match best {
                None => {
                    best = Some(i);
                },
                Some(b) => {
                    if amounts[i] > amounts[b] {
                        best = Some(i);
                    }
                },
            }
        }
        i = i + 1;
    }
    best
}

/// Chooses proofs of the given amounts that cover `target`: first greedily, largest first, for
/// an exact match that needs no swap; failing that, more proofs until the target is covered.
pub fn select_proofs(amounts: &Vec<u64>, target: u64) -> (r: Result<Selection, WalletError>)
    requires
        total(amounts@) <= u64::MAX,
    ensures
        target == 0 ==> r == Err::<Selection, WalletError>(WalletError::InvalidAmount),
        target > 0 && total(amounts@) < target ==> r == Err::<Selection, WalletError>(
            WalletError::InsufficientFunds,
        ),
        target > 0 && total(amounts@) >= target ==> r is Ok,
        r matches Ok(s) ==> {
            &&& s.chosen@.len() == amounts@.len()
            &&& s.total == chosen_sum(amounts@, s.chosen@, amounts@.len() as int)
            &&& s.total >= target
            &&& (s.exact <==> s.total == target)
            &&& forall|i: int|
                0 <= i < amounts@.len() && #[trigger] s.chosen@[i] ==> s.total - amounts@[i]
                    < target
        },
{
    if target == 0 {
        return Err(WalletError::InvalidAmount);
    }
    match checked_total(amounts) {
        Some(t) => {
            if t < target {
                return Err(WalletError::InsufficientFunds);
            }
        },
        None => {
            return Err(WalletError::InvalidAmount);
        },
    }
    let n = amounts.len();
    let mut chosen: Vec<bool> = Vec::new();
    let mut i: usize = 0;
    while i < n
        invariant
            n == amounts@.len(),
            i <= n,
            chosen@.len() == i,
            forall|k: int| 0 <= k < i ==> !chosen@[k],
        decreases n - i,
    {
        chosen.push(false);
        i = i + 1;
    }
    proof {
        lemma_chosen_sum_frame(amounts@, chosen@, Seq::new(n as nat, |k: int| false), n as int);
        lemma_chosen_sum_zero(amounts@, n as int);
    }
    let mut sum: u64 = 0;
    let mut picks: usize = 0;
    loop
        invariant_except_break
            n == amounts@.len(),
            chosen@.len() == n,
            sum <= target,
            sum == chosen_sum(amounts@, chosen@, n as int),
            picks <= n,
            forall|i: int| 0 <= i < n && #[trigger] chosen@[i] ==> amounts@[i] > 0,
        ensures
            n == amounts@.len(),
            chosen@.len() == n,
            sum <= target,
            sum == chosen_sum(amounts@, chosen@, n as int),
            forall|i: int| 0 <= i < n && #[trigger] chosen@[i] ==> amounts@[i] > 0,
        decreases n - picks,
    {
        if sum == target || picks >= n {
            break;
        }
        match largest_fitting(amounts, &chosen, target - sum) {
            None => {
                break;
            },
            Some(k) => {
                proof {
                    lemma_chosen_sum_set(amounts@, chosen@, k as int, n as int);
                }
                chosen.set(k, true);
                sum = sum + amounts[k];
                picks = picks + 1;
            },
        }
    }
    if sum == target {
        return Ok(Selection { chosen, total: sum, exact: true });
    }
    let mut j: usize = 0;
    while j < n && sum < target
        invariant
            n == amounts@.len(),
            chosen@.len() == n,
            j <= n,
            total(amounts@) <= u64::MAX,
            sum == chosen_sum(amounts@, chosen@, n as int),
            sum < target ==> forall|k: int| 0 <= k < j ==> chosen@[k],
        decreases n - j,
    {
        if !chosen[j] {
            proof {
                lemma_chosen_sum_set(amounts@, chosen@, j as int, n as int);
                lemma_chosen_sum_le_total(amounts@, chosen@.update(j as int, true), n as int);
            }
            chosen.set(j, true);
            sum = sum + amounts[j];
        }
        j = j + 1;
    }
    proof {
        if sum < target {
            lemma_chosen_sum_frame(amounts@, chosen@, all_chosen(n as nat), n as int);
        }
    }
    let mut k: usize = 0;
    while k < n
        invariant
            n == amounts@.len(),
            chosen@.len() == n,
            k <= n,
            sum >= target,
            sum == chosen_sum(amounts@, chosen@, n as int),
            forall|i: int| 0 <= i < k && #[trigger] chosen@[i] ==> sum - amounts@[i] < target,
        decreases n - k,
    {
        if chosen[k] && amounts[k] <= sum - target {
            proof {
                lemma_chosen_sum_unset(amounts@, chosen@, k as int, n as int);
            }
            chosen.set(k, false);
            sum = sum - amounts[k];
        }
        k = k + 1;
    }
    Ok(Selection { chosen, total: sum, exact: sum == target })
}

/// Clearing a set flag takes that amount from the sum.
proof fn lemma_chosen_sum_unset(amounts: Seq<u64>, chosen: Seq<bool>, k: int, n: int)
    requires
        0 <= k < n,
        n <= chosen.len(),
        chosen[k],
    ensures
        chosen_sum(amounts, chosen.update(k, false), n) == chosen_sum(amounts, chosen, n)
            - amounts[k],
    decreases n,
{
    if n - 1 == k {
        lemma_chosen_sum_frame(amounts, chosen.update(k, false), chosen, n - 1);
    } else {
        lemma_chosen_sum_unset(amounts, chosen, k, n - 1);
    }
}

proof fn lemma_chosen_sum_zero(amounts: Seq<u64>, n: int)
    ensures
        chosen_sum(amounts, Seq::new(n as nat, |k: int| false), n) == 0,
    decreases n,
{
    if n > 0 {
        lemma_chosen_sum_frame(
            amounts,
            Seq::new(n as nat, |k: int| false),
            Seq::new((n - 1) as nat, |k: int| false),
            n - 1,
        );
        lemma_chosen_sum_zero(amounts, n - 1);
    }
}

} // verus!
