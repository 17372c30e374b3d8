use vstd::prelude::*;

use crate::conditions::bytes_eq;
use crate::error::WalletError;
use crate::selector::{Selection, all_chosen, chosen_sum, lemma_total_push, select_proofs, total};
use crate::token::{Proof, Token};

verus! {

/// A proof held by the wallet, with the mint and unit it belongs to.
#[derive(Debug)]
pub struct ProofRecord {
    pub mint_url: Vec<u8>,
    pub unit: Vec<u8>,
    pub proof: Proof,
    /// Submitted to the mint in an operation whose outcome is not yet recorded.
    pub pending: bool,
}

/// The sum of `f` over the records.
pub open spec fn sum_by(recs: Seq<ProofRecord>, f: spec_fn(ProofRecord) -> int) -> int
    decreases recs.len(),
{
    if recs.len() == 0 {
        0
    } else {
        sum_by(recs.drop_last(), f) + f(recs.last())
    }
}

/// The amount a record adds to the holdings of `mint` and `unit` in the given state.
pub open spec fn share_of(r: ProofRecord, mint: Seq<u8>, unit: Seq<u8>, pending: bool) -> int {
    if r.mint_url@ == mint && r.unit@ == unit && r.pending == pending {
        r.proof.amount as int
    } else {
        0
    }
}

/// What the wallet holds of `mint` and `unit`, pending or not.
pub open spec fn value_of(recs: Seq<ProofRecord>, mint: Seq<u8>, unit: Seq<u8>, pending: bool) -> int {
    sum_by(recs, |r: ProofRecord| share_of(r, mint, unit, pending))
}

/// The sum of every stored proof.
pub open spec fn stored_total(recs: Seq<ProofRecord>) -> int {
    sum_by(recs, |r: ProofRecord| r.proof.amount as int)
}

pub proof fn lemma_sum_by_remove(s: Seq<ProofRecord>, i: int, f: spec_fn(ProofRecord) -> int)
    requires
        0 <= i < s.len(),
    ensures
        sum_by(s.remove(i), f) == sum_by(s, f) - f(s[i]),
    decreases s.len(),
{
    if i == s.len() - 1 {
        assert(s.remove(i) =~= s.drop_last());
    } else {
        lemma_sum_by_remove(s.drop_last(), i, f);
        assert(s.remove(i).drop_last() =~= s.drop_last().remove(i));
        assert(s.remove(i).last() == s.last());
    }
}

pub proof fn lemma_sum_by_insert(
    s: Seq<ProofRecord>,
    i: int,
    x: ProofRecord,
    f: spec_fn(ProofRecord) -> int,
)
    requires
        0 <= i <= s.len(),
    ensures
        sum_by(s.insert(i, x), f) == sum_by(s, f) + f(x),
    decreases s.len(),
{
    if i == s.len() {
        assert(s.insert(i, x).drop_last() =~= s);
    } else {
        lemma_sum_by_insert(s.drop_last(), i, x, f);
        assert(s.insert(i, x).drop_last() =~= s.drop_last().insert(i, x));
        assert(s.insert(i, x).last() == s.last());
    }
}

pub proof fn lemma_sum_by_push(s: Seq<ProofRecord>, x: ProofRecord, f: spec_fn(ProofRecord) -> int)
    ensures
        sum_by(s.push(x), f) == sum_by(s, f) + f(x),
{
    assert(s.push(x).drop_last() =~= s);
}

/// One mint and unit's share of the holdings is at most the whole.
pub proof fn lemma_value_le_total(s: Seq<ProofRecord>, mint: Seq<u8>, unit: Seq<u8>, pending: bool)
    ensures
        0 <= value_of(s, mint, unit, pending) <= stored_total(s),
    decreases s.len(),
{
    if s.len() > 0 {
        lemma_value_le_total(s.drop_last(), mint, unit, pending);
    }
}

/// The wallet's local state: its proofs and the mint quotes it has claimed.
pub struct Wallet {
    pub records: Vec<ProofRecord>,
    pub claimed_quotes: Vec<Vec<u8>>,
}

/// The quote ids a wallet has claimed.
pub open spec fn claimed_ids(w: &Wallet) -> Seq<Seq<u8>> {
    w.claimed_quotes@.map_values(|q: Vec<u8>| q@)
}

/// The sum of the proofs' amounts.
pub open spec fn proof_sum(ps: Seq<Proof>) -> int
    decreases ps.len(),
{
    if ps.len() == 0 {
        0
    } else {
        proof_sum(ps.drop_last()) + ps.last().amount as int
    }
}

/// `new` holds what `old` held, plus `added` unspent for `mint` and `unit`.
pub open spec fn added_unspent(
    old: Seq<ProofRecord>,
    new: Seq<ProofRecord>,
    mint: Seq<u8>,
    unit: Seq<u8>,
    added: int,
) -> bool {
    &&& forall|m: Seq<u8>, u: Seq<u8>, p: bool| #[trigger]
        value_of(new, m, u, p) == value_of(old, m, u, p) + if m == mint && u == unit && !p {
            added
        } else {
            0
        }
    &&& stored_total(new) == stored_total(old) + added
}

/// `new` is `old` with every pending proof of `mint` and `unit` gone.
pub open spec fn pending_dropped(
    old: Seq<ProofRecord>,
    new: Seq<ProofRecord>,
    mint: Seq<u8>,
    unit: Seq<u8>,
) -> bool {
    &&& forall|m: Seq<u8>, u: Seq<u8>, p: bool| #[trigger]
        value_of(new, m, u, p) == if m == mint && u == unit && p {
            0
        } else {
            value_of(old, m, u, p)
        }
    &&& stored_total(new) == stored_total(old) - value_of(old, mint, unit, true)
}

/// `new` is `old` with `moved` of the unspent holdings of `mint` and `unit` now pending
/// (or back, for a negative `moved`).
pub open spec fn moved_to_pending(
    old: Seq<ProofRecord>,
    new: Seq<ProofRecord>,
    mint: Seq<u8>,
    unit: Seq<u8>,
    moved: int,
) -> bool {
    &&& forall|m: Seq<u8>, u: Seq<u8>, p: bool| #[trigger]
        value_of(new, m, u, p) == value_of(old, m, u, p) + if m == mint && u == unit {
            if p {
                moved
            } else {
                -moved
            }
        } else {
            0
        }
    &&& stored_total(new) == stored_total(old)
}

pub proof fn lemma_update_values(s: Seq<ProofRecord>, i: int, x: ProofRecord)
    requires
        0 <= i < s.len(),
    ensures
        forall|m: Seq<u8>, u: Seq<u8>, p: bool| #[trigger]
            value_of(s.update(i, x), m, u, p) == value_of(s, m, u, p) - share_of(s[i], m, u, p)
                + share_of(x, m, u, p),
        stored_total(s.update(i, x)) == stored_total(s) - s[i].proof.amount + x.proof.amount,
{
    assert(s.remove(i).insert(i, x) =~= s.update(i, x));
    assert forall|m: Seq<u8>, u: Seq<u8>, p: bool| #[trigger]
        value_of(s.update(i, x), m, u, p) == value_of(s, m, u, p) - share_of(s[i], m, u, p)
            + share_of(x, m, u, p) by {
        lemma_sum_by_remove(s, i, |r: ProofRecord| share_of(r, m, u, p));
        lemma_sum_by_insert(s.remove(i), i, x, |r: ProofRecord| share_of(r, m, u, p));
    }
    lemma_sum_by_remove(s, i, |r: ProofRecord| r.proof.amount as int);
    lemma_sum_by_insert(s.remove(i), i, x, |r: ProofRecord| r.proof.amount as int);
}

pub proof fn lemma_remove_values(s: Seq<ProofRecord>, i: int)
    requires
        0 <= i < s.len(),
    ensures
        forall|m: Seq<u8>, u: Seq<u8>, p: bool| #[trigger]
            value_of(s.remove(i), m, u, p) == value_of(s, m, u, p) - share_of(s[i], m, u, p),
        stored_total(s.remove(i)) == stored_total(s) - s[i].proof.amount,
{
    assert forall|m: Seq<u8>, u: Seq<u8>, p: bool| #[trigger]
        value_of(s.remove(i), m, u, p) == value_of(s, m, u, p) - share_of(s[i], m, u, p) by {
        lemma_sum_by_remove(s, i, |r: ProofRecord| share_of(r, m, u, p));
    }
    lemma_sum_by_remove(s, i, |r: ProofRecord| r.proof.amount as int);
}

/// No record holds pending value of `mint` and `unit`, so that value is zero.
pub proof fn lemma_value_zero(s: Seq<ProofRecord>, mint: Seq<u8>, unit: Seq<u8>, pending: bool)
    requires
        forall|j: int| 0 <= j < s.len() ==> share_of(#[trigger] s[j], mint, unit, pending) == 0,
    ensures
        value_of(s, mint, unit, pending) == 0,
    decreases s.len(),
{
    if s.len() > 0 {
        assert(share_of(s[s.len() - 1], mint, unit, pending) == 0);
        lemma_value_zero(s.drop_last(), mint, unit, pending);
    }
}

/// What claiming mint quote `id` does: nothing where it was claimed before; else the proofs
/// are stored and the id recorded, or, where the sum would overflow, nothing changes.
pub open spec fn claim_effect(
    old: Wallet,
    new: Wallet,
    id: Seq<u8>,
    mint: Seq<u8>,
    unit: Seq<u8>,
    proofs: Seq<Proof>,
    r: Result<u64, WalletError>,
) -> bool {
    if claimed_ids(&old).contains(id) {
        r == Ok::<u64, WalletError>(0) && new.records@ == old.records@ && claimed_ids(&new)
            == claimed_ids(&old)
    } else if stored_total(old.records@) + proof_sum(proofs) > u64::MAX {
        r == Err::<u64, WalletError>(WalletError::InvalidAmount) && new.records@ == old.records@
            && claimed_ids(&new) == claimed_ids(&old)
    } else {
        &&& r == Ok::<u64, WalletError>(proof_sum(proofs) as u64)
        &&& added_unspent(old.records@, new.records@, mint, unit, proof_sum(proofs))
        &&& claimed_ids(&new) == claimed_ids(&old).push(id)
    }
}

/// Claiming a mint quote a second time changes nothing: its funds arrive once.
pub proof fn lemma_claim_idempotent(
    w0: Wallet,
    w1: Wallet,
    w2: Wallet,
    id: Seq<u8>,
    mint: Seq<u8>,
    unit: Seq<u8>,
    proofs: Seq<Proof>,
    again: Seq<Proof>,
    r1: Result<u64, WalletError>,
    r2: Result<u64, WalletError>,
)
    requires
        claim_effect(w0, w1, id, mint, unit, proofs, r1),
        claim_effect(w1, w2, id, mint, unit, again, r2),
        r1 is Ok,
    ensures
        r2 == Ok::<u64, WalletError>(0),
        w2.records@ == w1.records@,
        forall|m: Seq<u8>, u: Seq<u8>, p: bool| #[trigger]
            value_of(w2.records@, m, u, p) == value_of(w0.records@, m, u, p) + if !claimed_ids(
                &w0,
            ).contains(id) && m == mint && u == unit && !p {
                proof_sum(proofs)
            } else {
                0
            },
{
    if !claimed_ids(&w0).contains(id) {
        assert(claimed_ids(&w1)[claimed_ids(&w0).len() as int] == id);
        assert(claimed_ids(&w1).contains(id));
    }
}

/// A swap writes twice: first the new proofs, then the removal of the old. After the first
/// write the old inputs are still held beside the new proofs; after the second the new proofs
/// are held. No write leaves the wallet holding neither.
pub proof fn lemma_swap_write_steps(
    before: Seq<ProofRecord>,
    stored: Seq<ProofRecord>,
    after: Seq<ProofRecord>,
    mint: Seq<u8>,
    unit: Seq<u8>,
    change: int,
)
    requires
        added_unspent(before, stored, mint, unit, change),
        pending_dropped(stored, after, mint, unit),
    ensures
        value_of(stored, mint, unit, true) == value_of(before, mint, unit, true),
        value_of(stored, mint, unit, false) == value_of(before, mint, unit, false) + change,
        value_of(after, mint, unit, false) == value_of(before, mint, unit, false) + change,
        value_of(after, mint, unit, true) == 0,
{
    assert(value_of(stored, mint, unit, true) == value_of(before, mint, unit, true));
    assert(value_of(stored, mint, unit, false) == value_of(before, mint, unit, false) + change);
    assert(value_of(after, mint, unit, false) == value_of(stored, mint, unit, false));
    assert(value_of(after, mint, unit, true) == 0);
}

/// The amounts of the pending records, among the first `n`, that the mint reports spent.
pub open spec fn spent_pending_sum(recs: Seq<ProofRecord>, spent: Seq<bool>, n: int) -> int
    decreases n,
{
    if n <= 0 {
        0
    } else {
        spent_pending_sum(recs, spent, n - 1) + if recs[n - 1].pending && spent[n - 1] {
            recs[n - 1].proof.amount as int
        } else {
            0
        }
    }
}

/// The records after the pending ones among the first `n` were resolved by `spent`: spent
/// ones dropped, the others no longer pending.
pub open spec fn resolved(recs: Seq<ProofRecord>, spent: Seq<bool>, n: int) -> Seq<ProofRecord>
    decreases n,
{
    if n <= 0 {
        Seq::empty()
    } else {
        let prev = resolved(recs, spent, n - 1);
        let r = recs[n - 1];
        if !r.pending {
            prev.push(r)
        } else if spent[n - 1] {
            prev
        } else {
            prev.push(ProofRecord { mint_url: r.mint_url, unit: r.unit, proof: r.proof, pending: false })
        }
    }
}

/// With nothing pending, resolving leaves the records as they are.
pub proof fn lemma_resolve_nothing_pending(recs: Seq<ProofRecord>, spent: Seq<bool>, n: int)
    requires
        0 <= n <= recs.len(),
        forall|j: int| 0 <= j < recs.len() ==> !(#[trigger] recs[j]).pending,
    ensures
        resolved(recs, spent, n) == recs.take(n),
    decreases n,
{
    if n > 0 {
        lemma_resolve_nothing_pending(recs, spent, n - 1);
        assert(!recs[n - 1].pending);
        assert(recs.take(n - 1).push(recs[n - 1]) =~= recs.take(n));
    } else {
        assert(recs.take(0) =~= Seq::<ProofRecord>::empty());
    }
}

/// How many pending records of `mint` and `unit` there are.
pub open spec fn pending_count(recs: Seq<ProofRecord>, mint: Seq<u8>, unit: Seq<u8>) -> int {
    sum_by(
        recs,
        |r: ProofRecord|
            if r.mint_url@ == mint && r.unit@ == unit && r.pending {
                1int
            } else {
                0int
            },
    )
}

/// A melt that could not be settled, with what is needed to resume it.
#[derive(Debug)]
pub struct SettleError {
    pub kind: WalletError,
    pub mint_url: Vec<u8>,
    pub unit: Vec<u8>,
    pub quote_id: Vec<u8>,
    /// How many proofs of the melt are held pending.
    pub proof_count: u64,
}

/// How a melt ended, as the mint reported it.
#[derive(Clone, Copy, Debug, PartialEq, Eq, Structural)]
pub enum MeltOutcome {
    /// The invoice was paid: the inputs are spent.
    Paid,
    /// The mint refused: the inputs were not spent.
    Failed,
    /// No answer came: the inputs may or may not be spent.
    Unknown,
}

impl Wallet {
    /// The wallet's sums fit in 64 bits.
    pub open spec fn wf(&self) -> bool {
        stored_total(self.records@) <= u64::MAX
    }

    /// An empty wallet.
    pub fn new() -> (r: Wallet)
        ensures
            r.wf(),
            r.records@.len() == 0,
            r.claimed_quotes@.len() == 0,
    {
        Wallet { records: Vec::new(), claimed_quotes: Vec::new() }
    }

    /// The unspent amount held of `mint` and `unit`.
    pub fn balance(&self, mint: &[u8], unit: &[u8]) -> (r: u64)
        requires
            self.wf(),
        ensures
            r == value_of(self.records@, mint@, unit@, false),
    {
        self.value(mint, unit, false)
    }

    /// The amount held of `mint` and `unit` that is pending.
    pub fn pending_balance(&self, mint: &[u8], unit: &[u8]) -> (r: u64)
        requires
            self.wf(),
        ensures
            r == value_of(self.records@, mint@, unit@, true),
    {
        self.value(mint, unit, true)
    }

    fn value(&self, mint: &[u8], unit: &[u8], pending: bool) -> (r: u64)
        requires
            self.wf(),
        ensures
            r == value_of(self.records@, mint@, unit@, pending),
    {
        let mut sum: u64 = 0;
        let mut i: usize = 0;
        while i < self.records.len()
            invariant
                self.wf(),
                i <= self.records@.len(),
                sum == value_of(self.records@.take(i as int), mint@, unit@, pending),
            decreases self.records@.len() - i,
        {
            let r = &self.records[i];
            proof {
                let t = self.records@.take(i + 1);
                assert(t.drop_last() =~= self.records@.take(i as int));
                lemma_value_le_total(t, mint@, unit@, pending);
                lemma_prefix_total_le(self.records@, i + 1);
            }
            if r.pending == pending && bytes_eq(r.mint_url.as_slice(), mint) && bytes_eq(
                r.unit.as_slice(),
                unit,
            ) {
                sum = sum + r.proof.amount;
            }
            i = i + 1;
        }
        assert(self.records@.take(i as int) =~= self.records@);
        sum
    }

    /// Stores `proofs` as unspent for `mint` and `unit`, returning their sum; refuses with
    /// `InvalidAmount`, storing nothing, where the wallet's sum would overflow.
    pub fn store_proofs(&mut self, mint: &[u8], unit: &[u8], proofs: Vec<Proof>) -> (r: Result<
        u64,
        WalletError,
    >)
        requires
            old(self).wf(),
        ensures
            final(self).wf(),
            final(self).claimed_quotes == old(self).claimed_quotes,
            stored_total(old(self).records@) + proof_sum(proofs@) > u64::MAX ==> r == Err::<
                u64,
                WalletError,
            >(WalletError::InvalidAmount) && final(self).records@ == old(self).records@,
            stored_total(old(self).records@) + proof_sum(proofs@) <= u64::MAX ==> r == Ok::<
                u64,
                WalletError,
            >(proof_sum(proofs@) as u64) && added_unspent(
                old(self).records@,
                final(self).records@,
                mint@,
                unit@,
                proof_sum(proofs@),
            ),
    {
        let ghost start = self.records@;
        let base = self.value_all();
        let mut sum: u64 = 0;
        let mut i: usize = 0;
        while i < proofs.len()
            invariant
                start == old(self).records@,
                self.records@ == start,
                self.claimed_quotes == old(self).claimed_quotes,
                base == stored_total(start),
                i <= proofs@.len(),
                sum == proof_sum(proofs@.take(i as int)),
                base + sum <= u64::MAX,
            decreases proofs@.len() - i,
        {
            proof {
                assert(proofs@.take(i + 1).drop_last() =~= proofs@.take(i as int));
            }
            if proofs[i].amount > u64::MAX - base - sum {
                proof {
                    lemma_proof_sum_prefix(proofs@, i + 1);
                    assert(proofs@.take(i + 1).last() == proofs@[i as int]);
                    assert(proof_sum(proofs@.take(i + 1)) == sum + proofs@[i as int].amount);
                }
                return Err(WalletError::InvalidAmount);
            }
            sum = sum + proofs[i].amount;
            i = i + 1;
        }
        assert(proofs@.take(i as int) =~= proofs@);
        let ghost all = proofs@;
        let mut rest = proofs;
        let mut added: u64 = 0;
        while rest.len() > 0
            invariant
                start == old(self).records@,
                self.claimed_quotes == old(self).claimed_quotes,
                proof_sum(all) == sum,
                added + proof_sum(rest@) == sum,
                base == stored_total(start),
                base + sum <= u64::MAX,
                added_unspent(start, self.records@, mint@, unit@, added as int),
            decreases rest@.len(),
        {
            let ghost prev = rest@;
            let p = rest.pop().unwrap();
            proof {
                assert(prev.drop_last() == rest@ && prev.last() == p);
            }
            let ghost before = self.records@;
            let amount = p.amount;
            let rec = ProofRecord {
                mint_url: crate::codec::bytes_of(mint),
                unit: crate::codec::bytes_of(unit),
                proof: p,
                pending: false,
            };
            self.records.push(rec);
            proof {
                lemma_proof_sum_nonneg(rest@);
                assert forall|m: Seq<u8>, u: Seq<u8>, q: bool| #[trigger]
                    value_of(self.records@, m, u, q) == value_of(before, m, u, q) + share_of(
                        rec,
                        m,
                        u,
                        q,
                    ) by {
                    lemma_sum_by_push(before, rec, |r: ProofRecord| share_of(r, m, u, q));
                }
                lemma_sum_by_push(before, rec, |r: ProofRecord| r.proof.amount as int);
            }
            added = added + amount;
        }
        assert(proof_sum(rest@) == 0);
        Ok(sum)
    }

    /// Sets the pending flag of record `i`.
    fn set_pending(&mut self, i: usize, pending: bool)
        requires
            i < old(self).records@.len(),
        ensures
            final(self).claimed_quotes == old(self).claimed_quotes,
            final(self).records@.len() == old(self).records@.len(),
            forall|j: int|
                0 <= j < old(self).records@.len() && j != i ==> final(self).records@[j] == old(
                    self,
                ).records@[j],
            final(self).records@[i as int].pending == pending,
            final(self).records@[i as int].mint_url == old(self).records@[i as int].mint_url,
            final(self).records@[i as int].unit == old(self).records@[i as int].unit,
            final(self).records@[i as int].proof == old(self).records@[i as int].proof,
            final(self).records@ == old(self).records@.update(i as int, final(self).records@[i as int]),
    {
        let mut r = self.records.remove(i);
        r.pending = pending;
        self.records.insert(i, r);
        assert(self.records@ =~= old(self).records@.update(i as int, self.records@[i as int]));
    }

    /// The positions and amounts of the unspent records of `mint` and `unit`, in order.
    fn unspent_of(&self, mint: &[u8], unit: &[u8]) -> (r: (Vec<usize>, Vec<u64>))
        requires
            self.wf(),
        ensures
            r.0@.len() == r.1@.len(),
            total(r.1@) == value_of(self.records@, mint@, unit@, false),
            forall|j: int|
                0 <= j < r.0@.len() ==> {
                    let k = #[trigger] r.0@[j] as int;
                    &&& 0 <= k < self.records@.len()
                    &&& self.records@[k].mint_url@ == mint@
                    &&& self.records@[k].unit@ == unit@
                    &&& !self.records@[k].pending
                    &&& self.records@[k].proof.amount == r.1@[j]
                },
            forall|a: int, b: int| 0 <= a < b < r.0@.len() ==> r.0@[a] < r.0@[b],
    {
        let mut pos: Vec<usize> = Vec::new();
        let mut amounts: Vec<u64> = Vec::new();
        let mut i: usize = 0;
        proof {
            assert(total(amounts@) == 0);
        }
        while i < self.records.len()
            invariant
                self.wf(),
                i <= self.records@.len(),
                pos@.len() == amounts@.len(),
                total(amounts@) == value_of(self.records@.take(i as int), mint@, unit@, false),
                forall|j: int|
                    0 <= j < pos@.len() ==> {
                        let k = #[trigger] pos@[j] as int;
                        &&& 0 <= k < i
                        &&& self.records@[k].mint_url@ == mint@
                        &&& self.records@[k].unit@ == unit@
                        &&& !self.records@[k].pending
                        &&& self.records@[k].proof.amount == amounts@[j]
                    },
                forall|a: int, b: int| 0 <= a < b < pos@.len() ==> pos@[a] < pos@[b],
            decreases self.records@.len() - i,
        {
            let r = &self.records[i];
            proof {
                assert(self.records@.take(i + 1).drop_last() =~= self.records@.take(i as int));
            }
            if !r.pending && bytes_eq(r.mint_url.as_slice(), mint) && bytes_eq(
                r.unit.as_slice(),
                unit,
            ) {
                proof {
                    lemma_total_push(amounts@, r.proof.amount);
                }
                pos.push(i);
                amounts.push(r.proof.amount);
            }
            i = i + 1;
        }
        assert(self.records@.take(i as int) =~= self.records@);
        (pos, amounts)
    }

    /// Chooses unspent proofs of `mint` and `unit` that cover `amount` and marks them pending,
    /// so that no other operation can select them. Checks the funds before anything else.
    pub fn begin_spend(&mut self, mint: &[u8], unit: &[u8], amount: u64) -> (r: Result<
        Selection,
        WalletError,
    >)
        requires
            old(self).wf(),
        ensures
            final(self).wf(),
            final(self).claimed_quotes == old(self).claimed_quotes,
            amount == 0 ==> r == Err::<Selection, WalletError>(WalletError::InvalidAmount),
            amount > 0 && value_of(old(self).records@, mint@, unit@, true) > 0 ==> r == Err::<
                Selection,
                WalletError,
            >(WalletError::PendingUnresolved),
            amount > 0 && value_of(old(self).records@, mint@, unit@, true) == 0 && value_of(
                old(self).records@,
                mint@,
                unit@,
                false,
            ) < amount ==> r == Err::<Selection, WalletError>(WalletError::InsufficientFunds),
            amount > 0 && value_of(old(self).records@, mint@, unit@, true) == 0 && value_of(
                old(self).records@,
                mint@,
                unit@,
                false,
            ) >= amount ==> r is Ok,
            r is Err ==> final(self).records@ == old(self).records@,
            r matches Ok(s) ==> value_of(old(self).records@, mint@, unit@, true) == 0 && s.total >= amount && (s.exact <==> s.total == amount)
                && moved_to_pending(
                old(self).records@,
                final(self).records@,
                mint@,
                unit@,
                s.total as int,
            ),
    {
        if amount == 0 {
            return Err(WalletError::InvalidAmount);
        }
        if self.pending_balance(mint, unit) > 0 {
            return Err(WalletError::PendingUnresolved);
        }
        let (pos, amounts) = self.unspent_of(mint, unit);
        proof {
            lemma_value_le_total(self.records@, mint@, unit@, false);
        }
        let sel = match select_proofs(&amounts, amount) {
            Err(e) => {
                return Err(e);
            },
            Ok(s) => s,
        };
        let ghost start = self.records@;
        let mut k: usize = 0;
        while k < pos.len()
            invariant
                start == old(self).records@,
                self.claimed_quotes == old(self).claimed_quotes,
                self.records@.len() == start.len(),
                pos@.len() == amounts@.len(),
                sel.chosen@.len() == amounts@.len(),
                k <= pos@.len(),
                forall|j: int|
                    0 <= j < pos@.len() ==> {
                        let q = #[trigger] pos@[j] as int;
                        &&& 0 <= q < start.len()
                        &&& start[q].mint_url@ == mint@
                        &&& start[q].unit@ == unit@
                        &&& !start[q].pending
                        &&& start[q].proof.amount == amounts@[j]
                    },
                forall|a: int, b: int| 0 <= a < b < pos@.len() ==> pos@[a] < pos@[b],
                forall|j: int| k <= j < pos@.len() ==> self.records@[#[trigger] pos@[j] as int] == start[pos@[j] as int],
                moved_to_pending(start, self.records@, mint@, unit@, chosen_sum(amounts@, sel.chosen@, k as int)),
            decreases pos@.len() - k,
        {
            if sel.chosen[k] {
                let ghost before = self.records@;
                let q = pos[k];
                self.set_pending(q, true);
                proof {
                    lemma_update_values(before, q as int, self.records@[q as int]);
                    assert forall|j: int| k + 1 <= j < pos@.len() implies self.records@[#[trigger] pos@[j] as int] == start[pos@[j] as int] by {
                        assert(pos@[j] != q);
                    }
                }
            }
            k = k + 1;
        }
        Ok(sel)
    }

    /// Removes every pending proof of `mint` and `unit` and hands them back.
    pub fn take_pending(&mut self, mint: &[u8], unit: &[u8]) -> (r: Vec<Proof>)
        requires
            old(self).wf(),
        ensures
            final(self).wf(),
            final(self).claimed_quotes == old(self).claimed_quotes,
            pending_dropped(old(self).records@, final(self).records@, mint@, unit@),
            proof_sum(r@) == value_of(old(self).records@, mint@, unit@, true),
    {
        let ghost start = self.records@;
        let mut out: Vec<Proof> = Vec::new();
        let mut i: usize = self.records.len();
        while i > 0
            invariant
                start == old(self).records@,
                self.claimed_quotes == old(self).claimed_quotes,
                i <= self.records@.len(),
                i <= start.len(),
                forall|j: int| 0 <= j < i ==> self.records@[j] == start[j],
                forall|j: int|
                    i <= j < self.records@.len() ==> share_of(
                        #[trigger] self.records@[j],
                        mint@,
                        unit@,
                        true,
                    ) == 0,
                value_of(start, mint@, unit@, true) == value_of(self.records@, mint@, unit@, true)
                    + proof_sum(out@),
                forall|m: Seq<u8>, u: Seq<u8>, p: bool|
                    !(m == mint@ && u == unit@ && p) ==> #[trigger] value_of(
                        self.records@,
                        m,
                        u,
                        p,
                    ) == value_of(start, m, u, p),
                stored_total(self.records@) == stored_total(start) - proof_sum(out@),
            decreases i,
        {
            i = i - 1;
            let matches = self.records[i].pending && bytes_eq(
                self.records[i].mint_url.as_slice(),
                mint,
            ) && bytes_eq(self.records[i].unit.as_slice(), unit);
            if matches {
                let ghost before = self.records@;
                let ghost before_out = out@;
                proof {
                    lemma_remove_values(before, i as int);
                }
                let rec = self.records.remove(i);
                out.push(rec.proof);
                proof {
                    assert(out@.drop_last() =~= before_out);
                    assert forall|j: int| i <= j < self.records@.len() implies share_of(
                        #[trigger] self.records@[j],
                        mint@,
                        unit@,
                        true,
                    ) == 0 by {
                        assert(self.records@[j] == before[j + 1]);
                    }
                }
            }
        }
        proof {
            lemma_value_zero(self.records@, mint@, unit@, true);
            lemma_value_le_total(start, mint@, unit@, true);
            lemma_value_le_total(self.records@, mint@, unit@, true);
        }
        out
    }

    /// Returns every pending proof of `mint` and `unit` to the unspent holdings.
    pub fn release_pending(&mut self, mint: &[u8], unit: &[u8])
        requires
            old(self).wf(),
        ensures
            final(self).wf(),
            final(self).claimed_quotes == old(self).claimed_quotes,
            moved_to_pending(
                old(self).records@,
                final(self).records@,
                mint@,
                unit@,
                -value_of(old(self).records@, mint@, unit@, true),
            ),
    {
        let ghost start = self.records@;
        let mut i: usize = 0;
        while i < self.records.len()
            invariant
                start == old(self).records@,
                self.claimed_quotes == old(self).claimed_quotes,
                self.records@.len() == start.len(),
                i <= start.len(),
                forall|j: int| i <= j < start.len() ==> self.records@[j] == start[j],
                forall|j: int|
                    0 <= j < i ==> share_of(#[trigger] self.records@[j], mint@, unit@, true) == 0,
                moved_to_pending(
                    start,
                    self.records@,
                    mint@,
                    unit@,
                    value_of(self.records@, mint@, unit@, true) - value_of(
                        start,
                        mint@,
                        unit@,
                        true,
                    ),
                ),
            decreases start.len() - i,
        {
            let matches = self.records[i].pending && bytes_eq(
                self.records[i].mint_url.as_slice(),
                mint,
            ) && bytes_eq(self.records[i].unit.as_slice(), unit);
            if matches {
                let ghost before = self.records@;
                self.set_pending(i, false);
                proof {
                    lemma_update_values(before, i as int, self.records@[i as int]);
                }
            }
            i = i + 1;
        }
        proof {
            lemma_value_zero(self.records@, mint@, unit@, true);
        }
    }

    /// Completes a swap: stores the `change` the mint issued, then drops the pending inputs and
    /// hands them back. The new proofs are recorded before the old ones go, so that no step
    /// leaves the wallet holding neither. On an overflow nothing changes.
    pub fn commit_swap(&mut self, mint: &[u8], unit: &[u8], change: Vec<Proof>) -> (r: Result<
        Vec<Proof>,
        WalletError,
    >)
        requires
            old(self).wf(),
        ensures
            final(self).wf(),
            final(self).claimed_quotes == old(self).claimed_quotes,
            r is Err ==> final(self).records@ == old(self).records@ && r == Err::<
                Vec<Proof>,
                WalletError,
            >(WalletError::InvalidAmount),
            stored_total(old(self).records@) + proof_sum(change@) <= u64::MAX <==> r is Ok,
            r matches Ok(inputs) ==> {
                &&& proof_sum(inputs@) == value_of(old(self).records@, mint@, unit@, true)
                &&& value_of(final(self).records@, mint@, unit@, true) == 0
                &&& value_of(final(self).records@, mint@, unit@, false) == value_of(
                    old(self).records@,
                    mint@,
                    unit@,
                    false,
                ) + proof_sum(change@)
            },
    {
        match self.store_proofs(mint, unit, change) {
            Err(e) => Err(e),
            Ok(_) => Ok(self.take_pending(mint, unit)),
        }
    }

    /// Records how a melt ended. Paid: the change is stored and the pending inputs dropped.
    /// Failed: the inputs return to the unspent holdings. Unknown: the inputs stay pending, to be
    /// resolved by asking the mint about their state.
    pub fn settle_melt(
        &mut self,
        mint: &[u8],
        unit: &[u8],
        quote_id: &[u8],
        outcome: MeltOutcome,
        change: Vec<Proof>,
    ) -> (r: Result<u64, SettleError>)
        requires
            old(self).wf(),
        ensures
            final(self).wf(),
            final(self).claimed_quotes == old(self).claimed_quotes,
            r matches Err(e) ==> e.mint_url@ == mint@ && e.unit@ == unit@ && e.quote_id@
                == quote_id@ && e.proof_count == pending_count(old(self).records@, mint@, unit@)
                && final(self).records@ == old(self).records@,
            outcome == MeltOutcome::Unknown ==> (r matches Err(e) && e.kind
                == WalletError::AmbiguousSettlement),
            outcome == MeltOutcome::Failed ==> r == Ok::<u64, SettleError>(0) && moved_to_pending(
                old(self).records@,
                final(self).records@,
                mint@,
                unit@,
                -value_of(old(self).records@, mint@, unit@, true),
            ),
            outcome == MeltOutcome::Paid && stored_total(old(self).records@) + proof_sum(change@)
                > u64::MAX ==> (r matches Err(e) && e.kind == WalletError::InvalidAmount),
            outcome == MeltOutcome::Paid && stored_total(old(self).records@) + proof_sum(change@)
                <= u64::MAX ==> {
                &&& r == Ok::<u64, SettleError>(value_of(old(self).records@, mint@, unit@, true) as u64)
                &&& value_of(final(self).records@, mint@, unit@, true) == 0
                &&& value_of(final(self).records@, mint@, unit@, false) == value_of(
                    old(self).records@,
                    mint@,
                    unit@,
                    false,
                ) + proof_sum(change@)
            },
    {
        match outcome {
            MeltOutcome::Unknown => Err(self.settle_error(WalletError::AmbiguousSettlement, mint, unit, quote_id)),
            MeltOutcome::Failed => {
                self.release_pending(mint, unit);
                Ok(0)
            },
            MeltOutcome::Paid => {
                let spent = self.pending_balance(mint, unit);
                let count = self.pending_records(mint, unit);
                match self.commit_swap(mint, unit, change) {
                    Err(e) => Err(
                        SettleError {
                            kind: e,
                            mint_url: crate::codec::bytes_of(mint),
                            unit: crate::codec::bytes_of(unit),
                            quote_id: crate::codec::bytes_of(quote_id),
                            proof_count: count,
                        },
                    ),
                    Ok(_) => Ok(spent),
                }
            },
        }
    }

    /// Claims the proofs issued for mint quote `quote_id`. A quote already claimed adds nothing:
    /// claiming twice yields the funds once.
    pub fn claim_mint_quote(
        &mut self,
        quote_id: &[u8],
        mint: &[u8],
        unit: &[u8],
        proofs: Vec<Proof>,
    ) -> (r: Result<u64, WalletError>)
        requires
            old(self).wf(),
        ensures
            final(self).wf(),
            claim_effect(*old(self), *final(self), quote_id@, mint@, unit@, proofs@, r),
    {
        let mut i: usize = 0;
        while i < self.claimed_quotes.len()
            invariant
                self.wf(),
                self.records == old(self).records,
                self.claimed_quotes == old(self).claimed_quotes,
                i <= self.claimed_quotes@.len(),
                forall|j: int| 0 <= j < i ==> claimed_ids(self)[j] != quote_id@,
            decreases self.claimed_quotes@.len() - i,
        {
            if bytes_eq(self.claimed_quotes[i].as_slice(), quote_id) {
                proof {
                    assert(claimed_ids(self)[i as int] == quote_id@);
                }
                return Ok(0);
            }
            i = i + 1;
        }
        assert(!claimed_ids(self).contains(quote_id@));
        let ghost before = self.claimed_quotes@;
        match self.store_proofs(mint, unit, proofs) {
            Err(e) => Err(e),
            Ok(n) => {
                self.claimed_quotes.push(crate::codec::bytes_of(quote_id));
                proof {
                    assert(claimed_ids(self) =~= claimed_ids(old(self)).push(quote_id@));
                }
                Ok(n)
            },
        }
    }

    /// Resolves every pending proof by the mint's report on it (`spent[i]` for record `i`):
    /// a spent one is dropped, an unspent one returns to the holdings, and records that were
    /// not pending stay as they were, in order. Returns the amount dropped.
    pub fn resolve_pending(&mut self, spent: &Vec<bool>) -> (r: u64)
        requires
            old(self).wf(),
            spent@.len() == old(self).records@.len(),
        ensures
            final(self).wf(),
            final(self).claimed_quotes == old(self).claimed_quotes,
            final(self).records@ == resolved(
                old(self).records@,
                spent@,
                old(self).records@.len() as int,
            ),
            r == spent_pending_sum(old(self).records@, spent@, old(self).records@.len() as int),
            stored_total(final(self).records@) + r == stored_total(old(self).records@),
            forall|j: int|
                0 <= j < final(self).records@.len() ==> !(#[trigger] final(self).records@[j]).pending,
    {
        let ghost start = self.records@;
        let total_len: usize = self.records.len();
        let mut rest: Vec<ProofRecord> = Vec::new();
        std::mem::swap(&mut self.records, &mut rest);
        let mut removed: u64 = 0;
        let mut k: usize = 0;
        proof {
            assert(start.take(0) =~= Seq::<ProofRecord>::empty());
            assert(rest@ =~= start.subrange(0, start.len() as int));
        }
        while rest.len() > 0
            invariant
                start == old(self).records@,
                self.claimed_quotes == old(self).claimed_quotes,
                spent@.len() == start.len(),
                stored_total(start) <= u64::MAX,
                total_len == start.len(),
                k + rest@.len() == start.len(),
                rest@ == start.subrange(k as int, start.len() as int),
                self.records@ == resolved(start, spent@, k as int),
                removed == spent_pending_sum(start, spent@, k as int),
                stored_total(self.records@) + removed == stored_total(start.take(k as int)),
                forall|j: int| 0 <= j < self.records@.len() ==> !(#[trigger] self.records@[j]).pending,
            decreases rest@.len(),
        {
            let ghost before = self.records@;
            let rec = rest.remove(0);
            proof {
                assert(rec == start[k as int]);
                assert(rest@ =~= start.subrange(k + 1, start.len() as int));
                assert(start.take(k + 1).drop_last() =~= start.take(k as int));
                lemma_prefix_total_le(start, k + 1);
                lemma_nonneg_total(before);
                assert(start.take(k + 1).last() == rec);
                assert(stored_total(start.take(k + 1)) == stored_total(start.take(k as int))
                    + rec.proof.amount);
                assert(stored_total(self.records@) >= 0);
                assert(removed + rec.proof.amount <= stored_total(start));
            }
            if rec.pending && spent[k] {
                removed = removed + rec.proof.amount;
            } else if rec.pending {
                let fresh = ProofRecord {
                    mint_url: rec.mint_url,
                    unit: rec.unit,
                    proof: rec.proof,
                    pending: false,
                };
                proof {
                    lemma_sum_by_push(before, fresh, |r: ProofRecord| r.proof.amount as int);
                }
                self.records.push(fresh);
            } else {
                proof {
                    lemma_sum_by_push(before, rec, |r: ProofRecord| r.proof.amount as int);
                }
                self.records.push(rec);
            }
            k = k + 1;
        }
        proof {
            assert(start.take(k as int) =~= start);
        }
        removed
    }

    /// Finishes a send whose selection was exact: the pending proofs of `mint` and `unit`, worth
    /// exactly `target`, leave the wallet inside the returned token. Refuses with
    /// `InvalidAmount`, changing nothing, where the pending proofs are not worth `target`.
    pub fn finish_send_exact(
        &mut self,
        mint: &[u8],
        unit: &[u8],
        memo: Option<Vec<u8>>,
        target: u64,
    ) -> (r: Result<Token, WalletError>)
        requires
            old(self).wf(),
        ensures
            final(self).wf(),
            final(self).claimed_quotes == old(self).claimed_quotes,
            r is Ok <==> value_of(old(self).records@, mint@, unit@, true) == target,
            r is Err ==> r == Err::<Token, WalletError>(WalletError::InvalidAmount)
                && final(self).records@ == old(self).records@,
            r matches Ok(t) ==> {
                &&& pending_dropped(old(self).records@, final(self).records@, mint@, unit@)
                &&& proof_sum(t.proofs@) == target
                &&& t.mint_url@ == mint@
                &&& t.unit@ == unit@
                &&& t.memo == memo
            },
    {
        if self.pending_balance(mint, unit) != target {
            return Err(WalletError::InvalidAmount);
        }
        let proofs = self.take_pending(mint, unit);
        Ok(Token {
            mint_url: crate::codec::bytes_of(mint),
            unit: crate::codec::bytes_of(unit),
            memo,
            proofs,
        })
    }

    /// Finishes a send that went through a swap: the mint exchanged the pending inputs for
    /// `send`, worth `target` (to go in the token), and `change` (kept), keeping `fee` for
    /// itself. The change is stored before the inputs are dropped. Refuses with
    /// `InvalidAmount`, changing nothing, where `send` is not worth `target`, the inputs are not
    /// worth send, change and fee together, or the wallet's sum would overflow.
    pub fn finish_send_swapped(
        &mut self,
        mint: &[u8],
        unit: &[u8],
        memo: Option<Vec<u8>>,
        target: u64,
        fee: u64,
        send: Vec<Proof>,
        change: Vec<Proof>,
    ) -> (r: Result<Token, WalletError>)
        requires
            old(self).wf(),
        ensures
            final(self).wf(),
            final(self).claimed_quotes == old(self).claimed_quotes,
            r is Err ==> r == Err::<Token, WalletError>(WalletError::InvalidAmount)
                && final(self).records@ == old(self).records@,
            r is Ok <==> (proof_sum(send@) == target && proof_sum(send@) + proof_sum(change@) + fee
                == value_of(old(self).records@, mint@, unit@, true) && stored_total(
                old(self).records@,
            ) + proof_sum(change@) <= u64::MAX),
            r matches Ok(t) ==> {
                &&& t.proofs@ == send@
                &&& proof_sum(t.proofs@) == target
                &&& t.mint_url@ == mint@
                &&& t.unit@ == unit@
                &&& t.memo == memo
                &&& value_of(final(self).records@, mint@, unit@, true) == 0
                &&& value_of(final(self).records@, mint@, unit@, false) == value_of(
                    old(self).records@,
                    mint@,
                    unit@,
                    false,
                ) + proof_sum(change@)
            },
    {
        let pending = self.pending_balance(mint, unit);
        let ok_send = sum_fits(&send);
        let ok_change = sum_fits(&change);
        match (ok_send, ok_change) {
            (Some(a), Some(b)) => {
                if a != target || a as u128 + b as u128 + fee as u128 != pending as u128 {
                    return Err(WalletError::InvalidAmount);
                }
            },
            _ => {
                proof {
                    lemma_value_le_total(self.records@, mint@, unit@, true);
                    lemma_proof_sum_nonneg(send@);
                    lemma_proof_sum_nonneg(change@);
                }
                return Err(WalletError::InvalidAmount);
            },
        }
        match self.commit_swap(mint, unit, change) {
            Err(e) => Err(e),
            Ok(_) => Ok(
                Token {
                    mint_url: crate::codec::bytes_of(mint),
                    unit: crate::codec::bytes_of(unit),
                    memo,
                    proofs: send,
                },
            ),
        }
    }

    fn settle_error(&self, kind: WalletError, mint: &[u8], unit: &[u8], quote_id: &[u8]) -> (r:
        SettleError)
        ensures
            r.kind == kind,
            r.mint_url@ == mint@,
            r.unit@ == unit@,
            r.quote_id@ == quote_id@,
            r.proof_count == pending_count(self.records@, mint@, unit@),
    {
        SettleError {
            kind,
            mint_url: crate::codec::bytes_of(mint),
            unit: crate::codec::bytes_of(unit),
            quote_id: crate::codec::bytes_of(quote_id),
            proof_count: self.pending_records(mint, unit),
        }
    }

    /// How many pending proofs of `mint` and `unit` the wallet holds.
    pub fn pending_records(&self, mint: &[u8], unit: &[u8]) -> (r: u64)
        ensures
            r == pending_count(self.records@, mint@, unit@),
    {
        let mut n: u64 = 0;
        let mut i: usize = 0;
        while i < self.records.len()
            invariant
                i <= self.records@.len(),
                n == pending_count(self.records@.take(i as int), mint@, unit@),
                n <= i,
            decreases self.records@.len() - i,
        {
            let r = &self.records[i];
            proof {
                assert(self.records@.take(i + 1).drop_last() =~= self.records@.take(i as int));
            }
            if r.pending && bytes_eq(r.mint_url.as_slice(), mint) && bytes_eq(r.unit.as_slice(), unit) {
                n = n + 1;
            }
            i = i + 1;
        }
        assert(self.records@.take(i as int) =~= self.records@);
        n
    }

    fn value_all(&self) -> (r: u64)
        requires
            self.wf(),
        ensures
            r == stored_total(self.records@),
    {
        let mut sum: u64 = 0;
        let mut i: usize = 0;
        while i < self.records.len()
            invariant
                self.wf(),
                i <= self.records@.len(),
                sum == stored_total(self.records@.take(i as int)),
            decreases self.records@.len() - i,
        {
            proof {
                assert(self.records@.take(i + 1).drop_last() =~= self.records@.take(i as int));
                lemma_prefix_total_le(self.records@, i + 1);
            }
            sum = sum + self.records[i].proof.amount;
            i = i + 1;
        }
        assert(self.records@.take(i as int) =~= self.records@);
        sum
    }
}

proof fn lemma_prefix_total_le(s: Seq<ProofRecord>, n: int)
    requires
        0 <= n <= s.len(),
    ensures
        stored_total(s.take(n)) <= stored_total(s),
    decreases s.len() - n,
{
    if n < s.len() {
        lemma_prefix_total_le(s, n + 1);
        assert(s.take(n + 1).drop_last() =~= s.take(n));
    } else {
        assert(s.take(n) =~= s);
    }
}

/// The sum of the proofs' amounts, or `None` where it does not fit in 64 bits.
pub fn sum_fits(ps: &Vec<Proof>) -> (r: Option<u64>)
    ensures
        r matches Some(v) ==> v == proof_sum(ps@),
        r is None ==> proof_sum(ps@) > u64::MAX,
{
    let mut sum: u64 = 0;
    let mut i: usize = 0;
    while i < ps.len()
        invariant
            i <= ps@.len(),
            sum == proof_sum(ps@.take(i as int)),
        decreases ps@.len() - i,
    {
        proof {
            assert(ps@.take(i + 1).drop_last() =~= ps@.take(i as int));
        }
        if ps[i].amount > u64::MAX - sum {
            proof {
                lemma_proof_sum_prefix(ps@, i + 1);
            }
            return None;
        }
        sum = sum + ps[i].amount;
        i = i + 1;
    }
    assert(ps@.take(i as int) =~= ps@);
    Some(sum)
}

proof fn lemma_spent_sum_nonneg(recs: Seq<ProofRecord>, spent: Seq<bool>, n: int)
    ensures
        spent_pending_sum(recs, spent, n) >= 0,
    decreases n,
{
    if n > 0 {
        lemma_spent_sum_nonneg(recs, spent, n - 1);
    }
}

/// One record's amount is at most the stored total.
proof fn lemma_record_le_total(s: Seq<ProofRecord>, i: int)
    requires
        0 <= i < s.len(),
    ensures
        s[i].proof.amount <= stored_total(s),
{
    lemma_sum_by_remove(s, i, |r: ProofRecord| r.proof.amount as int);
    lemma_nonneg_total(s.remove(i));
}

proof fn lemma_nonneg_total(s: Seq<ProofRecord>)
    ensures
        stored_total(s) >= 0,
    decreases s.len(),
{
    if s.len() > 0 {
        lemma_nonneg_total(s.drop_last());
    }
}

proof fn lemma_proof_sum_nonneg(s: Seq<Proof>)
    ensures
        proof_sum(s) >= 0,
    decreases s.len(),
{
    if s.len() > 0 {
        lemma_proof_sum_nonneg(s.drop_last());
    }
}

proof fn lemma_proof_sum_prefix(s: Seq<Proof>, n: int)
    requires
        0 <= n <= s.len(),
    ensures
        proof_sum(s.take(n)) <= proof_sum(s),
    decreases s.len() - n,
{
    if n < s.len() {
        lemma_proof_sum_prefix(s, n + 1);
        assert(s.take(n + 1).drop_last() =~= s.take(n));
    } else {
        assert(s.take(n) =~= s);
    }
}

} // verus!
