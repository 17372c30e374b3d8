use vstd::prelude::*;

verus! {

/// The mint signed the output at derivation index `i`.
pub open spec fn signed_at(signed: Seq<bool>, i: int) -> bool {
    0 <= i < signed.len() && signed[i]
}

/// No output in the window `[start, start + batch)` was signed.
pub open spec fn window_empty(signed: Seq<bool>, start: int, batch: int) -> bool {
    forall|i: int| start <= i < start + batch ==> !#[trigger] signed_at(signed, i)
}

/// The signed, still unspent indices below `n`, in increasing order.
pub open spec fn unspent_signed(signed: Seq<bool>, spent: Seq<bool>, n: int) -> Seq<u64>
    decreases n,
{
    if n <= 0 {
        Seq::empty()
    } else {
        let prev = unspent_signed(signed, spent, n - 1);
        if signed_at(signed, n - 1) && !spent[n - 1] {
            prev.push((n - 1) as u64)
        } else {
            prev
        }
    }
}

/// One past the highest signed index below `n`, or zero where there is none.
pub open spec fn next_free(signed: Seq<bool>, n: int) -> int
    decreases n,
{
    if n <= 0 {
        0
    } else if signed_at(signed, n - 1) {
        n
    } else {
        next_free(signed, n - 1)
    }
}

/// Every run of unsigned indices that precedes a signed one is shorter than `batch`.
pub open spec fn gaps_shorter_than(signed: Seq<bool>, batch: int) -> bool {
    forall|b: int|
        0 <= b && (exists|j: int| j >= b && #[trigger] signed_at(signed, j)) ==> !window_empty(
            signed,
            b,
            batch,
        )
}

/// What a restore recovered.
#[derive(Clone, Debug, PartialEq, Eq)]
pub struct RestoreResult {
    /// The derivation indices whose outputs were signed and are unspent, in increasing order.
    pub recovered: Vec<u64>,
    /// The counter to resume derivation from: one past the highest signed index found.
    pub next_counter: u64,
}

proof fn lemma_unspent_beyond(signed: Seq<bool>, spent: Seq<bool>, n: int)
    requires
        n >= signed.len(),
    ensures
        unspent_signed(signed, spent, n) == unspent_signed(signed, spent, signed.len() as int),
        next_free(signed, n) == next_free(signed, signed.len() as int),
    decreases n,
{
    if n > signed.len() {
        lemma_unspent_beyond(signed, spent, n - 1);
    }
}

/// Scans derivation indices from zero in batches of `batch`, as the mint answers for them
/// (`signed[i]`: the output at index `i` was signed; `spent[i]`: its proof is spent), and stops
/// at the first batch with nothing signed. This is a heuristic: a longer gap hides what
/// follows it. Keeps the signed, unspent indices.
pub fn restore_scan(signed: &Vec<bool>, spent: &Vec<bool>, batch: u64) -> (r: RestoreResult)
    requires
        batch > 0,
        spent@.len() == signed@.len(),
    ensures
        exists|stop: int|
            stop >= 0 && #[trigger] window_empty(signed@, stop, batch as int) && r.recovered@
                == unspent_signed(signed@, spent@, stop) && r.next_counter == next_free(
                signed@,
                stop,
            ),
{
    let len: usize = signed.len();
    let mut out: Vec<u64> = Vec::new();
    let mut next: u64 = 0;
    let mut start: usize = 0;
    loop
        invariant_except_break
            out@ == unspent_signed(signed@, spent@, start as int),
            next == next_free(signed@, start as int),
        invariant
            batch > 0,
            len == signed@.len(),
            spent@.len() == signed@.len(),
            start <= len,
        ensures
            exists|stop: int|
                stop >= 0 && #[trigger] window_empty(signed@, stop, batch as int) && out@
                    == unspent_signed(signed@, spent@, stop) && next == next_free(signed@, stop),
        decreases len - start,
    {
        let end: usize = if batch >= (len - start) as u64 {
            len
        } else {
            start + batch as usize
        };
        let mut any = false;
        let mut i: usize = start;
        while i < end
            invariant
                start <= i <= end,
                end <= len,
                len == signed@.len(),
                spent@.len() == signed@.len(),
                out@ == unspent_signed(signed@, spent@, i as int),
                next == next_free(signed@, i as int),
                any <==> exists|k: int| start <= k < i && #[trigger] signed_at(signed@, k),
            decreases end - i,
        {
            proof {
                let n = i + 1;
                assert(unspent_signed(signed@, spent@, n as int) == if signed_at(signed@, i as int)
                    && !spent@[i as int] {
                    unspent_signed(signed@, spent@, i as int).push(i as u64)
                } else {
                    unspent_signed(signed@, spent@, i as int)
                });
                assert(next_free(signed@, n as int) == if signed_at(signed@, i as int) {
                    n as int
                } else {
                    next_free(signed@, i as int)
                });
            }
            if signed[i] {
                any = true;
                next = i as u64 + 1;
                if !spent[i] {
                    out.push(i as u64);
                }
            }
            proof {
                assert(signed_at(signed@, i as int) == signed@[i as int]);
                assert(((i + 1) - 1) as u64 == i as u64);
            }
            i = i + 1;
        }
        if !any {
            proof {
                assert forall|k: int| start <= k < start + batch implies !#[trigger] signed_at(
                    signed@,
                    k,
                ) by {
                    if k < end {
                        assert(!(start <= k < i && signed_at(signed@, k)));
                    }
                }
                assert(window_empty(signed@, start as int, batch as int));
                lemma_no_signed_between(signed@, spent@, start as int, end as int);
                assert(window_empty(signed@, start as int, batch as int) && out@ == unspent_signed(
                    signed@,
                    spent@,
                    start as int,
                ) && next == next_free(signed@, start as int));
            }
            break;
        }
        if end == len {
            proof {
                assert(window_empty(signed@, len as int, batch as int) && out@ == unspent_signed(
                    signed@,
                    spent@,
                    len as int,
                ) && next == next_free(signed@, len as int));
            }
            break;
        }
        start = end;
    }
    RestoreResult { recovered: out, next_counter: next }
}

/// Where no gap before the last signed index reaches the batch size, the restore recovers
/// exactly the signed, unspent outputs, and resumes derivation after every signed one.
pub proof fn lemma_restore_complete(
    signed: Seq<bool>,
    spent: Seq<bool>,
    batch: int,
    stop: int,
    recovered: Seq<u64>,
    next_counter: int,
)
    requires
        batch > 0,
        gaps_shorter_than(signed, batch),
        stop >= 0,
        window_empty(signed, stop, batch),
        recovered == unspent_signed(signed, spent, stop),
        next_counter == next_free(signed, stop),
    ensures
        recovered == unspent_signed(signed, spent, signed.len() as int),
        next_counter == next_free(signed, signed.len() as int),
{
    assert forall|j: int| j >= stop implies !#[trigger] signed_at(signed, j) by {
        if signed_at(signed, j) {
            assert(!window_empty(signed, stop, batch));
        }
    }
    if stop >= signed.len() {
        lemma_unspent_beyond(signed, spent, stop);
    } else {
        lemma_no_signed_between(signed, spent, stop, signed.len() as int);
    }
}

proof fn lemma_no_signed_between(signed: Seq<bool>, spent: Seq<bool>, a: int, b: int)
    requires
        0 <= a <= b,
        forall|j: int| a <= j < b ==> !#[trigger] signed_at(signed, j),
    ensures
        unspent_signed(signed, spent, b) == unspent_signed(signed, spent, a),
        next_free(signed, b) == next_free(signed, a),
    decreases b - a,
{
    if b > a {
        assert(!signed_at(signed, b - 1));
        lemma_no_signed_between(signed, spent, a, b - 1);
    }
}

} // verus!
