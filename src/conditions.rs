use vstd::prelude::*;

use crate::error::WalletError;

verus! {

/// Whether `sig` (hex text) is a valid Schnorr signature by `key` (hex text) over `msg`.
pub uninterp spec fn schnorr_valid(key: Seq<u8>, msg: Seq<u8>, sig: Seq<u8>) -> bool;

/// The SHA-256 digest of `data`.
pub uninterp spec fn sha256_of(data: Seq<u8>) -> Seq<u8>;

/// Whether `key` is the hex text of a compressed secp256k1 public key.
pub uninterp spec fn pubkey_valid(key: Seq<u8>) -> bool;

/// Relies on cdk's `PublicKey::verify`: checks a Schnorr signature over the SHA-256 of `msg`.
/// Text that does not parse as a key or a signature is no valid signature.
#[verifier::external_body]
fn verify_signature(key: &[u8], msg: &[u8], sig: &[u8]) -> (r: bool)
    ensures
        r == schnorr_valid(key@, msg@, sig@),
{
    let key = match std::str::from_utf8(key) {
        Ok(k) => cdk::nuts::PublicKey::from_hex(k).ok(),
        Err(_) => None,
    };
    let sig = match std::str::from_utf8(sig) {
        Ok(s) => s.parse::<cdk::secp256k1::schnorr::Signature>().ok(),
        Err(_) => None,
    };
    match (key, sig) {
        (Some(k), Some(s)) => k.verify(msg, &s).is_ok(),
        _ => false,
    }
}

/// Relies on bitcoin_hashes' `sha256::Hash::hash`, reached through cdk: a 32-byte digest.
#[verifier::external_body]
#[allow(deprecated)]
fn sha256(data: &[u8]) -> (r: Vec<u8>)
    ensures
        r@ == sha256_of(data@),
        r@.len() == 32,
{
    let digest = <cdk::secp256k1::hashes::sha256::Hash as cdk::secp256k1::hashes::Hash>::hash(
        data,
    );
    <cdk::secp256k1::hashes::sha256::Hash as cdk::secp256k1::hashes::Hash>::to_byte_array(
        digest,
    ).to_vec()
}

/// Relies on cdk's `PublicKey::from_hex`: whether the text parses as a public key.
#[verifier::external_body]
fn parse_pubkey_ok(key: &[u8]) -> (r: bool)
    ensures
        r == pubkey_valid(key@),
        r ==> key@.len() == 66,
{
    match std::str::from_utf8(key) {
        Ok(k) => cdk::nuts::PublicKey::from_hex(k).is_ok(),
        Err(_) => false,
    }
}

/// The tags shared by both lock kinds.
#[derive(Clone, Debug, PartialEq, Eq)]
pub struct Conditions {
    /// After this time the refund keys may spend.
    pub locktime: Option<u64>,
    /// Keys that may sign besides the primary one.
    pub pubkeys: Vec<Vec<u8>>,
    /// Keys that may sign once the locktime has passed.
    pub refund_keys: Vec<Vec<u8>>,
    /// How many distinct declared keys must sign.
    pub required_sigs: u64,
}

/// A lock embedded in a proof's secret.
#[derive(Clone, Debug, PartialEq, Eq)]
pub enum SpendingCondition {
    /// Pay to public key: `data` is the primary key.
    P2pk { data: Vec<u8>, conditions: Conditions },
    /// Hash-time lock: `hash` is the SHA-256 of the preimage.
    Htlc { hash: Vec<u8>, conditions: Conditions },
}

/// What a redeemer supplies to open a lock.
#[derive(Clone, Debug, PartialEq, Eq)]
pub struct Witness {
    pub signatures: Vec<Vec<u8>>,
    pub preimage: Option<Vec<u8>>,
}

pub open spec fn keys_view(v: Seq<Vec<u8>>) -> Seq<Seq<u8>> {
    v.map_values(|k: Vec<u8>| k@)
}

/// How many distinct keys are flagged: a repeated key counts once.
pub open spec fn count_flags(keys: Seq<Seq<u8>>, flags: Seq<bool>) -> nat
    decreases keys.len(),
{
    if keys.len() == 0 {
        0
    } else {
        let n = (keys.len() - 1) as int;
        count_flags(keys.take(n), flags) + if flags[n] && !keys.take(n).contains(keys[n]) {
            1nat
        } else {
            0nat
        }
    }
}

/// Some supplied signature is valid for `key` over `msg`.
pub open spec fn key_signed(key: Seq<u8>, msg: Seq<u8>, sigs: Seq<Seq<u8>>) -> bool {
    exists|j: int| 0 <= j < sigs.len() && schnorr_valid(key, msg, #[trigger] sigs[j])
}

pub open spec fn signed_flags(keys: Seq<Seq<u8>>, msg: Seq<u8>, sigs: Seq<Seq<u8>>) -> Seq<bool> {
    Seq::new(keys.len(), |i: int| key_signed(keys[i], msg, sigs))
}

/// How many distinct keys produced a valid signature.
pub open spec fn count_signed(keys: Seq<Seq<u8>>, msg: Seq<u8>, sigs: Seq<Seq<u8>>) -> nat {
    count_flags(keys, signed_flags(keys, msg, sigs))
}

/// The keys whose signatures count toward `required_sigs`.
pub open spec fn declared_keys(c: SpendingCondition) -> Seq<Seq<u8>> {
    match c {
        SpendingCondition::P2pk { data, conditions } => seq![data@] + keys_view(
            conditions.pubkeys@,
        ),
        SpendingCondition::Htlc { conditions, .. } => keys_view(conditions.pubkeys@),
    }
}

pub open spec fn tags(c: SpendingCondition) -> Conditions {
    match c {
        SpendingCondition::P2pk { conditions, .. } => conditions,
        SpendingCondition::Htlc { conditions, .. } => conditions,
    }
}

/// A condition is structurally sound: its signature count can be met by its keys.
pub open spec fn condition_well_formed(c: SpendingCondition) -> bool {
    let t = tags(c);
    match c {
        SpendingCondition::P2pk { .. } => 1 <= t.required_sigs <= declared_keys(c).len(),
        SpendingCondition::Htlc { .. } => t.pubkeys@.len() == 0 || 1 <= t.required_sigs
            <= declared_keys(c).len(),
    }
}

/// The locktime has passed and a refund key signed.
pub open spec fn refund_path(c: SpendingCondition, msg: Seq<u8>, w: Witness, now: u64) -> bool {
    let t = tags(c);
    &&& t.locktime matches Some(lt)
    &&& now >= lt
    &&& count_signed(keys_view(t.refund_keys@), msg, keys_view(w.signatures@)) >= 1
}

/// Enough of the declared keys signed.
pub open spec fn signature_path(c: SpendingCondition, msg: Seq<u8>, w: Witness) -> bool {
    count_signed(declared_keys(c), msg, keys_view(w.signatures@)) >= tags(c).required_sigs
}

/// What opening the lock takes, `now` being the time of verification.
pub open spec fn condition_satisfied(
    c: SpendingCondition,
    msg: Seq<u8>,
    w: Witness,
    now: u64,
) -> bool {
    match c {
        SpendingCondition::P2pk { .. } => signature_path(c, msg, w) || refund_path(c, msg, w, now),
        SpendingCondition::Htlc { hash, conditions } => {
            (w.preimage matches Some(p) && sha256_of(p@) == hash@ && (conditions.pubkeys@.len()
                == 0 || signature_path(c, msg, w))) || refund_path(c, msg, w, now)
        },
    }
}

/// Whether a key signed does not depend on the order in which the signatures come.
pub proof fn lemma_signature_order(
    key: Seq<u8>,
    msg: Seq<u8>,
    sigs: Seq<Seq<u8>>,
    reordered: Seq<Seq<u8>>,
)
    requires
        reordered.to_multiset() == sigs.to_multiset(),
    ensures
        key_signed(key, msg, sigs) == key_signed(key, msg, reordered),
{
    broadcast use vstd::seq_lib::to_multiset_contains;

    if key_signed(key, msg, sigs) {
        let j = choose|j: int| 0 <= j < sigs.len() && schnorr_valid(key, msg, #[trigger] sigs[j]);
        assert(sigs.contains(sigs[j]));
        assert(sigs.to_multiset().count(sigs[j]) > 0);
        assert(reordered.contains(sigs[j]));
    }
    if key_signed(key, msg, reordered) {
        let j = choose|j: int|
            0 <= j < reordered.len() && schnorr_valid(key, msg, #[trigger] reordered[j]);
        assert(reordered.contains(reordered[j]));
        assert(reordered.to_multiset().count(reordered[j]) > 0);
        assert(sigs.contains(reordered[j]));
    }
}

pub open spec fn signed_as_int(key: Seq<u8>, msg: Seq<u8>, sigs: Seq<Seq<u8>>) -> int {
    if key_signed(key, msg, sigs) {
        1
    } else {
        0
    }
}

/// Over three distinct keys, the signed-key count is the number of keys that signed, and it
/// does not change when the signatures are reordered: with two required, one valid signature
/// is refused and any two are accepted.
pub proof fn lemma_multisig_count(
    keys: Seq<Seq<u8>>,
    msg: Seq<u8>,
    sigs: Seq<Seq<u8>>,
    reordered: Seq<Seq<u8>>,
)
    requires
        keys.len() == 3,
        keys[0] != keys[1],
        keys[0] != keys[2],
        keys[1] != keys[2],
        reordered.to_multiset() == sigs.to_multiset(),
    ensures
        count_signed(keys, msg, sigs) == signed_as_int(keys[0], msg, sigs) + signed_as_int(
            keys[1],
            msg,
            sigs,
        ) + signed_as_int(keys[2], msg, sigs),
        count_signed(keys, msg, sigs) == count_signed(keys, msg, reordered),
{
    lemma_signature_order(keys[0], msg, sigs, reordered);
    lemma_signature_order(keys[1], msg, sigs, reordered);
    lemma_signature_order(keys[2], msg, sigs, reordered);
    let f = signed_flags(keys, msg, sigs);
    let g = signed_flags(keys, msg, reordered);
    assert(f =~= g);
    let k2 = keys.take(2);
    let k1 = keys.take(1);
    assert(k2.take(1) =~= k1);
    assert(k1.take(0) =~= Seq::<Seq<u8>>::empty());
    assert(!k1.contains(keys[1])) by {
        assert(k1.len() == 1 && k1[0] == keys[0]);
    }
    assert(!k2.contains(keys[2])) by {
        if k2.contains(keys[2]) {
            let m = choose|m: int| 0 <= m < k2.len() && k2[m] == keys[2];
            assert(m == 0 || m == 1);
        }
    }
    assert(!Seq::<Seq<u8>>::empty().contains(keys[0]));
    assert(count_flags(k1.take(0), f) == 0);
    assert(k1[0] == keys[0] && k2[1] == keys[1]);
    assert(f[0] == key_signed(keys[0], msg, sigs));
    assert(f[1] == key_signed(keys[1], msg, sigs));
    assert(f[2] == key_signed(keys[2], msg, sigs));
    assert(count_flags(k1, f) == signed_as_int(keys[0], msg, sigs));
    assert(count_flags(k2, f) == signed_as_int(keys[0], msg, sigs) + signed_as_int(
        keys[1],
        msg,
        sigs,
    ));
}

/// Whether two byte strings are equal.
pub fn bytes_eq(a: &[u8], b: &[u8]) -> (r: bool)
    ensures
        r == (a@ == b@),
{
    if a.len() != b.len() {
        return false;
    }
    let mut i: usize = 0;
    while i < a.len()
        invariant
            a@.len() == b@.len(),
            i <= a@.len(),
            forall|k: int| 0 <= k < i ==> a@[k] == b@[k],
        decreases a@.len() - i,
    {
        if a[i] != b[i] {
            return false;
        }
        i = i + 1;
    }
    assert(a@ =~= b@);
    true
}

/// A fresh copy of `b`.
pub fn copy_bytes(b: &Vec<u8>) -> (r: Vec<u8>)
    ensures
        r@ == b@,
{
    let mut out: Vec<u8> = Vec::new();
    crate::codec::push_bytes(&mut out, b.as_slice());
    assert(out@ =~= b@);
    out
}

/// Whether `keys[i]` already occurs among `keys[..i]`.
fn seen_before(keys: &Vec<Vec<u8>>, i: usize) -> (r: bool)
    requires
        i < keys@.len(),
    ensures
        r == keys_view(keys@).take(i as int).contains(keys_view(keys@)[i as int]),
{
    let ghost kv = keys_view(keys@);
    let mut k: usize = 0;
    while k < i
        invariant
            i < keys@.len(),
            kv == keys_view(keys@),
            k <= i,
            forall|m: int| 0 <= m < k ==> kv[m] != kv[i as int],
        decreases i - k,
    {
        if bytes_eq(keys[k].as_slice(), keys[i].as_slice()) {
            assert(kv.take(i as int)[k as int] == kv[i as int]);
            return true;
        }
        k = k + 1;
    }
    assert forall|m: int| 0 <= m < i implies kv.take(i as int)[m] != kv[i as int] by {}
    false
}

/// Whether the distinct flagged keys reach `required`.
pub fn threshold_met(keys: &Vec<Vec<u8>>, signed: &Vec<bool>, required: u64) -> (r: bool)
    requires
        signed@.len() == keys@.len(),
    ensures
        r == (count_flags(keys_view(keys@), signed@) >= required),
{
    let ghost kv = keys_view(keys@);
    let mut count: u64 = 0;
    let mut i: usize = 0;
    while i < keys.len()
        invariant
            signed@.len() == keys@.len(),
            kv == keys_view(keys@),
            i <= keys@.len(),
            count == count_flags(kv.take(i as int), signed@),
            count <= i,
        decreases keys@.len() - i,
    {
        let dup = seen_before(keys, i);
        proof {
            let t = kv.take(i + 1);
            assert(t.take(i as int) =~= kv.take(i as int));
            assert(t[i as int] == kv[i as int]);
        }
        if signed[i] && !dup {
            count = count + 1;
        }
        i = i + 1;
    }
    assert(kv.take(i as int) =~= kv);
    count >= required
}

/// Which of `keys` signed `msg` with one of `sigs`.
fn signed_by(keys: &Vec<Vec<u8>>, msg: &[u8], sigs: &Vec<Vec<u8>>) -> (r: Vec<bool>)
    ensures
        r@ == signed_flags(keys_view(keys@), msg@, keys_view(sigs@)),
{
    let ghost kv = keys_view(keys@);
    let ghost sv = keys_view(sigs@);
    let mut out: Vec<bool> = Vec::new();
    let mut i: usize = 0;
    while i < keys.len()
        invariant
            kv == keys_view(keys@),
            sv == keys_view(sigs@),
            i <= keys@.len(),
            out@ =~= signed_flags(kv, msg@, sv).take(i as int),
        decreases keys@.len() - i,
    {
        let mut found = false;
        let mut j: usize = 0;
        while j < sigs.len()
            invariant
                kv == keys_view(keys@),
                sv == keys_view(sigs@),
                i < keys@.len(),
                j <= sigs@.len(),
                found <==> exists|m: int| 0 <= m < j && schnorr_valid(kv[i as int], msg@, #[trigger] sv[m]),
            decreases sigs@.len() - j,
        {
            assert(sv[j as int] == sigs@[j as int]@);
            assert(kv[i as int] == keys@[i as int]@);
            if verify_signature(keys[i].as_slice(), msg, sigs[j].as_slice()) {
                found = true;
            }
            j = j + 1;
        }
        assert(found == signed_flags(kv, msg@, sv)[i as int]);
        out.push(found);
        i = i + 1;
    }
    out
}

/// How many distinct `keys` signed `msg` reach `required`.
pub fn signatures_suffice(
    keys: &Vec<Vec<u8>>,
    msg: &[u8],
    sigs: &Vec<Vec<u8>>,
    required: u64,
) -> (r: bool)
    ensures
        r == (count_signed(keys_view(keys@), msg@, keys_view(sigs@)) >= required),
{
    let flags = signed_by(keys, msg, sigs);
    threshold_met(keys, &flags, required)
}

/// Checks that a condition is sound and that `w` opens it for a proof with secret `msg` at `now`.
pub fn verify_condition(c: &SpendingCondition, msg: &[u8], w: &Witness, now: u64) -> (r: Result<
    (),
    WalletError,
>)
    ensures
        !condition_well_formed(*c) ==> r == Err::<(), WalletError>(WalletError::MalformedCondition),
        condition_well_formed(*c) ==> (r is Ok <==> condition_satisfied(*c, msg@, *w, now)),
        condition_well_formed(*c) && !condition_satisfied(*c, msg@, *w, now) ==> r == Err::<
            (),
            WalletError,
        >(WalletError::ConditionUnsatisfied),
{
    let t = match c {
        SpendingCondition::P2pk { conditions, .. } => conditions,
        SpendingCondition::Htlc { conditions, .. } => conditions,
    };
    let mut keys: Vec<Vec<u8>> = Vec::new();
    match c {
        SpendingCondition::P2pk { data, .. } => keys.push(copy_bytes(data)),
        SpendingCondition::Htlc { .. } => {},
    }
    let ghost head = keys_view(keys@);
    let ghost pv = keys_view(t.pubkeys@);
    let mut i: usize = 0;
    while i < t.pubkeys.len()
        invariant
            i <= t.pubkeys@.len(),
            pv == keys_view(t.pubkeys@),
            keys_view(keys@) == head + pv.take(i as int),
        decreases t.pubkeys@.len() - i,
    {
        let ghost before = keys@;
        keys.push(copy_bytes(&t.pubkeys[i]));
        proof {
            assert(keys_view(keys@) =~= keys_view(before).push(pv[i as int]));
        }
        i = i + 1;
        assert(keys_view(keys@) =~= head + pv.take(i as int));
    }
    proof {
        assert(pv.take(i as int) =~= pv);
        match c {
            SpendingCondition::P2pk { data, .. } => {
                assert(head =~= seq![data@]);
            },
            SpendingCondition::Htlc { .. } => {
                assert(head =~= Seq::<Seq<u8>>::empty());
                assert(head + pv =~= pv);
            },
        }
        assert(keys_view(keys@) =~= declared_keys(*c));
    }
    let is_htlc = match c {
        SpendingCondition::P2pk { .. } => false,
        SpendingCondition::Htlc { .. } => true,
    };
    let needs_sigs = !is_htlc || t.pubkeys.len() > 0;
    if needs_sigs && (t.required_sigs == 0 || t.required_sigs > keys.len() as u64) {
        return Err(WalletError::MalformedCondition);
    }
    let refund_ok = match t.locktime {
        Some(lt) => now >= lt && signatures_suffice(&t.refund_keys, msg, &w.signatures, 1),
        None => false,
    };
    let main_ok = match c {
        SpendingCondition::P2pk { .. } => signatures_suffice(
            &keys,
            msg,
            &w.signatures,
            t.required_sigs,
        ),
        SpendingCondition::Htlc { hash, .. } => {
            let preimage_ok = match &w.preimage {
                Some(p) => {
                    let d = sha256(p.as_slice());
                    bytes_eq(d.as_slice(), hash.as_slice())
                },
                None => false,
            };
            preimage_ok && (t.pubkeys.len() == 0 || signatures_suffice(
                &keys,
                msg,
                &w.signatures,
                t.required_sigs,
            ))
        },
    };
    if main_ok || refund_ok {
        Ok(())
    } else {
        Err(WalletError::ConditionUnsatisfied)
    }
}

/// Every key parses.
pub open spec fn keys_valid(keys: Seq<Seq<u8>>) -> bool {
    forall|i: int| 0 <= i < keys.len() ==> pubkey_valid(#[trigger] keys[i])
}

/// What the lock options of a new token must satisfy, the time of writing being `now`.
pub open spec fn lock_options_valid(
    preimage: Option<Seq<u8>>,
    pubkeys: Seq<Seq<u8>>,
    refund_keys: Seq<Seq<u8>>,
    locktime: Option<u64>,
    required_sigs: Option<u64>,
    now: u64,
) -> bool {
    &&& preimage matches Some(p) ==> p.len() == 32
    &&& keys_valid(pubkeys)
    &&& keys_valid(refund_keys)
    &&& pubkeys.no_duplicates()
    &&& refund_keys.no_duplicates()
    &&& locktime matches Some(lt) ==> lt >= now
    &&& refund_keys.len() > 0 ==> locktime is Some
    &&& required_sigs matches Some(n) ==> 1 <= n <= pubkeys.len()
}

/// `c` holds the given options, the number of signatures defaulting to one.
pub open spec fn conditions_of(
    pubkeys: Seq<Vec<u8>>,
    refund_keys: Seq<Vec<u8>>,
    locktime: Option<u64>,
    required_sigs: Option<u64>,
    c: Conditions,
) -> bool {
    &&& keys_view(c.pubkeys@) == keys_view(pubkeys)
    &&& keys_view(c.refund_keys@) == keys_view(refund_keys)
    &&& c.locktime == locktime
    &&& c.required_sigs == match required_sigs {
        Some(n) => n,
        None => 1,
    }
}

/// Whether any key occurs twice.
fn has_duplicates(keys: &Vec<Vec<u8>>) -> (r: bool)
    ensures
        r == !keys_view(keys@).no_duplicates(),
{
    let ghost kv = keys_view(keys@);
    let mut i: usize = 0;
    while i < keys.len()
        invariant
            kv == keys_view(keys@),
            i <= keys@.len(),
            forall|a: int, b: int| 0 <= a < b < i ==> kv[a] != kv[b],
        decreases keys@.len() - i,
    {
        if seen_before(keys, i) {
            proof {
                let m = choose|m: int| 0 <= m < i && kv.take(i as int)[m] == kv[i as int];
                assert(kv[m] == kv[i as int]);
            }
            return true;
        }
        proof {
            assert forall|a: int, b: int| 0 <= a < b < i + 1 implies kv[a] != kv[b] by {
                if b == i {
                    assert(kv.take(i as int)[a] == kv[a]);
                }
            }
        }
        i = i + 1;
    }
    false
}

/// Whether every key parses.
fn all_keys_valid(keys: &Vec<Vec<u8>>) -> (r: bool)
    ensures
        r == keys_valid(keys_view(keys@)),
{
    let mut i: usize = 0;
    while i < keys.len()
        invariant
            i <= keys@.len(),
            forall|k: int| 0 <= k < i ==> pubkey_valid(#[trigger] keys_view(keys@)[k]),
        decreases keys@.len() - i,
    {
        assert(keys_view(keys@)[i as int] == keys@[i as int]@);
        if !parse_pubkey_ok(keys[i].as_slice()) {
            return false;
        }
        i = i + 1;
    }
    true
}

fn copy_keys(keys: &Vec<Vec<u8>>, from: usize) -> (r: Vec<Vec<u8>>)
    requires
        from <= keys@.len(),
    ensures
        keys_view(r@) == keys_view(keys@).subrange(from as int, keys@.len() as int),
{
    let ghost kv = keys_view(keys@);
    let mut out: Vec<Vec<u8>> = Vec::new();
    let mut i: usize = from;
    while i < keys.len()
        invariant
            kv == keys_view(keys@),
            from <= i <= keys@.len(),
            keys_view(out@) == kv.subrange(from as int, i as int),
        decreases keys@.len() - i,
    {
        let ghost before = out@;
        out.push(copy_bytes(&keys[i]));
        proof {
            assert(keys_view(out@) =~= keys_view(before).push(kv[i as int]));
        }
        i = i + 1;
        assert(keys_view(out@) =~= kv.subrange(from as int, i as int));
    }
    out
}

/// Builds the lock for a new token: a hash lock when a preimage is given, else a lock to the
/// first key with the rest as extra signers, else none.
pub fn build_condition(
    preimage: &Option<Vec<u8>>,
    pubkeys: &Vec<Vec<u8>>,
    refund_keys: &Vec<Vec<u8>>,
    locktime: Option<u64>,
    required_sigs: Option<u64>,
    now: u64,
) -> (r: Result<Option<SpendingCondition>, WalletError>)
    ensures
        preimage is None && pubkeys@.len() == 0 ==> r == Ok::<
            Option<SpendingCondition>,
            WalletError,
        >(None),
        !(preimage is None && pubkeys@.len() == 0) ==> (r is Ok <==> lock_options_valid(
            crate::codec::opt_view(preimage),
            keys_view(pubkeys@),
            keys_view(refund_keys@),
            locktime,
            required_sigs,
            now,
        )),
        r matches Err(e) ==> e == WalletError::MalformedCondition,
        preimage is Some && r is Ok ==> r matches Ok(Some(SpendingCondition::Htlc { .. })),
        preimage is None && pubkeys@.len() > 0 && r is Ok ==> r matches Ok(
            Some(SpendingCondition::P2pk { .. }),
        ),
        r matches Ok(Some(SpendingCondition::Htlc { hash, conditions })) ==> preimage matches Some(
            p,
        ) && hash@ == sha256_of(p@) && conditions_of(
            pubkeys@,
            refund_keys@,
            locktime,
            required_sigs,
            conditions,
        ),
        r matches Ok(Some(SpendingCondition::P2pk { data, conditions })) ==> preimage is None
            && pubkeys@.len() > 0 && data@ == pubkeys@[0]@ && conditions_of(
            pubkeys@.subrange(1, pubkeys@.len() as int),
            refund_keys@,
            locktime,
            required_sigs,
            conditions,
        ),
{
    if preimage.is_none() && pubkeys.len() == 0 {
        return Ok(None);
    }
    let ok_preimage = match preimage {
        Some(p) => p.len() == 32,
        None => true,
    };
    let ok_locktime = match locktime {
        Some(lt) => lt >= now,
        None => true,
    };
    let available: u64 = pubkeys.len() as u64;
    let ok_required = match required_sigs {
        Some(n) => 1 <= n && n <= available,
        None => true,
    };
    if !ok_preimage || !ok_locktime || !ok_required || (refund_keys.len() > 0 && locktime.is_none())
        || !all_keys_valid(pubkeys) || !all_keys_valid(refund_keys) || has_duplicates(pubkeys)
        || has_duplicates(refund_keys) {
        return Err(WalletError::MalformedCondition);
    }
    let required: u64 = match required_sigs {
        Some(n) => n,
        None => 1,
    };
    let refund = copy_keys(refund_keys, 0);
    proof {
        assert(keys_view(refund_keys@).subrange(0, refund_keys@.len() as int) =~= keys_view(
            refund_keys@,
        ));
    }
    match preimage {
        Some(p) => {
            let hash = sha256(p.as_slice());
            let keys = copy_keys(pubkeys, 0);
            proof {
                assert(keys_view(pubkeys@).subrange(0, pubkeys@.len() as int) =~= keys_view(
                    pubkeys@,
                ));
            }
            Ok(
                Some(
                    SpendingCondition::Htlc {
                        hash,
                        conditions: Conditions {
                            locktime,
                            pubkeys: keys,
                            refund_keys: refund,
                            required_sigs: required,
                        },
                    },
                ),
            )
        },
        None => {
            let data = copy_bytes(&pubkeys[0]);
            let rest = copy_keys(pubkeys, 1);
            proof {
                assert(keys_view(pubkeys@).subrange(1, pubkeys@.len() as int) =~= keys_view(
                    pubkeys@.subrange(1, pubkeys@.len() as int),
                ));
            }
            Ok(
                Some(
                    SpendingCondition::P2pk {
                        data,
                        conditions: Conditions {
                            locktime,
                            pubkeys: rest,
                            refund_keys: refund,
                            required_sigs: required,
                        },
                    },
                ),
            )
        },
    }
}

} // verus!
