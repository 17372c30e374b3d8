use vstd::prelude::*;

use crate::codec::{
    be64, bytes_of, field, fits, lemma_parse_field, lemma_parse_u64, lemma_peel, parse_field,
    parse_u64, push_bytes, push_field, push_u64, read_field, read_u64,
};
use crate::conditions::{
    condition_satisfied, condition_well_formed, keys_view, verify_condition, Conditions,
    SpendingCondition, Witness,
};
use crate::error::WalletError;
use crate::token::Token;

verus! {

/// A lock as it is written into a secret: its kind, a random nonce, and its tags.
pub struct LockView {
    pub htlc: bool,
    pub nonce: Seq<u8>,
    pub data: Seq<u8>,
    pub locktime: Option<u64>,
    pub required_sigs: u64,
    pub pubkeys: Seq<Seq<u8>>,
    pub refund_keys: Seq<Seq<u8>>,
}

pub open spec fn lock_view(c: SpendingCondition, nonce: Seq<u8>) -> LockView {
    match c {
        SpendingCondition::P2pk { data, conditions } => LockView {
            htlc: false,
            nonce,
            data: data@,
            locktime: conditions.locktime,
            required_sigs: conditions.required_sigs,
            pubkeys: keys_view(conditions.pubkeys@),
            refund_keys: keys_view(conditions.refund_keys@),
        },
        SpendingCondition::Htlc { hash, conditions } => LockView {
            htlc: true,
            nonce,
            data: hash@,
            locktime: conditions.locktime,
            required_sigs: conditions.required_sigs,
            pubkeys: keys_view(conditions.pubkeys@),
            refund_keys: keys_view(conditions.refund_keys@),
        },
    }
}

/// The tag that marks a secret as carrying a lock.
pub open spec fn lock_prefix() -> Seq<u8> {
    seq![108u8, 111u8, 99u8, 107u8]
}

pub open spec fn kind_byte(htlc: bool) -> u8 {
    if htlc {
        72u8
    } else {
        80u8
    }
}

pub open spec fn enc_keys(ks: Seq<Seq<u8>>) -> Seq<u8>
    decreases ks.len(),
{
    if ks.len() == 0 {
        Seq::empty()
    } else {
        field(ks[0]) + enc_keys(ks.drop_first())
    }
}

pub open spec fn enc_key_list(ks: Seq<Seq<u8>>) -> Seq<u8> {
    be64(ks.len() as u64) + enc_keys(ks)
}

pub open spec fn enc_locktime(l: Option<u64>) -> Seq<u8> {
    match l {
        None => seq![0u8],
        Some(t) => seq![1u8] + be64(t),
    }
}

/// The kind, nonce and tags of a lock as written, after the lock tag.
#[verifier::opaque]
pub open spec fn lock_head(v: LockView) -> Seq<u8> {
    lock_prefix() + seq![kind_byte(v.htlc)] + field(v.nonce) + field(v.data) + enc_locktime(
        v.locktime,
    ) + be64(v.required_sigs)
}

/// The secret that carries a lock.
pub open spec fn encode_lock_spec(v: LockView) -> Seq<u8> {
    lock_head(v) + enc_key_list(v.pubkeys) + enc_key_list(v.refund_keys)
}

pub open spec fn lock_fits(v: LockView) -> bool {
    &&& fits(v.nonce)
    &&& fits(v.data)
    &&& v.pubkeys.len() <= u64::MAX
    &&& v.refund_keys.len() <= u64::MAX
    &&& forall|i: int| 0 <= i < v.pubkeys.len() ==> fits(#[trigger] v.pubkeys[i])
    &&& forall|i: int| 0 <= i < v.refund_keys.len() ==> fits(#[trigger] v.refund_keys[i])
}

#[verifier::opaque]
pub open spec fn parse_keys(s: Seq<u8>, pos: int, n: nat, acc: Seq<Seq<u8>>) -> Option<
    (Seq<Seq<u8>>, int),
>
    decreases n,
{
    if n == 0 {
        Some((acc, pos))
    } else {
        match parse_field(s, pos) {
            None => None,
            Some((k, q)) => parse_keys(s, q, (n - 1) as nat, acc.push(k)),
        }
    }
}

pub open spec fn parse_key_list(s: Seq<u8>, pos: int) -> Option<(Seq<Seq<u8>>, int)> {
    match parse_u64(s, pos) {
        None => None,
        Some((n, p)) => parse_keys(s, p, n as nat, Seq::empty()),
    }
}

pub open spec fn parse_locktime(s: Seq<u8>, pos: int) -> Option<(Option<u64>, int)> {
    if 0 <= pos < s.len() && s[pos] == 0 {
        Some((None, pos + 1))
    } else if 0 <= pos < s.len() && s[pos] == 1 {
        match parse_u64(s, pos + 1) {
            None => None,
            Some((t, p)) => Some((Some(t), p)),
        }
    } else {
        None
    }
}

/// Reads a lock after the tag; the secret must end where the lock does.
#[verifier::opaque]
pub open spec fn parse_lock(s: Seq<u8>) -> Option<LockView> {
    if s.len() < 5 || (s[4] != 72 && s[4] != 80) {
        None
    } else {
        match parse_field(s, 5) {
            None => None,
            Some((nonce, at1)) => match parse_field(s, at1) {
                None => None,
                Some((data, at2)) => match parse_locktime(s, at2) {
                    None => None,
                    Some((locktime, at3)) => match parse_u64(s, at3) {
                        None => None,
                        Some((required_sigs, at4)) => match parse_key_list(s, at4) {
                            None => None,
                            Some((pubkeys, at5)) => match parse_key_list(s, at5) {
                                None => None,
                                Some((refund_keys, at6)) => if at6 == s.len() {
                                    Some(
                                        LockView {
                                            htlc: s[4] == 72,
                                            nonce,
                                            data,
                                            locktime,
                                            required_sigs,
                                            pubkeys,
                                            refund_keys,
                                        },
                                    )
                                } else {
                                    None
                                },
                            },
                        },
                    },
                },
            },
        }
    }
}

/// What a secret holds: no lock where it does not start with the tag, else the lock it encodes.
pub open spec fn decode_secret_spec(s: Seq<u8>) -> Result<Option<LockView>, WalletError> {
    if s.len() < 4 || s.subrange(0, 4) != lock_prefix() {
        Ok(None)
    } else {
        match parse_lock(s) {
            None => Err(WalletError::MalformedCondition),
            Some(v) => Ok(Some(v)),
        }
    }
}

proof fn lemma_parse_keys(s: Seq<u8>, pos: int, ks: Seq<Seq<u8>>, acc: Seq<Seq<u8>>)
    requires
        forall|i: int| 0 <= i < ks.len() ==> fits(#[trigger] ks[i]),
        0 <= pos,
        pos + enc_keys(ks).len() <= s.len(),
        s.subrange(pos, pos + enc_keys(ks).len()) == enc_keys(ks),
    ensures
        parse_keys(s, pos, ks.len(), acc) == Some((acc + ks, pos + enc_keys(ks).len())),
    decreases ks.len(),
{
    reveal(parse_keys);
    if ks.len() == 0 {
        assert(acc + ks =~= acc);
    } else {
        let head = field(ks[0]);
        let rest = enc_keys(ks.drop_first());
        lemma_peel(s, pos, head, rest);
        assert(fits(ks[0]));
        lemma_parse_field(s, pos, ks[0]);
        assert forall|i: int| 0 <= i < ks.drop_first().len() implies fits(
            #[trigger] ks.drop_first()[i],
        ) by {
            assert(ks.drop_first()[i] == ks[i + 1]);
        }
        lemma_parse_keys(s, pos + head.len(), ks.drop_first(), acc.push(ks[0]));
        assert(acc.push(ks[0]) + ks.drop_first() =~= acc + ks);
    }
}

proof fn lemma_parse_key_list(s: Seq<u8>, pos: int, ks: Seq<Seq<u8>>)
    requires
        ks.len() <= u64::MAX,
        forall|i: int| 0 <= i < ks.len() ==> fits(#[trigger] ks[i]),
        0 <= pos,
        pos + enc_key_list(ks).len() <= s.len(),
        s.subrange(pos, pos + enc_key_list(ks).len()) == enc_key_list(ks),
    ensures
        parse_key_list(s, pos) == Some((ks, pos + enc_key_list(ks).len())),
{
    lemma_peel(s, pos, be64(ks.len() as u64), enc_keys(ks));
    lemma_parse_u64(s, pos, ks.len() as u64);
    lemma_parse_keys(s, pos + 8, ks, Seq::empty());
    assert(Seq::<Seq<u8>>::empty() + ks =~= ks);
}

proof fn lemma_parse_locktime(s: Seq<u8>, pos: int, l: Option<u64>)
    requires
        0 <= pos,
        pos + enc_locktime(l).len() <= s.len(),
        s.subrange(pos, pos + enc_locktime(l).len()) == enc_locktime(l),
    ensures
        parse_locktime(s, pos) == Some((l, pos + enc_locktime(l).len())),
{
    let e = enc_locktime(l);
    assert(s[pos] == s.subrange(pos, pos + e.len())[0]);
    match l {
        None => {},
        Some(t) => {
            lemma_peel(s, pos, seq![1u8], be64(t));
            lemma_parse_u64(s, pos + 1, t);
        },
    }
}

spec fn pos_data(v: LockView) -> int {
    5 + field(v.nonce).len() as int
}

spec fn pos_locktime(v: LockView) -> int {
    pos_data(v) + field(v.data).len()
}

spec fn pos_required(v: LockView) -> int {
    pos_locktime(v) + enc_locktime(v.locktime).len()
}

spec fn pos_pubkeys(v: LockView) -> int {
    pos_required(v) + 8
}

spec fn pos_refund(v: LockView) -> int {
    pos_pubkeys(v) + enc_key_list(v.pubkeys).len()
}

proof fn lemma_head_len(v: LockView)
    ensures
        lock_head(v).len() == pos_pubkeys(v),
{
    reveal(lock_head);
}

proof fn lemma_lock_tail(v: LockView)
    requires
        lock_fits(v),
    ensures
        ({
            let s = encode_lock_spec(v);
            &&& s.subrange(0, lock_head(v).len() as int) == lock_head(v)
            &&& parse_key_list(s, pos_pubkeys(v)) == Some((v.pubkeys, pos_refund(v)))
            &&& parse_key_list(s, pos_refund(v)) == Some((v.refund_keys, s.len() as int))
        }),
{
    let s = encode_lock_spec(v);
    let h = lock_head(v);
    let f5 = enc_key_list(v.pubkeys);
    let f6 = enc_key_list(v.refund_keys);
    assert(s == h + f5 + f6);
    assert(s.subrange(0, s.len() as int) =~= s);
    lemma_peel(s, 0, h + f5, f6);
    lemma_peel(s, 0, h, f5);
    lemma_head_len(v);
    lemma_parse_key_list(s, h.len() as int, v.pubkeys);
    lemma_parse_key_list(s, (h.len() + f5.len()) as int, v.refund_keys);
}

proof fn lemma_lock_pieces(v: LockView)
    requires
        lock_fits(v),
    ensures
        ({
            let s = encode_lock_spec(v);
            &&& s.len() >= 5
            &&& s.subrange(0, 4) == lock_prefix()
            &&& s[4] == kind_byte(v.htlc)
            &&& parse_field(s, 5) == Some((v.nonce, pos_data(v)))
            &&& parse_field(s, pos_data(v)) == Some((v.data, pos_locktime(v)))
            &&& parse_locktime(s, pos_locktime(v)) == Some((v.locktime, pos_required(v)))
            &&& parse_u64(s, pos_required(v)) == Some((v.required_sigs, pos_pubkeys(v)))
        }),
{
    lemma_lock_tail(v);
    lemma_head_len(v);
    lemma_lock_head_in(v, encode_lock_spec(v));
}

proof fn lemma_lock_head_in(v: LockView, s: Seq<u8>)
    requires
        lock_fits(v),
        s.len() >= lock_head(v).len(),
        s.subrange(0, lock_head(v).len() as int) == lock_head(v),
    ensures
        s.len() >= 5,
        s.subrange(0, 4) == lock_prefix(),
        s[4] == kind_byte(v.htlc),
        parse_field(s, 5) == Some((v.nonce, pos_data(v))),
        parse_field(s, pos_data(v)) == Some((v.data, pos_locktime(v))),
        parse_locktime(s, pos_locktime(v)) == Some((v.locktime, pos_required(v))),
        parse_u64(s, pos_required(v)) == Some((v.required_sigs, pos_pubkeys(v))),
{
    reveal(lock_head);
    let f0 = lock_prefix() + seq![kind_byte(v.htlc)];
    let f1 = field(v.nonce);
    let f2 = field(v.data);
    let f3 = enc_locktime(v.locktime);
    let f4 = be64(v.required_sigs);
    lemma_peel(s, 0, f0 + f1 + f2 + f3, f4);
    lemma_peel(s, 0, f0 + f1 + f2, f3);
    lemma_peel(s, 0, f0 + f1, f2);
    lemma_peel(s, 0, f0, f1);
    assert(s.subrange(0, 4) =~= lock_prefix()) by {
        assert(s.subrange(0, 4) =~= f0.subrange(0, 4));
    }
    assert(s[4] == f0[4]);
    lemma_parse_field(s, 5, v.nonce);
    lemma_parse_field(s, pos_data(v), v.data);
    lemma_parse_locktime(s, pos_locktime(v), v.locktime);
    lemma_parse_u64(s, pos_required(v), v.required_sigs);
}

/// Decoding the secret written for a lock gives the lock back.
pub proof fn lemma_lock_round_trip(v: LockView)
    requires
        lock_fits(v),
    ensures
        decode_secret_spec(encode_lock_spec(v)) == Ok::<Option<LockView>, WalletError>(Some(v)),
{
    lemma_lock_pieces(v);
    lemma_lock_tail(v);
    lemma_head_len(v);
    reveal(parse_lock);
}

fn push_key_list(out: &mut Vec<u8>, ks: &Vec<Vec<u8>>)
    ensures
        final(out)@ == old(out)@ + enc_key_list(keys_view(ks@)),
        ks@.len() <= u64::MAX,
        forall|i: int| 0 <= i < ks@.len() ==> fits(#[trigger] keys_view(ks@)[i]),
{
    let ghost start = out@;
    let ghost kv = keys_view(ks@);
    push_u64(out, ks.len() as u64);
    let ghost head = out@;
    let mut i: usize = 0;
    while i < ks.len()
        invariant
            kv == keys_view(ks@),
            i <= ks@.len(),
            out@ == head + enc_keys(kv.take(i as int)),
            forall|k: int| 0 <= k < i ==> fits(#[trigger] kv[k]),
        decreases ks@.len() - i,
    {
        push_field(out, ks[i].as_slice());
        proof {
            lemma_enc_keys_push(kv.take(i as int), kv[i as int]);
            assert(kv.take(i as int).push(kv[i as int]) =~= kv.take(i + 1));
        }
        i = i + 1;
    }
    assert(kv.take(i as int) =~= kv);
    assert(out@ =~= start + enc_key_list(kv));
}

proof fn lemma_enc_keys_push(ks: Seq<Seq<u8>>, k: Seq<u8>)
    ensures
        enc_keys(ks.push(k)) == enc_keys(ks) + field(k),
    decreases ks.len(),
{
    if ks.len() == 0 {
        assert(ks.push(k).drop_first() =~= Seq::<Seq<u8>>::empty());
        assert(enc_keys(ks.push(k).drop_first()) == Seq::<u8>::empty());
        assert(enc_keys(ks.push(k)) =~= field(k));
    } else {
        lemma_enc_keys_push(ks.drop_first(), k);
        assert(ks.push(k).drop_first() =~= ks.drop_first().push(k));
        assert(enc_keys(ks.push(k)) =~= enc_keys(ks) + field(k));
    }
}

/// Writes the secret that carries lock `c`, with the random `nonce` the caller drew.
pub fn encode_lock(c: &SpendingCondition, nonce: &[u8]) -> (r: Vec<u8>)
    ensures
        r@ == encode_lock_spec(lock_view(*c, nonce@)),
        lock_fits(lock_view(*c, nonce@)),
{
    let mut out: Vec<u8> = vec![108u8, 111u8, 99u8, 107u8];
    let (htlc, data, t) = match c {
        SpendingCondition::P2pk { data, conditions } => (false, data, conditions),
        SpendingCondition::Htlc { hash, conditions } => (true, hash, conditions),
    };
    out.push(if htlc {
        72u8
    } else {
        80u8
    });
    push_field(&mut out, nonce);
    push_field(&mut out, data.as_slice());
    let ghost s2 = out@;
    match t.locktime {
        None => out.push(0u8),
        Some(lt) => {
            out.push(1u8);
            push_u64(&mut out, lt);
        },
    }
    assert(out@ =~= s2 + enc_locktime(t.locktime));
    push_u64(&mut out, t.required_sigs);
    proof {
        reveal(lock_head);
        assert(out@ =~= lock_head(lock_view(*c, nonce@)));
    }
    push_key_list(&mut out, &t.pubkeys);
    push_key_list(&mut out, &t.refund_keys);
    assert(out@ =~= encode_lock_spec(lock_view(*c, nonce@)));
    out
}

fn read_keys(s: &[u8], start: usize, n: u64) -> (r: Option<(Vec<Vec<u8>>, usize)>)
    ensures
        match r {
            Some((v, q)) => parse_keys(s@, start as int, n as nat, Seq::empty()) == Some(
                (keys_view(v@), q as int),
            ),
            None => parse_keys(s@, start as int, n as nat, Seq::empty()) is None,
        },
{
    let mut out: Vec<Vec<u8>> = Vec::new();
    let mut pos: usize = start;
    let mut i: u64 = 0;
    proof {
        assert(keys_view(out@) =~= Seq::<Seq<u8>>::empty());
    }
    while i < n
        invariant
            i <= n,
            parse_keys(s@, start as int, n as nat, Seq::empty()) == parse_keys(
                s@,
                pos as int,
                (n - i) as nat,
                keys_view(out@),
            ),
        decreases n - i,
    {
        proof {
            reveal(parse_keys);
        }
        match read_field(s, pos) {
            None => return None,
            Some((k, q)) => {
                let ghost before = out@;
                out.push(k);
                proof {
                    assert(keys_view(out@) =~= keys_view(before).push(k@));
                }
                pos = q;
            },
        }
        i = i + 1;
    }
    proof {
        reveal(parse_keys);
    }
    Some((out, pos))
}

fn read_key_list(s: &[u8], pos: usize) -> (r: Option<(Vec<Vec<u8>>, usize)>)
    ensures
        match r {
            Some((v, q)) => parse_key_list(s@, pos as int) == Some((keys_view(v@), q as int)),
            None => parse_key_list(s@, pos as int) is None,
        },
{
    match read_u64(s, pos) {
        None => None,
        Some((n, p)) => read_keys(s, p, n),
    }
}

/// Reads a secret: a plain one carries no lock; one that starts with the lock tag must encode
/// a lock exactly, and then yields it with its nonce.
pub fn decode_secret(s: &[u8]) -> (r: Result<Option<(SpendingCondition, Vec<u8>)>, WalletError>)
    ensures
        match r {
            Ok(None) => decode_secret_spec(s@) == Ok::<Option<LockView>, WalletError>(None),
            Ok(Some((c, nonce))) => decode_secret_spec(s@) == Ok::<Option<LockView>, WalletError>(
                Some(lock_view(c, nonce@)),
            ),
            Err(e) => decode_secret_spec(s@) == Err::<Option<LockView>, WalletError>(e),
        },
{
    if s.len() < 4 || s[0] != 108 || s[1] != 111 || s[2] != 99 || s[3] != 107 {
        proof {
            if s@.len() >= 4 && s@.subrange(0, 4) == lock_prefix() {
                assert(s@[0] == s@.subrange(0, 4)[0]);
                assert(s@[1] == s@.subrange(0, 4)[1]);
                assert(s@[2] == s@.subrange(0, 4)[2]);
                assert(s@[3] == s@.subrange(0, 4)[3]);
            }
        }
        return Ok(None);
    }
    assert(s@.subrange(0, 4) =~= lock_prefix());
    match read_lock(s) {
        None => Err(WalletError::MalformedCondition),
        Some(x) => Ok(Some(x)),
    }
}

fn read_lock(s: &[u8]) -> (r: Option<(SpendingCondition, Vec<u8>)>)
    ensures
        match r {
            Some((c, nonce)) => parse_lock(s@) == Some(lock_view(c, nonce@)),
            None => parse_lock(s@) is None,
        },
{
    reveal(parse_lock);
    if s.len() < 5 || (s[4] != 72 && s[4] != 80) {
        return None;
    }
    let htlc = s[4] == 72;
    let (nonce, at1) = match read_field(s, 5) {
        None => return None,
        Some(x) => x,
    };
    let (data, at2) = match read_field(s, at1) {
        None => return None,
        Some(x) => x,
    };
    let (locktime, at3) = if at2 < s.len() && s[at2] == 0 {
        (None, at2 + 1)
    } else if at2 < s.len() && s[at2] == 1 {
        match read_u64(s, at2 + 1) {
            None => return None,
            Some((t, p)) => (Some(t), p),
        }
    } else {
        return None;
    };
    let (required_sigs, at4) = match read_u64(s, at3) {
        None => return None,
        Some(x) => x,
    };
    let (pubkeys, at5) = match read_key_list(s, at4) {
        None => return None,
        Some(x) => x,
    };
    let (refund_keys, at6) = match read_key_list(s, at5) {
        None => return None,
        Some(x) => x,
    };
    if at6 != s.len() {
        return None;
    }
    let conditions = Conditions { locktime, pubkeys, refund_keys, required_sigs };
    let c = if htlc {
        SpendingCondition::Htlc { hash: data, conditions }
    } else {
        SpendingCondition::P2pk { data, conditions }
    };
    Some((c, nonce))
}

/// The lock `v` is sound and `w` opens it for a proof whose secret is `msg`, at `now`.
pub open spec fn lock_opens(v: LockView, msg: Seq<u8>, w: Witness, now: u64) -> bool {
    exists|c: SpendingCondition, n: Seq<u8>|
        #[trigger] lock_view(c, n) == v && condition_well_formed(c) && condition_satisfied(
            c,
            msg,
            w,
            now,
        )
}

/// The lock `v` is structurally sound: its signature count can be met by its keys.
pub open spec fn lock_sound(v: LockView) -> bool {
    exists|c: SpendingCondition, n: Seq<u8>|
        #[trigger] lock_view(c, n) == v && condition_well_formed(c)
}

/// What checking one secret's lock against its witness gives: nothing to check for a plain
/// secret, `MalformedCondition` for a damaged or unsound lock, `ConditionUnsatisfied` for a
/// sound lock that the witness does not open.
pub open spec fn lock_check(secret: Seq<u8>, w: Witness, now: u64) -> Result<(), WalletError> {
    match decode_secret_spec(secret) {
        Err(e) => Err(e),
        Ok(None) => Ok(()),
        Ok(Some(v)) => if !lock_sound(v) {
            Err(WalletError::MalformedCondition)
        } else if lock_opens(v, secret, w, now) {
            Ok(())
        } else {
            Err(WalletError::ConditionUnsatisfied)
        },
    }
}

/// Checks, at redemption, the lock a proof's secret carries.
pub fn check_proof_lock(secret: &[u8], w: &Witness, now: u64) -> (r: Result<(), WalletError>)
    ensures
        r == lock_check(secret@, *w, now),
{
    match decode_secret(secret) {
        Err(e) => Err(e),
        Ok(None) => Ok(()),
        Ok(Some((c, nonce))) => {
            let r = verify_condition(&c, secret, w, now);
            proof {
                let v = lock_view(c, nonce@);
                assert(lock_view(c, nonce@) == v);
                assert forall|c2: SpendingCondition, n2: Seq<u8>|
                    #[trigger] lock_view(c2, n2) == v implies condition_well_formed(c2)
                    == condition_well_formed(c) && condition_satisfied(c2, secret@, *w, now)
                    == condition_satisfied(c, secret@, *w, now) by {
                    lemma_same_view_same_lock(c, nonce@, c2, n2, secret@, *w, now);
                }
                if condition_well_formed(c) {
                    assert(lock_sound(v));
                    if condition_satisfied(c, secret@, *w, now) {
                        assert(lock_opens(v, secret@, *w, now));
                    } else {
                        assert(!lock_opens(v, secret@, *w, now));
                    }
                } else {
                    assert(!lock_sound(v));
                }
                assert(decode_secret_spec(secret@) == Ok::<Option<LockView>, WalletError>(Some(v)));
            }
            match r {
                Ok(_) => Ok(()),
                Err(e) => Err(e),
            }
        },
    }
}

/// Checks the lock of every proof of a token being received, `witnesses[i]` opening proof `i`.
/// Succeeds exactly when every lock opens; else fails as the first proof whose lock does not.
pub fn check_token_locks(token: &Token, witnesses: &Vec<Witness>, now: u64) -> (r: Result<
    (),
    WalletError,
>)
    requires
        witnesses@.len() == token.proofs@.len(),
    ensures
        r is Ok <==> forall|i: int|
            0 <= i < token.proofs@.len() ==> #[trigger] lock_check(
                token.proofs@[i].secret@,
                witnesses@[i],
                now,
            ) is Ok,
        r is Err ==> exists|i: int|
            0 <= i < token.proofs@.len() && #[trigger] lock_check(
                token.proofs@[i].secret@,
                witnesses@[i],
                now,
            ) == r && forall|k: int|
                0 <= k < i ==> lock_check(token.proofs@[k].secret@, witnesses@[k], now) is Ok,
{
    let mut i: usize = 0;
    while i < token.proofs.len()
        invariant
            witnesses@.len() == token.proofs@.len(),
            i <= token.proofs@.len(),
            forall|k: int|
                0 <= k < i ==> #[trigger] lock_check(token.proofs@[k].secret@, witnesses@[k], now)
                    is Ok,
        decreases token.proofs@.len() - i,
    {
        let r = check_proof_lock(token.proofs[i].secret.as_slice(), &witnesses[i], now);
        match r {
            Err(e) => {
                assert(lock_check(token.proofs@[i as int].secret@, witnesses@[i as int], now)
                    == Err::<(), WalletError>(e));
                return Err(e);
            },
            Ok(()) => {},
        }
        i = i + 1;
    }
    Ok(())
}

/// Whether a lock is sound and opened depends on what its secret says, nothing more.
proof fn lemma_same_view_same_lock(
    c: SpendingCondition,
    n: Seq<u8>,
    c2: SpendingCondition,
    n2: Seq<u8>,
    msg: Seq<u8>,
    w: Witness,
    now: u64,
)
    requires
        lock_view(c, n) == lock_view(c2, n2),
    ensures
        condition_well_formed(c) == condition_well_formed(c2),
        condition_satisfied(c, msg, w, now) == condition_satisfied(c2, msg, w, now),
{
    assert(crate::conditions::declared_keys(c) =~= crate::conditions::declared_keys(c2));
}

} // verus!
