use vstd::prelude::*;

use crate::codec::{
    be64, field, fits, hex_decode, hex_encode, lemma_hex_round_trip, lemma_parse_field,
    lemma_parse_opt_field, lemma_parse_u64, lemma_peel, opt_field, opt_fits, opt_view, parse_field,
    parse_opt_field, parse_u64, push_field, push_hex, push_opt_field, push_u64, read_field,
    read_hex, read_opt_field, read_u64,
};
use crate::error::WalletError;
use cdk::nuts::{Token as CashuToken, TokenV3};

verus! {

/// A mint-signed value token: one denomination of one keyset, redeemable once.
#[derive(Clone, Debug, PartialEq, Eq)]
pub struct Proof {
    pub keyset_id: Vec<u8>,
    pub amount: u64,
    pub secret: Vec<u8>,
    pub signature: Vec<u8>,
    pub witness: Option<Vec<u8>>,
}

pub struct ProofView {
    pub keyset_id: Seq<u8>,
    pub amount: u64,
    pub secret: Seq<u8>,
    pub signature: Seq<u8>,
    pub witness: Option<Seq<u8>>,
}

impl View for Proof {
    type V = ProofView;

    open spec fn view(&self) -> ProofView {
        ProofView {
            keyset_id: self.keyset_id@,
            amount: self.amount,
            secret: self.secret@,
            signature: self.signature@,
            witness: opt_view(&self.witness),
        }
    }
}

/// The portable unit of exchange between wallets: proofs of one mint and unit.
#[derive(Clone, Debug, PartialEq, Eq)]
pub struct Token {
    pub mint_url: Vec<u8>,
    pub unit: Vec<u8>,
    pub memo: Option<Vec<u8>>,
    pub proofs: Vec<Proof>,
}

pub struct TokenView {
    pub mint_url: Seq<u8>,
    pub unit: Seq<u8>,
    pub memo: Option<Seq<u8>>,
    pub proofs: Seq<ProofView>,
}

pub open spec fn proofs_view(ps: Seq<Proof>) -> Seq<ProofView> {
    ps.map_values(|p: Proof| p@)
}

impl View for Token {
    type V = TokenView;

    open spec fn view(&self) -> TokenView {
        TokenView {
            mint_url: self.mint_url@,
            unit: self.unit@,
            memo: opt_view(&self.memo),
            proofs: proofs_view(self.proofs@),
        }
    }
}

/// The tag every token string starts with.
pub open spec fn token_prefix() -> Seq<u8> {
    seq![101u8, 99u8, 97u8, 115u8, 104u8]
}

/// The one encoding version this codec writes and reads.
pub const TOKEN_VERSION: u8 = 49;

pub open spec fn proof_fits(p: ProofView) -> bool {
    fits(p.keyset_id) && fits(p.secret) && fits(p.signature) && opt_fits(p.witness)
}

/// Every length in the token can be written in eight bytes.
pub open spec fn token_fits(t: TokenView) -> bool {
    &&& fits(t.mint_url)
    &&& fits(t.unit)
    &&& opt_fits(t.memo)
    &&& t.proofs.len() <= u64::MAX
    &&& forall|i: int| 0 <= i < t.proofs.len() ==> proof_fits(#[trigger] t.proofs[i])
}

pub open spec fn enc_proof(p: ProofView) -> Seq<u8> {
    field(p.keyset_id) + be64(p.amount) + field(p.secret) + field(p.signature) + opt_field(
        p.witness,
    )
}

pub open spec fn enc_proofs(ps: Seq<ProofView>) -> Seq<u8>
    decreases ps.len(),
{
    if ps.len() == 0 {
        Seq::empty()
    } else {
        enc_proof(ps[0]) + enc_proofs(ps.drop_first())
    }
}

pub open spec fn enc_payload(t: TokenView) -> Seq<u8> {
    field(t.mint_url) + field(t.unit) + opt_field(t.memo) + be64(t.proofs.len() as u64)
        + enc_proofs(t.proofs)
}

/// The token string: the tag, the version, then the payload in hex.
pub open spec fn encode_spec(t: TokenView) -> Seq<u8> {
    token_prefix() + seq![TOKEN_VERSION] + hex_encode(enc_payload(t))
}

#[verifier::opaque]
pub open spec fn parse_proof(s: Seq<u8>, pos: int) -> Option<(ProofView, int)> {
    match parse_field(s, pos) {
        None => None,
        Some((k, at1)) => match parse_u64(s, at1) {
            None => None,
            Some((a, at2)) => match parse_field(s, at2) {
                None => None,
                Some((sec, at3)) => match parse_field(s, at3) {
                    None => None,
                    Some((sig, at4)) => match parse_opt_field(s, at4) {
                        None => None,
                        Some((w, at5)) => Some(
                            (
                                ProofView {
                                    keyset_id: k,
                                    amount: a,
                                    secret: sec,
                                    signature: sig,
                                    witness: w,
                                },
                                at5,
                            ),
                        ),
                    },
                },
            },
        },
    }
}

/// Reads `n` proofs from `pos` on, after those already in `acc`.
#[verifier::opaque]
pub open spec fn parse_proofs(s: Seq<u8>, pos: int, n: nat, acc: Seq<ProofView>) -> Option<
    (Seq<ProofView>, int),
>
    decreases n,
{
    if n == 0 {
        Some((acc, pos))
    } else {
        match parse_proof(s, pos) {
            None => None,
            Some((p, q)) => parse_proofs(s, q, (n - 1) as nat, acc.push(p)),
        }
    }
}

pub open spec fn parse_payload(s: Seq<u8>) -> Option<TokenView> {
    match parse_field(s, 0) {
        None => None,
        Some((m, at1)) => match parse_field(s, at1) {
            None => None,
            Some((u, at2)) => match parse_opt_field(s, at2) {
                None => None,
                Some((memo, at3)) => match parse_u64(s, at3) {
                    None => None,
                    Some((n, at4)) => match parse_proofs(s, at4, n as nat, Seq::empty()) {
                        None => None,
                        Some((ps, at5)) => if at5 == s.len() {
                            Some(TokenView { mint_url: m, unit: u, memo, proofs: ps })
                        } else {
                            None
                        },
                    },
                },
            },
        },
    }
}

/// What a token string decodes to.
pub open spec fn decode_spec(s: Seq<u8>) -> Result<TokenView, WalletError> {
    if s.len() < 6 || s.subrange(0, 5) != token_prefix() {
        Err(WalletError::MalformedToken)
    } else if s[5] != TOKEN_VERSION {
        Err(WalletError::UnsupportedVersion)
    } else {
        match hex_decode(s.subrange(6, s.len() as int)) {
            None => Err(WalletError::MalformedToken),
            Some(payload) => match parse_payload(payload) {
                None => Err(WalletError::MalformedToken),
                Some(t) => Ok(t),
            },
        }
    }
}

proof fn lemma_parse_proof(s: Seq<u8>, pos: int, p: ProofView)
    requires
        proof_fits(p),
        0 <= pos,
        pos + enc_proof(p).len() <= s.len(),
        s.subrange(pos, pos + enc_proof(p).len()) == enc_proof(p),
    ensures
        parse_proof(s, pos) == Some((p, pos + enc_proof(p).len())),
{
    reveal(parse_proof);
    let f1 = field(p.keyset_id);
    let f2 = be64(p.amount);
    let f3 = field(p.secret);
    let f4 = field(p.signature);
    let f5 = opt_field(p.witness);
    lemma_peel(s, pos, f1 + f2 + f3 + f4, f5);
    lemma_peel(s, pos, f1 + f2 + f3, f4);
    lemma_peel(s, pos, f1 + f2, f3);
    lemma_peel(s, pos, f1, f2);
    lemma_parse_field(s, pos, p.keyset_id);
    lemma_parse_u64(s, pos + f1.len(), p.amount);
    lemma_parse_field(s, pos + f1.len() + f2.len(), p.secret);
    lemma_parse_field(s, pos + f1.len() + f2.len() + f3.len(), p.signature);
    lemma_parse_opt_field(s, pos + f1.len() + f2.len() + f3.len() + f4.len(), p.witness);
}

proof fn lemma_parse_proofs(s: Seq<u8>, pos: int, ps: Seq<ProofView>, acc: Seq<ProofView>)
    requires
        forall|i: int| 0 <= i < ps.len() ==> proof_fits(#[trigger] ps[i]),
        0 <= pos,
        pos + enc_proofs(ps).len() <= s.len(),
        s.subrange(pos, pos + enc_proofs(ps).len()) == enc_proofs(ps),
    ensures
        parse_proofs(s, pos, ps.len(), acc) == Some((acc + ps, pos + enc_proofs(ps).len())),
    decreases ps.len(),
{
    reveal(parse_proofs);
    if ps.len() == 0 {
        assert(acc + ps =~= acc);
    } else {
        let head = enc_proof(ps[0]);
        let rest = enc_proofs(ps.drop_first());
        lemma_peel(s, pos, head, rest);
        assert(proof_fits(ps[0]));
        lemma_parse_proof(s, pos, ps[0]);
        assert forall|i: int| 0 <= i < ps.drop_first().len() implies proof_fits(
            #[trigger] ps.drop_first()[i],
        ) by {
            assert(ps.drop_first()[i] == ps[i + 1]);
        }
        lemma_parse_proofs(s, pos + head.len(), ps.drop_first(), acc.push(ps[0]));
        assert(acc.push(ps[0]) + ps.drop_first() =~= acc + ps);
    }
}

/// Decoding a token's encoding gives the token back.
pub proof fn lemma_token_round_trip(t: TokenView)
    requires
        token_fits(t),
    ensures
        decode_spec(encode_spec(t)) == Ok::<TokenView, WalletError>(t),
{
    let payload = enc_payload(t);
    let s = encode_spec(t);
    assert(s.subrange(0, 5) =~= token_prefix());
    assert(s[5] == TOKEN_VERSION);
    assert(s.subrange(6, s.len() as int) =~= hex_encode(payload));
    lemma_hex_round_trip(payload);
    lemma_parse_payload(t);
}

#[verifier::rlimit(50)]
proof fn lemma_parse_payload(t: TokenView)
    requires
        token_fits(t),
    ensures
        parse_payload(enc_payload(t)) == Some(t),
{
    let payload = enc_payload(t);
    let f1 = field(t.mint_url);
    let f2 = field(t.unit);
    let f3 = opt_field(t.memo);
    let f4 = be64(t.proofs.len() as u64);
    let f5 = enc_proofs(t.proofs);
    assert(payload.subrange(0, payload.len() as int) =~= payload);
    lemma_peel(payload, 0, f1 + f2 + f3 + f4, f5);
    lemma_peel(payload, 0, f1 + f2 + f3, f4);
    lemma_peel(payload, 0, f1 + f2, f3);
    lemma_peel(payload, 0, f1, f2);
    lemma_parse_field(payload, 0, t.mint_url);
    lemma_parse_field(payload, f1.len() as int, t.unit);
    lemma_parse_opt_field(payload, (f1.len() + f2.len()) as int, t.memo);
    lemma_parse_u64(payload, (f1.len() + f2.len() + f3.len()) as int, t.proofs.len() as u64);
    let a1 = f1.len() as int;
    let a2 = (f1.len() + f2.len()) as int;
    let a3 = (f1.len() + f2.len() + f3.len()) as int;
    let a4 = (f1.len() + f2.len() + f3.len() + f4.len()) as int;
    lemma_parse_proofs(payload, a4, t.proofs, Seq::empty());
    assert(Seq::<ProofView>::empty() + t.proofs =~= t.proofs);
    let n = t.proofs.len() as u64;
    assert(n as nat == t.proofs.len());
    assert(parse_field(payload, 0) == Some((t.mint_url, a1)));
    assert(parse_field(payload, a1) == Some((t.unit, a2)));
    assert(parse_opt_field(payload, a2) == Some((t.memo, a3)));
    assert(parse_u64(payload, a3) == Some((n, a4)));
    assert(parse_proofs(payload, a4, n as nat, Seq::empty()) == Some(
        (t.proofs, payload.len() as int),
    ));
}

fn push_proof(out: &mut Vec<u8>, p: &Proof)
    ensures
        final(out)@ == old(out)@ + enc_proof(p@),
        proof_fits(p@),
{
    let ghost start = out@;
    push_field(out, p.keyset_id.as_slice());
    push_u64(out, p.amount);
    push_field(out, p.secret.as_slice());
    push_field(out, p.signature.as_slice());
    push_opt_field(out, &p.witness);
    assert(out@ =~= start + enc_proof(p@));
}

proof fn lemma_enc_proofs_push(ps: Seq<ProofView>, p: ProofView)
    ensures
        enc_proofs(ps.push(p)) == enc_proofs(ps) + enc_proof(p),
    decreases ps.len(),
{
    if ps.len() == 0 {
        assert(ps.push(p).drop_first() =~= Seq::<ProofView>::empty());
        assert(enc_proofs(ps.push(p).drop_first()) == Seq::<u8>::empty());
        assert(enc_proofs(ps.push(p)) =~= enc_proof(p));
    } else {
        lemma_enc_proofs_push(ps.drop_first(), p);
        assert(ps.push(p).drop_first() =~= ps.drop_first().push(p));
        assert(ps.push(p)[0] == ps[0]);
        assert(enc_proofs(ps.push(p)) =~= enc_proofs(ps) + enc_proof(p));
    }
}

/// Encodes `t` as a versioned token string.
pub fn encode_token(t: &Token) -> (r: Vec<u8>)
    ensures
        r@ == encode_spec(t@),
        token_fits(t@),
{
    let mut payload: Vec<u8> = Vec::new();
    push_field(&mut payload, t.mint_url.as_slice());
    push_field(&mut payload, t.unit.as_slice());
    push_opt_field(&mut payload, &t.memo);
    push_u64(&mut payload, t.proofs.len() as u64);
    let ghost head = payload@;
    let mut i: usize = 0;
    while i < t.proofs.len()
        invariant
            i <= t.proofs@.len(),
            payload@ == head + enc_proofs(proofs_view(t.proofs@).take(i as int)),
            forall|k: int| 0 <= k < i ==> proof_fits(#[trigger] proofs_view(t.proofs@)[k]),
        decreases t.proofs@.len() - i,
    {
        push_proof(&mut payload, &t.proofs[i]);
        proof {
            let v = proofs_view(t.proofs@);
            lemma_enc_proofs_push(v.take(i as int), v[i as int]);
            assert(v.take(i as int).push(v[i as int]) =~= v.take(i + 1));
        }
        i = i + 1;
    }
    proof {
        assert(proofs_view(t.proofs@).take(i as int) =~= proofs_view(t.proofs@));
        assert(payload@ =~= enc_payload(t@));
    }
    let mut out: Vec<u8> = vec![101u8, 99u8, 97u8, 115u8, 104u8, TOKEN_VERSION];
    push_hex(&mut out, payload.as_slice());
    assert(out@ =~= encode_spec(t@));
    out
}

fn read_proof(s: &[u8], pos: usize) -> (r: Option<(Proof, usize)>)
    ensures
        match r {
            Some((p, q)) => parse_proof(s@, pos as int) == Some((p@, q as int)),
            None => parse_proof(s@, pos as int) is None,
        },
{
    reveal(parse_proof);
    let (keyset_id, at1) = match read_field(s, pos) {
        None => return None,
        Some(x) => x,
    };
    let (amount, at2) = match read_u64(s, at1) {
        None => return None,
        Some(x) => x,
    };
    let (secret, at3) = match read_field(s, at2) {
        None => return None,
        Some(x) => x,
    };
    let (signature, at4) = match read_field(s, at3) {
        None => return None,
        Some(x) => x,
    };
    let (witness, at5) = match read_opt_field(s, at4) {
        None => return None,
        Some(x) => x,
    };
    Some((Proof { keyset_id, amount, secret, signature, witness }, at5))
}

/// Decodes a token string: the tag, a known version, and a payload that parses exactly.
pub fn decode_token(s: &[u8]) -> (r: Result<Token, WalletError>)
    ensures
        match r {
            Ok(t) => decode_spec(s@) == Ok::<TokenView, WalletError>(t@),
            Err(e) => decode_spec(s@) == Err::<TokenView, WalletError>(e),
        },
{
    if s.len() < 6 || s[0] != 101 || s[1] != 99 || s[2] != 97 || s[3] != 115 || s[4] != 104 {
        proof {
            if s@.len() >= 6 {
                assert(s@.subrange(0, 5) != token_prefix()) by {
                    if s@.subrange(0, 5) == token_prefix() {
                        assert(s@[0] == s@.subrange(0, 5)[0]);
                        assert(s@[1] == s@.subrange(0, 5)[1]);
                        assert(s@[2] == s@.subrange(0, 5)[2]);
                        assert(s@[3] == s@.subrange(0, 5)[3]);
                        assert(s@[4] == s@.subrange(0, 5)[4]);
                    }
                }
            }
        }
        return Err(WalletError::MalformedToken);
    }
    assert(s@.subrange(0, 5) =~= token_prefix());
    if s[5] != TOKEN_VERSION {
        return Err(WalletError::UnsupportedVersion);
    }
    let payload = match read_hex(s, 6) {
        None => return Err(WalletError::MalformedToken),
        Some(b) => b,
    };
    match read_payload(payload.as_slice()) {
        None => Err(WalletError::MalformedToken),
        Some(t) => Ok(t),
    }
}

fn read_proofs(ps: &[u8], start: usize, n: u64) -> (r: Option<(Vec<Proof>, usize)>)
    ensures
        match r {
            Some((v, q)) => parse_proofs(ps@, start as int, n as nat, Seq::empty()) == Some(
                (proofs_view(v@), q as int),
            ),
            None => parse_proofs(ps@, start as int, n as nat, Seq::empty()) is None,
        },
{
    reveal(parse_proofs);
    let mut proofs: Vec<Proof> = Vec::new();
    let mut pos: usize = start;
    let mut i: u64 = 0;
    proof {
        assert(proofs_view(proofs@) =~= Seq::<ProofView>::empty());
    }
    while i < n
        invariant
            i <= n,
            parse_proofs(ps@, start as int, n as nat, Seq::empty()) == parse_proofs(
                ps@,
                pos as int,
                (n - i) as nat,
                proofs_view(proofs@),
            ),
        decreases n - i,
    {
        proof {
            reveal(parse_proofs);
        }
        match read_proof(ps, pos) {
            None => return None,
            Some((p, q)) => {
                let ghost before = proofs@;
                proofs.push(p);
                proof {
                    assert(proofs_view(proofs@) =~= proofs_view(before).push(p@));
                }
                pos = q;
            },
        }
        i = i + 1;
    }
    proof {
        reveal(parse_proofs);
    }
    Some((proofs, pos))
}

fn read_payload(ps: &[u8]) -> (r: Option<Token>)
    ensures
        match r {
            Some(t) => parse_payload(ps@) == Some(t@),
            None => parse_payload(ps@) is None,
        },
{
    let (mint_url, at1) = match read_field(ps, 0) {
        None => return None,
        Some(x) => x,
    };
    let (unit, at2) = match read_field(ps, at1) {
        None => return None,
        Some(x) => x,
    };
    let (memo, at3) = match read_opt_field(ps, at2) {
        None => return None,
        Some(x) => x,
    };
    let (n, at4) = match read_u64(ps, at3) {
        None => return None,
        Some(x) => x,
    };
    let (proofs, at5) = match read_proofs(ps, at4, n) {
        None => return None,
        Some(x) => x,
    };
    if at5 != ps.len() {
        return None;
    }
    Some(Token { mint_url, unit, memo, proofs })
}

/// What cdk's parser reads from a token string in the format mints and wallets exchange.
pub uninterp spec fn cashu_token_of(s: Seq<char>) -> Option<TokenView>;

/// Relies on cdk's `Token::from_str`, which reads the exchanged token formats; the proofs are
/// read through cdk's rewriting of the token in its older format (`to_v3_string`). A token of several
/// mints is refused by cdk's `Token::mint_url`; a token without a unit is read, as cdk's wallet
/// reads it, in cdk's default unit.
#[verifier::external_body]
fn parse_cashu_token(s: &str) -> (r: Option<Token>)
    ensures
        match r {
            Some(t) => cashu_token_of(s@) == Some(t@),
            None => cashu_token_of(s@) is None,
        },
{
    let t: CashuToken = s.parse().ok()?;
    let bytes = |x: &dyn ToString| x.to_string().into_bytes();
    let v3: TokenV3 = t.to_v3_string().parse().ok()?;
    Some(Token {
        mint_url: bytes(&t.mint_url().ok()?),
        unit: bytes(&v3.unit.unwrap_or_default()),
        memo: v3.memo.map(String::into_bytes),
        proofs: v3.token.into_iter().flat_map(|m| m.proofs).map(|p| Proof {
            keyset_id: bytes(&p.keyset_id),
            amount: p.amount.to_u64(),
            secret: bytes(&p.secret),
            signature: bytes(&p.c),
            witness: p.witness.map(|w| bytes(&w)),
        }).collect(),
    })
}

/// Reads a token string in the format mints and wallets exchange.
pub fn decode_cashu_token(s: &str) -> (r: Result<Token, WalletError>)
    ensures
        match r {
            Ok(t) => cashu_token_of(s@) == Some(t@),
            Err(e) => e == WalletError::MalformedToken && cashu_token_of(s@) is None,
        },
{
    match parse_cashu_token(s) {
        Some(t) => Ok(t),
        None => Err(WalletError::MalformedToken),
    }
}

/// The sum of a token's proofs, or `None` where it does not fit in 64 bits.
pub fn token_value(t: &Token) -> (r: Option<u64>)
    ensures
        r matches Some(v) ==> v == proofs_sum(t@.proofs),
        r is None ==> proofs_sum(t@.proofs) > u64::MAX,
{
    let mut sum: u64 = 0;
    let mut i: usize = 0;
    while i < t.proofs.len()
        invariant
            i <= t.proofs@.len(),
            sum == proofs_sum(t@.proofs.take(i as int)),
        decreases t.proofs@.len() - i,
    {
        proof {
            assert(t@.proofs.take(i + 1).drop_last() =~= t@.proofs.take(i as int));
        }
        if t.proofs[i].amount > u64::MAX - sum {
            proof {
                lemma_proofs_sum_prefix(t@.proofs, i + 1);
            }
            return None;
        }
        sum = sum + t.proofs[i].amount;
        i = i + 1;
    }
    assert(t@.proofs.take(i as int) =~= t@.proofs);
    Some(sum)
}

/// The sum of the proofs' amounts.
pub open spec fn proofs_sum(ps: Seq<ProofView>) -> int
    decreases ps.len(),
{
    if ps.len() == 0 {
        0
    } else {
        proofs_sum(ps.drop_last()) + ps.last().amount as int
    }
}

proof fn lemma_proofs_sum_prefix(s: Seq<ProofView>, n: int)
    requires
        0 <= n <= s.len(),
    ensures
        proofs_sum(s.take(n)) <= proofs_sum(s),
    decreases s.len() - n,
{
    if n < s.len() {
        lemma_proofs_sum_prefix(s, n + 1);
        assert(s.take(n + 1).drop_last() =~= s.take(n));
    } else {
        assert(s.take(n) =~= s);
    }
}

} // verus!
