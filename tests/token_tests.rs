use cashu_tool::error::WalletError;
use cashu_tool::token::{decode_cashu_token, decode_token, encode_token, token_value, Proof, Token};

fn make_proof(amount: u64, secret: &str, witness: Option<&str>) -> Proof {
    Proof {
        keyset_id: b"009a1f293253e41e".to_vec(),
        amount,
        secret: secret.as_bytes().to_vec(),
        signature: b"02698c4e2b5f9534cd0687d87513c759790cf829aa5739184a3e3735471fbda904".to_vec(),
        witness: witness.map(|w| w.as_bytes().to_vec()),
    }
}

fn sample() -> Token {
    Token {
        mint_url: b"https://mint.example.com".to_vec(),
        unit: b"sat".to_vec(),
        memo: Some(b"thank you".to_vec()),
        proofs: vec![make_proof(2, "407915bc212be61a77e3e6d2aeb4c727", None), make_proof(8, "fe15109314e61d7756b0f8ee0f23a624", Some("sig"))],
    }
}

#[test]
fn token_round_trip() {
    let t = sample();
    let s = encode_token(&t);
    assert_eq!(decode_token(&s), Ok(t));
}

#[test]
fn token_round_trip_without_memo_or_proofs() {
    let t = Token { mint_url: vec![], unit: b"usd".to_vec(), memo: None, proofs: vec![] };
    assert_eq!(decode_token(&encode_token(&t)), Ok(t));
}

#[test]
fn token_string_is_tagged_and_hex() {
    let s = encode_token(&sample());
    assert!(s.starts_with(b"ecash1"));
    assert!(s[6..].iter().all(|c| c.is_ascii_digit() || (b'a'..=b'f').contains(c)));
    assert_eq!(s.len() % 2, 0);
}

#[test]
fn token_unknown_version_is_refused() {
    let mut s = encode_token(&sample());
    s[5] = b'2';
    assert_eq!(decode_token(&s), Err(WalletError::UnsupportedVersion));
}

#[test]
fn token_bad_prefix_is_malformed() {
    assert_eq!(decode_token(b"cashuAabc"), Err(WalletError::MalformedToken));
    assert_eq!(decode_token(b""), Err(WalletError::MalformedToken));
}

#[test]
fn token_truncated_is_malformed() {
    let s = encode_token(&sample());
    assert_eq!(decode_token(&s[..s.len() - 2]), Err(WalletError::MalformedToken));
    let mut odd = s.clone();
    odd.push(b'0');
    assert_eq!(decode_token(&odd), Err(WalletError::MalformedToken));
    let mut bad = s.clone();
    let n = bad.len();
    bad[n - 1] = b'g';
    assert_eq!(decode_token(&bad), Err(WalletError::MalformedToken));
}

#[test]
fn token_trailing_bytes_are_malformed() {
    let mut s = encode_token(&sample());
    s.extend_from_slice(b"00");
    assert_eq!(decode_token(&s), Err(WalletError::MalformedToken));
}

#[test]
fn exchanged_token_format_is_read() {
    let s = "cashuAeyJ0b2tlbiI6W3sibWludCI6Imh0dHBzOi8vODMzMy5zcGFjZTozMzM4IiwicHJvb2ZzIjpbeyJhbW91bnQiOjIsImlkIjoiMDA5YTFmMjkzMjUzZTQxZSIsInNlY3JldCI6IjQwNzkxNWJjMjEyYmU2MWE3N2UzZTZkMmFlYjRjNzI3OTgwYmRhNTFjZDA2YTZhZmMyOWUyODYxNzY4YTc4MzciLCJDIjoiMDJiYzkwOTc5OTdkODFhZmIyY2M3MzQ2YjVlNDM0NWE5MzQ2YmQyYTUwNmViNzk1ODU5OGE3MmYwY2Y4NTE2M2VhIn0seyJhbW91bnQiOjgsImlkIjoiMDA5YTFmMjkzMjUzZTQxZSIsInNlY3JldCI6ImZlMTUxMDkzMTRlNjFkNzc1NmIwZjhlZTBmMjNhNjI0YWNhYTNmNGUwNDJmNjE0MzNjNzI4YzcwNTdiOTMxYmUiLCJDIjoiMDI5ZThlNTA1MGI4OTBhN2Q2YzA5NjhkYjE2YmMxZDVkNWZhMDQwZWExZGUyODRmNmVjNjlkNjEyOTlmNjcxMDU5In1dfV0sInVuaXQiOiJzYXQiLCJtZW1vIjoiVGhhbmsgeW91LiJ9";
    let t = decode_cashu_token(s).unwrap();
    assert_eq!(t.mint_url, b"https://8333.space:3338".to_vec());
    assert_eq!(t.unit, b"sat".to_vec());
    assert_eq!(t.memo, Some(b"Thank you.".to_vec()));
    assert_eq!(t.proofs.len(), 2);
    assert_eq!(t.proofs[0].amount, 2);
    assert_eq!(t.proofs[0].keyset_id, b"009a1f293253e41e".to_vec());
    assert_eq!(token_value(&t), Some(10));
}

#[test]
fn garbage_is_no_exchanged_token() {
    assert_eq!(decode_cashu_token("cashuAnot-a-token"), Err(WalletError::MalformedToken));
    assert_eq!(decode_cashu_token(""), Err(WalletError::MalformedToken));
}
