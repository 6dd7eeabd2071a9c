use quanjp::bignat::BigNat;
use quanjp::symbols::collapse;
use quanjp::token::{push_decimal, push_i64, to_decimal_string, to_hex_lower, PhaseToken};
use sha3::{Digest, Sha3_512};

#[test]
fn decimal_forms() {
    assert_eq!(to_decimal_string(&BigNat::from_u32(0)), "0");
    assert_eq!(to_decimal_string(&BigNat::from_u32(4294967295)), "4294967295");
    let mut s = String::new();
    push_decimal(&mut s, 0);
    push_decimal(&mut s, 1200);
    assert_eq!(s, "01200");
    let mut t = String::new();
    push_i64(&mut t, -42);
    push_i64(&mut t, i64::MIN);
    assert_eq!(t, "-42-9223372036854775808");
}

#[test]
fn hex_encoding() {
    assert_eq!(to_hex_lower(&[0x00, 0x0f, 0xa5, 0xff]), "000fa5ff");
    assert_eq!(to_hex_lower(&[]), "");
}

#[test]
fn token_hashes_match_sha3() {
    let prime = collapse(&[-1, -1, 1]); // 31
    let tok = PhaseToken::new("QuanJP-Symbolic-2-20260101-#01", 1772305980122, &prime);
    let mut h = Sha3_512::new();
    h.update("QuanJP-Symbolic-2-20260101-#01".as_bytes());
    h.update(1772305980122i64.to_be_bytes());
    let session = format!("{:x}", h.finalize_reset());
    h.update("31".as_bytes());
    let result = format!("{:x}", h.finalize());
    assert_eq!(tok.timestamp, 1772305980122);
    assert_eq!(tok.session_hash, session);
    assert_eq!(tok.result_hash, result);
    assert_eq!(tok.session_hash.len(), 128);
}

#[test]
fn token_with_negative_timestamp() {
    let tok = PhaseToken::new("s", -1, &BigNat::from_u32(7));
    let mut h = Sha3_512::new();
    h.update("s".as_bytes());
    h.update((-1i64).to_be_bytes());
    assert_eq!(tok.session_hash, format!("{:x}", h.finalize()));
}

#[test]
fn token_text_block() {
    let tok = PhaseToken {
        timestamp: 1772305980122,
        session_hash: "ab".to_string(),
        result_hash: "cd".to_string(),
    };
    assert_eq!(
        tok.to_string_full(),
        "PhaseToken\n==========\nTimestamp: 1772305980122\nSession Hash: ab\nResult Hash: cd\n"
    );
}
