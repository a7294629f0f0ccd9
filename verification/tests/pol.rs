use fvcs::pol::{digest_for, meets_difficulty, solve, try_solve, verify};

#[test]
fn difficulty_bits() {
    assert!(meets_difficulty(&[0b0000_1000, 0xFF], 4));
    assert!(!meets_difficulty(&[0b0000_1000, 0xFF], 5));
    assert!(meets_difficulty(&[0, 0x0F, 0xFF], 12));
    assert!(!meets_difficulty(&[0, 0x0F, 0xFF], 13));
    assert!(meets_difficulty(&[0xFF], 0));
}

#[test]
fn solve_and_verify() {
    let nonce = solve("test-challenge", 10);
    assert!(verify("test-challenge", nonce, 10));
    assert!(!verify("other-challenge", nonce, 10));
}

#[test]
fn try_solve_gives_smallest_nonce() {
    let n = try_solve("abc", 6).unwrap();
    assert!(verify("abc", n, 6));
    for m in 0..n {
        assert!(!verify("abc", m, 6));
    }
}

#[test]
fn digest_is_sha256_of_challenge_and_nonce() {
    // sha256("x:0")
    let d = digest_for("x", 0);
    assert_eq!(d.len(), 32);
    let hex: String = d.iter().map(|b| format!("{b:02x}")).collect();
    assert_eq!(hex, fvcs::object::hash_bytes(b"x:0"));
    assert_ne!(digest_for("x", 1), d);
}

#[test]
fn more_bits_than_digest_fail() {
    assert!(!meets_difficulty(&[0, 0], 17));
    assert!(meets_difficulty(&[0, 0], 16));
    assert!(meets_difficulty(&[], 0));
}
