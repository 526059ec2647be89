use restart_signals::identity::{Identity, IdentityParseError};
use solana_program::pubkey::Pubkey;

const VOTE_PROGRAM: [u8; 32] = [
    7, 97, 72, 29, 53, 116, 116, 187, 124, 77, 118, 36, 235, 211, 189, 179, 216, 53, 94, 115, 209,
    16, 67, 252, 13, 163, 83, 128, 0, 0, 0, 0,
];

#[test]
fn parse_reads_the_all_zero_identity() {
    let id = Identity::parse("11111111111111111111111111111111").unwrap();
    assert_eq!(id.to_bytes(), [0u8; 32]);
}

#[test]
fn parse_reads_a_known_address() {
    let id = Identity::parse("Vote111111111111111111111111111111111111111").unwrap();
    assert_eq!(id.to_bytes(), VOTE_PROGRAM);
}

#[test]
fn parse_inverts_the_text_form_of_a_key() {
    for seed in [1u8, 7, 200, 255] {
        let mut bytes = [seed; 32];
        bytes[0] = 3;
        bytes[31] = seed.wrapping_mul(5);
        let text = Pubkey::new_from_array(bytes).to_string();
        let id = Identity::parse(&text).unwrap();
        assert_eq!(id.to_bytes(), bytes);
        assert_eq!(id, Identity::new(bytes));
    }
}

#[test]
fn parse_refuses_a_text_that_is_not_base58() {
    let parsed = Identity::parse("not base58 at all: 0OIl");
    assert_eq!(parsed.unwrap_err(), IdentityParseError::Invalid);
}

#[test]
fn parse_refuses_a_text_that_is_too_long() {
    let text = "1".repeat(45);
    assert_eq!(Identity::parse(&text).unwrap_err(), IdentityParseError::WrongSize);
}

#[test]
fn parse_refuses_a_text_that_decodes_to_fewer_bytes() {
    assert_eq!(Identity::parse("1").unwrap_err(), IdentityParseError::WrongSize);
    assert_eq!(Identity::parse("").unwrap_err(), IdentityParseError::WrongSize);
    assert_eq!(Identity::parse("3yZe7d").unwrap_err(), IdentityParseError::WrongSize);
}

#[test]
fn identities_are_equal_when_their_bytes_are() {
    let a = Identity::new([9u8; 32]);
    let b = Identity::new([9u8; 32]);
    let mut other = [9u8; 32];
    other[31] = 8;
    let c = Identity::new(other);
    assert!(a == b);
    assert!(a != c);
    assert_eq!(a.to_bytes().len(), 32);
}
