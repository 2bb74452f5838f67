use garage_k2v::causal::CausalContext;
use garage_k2v::token::TokenError;

#[test]
fn token_layout_is_big_endian_pairs() {
    let c = CausalContext { entries: vec![(1, 0x0102030405060708)] };
    assert_eq!(c.to_token(), vec![0, 0, 0, 0, 0, 0, 0, 1, 1, 2, 3, 4, 5, 6, 7, 8]);
    assert!(CausalContext::new().to_token().is_empty());
}

#[test]
fn token_round_trips() {
    let c = CausalContext { entries: vec![(0, u64::MAX), (3, 9), (u64::MAX, 1)] };
    let t = c.to_token();
    assert_eq!(t.len(), 48);
    let d = CausalContext::from_token(&t).unwrap();
    assert_eq!(d.entries, c.entries);
}

#[test]
fn token_of_wrong_length_is_invalid() {
    assert!(matches!(CausalContext::from_token(&vec![0u8; 15]), Err(TokenError::InvalidToken)));
    assert!(matches!(CausalContext::from_token(&vec![0u8; 17]), Err(TokenError::InvalidToken)));
    assert!(CausalContext::from_token(&vec![]).unwrap().entries.is_empty());
}

#[test]
fn different_contexts_give_different_tokens() {
    let a = CausalContext { entries: vec![(1, 2)] };
    let b = CausalContext { entries: vec![(1, 3)] };
    assert_ne!(a.to_token(), b.to_token());
}

#[test]
fn non_canonical_token_is_invalid() {
    let unsorted = CausalContext { entries: vec![(3, 1), (1, 1)] };
    assert!(matches!(CausalContext::from_token(&unsorted.to_token()), Err(TokenError::InvalidToken)));
    let zero = CausalContext { entries: vec![(1, 0)] };
    assert!(matches!(CausalContext::from_token(&zero.to_token()), Err(TokenError::InvalidToken)));
}

#[test]
fn contexts_built_by_writes_are_canonical() {
    let mut c = CausalContext::new();
    c.advance(9, 2);
    c.advance(1, 5);
    c.advance(4, 0);
    c.join(&CausalContext { entries: vec![(4, 3), (9, 1)] });
    assert!(c.is_canonical());
    assert_eq!(c.entries, vec![(1, 5), (4, 3), (9, 2)]);
    let mut d = CausalContext::new();
    d.advance(4, 3);
    d.advance(9, 2);
    d.advance(1, 5);
    assert_eq!(c.to_token(), d.to_token());
}
