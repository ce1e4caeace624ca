use markov_text::{Token, TokenSampler};

#[test]
fn new_sampler_is_empty() {
    let s = TokenSampler::new();
    assert_eq!(s.token_count(), 0);
    assert_eq!(s.occurrences(Token::Start), 0);
    assert_eq!(s.occurrences(Token::Text('a')), 0);
}

#[test]
fn add_token_counts_each_token() {
    let mut s = TokenSampler::new();
    s.add_token(Token::Text('a'));
    s.add_token(Token::Text('b'));
    s.add_token(Token::Text('a'));
    assert_eq!(s.token_count(), 3);
    assert_eq!(s.occurrences(Token::Text('a')), 2);
    assert_eq!(s.occurrences(Token::Text('b')), 1);
    assert_eq!(s.occurrences(Token::End), 0);
}

#[test]
fn total_equals_sum_of_counts_after_random_inserts() {
    let alphabet = [
        Token::Text('x'),
        Token::Text('y'),
        Token::Text('z'),
        Token::End,
    ];
    let mut state: u64 = 0x9e37_79b9_7f4a_7c15;
    for round in 0..20 {
        let mut s = TokenSampler::new();
        let n = 1 + round * 7;
        for _ in 0..n {
            state = state.wrapping_mul(6364136223846793005).wrapping_add(1442695040888963407);
            let t = alphabet[(state >> 33) as usize % alphabet.len()];
            s.add_token(t);
        }
        let sum: usize = alphabet.iter().map(|t| s.occurrences(*t)).sum();
        assert_eq!(s.token_count(), n);
        assert_eq!(sum, s.token_count());
    }
}

#[test]
fn sample_at_lays_out_counts_in_order() {
    let mut s = TokenSampler::new();
    for _ in 0..3 {
        s.add_token(Token::Text('A'));
    }
    s.add_token(Token::Text('B'));
    assert_eq!(s.sample_at(0), Token::Text('A'));
    assert_eq!(s.sample_at(1), Token::Text('A'));
    assert_eq!(s.sample_at(2), Token::Text('A'));
    assert_eq!(s.sample_at(3), Token::Text('B'));
}

#[test]
fn sample_of_single_token_returns_it() {
    let mut s = TokenSampler::new();
    s.add_token(Token::End);
    for _ in 0..20 {
        assert_eq!(s.sample(), Token::End);
    }
}

#[test]
fn sampling_follows_the_counts() {
    let mut s = TokenSampler::new();
    for _ in 0..3 {
        s.add_token(Token::Text('A'));
    }
    s.add_token(Token::Text('B'));
    let draws = 20000;
    let mut a = 0;
    let mut b = 0;
    for _ in 0..draws {
        match s.sample() {
            Token::Text('A') => a += 1,
            Token::Text('B') => b += 1,
            other => panic!("unexpected token {:?}", other),
        }
    }
    let fa = a as f64 / draws as f64;
    let fb = b as f64 / draws as f64;
    assert!((fa - 0.75).abs() < 0.03, "share of A: {}", fa);
    assert!((fb - 0.25).abs() < 0.03, "share of B: {}", fb);
}
