use markov_text::{Generation, MarkovTextModel, Token};

fn generate<const L: usize>(model: &MarkovTextModel<L>) -> String {
    assert!(model.can_generate());
    let mut g: Generation = model.start_generation();
    let mut steps = 0;
    while !g.finished() {
        model.advance(&mut g);
        steps += 1;
        assert!(steps < 10_000);
    }
    g.into_text()
}

#[test]
fn tokenize_empty_text() {
    let m1 = MarkovTextModel::<1>::new();
    assert_eq!(m1.tokenize(""), vec![Token::Start, Token::End]);
    let m3 = MarkovTextModel::<3>::new();
    assert_eq!(
        m3.tokenize(""),
        vec![Token::Start, Token::Start, Token::Start, Token::End]
    );
}

#[test]
fn tokenize_wraps_each_character() {
    let m = MarkovTextModel::<2>::new();
    assert_eq!(
        m.tokenize("aé"),
        vec![
            Token::Start,
            Token::Start,
            Token::Text('a'),
            Token::Text('é'),
            Token::End
        ]
    );
}

#[test]
fn new_model_knows_nothing() {
    let m = MarkovTextModel::<2>::new();
    assert!(!m.can_generate());
    assert_eq!(m.observation_count(), 0);
    assert_eq!(m.successor_count(&vec![Token::Start, Token::Start], Token::End), 0);
}

#[test]
fn training_records_each_window() {
    let mut m = MarkovTextModel::<1>::new();
    m.add_sample_text("ab");
    assert_eq!(m.observation_count(), 3);
    assert_eq!(m.successor_count(&vec![Token::Start], Token::Text('a')), 1);
    assert_eq!(m.successor_count(&vec![Token::Text('a')], Token::Text('b')), 1);
    assert_eq!(m.successor_count(&vec![Token::Text('b')], Token::End), 1);
    assert_eq!(m.successor_count(&vec![Token::Text('a')], Token::End), 0);
    assert!(m.can_generate());
}

#[test]
fn training_with_longer_context() {
    let mut m = MarkovTextModel::<2>::new();
    m.add_sample_text("abc");
    assert_eq!(m.observation_count(), 4);
    assert_eq!(
        m.successor_count(&vec![Token::Start, Token::Start], Token::Text('a')),
        1
    );
    assert_eq!(
        m.successor_count(&vec![Token::Start, Token::Text('a')], Token::Text('b')),
        1
    );
    assert_eq!(
        m.successor_count(&vec![Token::Text('a'), Token::Text('b')], Token::Text('c')),
        1
    );
    assert_eq!(
        m.successor_count(&vec![Token::Text('b'), Token::Text('c')], Token::End),
        1
    );
}

#[test]
fn one_character_context_on_ab_only_generates_ab() {
    let mut m = MarkovTextModel::<1>::new();
    m.add_sample_texts(&vec!["ab"]);
    for _ in 0..100 {
        assert_eq!(generate(&m), "ab");
    }
}

#[test]
fn generated_text_comes_from_training_contexts() {
    let mut m = MarkovTextModel::<4>::new();
    m.add_sample_texts(&vec!["Math is dumb", "Timo is cool"]);
    for _ in 0..200 {
        let text = generate(&m);
        assert!(text.starts_with("Math") || text.starts_with("Timo"), "{}", text);
    }
}

#[test]
fn untrained_model_has_no_start_context() {
    let mut m = MarkovTextModel::<1>::new();
    m.add_sample_texts(&vec![]);
    assert!(!m.can_generate());
    assert_eq!(m.observation_count(), 0);
}

#[test]
fn training_twice_doubles_counts() {
    let mut once = MarkovTextModel::<1>::new();
    once.add_sample_texts(&vec!["ab", "cd"]);
    let mut twice = MarkovTextModel::<1>::new();
    twice.add_sample_texts(&vec!["ab", "cd"]);
    twice.add_sample_texts(&vec!["ab", "cd"]);
    assert_eq!(twice.observation_count(), 2 * once.observation_count());
    let start = vec![Token::Start];
    for t in [Token::Text('a'), Token::Text('c'), Token::Text('b'), Token::End] {
        assert_eq!(
            twice.successor_count(&start, t),
            2 * once.successor_count(&start, t)
        );
    }
    assert_eq!(twice.successor_count(&start, Token::Text('a')), 2);
    assert_eq!(twice.successor_count(&vec![Token::Text('c')], Token::Text('d')), 2);
    assert_eq!(twice.successor_count(&vec![Token::Text('d')], Token::End), 2);
}

#[test]
fn text_shorter_than_context_still_has_windows() {
    let mut m = MarkovTextModel::<3>::new();
    m.add_sample_text("a");
    assert_eq!(m.observation_count(), 2);
    let s = Token::Start;
    assert_eq!(m.successor_count(&vec![s, s, s], Token::Text('a')), 1);
    assert_eq!(m.successor_count(&vec![s, s, Token::Text('a')], Token::End), 1);
}

#[test]
fn empty_text_records_start_to_end() {
    let mut m = MarkovTextModel::<2>::new();
    m.add_sample_text("");
    assert_eq!(m.observation_count(), 1);
    assert_eq!(m.successor_count(&vec![Token::Start, Token::Start], Token::End), 1);
    assert_eq!(generate(&m), "");
}

#[test]
fn advance_with_follows_the_draw() {
    let mut m = MarkovTextModel::<1>::new();
    m.add_sample_texts(&vec!["ab", "ac"]);
    let mut g = m.start_generation();
    assert_eq!(m.draw_bound(&g), 2);
    m.advance_with(&mut g, 1);
    assert!(!g.finished());
    assert_eq!(m.draw_bound(&g), 2);
    m.advance_with(&mut g, 1);
    assert!(!g.finished());
    assert_eq!(m.draw_bound(&g), 1);
    m.advance_with(&mut g, 0);
    assert!(g.finished());
    assert_eq!(g.into_text(), "ac");

    let mut g2 = m.start_generation();
    m.advance_with(&mut g2, 0);
    m.advance_with(&mut g2, 0);
    m.advance_with(&mut g2, 0);
    assert!(g2.finished());
    assert_eq!(g2.into_text(), "ab");
}

#[test]
fn training_twice_doubles_context_totals() {
    let mut once = MarkovTextModel::<1>::new();
    once.add_sample_texts(&vec!["ab", "cd"]);
    let mut twice = MarkovTextModel::<1>::new();
    twice.add_sample_texts(&vec!["ab", "cd"]);
    twice.add_sample_texts(&vec!["ab", "cd"]);
    let g1 = once.start_generation();
    let g2 = twice.start_generation();
    assert_eq!(once.draw_bound(&g1), 2);
    assert_eq!(twice.draw_bound(&g2), 4);
}
