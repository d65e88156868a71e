use weasel::generator::{
    generate_crossover, generate_mutated, generate_random_character, generate_random_string,
};

fn chars(s: &str) -> Vec<char> {
    s.chars().collect()
}

#[test]
fn random_character_from_singleton_alphabet_is_that_symbol() {
    let alphabet = chars("z");
    for _ in 0..20 {
        assert_eq!(generate_random_character(&alphabet), 'z');
    }
}

#[test]
fn random_string_has_requested_length_and_alphabet_symbols() {
    let alphabet = chars("ab");
    for len in [0usize, 1, 5, 28] {
        let s = generate_random_string(&alphabet, len);
        assert_eq!(s.len(), len);
        assert!(s.iter().all(|c| *c == 'a' || *c == 'b'));
    }
}

#[test]
fn mutate_with_rate_zero_is_identity() {
    let alphabet = chars("abc");
    let x = chars("cab");
    for _ in 0..10 {
        assert_eq!(generate_mutated(&alphabet, &x, 0, 1), x);
    }
}

#[test]
fn mutate_with_rate_one_redraws_every_position() {
    let alphabet = chars("ab");
    let x = chars("zzzz");
    for _ in 0..10 {
        let m = generate_mutated(&alphabet, &x, 1, 1);
        assert_eq!(m.len(), x.len());
        assert!(m.iter().all(|c| *c == 'a' || *c == 'b'));
    }
}

#[test]
fn mutate_keeps_length_and_never_invents_symbols() {
    let alphabet = chars("abc");
    let x = chars("abcabc");
    for _ in 0..20 {
        let m = generate_mutated(&alphabet, &x, 1, 2);
        assert_eq!(m.len(), x.len());
        for (i, c) in m.iter().enumerate() {
            assert!(*c == x[i] || *c == 'a' || *c == 'b' || *c == 'c');
        }
    }
}

#[test]
fn crossover_of_equal_parents_reproduces_them() {
    let x = chars("weasel");
    for _ in 0..10 {
        assert_eq!(generate_crossover(&x, &x), x);
    }
}

#[test]
fn crossover_takes_each_position_from_one_parent() {
    let a = chars("aaaa");
    let b = chars("bbbb");
    for _ in 0..20 {
        let c = generate_crossover(&a, &b);
        assert_eq!(c.len(), 4);
        assert!(c.iter().all(|s| *s == 'a' || *s == 'b'));
    }
}
