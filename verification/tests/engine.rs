use bpe_core::syntax::is_safe_pattern;
use fancy_regex::Expr;

fn holds_reference(e: &Expr) -> bool {
    match e {
        Expr::Backref(_) | Expr::KeepOut | Expr::BackrefExistsCondition(_) => true,
        Expr::Conditional { .. } => true,
        Expr::Concat(v) | Expr::Alt(v) => v.iter().any(holds_reference),
        Expr::Group(c) | Expr::AtomicGroup(c) | Expr::LookAround(c, _) => holds_reference(c),
        Expr::Repeat { child, .. } => holds_reference(child),
        _ => false,
    }
}

fn next(state: &mut u64) -> usize {
    *state = state.wrapping_mul(6364136223846793005).wrapping_add(1442695040888963407);
    (*state >> 33) as usize
}

fn sample(state: &mut u64, alphabet: &[&str], longest: usize) -> String {
    let n = next(state) % (longest + 1);
    let mut s = String::new();
    for _ in 0..n {
        s.push_str(alphabet[next(state) % alphabet.len()]);
    }
    s
}

fn compare_with_the_engine(seed: u64, alphabet: &[&str], longest: usize, count: usize) {
    let mut state = seed;
    for _ in 0..count {
        let pattern = sample(&mut state, alphabet, longest);
        if is_safe_pattern(&pattern) {
            if let Ok(tree) = Expr::parse_tree(&pattern) {
                assert!(!holds_reference(&tree.expr), "taken: {:?}", pattern);
            }
        } else if !pattern.contains("?(") {
            if let Ok(tree) = Expr::parse_tree(&pattern) {
                if !holds_reference(&tree.expr) {
                    assert!(fancy_regex::Regex::new(&pattern).is_err(), "not taken: {:?}", pattern);
                }
            }
        }
    }
}

#[test]
fn reading_agrees_with_the_engine_on_groups_and_escapes() {
    let alphabet = ["a", "1", "\\", "(", ")", "?", "|", "k", "K", "P", "=", "<", ">", "!", ":", "x", " ", "#", "\n", "-", "i"];
    compare_with_the_engine(1, &alphabet, 9, 150_000);
}

#[test]
fn reading_agrees_with_the_engine_on_classes_and_repeats() {
    let alphabet = ["a", "2", "\\", "(", ")", "?", "[", "]", "^", "{", "}", ",", "+", "*", "x", " ", "p", "u", "|", ".", "$"];
    compare_with_the_engine(2, &alphabet, 9, 150_000);
}

#[test]
fn reading_agrees_with_the_engine_on_longer_forms() {
    let alphabet = [
        "(?x)", "(?x:", "(?-x)", "(?i)", "(?#", ")", "(", " ", "#", "\n", "?(", "?P=n", "(?P<n>", "(?<n>", "\\1", "\\k<n>",
        "\\K", "\\\\", "a", "?", "|", "(?=", "(?<=", "(?!", "[", "]", "{2}", "{1,2}", "\\x{41}", "\\p{L}", "\\pL", "\\G", "\\b",
    ];
    let mut state = 3u64;
    for _ in 0..150_000 {
        let pattern = sample(&mut state, &alphabet, 7);
        if is_safe_pattern(&pattern) {
            if let Ok(tree) = Expr::parse_tree(&pattern) {
                assert!(!holds_reference(&tree.expr), "taken: {:?}", pattern);
            }
        }
    }
}
