use solvers::memory::{evaluate_instructions, multiply_str, scan_memory};

#[test]
fn multiply_parses_tokens() {
    assert_eq!(multiply_str("mul(2,4)"), 8);
    assert_eq!(multiply_str("mul(11,8)"), 88);
    assert_eq!(multiply_str("mul(,)"), 0);
    assert_eq!(multiply_str("mul(5)"), 0);
    assert_eq!(multiply_str("x"), 0);
}

#[test]
fn evaluation_honors_toggles() {
    let tokens: Vec<String> = vec![
        "mul(2,4)".to_string(),
        "don't()".to_string(),
        "mul(5,5)".to_string(),
        "do()".to_string(),
        "mul(8,5)".to_string(),
    ];
    assert_eq!(evaluate_instructions(&tokens), Some((73, 48)));
}

#[test]
fn scan_finds_instructions() {
    let content =
        "xmul(2,4)%&mul[3,7]!^don't()_mul(5,5)+mul(32,64](mul(11,8)undo()?mul(8,5))";
    assert_eq!(scan_memory(content), Some((161, 48)));
}

#[test]
fn scan_without_instructions_is_zero() {
    assert_eq!(scan_memory("nothing here"), Some((0, 0)));
}
