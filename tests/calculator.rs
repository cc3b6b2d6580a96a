use gf256::field::GF256;
use gf256::inverse::{DivisionByZero, InverseTable};
use gf256::rpn::{execute, parse_command, parse_literal, split_tokens, tokens, Command};

fn chars(s: &str) -> Vec<char> {
    s.chars().collect()
}

fn run(stack: &mut Vec<GF256>, table: &InverseTable, line: &str) -> Result<bool, DivisionByZero> {
    for tok in tokens(line) {
        let cmd = parse_command(&tok);
        if cmd == Command::Quit {
            return Ok(false);
        }
        execute(stack, table, cmd)?;
    }
    Ok(true)
}

fn values(stack: &[GF256]) -> Vec<u8> {
    stack.iter().map(|e| e.value()).collect()
}

#[test]
fn decimal_and_hex_literals_agree() {
    assert_eq!(parse_literal(&chars("170")), Some(170));
    assert_eq!(parse_literal(&chars("0xaa")), Some(170));
    assert_eq!(parse_literal(&chars("170")), parse_literal(&chars("0xaa")));
}

#[test]
fn literal_grammar() {
    assert_eq!(parse_literal(&chars("10")), Some(10));
    assert_eq!(parse_literal(&chars("ff")), Some(255));
    assert_eq!(parse_literal(&chars("FF")), Some(255));
    assert_eq!(parse_literal(&chars("+7")), Some(7));
    assert_eq!(parse_literal(&chars("0x0x1b")), Some(0x1b));
    assert_eq!(parse_literal(&chars("0255")), Some(255));
    assert_eq!(parse_literal(&chars("256")), None);
    assert_eq!(parse_literal(&chars("0x100")), None);
    assert_eq!(parse_literal(&chars("0x")), None);
    assert_eq!(parse_literal(&chars("")), None);
    assert_eq!(parse_literal(&chars("-1")), None);
    assert_eq!(parse_literal(&chars("g")), None);
}

#[test]
fn commands() {
    assert_eq!(parse_command(&chars("+")), Command::Add);
    assert_eq!(parse_command(&chars("^")), Command::Add);
    assert_eq!(parse_command(&chars("-")), Command::Add);
    assert_eq!(parse_command(&chars("*")), Command::Mul);
    assert_eq!(parse_command(&chars("/")), Command::Div);
    assert_eq!(parse_command(&chars("_d")), Command::Dump);
    assert_eq!(parse_command(&chars("_c")), Command::Clear);
    assert_eq!(parse_command(&chars("0x1b")), Command::Push(0x1b));
    assert_eq!(parse_command(&chars("quit")), Command::Quit);
    assert_eq!(parse_command(&chars("")), Command::Quit);
}

#[test]
fn splitting() {
    assert_eq!(split_tokens("3 5 *"), vec![chars("3"), chars("5"), chars("*")]);
    assert_eq!(split_tokens("3  5"), vec![chars("3"), chars(""), chars("5")]);
    assert_eq!(split_tokens(""), vec![chars("")]);
    assert_eq!(tokens("  3 5\n"), vec![chars("3"), chars("5")]);
}

#[test]
fn multiply_scenario() {
    let t = InverseTable::build();
    let mut stack = Vec::new();
    assert_eq!(run(&mut stack, &t, "3 5 *"), Ok(true));
    assert_eq!(values(&stack), vec![0x0f]);
    assert_eq!(stack[0].to_hex_string(), "0f");
}

#[test]
fn clear_scenario() {
    let t = InverseTable::build();
    let mut stack = Vec::new();
    assert_eq!(run(&mut stack, &t, "1 2 3 0xff"), Ok(true));
    assert_eq!(run(&mut stack, &t, "_c"), Ok(true));
    assert!(stack.is_empty());
    assert_eq!(run(&mut stack, &t, "_c"), Ok(true));
    assert!(stack.is_empty());
}

#[test]
fn divide_equal_scenario() {
    let t = InverseTable::build();
    let mut stack = Vec::new();
    assert_eq!(run(&mut stack, &t, "255 255 /"), Ok(true));
    assert_eq!(values(&stack), vec![1]);
}

#[test]
fn divide_zero_dividend_scenario() {
    let t = InverseTable::build();
    let mut stack = Vec::new();
    assert_eq!(run(&mut stack, &t, "0 5 /"), Ok(true));
    assert_eq!(values(&stack), vec![0]);
}

#[test]
fn divide_by_zero_scenario() {
    let t = InverseTable::build();
    let mut stack = Vec::new();
    assert_eq!(run(&mut stack, &t, "5 0 /"), Err(DivisionByZero));
    assert_eq!(values(&stack), vec![5, 0]);
    let mut empty = Vec::new();
    assert_eq!(run(&mut empty, &t, "/"), Err(DivisionByZero));
    assert!(empty.is_empty());
}

#[test]
fn operators_on_short_stacks() {
    let t = InverseTable::build();
    let mut stack = Vec::new();
    assert_eq!(run(&mut stack, &t, "*"), Ok(true));
    assert_eq!(values(&stack), vec![1]);
    assert_eq!(run(&mut stack, &t, "_c +"), Ok(true));
    assert_eq!(values(&stack), vec![0]);
    assert_eq!(run(&mut stack, &t, "_c 7 *"), Ok(true));
    assert_eq!(values(&stack), vec![7]);
    assert_eq!(run(&mut stack, &t, "_c 7 /"), Ok(true));
    assert_eq!(values(&stack), vec![0]);
    assert_eq!(run(&mut stack, &t, "_c 0x0f 0xf0 ^"), Ok(true));
    assert_eq!(values(&stack), vec![0xff]);
}

#[test]
fn dump_keeps_stack_and_bad_token_quits() {
    let t = InverseTable::build();
    let mut stack = Vec::new();
    assert_eq!(run(&mut stack, &t, "4 9 _d"), Ok(true));
    assert_eq!(values(&stack), vec![4, 9]);
    assert_eq!(run(&mut stack, &t, "1 oops 2"), Ok(false));
    assert_eq!(values(&stack), vec![4, 9, 1]);
}

#[test]
fn execute_push_and_clear() {
    let t = InverseTable::build();
    let mut stack = vec![GF256::new(1)];
    assert_eq!(execute(&mut stack, &t, Command::Push(9)), Ok(()));
    assert_eq!(values(&stack), vec![1, 9]);
    assert_eq!(execute(&mut stack, &t, Command::Clear), Ok(()));
    assert!(stack.is_empty());
}
