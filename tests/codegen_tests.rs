use rs9cc::codegen::{compile, Instr, FIRST_NOT_NUMBER, UNEXPECTED_TOKEN};

#[test]
fn compile_add_and_sub() {
    let r = compile(&String::from("5+20-4"));
    assert_eq!(r, Ok(vec![Instr::Mov(5), Instr::Add(20), Instr::Sub(4)]));
}

#[test]
fn compile_single_number() {
    assert_eq!(compile(&String::from(" 42 ")), Ok(vec![Instr::Mov(42)]));
}

#[test]
fn compile_rejects_leading_word() {
    let r = compile(&String::from("aaa"));
    assert_eq!(r, Err(format!("aaa\n^ {}", FIRST_NOT_NUMBER)));
}

#[test]
fn compile_rejects_empty_input() {
    let r = compile(&String::new());
    assert_eq!(r, Err(format!("\n^ {}", FIRST_NOT_NUMBER)));
}

#[test]
fn compile_rejects_missing_number() {
    let r = compile(&String::from("1 + - 2"));
    assert_eq!(r, Err(format!("1 + - 2\n    ^ {}", UNEXPECTED_TOKEN)));
    let r = compile(&String::from("1 +"));
    assert_eq!(r, Err(format!("1 +\n   ^ {}", UNEXPECTED_TOKEN)));
}

#[test]
fn compile_rejects_missing_operator() {
    let r = compile(&String::from("1 2"));
    assert_eq!(r, Err(format!("1 2\n  ^ {}", UNEXPECTED_TOKEN)));
    let r = compile(&String::from("3 - 1 five"));
    assert_eq!(r, Err(format!("3 - 1 five\n      ^ {}", UNEXPECTED_TOKEN)));
}
