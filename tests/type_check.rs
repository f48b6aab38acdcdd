use voltts::checker::type_check;
use voltts::parser::parse_program;

#[test]
fn int_function_requires_explicit_return() {
    let src = r#"
fn foo(): int {
    log.info("missing return")
}
"#;
    let program = parse_program(src).expect("parse program");
    let err = type_check(&program).expect_err("type check should fail");
    assert!(
        err.to_string().contains("return"),
        "expected missing return diagnostic, got: {:?}",
        err
    );
}

#[test]
fn main_requires_annotation() {
    let src = r#"
fn main() {
    print("ok")
}
"#;
    let program = parse_program(src).expect("parse program");
    let err = type_check(&program).expect_err("main without type should fail");
    assert!(err
        .to_string()
        .contains("main は戻り値型として int もしくは void を明示してください"));
}

#[test]
fn main_with_int_annotation_can_omit_return() {
    let src = r#"
fn main(): int {
    print("ok")
}
"#;
    let program = parse_program(src).expect("parse program");
    type_check(&program).expect("main with int annotation can omit return");
}

#[test]
fn main_with_void_annotation_compiles() {
    let src = r#"
fn main(): void {
    print("ok")
}
"#;
    let program = parse_program(src).expect("parse program");
    type_check(&program).expect("main with void annotation is allowed");
}
