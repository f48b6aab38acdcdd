use voltts::ast::{Condition, Program, Stmt, TypeAnnotation};
use voltts::checker::type_check;
use voltts::codegen::{codegen_c, reads_fit_check};
use voltts::diagnostics::{SourceLocation, VoltError};
use voltts::formatter::{format_block_inline, format_condition, format_program};
use voltts::parser::{parse_inline_block, parse_program, parse_stmt};
use voltts::resolver::{is_relative_import, resolve_import_path, Loader};
use voltts::text::chars_of;

fn parse(src: &str) -> Program {
    parse_program(src).expect("parse program")
}

fn parse_err(src: &str) -> (String, usize) {
    match parse_program(src) {
        Err(VoltError::Parse { message, location }) => {
            assert_eq!(location.column, 1);
            (message, location.line)
        }
        other => panic!("expected a parse error, got {:?}", other),
    }
}

fn check_err(src: &str) -> (String, usize) {
    match type_check(&parse(src)) {
        Err(VoltError::Check { message, line }) => (message, line),
        other => panic!("expected a check error, got {:?}", other),
    }
}

fn stmt(line: &str) -> Stmt {
    parse_stmt(&chars_of(line)).expect("statement")
}

fn bodies(p: &Program) -> String {
    let v: Vec<Vec<&Stmt>> = p
        .functions
        .iter()
        .map(|f| f.body.iter().map(|s| &s.value).collect())
        .collect();
    format!("{:?}", v)
}

#[test]
fn missing_return_in_int_function() {
    let (message, line) = check_err("fn f(): int {\n    log.info(\"x\")\n}\n");
    assert!(message.contains("return"));
    assert_eq!(line, 2);
    assert_eq!(
        message,
        "行 2: 関数 f は int を返す必要がありますが、return が見つかりません"
    );
    let (message, line) = check_err("\nfn g(): int {\n}\n");
    assert_eq!(line, 2);
    assert!(message.starts_with("行 2: 関数 g"));
}

#[test]
fn body_on_the_signature_line_is_read_as_annotation() {
    let program = parse("fn f(): int { log.info(\"x\") }");
    match &program.functions[0].return_type {
        Some(TypeAnnotation::Unknown(raw)) => assert_eq!(raw, "int { log.info(\"x\") }"),
        other => panic!("unexpected {:?}", other),
    }
    assert!(program.functions[0].body.is_empty());
}

#[test]
fn async_main_without_annotation_fails() {
    let (message, line) = check_err("async fn main() { await time.sleep(5) }");
    assert_eq!(line, 1);
    assert_eq!(
        message,
        "行 1: main は戻り値型として int もしくは void を明示してください"
    );
}

#[test]
fn void_main_checks_and_ends_with_bare_return() {
    let program = parse("fn main(): void {\n    print(\"ok\")\n}\n");
    type_check(&program).expect("void main passes");
    let c = codegen_c(&program, "main.vts");
    assert!(c.contains("int main(void) {\n    printf(\"%s\\n\", \"ok\");\n    return;\n}\n\n"));
    assert!(!c.contains("return 0;"));
}

#[test]
fn entry_with_string_or_unknown_annotation_fails() {
    let (m1, l1) = check_err("\nfn main(): string {\n    print(\"ok\")\n}\n");
    assert_eq!(l1, 2);
    assert_eq!(
        m1,
        "行 2: main は戻り値型として int もしくは void を明示してください (指定: string)"
    );
    let (m2, _) = check_err("fn main(): float {\n}\n");
    assert!(m2.ends_with("(指定: float)"));
    assert!(type_check(&parse("fn main(): int {\n}\n")).is_ok());
}

#[test]
fn return_in_nested_block_satisfies_int_function() {
    let src = "fn main(): int {\n}\nfn f(): int {\n    while true { return 1 }\n}\n";
    assert!(type_check(&parse(src)).is_ok());
    let src = "fn main(): int {\n}\nfn f(): int {\n    for i in 0..3 { print(\"x\") }\n}\n";
    let (message, line) = check_err(src);
    assert_eq!(line, 4);
    assert!(message.contains("return"));
    let src = "fn main(): int {\n}\nfn g(): int {\n    if false { print(\"a\") } else { return 2 }\n}\n";
    assert!(type_check(&parse(src)).is_ok());
}

#[test]
fn return_in_void_function_is_rejected_at_its_line() {
    let src = "fn main(): int {\n}\nfn h() {\n    print(\"a\")\n    return 3\n}\n";
    let (message, line) = check_err(src);
    assert_eq!(line, 5);
    assert_eq!(message, "行 5: 関数 h は void を返すべきなのに、int を返しています");
}

#[test]
fn int_function_gets_default_return_zero() {
    let program = parse("fn main(): int {\n    print(\"hi\")\n}\nfn helper() {\n    time.now()\n}\n");
    let c = codegen_c(&program, "src/main.vts");
    assert!(c.starts_with("// VoltTS v0.1 generated C (prototype)\n// Source: src/main.vts\n#define _XOPEN_SOURCE 700\n"));
    assert!(c.contains("// --- user prototypes ---\nint main(void);\nvoid helper(void);\n\n"));
    assert!(c.contains("int main(void) {\n    printf(\"%s\\n\", \"hi\");\n    return 0;\n}\n\n"));
    assert!(c.ends_with(
        "void helper(void) {\n    printf(\"%lld\\n\", vts_time_now_ms());\n    return;\n}\n\n"
    ));
}

#[test]
fn explicit_return_suppresses_default() {
    let program = parse("fn main(): int {\n    if true { return 7 }\n}\n");
    let c = codegen_c(&program, "m.vts");
    assert!(c.ends_with("int main(void) {\n    if (1) {\n    return 7;\n    }\n}\n\n"));
}

#[test]
fn statements_lower_to_expected_c() {
    let program = parse("fn main(): int {\n    log.warn(\"careful\")\n    await time.sleep(250)\n    fs.readFile(\"a.txt\")\n    fs.readFile(\"b.txt\")\n    fs.writeFile(\"out/c.txt\", \"data\")\n    for i in -2..3 { helper() }\n    while false { print(\"never\") }\n    return -5\n}\nfn helper() {\n    fs.readFile(\"h.txt\")\n}\n");
    assert!(reads_fit_check(&program));
    let c = codegen_c(&program, "m.vts");
    assert!(c.contains("    vts_log_warn(\"careful\");\n"));
    assert!(c.contains("    vts_sleep_ms(250);\n"));
    assert!(c.contains("    char *vts_tmp0 = vts_fs_read_file(\"a.txt\");\n    if (vts_tmp0) { printf(\"%s\\n\", vts_tmp0); free(vts_tmp0); } else { fprintf(stderr, \"[fs.readFile] failed: a.txt\\n\"); return 1; }\n"));
    assert!(c.contains("    char *vts_tmp1 = vts_fs_read_file(\"b.txt\");\n"));
    assert!(c.contains("    if (vts_fs_write_file(\"out/c.txt\", \"data\") != 0) { fprintf(stderr, \"[fs.writeFile] failed: out/c.txt\\n\"); return 1; }\n"));
    assert!(c.contains("    for (int i = -2; i < 3; i++) {\n    helper();\n    }\n"));
    assert!(c.contains("    while (0) {\n    printf(\"%s\\n\", \"never\");\n    }\n"));
    assert!(c.contains("    return -5;\n}\n\n"));
    assert!(c.contains("void helper(void) {\n    char *vts_tmp0 = vts_fs_read_file(\"h.txt\");\n    if (vts_tmp0) { printf(\"%s\\n\", vts_tmp0); free(vts_tmp0); } else { fprintf(stderr, \"[fs.readFile] failed: h.txt\\n\"); return; }\n    return;\n}\n\n"));
}

#[test]
fn quotes_are_escaped_in_c_and_source() {
    let program = parse("fn main(): int {\n    print(\"say \\\"hi\\\" now\")\n}\n");
    match &program.functions[0].body[0].value {
        Stmt::Print(t) => assert_eq!(t, "say \"hi\" now"),
        other => panic!("unexpected {:?}", other),
    }
    let c = codegen_c(&program, "q.vts");
    assert!(c.contains("    printf(\"%s\\n\", \"say \\\"hi\\\" now\");\n"));
    let formatted = format_program(&program);
    assert_eq!(formatted, "fn main(): int {\n    print(\"say \\\"hi\\\" now\")\n}\n");
}

#[test]
fn format_round_trip_is_a_fixed_point() {
    let src = "import { log, time } from \"std\"\nimport { helper } from \"./support/helper\";\n\n// entry\nexport async fn main(): int\n{\n    log.info(\"start\");\n    await time.sleep(10)\n    if true { print(\"a\"); helper() } else { time.now() }\n    for k in 0..2 { log.error(\"e\") }\n    while false { fs.writeFile(\"p\", \"q\") }\n    await fs.readFile(\"x\")\n    return 0\n}\nfn helper() {\n    print(\"h\")\n}\n";
    let first = parse(src);
    let text = format_program(&first);
    assert_eq!(
        text,
        "import { log, time } from \"std\"\nimport { helper } from \"./support/helper\"\n\nasync fn main(): int {\n    log.info(\"start\")\n    await time.sleep(10)\n    if true { print(\"a\"); helper() } else { time.now() }\n    for k in 0..2 { log.error(\"e\") }\n    while false { fs.writeFile(\"p\", \"q\") }\n    await fs.readFile(\"x\")\n    return 0\n}\nfn helper() {\n    print(\"h\")\n}\n"
    );
    let second = parse(&text);
    assert_eq!(bodies(&first), bodies(&second));
    assert_eq!(format_program(&second), text);
    assert_eq!(first.imports.len(), second.imports.len());
    for (a, b) in first.imports.iter().zip(second.imports.iter()) {
        assert_eq!(a.names, b.names);
        assert_eq!(a.module, b.module);
    }
    for (a, b) in first.functions.iter().zip(second.functions.iter()) {
        assert_eq!(a.name, b.name);
        assert_eq!(a.is_async, b.is_async);
        assert_eq!(format!("{:?}", a.return_type), format!("{:?}", b.return_type));
    }
}

#[test]
fn inline_blocks_and_conditions_format() {
    let block = parse_inline_block(&chars_of("print(\"a\"); ; return 4")).expect("block");
    assert_eq!(block.len(), 2);
    assert_eq!(format_block_inline(&block), "print(\"a\"); return 4");
    assert_eq!(format_condition(&Condition::BoolLiteral(false)), "false");
    assert!(parse_inline_block(&chars_of("")).expect("empty").is_empty());
}

#[test]
fn statement_forms_parse() {
    assert!(matches!(stmt("time.now();"), Stmt::TimeNow));
    assert!(matches!(stmt("time.sleep(+15)"), Stmt::SleepMs(15)));
    assert!(matches!(stmt("return -2147483648"), Stmt::ReturnInt(-2147483648)));
    match stmt("await helper()") {
        Stmt::Await(inner) => assert!(matches!(*inner, Stmt::Call(ref n) if n == "helper")),
        other => panic!("unexpected {:?}", other),
    }
    match stmt("for idx in 1..4 { print(\"x\") }") {
        Stmt::ForRange { var, start, end, body } => {
            assert_eq!(var, "idx");
            assert_eq!((start, end), (1, 4));
            assert_eq!(body.len(), 1);
        }
        other => panic!("unexpected {:?}", other),
    }
    match stmt("fs.writeFile(\"a.txt\", \"x, y\")") {
        Stmt::FsWriteFile { path, contents } => {
            assert_eq!(path, "a.txt");
            assert_eq!(contents, "x, y");
        }
        other => panic!("unexpected {:?}", other),
    }
}

#[test]
fn statement_errors() {
    let err = |line: &str| parse_stmt(&chars_of(line)).expect_err("should fail");
    assert_eq!(err("bogus"), "unsupported statement: bogus");
    assert_eq!(err("if maybe { print(\"a\") }"), "条件式がサポートされていません: maybe");
    assert_eq!(err("if true print(\"a\")"), "if 文は { が必要です: if true print(\"a\")");
    assert_eq!(err("while true"), "while 文は { が必要です: while true");
    assert_eq!(err("for i { }"), "for 文は 'for <var> in <start>..<end>' 形式です: i ");
    assert_eq!(err("for i in 3 { }"), "for の range は start..end 形式です: 3");
    assert_eq!(err("for i in a..3 { }"), "for range start は整数である必要があります");
    assert_eq!(err("for i in 0..99999999999 { }"), "for range end は整数である必要があります");
    assert_eq!(err("log.debug(\"x\")"), "unsupported log level 'log.debug'; use log.info/log.warn/log.error");
    assert_eq!(err("log.info"), "invalid log call: log.info");
    assert_eq!(err("fs.writeFile(\"only\")"), "fs.writeFile expects path and contents");
    assert_eq!(err("time.sleep(-1)"), "expected integer milliseconds for time.sleep");
    assert_eq!(err("return 2147483648"), "expected integer return value");
    assert_eq!(err("()"), "unsupported statement: ()");
}

#[test]
fn program_errors_carry_lines() {
    assert_eq!(parse_err("// nothing here\n"), ("no functions found".to_string(), 1));
    let (m, l) = parse_err("\nimport log from \"std\"\nfn main(): int {\n}\n");
    assert_eq!(l, 2);
    assert_eq!(m, "import must include a closing brace ('}'): import log from \"std\"");
    let (m, _) = parse_err("import log } from \"std\"\nfn main(): int {\n}\n");
    assert_eq!(m, "import must start with '{': import log } from \"std\"");
    let (m, _) = parse_err("import { , } from \"std\"\nfn main(): int {\n}\n");
    assert_eq!(m, "import must list at least one name: import { , } from \"std\"");
    let (m, _) = parse_err("import { a } \"std\"\nfn main(): int {\n}\n");
    assert_eq!(m, "import missing 'from': import { a } \"std\"");
    let (m, _) = parse_err("import { a } from \"\"\nfn main(): int {\n}\n");
    assert_eq!(m, "import module path is empty: import { a } from \"\"");
    let (m, l) = parse_err("fn main: int {\n}\n");
    assert_eq!(l, 1);
    assert_eq!(m, "invalid function signature: fn main: int {");
    let (m, l) = parse_err("fn main(): int {\n    print(\"a\")\n    oops\n}\n");
    assert_eq!(l, 3);
    assert_eq!(m, "unsupported statement: oops");
}

#[test]
fn signature_forms() {
    let p = parse("export async fn run(x, y): string {\n}\nfn other(): custom\n\n{\n    helper()\n}\n");
    assert_eq!(p.functions.len(), 2);
    assert_eq!(p.functions[0].name, "run");
    assert!(p.functions[0].is_async);
    assert!(matches!(p.functions[0].return_type, Some(TypeAnnotation::String)));
    assert_eq!(p.functions[1].line, 3);
    match &p.functions[1].return_type {
        Some(TypeAnnotation::Unknown(raw)) => assert_eq!(raw, "custom"),
        other => panic!("unexpected {:?}", other),
    }
    assert_eq!(p.functions[1].body.len(), 1);
    assert_eq!(p.functions[1].body[0].line, 6);
    assert_eq!(TypeAnnotation::Void.as_str(), "void");
}

#[test]
fn errors_render_as_text() {
    let e = VoltError::parse("bad".to_string(), 12, 1);
    assert_eq!(e.to_string(), "parse error: bad (line 12, col 1)");
    assert_eq!(VoltError::io("x".to_string()).to_string(), "io error: x");
    assert_eq!(VoltError::build("y".to_string()).to_string(), "build error: y");
    assert_eq!(VoltError::codegen("z".to_string()).to_string(), "codegen error: z");
    assert_eq!(VoltError::check("w".to_string(), 3).to_string(), "w");
    let loc = SourceLocation::new(7, 1);
    assert_eq!((loc.line, loc.column), (7, 1));
    assert_eq!(loc.to_string(), "line 7, col 1");
}

#[test]
fn cyclic_imports_open_each_file_once() {
    let a = "import { b } from \"./b\"\nfn main(): int {\n    b()\n}\n";
    let b = "import { a } from \"./a\"\nimport { log } from \"std\"\nfn b() {\n    print(\"b\")\n}\n";
    let pa = "/p/a.vts".to_string();
    let pb = "/p/b.vts".to_string();
    let mut loader = Loader::new();
    assert!(loader.visit(&pa));
    loader.enter(&pa, a).expect("a parses");
    assert_eq!(loader.next_import().as_deref(), Some("./b"));
    assert!(loader.visit(&pb));
    loader.enter(&pb, b).expect("b parses");
    assert_eq!(loader.depth(), 2);
    assert_eq!(loader.current_path().map(|s| s.as_str()), Some("/p/b.vts"));
    assert_eq!(loader.next_import().as_deref(), Some("./a"));
    assert!(!loader.visit(&pa));
    assert_eq!(loader.next_import(), None);
    assert!(loader.close().is_none());
    assert_eq!(loader.depth(), 1);
    assert_eq!(loader.next_import(), None);
    let merged = loader.close().expect("entry closes");
    let names: Vec<&str> = merged.functions.iter().map(|f| f.name.as_str()).collect();
    assert_eq!(names, vec!["main", "b"]);
    assert_eq!(merged.imports.len(), 1);
    assert!(is_relative_import(&"../x".to_string()));
    assert!(!is_relative_import(&"std".to_string()));
}

#[test]
fn enter_reports_parse_errors() {
    let mut loader = Loader::new();
    let p = "/p/bad.vts".to_string();
    assert!(loader.visit(&p));
    let err = loader.enter(&p, "fn main(): int {\n    nope\n}\n").expect_err("bad source");
    assert_eq!(err.to_string(), "parse error: unsupported statement: nope (line 2, col 1)");
    assert_eq!(loader.depth(), 0);
}

#[test]
fn void_main_that_returns_gets_no_default_return() {
    let program = parse("fn main(): void {\n    return 1\n}\n");
    assert!(type_check(&program).is_err());
    let c = codegen_c(&program, "m.vts");
    assert!(c.ends_with("int main(void) {\n    return 1;\n}\n\n"));
}

#[test]
fn await_inside_blocks_and_awaited_blocks() {
    let program = parse("fn main(): int {\n    if true { await g(); await time.sleep(5) }\n    await while false { g() }\n}\nfn g() {\n}\n");
    match &program.functions[0].body[0].value {
        Stmt::If { then_branch, .. } => {
            assert!(matches!(&then_branch[0], Stmt::Await(inner) if matches!(**inner, Stmt::Call(ref n) if n == "g")));
            assert!(matches!(&then_branch[1], Stmt::Await(inner) if matches!(**inner, Stmt::SleepMs(5))));
        }
        other => panic!("unexpected {:?}", other),
    }
    assert!(matches!(&program.functions[0].body[1].value, Stmt::Await(inner) if matches!(**inner, Stmt::While { .. })));
    let text = format_program(&program);
    assert_eq!(text, "fn main(): int {\n    if true { await g(); await time.sleep(5) }\n    await while false { g() }\n}\nfn g() {\n}\n");
    assert_eq!(bodies(&parse(&text)), bodies(&program));
    let err = parse_stmt(&chars_of("await await g()")).expect_err("nested await");
    assert_eq!(err, "nested await is not supported: await await g()");
}

#[test]
fn import_paths_join_the_importer_directory() {
    let r = |a: &str, m: &str| resolve_import_path(&a.to_string(), &m.to_string());
    assert_eq!(r("/p/src/main.vts", "./support/log_helper"), "/p/src/./support/log_helper.vts");
    assert_eq!(r("/p/src/main.vts", "./support/log_helper.vts"), "/p/src/./support/log_helper.vts");
    assert_eq!(r("/p/src/main.vts", "../lib/x.y"), "/p/src/../lib/x.y");
    assert_eq!(r("/main.vts", "./a"), "/./a.vts");
    assert_eq!(r("main.vts", "./a.b/c"), "./a.b/c.vts");
    assert_eq!(r("/p/m.vts", "./.hidden"), "/p/./.hidden.vts");
}
