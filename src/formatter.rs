//! Canonical source text of a program, in the grammar the parser reads.
use vstd::prelude::*;
use vstd::string::*;
use crate::ast::{
    lemma_seq_view, stmts_view, string_views, type_text, Condition, Function, FunctionV, Import,
    ImportV, LogLevel, Program, ProgramV, Stmt, StmtV,
};
use crate::codegen::escape_quotes;
use crate::numbers::{decimal, int_text, push_decimal, push_i32};
use crate::text::{chars_of, push_char};

verus! {

pub open spec fn condition_source(c: Condition) -> Seq<char> {
    match c {
        Condition::BoolLiteral(true) => "true"@,
        Condition::BoolLiteral(false) => "false"@,
    }
}

pub open spec fn level_name(l: LogLevel) -> Seq<char> {
    match l {
        LogLevel::Info => "info"@,
        LogLevel::Warn => "warn"@,
        LogLevel::Error => "error"@,
    }
}

/// `"` + `t` with its quotes escaped + `"`.
pub open spec fn quoted(t: Seq<char>) -> Seq<char> {
    seq!['"'] + escape_quotes(t) + seq!['"']
}

/// One statement on a single line, nested blocks inline.
pub open spec fn inline_stmt(s: StmtV) -> Seq<char>
    decreases s, 0nat,
{
    match s {
        StmtV::Print(t) => "print("@ + quoted(t) + ")"@,
        StmtV::Log(l, m) => "log."@ + level_name(l) + "("@ + quoted(m) + ")"@,
        StmtV::SleepMs(ms) => "time.sleep("@ + decimal(ms as nat) + ")"@,
        StmtV::TimeNow => "time.now()"@,
        StmtV::ReadFile(p) => "fs.readFile("@ + quoted(p) + ")"@,
        StmtV::WriteFile(p, c) => "fs.writeFile("@ + quoted(p) + ", "@ + quoted(c) + ")"@,
        StmtV::Call(name) => name + "()"@,
        StmtV::ReturnInt(v) => "return "@ + int_text(v as int),
        StmtV::Await(inner) => "await "@ + inline_stmt(*inner),
        StmtV::If(c, t, e) => "if "@ + condition_source(c) + " { "@ + inline_block(t, t.len())
            + " }"@ + if e.len() > 0 {
            " else { "@ + inline_block(e, e.len()) + " }"@
        } else {
            Seq::empty()
        },
        StmtV::While(c, b) => "while "@ + condition_source(c) + " { "@ + inline_block(b, b.len())
            + " }"@,
        StmtV::ForRange(var, start, end, b) => "for "@ + var + " in "@ + int_text(start as int)
            + ".."@ + int_text(end as int) + " { "@ + inline_block(b, b.len()) + " }"@,
    }
}

/// The first `k` statements of `v`, joined with `; `.
pub open spec fn inline_block(v: Seq<StmtV>, k: nat) -> Seq<char>
    decreases v, k,
{
    if k == 0 || k > v.len() {
        Seq::empty()
    } else if k == 1 {
        inline_stmt(v[0])
    } else {
        inline_block(v, (k - 1) as nat) + "; "@ + inline_stmt(v[k - 1])
    }
}

/// One function-body line.
pub open spec fn body_line(s: StmtV) -> Seq<char> {
    "    "@ + inline_stmt(s) + "\n"@
}

pub open spec fn body_text(body: Seq<(StmtV, nat)>, k: nat) -> Seq<char>
    decreases k,
{
    if k == 0 || k > body.len() {
        Seq::empty()
    } else {
        body_text(body, (k - 1) as nat) + body_line(body[k - 1].0)
    }
}

pub open spec fn signature_text(f: FunctionV) -> Seq<char> {
    (if f.is_async {
        "async "@
    } else {
        Seq::empty()
    }) + "fn "@ + f.name + match f.return_type {
        Some(rt) => "(): "@ + type_text(rt) + " {\n"@,
        None => "() {\n"@,
    }
}

pub open spec fn function_source(f: FunctionV) -> Seq<char> {
    signature_text(f) + body_text(f.body, f.body.len()) + "}\n"@
}

pub open spec fn join_names(names: Seq<Seq<char>>, k: nat) -> Seq<char>
    decreases k,
{
    if k == 0 || k > names.len() {
        Seq::empty()
    } else if k == 1 {
        names[0]
    } else {
        join_names(names, (k - 1) as nat) + ", "@ + names[k - 1]
    }
}

pub open spec fn import_source(i: ImportV) -> Seq<char> {
    "import { "@ + join_names(i.names, i.names.len()) + " } from \""@ + i.module + "\"\n"@
}

pub open spec fn imports_source(v: Seq<ImportV>, k: nat) -> Seq<char>
    decreases k,
{
    if k == 0 || k > v.len() {
        Seq::empty()
    } else {
        imports_source(v, (k - 1) as nat) + import_source(v[k - 1])
    }
}

pub open spec fn functions_source(v: Seq<FunctionV>, k: nat) -> Seq<char>
    decreases k,
{
    if k == 0 || k > v.len() {
        Seq::empty()
    } else {
        functions_source(v, (k - 1) as nat) + function_source(v[k - 1])
    }
}

/// The canonical text: imports, a blank line after them if there are any,
/// then each function.
pub open spec fn format_spec(p: ProgramV) -> Seq<char> {
    imports_source(p.imports, p.imports.len()) + (if p.imports.len() > 0 {
        "\n"@
    } else {
        Seq::empty()
    }) + functions_source(p.functions, p.functions.len())
}

fn push_str(out: &mut String, s: &str)
    ensures
        final(out)@ == old(out)@ + s@,
{
    out.append(s);
}

fn push_quoted(out: &mut String, t: &String)
    ensures
        final(out)@ == old(out)@ + quoted(t@),
{
    let ghost start = out@;
    push_char(out, '"');
    let cs = chars_of(t.as_str());
    let ghost mid = out@;
    let mut i: usize = 0;
    assert(cs@.take(0) =~= Seq::<char>::empty());
    while i < cs.len()
        invariant
            i <= cs.len(),
            cs@ == t@,
            out@ == mid + escape_quotes(cs@.take(i as int)),
        decreases cs.len() - i,
    {
        let c = cs[i];
        if c == '"' {
            push_char(out, '\\');
            push_char(out, '"');
        } else {
            push_char(out, c);
        }
        assert(cs@.take(i + 1).drop_last() =~= cs@.take(i as int));
        i = i + 1;
        assert(out@ =~= mid + escape_quotes(cs@.take(i as int)));
    }
    assert(cs@.take(cs@.len() as int) =~= cs@);
    push_char(out, '"');
    assert(out@ =~= start + quoted(t@));
}

fn condition_source_exec(c: &Condition) -> (r: &'static str)
    ensures
        r@ == condition_source(*c),
{
    match c {
        Condition::BoolLiteral(true) => "true",
        Condition::BoolLiteral(false) => "false",
    }
}

/// Appends the statements of `v` joined with `; `.
fn push_inline_block(out: &mut String, v: &Vec<Stmt>)
    ensures
        final(out)@ == old(out)@ + inline_block(stmts_view(v@), v@.len()),
    decreases v, 1nat,
{
    let ghost sv = stmts_view(v@);
    let ghost start = out@;
    let mut i: usize = 0;
    while i < v.len()
        invariant
            i <= v.len(),
            sv == stmts_view(v@),
            out@ == start + inline_block(sv, i as nat),
        decreases v.len() - i,
    {
        if i > 0 {
            push_str(out, "; ");
        }
        assert(sv[i as int] == v@[i as int]@);
        push_inline_stmt(out, &v[i]);
        i = i + 1;
        assert(out@ =~= start + inline_block(sv, i as nat));
    }
}

/// Appends one statement in its single-line form.
fn push_inline_stmt(out: &mut String, s: &Stmt)
    ensures
        final(out)@ == old(out)@ + inline_stmt(s@),
    decreases s, 0nat,
{
    let ghost start = out@;
    match s {
        Stmt::Print(t) => {
            push_str(out, "print(");
            push_quoted(out, t);
            push_str(out, ")");
        },
        Stmt::Log { level, message } => {
            push_str(out, "log.");
            push_str(
                out,
                match level {
                    LogLevel::Info => "info",
                    LogLevel::Warn => "warn",
                    LogLevel::Error => "error",
                },
            );
            push_str(out, "(");
            push_quoted(out, message);
            push_str(out, ")");
        },
        Stmt::SleepMs(ms) => {
            push_str(out, "time.sleep(");
            push_decimal(out, *ms);
            push_str(out, ")");
        },
        Stmt::TimeNow => {
            push_str(out, "time.now()");
        },
        Stmt::FsReadFile { path } => {
            push_str(out, "fs.readFile(");
            push_quoted(out, path);
            push_str(out, ")");
        },
        Stmt::FsWriteFile { path, contents } => {
            push_str(out, "fs.writeFile(");
            push_quoted(out, path);
            push_str(out, ", ");
            push_quoted(out, contents);
            push_str(out, ")");
        },
        Stmt::Call(name) => {
            push_str(out, name.as_str());
            push_str(out, "()");
        },
        Stmt::ReturnInt(v) => {
            push_str(out, "return ");
            push_i32(out, *v);
        },
        Stmt::Await(inner) => {
            push_str(out, "await ");
            push_inline_stmt(out, inner);
        },
        Stmt::If { condition, then_branch, else_branch } => {
            proof {
                lemma_seq_view(*then_branch);
                lemma_seq_view(*else_branch);
            }
            push_str(out, "if ");
            push_str(out, condition_source_exec(condition));
            push_str(out, " { ");
            push_inline_block(out, then_branch);
            push_str(out, " }");
            if else_branch.len() > 0 {
                push_str(out, " else { ");
                push_inline_block(out, else_branch);
                push_str(out, " }");
            }
        },
        Stmt::While { condition, body } => {
            proof {
                lemma_seq_view(*body);
            }
            push_str(out, "while ");
            push_str(out, condition_source_exec(condition));
            push_str(out, " { ");
            push_inline_block(out, body);
            push_str(out, " }");
        },
        Stmt::ForRange { var, start: from, end, body } => {
            proof {
                lemma_seq_view(*body);
            }
            push_str(out, "for ");
            push_str(out, var.as_str());
            push_str(out, " in ");
            push_i32(out, *from);
            push_str(out, "..");
            push_i32(out, *end);
            push_str(out, " { ");
            push_inline_block(out, body);
            push_str(out, " }");
        },
    }
    assert(out@ =~= start + inline_stmt(s@));
}

/// The statements of a block on one line, joined with `; `.
pub fn format_block_inline(stmts: &Vec<Stmt>) -> (r: String)
    ensures
        r@ == inline_block(stmts_view(stmts@), stmts@.len()),
{
    let mut out = String::new();
    push_inline_block(&mut out, stmts);
    out
}

pub fn format_condition(cond: &Condition) -> (r: String)
    ensures
        r@ == condition_source(*cond),
{
    String::from_str(condition_source_exec(cond))
}

fn push_body_line(out: &mut String, s: &Stmt)
    ensures
        final(out)@ == old(out)@ + body_line(s@),
{
    let ghost start = out@;
    push_str(out, "    ");
    push_inline_stmt(out, s);
    push_str(out, "\n");
    assert(out@ =~= start + body_line(s@));
}

fn push_function(out: &mut String, f: &Function)
    ensures
        final(out)@ == old(out)@ + function_source(f@),
{
    let ghost start = out@;
    if f.is_async {
        push_str(out, "async ");
    }
    push_str(out, "fn ");
    push_str(out, f.name.as_str());
    match &f.return_type {
        Some(rt) => {
            push_str(out, "(): ");
            push_str(out, rt.as_str());
            push_str(out, " {\n");
        },
        None => {
            push_str(out, "() {\n");
        },
    }
    assert(out@ =~= start + signature_text(f@));
    let ghost head = out@;
    let mut k: usize = 0;
    while k < f.body.len()
        invariant
            k <= f.body.len(),
            out@ == head + body_text(f@.body, k as nat),
        decreases f.body.len() - k,
    {
        assert(f@.body[k as int].0 == f.body@[k as int].value@);
        push_body_line(out, &f.body[k].value);
        k = k + 1;
        assert(out@ =~= head + body_text(f@.body, k as nat));
    }
    push_str(out, "}\n");
    assert(out@ =~= start + function_source(f@));
}

fn push_import(out: &mut String, imp: &Import)
    ensures
        final(out)@ == old(out)@ + import_source(imp@),
{
    let ghost start = out@;
    let ghost names = string_views(imp.names@);
    push_str(out, "import { ");
    let ghost head = out@;
    let mut i: usize = 0;
    while i < imp.names.len()
        invariant
            i <= imp.names.len(),
            names == string_views(imp.names@),
            out@ == head + join_names(names, i as nat),
        decreases imp.names.len() - i,
    {
        if i > 0 {
            push_str(out, ", ");
        }
        push_str(out, imp.names[i].as_str());
        i = i + 1;
        assert(out@ =~= head + join_names(names, i as nat));
    }
    push_str(out, " } from \"");
    push_str(out, imp.module.as_str());
    push_str(out, "\"\n");
    assert(out@ =~= start + import_source(imp@));
}

/// The canonical source text of a program.
pub fn format_program(program: &Program) -> (r: String)
    ensures
        r@ == format_spec(program@),
{
    let mut out = String::new();
    let ghost is = program@.imports;
    let ghost fs = program@.functions;
    let mut i: usize = 0;
    while i < program.imports.len()
        invariant
            i <= program.imports.len(),
            is == program@.imports,
            out@ == imports_source(is, i as nat),
        decreases program.imports.len() - i,
    {
        assert(is[i as int] == program.imports@[i as int]@);
        push_import(&mut out, &program.imports[i]);
        i = i + 1;
        assert(out@ =~= imports_source(is, i as nat));
    }
    if program.imports.len() > 0 {
        push_str(&mut out, "\n");
    }
    let ghost mid = out@;
    let mut j: usize = 0;
    while j < program.functions.len()
        invariant
            j <= program.functions.len(),
            fs == program@.functions,
            out@ == mid + functions_source(fs, j as nat),
        decreases program.functions.len() - j,
    {
        assert(fs[j as int] == program.functions@[j as int]@);
        push_function(&mut out, &program.functions[j]);
        j = j + 1;
        assert(out@ =~= mid + functions_source(fs, j as nat));
    }
    assert(out@ =~= format_spec(program@));
    out
}

} // verus!
