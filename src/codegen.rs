//! Lowering of a checked program to one C translation unit.
use vstd::prelude::*;
use vstd::string::*;
use crate::ast::{
    lemma_seq_view, stmts_view, Condition, Function, FunctionV, LogLevel, Program, ProgramV,
    Stmt, StmtV, TypeAnnotation, TypeV,
};
use crate::checker::{any_return, contains_return, is_main};
use crate::numbers::{decimal, int_text, push_decimal, push_i32};
use crate::text::{chars_of, equals_exec, push_char};

verus! {

/// The fixed runtime that every generated unit starts with, after its
/// two header comment lines.
pub const RUNTIME_PREAMBLE: &'static str = "#define _XOPEN_SOURCE 700\n#include <stdio.h>\n#include <stdlib.h>\n#include <string.h>\n#include <sys/time.h>\n#include <sys/stat.h>\n#include <unistd.h>\n\n// forward declaration for usleep on some libc variants\nint usleep(unsigned int);\n\n#if defined(__GNUC__) || defined(__clang__)\n#define VTS_UNUSED __attribute__((unused))\n#else\n#define VTS_UNUSED\n#endif\n\n// --- standard runtime (prototype) ---\nstatic VTS_UNUSED void vts_log_info(const char *msg) { printf(\"[info] %s\\n\", msg); }\nstatic VTS_UNUSED void vts_log_warn(const char *msg) { printf(\"[warn] %s\\n\", msg); }\nstatic VTS_UNUSED void vts_log_error(const char *msg) { printf(\"[error] %s\\n\", msg); }\nstatic VTS_UNUSED void vts_sleep_ms(unsigned long ms) { usleep(ms * 1000); }\nstatic VTS_UNUSED long long vts_time_now_ms(void) { struct timeval tv; gettimeofday(&tv, NULL); return (long long)tv.tv_sec * 1000 + tv.tv_usec / 1000; }\n\nstatic VTS_UNUSED char *vts_fs_read_file(const char *path) { FILE *f = fopen(path, \"rb\"); if (!f) return NULL; if (fseek(f, 0, SEEK_END) != 0) { fclose(f); return NULL; } long size = ftell(f); if (size < 0) { fclose(f); return NULL; } if (fseek(f, 0, SEEK_SET) != 0) { fclose(f); return NULL; } char *buf = (char *)malloc((size_t)size + 1); if (!buf) { fclose(f); return NULL; } size_t read = fread(buf, 1, (size_t)size, f); buf[read] = 0; fclose(f); return buf; }\nstatic VTS_UNUSED int vts_fs_write_file(const char *path, const char *contents) { const char *slash = strrchr(path, '/'); if (slash) { size_t len = (size_t)(slash - path); if (len > 0) { char *dir = (char *)malloc(len + 1); if (!dir) return -1; memcpy(dir, path, len); dir[len] = 0; struct stat st; if (stat(dir, &st) != 0) { mkdir(dir, 0755); } free(dir); } } FILE *f = fopen(path, \"wb\"); if (!f) return -1; size_t len = strlen(contents); size_t written = fwrite(contents, 1, len, f); fclose(f); return written == len ? 0 : -1; }\n\n";

/// `s` with each `"` written as `\"`.
pub open spec fn escape_quotes(s: Seq<char>) -> Seq<char>
    decreases s.len(),
{
    if s.len() == 0 {
        Seq::empty()
    } else {
        escape_quotes(s.drop_last()) + if s.last() == '"' {
            seq!['\\', '"']
        } else {
            seq![s.last()]
        }
    }
}

/// How many file reads a statement holds, nested ones included.
pub open spec fn reads_in(s: StmtV) -> nat
    decreases s, 0nat,
{
    match s {
        StmtV::ReadFile(_) => 1,
        StmtV::If(_, t, e) => reads_seq(t, t.len()) + reads_seq(e, e.len()),
        StmtV::While(_, b) => reads_seq(b, b.len()),
        StmtV::ForRange(_, _, _, b) => reads_seq(b, b.len()),
        StmtV::Await(inner) => reads_in(*inner),
        _ => 0,
    }
}

/// How many file reads the first `k` statements of `v` hold.
pub open spec fn reads_seq(v: Seq<StmtV>, k: nat) -> nat
    decreases v, k,
{
    if k == 0 || k > v.len() {
        0
    } else {
        reads_seq(v, (k - 1) as nat) + reads_in(v[k - 1])
    }
}

pub open spec fn condition_text(c: Condition) -> Seq<char> {
    match c {
        Condition::BoolLiteral(true) => "1"@,
        Condition::BoolLiteral(false) => "0"@,
    }
}

pub open spec fn log_call(l: LogLevel) -> Seq<char> {
    match l {
        LogLevel::Info => "vts_log_info"@,
        LogLevel::Warn => "vts_log_warn"@,
        LogLevel::Error => "vts_log_error"@,
    }
}

/// How a failed file operation leaves the enclosing function.
pub open spec fn failure_exit(returns_int: bool) -> Seq<char> {
    if returns_int {
        "return 1;"@
    } else {
        "return;"@
    }
}

/// The C text of one statement; `n` is the next free temporary number.
pub open spec fn emit_spec(s: StmtV, n: nat, returns_int: bool) -> Seq<char>
    decreases s, 0nat,
{
    match s {
        StmtV::Print(t) => "    printf(\"%s\\n\", \""@ + escape_quotes(t) + "\");\n"@,
        StmtV::Log(l, m) => "    "@ + log_call(l) + "(\""@ + escape_quotes(m) + "\");\n"@,
        StmtV::SleepMs(ms) => "    vts_sleep_ms("@ + decimal(ms as nat) + ");\n"@,
        StmtV::TimeNow => "    printf(\"%lld\\n\", vts_time_now_ms());\n"@,
        StmtV::ReadFile(p) => {
            let tmp = "vts_tmp"@ + decimal(n);
            "    char *"@ + tmp + " = vts_fs_read_file(\""@ + escape_quotes(p) + "\");\n"@
                + "    if ("@ + tmp + ") { printf(\"%s\\n\", "@ + tmp + "); free("@ + tmp
                + "); } else { fprintf(stderr, \"[fs.readFile] failed: "@ + escape_quotes(p)
                + "\\n\"); "@ + failure_exit(returns_int) + " }\n"@
        },
        StmtV::WriteFile(p, c) => "    if (vts_fs_write_file(\""@ + escape_quotes(p) + "\", \""@
            + escape_quotes(c) + "\") != 0) { fprintf(stderr, \"[fs.writeFile] failed: "@
            + escape_quotes(p) + "\\n\"); "@ + failure_exit(returns_int) + " }\n"@,
        StmtV::Call(name) => "    "@ + name + "();\n"@,
        StmtV::ReturnInt(v) => "    return "@ + int_text(v as int) + ";\n"@,
        StmtV::Await(inner) => emit_spec(*inner, n, returns_int),
        StmtV::If(c, t, e) => "    if ("@ + condition_text(c) + ") {\n"@ + emit_seq(
            t,
            t.len(),
            n,
            returns_int,
        ) + "    }\n"@ + if e.len() > 0 {
            "    else {\n"@ + emit_seq(e, e.len(), n + reads_seq(t, t.len()), returns_int)
                + "    }\n"@
        } else {
            Seq::empty()
        },
        StmtV::While(c, b) => "    while ("@ + condition_text(c) + ") {\n"@ + emit_seq(
            b,
            b.len(),
            n,
            returns_int,
        ) + "    }\n"@,
        StmtV::ForRange(var, start, end, b) => "    for (int "@ + var + " = "@ + int_text(
            start as int,
        ) + "; "@ + var + " < "@ + int_text(end as int) + "; "@ + var + "++) {\n"@ + emit_seq(
            b,
            b.len(),
            n,
            returns_int,
        ) + "    }\n"@,
    }
}

/// The C text of the first `k` statements of `v`.
pub open spec fn emit_seq(v: Seq<StmtV>, k: nat, n: nat, returns_int: bool) -> Seq<char>
    decreases v, k,
{
    if k == 0 || k > v.len() {
        Seq::empty()
    } else {
        emit_seq(v, (k - 1) as nat, n, returns_int) + emit_spec(
            v[k - 1],
            n + reads_seq(v, (k - 1) as nat),
            returns_int,
        )
    }
}

/// The temporary counter and the returned-yet flag of one function's
/// emission.
pub struct EmitState {
    pub temp_counter: usize,
    pub saw_return: bool,
}

proof fn lemma_reads_seq_mono(v: Seq<StmtV>, m: nat, k: nat)
    requires
        m <= k <= v.len(),
    ensures
        reads_seq(v, m) <= reads_seq(v, k),
    decreases k - m,
{
    if m < k {
        lemma_reads_seq_mono(v, m, (k - 1) as nat);
    }
}

proof fn lemma_any_return_step(v: Seq<StmtV>, k: nat)
    requires
        k < v.len(),
    ensures
        any_return(v, k + 1) == (any_return(v, k) || contains_return(v[k as int])),
{
}

fn push_str(out: &mut String, s: &str)
    ensures
        final(out)@ == old(out)@ + s@,
{
    out.append(s);
}

/// Appends `t` with each `"` written as `\"`.
fn push_escaped(out: &mut String, t: &String)
    ensures
        final(out)@ == old(out)@ + escape_quotes(t@),
{
    let cs = chars_of(t.as_str());
    let mut i: usize = 0;
    let ghost start = out@;
    assert(cs@.take(0) =~= Seq::<char>::empty());
    while i < cs.len()
        invariant
            i <= cs.len(),
            cs@ == t@,
            out@ == start + escape_quotes(cs@.take(i as int)),
        decreases cs.len() - i,
    {
        let c = cs[i];
        if c == '"' {
            push_char(out, '\\');
            push_char(out, '"');
        } else {
            push_char(out, c);
        }
        assert(cs@.take(i + 1).drop_last() =~= cs@.take(i as int));
        i = i + 1;
        assert(out@ =~= start + escape_quotes(cs@.take(i as int)));
    }
    assert(cs@.take(cs@.len() as int) =~= cs@);
}

fn condition_exec(c: &Condition) -> (r: &'static str)
    ensures
        r@ == condition_text(*c),
{
    match c {
        Condition::BoolLiteral(true) => "1",
        Condition::BoolLiteral(false) => "0",
    }
}

fn failure_exit_exec(returns_int: bool) -> (r: &'static str)
    ensures
        r@ == failure_exit(returns_int),
{
    if returns_int {
        "return 1;"
    } else {
        "return;"
    }
}

/// Appends the C text of a statement sequence.
fn emit_block(out: &mut String, v: &Vec<Stmt>, st: &mut EmitState, returns_int: bool)
    requires
        old(st).temp_counter + reads_seq(stmts_view(v@), v@.len()) <= usize::MAX,
    ensures
        final(out)@ == old(out)@ + emit_seq(
            stmts_view(v@),
            v@.len(),
            old(st).temp_counter as nat,
            returns_int,
        ),
        final(st).temp_counter == old(st).temp_counter + reads_seq(stmts_view(v@), v@.len()),
        final(st).saw_return == (old(st).saw_return || any_return(stmts_view(v@), v@.len())),
    decreases v, 3nat,
{
    let ghost sv = stmts_view(v@);
    let ghost start = out@;
    let ghost n0 = st.temp_counter as nat;
    let ghost saw0 = st.saw_return;
    let mut i: usize = 0;
    while i < v.len()
        invariant
            i <= v.len(),
            sv == stmts_view(v@),
            n0 + reads_seq(sv, v@.len()) <= usize::MAX,
            out@ == start + emit_seq(sv, i as nat, n0, returns_int),
            st.temp_counter == n0 + reads_seq(sv, i as nat),
            st.saw_return == (saw0 || any_return(sv, i as nat)),
        decreases v.len() - i,
    {
        proof {
            lemma_reads_seq_mono(sv, (i + 1) as nat, v@.len());
            lemma_any_return_step(sv, i as nat);
        }
        assert(sv[i as int] == v@[i as int]@);
        emit_stmt(out, &v[i], st, returns_int);
        i = i + 1;
        assert(out@ =~= start + emit_seq(sv, i as nat, n0, returns_int));
    }
}

fn emit_read_file(out: &mut String, path: &String, st: &mut EmitState, returns_int: bool)
    requires
        old(st).temp_counter + 1 <= usize::MAX,
    ensures
        final(out)@ == old(out)@ + emit_spec(
            StmtV::ReadFile(path@),
            old(st).temp_counter as nat,
            returns_int,
        ),
        final(st).temp_counter == old(st).temp_counter + 1,
        final(st).saw_return == old(st).saw_return,
{
    let ghost start = out@;
    let n = st.temp_counter;
    st.temp_counter = st.temp_counter + 1;
    let mut tmp = String::from_str("vts_tmp");
    push_decimal(&mut tmp, n as u64);
    push_str(out, "    char *");
    push_str(out, tmp.as_str());
    push_str(out, " = vts_fs_read_file(\"");
    push_escaped(out, path);
    push_str(out, "\");\n");
    push_str(out, "    if (");
    push_str(out, tmp.as_str());
    push_str(out, ") { printf(\"%s\\n\", ");
    push_str(out, tmp.as_str());
    push_str(out, "); free(");
    push_str(out, tmp.as_str());
    push_str(out, "); } else { fprintf(stderr, \"[fs.readFile] failed: ");
    push_escaped(out, path);
    push_str(out, "\\n\"); ");
    push_str(out, failure_exit_exec(returns_int));
    push_str(out, " }\n");
    assert(out@ =~= start + emit_spec(StmtV::ReadFile(path@), n as nat, returns_int));
}

fn emit_write_file(out: &mut String, path: &String, contents: &String, returns_int: bool)
    ensures
        final(out)@ == old(out)@ + emit_spec(
            StmtV::WriteFile(path@, contents@),
            0,
            returns_int,
        ),
{
    let ghost start = out@;
    push_str(out, "    if (vts_fs_write_file(\"");
    push_escaped(out, path);
    push_str(out, "\", \"");
    push_escaped(out, contents);
    push_str(out, "\") != 0) { fprintf(stderr, \"[fs.writeFile] failed: ");
    push_escaped(out, path);
    push_str(out, "\\n\"); ");
    push_str(out, failure_exit_exec(returns_int));
    push_str(out, " }\n");
    assert(out@ =~= start + emit_spec(StmtV::WriteFile(path@, contents@), 0, returns_int));
}

fn emit_leaf(out: &mut String, s: &Stmt, st: &mut EmitState, returns_int: bool)
    requires
        !(s is If || s is While || s is ForRange || s is Await),
        old(st).temp_counter + reads_in(s@) <= usize::MAX,
    ensures
        final(out)@ == old(out)@ + emit_spec(s@, old(st).temp_counter as nat, returns_int),
        final(st).temp_counter == old(st).temp_counter + reads_in(s@),
        final(st).saw_return == (old(st).saw_return || contains_return(s@)),
{
    let ghost start = out@;
    match s {
        Stmt::Print(text) => {
            push_str(out, "    printf(\"%s\\n\", \"");
            push_escaped(out, text);
            push_str(out, "\");\n");
            assert(out@ =~= start + emit_spec(s@, st.temp_counter as nat, returns_int));
        },
        Stmt::Log { level, message } => {
            let call = match level {
                LogLevel::Info => "vts_log_info",
                LogLevel::Warn => "vts_log_warn",
                LogLevel::Error => "vts_log_error",
            };
            push_str(out, "    ");
            push_str(out, call);
            push_str(out, "(\"");
            push_escaped(out, message);
            push_str(out, "\");\n");
            assert(out@ =~= start + emit_spec(s@, st.temp_counter as nat, returns_int));
        },
        Stmt::SleepMs(ms) => {
            push_str(out, "    vts_sleep_ms(");
            push_decimal(out, *ms);
            push_str(out, ");\n");
            assert(out@ =~= start + emit_spec(s@, st.temp_counter as nat, returns_int));
        },
        Stmt::TimeNow => {
            push_str(out, "    printf(\"%lld\\n\", vts_time_now_ms());\n");
        },
        Stmt::FsReadFile { path } => {
            emit_read_file(out, path, st, returns_int);
        },
        Stmt::FsWriteFile { path, contents } => {
            emit_write_file(out, path, contents, returns_int);
        },
        Stmt::Call(name) => {
            push_str(out, "    ");
            push_str(out, name.as_str());
            push_str(out, "();\n");
            assert(out@ =~= start + emit_spec(s@, st.temp_counter as nat, returns_int));
        },
        Stmt::ReturnInt(v) => {
            st.saw_return = true;
            push_str(out, "    return ");
            push_i32(out, *v);
            push_str(out, ";\n");
            assert(out@ =~= start + emit_spec(s@, st.temp_counter as nat, returns_int));
        },
        _ => {},
    }
}

fn emit_if(out: &mut String, s: &Stmt, st: &mut EmitState, returns_int: bool)
    requires
        s is If,
        old(st).temp_counter + reads_in(s@) <= usize::MAX,
    ensures
        final(out)@ == old(out)@ + emit_spec(s@, old(st).temp_counter as nat, returns_int),
        final(st).temp_counter == old(st).temp_counter + reads_in(s@),
        final(st).saw_return == (old(st).saw_return || contains_return(s@)),
    decreases s, 1nat,
{
    let ghost start = out@;
    match s {
        Stmt::If { condition, then_branch, else_branch } => {
            let ghost n = st.temp_counter as nat;
            proof {
                lemma_seq_view(*then_branch);
                lemma_seq_view(*else_branch);
            }
            push_str(out, "    if (");
            push_str(out, condition_exec(condition));
            push_str(out, ") {\n");
            emit_block(out, then_branch, st, returns_int);
            push_str(out, "    }\n");
            let ghost mid = out@;
            if else_branch.len() > 0 {
                push_str(out, "    else {\n");
                emit_block(out, else_branch, st, returns_int);
                push_str(out, "    }\n");
            }
            assert(out@ =~= start + emit_spec(s@, n, returns_int));
            assert(contains_return(s@) == (any_return(stmts_view(then_branch@), then_branch@.len())
                || any_return(stmts_view(else_branch@), else_branch@.len())));
            assert(else_branch.len() == 0 ==> !any_return(
                stmts_view(else_branch@),
                else_branch@.len(),
            ));
        },
        _ => {},
    }
}

fn emit_while(out: &mut String, s: &Stmt, st: &mut EmitState, returns_int: bool)
    requires
        s is While,
        old(st).temp_counter + reads_in(s@) <= usize::MAX,
    ensures
        final(out)@ == old(out)@ + emit_spec(s@, old(st).temp_counter as nat, returns_int),
        final(st).temp_counter == old(st).temp_counter + reads_in(s@),
        final(st).saw_return == (old(st).saw_return || contains_return(s@)),
    decreases s, 1nat,
{
    let ghost start = out@;
    match s {
        Stmt::While { condition, body } => {
            let ghost n = st.temp_counter as nat;
            proof {
                lemma_seq_view(*body);
            }
            push_str(out, "    while (");
            push_str(out, condition_exec(condition));
            push_str(out, ") {\n");
            emit_block(out, body, st, returns_int);
            push_str(out, "    }\n");
            assert(out@ =~= start + emit_spec(s@, n, returns_int));
        },
        _ => {},
    }
}

fn emit_for(out: &mut String, s: &Stmt, st: &mut EmitState, returns_int: bool)
    requires
        s is ForRange,
        old(st).temp_counter + reads_in(s@) <= usize::MAX,
    ensures
        final(out)@ == old(out)@ + emit_spec(s@, old(st).temp_counter as nat, returns_int),
        final(st).temp_counter == old(st).temp_counter + reads_in(s@),
        final(st).saw_return == (old(st).saw_return || contains_return(s@)),
    decreases s, 1nat,
{
    let ghost start = out@;
    match s {
        Stmt::ForRange { var, start: from, end, body } => {
            let ghost n = st.temp_counter as nat;
            proof {
                lemma_seq_view(*body);
            }
            push_str(out, "    for (int ");
            push_str(out, var.as_str());
            push_str(out, " = ");
            push_i32(out, *from);
            push_str(out, "; ");
            push_str(out, var.as_str());
            push_str(out, " < ");
            push_i32(out, *end);
            push_str(out, "; ");
            push_str(out, var.as_str());
            push_str(out, "++) {\n");
            emit_block(out, body, st, returns_int);
            push_str(out, "    }\n");
            assert(out@ =~= start + emit_spec(s@, n, returns_int));
        },
        _ => {},
    }
}

/// Appends the C text of one statement, numbering file-read buffers from the
/// state's counter and recording any `return` it writes.
pub fn emit_stmt(out: &mut String, s: &Stmt, st: &mut EmitState, returns_int: bool)
    requires
        old(st).temp_counter + reads_in(s@) <= usize::MAX,
    ensures
        final(out)@ == old(out)@ + emit_spec(s@, old(st).temp_counter as nat, returns_int),
        final(st).temp_counter == old(st).temp_counter + reads_in(s@),
        final(st).saw_return == (old(st).saw_return || contains_return(s@)),
    decreases s, 2nat,
{
    match s {
        Stmt::Await(inner) => emit_stmt(out, inner, st, returns_int),
        Stmt::If { .. } => emit_if(out, s, st, returns_int),
        Stmt::While { .. } => emit_while(out, s, st, returns_int),
        Stmt::ForRange { .. } => emit_for(out, s, st, returns_int),
        _ => emit_leaf(out, s, st, returns_int),
    }
}
/// Whether a function is lowered to an `int` C function: the entry function
/// and those annotated `int`.
pub open spec fn returns_int(f: FunctionV) -> bool {
    is_main(f) || f.return_type == Some(TypeV::Int)
}

pub open spec fn c_type(f: FunctionV) -> Seq<char> {
    if returns_int(f) {
        "int"@
    } else {
        "void"@
    }
}

/// The statements of a function body, without their lines.
pub open spec fn body_stmts(f: FunctionV) -> Seq<StmtV> {
    Seq::new(f.body.len(), |k: int| f.body[k].0)
}

/// Whether the body writes a `return` with a value somewhere.
pub open spec fn body_returns(f: FunctionV) -> bool {
    any_return(body_stmts(f), f.body.len())
}

/// The default return added after a body that wrote no `return` with a
/// value: `return 0;` for an `int` function, a bare `return;` for a `void`
/// one.
pub open spec fn trailer(f: FunctionV) -> Seq<char> {
    if is_main(f) && f.return_type == Some(TypeV::Void) && !body_returns(f) {
        "    return;\n"@
    } else if returns_int(f) && !body_returns(f) {
        "    return 0;\n"@
    } else if !is_main(f) && (f.return_type == Some(TypeV::Void) || f.return_type is None)
        && !body_returns(f) {
        "    return;\n"@
    } else {
        Seq::empty()
    }
}

pub open spec fn function_text(f: FunctionV) -> Seq<char> {
    c_type(f) + " "@ + f.name + "(void) {\n"@ + emit_seq(
        body_stmts(f),
        f.body.len(),
        0,
        returns_int(f),
    ) + trailer(f) + "}\n\n"@
}

pub open spec fn prototype_text(f: FunctionV) -> Seq<char> {
    c_type(f) + " "@ + f.name + "(void);\n"@
}

pub open spec fn prototypes(fs: Seq<FunctionV>, k: nat) -> Seq<char>
    decreases k,
{
    if k == 0 || k > fs.len() {
        Seq::empty()
    } else {
        prototypes(fs, (k - 1) as nat) + prototype_text(fs[k - 1])
    }
}

pub open spec fn definitions(fs: Seq<FunctionV>, k: nat) -> Seq<char>
    decreases k,
{
    if k == 0 || k > fs.len() {
        Seq::empty()
    } else {
        definitions(fs, (k - 1) as nat) + function_text(fs[k - 1])
    }
}

/// The whole translation unit: header naming the source, fixed runtime,
/// prototypes of every function, then every definition.
pub open spec fn codegen_spec(p: ProgramV, source_path: Seq<char>) -> Seq<char> {
    "// VoltTS v0.1 generated C (prototype)\n// Source: "@ + source_path + "\n"@
        + RUNTIME_PREAMBLE@ + "// --- user prototypes ---\n"@ + prototypes(
        p.functions,
        p.functions.len(),
    ) + "\n"@ + definitions(p.functions, p.functions.len())
}

/// Whether each function's file reads can be numbered in a `usize`.
pub open spec fn reads_fit(p: ProgramV) -> bool {
    forall|i: int|
        0 <= i < p.functions.len() ==> reads_seq(
            body_stmts(#[trigger] p.functions[i]),
            p.functions[i].body.len(),
        ) <= usize::MAX
}

fn is_entry(f: &Function) -> (r: bool)
    ensures
        r == is_main(f@),
{
    equals_exec(&chars_of(f.name.as_str()), &chars_of("main"))
}

fn returns_int_exec(f: &Function) -> (r: bool)
    ensures
        r == returns_int(f@),
{
    is_entry(f) || matches!(f.return_type, Some(TypeAnnotation::Int))
}

fn emit_function(out: &mut String, f: &Function)
    requires
        reads_seq(body_stmts(f@), f@.body.len()) <= usize::MAX,
    ensures
        final(out)@ == old(out)@ + function_text(f@),
{
    let ghost start = out@;
    let ghost bs = body_stmts(f@);
    let ri = returns_int_exec(f);
    push_str(out, if ri { "int" } else { "void" });
    push_str(out, " ");
    push_str(out, f.name.as_str());
    push_str(out, "(void) {\n");
    let ghost head = out@;
    let mut st = EmitState { temp_counter: 0, saw_return: false };
    let mut k: usize = 0;
    while k < f.body.len()
        invariant
            k <= f.body.len(),
            bs == body_stmts(f@),
            bs.len() == f.body@.len(),
            ri == returns_int(f@),
            reads_seq(bs, f@.body.len()) <= usize::MAX,
            out@ == head + emit_seq(bs, k as nat, 0, ri),
            st.temp_counter == reads_seq(bs, k as nat),
            st.saw_return == any_return(bs, k as nat),
        decreases f.body.len() - k,
    {
        proof {
            lemma_reads_seq_mono(bs, (k + 1) as nat, f@.body.len());
            lemma_any_return_step(bs, k as nat);
        }
        assert(bs[k as int] == f.body@[k as int].value@);
        emit_stmt(out, &f.body[k].value, &mut st, ri);
        k = k + 1;
        assert(out@ =~= head + emit_seq(bs, k as nat, 0, ri));
    }
    let entry = is_entry(f);
    if entry && matches!(f.return_type, Some(TypeAnnotation::Void)) && !st.saw_return {
        push_str(out, "    return;\n");
    } else if ri && !st.saw_return {
        push_str(out, "    return 0;\n");
    } else if !entry && matches!(f.return_type, Some(TypeAnnotation::Void) | None)
        && !st.saw_return {
        push_str(out, "    return;\n");
    }
    push_str(out, "}\n\n");
    assert(out@ =~= start + function_text(f@));
}

/// Lowers a program to one C translation unit. `source_path` is shown in
/// the header comment.
pub fn codegen_c(program: &Program, source_path: &str) -> (r: String)
    requires
        reads_fit(program@),
    ensures
        r@ == codegen_spec(program@, source_path@),
{
    let mut out = String::from_str("// VoltTS v0.1 generated C (prototype)\n// Source: ");
    push_str(&mut out, source_path);
    push_str(&mut out, "\n");
    push_str(&mut out, RUNTIME_PREAMBLE);
    push_str(&mut out, "// --- user prototypes ---\n");
    let ghost fs = program@.functions;
    let ghost head = out@;
    let mut i: usize = 0;
    while i < program.functions.len()
        invariant
            i <= program.functions.len(),
            fs == program@.functions,
            out@ == head + prototypes(fs, i as nat),
        decreases program.functions.len() - i,
    {
        let f = &program.functions[i];
        assert(fs[i as int] == f@);
        push_str(&mut out, if returns_int_exec(f) { "int" } else { "void" });
        push_str(&mut out, " ");
        push_str(&mut out, f.name.as_str());
        push_str(&mut out, "(void);\n");
        i = i + 1;
        assert(out@ =~= head + prototypes(fs, i as nat));
    }
    push_str(&mut out, "\n");
    let ghost mid = out@;
    let mut j: usize = 0;
    while j < program.functions.len()
        invariant
            j <= program.functions.len(),
            fs == program@.functions,
            reads_fit(program@),
            out@ == mid + definitions(fs, j as nat),
        decreases program.functions.len() - j,
    {
        let f = &program.functions[j];
        assert(fs[j as int] == f@);
        emit_function(&mut out, f);
        j = j + 1;
        assert(out@ =~= mid + definitions(fs, j as nat));
    }
    out
}

fn add_counts(a: Option<usize>, b: Option<usize>) -> (r: Option<usize>)
    ensures
        (a is Some && b is Some && a->0 + b->0 <= usize::MAX) ==> r == Some(
            (a->0 + b->0) as usize,
        ),
        (a is Some && b is Some && a->0 + b->0 > usize::MAX) ==> r is None,
        (a is None || b is None) ==> r is None,
{
    match (a, b) {
        (Some(x), Some(y)) => x.checked_add(y),
        _ => None,
    }
}

/// The number of file reads in a statement, or `None` when it exceeds
/// `usize::MAX`.
fn stmt_reads(s: &Stmt) -> (r: Option<usize>)
    ensures
        r matches Some(n) ==> n == reads_in(s@),
        r is None ==> reads_in(s@) > usize::MAX,
    decreases s, 0nat,
{
    match s {
        Stmt::FsReadFile { .. } => Some(1),
        Stmt::Await(inner) => stmt_reads(inner),
        Stmt::If { then_branch, else_branch, .. } => {
            proof {
                lemma_seq_view(*then_branch);
                lemma_seq_view(*else_branch);
            }
            add_counts(block_reads(then_branch), block_reads(else_branch))
        },
        Stmt::While { body, .. } => {
            proof {
                lemma_seq_view(*body);
            }
            block_reads(body)
        },
        Stmt::ForRange { body, .. } => {
            proof {
                lemma_seq_view(*body);
            }
            block_reads(body)
        },
        _ => Some(0),
    }
}

fn block_reads(v: &Vec<Stmt>) -> (r: Option<usize>)
    ensures
        r matches Some(n) ==> n == reads_seq(stmts_view(v@), v@.len()),
        r is None ==> reads_seq(stmts_view(v@), v@.len()) > usize::MAX,
    decreases v, 1nat,
{
    let ghost sv = stmts_view(v@);
    let mut total: usize = 0;
    let mut i: usize = 0;
    while i < v.len()
        invariant
            i <= v.len(),
            sv == stmts_view(v@),
            total == reads_seq(sv, i as nat),
        decreases v.len() - i,
    {
        assert(sv[i as int] == v@[i as int]@);
        match add_counts(Some(total), stmt_reads(&v[i])) {
            Some(t) => {
                total = t;
            },
            None => {
                proof {
                    lemma_reads_seq_mono(sv, (i + 1) as nat, v@.len());
                }
                return None;
            },
        }
        i = i + 1;
    }
    Some(total)
}

/// Whether every function's file reads can be numbered in a `usize`, as
/// `codegen_c` requires.
pub fn reads_fit_check(program: &Program) -> (r: bool)
    ensures
        r == reads_fit(program@),
{
    let mut i: usize = 0;
    while i < program.functions.len()
        invariant
            i <= program.functions.len(),
            forall|j: int|
                0 <= j < i ==> reads_seq(
                    body_stmts(#[trigger] program@.functions[j]),
                    program@.functions[j].body.len(),
                ) <= usize::MAX,
        decreases program.functions.len() - i,
    {
        let f = &program.functions[i];
        let ghost fv = f@;
        let ghost bs = body_stmts(fv);
        assert(program@.functions[i as int] == fv);
        let mut total: usize = 0;
        let mut k: usize = 0;
        while k < f.body.len()
            invariant
                k <= f.body.len(),
                fv == f@,
                i < program.functions.len(),
                program@.functions[i as int] == fv,
                bs == body_stmts(fv),
                bs.len() == f.body@.len(),
                total == reads_seq(bs, k as nat),
            decreases f.body.len() - k,
        {
            assert(bs[k as int] == f.body@[k as int].value@);
            match add_counts(Some(total), stmt_reads(&f.body[k].value)) {
                Some(t) => {
                    total = t;
                },
                None => {
                    proof {
                        lemma_reads_seq_mono(bs, (k + 1) as nat, fv.body.len());
                        assert(reads_seq(
                            body_stmts(program@.functions[i as int]),
                            program@.functions[i as int].body.len(),
                        ) > usize::MAX);
                    }
                    return false;
                },
            }
            k = k + 1;
        }
        assert(reads_seq(
            body_stmts(program@.functions[i as int]),
            program@.functions[i as int].body.len(),
        ) <= usize::MAX);
        i = i + 1;
    }
    true
}

/// Code for a function that writes no `return` with a value ends its body
/// with `return 0;` when it is annotated `int`, and with a bare `return;`
/// when it is annotated `void`.
pub proof fn lemma_default_return(f: FunctionV)
    requires
        !body_returns(f),
    ensures
        f.return_type == Some(TypeV::Int) ==> trailer(f) == "    return 0;\n"@,
        f.return_type == Some(TypeV::Void) ==> trailer(f) == "    return;\n"@,
        function_text(f) == c_type(f) + " "@ + f.name + "(void) {\n"@ + emit_seq(
            body_stmts(f),
            f.body.len(),
            0,
            returns_int(f),
        ) + trailer(f) + "}\n\n"@,
{
}

/// The definitions of functions `a` up to `b`.
pub open spec fn definitions_between(fs: Seq<FunctionV>, a: nat, b: nat) -> Seq<char>
    decreases b,
{
    if b <= a || b > fs.len() {
        Seq::empty()
    } else {
        definitions_between(fs, a, (b - 1) as nat) + function_text(fs[b - 1])
    }
}

proof fn lemma_definitions_split(fs: Seq<FunctionV>, a: nat, b: nat)
    requires
        a <= b <= fs.len(),
    ensures
        definitions(fs, b) == definitions(fs, a) + definitions_between(fs, a, b),
    decreases b,
{
    if b > a {
        lemma_definitions_split(fs, a, (b - 1) as nat);
        assert(definitions(fs, b) =~= definitions(fs, a) + definitions_between(fs, a, b));
    } else {
        assert(definitions(fs, a) + Seq::<char>::empty() =~= definitions(fs, a));
    }
}

/// Each function's definition, as `function_text` gives it (so with its
/// default return), stands whole in the generated unit.
pub proof fn lemma_function_in_unit(p: ProgramV, source_path: Seq<char>, i: int)
    requires
        0 <= i < p.functions.len(),
    ensures
        exists|pre: Seq<char>, post: Seq<char>|
            codegen_spec(p, source_path) == pre + function_text(p.functions[i]) + post,
{
    let fs = p.functions;
    let n = fs.len() as nat;
    lemma_definitions_split(fs, (i + 1) as nat, n);
    let head = "// VoltTS v0.1 generated C (prototype)\n// Source: "@ + source_path + "\n"@
        + RUNTIME_PREAMBLE@ + "// --- user prototypes ---\n"@ + prototypes(fs, n) + "\n"@;
    let pre = head + definitions(fs, i as nat);
    let post = definitions_between(fs, (i + 1) as nat, n);
    assert(definitions(fs, (i + 1) as nat) == definitions(fs, i as nat) + function_text(fs[i]));
    assert(codegen_spec(p, source_path) =~= pre + function_text(fs[i]) + post);
}

} // verus!
