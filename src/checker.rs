//! Return-type checking, function by function.
use vstd::prelude::*;
use vstd::string::*;
use crate::ast::{
    Condition, lemma_seq_view, stmts_view, type_text, Function, FunctionV, Program, ProgramV, Stmt,
    StmtV, TypeAnnotation, TypeV,
};
use crate::diagnostics::VoltError;
use crate::numbers::{decimal, push_decimal};
use crate::text::{chars_of, equals_exec};

verus! {

/// Whether a statement holds a `return` with a value, looking into control
/// bodies and `await`.
pub open spec fn contains_return(s: StmtV) -> bool
    decreases s, 0nat,
{
    match s {
        StmtV::ReturnInt(_) => true,
        StmtV::If(_, t, e) => any_return(t, t.len()) || any_return(e, e.len()),
        StmtV::While(_, b) => any_return(b, b.len()),
        StmtV::ForRange(_, _, _, b) => any_return(b, b.len()),
        StmtV::Await(inner) => contains_return(*inner),
        _ => false,
    }
}

/// Whether one of the first `n` statements of `v` holds a `return`.
pub open spec fn any_return(v: Seq<StmtV>, n: nat) -> bool
    decreases v, n,
{
    if n == 0 || n > v.len() {
        false
    } else {
        any_return(v, (n - 1) as nat) || contains_return(v[n - 1])
    }
}

/// The first top-level body statement that holds a `return`, from index `k` on.
pub open spec fn first_return_from(body: Seq<(StmtV, nat)>, k: int) -> Option<int>
    decreases body.len() - k,
{
    if k < 0 || k >= body.len() {
        None
    } else if contains_return(body[k].0) {
        Some(k)
    } else {
        first_return_from(body, k + 1)
    }
}

pub open spec fn is_main(f: FunctionV) -> bool {
    f.name == "main"@
}

/// The type a function returns: its annotation, or `void` when it has none.
pub open spec fn declared_type(f: FunctionV) -> TypeV {
    match f.return_type {
        Some(t) => t,
        None => TypeV::Void,
    }
}

pub open spec fn line_prefix(line: nat) -> Seq<char> {
    "行 "@ + decimal(line) + ": "@
}

pub open spec fn main_type_message(f: FunctionV) -> Seq<char> {
    match f.return_type {
        Some(t) => line_prefix(f.line) + "main は戻り値型として int もしくは void を明示してください (指定: "@
            + type_text(t) + ")"@,
        None => line_prefix(f.line) + "main は戻り値型として int もしくは void を明示してください"@,
    }
}

pub open spec fn mismatch_message(f: FunctionV, line: nat) -> Seq<char> {
    line_prefix(line) + "関数 "@ + f.name + " は "@ + type_text(declared_type(f))
        + " を返すべきなのに、int を返しています"@
}

/// Where a missing `return` is reported: at the last top-level statement of
/// the body, or at the signature when the body is empty.
pub open spec fn missing_return_line(f: FunctionV) -> nat {
    if f.body.len() > 0 {
        f.body.last().1
    } else {
        f.line
    }
}

pub open spec fn missing_return_message(f: FunctionV) -> Seq<char> {
    line_prefix(missing_return_line(f)) + "関数 "@ + f.name + " は int を返す必要がありますが、return が見つかりません"@
}

/// The first rule that a function breaks, as message and line:
/// the entry function must be annotated `int` or `void`; a `return` with a
/// value needs an `int` function; a function other than the entry function
/// annotated `int` needs a `return` somewhere in its body.
pub open spec fn check_function(f: FunctionV) -> Option<(Seq<char>, nat)> {
    if is_main(f) && !(f.return_type == Some(TypeV::Int) || f.return_type == Some(TypeV::Void)) {
        Some((main_type_message(f), f.line))
    } else {
        match first_return_from(f.body, 0) {
            Some(k) => if declared_type(f) != TypeV::Int {
                Some((mismatch_message(f, f.body[k].1), f.body[k].1))
            } else {
                None
            },
            None => if !is_main(f) && declared_type(f) == TypeV::Int {
                Some((missing_return_message(f), missing_return_line(f)))
            } else {
                None
            },
        }
    }
}

/// The first failure among the functions from index `i` on.
pub open spec fn check_from(fs: Seq<FunctionV>, i: int) -> Option<(Seq<char>, nat)>
    decreases fs.len() - i,
{
    if i < 0 || i >= fs.len() {
        None
    } else {
        match check_function(fs[i]) {
            Some(e) => Some(e),
            None => check_from(fs, i + 1),
        }
    }
}

pub open spec fn check_program(p: ProgramV) -> Option<(Seq<char>, nat)> {
    check_from(p.functions, 0)
}

pub fn stmt_contains_return(s: &Stmt) -> (r: bool)
    ensures
        r == contains_return(s@),
    decreases s,
{
    match s {
        Stmt::ReturnInt(_) => true,
        Stmt::If { then_branch, else_branch, .. } => {
            proof {
                lemma_seq_view(*then_branch);
                lemma_seq_view(*else_branch);
            }
            any_stmt_returns(then_branch) || any_stmt_returns(else_branch)
        },
        Stmt::While { body, .. } => {
            proof {
                lemma_seq_view(*body);
            }
            any_stmt_returns(body)
        },
        Stmt::ForRange { body, .. } => {
            proof {
                lemma_seq_view(*body);
            }
            any_stmt_returns(body)
        },
        Stmt::Await(inner) => stmt_contains_return(inner),
        _ => false,
    }
}

fn any_stmt_returns(v: &Vec<Stmt>) -> (r: bool)
    ensures
        r == any_return(stmts_view(v@), v@.len()),
    decreases v,
{
    let mut i: usize = 0;
    while i < v.len()
        invariant
            i <= v.len(),
            !any_return(stmts_view(v@), i as nat),
        decreases v.len() - i,
    {
        if stmt_contains_return(&v[i]) {
            proof {
                lemma_any_return_mono(stmts_view(v@), (i + 1) as nat, v@.len());
            }
            return true;
        }
        i = i + 1;
    }
    false
}

proof fn lemma_any_return_mono(v: Seq<StmtV>, m: nat, n: nat)
    requires
        m <= n <= v.len(),
        any_return(v, m),
    ensures
        any_return(v, n),
    decreases n - m,
{
    if m < n {
        lemma_any_return_mono(v, m, (n - 1) as nat);
    }
}

fn line_prefix_exec(line: usize) -> (r: String)
    ensures
        r@ == line_prefix(line as nat),
{
    let mut out = String::from_str("行 ");
    push_decimal(&mut out, line as u64);
    out.append(": ");
    out
}

fn check_one(f: &Function) -> (r: Result<(), VoltError>)
    ensures
        match check_function(f@) {
            Some((m, l)) => r matches Err(VoltError::Check { message, line }) && message@ == m
                && line as nat == l,
            None => r is Ok,
        },
{
    let entry = equals_exec(&chars_of(f.name.as_str()), &chars_of("main"));
    if entry {
        match &f.return_type {
            Some(TypeAnnotation::Int) | Some(TypeAnnotation::Void) => {},
            Some(other) => {
                let mut m = line_prefix_exec(f.line);
                m.append("main は戻り値型として int もしくは void を明示してください (指定: ");
                m.append(other.as_str());
                m.append(")");
                return Err(VoltError::check(m, f.line));
            },
            None => {
                let mut m = line_prefix_exec(f.line);
                m.append("main は戻り値型として int もしくは void を明示してください");
                return Err(VoltError::check(m, f.line));
            },
        }
    }
    let expects_int = matches!(f.return_type, Some(TypeAnnotation::Int));
    let mut k: usize = 0;
    while k < f.body.len()
        invariant
            k <= f.body.len(),
            !is_main(f@) || f@.return_type == Some(TypeV::Int) || f@.return_type == Some(
                TypeV::Void,
            ),
            expects_int == (declared_type(f@) == TypeV::Int),
            first_return_from(f@.body, 0) == first_return_from(f@.body, k as int),
        decreases f.body.len() - k,
    {
        assert(f@.body[k as int] == (f.body@[k as int].value@, f.body@[k as int].line as nat));
        if stmt_contains_return(&f.body[k].value) {
            if !expects_int {
                let mut m = line_prefix_exec(f.body[k].line);
                m.append("関数 ");
                m.append(f.name.as_str());
                m.append(" は ");
                match &f.return_type {
                    Some(t) => m.append(t.as_str()),
                    None => m.append("void"),
                }
                m.append(" を返すべきなのに、int を返しています");
                return Err(VoltError::check(m, f.body[k].line));
            }
            return Ok(());
        }
        k = k + 1;
    }
    if !entry && expects_int {
        let n = f.body.len();
        let line = if n > 0 {
            assert(f@.body.last() == (f.body@[n - 1].value@, f.body@[n - 1].line as nat));
            f.body[n - 1].line
        } else {
            f.line
        };
        let mut m = line_prefix_exec(line);
        m.append("関数 ");
        m.append(f.name.as_str());
        m.append(" は int を返す必要がありますが、return が見つかりません");
        return Err(VoltError::check(m, line));
    }
    Ok(())
}

/// Checks every function's return type against its body, in order, and
/// stops at the first failure.
pub fn type_check(program: &Program) -> (r: Result<(), VoltError>)
    ensures
        match check_program(program@) {
            Some((m, l)) => r matches Err(VoltError::Check { message, line }) && message@ == m
                && line as nat == l,
            None => r is Ok,
        },
{
    let mut i: usize = 0;
    while i < program.functions.len()
        invariant
            i <= program.functions.len(),
            check_program(program@) == check_from(program@.functions, i as int),
        decreases program.functions.len() - i,
    {
        assert(program@.functions[i as int] == program.functions@[i as int]@);
        match check_one(&program.functions[i]) {
            Ok(()) => {},
            Err(e) => {
                return Err(e);
            },
        }
        i = i + 1;
    }
    Ok(())
}

proof fn lemma_first_return_found(body: Seq<(StmtV, nat)>, k: int, j: int)
    requires
        0 <= k <= j < body.len(),
        contains_return(body[j].0),
    ensures
        first_return_from(body, k) is Some,
    decreases j - k,
{
    if k < j && !contains_return(body[k].0) {
        lemma_first_return_found(body, k + 1, j);
    }
}

proof fn lemma_first_return_none(body: Seq<(StmtV, nat)>, k: int)
    requires
        0 <= k <= body.len(),
    ensures
        first_return_from(body, k) is None <==> forall|j: int|
            k <= j < body.len() ==> !contains_return(#[trigger] body[j].0),
    decreases body.len() - k,
{
    if k < body.len() {
        lemma_first_return_none(body, k + 1);
        if first_return_from(body, k) is None {
            assert forall|j: int| k <= j < body.len() implies !contains_return(
                #[trigger] body[j].0,
            ) by {}
        }
    }
}

/// A function other than the entry function that is annotated `int` fails
/// the check exactly when no statement of its body holds a `return` with a
/// value, nested `if`, `while`, `for` and `await` bodies included.
pub proof fn lemma_int_function_needs_return(f: FunctionV)
    requires
        !is_main(f),
        f.return_type == Some(TypeV::Int),
    ensures
        check_function(f) is Some <==> forall|j: int|
            0 <= j < f.body.len() ==> !contains_return(#[trigger] f.body[j].0),
        check_function(f) is Some ==> check_function(f) == Some(
            (missing_return_message(f), missing_return_line(f)),
        ),
{
    lemma_first_return_none(f.body, 0);
}

/// Adding to such a function a statement that holds a `return` with a value,
/// also one nested in an `if`, `while` or `for` body, makes it pass.
pub proof fn lemma_added_return_passes(f: FunctionV, s: StmtV, line: nat)
    requires
        !is_main(f),
        f.return_type == Some(TypeV::Int),
        contains_return(s),
    ensures
        check_function(FunctionV { body: f.body.push((s, line)), ..f }) is None,
{
    let g = FunctionV { body: f.body.push((s, line)), ..f };
    lemma_first_return_found(g.body, 0, f.body.len() as int);
}

/// A `return` nested in the first branch of an `if`, in a `while` body or in
/// a `for` body counts as a return of the enclosing statement.
pub proof fn lemma_nested_return(c: Condition, v: i32, var: Seq<char>, a: i32, b: i32)
    ensures
        contains_return(StmtV::If(c, seq![StmtV::ReturnInt(v)], Seq::empty())),
        contains_return(StmtV::While(c, seq![StmtV::ReturnInt(v)])),
        contains_return(StmtV::ForRange(var, a, b, seq![StmtV::ReturnInt(v)])),
{
    let body = seq![StmtV::ReturnInt(v)];
    assert(body[0] == StmtV::ReturnInt(v));
    assert(contains_return(body[0]));
    assert(any_return(body, 1));
}

/// The entry function fails the check when it is annotated `string`, with
/// an unknown type, or not at all; it passes when annotated `int`, and when
/// annotated `void` with no `return` carrying a value.
pub proof fn lemma_entry_annotation(f: FunctionV)
    requires
        is_main(f),
    ensures
        (f.return_type is None || f.return_type == Some(TypeV::Str)
            || f.return_type matches Some(TypeV::Unknown(_))) ==> check_function(f) == Some(
            (main_type_message(f), f.line),
        ),
        f.return_type == Some(TypeV::Int) ==> check_function(f) is None,
        (f.return_type == Some(TypeV::Void) && forall|j: int|
            0 <= j < f.body.len() ==> !contains_return(#[trigger] f.body[j].0)) ==> check_function(
            f,
        ) is None,
{
    lemma_first_return_none(f.body, 0);
}

/// A block with a `return` added at its end holds a `return`, so an `if`,
/// `while` or `for` with such a block does too.
pub proof fn lemma_return_added_to_block(
    c: Condition,
    t: Seq<StmtV>,
    e: Seq<StmtV>,
    v: i32,
    var: Seq<char>,
    a: i32,
    b: i32,
)
    ensures
        contains_return(StmtV::If(c, t.push(StmtV::ReturnInt(v)), e)),
        contains_return(StmtV::If(c, t, e.push(StmtV::ReturnInt(v)))),
        contains_return(StmtV::While(c, t.push(StmtV::ReturnInt(v)))),
        contains_return(StmtV::ForRange(var, a, b, t.push(StmtV::ReturnInt(v)))),
{
    let t2 = t.push(StmtV::ReturnInt(v));
    let e2 = e.push(StmtV::ReturnInt(v));
    assert(t2[t.len() as int] == StmtV::ReturnInt(v));
    assert(e2[e.len() as int] == StmtV::ReturnInt(v));
    assert(contains_return(StmtV::ReturnInt(v)));
    assert(contains_return(t2[t2.len() - 1]));
    assert(contains_return(e2[e2.len() - 1]));
    assert(any_return(t2, t2.len()));
    assert(any_return(e2, e2.len()));
}

/// Replacing a statement of such a function's body by one that holds a
/// `return` with a value, however deeply nested, makes it pass.
pub proof fn lemma_replaced_return_passes(f: FunctionV, k: int, s: StmtV)
    requires
        !is_main(f),
        f.return_type == Some(TypeV::Int),
        0 <= k < f.body.len(),
        contains_return(s),
    ensures
        check_function(FunctionV { body: f.body.update(k, (s, f.body[k].1)), ..f }) is None,
{
    let g = FunctionV { body: f.body.update(k, (s, f.body[k].1)), ..f };
    lemma_first_return_found(g.body, 0, k);
}

} // verus!
