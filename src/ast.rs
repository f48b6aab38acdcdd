use vstd::prelude::*;

verus! {

/// An `import { names } from "module"` line.
#[derive(Debug)]
pub struct Import {
    pub names: Vec<String>,
    pub module: String,
}

pub struct ImportV {
    pub names: Seq<Seq<char>>,
    pub module: Seq<char>,
}

pub open spec fn string_views(v: Seq<String>) -> Seq<Seq<char>> {
    v.map_values(|n: String| n@)
}

impl View for Import {
    type V = ImportV;

    open spec fn view(&self) -> ImportV {
        ImportV { names: string_views(self.names@), module: self.module@ }
    }
}

/// A declared return type.
#[derive(Debug)]
pub enum TypeAnnotation {
    Int,
    String,
    Void,
    Unknown(String),
}

pub enum TypeV {
    Int,
    Str,
    Void,
    Unknown(Seq<char>),
}

impl View for TypeAnnotation {
    type V = TypeV;

    open spec fn view(&self) -> TypeV {
        match self {
            TypeAnnotation::Int => TypeV::Int,
            TypeAnnotation::String => TypeV::Str,
            TypeAnnotation::Void => TypeV::Void,
            TypeAnnotation::Unknown(raw) => TypeV::Unknown(raw@),
        }
    }
}

pub open spec fn opt_type_view(t: Option<TypeAnnotation>) -> Option<TypeV> {
    match t {
        Some(a) => Some(a@),
        None => None,
    }
}

/// The source text of an annotation.
pub open spec fn type_text(t: TypeV) -> Seq<char> {
    match t {
        TypeV::Int => "int"@,
        TypeV::Str => "string"@,
        TypeV::Void => "void"@,
        TypeV::Unknown(raw) => raw,
    }
}

impl TypeAnnotation {
    pub fn as_str(&self) -> (r: &str)
        ensures
            r@ == type_text(self@),
    {
        match self {
            TypeAnnotation::Int => "int",
            TypeAnnotation::String => "string",
            TypeAnnotation::Void => "void",
            TypeAnnotation::Unknown(raw) => raw.as_str(),
        }
    }
}

/// A leveled logging call of the source language.
#[derive(Debug, Clone, Copy, PartialEq, Eq, Structural)]
pub enum LogLevel {
    Info,
    Warn,
    Error,
}

/// A loop or branch condition; only boolean literals are representable.
#[derive(Debug, Clone, Copy, PartialEq, Eq, Structural)]
pub enum Condition {
    BoolLiteral(bool),
}

/// One statement of a function body or of an inline block.
#[derive(Debug)]
pub enum Stmt {
    Print(String),
    ReturnInt(i32),
    Log { level: LogLevel, message: String },
    SleepMs(u64),
    TimeNow,
    FsReadFile { path: String },
    FsWriteFile { path: String, contents: String },
    Call(String),
    Await(Box<Stmt>),
    If { condition: Condition, then_branch: Vec<Stmt>, else_branch: Vec<Stmt> },
    While { condition: Condition, body: Vec<Stmt> },
    ForRange { var: String, start: i32, end: i32, body: Vec<Stmt> },
}

/// The mathematical value of a statement.
pub enum StmtV {
    Print(Seq<char>),
    ReturnInt(i32),
    Log(LogLevel, Seq<char>),
    SleepMs(u64),
    TimeNow,
    ReadFile(Seq<char>),
    WriteFile(Seq<char>, Seq<char>),
    Call(Seq<char>),
    Await(Box<StmtV>),
    If(Condition, Seq<StmtV>, Seq<StmtV>),
    While(Condition, Seq<StmtV>),
    ForRange(Seq<char>, i32, i32, Seq<StmtV>),
}

/// The views of the first `n` statements of `v`.
pub open spec fn view_items(v: &Vec<Stmt>, n: nat) -> Seq<StmtV>
    decreases v, n,
{
    if n == 0 || n > v@.len() {
        Seq::empty()
    } else {
        view_items(v, (n - 1) as nat).push(v@[n - 1].view())
    }
}

impl View for Stmt {
    type V = StmtV;

    open spec fn view(&self) -> StmtV
        decreases self, 0nat,
    {
        match self {
            Stmt::Print(t) => StmtV::Print(t@),
            Stmt::ReturnInt(v) => StmtV::ReturnInt(*v),
            Stmt::Log { level, message } => StmtV::Log(*level, message@),
            Stmt::SleepMs(ms) => StmtV::SleepMs(*ms),
            Stmt::TimeNow => StmtV::TimeNow,
            Stmt::FsReadFile { path } => StmtV::ReadFile(path@),
            Stmt::FsWriteFile { path, contents } => StmtV::WriteFile(path@, contents@),
            Stmt::Call(n) => StmtV::Call(n@),
            Stmt::Await(inner) => StmtV::Await(Box::new((**inner).view())),
            Stmt::If { condition, then_branch, else_branch } => StmtV::If(
                *condition,
                view_items(then_branch, then_branch@.len()),
                view_items(else_branch, else_branch@.len()),
            ),
            Stmt::While { condition, body } => StmtV::While(
                *condition,
                view_items(body, body@.len()),
            ),
            Stmt::ForRange { var, start, end, body } => StmtV::ForRange(
                var@,
                *start,
                *end,
                view_items(body, body@.len()),
            ),
        }
    }
}

pub open spec fn stmts_view(v: Seq<Stmt>) -> Seq<StmtV> {
    v.map_values(|s: Stmt| s@)
}

proof fn lemma_view_items(v: Vec<Stmt>, n: nat)
    requires
        n <= v@.len(),
    ensures
        view_items(&v, n) == stmts_view(v@.take(n as int)),
    decreases n,
{
    if n > 0 {
        lemma_view_items(v, (n - 1) as nat);
        assert(stmts_view(v@.take(n as int)) =~= stmts_view(v@.take(n - 1)).push(v@[n - 1]@));
    } else {
        assert(stmts_view(v@.take(0)) =~= Seq::<StmtV>::empty());
    }
}

pub proof fn lemma_seq_view(v: Vec<Stmt>)
    ensures
        view_items(&v, v@.len()) == stmts_view(v@),
{
    lemma_view_items(v, v@.len());
    assert(v@.take(v@.len() as int) =~= v@);
}

pub proof fn lemma_if_view(c: Condition, t: Vec<Stmt>, e: Vec<Stmt>)
    ensures
        (Stmt::If { condition: c, then_branch: t, else_branch: e })@ == StmtV::If(
            c,
            stmts_view(t@),
            stmts_view(e@),
        ),
{
    lemma_seq_view(t);
    lemma_seq_view(e);
}

pub proof fn lemma_while_view(c: Condition, b: Vec<Stmt>)
    ensures
        (Stmt::While { condition: c, body: b })@ == StmtV::While(c, stmts_view(b@)),
{
    lemma_seq_view(b);
}

pub proof fn lemma_for_view(var: String, start: i32, end: i32, b: Vec<Stmt>)
    ensures
        (Stmt::ForRange { var, start, end, body: b })@ == StmtV::ForRange(
            var@,
            start,
            end,
            stmts_view(b@),
        ),
{
    lemma_seq_view(b);
}

/// A function-body statement tagged with its 1-based source line.
#[derive(Debug)]
pub struct Spanned {
    pub value: Stmt,
    pub line: usize,
}

/// A function: name, optional return annotation, line-tagged body, `async`
/// marker and the line of its signature.
#[derive(Debug)]
pub struct Function {
    pub name: String,
    pub return_type: Option<TypeAnnotation>,
    pub body: Vec<Spanned>,
    pub is_async: bool,
    pub line: usize,
}

pub struct FunctionV {
    pub name: Seq<char>,
    pub return_type: Option<TypeV>,
    pub body: Seq<(StmtV, nat)>,
    pub is_async: bool,
    pub line: nat,
}

pub open spec fn body_view(v: Seq<Spanned>) -> Seq<(StmtV, nat)> {
    v.map_values(|s: Spanned| (s.value@, s.line as nat))
}

impl View for Function {
    type V = FunctionV;

    open spec fn view(&self) -> FunctionV {
        FunctionV {
            name: self.name@,
            return_type: opt_type_view(self.return_type),
            body: body_view(self.body@),
            is_async: self.is_async,
            line: self.line as nat,
        }
    }
}

pub open spec fn import_views(v: Seq<Import>) -> Seq<ImportV> {
    v.map_values(|i: Import| i@)
}

pub open spec fn function_views(v: Seq<Function>) -> Seq<FunctionV> {
    v.map_values(|f: Function| f@)
}

/// Imports in order, then functions in order.
#[derive(Debug)]
pub struct Program {
    pub imports: Vec<Import>,
    pub functions: Vec<Function>,
}

pub struct ProgramV {
    pub imports: Seq<ImportV>,
    pub functions: Seq<FunctionV>,
}

impl View for Program {
    type V = ProgramV;

    open spec fn view(&self) -> ProgramV {
        ProgramV { imports: import_views(self.imports@), functions: function_views(self.functions@) }
    }
}

} // verus!
