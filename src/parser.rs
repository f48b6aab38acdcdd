//! The line-oriented parser: statements, inline blocks, imports, function
//! signatures and whole programs.
use vstd::prelude::*;
use vstd::string::*;
use crate::ast::{
    body_view, function_views, import_views, string_views, Function, FunctionV, Import, ImportV,
    Program, ProgramV, Spanned, TypeAnnotation, TypeV, opt_type_view, lemma_for_view, lemma_if_view, lemma_while_view, stmts_view, Condition, LogLevel, Stmt, StmtV,
};
use crate::diagnostics::VoltError;
use crate::numbers::{parse_i32, parse_i32_spec, parse_u64, parse_u64_spec};
use crate::text::{
    chars_of, equals_exec, ends_with_exec, rsplit_once_exec, slice, split_exec, split_once_exec,
    starts_with_exec, strip_prefix_exec, to_string, trim_end_matches_exec, trim_matches_exec,
    trim_start_matches_exec, trim_vec, views, ends_with, lemma_split_len, lemma_split_once_len, lemma_trim_len, lemma_trim_matches_len,
    contains, contains_exec, find_exec, find_from, lemma_find_from_occurs, rsplit_once, split,
    split_once, starts_with, strip_prefix, trim, trim_end_matches,
    trim_matches, trim_start_matches,
};

verus! {

/// The contents of a quoted literal: whitespace and surrounding quotes
/// stripped, then each `\"` read as `"`.
pub open spec fn quoted_text(s: Seq<char>) -> Seq<char> {
    unescape_quotes(trim_matches(trim(s), '"'))
}

pub open spec fn unescape_quotes(s: Seq<char>) -> Seq<char>
    decreases s.len(),
{
    if s.len() >= 2 && s[0] == '\\' && s[1] == '"' {
        seq!['"'] + unescape_quotes(s.skip(2))
    } else if s.len() > 0 {
        seq![s[0]] + unescape_quotes(s.skip(1))
    } else {
        Seq::empty()
    }
}

/// The text of an inline block between its braces.
pub open spec fn block_text(raw: Seq<char>) -> Seq<char> {
    trim(trim_end_matches(raw, "}"@))
}

pub open spec fn parse_condition_spec(raw: Seq<char>) -> Result<Condition, Seq<char>> {
    let c = trim(raw);
    if c == "true"@ {
        Ok(Condition::BoolLiteral(true))
    } else if c == "false"@ {
        Ok(Condition::BoolLiteral(false))
    } else {
        Err("条件式がサポートされていません: "@ + c)
    }
}

pub open spec fn log_level_of(level: Seq<char>) -> Option<LogLevel> {
    if level == "log.info"@ {
        Some(LogLevel::Info)
    } else if level == "log.warn"@ {
        Some(LogLevel::Warn)
    } else if level == "log.error"@ {
        Some(LogLevel::Error)
    } else {
        None
    }
}

/// The statements of an inline block, split on `;`.
pub open spec fn parse_inline_block_spec(raw: Seq<char>) -> Result<Seq<StmtV>, Seq<char>>
    decreases raw.len(), 3int, 0int,
{
    if raw.len() == 0 {
        Ok(Seq::empty())
    } else {
        block_parts_spec(raw, split(raw, ';'), 0, Seq::empty())
    }
}

pub open spec fn block_parts_spec(
    raw: Seq<char>,
    parts: Seq<Seq<char>>,
    i: int,
    acc: Seq<StmtV>,
) -> Result<Seq<StmtV>, Seq<char>>
    decreases raw.len(), 2int, parts.len() - i,
{
    if i < 0 || i >= parts.len() || parts != split(raw, ';') {
        Ok(acc)
    } else {
        let t = trim(parts[i]);
        if t.len() == 0 {
            block_parts_spec(raw, parts, i + 1, acc)
        } else {
            proof {
                lemma_split_len(raw, ';');
                lemma_trim_len(parts[i]);
            }
            match parse_stmt_core_spec(t) {
                Ok(s) => block_parts_spec(raw, parts, i + 1, acc.push(s)),
                Err(e) => Err(e),
            }
        }
    }
}

pub proof fn lemma_block_text_len(raw: Seq<char>)
    ensures
        block_text(raw).len() <= raw.len(),
{
    lemma_trim_matches_len(raw, "}"@);
    lemma_trim_len(trim_end_matches(raw, "}"@));
}

/// One statement, dispatched on its leading text in a fixed order; an
/// `await ` prefix wraps one statement that is not itself awaited.
pub open spec fn parse_stmt_core_spec(t: Seq<char>) -> Result<StmtV, Seq<char>>
    decreases t.len(), 1int, 0int,
{
    if let Some(rest) = strip_prefix(t, "if "@) {
        match split_once(rest, "{"@) {
            None => Err("if 文は { が必要です: "@ + t),
            Some((cond_raw, branches_raw)) => match parse_condition_spec(trim(cond_raw)) {
                Err(e) => Err(e),
                Ok(cond) => {
                    let then_raw = match rsplit_once(branches_raw, "} else {"@) {
                        Some((a, _)) => a,
                        None => branches_raw,
                    };
                    proof {
                        reveal_strlit("if ");
                        lemma_split_once_len(rest, "{"@);
                        lemma_split_once_len(branches_raw, "} else {"@);
                        lemma_block_text_len(then_raw);
                        if let Some((_, b)) = rsplit_once(branches_raw, "} else {"@) {
                            lemma_block_text_len(b);
                        }
                    }
                    match parse_inline_block_spec(block_text(then_raw)) {
                        Err(e) => Err(e),
                        Ok(then_branch) => match rsplit_once(branches_raw, "} else {"@) {
                            Some((_, else_raw)) => match parse_inline_block_spec(
                                block_text(else_raw),
                            ) {
                                Err(e) => Err(e),
                                Ok(else_branch) => Ok(StmtV::If(cond, then_branch, else_branch)),
                            },
                            None => Ok(StmtV::If(cond, then_branch, Seq::empty())),
                        },
                    }
                },
            },
        }
    } else if let Some(rest) = strip_prefix(t, "while "@) {
        match split_once(rest, "{"@) {
            None => Err("while 文は { が必要です: "@ + t),
            Some((cond_raw, body_raw)) => match parse_condition_spec(trim(cond_raw)) {
                Err(e) => Err(e),
                Ok(cond) => {
                    proof {
                        reveal_strlit("while ");
                        lemma_split_once_len(rest, "{"@);
                        lemma_block_text_len(body_raw);
                    }
                    match parse_inline_block_spec(block_text(body_raw)) {
                        Err(e) => Err(e),
                        Ok(body) => Ok(StmtV::While(cond, body)),
                    }
                },
            },
        }
    } else if let Some(rest) = strip_prefix(t, "for "@) {
        match split_once(rest, "{"@) {
            None => Err("for 文は { が必要です: "@ + t),
            Some((head, body_raw)) => match split_once(trim(head), " in "@) {
                None => Err("for 文は 'for <var> in <start>..<end>' 形式です: "@ + head),
                Some((var_part, range_part)) => match split_once(range_part, ".."@) {
                    None => Err("for の range は start..end 形式です: "@ + range_part),
                    Some((start_raw, end_raw)) => match parse_i32_spec(trim(start_raw)) {
                        None => Err("for range start は整数である必要があります"@),
                        Some(start) => match parse_i32_spec(trim(end_raw)) {
                            None => Err("for range end は整数である必要があります"@),
                            Some(end) => {
                                proof {
                                    reveal_strlit("for ");
                                    lemma_split_once_len(rest, "{"@);
                                    lemma_block_text_len(body_raw);
                                }
                                match parse_inline_block_spec(block_text(body_raw)) {
                                    Err(e) => Err(e),
                                    Ok(body) => Ok(
                                        StmtV::ForRange(trim(var_part), start, end, body),
                                    ),
                                }
                            },
                        },
                    },
                },
            },
        }
    } else if starts_with(t, "print("@) && ends_with(t, ")"@) {
        Ok(StmtV::Print(quoted_text(trim_end_matches(trim_start_matches(t, "print("@), ")"@))))
    } else if starts_with(t, "log."@) {
        match split_once(t, "("@) {
            None => Err("invalid log call: "@ + t),
            Some((level_raw, rest)) => {
                let level = trim_end_matches(level_raw, "."@);
                match log_level_of(level) {
                    Some(l) => Ok(StmtV::Log(l, quoted_text(trim_end_matches(rest, ")"@)))),
                    None => Err(
                        "unsupported log level '"@ + level
                            + "'; use log.info/log.warn/log.error"@,
                    ),
                }
            },
        }
    } else if let Some(rest) = strip_prefix(t, "fs.readFile("@) {
        Ok(StmtV::ReadFile(quoted_text(trim_end_matches(rest, ")"@))))
    } else if let Some(rest) = strip_prefix(t, "fs.writeFile("@) {
        match split_once(trim_end_matches(rest, ")"@), ","@) {
            None => Err("fs.writeFile expects path and contents"@),
            Some((path, contents)) => Ok(StmtV::WriteFile(quoted_text(path), quoted_text(contents))),
        }
    } else if let Some(rest) = strip_prefix(t, "time.sleep("@) {
        match parse_u64_spec(trim(trim_end_matches(rest, ")"@))) {
            None => Err("expected integer milliseconds for time.sleep"@),
            Some(ms) => Ok(StmtV::SleepMs(ms)),
        }
    } else if t == "time.now()"@ {
        Ok(StmtV::TimeNow)
    } else if let Some(rest) = strip_prefix(t, "return "@) {
        match parse_i32_spec(trim(rest)) {
            None => Err("expected integer return value"@),
            Some(v) => Ok(StmtV::ReturnInt(v)),
        }
    } else if let Some(rest) = strip_prefix(t, "await "@) {
        proof {
            reveal_strlit("await ");
        }
        match parse_stmt_core_spec(rest) {
            Ok(s) => if s is Await {
                Err("nested await is not supported: "@ + t)
            } else {
                Ok(StmtV::Await(Box::new(s)))
            },
            Err(e) => Err(e),
        }
    } else if ends_with(t, "()"@) && trim(trim_end_matches(t, "()"@)).len() > 0 {
        Ok(StmtV::Call(trim(trim_end_matches(t, "()"@))))
    } else {
        Err("unsupported statement: "@ + t)
    }
}

/// One function-body line: trimmed and its trailing `;` dropped.
pub open spec fn parse_stmt_spec(line: Seq<char>) -> Result<StmtV, Seq<char>> {
    parse_stmt_core_spec(trim_end_matches(trim(line), ";"@))
}

pub open spec fn stmt_result(r: Result<Stmt, String>) -> Result<StmtV, Seq<char>> {
    match r {
        Ok(s) => Ok(s@),
        Err(m) => Err(m@),
    }
}

pub open spec fn block_result(r: Result<Vec<Stmt>, String>) -> Result<Seq<StmtV>, Seq<char>> {
    match r {
        Ok(v) => Ok(stmts_view(v@)),
        Err(m) => Err(m@),
    }
}

fn unescape_quotes_exec(v: &Vec<char>) -> (r: Vec<char>)
    ensures
        r@ == unescape_quotes(v@),
{
    let mut out: Vec<char> = Vec::new();
    let mut i: usize = 0;
    assert(v@.skip(0) =~= v@);
    while i < v.len()
        invariant
            i <= v.len(),
            unescape_quotes(v@) == out@ + unescape_quotes(v@.skip(i as int)),
        decreases v.len() - i,
    {
        let ghost rest = v@.skip(i as int);
        if i + 1 < v.len() && v[i] == '\\' && v[i + 1] == '"' {
            out.push('"');
            assert(rest.skip(2) =~= v@.skip(i + 2));
            i = i + 2;
        } else {
            out.push(v[i]);
            assert(rest.skip(1) =~= v@.skip(i + 1));
            i = i + 1;
        }
        assert(unescape_quotes(v@) =~= out@ + unescape_quotes(v@.skip(i as int)));
    }
    assert(v@.skip(i as int) =~= Seq::<char>::empty());
    assert(out@ + Seq::<char>::empty() =~= out@);
    out
}

fn quoted_text_exec(v: &Vec<char>) -> (r: String)
    ensures
        r@ == quoted_text(v@),
{
    let t = trim_vec(v);
    let u = trim_matches_exec(&t, '"');
    to_string(&unescape_quotes_exec(&u))
}

fn block_text_exec(raw: &Vec<char>) -> (r: Vec<char>)
    ensures
        r@ == block_text(raw@),
{
    let t = trim_end_matches_exec(raw, &chars_of("}"));
    trim_vec(&t)
}

/// Appends `tail` to the text `head`.
fn message(head: &str, tail: &Vec<char>) -> (r: String)
    ensures
        r@ == head@ + tail@,
{
    let t = to_string(tail);
    String::from_str(head).concat(t.as_str())
}

fn parse_condition(raw: &Vec<char>) -> (r: Result<Condition, String>)
    ensures
        match r {
            Ok(c) => parse_condition_spec(raw@) == Ok::<Condition, Seq<char>>(c),
            Err(m) => parse_condition_spec(raw@) == Err::<Condition, Seq<char>>(m@),
        },
{
    let c = trim_vec(raw);
    let t = chars_of("true");
    let f = chars_of("false");
    if starts_with_exec(&c, &t) && c.len() == t.len() {
        assert(c@ =~= t@);
        Ok(Condition::BoolLiteral(true))
    } else if starts_with_exec(&c, &f) && c.len() == f.len() {
        assert(c@ =~= f@);
        Ok(Condition::BoolLiteral(false))
    } else {
        assert(c@ != t@ && c@ != f@) by {
            if c@ == t@ {
                assert(c@.subrange(0, t@.len() as int) =~= t@);
            }
            if c@ == f@ {
                assert(c@.subrange(0, f@.len() as int) =~= f@);
            }
        }
        Err(message("条件式がサポートされていません: ", &c))
    }
}

fn log_level(level: &Vec<char>) -> (r: Option<LogLevel>)
    ensures
        r == log_level_of(level@),
{
    if equals_exec(level, &chars_of("log.info")) {
        Some(LogLevel::Info)
    } else if equals_exec(level, &chars_of("log.warn")) {
        Some(LogLevel::Warn)
    } else if equals_exec(level, &chars_of("log.error")) {
        Some(LogLevel::Error)
    } else {
        None
    }
}

/// The statements of an inline block, split on `;`.
pub fn parse_inline_block(raw: &Vec<char>) -> (r: Result<Vec<Stmt>, String>)
    ensures
        block_result(r) == parse_inline_block_spec(raw@),
    decreases raw@.len(), 3int, 0int,
{
    let mut acc: Vec<Stmt> = Vec::new();
    if raw.len() == 0 {
        assert(stmts_view(acc@) =~= Seq::<StmtV>::empty());
        return Ok(acc);
    }
    let parts = split_exec(raw, ';');
    let mut i: usize = 0;
    assert(stmts_view(acc@) =~= Seq::<StmtV>::empty());
    while i < parts.len()
        invariant
            views(parts@) == split(raw@, ';'),
            i <= parts.len(),
            raw@.len() > 0,
            parse_inline_block_spec(raw@) == block_parts_spec(
                raw@,
                split(raw@, ';'),
                i as int,
                stmts_view(acc@),
            ),
        decreases parts.len() - i,
    {
        assert(views(parts@)[i as int] == parts@[i as int]@);
        let t = trim_vec(&parts[i]);
        if t.len() > 0 {
            proof {
                lemma_split_len(raw@, ';');
                lemma_trim_len(parts@[i as int]@);
            }
            match parse_stmt_core(&t) {
                Ok(s) => {
                    let ghost before = stmts_view(acc@);
                    acc.push(s);
                    assert(stmts_view(acc@) =~= before.push(s@));
                },
                Err(e) => {
                    return Err(e);
                },
            }
        }
        i = i + 1;
    }
    Ok(acc)
}

/// One statement, possibly awaited once.
pub fn parse_stmt_core(t: &Vec<char>) -> (r: Result<Stmt, String>)
    ensures
        stmt_result(r) == parse_stmt_core_spec(t@),
    decreases t@.len(), 1int, 0int,
{
    let brace = chars_of("{");
    if let Some(rest) = strip_prefix_exec(t, &chars_of("if ")) {
        let (cond_raw, branches_raw) = match split_once_exec(&rest, &brace) {
            Some(p) => p,
            None => {
                return Err(message("if 文は { が必要です: ", t));
            },
        };
        let cond = match parse_condition(&trim_vec(&cond_raw)) {
            Ok(c) => c,
            Err(e) => {
                return Err(e);
            },
        };
        let split_else = rsplit_once_exec(&branches_raw, &chars_of("} else {"));
        let then_block = match &split_else {
            Some(p) => block_text_exec(&p.0),
            None => block_text_exec(&branches_raw),
        };
        proof {
            reveal_strlit("if ");
            lemma_split_once_len(rest@, "{"@);
            lemma_split_once_len(branches_raw@, "} else {"@);
            lemma_block_text_len(branches_raw@);
            if let Some((a, b)) = rsplit_once(branches_raw@, "} else {"@) {
                lemma_block_text_len(a);
                lemma_block_text_len(b);
            }
        }
        let then_branch = match parse_inline_block(&then_block) {
            Ok(b) => b,
            Err(e) => {
                return Err(e);
            },
        };
        let else_branch = match &split_else {
            Some(p) => {
                let else_block = block_text_exec(&p.1);
                match parse_inline_block(&else_block) {
                    Ok(b) => b,
                    Err(e) => {
                        return Err(e);
                    },
                }
            },
            None => Vec::new(),
        };
        assert(split_else is None ==> stmts_view(else_branch@) =~= Seq::<StmtV>::empty());
        proof {
            lemma_if_view(cond, then_branch, else_branch);
        }
        return Ok(Stmt::If { condition: cond, then_branch, else_branch });
    }
    if let Some(rest) = strip_prefix_exec(t, &chars_of("while ")) {
        let (cond_raw, body_raw) = match split_once_exec(&rest, &brace) {
            Some(p) => p,
            None => {
                return Err(message("while 文は { が必要です: ", t));
            },
        };
        let cond = match parse_condition(&trim_vec(&cond_raw)) {
            Ok(c) => c,
            Err(e) => {
                return Err(e);
            },
        };
        let body_block = block_text_exec(&body_raw);
        proof {
            reveal_strlit("while ");
            lemma_split_once_len(rest@, "{"@);
            lemma_block_text_len(body_raw@);
        }
        let body = match parse_inline_block(&body_block) {
            Ok(b) => b,
            Err(e) => {
                return Err(e);
            },
        };
        proof {
            lemma_while_view(cond, body);
        }
        return Ok(Stmt::While { condition: cond, body });
    }
    if let Some(rest) = strip_prefix_exec(t, &chars_of("for ")) {
        let (head, body_raw) = match split_once_exec(&rest, &brace) {
            Some(p) => p,
            None => {
                return Err(message("for 文は { が必要です: ", t));
            },
        };
        let (var_part, range_part) = match split_once_exec(&trim_vec(&head), &chars_of(" in ")) {
            Some(p) => p,
            None => {
                return Err(message("for 文は 'for <var> in <start>..<end>' 形式です: ", &head));
            },
        };
        let (start_raw, end_raw) = match split_once_exec(&range_part, &chars_of("..")) {
            Some(p) => p,
            None => {
                return Err(message("for の range は start..end 形式です: ", &range_part));
            },
        };
        let start = match parse_i32(&trim_vec(&start_raw)) {
            Some(v) => v,
            None => {
                return Err(String::from_str("for range start は整数である必要があります"));
            },
        };
        let end = match parse_i32(&trim_vec(&end_raw)) {
            Some(v) => v,
            None => {
                return Err(String::from_str("for range end は整数である必要があります"));
            },
        };
        let body_block = block_text_exec(&body_raw);
        proof {
            reveal_strlit("for ");
            lemma_split_once_len(rest@, "{"@);
            lemma_block_text_len(body_raw@);
        }
        let body = match parse_inline_block(&body_block) {
            Ok(b) => b,
            Err(e) => {
                return Err(e);
            },
        };
        let var = to_string(&trim_vec(&var_part));
        proof {
            lemma_for_view(var, start, end, body);
        }
        return Ok(Stmt::ForRange { var, start, end, body });
    }
    let close = chars_of(")");
    if starts_with_exec(t, &chars_of("print(")) && ends_with_exec(t, &close) {
        let inner = trim_end_matches_exec(&trim_start_matches_exec(t, &chars_of("print(")), &close);
        return Ok(Stmt::Print(quoted_text_exec(&inner)));
    }
    if starts_with_exec(t, &chars_of("log.")) {
        let (level_raw, rest) = match split_once_exec(t, &chars_of("(")) {
            Some(p) => p,
            None => {
                return Err(message("invalid log call: ", t));
            },
        };
        let level = trim_end_matches_exec(&level_raw, &chars_of("."));
        return match log_level(&level) {
            Some(l) => Ok(
                Stmt::Log { level: l, message: quoted_text_exec(&trim_end_matches_exec(&rest, &close)) },
            ),
            None => {
                let m = message("unsupported log level '", &level);
                Err(m.concat("'; use log.info/log.warn/log.error"))
            },
        };
    }
    if let Some(rest) = strip_prefix_exec(t, &chars_of("fs.readFile(")) {
        let path = quoted_text_exec(&trim_end_matches_exec(&rest, &close));
        return Ok(Stmt::FsReadFile { path });
    }
    if let Some(rest) = strip_prefix_exec(t, &chars_of("fs.writeFile(")) {
        let inner = trim_end_matches_exec(&rest, &close);
        return match split_once_exec(&inner, &chars_of(",")) {
            Some((a, b)) => Ok(
                Stmt::FsWriteFile { path: quoted_text_exec(&a), contents: quoted_text_exec(&b) },
            ),
            None => Err(String::from_str("fs.writeFile expects path and contents")),
        };
    }
    if let Some(rest) = strip_prefix_exec(t, &chars_of("time.sleep(")) {
        return match parse_u64(&trim_vec(&trim_end_matches_exec(&rest, &close))) {
            Some(ms) => Ok(Stmt::SleepMs(ms)),
            None => Err(String::from_str("expected integer milliseconds for time.sleep")),
        };
    }
    if equals_exec(t, &chars_of("time.now()")) {
        return Ok(Stmt::TimeNow);
    }
    if let Some(rest) = strip_prefix_exec(t, &chars_of("return ")) {
        return match parse_i32(&trim_vec(&rest)) {
            Some(v) => Ok(Stmt::ReturnInt(v)),
            None => Err(String::from_str("expected integer return value")),
        };
    }
    if let Some(rest) = strip_prefix_exec(t, &chars_of("await ")) {
        proof {
            reveal_strlit("await ");
        }
        return match parse_stmt_core(&rest) {
            Ok(s) => {
                if let Stmt::Await(_) = &s {
                    Err(message("nested await is not supported: ", t))
                } else {
                    Ok(Stmt::Await(Box::new(s)))
                }
            },
            Err(e) => Err(e),
        };
    }
    let parens = chars_of("()");
    if ends_with_exec(t, &parens) {
        let name = trim_vec(&trim_end_matches_exec(t, &parens));
        if name.len() > 0 {
            return Ok(Stmt::Call(to_string(&name)));
        }
    }
    Err(message("unsupported statement: ", t))
}

/// One function-body line: trimmed and its trailing `;` dropped.
pub fn parse_stmt(line: &Vec<char>) -> (r: Result<Stmt, String>)
    ensures
        stmt_result(r) == parse_stmt_spec(line@),
{
    let t = trim_end_matches_exec(&trim_vec(line), &chars_of(";"));
    parse_stmt_core(&t)
}

pub open spec fn names_of(parts: Seq<Seq<char>>, i: int, acc: Seq<Seq<char>>) -> Seq<Seq<char>>
    decreases parts.len() - i,
{
    if i < 0 || i >= parts.len() {
        acc
    } else {
        let n = trim(parts[i]);
        names_of(
            parts,
            i + 1,
            if n.len() > 0 {
                acc.push(n)
            } else {
                acc
            },
        )
    }
}

/// `import { n1, n2 } from "module"`, with a trailing `;` allowed.
pub open spec fn parse_import_spec(line: Seq<char>) -> Result<ImportV, Seq<char>> {
    let ws = trim(trim_end_matches(trim(line), ";"@));
    match strip_prefix(ws, "import"@) {
        None => Err("invalid import syntax: "@ + line),
        Some(after) => match split_once(trim(after), "}"@) {
            None => Err("import must include a closing brace ('}'): "@ + line),
            Some((names_part, rest)) => match strip_prefix(names_part, "{"@) {
                None => Err("import must start with '{': "@ + line),
                Some(block) => {
                    let names = names_of(split(block, ','), 0, Seq::empty());
                    if names.len() == 0 {
                        Err("import must list at least one name: "@ + line)
                    } else {
                        match strip_prefix(trim(rest), "from"@) {
                            None => Err("import missing 'from': "@ + line),
                            Some(m) => {
                                let module = trim_matches(trim(m), '"');
                                if module.len() == 0 {
                                    Err("import module path is empty: "@ + line)
                                } else {
                                    Ok(ImportV { names, module })
                                }
                            },
                        }
                    }
                },
            },
        },
    }
}

pub open spec fn import_result(r: Result<Import, String>) -> Result<ImportV, Seq<char>> {
    match r {
        Ok(i) => Ok(i@),
        Err(m) => Err(m@),
    }
}

pub fn parse_import(line: &Vec<char>) -> (r: Result<Import, String>)
    ensures
        import_result(r) == parse_import_spec(line@),
{
    let ws = trim_vec(&trim_end_matches_exec(&trim_vec(line), &chars_of(";")));
    let after = match strip_prefix_exec(&ws, &chars_of("import")) {
        Some(a) => a,
        None => {
            return Err(message("invalid import syntax: ", line));
        },
    };
    let (names_part, rest) = match split_once_exec(&trim_vec(&after), &chars_of("}")) {
        Some(p) => p,
        None => {
            return Err(message("import must include a closing brace ('}'): ", line));
        },
    };
    let block = match strip_prefix_exec(&names_part, &chars_of("{")) {
        Some(b) => b,
        None => {
            return Err(message("import must start with '{': ", line));
        },
    };
    let parts = split_exec(&block, ',');
    let mut names: Vec<String> = Vec::new();
    let mut i: usize = 0;
    assert(string_views(names@) =~= Seq::<Seq<char>>::empty());
    while i < parts.len()
        invariant
            i <= parts.len(),
            views(parts@) == split(block@, ','),
            names_of(split(block@, ','), 0, Seq::empty()) == names_of(
                split(block@, ','),
                i as int,
                string_views(names@),
            ),
        decreases parts.len() - i,
    {
        assert(views(parts@)[i as int] == parts@[i as int]@);
        let n = trim_vec(&parts[i]);
        if n.len() > 0 {
            let ghost before = string_views(names@);
            let ns = to_string(&n);
            names.push(ns);
            assert(string_views(names@) =~= before.push(n@));
        }
        i = i + 1;
    }
    if names.len() == 0 {
        return Err(message("import must list at least one name: ", line));
    }
    let m = match strip_prefix_exec(&trim_vec(&rest), &chars_of("from")) {
        Some(m) => m,
        None => {
            return Err(message("import missing 'from': ", line));
        },
    };
    let module = trim_matches_exec(&trim_vec(&m), '"');
    if module.len() == 0 {
        return Err(message("import module path is empty: ", line));
    }
    Ok(Import { names, module: to_string(&module) })
}

/// The annotation that a return-type text denotes.
pub open spec fn annotation_of(rt: Seq<char>) -> TypeV {
    if rt == "int"@ {
        TypeV::Int
    } else if rt == "string"@ {
        TypeV::Str
    } else if rt == "void"@ {
        TypeV::Void
    } else {
        TypeV::Unknown(rt)
    }
}

/// Name, return annotation and `async` marker of a signature line without its
/// `export ` prefix; the parameter list is ignored.
pub open spec fn parse_signature_spec(sig: Seq<char>) -> Result<
    (Seq<char>, Option<TypeV>, bool),
    Seq<char>,
> {
    let w0 = trim(trim_start_matches(sig, "export"@));
    let is_async = starts_with(w0, "async"@);
    let w1 = if is_async {
        trim(trim_start_matches(w0, "async"@))
    } else {
        w0
    };
    let w2 = trim(trim_start_matches(w1, "fn"@));
    match split_once(w2, "("@) {
        None => Err("invalid function signature: "@ + sig),
        Some((name_raw, after)) => {
            let rt = match find_from(after, ":"@, 0) {
                Some(idx) => {
                    let r = trim(trim_end_matches(trim(after.skip(idx + 1)), "{"@));
                    if r.len() == 0 {
                        None
                    } else {
                        Some(annotation_of(r))
                    }
                },
                None => None,
            };
            Ok((trim(name_raw), rt, is_async))
        },
    }
}

pub fn parse_type_annotation(raw: &Vec<char>) -> (r: TypeAnnotation)
    ensures
        r@ == annotation_of(raw@),
{
    if equals_exec(raw, &chars_of("int")) {
        TypeAnnotation::Int
    } else if equals_exec(raw, &chars_of("string")) {
        TypeAnnotation::String
    } else if equals_exec(raw, &chars_of("void")) {
        TypeAnnotation::Void
    } else {
        TypeAnnotation::Unknown(to_string(raw))
    }
}

pub fn parse_signature(sig: &Vec<char>) -> (r: Result<(String, Option<TypeAnnotation>, bool), String>)
    ensures
        match r {
            Ok((n, t, a)) => parse_signature_spec(sig@) == Ok::<
                (Seq<char>, Option<TypeV>, bool),
                Seq<char>,
            >((n@, opt_type_view(t), a)),
            Err(m) => parse_signature_spec(sig@) == Err::<
                (Seq<char>, Option<TypeV>, bool),
                Seq<char>,
            >(m@),
        },
{
    let w0 = trim_vec(&trim_start_matches_exec(sig, &chars_of("export")));
    let async_word = chars_of("async");
    let is_async = starts_with_exec(&w0, &async_word);
    let w1 = if is_async {
        trim_vec(&trim_start_matches_exec(&w0, &async_word))
    } else {
        w0
    };
    let w2 = trim_vec(&trim_start_matches_exec(&w1, &chars_of("fn")));
    let (name_raw, after) = match split_once_exec(&w2, &chars_of("(")) {
        Some(p) => p,
        None => {
            return Err(message("invalid function signature: ", sig));
        },
    };
    let colon = chars_of(":");
    proof {
        lemma_find_from_occurs(after@, colon@, 0);
        reveal_strlit(":");
    }
    let rt = match find_exec(&after, &colon) {
        Some(idx) => {
            let n = after.len();
            let r = trim_vec(&trim_end_matches_exec(&trim_vec(&slice(&after, idx + 1, n)), &chars_of("{")));
            assert(after@.subrange(idx + 1, n as int) =~= after@.skip(idx + 1));
            if r.len() == 0 {
                None
            } else {
                Some(parse_type_annotation(&r))
            }
        },
        None => None,
    };
    Ok((to_string(&trim_vec(&name_raw)), rt, is_async))
}

/// Where the program scanner stands: between functions, after a signature
/// whose `{` is still to come, or inside a function body.
#[derive(Debug, Clone, Copy, PartialEq, Eq, Structural)]
pub enum ScanMode {
    Top,
    AwaitBrace,
    Body,
}

pub open spec fn is_fn_start(t: Seq<char>) -> bool {
    starts_with(t, "export fn"@) || starts_with(t, "fn"@) || starts_with(t, "export async fn"@)
        || starts_with(t, "async fn"@)
}

/// A parse error: message and 1-based line.
pub type ParseErrV = (Seq<char>, nat);

/// The program scanner from line `i` on, with the function being read in
/// `cur` and what has been read so far.
pub open spec fn scan_spec(
    lines: Seq<Seq<char>>,
    i: int,
    mode: ScanMode,
    cur: FunctionV,
    imports: Seq<ImportV>,
    funcs: Seq<FunctionV>,
) -> Result<ProgramV, ParseErrV>
    decreases lines.len() - i,
{
    if i < 0 || i >= lines.len() {
        let all = if mode == ScanMode::Top {
            funcs
        } else {
            funcs.push(cur)
        };
        if all.len() == 0 {
            Err(("no functions found"@, 1))
        } else {
            Ok(ProgramV { imports, functions: all })
        }
    } else {
        let line = lines[i];
        let t = trim(line);
        let ln = (i + 1) as nat;
        match mode {
            ScanMode::Top => if t.len() == 0 || starts_with(t, "//"@) {
                scan_spec(lines, i + 1, mode, cur, imports, funcs)
            } else if starts_with(t, "import "@) {
                match parse_import_spec(t) {
                    Err(m) => Err((m, ln)),
                    Ok(imp) => scan_spec(lines, i + 1, mode, cur, imports.push(imp), funcs),
                }
            } else if is_fn_start(t) {
                let sig = match strip_prefix(t, "export "@) {
                    Some(r) => r,
                    None => t,
                };
                match parse_signature_spec(sig) {
                    Err(m) => Err((m, ln)),
                    Ok((name, rt, a)) => scan_spec(
                        lines,
                        i + 1,
                        if contains(sig, "{"@) {
                            ScanMode::Body
                        } else {
                            ScanMode::AwaitBrace
                        },
                        FunctionV {
                            name,
                            return_type: rt,
                            body: Seq::empty(),
                            is_async: a,
                            line: ln,
                        },
                        imports,
                        funcs,
                    ),
                }
            } else {
                scan_spec(lines, i + 1, mode, cur, imports, funcs)
            },
            ScanMode::AwaitBrace => scan_spec(
                lines,
                i + 1,
                if contains(line, "{"@) {
                    ScanMode::Body
                } else {
                    ScanMode::AwaitBrace
                },
                cur,
                imports,
                funcs,
            ),
            ScanMode::Body => if starts_with(t, "}"@) {
                scan_spec(lines, i + 1, ScanMode::Top, no_function(), imports, funcs.push(cur))
            } else if t.len() == 0 || starts_with(t, "//"@) {
                scan_spec(lines, i + 1, mode, cur, imports, funcs)
            } else {
                match parse_stmt_spec(t) {
                    Err(m) => Err((m, ln)),
                    Ok(st) => scan_spec(
                        lines,
                        i + 1,
                        mode,
                        FunctionV { body: cur.body.push((st, ln)), ..cur },
                        imports,
                        funcs,
                    ),
                }
            },
        }
    }
}

/// The function value that the scanner starts from.
pub open spec fn no_function() -> FunctionV {
    FunctionV {
        name: Seq::empty(),
        return_type: None,
        body: Seq::empty(),
        is_async: false,
        line: 0,
    }
}

/// A whole source text, read line by line.
pub open spec fn parse_program_spec(source: Seq<char>) -> Result<ProgramV, ParseErrV> {
    scan_spec(split(source, '\n'), 0, ScanMode::Top, no_function(), Seq::empty(), Seq::empty())
}

/// What a parse result is, over views.
pub open spec fn program_result(r: Result<Program, VoltError>) -> Result<ProgramV, ParseErrV> {
    match r {
        Ok(p) => Ok(p@),
        Err(VoltError::Parse { message, location }) => Err((message@, location.line as nat)),
        Err(_) => Err((Seq::empty(), 0)),
    }
}

pub open spec fn cur_view(
    name: String,
    rt: Option<TypeAnnotation>,
    body: Seq<Spanned>,
    is_async: bool,
    line: usize,
) -> FunctionV {
    FunctionV {
        name: name@,
        return_type: opt_type_view(rt),
        body: body_view(body),
        is_async,
        line: line as nat,
    }
}

/// Parses a whole program. Every error is a parse error at column 1.
pub fn parse_program(source: &str) -> (r: Result<Program, VoltError>)
    ensures
        program_result(r) == parse_program_spec(source@),
        r matches Err(e) ==> e matches VoltError::Parse { location, .. } && location.column == 1,
{
    let src = chars_of(source);
    let lines = split_exec(&src, '\n');
    let mut imports: Vec<Import> = Vec::new();
    let mut functions: Vec<Function> = Vec::new();
    let mut mode = ScanMode::Top;
    let mut c_name = String::new();
    let mut c_rt: Option<TypeAnnotation> = None;
    let mut c_body: Vec<Spanned> = Vec::new();
    let mut c_async = false;
    let mut c_line: usize = 0;
    let mut i: usize = 0;
    assert(import_views(imports@) =~= Seq::<ImportV>::empty());
    assert(function_views(functions@) =~= Seq::<FunctionV>::empty());
    assert(body_view(c_body@) =~= Seq::<(StmtV, nat)>::empty());
    assert(cur_view(c_name, c_rt, c_body@, c_async, c_line) == no_function());
    while i < lines.len()
        invariant
            i <= lines.len(),
            views(lines@) == split(src@, '\n'),
            src@ == source@,
            parse_program_spec(source@) == scan_spec(
                views(lines@),
                i as int,
                mode,
                cur_view(c_name, c_rt, c_body@, c_async, c_line),
                import_views(imports@),
                function_views(functions@),
            ),
        decreases lines.len() - i,
    {
        assert(views(lines@)[i as int] == lines@[i as int]@);
        let line = &lines[i];
        let t = trim_vec(line);
        let ln = i + 1;
        match mode {
            ScanMode::Top => {
                if t.len() == 0 || starts_with_exec(&t, &chars_of("//")) {
                    // a blank line or a comment
                } else if starts_with_exec(&t, &chars_of("import ")) {
                    match parse_import(&t) {
                        Ok(imp) => {
                            let ghost before = import_views(imports@);
                            imports.push(imp);
                            assert(import_views(imports@) =~= before.push(imp@));
                        },
                        Err(m) => {
                            return Err(VoltError::parse(m, ln, 1));
                        },
                    }
                } else if starts_with_exec(&t, &chars_of("export fn")) || starts_with_exec(
                    &t,
                    &chars_of("fn"),
                ) || starts_with_exec(&t, &chars_of("export async fn")) || starts_with_exec(
                    &t,
                    &chars_of("async fn"),
                ) {
                    let sig = match strip_prefix_exec(&t, &chars_of("export ")) {
                        Some(r) => r,
                        None => t,
                    };
                    match parse_signature(&sig) {
                        Ok((name, rt, a)) => {
                            mode = if contains_exec(&sig, &chars_of("{")) {
                                ScanMode::Body
                            } else {
                                ScanMode::AwaitBrace
                            };
                            c_name = name;
                            c_rt = rt;
                            c_body = Vec::new();
                            c_async = a;
                            c_line = ln;
                            assert(body_view(c_body@) =~= Seq::<(StmtV, nat)>::empty());
                        },
                        Err(m) => {
                            return Err(VoltError::parse(m, ln, 1));
                        },
                    }
                }
            },
            ScanMode::AwaitBrace => {
                if contains_exec(line, &chars_of("{")) {
                    mode = ScanMode::Body;
                }
            },
            ScanMode::Body => {
                if starts_with_exec(&t, &chars_of("}")) {
                    let ghost before = function_views(functions@);
                    let ghost cv = cur_view(c_name, c_rt, c_body@, c_async, c_line);
                    let f = Function {
                        name: c_name,
                        return_type: c_rt,
                        body: c_body,
                        is_async: c_async,
                        line: c_line,
                    };
                    assert(f@ == cv);
                    functions.push(f);
                    assert(function_views(functions@) =~= before.push(cv));
                    c_name = String::new();
                    c_rt = None;
                    c_body = Vec::new();
                    c_async = false;
                    c_line = 0;
                    mode = ScanMode::Top;
                    assert(body_view(c_body@) =~= Seq::<(StmtV, nat)>::empty());
                } else if t.len() == 0 || starts_with_exec(&t, &chars_of("//")) {
                    // a blank line or a comment
                } else {
                    match parse_stmt(&t) {
                        Ok(st) => {
                            let ghost before = body_view(c_body@);
                            let sp = Spanned { value: st, line: ln };
                            c_body.push(sp);
                            assert(body_view(c_body@) =~= before.push((st@, ln as nat)));
                        },
                        Err(m) => {
                            return Err(VoltError::parse(m, ln, 1));
                        },
                    }
                }
            },
        }
        i = i + 1;
    }
    if mode != ScanMode::Top {
        let ghost before = function_views(functions@);
        let ghost cv = cur_view(c_name, c_rt, c_body@, c_async, c_line);
        let f = Function {
            name: c_name,
            return_type: c_rt,
            body: c_body,
            is_async: c_async,
            line: c_line,
        };
        assert(f@ == cv);
        functions.push(f);
        assert(function_views(functions@) =~= before.push(cv));
    }
    if functions.len() == 0 {
        return Err(VoltError::parse(String::from_str("no functions found"), 1, 1));
    }
    Ok(Program { imports, functions })
}

} // verus!
