//! Formatting and re-reading: a formatted plain program parses back to itself.
use vstd::prelude::*;
use crate::ast::{ImportV, Condition, type_text, FunctionV, LogLevel, ProgramV, StmtV, TypeV};
use crate::codegen::escape_quotes;
use crate::formatter::{
    import_source, join_names, inline_block, condition_source, body_line, body_text, format_spec,
    function_source, functions_source, imports_source, inline_stmt, level_name, quoted,
    signature_text,
};
use crate::numbers::{
    all_digits, decimal, digit_char, digits_value, int_text, is_digit, parse_i32_spec,
    parse_u64_spec,
};
use crate::parser::{
    names_of, parse_import_spec,
    block_parts_spec, block_text, parse_condition_spec, parse_inline_block_spec,
    annotation_of, is_fn_start, no_function, parse_program_spec, parse_signature_spec, scan_spec,
    ScanMode,
    log_level_of, parse_stmt_core_spec, parse_stmt_spec, quoted_text, unescape_quotes,
};
use crate::text::{
    rsplit_once, rfind_before,
    contains,
    split, split_acc,
    ends_with, find_from, is_ws, occurs_at, split_once, starts_with, strip_prefix, trim,
    trim_end, trim_end_matches, trim_matches, trim_start, trim_start_matches,
};

verus! {

pub open spec fn no_newline(t: Seq<char>) -> bool {
    forall|i: int| 0 <= i < t.len() ==> t[i] != '\n'
}

/// Text without a double quote.
pub open spec fn no_quote(t: Seq<char>) -> bool {
    forall|i: int| 0 <= i < t.len() ==> t[i] != '"'
}

proof fn lemma_trim_id(s: Seq<char>)
    requires
        s.len() > 0,
        !is_ws(s[0]),
        !is_ws(s.last()),
    ensures
        trim(s) == s,
{
    assert(trim_start(s) == s);
}

proof fn lemma_not_prefix(s: Seq<char>, p: Seq<char>, i: int)
    requires
        0 <= i < p.len(),
        i < s.len(),
        s[i] != p[i],
    ensures
        !starts_with(s, p),
{
    if starts_with(s, p) {
        assert(s.subrange(0, p.len() as int)[i] == s[i]);
    }
}

proof fn lemma_prefix(p: Seq<char>, x: Seq<char>)
    ensures
        starts_with(p + x, p),
        strip_prefix(p + x, p) == Some(x),
{
    assert((p + x).subrange(0, p.len() as int) =~= p);
    assert((p + x).skip(p.len() as int) =~= x);
}

proof fn lemma_suffix(x: Seq<char>, q: Seq<char>)
    ensures
        ends_with(x + q, q),
        (x + q).take((x + q).len() - q.len()) == x,
{
    assert((x + q).subrange(x.len() as int, (x + q).len() as int) =~= q);
    assert((x + q).take((x + q).len() - q.len()) =~= x);
}

proof fn lemma_not_suffix(s: Seq<char>, q: Seq<char>)
    requires
        q.len() > 0,
        s.len() > 0,
        s.last() != q.last(),
    ensures
        !ends_with(s, q),
{
    if ends_with(s, q) {
        assert(s.subrange(s.len() - q.len(), s.len() as int)[q.len() - 1] == s.last());
    }
}

/// `p + x` with `p` stripped from its front is `x`, when `x` does not start
/// like `p` does.
proof fn lemma_trim_start_once(p: Seq<char>, x: Seq<char>)
    requires
        p.len() > 0,
        x.len() > 0 ==> x[0] != p[0],
    ensures
        trim_start_matches(p + x, p) == x,
{
    lemma_prefix(p, x);
    if x.len() > 0 {
        lemma_not_prefix(x, p, 0);
    } else {
        assert(!starts_with(x, p));
    }
    assert((p + x).skip(p.len() as int) =~= x);
    assert(trim_start_matches(p + x, p) == trim_start_matches(x, p));
    assert(trim_start_matches(x, p) == x);
}

/// `x + q` with `q` stripped from its back is `x`, when `x` does not end
/// like `q` does.
proof fn lemma_trim_end_once(x: Seq<char>, q: Seq<char>)
    requires
        q.len() > 0,
        x.len() > 0 ==> x.last() != q.last(),
    ensures
        trim_end_matches(x + q, q) == x,
{
    lemma_suffix(x, q);
    if x.len() > 0 {
        lemma_not_suffix(x, q);
    } else {
        assert(!ends_with(x, q));
    }
    assert(trim_end_matches(x + q, q) == trim_end_matches(x, q));
    assert(trim_end_matches(x, q) == x);
}

proof fn lemma_escape_plain(t: Seq<char>)
    requires
        no_quote(t),
    ensures
        escape_quotes(t) == t,
    decreases t.len(),
{
    if t.len() > 0 {
        lemma_escape_plain(t.drop_last());
        assert(t.drop_last() + seq![t.last()] =~= t);
    }
}

proof fn lemma_unescape_plain(t: Seq<char>)
    requires
        no_quote(t),
    ensures
        unescape_quotes(t) == t,
    decreases t.len(),
{
    if t.len() > 0 {
        assert(no_quote(t.skip(1)));
        lemma_unescape_plain(t.skip(1));
        assert(seq![t[0]] + t.skip(1) =~= t);
    }
}

/// Quotes around quote-free text come off.
proof fn lemma_unquote(t: Seq<char>)
    requires
        no_quote(t),
    ensures
        trim_matches(seq!['"'] + t + seq!['"'], '"') == t,
{
    let dq = seq!['"'];
    let q = dq + t + dq;
    assert(q =~= dq + (t + dq));
    if t.len() > 0 {
        assert((t + dq)[0] == t[0]);
        lemma_trim_start_once(dq, t + dq);
        lemma_trim_end_once(t, dq);
    } else {
        let e = Seq::<char>::empty();
        assert(q =~= dq + dq);
        lemma_prefix(dq, dq);
        lemma_prefix(dq, e);
        assert(dq + e =~= dq);
        assert(trim_start_matches(dq + dq, dq) == trim_start_matches(dq, dq));
        assert(trim_start_matches(dq, dq) == trim_start_matches(e, dq));
        assert(trim_start_matches(e, dq) == e);
        assert(trim_end_matches(e, dq) == e);
        assert(trim_matches(q, '"') =~= t);
    }
}

/// A quoted plain text reads back as itself, also after leading spaces.
proof fn lemma_quoted_text(t: Seq<char>, pad: Seq<char>)
    requires
        no_quote(t),
        forall|i: int| 0 <= i < pad.len() ==> is_ws(#[trigger] pad[i]),
    ensures
        quoted_text(pad + quoted(t)) == t,
    decreases pad.len(),
{
    lemma_escape_plain(t);
    let q = seq!['"'] + t + seq!['"'];
    assert(quoted(t) == q);
    if pad.len() > 0 {
        assert((pad + q).drop_first() =~= pad.drop_first() + q);
        assert(trim_start(pad + q) == trim_start(pad.drop_first() + q));
        assert forall|i: int| 0 <= i < pad.drop_first().len() implies is_ws(
            #[trigger] pad.drop_first()[i],
        ) by {
            assert(pad.drop_first()[i] == pad[i + 1]);
        }
        lemma_quoted_text(t, pad.drop_first());
        assert(trim(pad + q) == trim(pad.drop_first() + q));
    } else {
        assert(pad + q =~= q);
        lemma_trim_id(q);
        let dq = seq!['"'];
        assert(q =~= dq + (t + dq));
        lemma_unescape_plain(t);
        if t.len() > 0 {
            assert((t + dq)[0] == t[0]);
            lemma_trim_start_once(dq, t + dq);
            lemma_trim_end_once(t, dq);
            assert(trim_matches(q, '"') == t);
        } else {
            let e = Seq::<char>::empty();
            assert(q =~= dq + dq);
            lemma_prefix(dq, dq);
            lemma_prefix(dq, e);
            assert(dq + e =~= dq);
            assert(trim_start_matches(dq + dq, dq) == trim_start_matches(dq, dq));
            assert(trim_start_matches(dq, dq) == trim_start_matches(e, dq));
            assert(trim_start_matches(e, dq) == e);
            assert(trim_end_matches(e, dq) == e);
            assert(trim_matches(q, '"') =~= t);
        }
    }
}

proof fn lemma_digit_char(d: int)
    requires
        0 <= d < 10,
    ensures
        is_digit(digit_char(d)),
        digit_char(d) as int - '0' as int == d,
{
}

proof fn lemma_decimal(n: nat)
    ensures
        decimal(n).len() > 0,
        all_digits(decimal(n)),
        digits_value(decimal(n)) == n,
    decreases n,
{
    if n < 10 {
        lemma_digit_char(n as int);
        let s = decimal(n);
        assert(s.drop_last() =~= Seq::<char>::empty());
        assert(s.last() == digit_char(n as int));
        assert(digits_value(Seq::<char>::empty()) == 0);
        assert(digits_value(s) == digits_value(s.drop_last()) * 10 + (s.last() as int
            - '0' as int));
    } else {
        lemma_decimal(n / 10);
        lemma_digit_char((n % 10) as int);
        let s = decimal(n);
        assert(s.drop_last() =~= decimal(n / 10));
        assert(s.last() == digit_char((n % 10) as int));
        assert((n / 10) * 10 + n % 10 == n) by (nonlinear_arith);
        assert(digits_value(s) == digits_value(s.drop_last()) * 10 + (s.last() as int
            - '0' as int));
        assert forall|i: int| 0 <= i < s.len() implies is_digit(#[trigger] s[i]) by {
            if i < s.len() - 1 {
                assert(s[i] == decimal(n / 10)[i]);
            }
        }
    }
}

/// The decimal text of a `u64` reads back as that number.
pub proof fn lemma_u64_round_trip(n: u64)
    ensures
        parse_u64_spec(decimal(n as nat)) == Some(n),
{
    lemma_decimal(n as nat);
    let s = decimal(n as nat);
    assert(is_digit(s[0]));
}

/// The decimal text of an `i32` reads back as that number.
pub proof fn lemma_i32_round_trip(v: i32)
    ensures
        parse_i32_spec(int_text(v as int)) == Some(v),
{
    if v < 0 {
        lemma_decimal((-v) as nat);
        let s = int_text(v as int);
        assert(s.drop_first() =~= decimal((-v) as nat));
    } else {
        lemma_decimal(v as nat);
        let s = decimal(v as nat);
        assert(is_digit(s[0]));
    }
}

/// A `print` statement with quote-free text reads back as itself.
proof fn lemma_print_round_trip(x: Seq<char>)
    requires
        no_quote(x),
    ensures
        parse_stmt_core_spec(inline_stmt(StmtV::Print(x))) == Ok::<StmtV, Seq<char>>(
            StmtV::Print(x),
        ),
{
    reveal_strlit("print(");
    reveal_strlit(")");
    reveal_strlit("if ");
    reveal_strlit("while ");
    reveal_strlit("for ");
    let open = "print("@;
    let close = ")"@;
    let q = quoted(x);
    let t = inline_stmt(StmtV::Print(x));
    assert(t == open + q + close);
    assert(t =~= open + (q + close));
    assert(t[0] == 'p');
    lemma_not_prefix(t, "if "@, 0);
    lemma_not_prefix(t, "while "@, 0);
    lemma_not_prefix(t, "for "@, 0);
    lemma_prefix(open, q + close);
    lemma_suffix(open + q, close);
    assert((q + close)[0] == '"');
    lemma_trim_start_once(open, q + close);
    lemma_trim_end_once(q, close);
    lemma_quoted_text(x, Seq::empty());
    assert(Seq::<char>::empty() + q =~= q);
}

proof fn lemma_find_char(a: Seq<char>, c: char, b: Seq<char>, i: int)
    requires
        0 <= i <= a.len(),
        forall|k: int| 0 <= k < a.len() ==> a[k] != c,
    ensures
        find_from(a + seq![c] + b, seq![c], i) == Some(a.len() as int),
    decreases a.len() - i,
{
    let s = a + seq![c] + b;
    if i < a.len() {
        assert(!occurs_at(s, seq![c], i)) by {
            assert(s.subrange(i, i + 1)[0] == a[i]);
        }
        lemma_find_char(a, c, b, i + 1);
    } else {
        assert(s.subrange(i, i + 1) =~= seq![c]);
    }
}

/// A `time.now()` statement reads back as itself.
proof fn lemma_time_now_round_trip()
    ensures
        parse_stmt_core_spec(inline_stmt(StmtV::TimeNow)) == Ok::<StmtV, Seq<char>>(
            StmtV::TimeNow,
        ),
{
    reveal_strlit("time.now()");
    reveal_strlit("time.sleep(");
    reveal_strlit("if ");
    reveal_strlit("while ");
    reveal_strlit("for ");
    reveal_strlit("print(");
    reveal_strlit("log.");
    reveal_strlit("fs.readFile(");
    reveal_strlit("fs.writeFile(");
    let t = inline_stmt(StmtV::TimeNow);
    lemma_not_prefix(t, "if "@, 0);
    lemma_not_prefix(t, "while "@, 0);
    lemma_not_prefix(t, "for "@, 0);
    lemma_not_prefix(t, "print("@, 0);
    lemma_not_prefix(t, "log."@, 0);
    lemma_not_prefix(t, "fs.readFile("@, 0);
    lemma_not_prefix(t, "fs.writeFile("@, 0);
    lemma_not_prefix(t, "time.sleep("@, 5);
}

/// A `time.sleep(ms)` statement reads back as itself.
proof fn lemma_sleep_round_trip(ms: u64)
    ensures
        parse_stmt_core_spec(inline_stmt(StmtV::SleepMs(ms))) == Ok::<StmtV, Seq<char>>(
            StmtV::SleepMs(ms),
        ),
{
    reveal_strlit("time.sleep(");
    reveal_strlit(")");
    reveal_strlit("if ");
    reveal_strlit("while ");
    reveal_strlit("for ");
    reveal_strlit("print(");
    reveal_strlit("log.");
    reveal_strlit("fs.readFile(");
    reveal_strlit("fs.writeFile(");
    let d = decimal(ms as nat);
    let t = inline_stmt(StmtV::SleepMs(ms));
    assert(t =~= "time.sleep("@ + (d + ")"@));
    assert(t[0] == 't');
    lemma_not_prefix(t, "if "@, 0);
    lemma_not_prefix(t, "while "@, 0);
    lemma_not_prefix(t, "for "@, 0);
    lemma_not_prefix(t, "print("@, 0);
    lemma_not_prefix(t, "log."@, 0);
    lemma_not_prefix(t, "fs.readFile("@, 0);
    lemma_not_prefix(t, "fs.writeFile("@, 0);
    lemma_prefix("time.sleep("@, d + ")"@);
    lemma_decimal(ms as nat);
    assert(is_digit(d.last()));
    lemma_trim_end_once(d, ")"@);
    assert(is_digit(d[0]));
    lemma_trim_id(d);
    lemma_u64_round_trip(ms);
}

/// A `return v` statement reads back as itself.
proof fn lemma_return_round_trip(v: i32)
    ensures
        parse_stmt_core_spec(inline_stmt(StmtV::ReturnInt(v))) == Ok::<StmtV, Seq<char>>(
            StmtV::ReturnInt(v),
        ),
{
    reveal_strlit("return ");
    reveal_strlit("time.now()");
    reveal_strlit("time.sleep(");
    reveal_strlit("if ");
    reveal_strlit("while ");
    reveal_strlit("for ");
    reveal_strlit("print(");
    reveal_strlit("log.");
    reveal_strlit("fs.readFile(");
    reveal_strlit("fs.writeFile(");
    let d = int_text(v as int);
    let t = inline_stmt(StmtV::ReturnInt(v));
    assert(t == "return "@ + d);
    assert(t[0] == 'r');
    lemma_not_prefix(t, "if "@, 0);
    lemma_not_prefix(t, "while "@, 0);
    lemma_not_prefix(t, "for "@, 0);
    lemma_not_prefix(t, "print("@, 0);
    lemma_not_prefix(t, "log."@, 0);
    lemma_not_prefix(t, "fs.readFile("@, 0);
    lemma_not_prefix(t, "fs.writeFile("@, 0);
    lemma_not_prefix(t, "time.sleep("@, 0);
    assert(t != "time.now()"@);
    lemma_prefix("return "@, d);
    if v < 0 {
        lemma_decimal((-v) as nat);
        assert(d.last() == decimal((-v) as nat).last());
        assert(is_digit(d.last()));
    } else {
        lemma_decimal(v as nat);
        assert(is_digit(d[0]));
        assert(is_digit(d.last()));
    }
    lemma_trim_id(d);
    lemma_i32_round_trip(v);
}

/// A `fs.readFile("p")` statement with a quote-free path reads back as itself.
proof fn lemma_read_round_trip(p: Seq<char>)
    requires
        no_quote(p),
    ensures
        parse_stmt_core_spec(inline_stmt(StmtV::ReadFile(p))) == Ok::<StmtV, Seq<char>>(
            StmtV::ReadFile(p),
        ),
{
    reveal_strlit(")");
    reveal_strlit("if ");
    reveal_strlit("while ");
    reveal_strlit("for ");
    reveal_strlit("print(");
    reveal_strlit("log.");
    reveal_strlit("fs.readFile(");
    let q = quoted(p);
    let t = inline_stmt(StmtV::ReadFile(p));
    assert(t =~= "fs.readFile("@ + (q + ")"@));
    assert(t[0] == 'f' && t[1] == 's');
    lemma_not_prefix(t, "if "@, 0);
    lemma_not_prefix(t, "while "@, 0);
    lemma_not_prefix(t, "for "@, 1);
    lemma_not_prefix(t, "print("@, 0);
    lemma_not_prefix(t, "log."@, 0);
    lemma_prefix("fs.readFile("@, q + ")"@);
    lemma_trim_end_once(q, ")"@);
    lemma_quoted_text(p, Seq::empty());
    assert(Seq::<char>::empty() + q =~= q);
}

/// A `fs.writeFile("p", "c")` statement whose path holds no quote or comma
/// and whose contents hold no quote reads back as itself.
proof fn lemma_write_round_trip(p: Seq<char>, c: Seq<char>)
    requires
        no_quote(p),
        no_quote(c),
        forall|i: int| 0 <= i < p.len() ==> p[i] != ',',
    ensures
        parse_stmt_core_spec(inline_stmt(StmtV::WriteFile(p, c))) == Ok::<StmtV, Seq<char>>(
            StmtV::WriteFile(p, c),
        ),
{
    reveal_strlit(")");
    reveal_strlit(", ");
    reveal_strlit(",");
    reveal_strlit("if ");
    reveal_strlit("while ");
    reveal_strlit("for ");
    reveal_strlit("print(");
    reveal_strlit("log.");
    reveal_strlit("fs.readFile(");
    reveal_strlit("fs.writeFile(");
    let qp = quoted(p);
    let qc = quoted(c);
    let t = inline_stmt(StmtV::WriteFile(p, c));
    let inner = qp + ", "@ + qc;
    assert(t =~= "fs.writeFile("@ + (inner + ")"@));
    assert(t[0] == 'f' && t[1] == 's' && t[3] == 'w');
    lemma_not_prefix(t, "if "@, 0);
    lemma_not_prefix(t, "while "@, 0);
    lemma_not_prefix(t, "for "@, 1);
    lemma_not_prefix(t, "print("@, 0);
    lemma_not_prefix(t, "log."@, 0);
    lemma_not_prefix(t, "fs.readFile("@, 3);
    lemma_prefix("fs.writeFile("@, inner + ")"@);
    lemma_escape_plain(c);
    assert(inner.last() == '"');
    lemma_trim_end_once(inner, ")"@);
    lemma_escape_plain(p);
    assert(inner =~= qp + seq![','] + (seq![' '] + qc));
    assert forall|k: int| 0 <= k < qp.len() implies qp[k] != ',' by {
        if 0 < k < qp.len() - 1 {
            assert(qp[k] == p[k - 1]);
        }
    }
    lemma_find_char(qp, ',', seq![' '] + qc, 0);
    assert(inner.take(qp.len() as int) =~= qp);
    assert(inner.skip(qp.len() as int + 1) =~= seq![' '] + qc);
    lemma_quoted_text(p, Seq::empty());
    assert(Seq::<char>::empty() + qp =~= qp);
    assert(is_ws(' '));
    lemma_quoted_text(c, seq![' ']);
    assert(","@ =~= seq![',']);
    assert(find_from(inner, ","@, 0) == Some(qp.len() as int));
    assert(split_once(inner, ","@) == Some((qp, seq![' '] + qc)));
    assert(strip_prefix(t, "fs.writeFile("@) == Some(inner + ")"@));
    assert(trim_end_matches(inner + ")"@, ")"@) == inner);
}

/// A `log.level("m")` statement with a quote-free message reads back as
/// itself.
proof fn lemma_log_round_trip(l: LogLevel, m: Seq<char>)
    requires
        no_quote(m),
    ensures
        parse_stmt_core_spec(inline_stmt(StmtV::Log(l, m))) == Ok::<StmtV, Seq<char>>(
            StmtV::Log(l, m),
        ),
{
    reveal_strlit(")");
    reveal_strlit("(");
    reveal_strlit(".");
    reveal_strlit("if ");
    reveal_strlit("while ");
    reveal_strlit("for ");
    reveal_strlit("print(");
    reveal_strlit("log.");
    reveal_strlit("info");
    reveal_strlit("warn");
    reveal_strlit("error");
    reveal_strlit("log.info");
    reveal_strlit("log.warn");
    reveal_strlit("log.error");
    let q = quoted(m);
    let lv = "log."@ + level_name(l);
    let t = inline_stmt(StmtV::Log(l, m));
    assert(t =~= lv + seq!['('] + (q + ")"@));
    assert(t[0] == 'l');
    lemma_not_prefix(t, "if "@, 0);
    lemma_not_prefix(t, "while "@, 0);
    lemma_not_prefix(t, "for "@, 0);
    lemma_not_prefix(t, "print("@, 0);
    assert(t =~= "log."@ + (level_name(l) + seq!['('] + (q + ")"@)));
    lemma_prefix("log."@, level_name(l) + seq!['('] + (q + ")"@));
    assert forall|k: int| 0 <= k < lv.len() implies lv[k] != '(' by {}
    lemma_find_char(lv, '(', q + ")"@, 0);
    assert(t.take(lv.len() as int) =~= lv);
    assert(t.skip(lv.len() as int + 1) =~= q + ")"@);
    lemma_not_suffix(lv, "."@);
    assert(trim_end_matches(lv, "."@) == lv);
    match l {
        LogLevel::Info => assert(lv =~= "log.info"@),
        LogLevel::Warn => assert(lv =~= "log.warn"@),
        LogLevel::Error => assert(lv =~= "log.error"@),
    }
    assert(lv == "log.info"@ || lv == "log.warn"@ || lv == "log.error"@);
    assert("log.info"@ != "log.warn"@ && "log.info"@ != "log.error"@ && "log.warn"@
        != "log.error"@) by {
        assert("log.info"@[4] != "log.warn"@[4]);
        assert("log.info"@.len() != "log.error"@.len());
        assert("log.warn"@.len() != "log.error"@.len());
    }
    assert(log_level_of(lv) == Some(l));
    lemma_trim_end_once(q, ")"@);
    lemma_quoted_text(m, Seq::empty());
    assert(Seq::<char>::empty() + q =~= q);
    assert("("@ =~= seq!['(']);
    assert(t =~= lv + seq!['('] + (q + ")"@));
    assert(find_from(t, "("@, 0) == Some(lv.len() as int));
    assert(split_once(t, "("@) == Some((lv, q + ")"@)));
    assert(starts_with(t, "log."@));
    assert(!(starts_with(t, "print("@) && ends_with(t, ")"@)));
}

pub open spec fn is_name_char(c: char) -> bool {
    ('a' <= c <= 'z') || ('A' <= c <= 'Z') || ('0' <= c <= '9') || c == '_'
}

/// A function name that a call statement can carry: letters, digits and
/// `_`, and not `print`, which would read as a print statement.
pub open spec fn plain_name(n: Seq<char>) -> bool {
    &&& n.len() > 0
    &&& forall|i: int| 0 <= i < n.len() ==> is_name_char(#[trigger] n[i])
    &&& n != "print"@
}

proof fn lemma_call_not_prefix(name: Seq<char>, p: Seq<char>, k: int)
    requires
        plain_name(name),
        0 <= k < p.len(),
        p[k] == ' ' || p[k] == '.',
    ensures
        !starts_with(name + "()"@, p),
{
    reveal_strlit("()");
    let t = name + "()"@;
    if k < t.len() {
        if k < name.len() {
            assert(t[k] == name[k]);
        } else {
            assert(t[k] == '(' || t[k] == ')');
        }
        lemma_not_prefix(t, p, k);
    }
}

/// A call of a plain name reads back as itself.
proof fn lemma_call_round_trip(name: Seq<char>)
    requires
        plain_name(name),
    ensures
        parse_stmt_core_spec(inline_stmt(StmtV::Call(name))) == Ok::<StmtV, Seq<char>>(
            StmtV::Call(name),
        ),
{
    reveal_strlit("()");
    reveal_strlit("if ");
    reveal_strlit("while ");
    reveal_strlit("for ");
    reveal_strlit("print(");
    reveal_strlit("print");
    reveal_strlit("log.");
    reveal_strlit("fs.readFile(");
    reveal_strlit("fs.writeFile(");
    reveal_strlit("time.sleep(");
    reveal_strlit("time.now()");
    reveal_strlit("return ");
    let t = inline_stmt(StmtV::Call(name));
    assert(t == name + "()"@);
    lemma_call_not_prefix(name, "if "@, 2);
    lemma_call_not_prefix(name, "while "@, 5);
    lemma_call_not_prefix(name, "for "@, 3);
    lemma_call_not_prefix(name, "log."@, 3);
    lemma_call_not_prefix(name, "fs.readFile("@, 2);
    lemma_call_not_prefix(name, "fs.writeFile("@, 2);
    lemma_call_not_prefix(name, "time.sleep("@, 4);
    lemma_call_not_prefix(name, "return "@, 6);
    reveal_strlit("await ");
    lemma_call_not_prefix(name, "await "@, 5);
    lemma_call_not_prefix(name, "time.now()"@, 4);
    assert(t != "time.now()"@) by {
        lemma_prefix(t, Seq::empty());
        assert(t + Seq::<char>::empty() =~= t);
    }
    assert(!starts_with(t, "print("@)) by {
        if starts_with(t, "print("@) {
            assert(t.subrange(0, 6) == "print("@);
            if name.len() == 5 {
                assert(name =~= t.subrange(0, 6).subrange(0, 5));
                assert("print("@.subrange(0, 5) =~= "print"@);
            } else if name.len() < 5 {
                assert(t[5] == ')');
                assert(t.subrange(0, 6)[5] == t[5]);
            } else {
                assert(t[5] == name[5]);
                assert(t.subrange(0, 6)[5] == t[5]);
            }
        }
    }
    lemma_suffix(name, "()"@);
    assert(name.last() != ')' && is_name_char(name.last()));
    lemma_trim_end_once(name, "()"@);
    assert(is_name_char(name[0]));
    lemma_trim_id(name);
}

/// A statement without a nested block whose texts the grammar can carry:
/// quoted texts hold no `"` or newline, a written path holds no `,`, and a
/// called name is plain.
pub open spec fn plain_leaf(s: StmtV) -> bool {
    match s {
        StmtV::Print(t) => no_quote(t) && no_newline(t),
        StmtV::Log(_, m) => no_quote(m) && no_newline(m),
        StmtV::SleepMs(_) => true,
        StmtV::TimeNow => true,
        StmtV::ReturnInt(_) => true,
        StmtV::ReadFile(p) => no_quote(p) && no_newline(p),
        StmtV::WriteFile(p, c) => no_quote(p) && no_quote(c) && no_newline(p) && no_newline(c)
            && forall|i: int| 0 <= i < p.len() ==> p[i] != ',',
        StmtV::Call(n) => plain_name(n),
        _ => false,
    }
}

/// Re-reading the single-line form of a plain leaf statement gives it back.
pub proof fn lemma_leaf_round_trip(s: StmtV)
    requires
        plain_leaf(s),
    ensures
        parse_stmt_core_spec(inline_stmt(s)) == Ok::<StmtV, Seq<char>>(s),
{
    match s {
        StmtV::Print(t) => lemma_print_round_trip(t),
        StmtV::Log(l, m) => lemma_log_round_trip(l, m),
        StmtV::SleepMs(ms) => lemma_sleep_round_trip(ms),
        StmtV::TimeNow => lemma_time_now_round_trip(),
        StmtV::ReturnInt(v) => lemma_return_round_trip(v),
        StmtV::ReadFile(p) => lemma_read_round_trip(p),
        StmtV::WriteFile(p, c) => lemma_write_round_trip(p, c),
        StmtV::Call(n) => lemma_call_round_trip(n),
        _ => {},
    }
}

/// The single-line form of a plain leaf statement starts and ends with
/// neither whitespace nor `;`, and does not start with `await `.
proof fn lemma_leaf_edges(s: StmtV)
    requires
        plain_leaf(s),
    ensures
        inline_stmt(s).len() > 0,
        !is_ws(inline_stmt(s)[0]),
        !is_ws(inline_stmt(s).last()),
        inline_stmt(s).last() != ';',
        !starts_with(inline_stmt(s), "await "@),
{
    reveal_strlit("await ");
    reveal_strlit("print(");
    reveal_strlit("log.");
    reveal_strlit("time.sleep(");
    reveal_strlit("time.now()");
    reveal_strlit("return ");
    reveal_strlit("fs.readFile(");
    reveal_strlit("fs.writeFile(");
    reveal_strlit(")");
    reveal_strlit("()");
    let t = inline_stmt(s);
    match s {
        StmtV::Call(n) => {
            assert(t == n + "()"@);
            assert(is_name_char(n[0]));
            assert(t[0] == n[0]);
            lemma_call_not_prefix(n, "await "@, 5);
        },
        StmtV::ReturnInt(v) => {
            let d = int_text(v as int);
            assert(t == "return "@ + d);
            if v < 0 {
                lemma_decimal((-v) as nat);
                assert(d.last() == decimal((-v) as nat).last());
            } else {
                lemma_decimal(v as nat);
            }
            assert(is_digit(d.last()));
            assert(t.last() == d.last());
            lemma_not_prefix(t, "await "@, 0);
        },
        StmtV::TimeNow => {
            lemma_not_prefix(t, "await "@, 0);
        },
        _ => {
            assert(t.last() == ')');
            assert(t[0] == 'p' || t[0] == 'l' || t[0] == 't' || t[0] == 'f');
            lemma_not_prefix(t, "await "@, 0);
        },
    }
}

/// A function-body statement that the formatter writes on a line of its
/// own and the parser reads back: a plain statement, possibly awaited.
pub open spec fn plain_line(s: StmtV) -> bool {
    match s {
        StmtV::Await(inner) => plain_stmt(*inner),
        _ => plain_stmt(s),
    }
}

/// A body line without its newline.
pub open spec fn line_text(s: StmtV) -> Seq<char> {
    match s {
        StmtV::Await(inner) => "    await "@ + inline_stmt(*inner),
        _ => "    "@ + inline_stmt(s),
    }
}

proof fn lemma_no_newline_concat(a: Seq<char>, b: Seq<char>)
    requires
        no_newline(a),
        no_newline(b),
    ensures
        no_newline(a + b),
{
    assert forall|i: int| 0 <= i < (a + b).len() implies (a + b)[i] != '\n' by {
        if i >= a.len() {
            assert((a + b)[i] == b[i - a.len()]);
        }
    }
}

proof fn lemma_quoted_no_newline(t: Seq<char>)
    requires
        no_quote(t),
        no_newline(t),
    ensures
        no_newline(quoted(t)),
{
    lemma_escape_plain(t);
    lemma_no_newline_concat(seq!['"'], t);
    lemma_no_newline_concat(seq!['"'] + t, seq!['"']);
}

proof fn lemma_leaf_no_newline(s: StmtV)
    requires
        plain_leaf(s),
    ensures
        no_newline(inline_stmt(s)),
{
    reveal_strlit("print(");
    reveal_strlit("log.");
    reveal_strlit("(");
    reveal_strlit(")");
    reveal_strlit("()");
    reveal_strlit(", ");
    reveal_strlit("info");
    reveal_strlit("warn");
    reveal_strlit("error");
    reveal_strlit("time.sleep(");
    reveal_strlit("time.now()");
    reveal_strlit("return ");
    reveal_strlit("fs.readFile(");
    reveal_strlit("fs.writeFile(");
    match s {
        StmtV::Print(t) => {
            lemma_quoted_no_newline(t);
            lemma_no_newline_concat("print("@, quoted(t));
            lemma_no_newline_concat("print("@ + quoted(t), ")"@);
        },
        StmtV::Log(l, m) => {
            lemma_quoted_no_newline(m);
            lemma_no_newline_concat("log."@, level_name(l));
            lemma_no_newline_concat("log."@ + level_name(l), "("@);
            lemma_no_newline_concat("log."@ + level_name(l) + "("@, quoted(m));
            lemma_no_newline_concat("log."@ + level_name(l) + "("@ + quoted(m), ")"@);
        },
        StmtV::SleepMs(ms) => {
            lemma_decimal(ms as nat);
            let d = decimal(ms as nat);
            assert(no_newline(d)) by {
                assert forall|i: int| 0 <= i < d.len() implies d[i] != '\n' by {
                    assert(is_digit(d[i]));
                }
            }
            lemma_no_newline_concat("time.sleep("@, d);
            lemma_no_newline_concat("time.sleep("@ + d, ")"@);
        },
        StmtV::TimeNow => {},
        StmtV::ReturnInt(v) => {
            let d = int_text(v as int);
            if v < 0 {
                lemma_decimal((-v) as nat);
            } else {
                lemma_decimal(v as nat);
            }
            assert(no_newline(d)) by {
                assert forall|i: int| 0 <= i < d.len() implies d[i] != '\n' by {
                    if v < 0 {
                        if i > 0 {
                            assert(d[i] == decimal((-v) as nat)[i - 1]);
                            assert(is_digit(decimal((-v) as nat)[i - 1]));
                        }
                    } else {
                        assert(is_digit(d[i]));
                    }
                }
            }
            lemma_no_newline_concat("return "@, d);
        },
        StmtV::ReadFile(p) => {
            lemma_quoted_no_newline(p);
            lemma_no_newline_concat("fs.readFile("@, quoted(p));
            lemma_no_newline_concat("fs.readFile("@ + quoted(p), ")"@);
        },
        StmtV::WriteFile(p, c) => {
            lemma_quoted_no_newline(p);
            lemma_quoted_no_newline(c);
            lemma_no_newline_concat("fs.writeFile("@, quoted(p));
            lemma_no_newline_concat("fs.writeFile("@ + quoted(p), ", "@);
            lemma_no_newline_concat("fs.writeFile("@ + quoted(p) + ", "@, quoted(c));
            lemma_no_newline_concat("fs.writeFile("@ + quoted(p) + ", "@ + quoted(c), ")"@);
        },
        StmtV::Call(n) => {
            assert(no_newline(n)) by {
                assert forall|i: int| 0 <= i < n.len() implies n[i] != '\n' by {
                    assert(is_name_char(n[i]));
                }
            }
            lemma_no_newline_concat(n, "()"@);
        },
        _ => {},
    }
}

/// Re-reading a formatted function-body line gives back its statement.
#[verifier::spinoff_prover]
#[verifier::rlimit(100)]
pub proof fn lemma_line_round_trip(s: StmtV)
    requires
        plain_line(s),
    ensures
        body_line(s) == line_text(s) + "\n"@,
        no_newline(line_text(s)),
        trim(line_text(s)).len() > 0,
        is_name_char(trim(line_text(s))[0]),
        parse_stmt_spec(trim(line_text(s))) == Ok::<StmtV, Seq<char>>(s),
        parse_stmt_spec(body_line(s)) == Ok::<StmtV, Seq<char>>(s),
{
    reveal_strlit("    ");
    reveal_strlit("\n");
    reveal_strlit(";");
    reveal_strlit("await ");
    reveal_strlit("    await ");
    let pad = "    "@;
    let leaf = match s {
        StmtV::Await(inner) => *inner,
        _ => s,
    };
    let whole = match s {
        StmtV::Await(inner) => "await "@ + inline_stmt(*inner),
        _ => inline_stmt(s),
    };
    assert(plain_stmt(leaf));
    lemma_stmt_edges(leaf);
    lemma_stmt_round_trip(leaf);
    assert("    await "@ =~= pad + "await "@);
    assert(is_name_char(whole[0]));
    assert(line_text(s) =~= pad + whole);
    assert(body_line(s) =~= pad + whole + "\n"@);
    assert(whole.len() > 0 && !is_ws(whole[0]) && !is_ws(whole.last()) && whole.last() != ';');
    lemma_trim_pad(pad, whole, Seq::empty());
    assert(pad + whole + Seq::<char>::empty() =~= pad + whole);
    lemma_trim_pad(pad, whole, "\n"@);
    lemma_trim_id(whole);
    lemma_not_suffix(whole, ";"@);
    assert(trim_end_matches(whole, ";"@) == whole);
    if s is Await {
        lemma_await_round_trip(leaf);
    }
    lemma_no_newline_concat("await "@, inline_stmt(leaf));
    lemma_no_newline_concat(pad, whole);
}

/// `await ` before a statement's text wraps what that text reads as.
proof fn lemma_await_prefix(x: Seq<char>, st: StmtV)
    requires
        parse_stmt_core_spec(x) == Ok::<StmtV, Seq<char>>(st),
        !(st is Await),
    ensures
        parse_stmt_core_spec("await "@ + x) == Ok::<StmtV, Seq<char>>(StmtV::Await(Box::new(st))),
{
    reveal_strlit("await ");
    reveal_strlit("if ");
    reveal_strlit("while ");
    reveal_strlit("for ");
    reveal_strlit("print(");
    reveal_strlit("log.");
    reveal_strlit("fs.readFile(");
    reveal_strlit("fs.writeFile(");
    reveal_strlit("time.sleep(");
    reveal_strlit("time.now()");
    reveal_strlit("return ");
    let t = "await "@ + x;
    assert(t[0] == 'a');
    lemma_not_prefix(t, "if "@, 0);
    lemma_not_prefix(t, "while "@, 0);
    lemma_not_prefix(t, "for "@, 0);
    lemma_not_prefix(t, "print("@, 0);
    lemma_not_prefix(t, "log."@, 0);
    lemma_not_prefix(t, "fs.readFile("@, 0);
    lemma_not_prefix(t, "fs.writeFile("@, 0);
    lemma_not_prefix(t, "time.sleep("@, 0);
    lemma_not_prefix(t, "return "@, 0);
    assert(t != "time.now()"@);
    lemma_prefix("await "@, x);
}

/// An awaited plain statement reads back as itself.
proof fn lemma_await_round_trip(leaf: StmtV)
    requires
        plain_stmt(leaf),
    ensures
        parse_stmt_core_spec("await "@ + inline_stmt(leaf)) == Ok::<StmtV, Seq<char>>(
            StmtV::Await(Box::new(leaf)),
        ),
{
    lemma_stmt_round_trip(leaf);
    lemma_await_prefix(inline_stmt(leaf), leaf);
}

proof fn lemma_leaf_first(s: StmtV)
    requires
        plain_leaf(s),
    ensures
        is_name_char(inline_stmt(s)[0]),
        inline_stmt(s).len() > 0,
{
    reveal_strlit("print(");
    reveal_strlit("log.");
    reveal_strlit("time.sleep(");
    reveal_strlit("time.now()");
    reveal_strlit("return ");
    reveal_strlit("fs.readFile(");
    reveal_strlit("fs.writeFile(");
    if let StmtV::Call(n) = s {
        assert(inline_stmt(s)[0] == n[0]);
    }
}

proof fn lemma_trim_pad(pad: Seq<char>, x: Seq<char>, tail: Seq<char>)
    requires
        forall|i: int| 0 <= i < pad.len() ==> is_ws(#[trigger] pad[i]),
        forall|i: int| 0 <= i < tail.len() ==> is_ws(#[trigger] tail[i]),
        x.len() > 0,
        !is_ws(x[0]),
        !is_ws(x.last()),
    ensures
        trim(pad + x + tail) == x,
    decreases pad.len() + tail.len(),
{
    if pad.len() > 0 {
        assert((pad + x + tail).drop_first() =~= pad.drop_first() + x + tail);
        assert forall|i: int| 0 <= i < pad.drop_first().len() implies is_ws(
            #[trigger] pad.drop_first()[i],
        ) by {
            assert(pad.drop_first()[i] == pad[i + 1]);
        }
        lemma_trim_pad(pad.drop_first(), x, tail);
        assert(trim_start(pad + x + tail) == trim_start(pad.drop_first() + x + tail));
    } else if tail.len() > 0 {
        assert(pad + x + tail =~= x + tail);
        assert((x + tail).drop_last() =~= x + tail.drop_last());
        assert(Seq::<char>::empty() + x + tail.drop_last() =~= x + tail.drop_last());
        assert forall|i: int| 0 <= i < tail.drop_last().len() implies is_ws(
            #[trigger] tail.drop_last()[i],
        ) by {
            assert(tail.drop_last()[i] == tail[i]);
        }
        lemma_trim_pad(pad, x, tail.drop_last());
        assert(trim_start(x + tail) == x + tail);
        assert(trim_start(x + tail.drop_last()) == x + tail.drop_last());
        assert(trim_end(x + tail) == trim_end(x + tail.drop_last()));
    } else {
        assert(pad + x + tail =~= x);
        lemma_trim_id(x);
    }
}

/// Lines joined, each followed by a newline.
pub open spec fn join_lines(ls: Seq<Seq<char>>) -> Seq<char>
    decreases ls.len(),
{
    if ls.len() == 0 {
        Seq::empty()
    } else {
        ls[0] + seq!['\n'] + join_lines(ls.skip(1))
    }
}

proof fn lemma_split_shift(s: Seq<char>, c: char, i: int, cur: Seq<char>, acc: Seq<Seq<char>>)
    requires
        0 <= i <= s.len(),
    ensures
        split_acc(s, c, i, cur, acc) == split_acc(s.skip(i), c, 0, cur, acc),
    decreases s.len() - i,
{
    if i < s.len() {
        let t = s.skip(i);
        assert(t[0] == s[i]);
        assert(t.skip(1) =~= s.skip(i + 1));
        if s[i] == c {
            lemma_split_shift(s, c, i + 1, Seq::empty(), acc.push(cur));
            lemma_split_shift(t, c, 1, Seq::empty(), acc.push(cur));
        } else {
            lemma_split_shift(s, c, i + 1, cur.push(s[i]), acc);
            lemma_split_shift(t, c, 1, cur.push(s[i]), acc);
        }
    } else {
        assert(s.skip(i).len() == 0);
    }
}

proof fn lemma_split_line(x: Seq<char>, c: char, y: Seq<char>, cur: Seq<char>, acc: Seq<Seq<char>>)
    requires
        forall|k: int| 0 <= k < x.len() ==> x[k] != c,
    ensures
        split_acc(x + seq![c] + y, c, 0, cur, acc) == split_acc(y, c, 0, Seq::empty(), acc.push(
            cur + x,
        )),
    decreases x.len(),
{
    let s = x + seq![c] + y;
    if x.len() == 0 {
        assert(s[0] == c);
        lemma_split_shift(s, c, 1, Seq::empty(), acc.push(cur));
        assert(s.skip(1) =~= y);
        assert(cur + x =~= cur);
    } else {
        assert(s[0] == x[0]);
        lemma_split_shift(s, c, 1, cur.push(x[0]), acc);
        assert(s.skip(1) =~= x.skip(1) + seq![c] + y);
        lemma_split_line(x.skip(1), c, y, cur.push(x[0]), acc);
        assert(cur.push(x[0]) + x.skip(1) =~= cur + x);
    }
}

proof fn lemma_split_join(ls: Seq<Seq<char>>, acc: Seq<Seq<char>>)
    requires
        forall|i: int| 0 <= i < ls.len() ==> no_newline(#[trigger] ls[i]),
    ensures
        split_acc(join_lines(ls), '\n', 0, Seq::empty(), acc) == acc + ls + seq![
            Seq::<char>::empty(),
        ],
    decreases ls.len(),
{
    if ls.len() == 0 {
        assert(acc + ls + seq![Seq::<char>::empty()] =~= acc.push(Seq::empty()));
    } else {
        assert(no_newline(ls[0]));
        lemma_split_line(ls[0], '\n', join_lines(ls.skip(1)), Seq::empty(), acc);
        assert(Seq::<char>::empty() + ls[0] =~= ls[0]);
        assert forall|i: int| 0 <= i < ls.skip(1).len() implies no_newline(
            #[trigger] ls.skip(1)[i],
        ) by {
            assert(ls.skip(1)[i] == ls[i + 1]);
        }
        lemma_split_join(ls.skip(1), acc.push(ls[0]));
        assert(acc.push(ls[0]) + ls.skip(1) =~= acc + ls);
    }
}

/// Splitting joined lines on newlines gives the lines back, then the empty
/// text after the last newline.
pub proof fn lemma_lines_of_join(ls: Seq<Seq<char>>)
    requires
        forall|i: int| 0 <= i < ls.len() ==> no_newline(#[trigger] ls[i]),
    ensures
        split(join_lines(ls), '\n') == ls.push(Seq::empty()),
{
    lemma_split_join(ls, Seq::empty());
    assert(Seq::<Seq<char>>::empty() + ls + seq![Seq::<char>::empty()] =~= ls.push(
        Seq::empty(),
    ));
}

proof fn lemma_join_append(a: Seq<Seq<char>>, b: Seq<Seq<char>>)
    ensures
        join_lines(a + b) == join_lines(a) + join_lines(b),
    decreases a.len(),
{
    if a.len() == 0 {
        assert(a + b =~= b);
        assert(Seq::<char>::empty() + join_lines(b) =~= join_lines(b));
    } else {
        assert((a + b).skip(1) =~= a.skip(1) + b);
        assert((a + b)[0] == a[0]);
        lemma_join_append(a.skip(1), b);
        assert(join_lines(a + b) =~= join_lines(a) + join_lines(b));
    }
}

/// A function the formatter writes and the parser reads back: a plain name,
/// an annotation that reads back as itself, and plain body lines.
pub open spec fn plain_function(f: FunctionV) -> bool {
    &&& plain_name(f.name)
    &&& match f.return_type {
        Some(TypeV::Unknown(raw)) => plain_name(raw) && annotation_of(raw) == TypeV::Unknown(raw),
        _ => true,
    }
    &&& forall|k: int| 0 <= k < f.body.len() ==> plain_line(#[trigger] f.body[k].0)
}

/// A signature line without its newline.
pub open spec fn signature_line(f: FunctionV) -> Seq<char> {
    (if f.is_async {
        "async "@
    } else {
        Seq::empty()
    }) + "fn "@ + f.name + match f.return_type {
        Some(rt) => "(): "@ + type_text(rt) + " {"@,
        None => "() {"@,
    }
}

proof fn lemma_type_text(t: TypeV)
    requires
        t matches TypeV::Unknown(raw) ==> plain_name(raw) && annotation_of(raw) == t,
    ensures
        annotation_of(type_text(t)) == t,
        type_text(t).len() > 0,
        is_name_char(type_text(t)[0]),
        is_name_char(type_text(t).last()),
        forall|i: int| 0 <= i < type_text(t).len() ==> is_name_char(#[trigger] type_text(t)[i]),
{
    reveal_strlit("int");
    reveal_strlit("string");
    reveal_strlit("void");
    match t {
        TypeV::Int => {},
        TypeV::Str => {
            assert("string"@.len() != "int"@.len());
        },
        TypeV::Void => {
            assert("void"@.len() != "string"@.len());
            assert("void"@[0] != "int"@[0]);
        },
        TypeV::Unknown(raw) => {},
    }
}

/// The text of a signature after `fn `: name, parameters, annotation.
pub open spec fn signature_tail(f: FunctionV) -> Seq<char> {
    f.name + match f.return_type {
        Some(rt) => "(): "@ + type_text(rt) + " {"@,
        None => "() {"@,
    }
}

/// The name and annotation read back from the text after `fn `.
#[verifier::spinoff_prover]
#[verifier::rlimit(100)]
proof fn lemma_signature_tail(f: FunctionV)
    requires
        plain_function(f),
    ensures
        signature_tail(f).last() == '{',
        is_name_char(signature_tail(f)[0]),
        no_newline(signature_tail(f)),
        split_once(signature_tail(f), "("@) matches Some((n, after)) && trim(n) == f.name && (
        match find_from(after, ":"@, 0) {
            Some(idx) => {
                let r = trim(trim_end_matches(trim(after.skip(idx + 1)), "{"@));
                r.len() > 0 && Some(annotation_of(r)) == f.return_type
            },
            None => f.return_type is None,
        }),
{
    reveal_strlit(" ");
    reveal_strlit("(): ");
    reveal_strlit(" {");
    reveal_strlit("() {");
    reveal_strlit("(");
    reveal_strlit(":");
    reveal_strlit("{");
    let name = f.name;
    let w2 = signature_tail(f);
    let tail = match f.return_type {
        Some(rt) => "(): "@ + type_text(rt) + " {"@,
        None => "() {"@,
    };
    assert(w2 == name + tail);
    assert(is_name_char(name[0]));
    assert(name.last() != '(' && is_name_char(name.last()));
    assert(tail[0] == '(');
    assert(w2 =~= name + seq!['('] + tail.skip(1));
    lemma_find_char(name, '(', tail.skip(1), 0);
    assert("("@ =~= seq!['(']);
    assert(w2.take(name.len() as int) =~= name);
    assert(w2.skip(name.len() as int + 1) =~= tail.skip(1));
    lemma_trim_id(name);
    let after = tail.skip(1);
    assert(":"@ =~= seq![':']);
    match f.return_type {
        Some(rt) => {
            lemma_type_text(rt);
            let tt = type_text(rt);
            assert(after =~= seq![')'] + seq![':'] + (" "@ + tt + " {"@));
            lemma_find_char(seq![')'], ':', " "@ + tt + " {"@, 0);
            assert(after.skip(2) =~= " "@ + tt + " {"@);
            assert(" "@ + tt + " {"@ =~= " "@ + (tt + " "@ + "{"@) + Seq::<char>::empty());
            lemma_trim_pad(" "@, tt + " "@ + "{"@, Seq::empty());
            lemma_trim_end_once(tt + " "@, "{"@);
            lemma_trim_pad(Seq::empty(), tt, " "@);
            assert(Seq::<char>::empty() + tt + " "@ =~= tt + " "@);
            assert(no_newline(w2)) by {
                assert forall|i: int| 0 <= i < w2.len() implies w2[i] != '\n' by {
                    if i < name.len() {
                        assert(w2[i] == name[i]);
                        assert(is_name_char(name[i]));
                    } else if i >= name.len() + 4 && i < name.len() + 4 + tt.len() {
                        assert(w2[i] == tt[i - name.len() - 4]);
                        assert(is_name_char(tt[i - name.len() - 4]));
                    }
                }
            }
        },
        None => {
            assert(find_from(after, ":"@, 0) is None) by {
                assert(forall|i: int| 0 <= i < after.len() ==> after[i] != ':');
                lemma_find_none(after, ':', 0);
            }
        },
    }
}

/// The signature line of a plain function reads back as its name,
/// annotation and `async` marker, and opens the body.
#[verifier::spinoff_prover]
#[verifier::rlimit(100)]
proof fn lemma_signature_round_trip(f: FunctionV)
    requires
        plain_function(f),
    ensures
        trim(signature_line(f)) == signature_line(f),
        signature_line(f)[0] == 'a' || signature_line(f)[0] == 'f',
        no_newline(signature_line(f)),
        is_fn_start(signature_line(f)),
        strip_prefix(signature_line(f), "export "@) is None,
        contains(signature_line(f), "{"@),
        parse_signature_spec(signature_line(f)) == Ok::<
            (Seq<char>, Option<TypeV>, bool),
            Seq<char>,
        >((f.name, f.return_type, f.is_async)),
        signature_text(f) == signature_line(f) + "\n"@,
{
    reveal_strlit(" ");
    reveal_strlit("async ");
    reveal_strlit("async");
    reveal_strlit("async fn");
    reveal_strlit("fn ");
    reveal_strlit("fn");
    reveal_strlit("export");
    reveal_strlit("export ");
    reveal_strlit("{");
    reveal_strlit("\n");
    reveal_strlit(" {\n");
    reveal_strlit("() {\n");
    reveal_strlit(" {");
    reveal_strlit("() {");
    lemma_signature_tail(f);
    let w2 = signature_tail(f);
    let w1 = "fn "@ + w2;
    let sig = signature_line(f);
    assert(sig =~= if f.is_async {
        "async "@ + w1
    } else {
        w1
    });
    assert(sig.last() == '{');
    lemma_trim_id(sig);
    lemma_not_prefix(sig, "export"@, 0);
    lemma_not_prefix(sig, "export "@, 0);
    assert(trim_start_matches(sig, "export"@) == sig);
    assert("fn "@ =~= "fn"@ + " "@);
    assert(w1 =~= "fn"@ + (" "@ + w2));
    if f.is_async {
        assert("async "@ =~= "async"@ + " "@);
        lemma_prefix("async"@, " "@ + w1);
        assert(sig =~= "async"@ + (" "@ + w1));
        lemma_trim_start_once("async"@, " "@ + w1);
        lemma_trim_pad(" "@, w1, Seq::empty());
        assert(" "@ + w1 + Seq::<char>::empty() =~= " "@ + w1);
        assert("async fn"@ =~= "async "@ + "fn"@);
        assert(sig =~= "async fn"@ + (" "@ + w2));
        lemma_prefix("async fn"@, " "@ + w2);
    } else {
        lemma_not_prefix(sig, "async"@, 0);
        lemma_prefix("fn"@, " "@ + w2);
    }
    lemma_trim_start_once("fn"@, " "@ + w2);
    lemma_trim_pad(" "@, w2, Seq::empty());
    assert(" "@ + w2 + Seq::<char>::empty() =~= " "@ + w2);
    assert(contains(sig, "{"@)) by {
        assert("{"@ =~= seq!['{']);
        lemma_find_last(sig, '{');
    }
    lemma_no_newline_concat("fn "@, w2);
    lemma_no_newline_concat("async "@, w1);
    assert(signature_text(f) =~= sig + "\n"@);
}

proof fn lemma_find_none(s: Seq<char>, c: char, i: int)
    requires
        0 <= i <= s.len(),
        forall|k: int| 0 <= k < s.len() ==> s[k] != c,
    ensures
        find_from(s, seq![c], i) is None,
    decreases s.len() - i,
{
    if i < s.len() {
        assert(!occurs_at(s, seq![c], i)) by {
            assert(s.subrange(i, i + 1)[0] == s[i]);
        }
        lemma_find_none(s, c, i + 1);
    }
}

proof fn lemma_find_last(s: Seq<char>, c: char)
    requires
        s.len() > 0,
        s.last() == c,
    ensures
        contains(s, seq![c]),
{
    let k = s.len() - 1;
    assert(s.subrange(k, k + 1) =~= seq![c]);
    lemma_find_reaches(s, seq![c], 0, k);
}

proof fn lemma_find_reaches(s: Seq<char>, p: Seq<char>, i: int, k: int)
    requires
        0 <= i <= k,
        occurs_at(s, p, k),
    ensures
        find_from(s, p, i) is Some,
    decreases k - i,
{
    if i < k && !occurs_at(s, p, i) {
        lemma_find_reaches(s, p, i + 1, k);
    }
}

/// The first `k` body lines of a function, without newlines.
pub open spec fn body_lines(body: Seq<(StmtV, nat)>, k: nat) -> Seq<Seq<char>> {
    Seq::new(k, |j: int| line_text(body[j].0))
}

/// The lines the formatter writes for a function, without newlines.
pub open spec fn function_lines(f: FunctionV) -> Seq<Seq<char>> {
    seq![signature_line(f)] + body_lines(f.body, f.body.len()) + seq!["}"@]
}

/// A function as the parser reads it back when its signature is on line
/// `i + 1` and its body lines follow.
pub open spec fn relined(f: FunctionV, i: nat) -> FunctionV {
    FunctionV { line: i + 1, body: relined_body(f.body, i, f.body.len()), ..f }
}

pub open spec fn relined_body(body: Seq<(StmtV, nat)>, i: nat, k: nat) -> Seq<(StmtV, nat)> {
    Seq::new(k, |j: int| (body[j].0, (i + 2 + j) as nat))
}

proof fn lemma_join_one(x: Seq<char>)
    ensures
        join_lines(seq![x]) == x + "\n"@,
{
    reveal_strlit("\n");
    assert(seq![x].skip(1) =~= Seq::<Seq<char>>::empty());
    assert(seq![x][0] == x);
    assert(join_lines(Seq::<Seq<char>>::empty()) == Seq::<char>::empty());
    assert("\n"@ =~= seq!['\n']);
    assert(join_lines(seq![x]) == x + seq!['\n'] + Seq::<char>::empty());
    assert(join_lines(seq![x]) =~= x + "\n"@);
}

proof fn lemma_body_text(f: FunctionV, k: nat)
    requires
        plain_function(f),
        k <= f.body.len(),
    ensures
        body_text(f.body, k) == join_lines(body_lines(f.body, k)),
    decreases k,
{
    if k == 0 {
        assert(body_lines(f.body, 0) =~= Seq::<Seq<char>>::empty());
    } else {
        lemma_body_text(f, (k - 1) as nat);
        let s = f.body[k - 1].0;
        assert(plain_line(s));
        lemma_line_round_trip(s);
        assert(body_lines(f.body, k) =~= body_lines(f.body, (k - 1) as nat) + seq![line_text(s)]);
        lemma_join_append(body_lines(f.body, (k - 1) as nat), seq![line_text(s)]);
        lemma_join_one(line_text(s));
    }
}

/// The formatted text of a function is its lines, each with a newline.
proof fn lemma_function_source(f: FunctionV)
    requires
        plain_function(f),
    ensures
        function_source(f) == join_lines(function_lines(f)),
{
    reveal_strlit("}\n");
    reveal_strlit("}");
    reveal_strlit("\n");
    lemma_signature_round_trip(f);
    lemma_body_text(f, f.body.len());
    let a = seq![signature_line(f)];
    let b = body_lines(f.body, f.body.len());
    let c = seq!["}"@];
    lemma_join_append(a + b, c);
    lemma_join_append(a, b);
    lemma_join_one(signature_line(f));
    lemma_join_one("}"@);
    assert("}\n"@ =~= "}"@ + "\n"@);
}

proof fn lemma_scan_body(
    lines: Seq<Seq<char>>,
    i: int,
    f: FunctionV,
    k: int,
    imps: Seq<crate::ast::ImportV>,
    funcs: Seq<FunctionV>,
)
    requires
        plain_function(f),
        0 <= i,
        0 <= k <= f.body.len(),
        i + f.body.len() + 2 <= lines.len(),
        forall|j: int| 0 <= j < f.body.len() ==> lines[i + 1 + j] == line_text(f.body[j].0),
        lines[i + 1 + f.body.len()] == "}"@,
    ensures
        scan_spec(
            lines,
            i + 1 + k,
            ScanMode::Body,
            FunctionV { line: (i + 1) as nat, body: relined_body(f.body, i as nat, k as nat), ..f },
            imps,
            funcs,
        ) == scan_spec(
            lines,
            i + 2 + f.body.len(),
            ScanMode::Top,
            no_function(),
            imps,
            funcs.push(relined(f, i as nat)),
        ),
    decreases f.body.len() - k,
{
    reveal_strlit("}");
    reveal_strlit("//");
    let cur = FunctionV { line: (i + 1) as nat, body: relined_body(f.body, i as nat, k as nat), ..f };
    let n = i + 1 + k;
    if k == f.body.len() {
        let t = trim(lines[n]);
        assert(t == "}"@) by {
            lemma_trim_id("}"@);
        }
        lemma_prefix("}"@, Seq::empty());
        assert("}"@ + Seq::<char>::empty() =~= "}"@);
        assert(cur == relined(f, i as nat));
    } else {
        let s = f.body[k].0;
        assert(plain_line(s));
        lemma_line_round_trip(s);
        let t = trim(lines[n]);
        assert(lines[n] == line_text(s));
        lemma_not_prefix(t, "}"@, 0);
        lemma_not_prefix(t, "//"@, 0);
        let next = FunctionV { body: cur.body.push((s, (n + 1) as nat)), ..cur };
        assert(next.body =~= relined_body(f.body, i as nat, (k + 1) as nat));
        assert(next == FunctionV {
            line: (i + 1) as nat,
            body: relined_body(f.body, i as nat, (k + 1) as nat),
            ..f
        });
        lemma_scan_body(lines, i, f, k + 1, imps, funcs);
    }
}

proof fn lemma_scan_function(
    lines: Seq<Seq<char>>,
    i: int,
    f: FunctionV,
    cur: FunctionV,
    imps: Seq<crate::ast::ImportV>,
    funcs: Seq<FunctionV>,
)
    requires
        plain_function(f),
        0 <= i,
        i + function_lines(f).len() <= lines.len(),
        lines.subrange(i, i + function_lines(f).len()) == function_lines(f),
    ensures
        scan_spec(lines, i, ScanMode::Top, cur, imps, funcs) == scan_spec(
            lines,
            i + function_lines(f).len(),
            ScanMode::Top,
            no_function(),
            imps,
            funcs.push(relined(f, i as nat)),
        ),
{
    reveal_strlit("//");
    reveal_strlit("import ");
    let fl = function_lines(f);
    let m = fl.len() as int;
    assert(m == f.body.len() + 2);
    assert(lines[i] == lines.subrange(i, i + m)[0]);
    assert(fl[0] == signature_line(f));
    assert forall|j: int| 0 <= j < f.body.len() implies lines[i + 1 + j] == line_text(
        f.body[j].0,
    ) by {
        assert(lines[i + 1 + j] == lines.subrange(i, i + m)[1 + j]);
        assert(fl[1 + j] == line_text(f.body[j].0));
    }
    assert(lines[i + 1 + f.body.len()] == "}"@) by {
        assert(lines[i + 1 + f.body.len()] == lines.subrange(i, i + m)[m - 1]);
    }
    lemma_signature_round_trip(f);
    let sig = signature_line(f);
    lemma_not_prefix(sig, "//"@, 0);
    lemma_not_prefix(sig, "import "@, 0);
    let start = FunctionV {
        name: f.name,
        return_type: f.return_type,
        body: Seq::empty(),
        is_async: f.is_async,
        line: (i + 1) as nat,
    };
    assert(relined_body(f.body, i as nat, 0) =~= Seq::<(StmtV, nat)>::empty());
    assert(start == FunctionV { line: (i + 1) as nat, body: relined_body(f.body, i as nat, 0), ..f });
    lemma_scan_body(lines, i, f, 0, imps, funcs);
}

/// The lines of the first `k` functions, without newlines.
pub open spec fn all_lines(fs: Seq<FunctionV>, k: nat) -> Seq<Seq<char>>
    decreases k,
{
    if k == 0 || k > fs.len() {
        Seq::empty()
    } else {
        all_lines(fs, (k - 1) as nat) + function_lines(fs[k - 1])
    }
}

/// The first `k` functions as the parser reads them back when their lines
/// start after line `off`.
pub open spec fn relined_all(fs: Seq<FunctionV>, k: nat, off: nat) -> Seq<FunctionV>
    decreases k,
{
    if k == 0 || k > fs.len() {
        Seq::empty()
    } else {
        relined_all(fs, (k - 1) as nat, off).push(
            relined(fs[k - 1], off + all_lines(fs, (k - 1) as nat).len()),
        )
    }
}

pub open spec fn all_plain(fs: Seq<FunctionV>) -> bool {
    forall|i: int| 0 <= i < fs.len() ==> plain_function(#[trigger] fs[i])
}

proof fn lemma_all_lines(fs: Seq<FunctionV>, k: nat)
    requires
        all_plain(fs),
        k <= fs.len(),
    ensures
        functions_source(fs, k) == join_lines(all_lines(fs, k)),
        forall|j: int| 0 <= j < all_lines(fs, k).len() ==> no_newline(#[trigger] all_lines(fs, k)[j]),
    decreases k,
{
    if k > 0 {
        lemma_all_lines(fs, (k - 1) as nat);
        let f = fs[k - 1];
        assert(plain_function(f));
        lemma_function_source(f);
        lemma_join_append(all_lines(fs, (k - 1) as nat), function_lines(f));
        let fl = function_lines(f);
        lemma_signature_round_trip(f);
        assert forall|j: int| 0 <= j < fl.len() implies no_newline(#[trigger] fl[j]) by {
            if 1 <= j < fl.len() - 1 {
                assert(plain_line(f.body[j - 1].0));
                lemma_line_round_trip(f.body[j - 1].0);
            } else if j == fl.len() - 1 {
                reveal_strlit("}");
            }
        }
        let a = all_lines(fs, (k - 1) as nat);
        assert forall|j: int| 0 <= j < (a + fl).len() implies no_newline(#[trigger] (a + fl)[j]) by {
            if j >= a.len() {
                assert((a + fl)[j] == fl[j - a.len()]);
            }
        }
    } else {
        assert(all_lines(fs, 0) =~= Seq::<Seq<char>>::empty());
    }
}

proof fn lemma_all_lines_prefix(fs: Seq<FunctionV>, k: nat, n: nat)
    requires
        k <= n <= fs.len(),
    ensures
        all_lines(fs, k).len() <= all_lines(fs, n).len(),
        all_lines(fs, n).subrange(0, all_lines(fs, k).len() as int) == all_lines(fs, k),
    decreases n - k,
{
    if k < n {
        lemma_all_lines_prefix(fs, k, (n - 1) as nat);
        let a = all_lines(fs, (n - 1) as nat);
        let b = function_lines(fs[n - 1]);
        assert((a + b).subrange(0, all_lines(fs, k).len() as int) =~= a.subrange(
            0,
            all_lines(fs, k).len() as int,
        ));
    } else {
        assert(all_lines(fs, n).subrange(0, all_lines(fs, n).len() as int) =~= all_lines(fs, n));
    }
}

proof fn lemma_scan_functions(
    lines: Seq<Seq<char>>,
    fs: Seq<FunctionV>,
    k: nat,
    off: nat,
    imps: Seq<crate::ast::ImportV>,
)
    requires
        all_plain(fs),
        k <= fs.len(),
        off + all_lines(fs, fs.len() as nat).len() <= lines.len(),
        lines.subrange(off as int, off as int + all_lines(fs, fs.len() as nat).len()) == all_lines(
            fs,
            fs.len() as nat,
        ),
    ensures
        scan_spec(lines, off as int, ScanMode::Top, no_function(), imps, Seq::empty())
            == scan_spec(
            lines,
            off as int + all_lines(fs, k).len(),
            ScanMode::Top,
            no_function(),
            imps,
            relined_all(fs, k, off),
        ),
    decreases k,
{
    if k > 0 {
        lemma_scan_functions(lines, fs, (k - 1) as nat, off, imps);
        let n = fs.len() as nat;
        let f = fs[k - 1];
        assert(plain_function(f));
        let a = all_lines(fs, (k - 1) as nat);
        let i: int = off as int + a.len();
        let fl = function_lines(f);
        lemma_all_lines_prefix(fs, k, n);
        lemma_all_lines_prefix(fs, (k - 1) as nat, k);
        let all = all_lines(fs, n);
        assert(all_lines(fs, k) == a + fl);
        assert(lines.subrange(i, i + fl.len()) =~= fl) by {
            assert forall|j: int| 0 <= j < fl.len() implies lines.subrange(i, i + fl.len())[j]
                == fl[j] by {
                assert(lines.subrange(i, i + fl.len())[j] == lines[i + j]);
                assert(lines[i + j] == lines.subrange(off as int, off as int + all.len())[a.len() + j]);
                assert(all.subrange(0, all_lines(fs, k).len() as int)[a.len() + j] == (a + fl)[a.len()
                    + j]);
            }
        }
        lemma_scan_function(lines, i, f, no_function(), imps, relined_all(fs, (k - 1) as nat, off));
    } else {
        assert(relined_all(fs, 0, off) =~= Seq::<FunctionV>::empty());
    }
}

proof fn lemma_relined_all(fs: Seq<FunctionV>, k: nat, off: nat)
    requires
        k <= fs.len(),
    ensures
        relined_all(fs, k, off).len() == k,
        forall|i: int|
            0 <= i < k ==> (#[trigger] relined_all(fs, k, off)[i]) == relined(
                fs[i],
                off + all_lines(fs, i as nat).len(),
            ),
    decreases k,
{
    if k > 0 {
        lemma_relined_all(fs, (k - 1) as nat, off);
    }
}

/// Two programs that differ at most in the lines their functions and
/// statements are tagged with.
pub open spec fn same_but_lines(p: ProgramV, q: ProgramV) -> bool {
    &&& p.imports == q.imports
    &&& p.functions.len() == q.functions.len()
    &&& forall|i: int|
        0 <= i < p.functions.len() ==> {
            let f = #[trigger] p.functions[i];
            let g = q.functions[i];
            &&& f.name == g.name
            &&& f.return_type == g.return_type
            &&& f.is_async == g.is_async
            &&& f.body.len() == g.body.len()
            &&& forall|k: int| 0 <= k < f.body.len() ==> (#[trigger] f.body[k]).0 == g.body[k].0
        }
}

/// The round trip for a program without imports.
proof fn lemma_round_trip_no_imports(p: ProgramV)
    requires
        p.imports.len() == 0,
        p.functions.len() > 0,
        all_plain(p.functions),
    ensures
        parse_program_spec(format_spec(p)) matches Ok(q) && same_but_lines(p, q),
{
    let fs = p.functions;
    let n = fs.len() as nat;
    lemma_all_lines(fs, n);
    let all = all_lines(fs, n);
    assert(format_spec(p) =~= functions_source(fs, n)) by {
        assert(imports_source(p.imports, 0) == Seq::<char>::empty());
    }
    lemma_lines_of_join(all);
    let lines = all.push(Seq::empty());
    assert(lines.subrange(0, all.len() as int) =~= all);
    lemma_scan_functions(lines, fs, n, 0, Seq::empty());
    // the empty text after the last newline, then the end
    assert(trim(lines[all.len() as int]).len() == 0);
    lemma_relined_all(fs, n, 0);
    let q = ProgramV { imports: Seq::empty(), functions: relined_all(fs, n, 0) };
    assert(split(format_spec(p), '\n') == lines);
    let r = relined_all(fs, n, 0);
    assert(scan_spec(lines, all.len() as int + 1, ScanMode::Top, no_function(), Seq::empty(), r) == Ok::<
        ProgramV,
        (Seq<char>, nat),
    >(q));
    assert(scan_spec(lines, all.len() as int, ScanMode::Top, no_function(), Seq::empty(), r)
        == scan_spec(lines, all.len() as int + 1, ScanMode::Top, no_function(), Seq::empty(), r));
    assert(parse_program_spec(format_spec(p)) == Ok::<ProgramV, (Seq<char>, nat)>(q));
    assert(p.imports =~= q.imports);
    assert forall|i: int| 0 <= i < p.functions.len() implies {
        let f = #[trigger] p.functions[i];
        let g = q.functions[i];
        &&& f.name == g.name
        &&& f.return_type == g.return_type
        &&& f.is_async == g.is_async
        &&& f.body.len() == g.body.len()
        &&& forall|k: int| 0 <= k < f.body.len() ==> (#[trigger] f.body[k]).0 == g.body[k].0
    } by {
        assert(q.functions[i] == relined(fs[i], 0 + all_lines(fs, i as nat).len()));
    }
}

proof fn lemma_split_acc_prefix(y: Seq<char>, c: char, i: int, cur: Seq<char>, acc: Seq<Seq<char>>)
    requires
        0 <= i <= y.len(),
    ensures
        split_acc(y, c, i, cur, acc) == acc + split_acc(y, c, i, cur, Seq::empty()),
    decreases y.len() - i,
{
    if i < y.len() {
        if y[i] == c {
            lemma_split_acc_prefix(y, c, i + 1, Seq::empty(), acc.push(cur));
            lemma_split_acc_prefix(y, c, i + 1, Seq::empty(), seq![cur]);
            assert(acc.push(cur) =~= acc + seq![cur]);
            assert(Seq::<Seq<char>>::empty().push(cur) =~= seq![cur]);
            assert(acc + (seq![cur] + split_acc(y, c, i + 1, Seq::empty(), Seq::empty())) =~= acc
                + seq![cur] + split_acc(y, c, i + 1, Seq::empty(), Seq::empty()));
        } else {
            lemma_split_acc_prefix(y, c, i + 1, cur.push(y[i]), acc);
        }
    } else {
        assert(acc.push(cur) =~= acc + Seq::<Seq<char>>::empty().push(cur));
    }
}

/// Splitting `x`, a separator and `y` gives the pieces of `x`, then those of
/// `y`.
proof fn lemma_split_concat(x: Seq<char>, c: char, y: Seq<char>)
    ensures
        split(x + seq![c] + y, c) == split(x, c) + split(y, c),
{
    lemma_split_concat_acc(x, c, y, 0, Seq::empty(), Seq::empty());
    lemma_split_acc_prefix(y, c, 0, Seq::empty(), split(x, c));
}

/// Processing `x`, a separator and `y` pushes the pieces of `x`, its last
/// piece closed by the separator, and goes on with `y`.
proof fn lemma_split_concat_acc(
    x: Seq<char>,
    c: char,
    y: Seq<char>,
    i: int,
    cur: Seq<char>,
    acc: Seq<Seq<char>>,
)
    requires
        0 <= i <= x.len(),
    ensures
        split_acc(x + seq![c] + y, c, i, cur, acc) == split_acc(
            y,
            c,
            0,
            Seq::empty(),
            split_acc(x, c, i, cur, acc),
        ),
    decreases x.len() - i,
{
    let s = x + seq![c] + y;
    if i < x.len() {
        assert(s[i] == x[i]);
        if x[i] == c {
            lemma_split_concat_acc(x, c, y, i + 1, Seq::empty(), acc.push(cur));
        } else {
            lemma_split_concat_acc(x, c, y, i + 1, cur.push(x[i]), acc);
        }
    } else {
        assert(s[i] == c);
        lemma_split_shift(s, c, i + 1, Seq::empty(), acc.push(cur));
        assert(s.skip(i + 1) =~= y);
    }
}

proof fn lemma_split_none_acc(y: Seq<char>, c: char, i: int, acc: Seq<Seq<char>>)
    requires
        0 <= i <= y.len(),
        forall|k: int| 0 <= k < y.len() ==> y[k] != c,
    ensures
        split_acc(y, c, i, y.take(i), acc) == acc.push(y),
    decreases y.len() - i,
{
    if i < y.len() {
        assert(y.take(i).push(y[i]) =~= y.take(i + 1));
        lemma_split_none_acc(y, c, i + 1, acc);
    } else {
        assert(y.take(i) =~= y);
    }
}

/// Text without the separator is one piece.
proof fn lemma_split_none(y: Seq<char>, c: char)
    requires
        forall|k: int| 0 <= k < y.len() ==> y[k] != c,
    ensures
        split(y, c) == seq![y],
{
    assert(y.take(0) =~= Seq::<char>::empty());
    lemma_split_none_acc(y, c, 0, Seq::empty());
    assert(Seq::<Seq<char>>::empty().push(y) =~= seq![y]);
}

/// Text holds none of `;`, `{` and `}`.
pub open spec fn no_block_chars(t: Seq<char>) -> bool {
    forall|i: int| 0 <= i < t.len() ==> t[i] != ';' && t[i] != '{' && t[i] != '}'
}

/// A plain leaf statement, possibly awaited.
pub open spec fn plain_item(s: StmtV) -> bool {
    match s {
        StmtV::Await(inner) => plain_leaf(*inner),
        _ => plain_leaf(s),
    }
}

/// A statement that can stand in an inline block and read back: a plain
/// leaf statement, possibly awaited, whose text holds no `;`, `{` or `}`.
pub open spec fn block_leaf(s: StmtV) -> bool {
    plain_item(s) && no_block_chars(inline_stmt(s))
}

/// What the single-line form of a possibly awaited plain leaf statement
/// looks like, and that it reads back as the statement.
proof fn lemma_item(s: StmtV)
    requires
        plain_item(s),
    ensures
        inline_stmt(s).len() > 0,
        !is_ws(inline_stmt(s)[0]),
        !is_ws(inline_stmt(s).last()),
        inline_stmt(s).last() != ';',
        is_name_char(inline_stmt(s).last()) || inline_stmt(s).last() == ')',
        no_newline(inline_stmt(s)),
        parse_stmt_core_spec(inline_stmt(s)) == Ok::<StmtV, Seq<char>>(s),
{
    reveal_strlit("await ");
    match s {
        StmtV::Await(inner) => {
            let leaf = *inner;
            lemma_leaf_edges(leaf);
            lemma_leaf_no_newline(leaf);
            lemma_leaf_last(leaf);
            lemma_leaf_round_trip(leaf);
            lemma_await_prefix(inline_stmt(leaf), leaf);
            assert(inline_stmt(s) == "await "@ + inline_stmt(leaf));
            assert(inline_stmt(s).last() == inline_stmt(leaf).last());
            lemma_no_newline_concat("await "@, inline_stmt(leaf));
            assert(s == StmtV::Await(Box::new(leaf)));
        },
        _ => {
            lemma_leaf_edges(s);
            lemma_leaf_no_newline(s);
            lemma_leaf_last(s);
            lemma_leaf_round_trip(s);
        },
    }
}

pub open spec fn block_items(v: Seq<StmtV>) -> bool {
    forall|j: int| 0 <= j < v.len() ==> block_leaf(#[trigger] v[j])
}

/// The pieces an inline block splits into at `;`.
pub open spec fn block_pieces(v: Seq<StmtV>, k: nat) -> Seq<Seq<char>> {
    Seq::new(
        k,
        |j: int|
            if j == 0 {
                inline_stmt(v[0])
            } else {
                " "@ + inline_stmt(v[j])
            },
    )
}

proof fn lemma_block_split(v: Seq<StmtV>, k: nat)
    requires
        block_items(v),
        1 <= k <= v.len(),
    ensures
        split(inline_block(v, k), ';') == block_pieces(v, k),
    decreases k,
{
    reveal_strlit("; ");
    reveal_strlit(" ");
    if k == 1 {
        assert(block_leaf(v[0]));
        lemma_split_none(inline_stmt(v[0]), ';');
        assert(block_pieces(v, 1) =~= seq![inline_stmt(v[0])]);
    } else {
        lemma_block_split(v, (k - 1) as nat);
        let x = inline_block(v, (k - 1) as nat);
        let y = " "@ + inline_stmt(v[k - 1]);
        assert(block_leaf(v[k - 1]));
        assert(inline_block(v, k) =~= x + seq![';'] + y);
        lemma_split_concat(x, ';', y);
        assert forall|i: int| 0 <= i < y.len() implies y[i] != ';' by {
            if i > 0 {
                assert(y[i] == inline_stmt(v[k - 1])[i - 1]);
            }
        }
        lemma_split_none(y, ';');
        assert(block_pieces(v, k) =~= block_pieces(v, (k - 1) as nat) + seq![y]);
    }
}

proof fn lemma_block_parts(raw: Seq<char>, v: Seq<StmtV>, i: nat)
    requires
        block_items(v),
        v.len() > 0,
        raw == inline_block(v, v.len()),
        i <= v.len(),
    ensures
        block_parts_spec(raw, split(raw, ';'), i as int, v.take(i as int)) == Ok::<
            Seq<StmtV>,
            Seq<char>,
        >(v),
    decreases v.len() - i,
{
    reveal_strlit(" ");
    lemma_block_split(v, v.len());
    let parts = split(raw, ';');
    if i < v.len() {
        let s = v[i as int];
        assert(block_leaf(s));
        lemma_item(s);
        if i == 0 {
            lemma_trim_id(inline_stmt(s));
        } else {
            lemma_trim_pad(" "@, inline_stmt(s), Seq::empty());
            assert(" "@ + inline_stmt(s) + Seq::<char>::empty() =~= " "@ + inline_stmt(s));
        }
        assert(trim(parts[i as int]) == inline_stmt(s));
        assert(v.take(i as int).push(s) =~= v.take(i as int + 1));
        lemma_block_parts(raw, v, i + 1);
    } else {
        assert(v.take(i as int) =~= v);
    }
}

/// An inline block of block statements reads back as those statements.
proof fn lemma_inline_block_round_trip(v: Seq<StmtV>)
    requires
        block_items(v),
    ensures
        parse_inline_block_spec(inline_block(v, v.len())) == Ok::<Seq<StmtV>, Seq<char>>(v),
{
    if v.len() == 0 {
        assert(v =~= Seq::<StmtV>::empty());
    } else {
        let raw = inline_block(v, v.len());
        lemma_block_nonempty(v, v.len());
        lemma_block_parts(raw, v, 0);
        assert(v.take(0) =~= Seq::<StmtV>::empty());
    }
}

proof fn lemma_block_nonempty(v: Seq<StmtV>, k: nat)
    requires
        block_items(v),
        1 <= k <= v.len(),
    ensures
        inline_block(v, k).len() > 0,
        !is_ws(inline_block(v, k)[0]),
        !is_ws(inline_block(v, k).last()),
        is_name_char(inline_block(v, k).last()) || inline_block(v, k).last() == ')',
        forall|i: int|
            0 <= i < inline_block(v, k).len() ==> inline_block(v, k)[i] != '{'
                && inline_block(v, k)[i] != '}' && inline_block(v, k)[i] != '\n',
    decreases k,
{
    reveal_strlit("; ");
    assert(block_leaf(v[k - 1]));
    lemma_item(v[k - 1]);
    if k == 1 {
        assert(block_leaf(v[0]));
        lemma_item(v[0]);
    } else {
        lemma_block_nonempty(v, (k - 1) as nat);
        let x = inline_block(v, (k - 1) as nat);
        let y = inline_stmt(v[k - 1]);
        assert(inline_block(v, k) == x + "; "@ + y);
        assert forall|i: int| 0 <= i < inline_block(v, k).len() implies inline_block(v, k)[i]
            != '{' && inline_block(v, k)[i] != '}' && inline_block(v, k)[i] != '\n' by {
            if i >= x.len() + 2 {
                assert(inline_block(v, k)[i] == y[i - x.len() - 2]);
            } else if i < x.len() {
                assert(inline_block(v, k)[i] == x[i]);
            }
        }
    }
}

proof fn lemma_leaf_last(s: StmtV)
    requires
        plain_leaf(s),
    ensures
        is_name_char(inline_stmt(s).last()) || inline_stmt(s).last() == ')',
{
    reveal_strlit(")");
    reveal_strlit("()");
    reveal_strlit("time.now()");
    reveal_strlit("return ");
    if let StmtV::ReturnInt(v) = s {
        let d = int_text(v as int);
        if v < 0 {
            lemma_decimal((-v) as nat);
            assert(d.last() == decimal((-v) as nat).last());
        } else {
            lemma_decimal(v as nat);
        }
        assert(is_digit(d.last()));
        assert(inline_stmt(s).last() == d.last());
    }
}

/// The first occurrence of `p` in `a + p + b` is right after `a` when `a`
/// holds no first character of `p`.
proof fn lemma_find_first(a: Seq<char>, p: Seq<char>, b: Seq<char>, i: int)
    requires
        p.len() > 0,
        0 <= i <= a.len(),
        forall|k: int| 0 <= k < a.len() ==> a[k] != p[0],
    ensures
        find_from(a + p + b, p, i) == Some(a.len() as int),
    decreases a.len() - i,
{
    let s = a + p + b;
    if i < a.len() {
        assert(!occurs_at(s, p, i)) by {
            if occurs_at(s, p, i) {
                assert(s.subrange(i, i + p.len())[0] == s[i]);
            }
        }
        lemma_find_first(a, p, b, i + 1);
    } else {
        assert(s.subrange(i, i + p.len()) =~= p);
    }
}

/// Text made only of whitespace trims to nothing.
proof fn lemma_trim_blank(s: Seq<char>)
    requires
        forall|i: int| 0 <= i < s.len() ==> is_ws(#[trigger] s[i]),
    ensures
        trim(s).len() == 0,
    decreases s.len(),
{
    if s.len() > 0 {
        assert forall|i: int| 0 <= i < s.drop_first().len() implies is_ws(
            #[trigger] s.drop_first()[i],
        ) by {
            assert(s.drop_first()[i] == s[i + 1]);
        }
        lemma_trim_blank(s.drop_first());
        assert(trim_start(s) == trim_start(s.drop_first()));
    } else {
        assert(trim_start(s) == s);
    }
}

/// The text of a block between its braces: a space, the statements, a
/// space.
proof fn lemma_block_text(v: Seq<StmtV>, closing: bool)
    requires
        block_items(v),
    ensures
        block_text(
            " "@ + inline_block(v, v.len()) + if closing {
                " }"@
            } else {
                " "@
            },
        ) == inline_block(v, v.len()),
{
    reveal_strlit(" ");
    reveal_strlit(" }");
    reveal_strlit("}");
    let b = inline_block(v, v.len());
    let raw = " "@ + b + if closing {
        " }"@
    } else {
        " "@
    };
    if closing {
        assert(raw =~= (" "@ + b + " "@) + "}"@);
        lemma_trim_end_once(" "@ + b + " "@, "}"@);
    } else {
        lemma_not_suffix(raw, "}"@);
        assert(trim_end_matches(raw, "}"@) == raw);
    }
    assert(trim_end_matches(raw, "}"@) == " "@ + b + " "@);
    if v.len() > 0 {
        lemma_block_nonempty(v, v.len());
        lemma_trim_pad(" "@, b, " "@);
    } else {
        assert(b.len() == 0);
        assert(forall|i: int| 0 <= i < (" "@ + b + " "@).len() ==> (" "@ + b + " "@)[i] == ' ');
        lemma_trim_blank(" "@ + b + " "@);
        assert(trim(" "@ + b + " "@) =~= b);
    }
}

proof fn lemma_condition(c: Condition)
    ensures
        parse_condition_spec(trim(condition_source(c) + " "@)) == Ok::<Condition, Seq<char>>(c),
        condition_source(c).len() > 0,
        forall|i: int|
            0 <= i < condition_source(c).len() ==> is_name_char(#[trigger] condition_source(c)[i]),
{
    reveal_strlit("true");
    reveal_strlit("false");
    reveal_strlit(" ");
    let t = condition_source(c);
    lemma_trim_pad(Seq::empty(), t, " "@);
    assert(Seq::<char>::empty() + t + " "@ =~= t + " "@);
    lemma_trim_id(t);
    assert("true"@ != "false"@) by {
        assert("true"@.len() != "false"@.len());
    }
}

/// `cond + " { " + block + tail` split at its first `{`.
proof fn lemma_split_header(head: Seq<char>, b: Seq<char>, tail: Seq<char>)
    requires
        forall|i: int| 0 <= i < head.len() ==> head[i] != '{',
    ensures
        split_once(head + " { "@ + b + tail, "{"@) == Some((head + " "@, " "@ + b + tail)),
{
    reveal_strlit(" { ");
    reveal_strlit(" ");
    reveal_strlit("{");
    let x = head + " "@;
    assert forall|i: int| 0 <= i < x.len() implies x[i] != "{"@[0] by {
        if i < head.len() {
            assert(x[i] == head[i]);
        }
    }
    assert(head + " { "@ + b + tail =~= x + "{"@ + (" "@ + b + tail));
    lemma_find_first(x, "{"@, " "@ + b + tail, 0);
    assert((x + "{"@ + (" "@ + b + tail)).take(x.len() as int) =~= x);
    assert((x + "{"@ + (" "@ + b + tail)).skip(x.len() as int + 1) =~= " "@ + b + tail);
}

/// A `while` statement over a block of block statements reads back as
/// itself.
#[verifier::spinoff_prover]
proof fn lemma_while_round_trip(c: Condition, b: Seq<StmtV>)
    requires
        block_items(b),
    ensures
        parse_stmt_core_spec(inline_stmt(StmtV::While(c, b))) == Ok::<StmtV, Seq<char>>(
            StmtV::While(c, b),
        ),
{
    reveal_strlit("while ");
    reveal_strlit("if ");
    reveal_strlit(" }");
    let cond = condition_source(c);
    let blk = inline_block(b, b.len());
    let t = inline_stmt(StmtV::While(c, b));
    assert(t == "while "@ + cond + " { "@ + blk + " }"@);
    lemma_condition(c);
    assert(t[0] == 'w');
    lemma_not_prefix(t, "if "@, 0);
    assert(t =~= "while "@ + (cond + " { "@ + blk + " }"@));
    lemma_prefix("while "@, cond + " { "@ + blk + " }"@);
    lemma_split_header(cond, blk, " }"@);
    lemma_block_text(b, true);
    lemma_inline_block_round_trip(b);
}

proof fn lemma_int_text_chars(v: i32)
    ensures
        int_text(v as int).len() > 0,
        is_digit(int_text(v as int).last()),
        forall|i: int|
            0 <= i < int_text(v as int).len() ==> is_digit(#[trigger] int_text(v as int)[i])
                || int_text(v as int)[i] == '-',
{
    let d = int_text(v as int);
    if v < 0 {
        lemma_decimal((-v) as nat);
        let e = decimal((-v) as nat);
        assert(d.last() == e.last());
        assert forall|i: int| 0 <= i < d.len() implies is_digit(#[trigger] d[i]) || d[i] == '-' by {
            if i > 0 {
                assert(d[i] == e[i - 1]);
            }
        }
    } else {
        lemma_decimal(v as nat);
    }
}

/// A `for` statement over a plain variable and a block of block statements
/// reads back as itself.
#[verifier::spinoff_prover]
#[verifier::rlimit(100)]
proof fn lemma_for_round_trip(var: Seq<char>, a: i32, b: i32, body: Seq<StmtV>)
    requires
        plain_name(var),
        block_items(body),
    ensures
        parse_stmt_core_spec(inline_stmt(StmtV::ForRange(var, a, b, body))) == Ok::<
            StmtV,
            Seq<char>,
        >(StmtV::ForRange(var, a, b, body)),
{
    reveal_strlit("for ");
    reveal_strlit("while ");
    reveal_strlit("if ");
    reveal_strlit(" in ");
    reveal_strlit("..");
    reveal_strlit(" ");
    reveal_strlit(" }");
    let sa = int_text(a as int);
    let sb = int_text(b as int);
    let blk = inline_block(body, body.len());
    let head0 = var + " in "@ + sa + ".."@ + sb;
    let t = inline_stmt(StmtV::ForRange(var, a, b, body));
    assert(t =~= "for "@ + (head0 + " { "@ + blk + " }"@));
    assert(t[0] == 'f' && t[1] == 'o');
    lemma_not_prefix(t, "if "@, 0);
    lemma_not_prefix(t, "while "@, 0);
    lemma_prefix("for "@, head0 + " { "@ + blk + " }"@);
    lemma_int_text_chars(a);
    lemma_int_text_chars(b);
    assert(is_name_char(var[0]));
    assert forall|i: int| 0 <= i < head0.len() implies head0[i] != '{' by {
        if i < var.len() {
            assert(head0[i] == var[i]);
            assert(is_name_char(var[i]));
        } else if i >= var.len() + 4 && i < var.len() + 4 + sa.len() {
            assert(head0[i] == sa[i - var.len() - 4]);
        } else if i >= var.len() + 6 + sa.len() {
            assert(head0[i] == sb[i - var.len() - 6 - sa.len()]);
        }
    }
    lemma_split_header(head0, blk, " }"@);
    assert(head0.last() == sb.last());
    lemma_trim_pad(Seq::empty(), head0, " "@);
    assert(Seq::<char>::empty() + head0 + " "@ =~= head0 + " "@);
    // the variable, then the range
    assert forall|k: int| 0 <= k < var.len() implies var[k] != " in "@[0] by {
        assert(is_name_char(var[k]));
    }
    assert(head0 =~= var + " in "@ + (sa + ".."@ + sb));
    lemma_find_first(var, " in "@, sa + ".."@ + sb, 0);
    assert(head0.take(var.len() as int) =~= var);
    assert(head0.skip(var.len() as int + 4) =~= sa + ".."@ + sb);
    lemma_trim_id(var);
    assert forall|k: int| 0 <= k < sa.len() implies sa[k] != ".."@[0] by {
        assert(is_digit(sa[k]) || sa[k] == '-');
    }
    lemma_find_first(sa, ".."@, sb, 0);
    assert((sa + ".."@ + sb).take(sa.len() as int) =~= sa);
    assert((sa + ".."@ + sb).skip(sa.len() as int + 2) =~= sb);
    assert(is_digit(sa[0]) || sa[0] == '-');
    assert(is_digit(sb[0]) || sb[0] == '-');
    lemma_trim_id(sa);
    lemma_trim_id(sb);
    lemma_i32_round_trip(a);
    lemma_i32_round_trip(b);
    lemma_block_text(body, true);
    lemma_inline_block_round_trip(body);
}

proof fn lemma_rfind_at(s: Seq<char>, p: Seq<char>, k: int, m: int)
    requires
        0 <= k < m,
        occurs_at(s, p, k),
        forall|j: int| k < j < m ==> !occurs_at(s, p, j),
    ensures
        rfind_before(s, p, m) == Some(k),
    decreases m - k,
{
    if m - 1 > k {
        lemma_rfind_at(s, p, k, m - 1);
    }
}

proof fn lemma_rfind_absent(s: Seq<char>, p: Seq<char>, m: int)
    requires
        forall|j: int| 0 <= j < m ==> !occurs_at(s, p, j),
    ensures
        rfind_before(s, p, m) is None,
    decreases m,
{
    if m > 0 {
        lemma_rfind_absent(s, p, m - 1);
    }
}

/// No occurrence of a pattern that starts with `}` where the text has no
/// `}`, except at its very end.
proof fn lemma_no_close_at(s: Seq<char>, p: Seq<char>, j: int)
    requires
        p.len() > 1,
        p[0] == '}',
        0 <= j,
        j + 1 < s.len() ==> s[j] != '}',
    ensures
        !occurs_at(s, p, j),
{
    if occurs_at(s, p, j) {
        assert(s.subrange(j, j + p.len())[0] == s[j]);
    }
}

/// An `if` statement over blocks of block statements reads back as itself.
#[verifier::spinoff_prover]
#[verifier::rlimit(100)]
proof fn lemma_if_round_trip(c: Condition, t: Seq<StmtV>, e: Seq<StmtV>)
    requires
        block_items(t),
        block_items(e),
    ensures
        parse_stmt_core_spec(inline_stmt(StmtV::If(c, t, e))) == Ok::<StmtV, Seq<char>>(
            StmtV::If(c, t, e),
        ),
{
    reveal_strlit("if ");
    reveal_strlit(" }");
    reveal_strlit(" else { ");
    reveal_strlit("} else {");
    reveal_strlit(" ");
    let cond = condition_source(c);
    let b1 = inline_block(t, t.len());
    let b2 = inline_block(e, e.len());
    let tail = " }"@ + if e.len() > 0 {
        " else { "@ + b2 + " }"@
    } else {
        Seq::empty()
    };
    let text = inline_stmt(StmtV::If(c, t, e));
    assert(text =~= "if "@ + (cond + " { "@ + b1 + tail));
    lemma_prefix("if "@, cond + " { "@ + b1 + tail);
    lemma_condition(c);
    assert forall|i: int| 0 <= i < cond.len() implies cond[i] != '{' by {
        assert(is_name_char(cond[i]));
    }
    lemma_split_header(cond, b1, tail);
    let br = " "@ + b1 + tail;
    let pat = "} else {"@;
    if t.len() > 0 {
        lemma_block_nonempty(t, t.len());
    }
    if e.len() > 0 {
        lemma_block_nonempty(e, e.len());
        let k: int = b1.len() as int + 2;
        assert(br =~= (" "@ + b1 + " "@) + pat + (" "@ + b2 + " }"@));
        assert(occurs_at(br, pat, k)) by {
            assert(br.subrange(k, k + 8) =~= pat);
        }
        assert forall|j: int| k < j < br.len() implies !occurs_at(br, pat, j) by {
            if j + 1 < br.len() {
                if j < k + 8 {
                    assert(br[j] == pat[j - k]);
                } else if k + 9 <= j < k + 9 + b2.len() {
                    assert(br[j] == b2[j - k - 9]);
                }
            }
            lemma_no_close_at(br, pat, j);
        }
        lemma_rfind_at(br, pat, k, br.len() as int);
        assert(br.take(k) =~= " "@ + b1 + " "@);
        assert(br.skip(k + 8) =~= " "@ + b2 + " }"@);
        lemma_block_text(t, false);
        lemma_block_text(e, true);
        lemma_inline_block_round_trip(t);
        lemma_inline_block_round_trip(e);
        assert(rsplit_once(br, pat) == Some((" "@ + b1 + " "@, " "@ + b2 + " }"@)));
    } else {
        assert(br =~= " "@ + b1 + " }"@);
        assert forall|j: int| 0 <= j < br.len() implies !occurs_at(br, pat, j) by {
            if j + 1 < br.len() {
                if 1 <= j < b1.len() + 1 {
                    assert(br[j] == b1[j - 1]);
                }
            }
            lemma_no_close_at(br, pat, j);
        }
        lemma_rfind_absent(br, pat, br.len() as int);
        lemma_block_text(t, true);
        lemma_inline_block_round_trip(t);
        assert(rsplit_once(br, pat) is None);
        assert(e =~= Seq::<StmtV>::empty());
    }
}

/// A statement the formatter writes on one line and the parser reads back:
/// a plain leaf statement, or an `if`, `while` or `for` (over a plain
/// variable) whose blocks hold block statements.
pub open spec fn plain_stmt(s: StmtV) -> bool {
    match s {
        StmtV::If(_, t, e) => block_items(t) && block_items(e),
        StmtV::While(_, b) => block_items(b),
        StmtV::ForRange(var, _, _, b) => plain_name(var) && block_items(b),
        _ => plain_leaf(s),
    }
}

/// Re-reading the single-line form of a plain statement gives it back.
pub proof fn lemma_stmt_round_trip(s: StmtV)
    requires
        plain_stmt(s),
    ensures
        parse_stmt_core_spec(inline_stmt(s)) == Ok::<StmtV, Seq<char>>(s),
{
    match s {
        StmtV::If(c, t, e) => lemma_if_round_trip(c, t, e),
        StmtV::While(c, b) => lemma_while_round_trip(c, b),
        StmtV::ForRange(var, a, b, body) => lemma_for_round_trip(var, a, b, body),
        _ => lemma_leaf_round_trip(s),
    }
}

proof fn lemma_block_no_newline(v: Seq<StmtV>)
    requires
        block_items(v),
    ensures
        no_newline(inline_block(v, v.len())),
{
    if v.len() > 0 {
        lemma_block_nonempty(v, v.len());
    }
}

proof fn lemma_name_no_newline(n: Seq<char>)
    requires
        forall|i: int| 0 <= i < n.len() ==> is_name_char(#[trigger] n[i]),
    ensures
        no_newline(n),
{
}

/// The single-line form of a plain statement starts with a name character,
/// ends with neither whitespace nor `;`, holds no newline, and does not
/// start with `await `.
proof fn lemma_stmt_edges(s: StmtV)
    requires
        plain_stmt(s),
    ensures
        inline_stmt(s).len() > 0,
        is_name_char(inline_stmt(s)[0]),
        !is_ws(inline_stmt(s).last()),
        inline_stmt(s).last() != ';',
        no_newline(inline_stmt(s)),
        !starts_with(inline_stmt(s), "await "@),
{
    reveal_strlit("await ");
    reveal_strlit("if ");
    reveal_strlit("while ");
    reveal_strlit("for ");
    reveal_strlit(" { ");
    reveal_strlit(" }");
    reveal_strlit(" else { ");
    reveal_strlit(" in ");
    reveal_strlit("..");
    let x = inline_stmt(s);
    match s {
        StmtV::If(c, t, e) => {
            lemma_condition(c);
            let cond = condition_source(c);
            lemma_name_no_newline(cond);
            lemma_block_no_newline(t);
            lemma_block_no_newline(e);
            let b1 = inline_block(t, t.len());
            let b2 = inline_block(e, e.len());
            let head = "if "@ + cond + " { "@ + b1 + " }"@;
            lemma_no_newline_concat("if "@, cond);
            lemma_no_newline_concat("if "@ + cond, " { "@);
            lemma_no_newline_concat("if "@ + cond + " { "@, b1);
            lemma_no_newline_concat("if "@ + cond + " { "@ + b1, " }"@);
            if e.len() > 0 {
                lemma_no_newline_concat(" else { "@, b2);
                lemma_no_newline_concat(" else { "@ + b2, " }"@);
                lemma_no_newline_concat(head, " else { "@ + b2 + " }"@);
                assert(x == head + (" else { "@ + b2 + " }"@));
            } else {
                assert(x =~= head);
            }
            lemma_not_prefix(x, "await "@, 0);
        },
        StmtV::While(c, b) => {
            lemma_condition(c);
            let cond = condition_source(c);
            lemma_name_no_newline(cond);
            lemma_block_no_newline(b);
            let blk = inline_block(b, b.len());
            lemma_no_newline_concat("while "@, cond);
            lemma_no_newline_concat("while "@ + cond, " { "@);
            lemma_no_newline_concat("while "@ + cond + " { "@, blk);
            lemma_no_newline_concat("while "@ + cond + " { "@ + blk, " }"@);
            lemma_not_prefix(x, "await "@, 0);
        },
        StmtV::ForRange(var, a, b, body) => {
            lemma_name_no_newline(var);
            lemma_int_text_chars(a);
            lemma_int_text_chars(b);
            let sa = int_text(a as int);
            let sb = int_text(b as int);
            assert(no_newline(sa)) by {
                assert forall|i: int| 0 <= i < sa.len() implies sa[i] != '\n' by {
                    assert(is_digit(sa[i]) || sa[i] == '-');
                }
            }
            assert(no_newline(sb)) by {
                assert forall|i: int| 0 <= i < sb.len() implies sb[i] != '\n' by {
                    assert(is_digit(sb[i]) || sb[i] == '-');
                }
            }
            lemma_block_no_newline(body);
            let blk = inline_block(body, body.len());
            lemma_no_newline_concat("for "@, var);
            lemma_no_newline_concat("for "@ + var, " in "@);
            lemma_no_newline_concat("for "@ + var + " in "@, sa);
            lemma_no_newline_concat("for "@ + var + " in "@ + sa, ".."@);
            lemma_no_newline_concat("for "@ + var + " in "@ + sa + ".."@, sb);
            lemma_no_newline_concat("for "@ + var + " in "@ + sa + ".."@ + sb, " { "@);
            lemma_no_newline_concat("for "@ + var + " in "@ + sa + ".."@ + sb + " { "@, blk);
            lemma_no_newline_concat("for "@ + var + " in "@ + sa + ".."@ + sb + " { "@ + blk, " }"@);
            lemma_not_prefix(x, "await "@, 0);
        },
        _ => {
            lemma_leaf_edges(s);
            lemma_leaf_no_newline(s);
            lemma_leaf_first(s);
        },
    }
}

/// A non-empty run of name characters.
pub open spec fn name_chars(n: Seq<char>) -> bool {
    n.len() > 0 && forall|i: int| 0 <= i < n.len() ==> is_name_char(#[trigger] n[i])
}

/// An import the formatter writes and the parser reads back: names of name
/// characters and a non-empty module without quotes or newlines.
pub open spec fn plain_import(i: ImportV) -> bool {
    &&& i.names.len() > 0
    &&& forall|k: int| 0 <= k < i.names.len() ==> name_chars(#[trigger] i.names[k])
    &&& i.module.len() > 0
    &&& no_quote(i.module)
    &&& no_newline(i.module)
}

/// An import line without its newline.
pub open spec fn import_line(i: ImportV) -> Seq<char> {
    "import { "@ + join_names(i.names, i.names.len()) + " } from \""@ + i.module + seq!['"']
}

pub open spec fn name_pieces(names: Seq<Seq<char>>, k: nat) -> Seq<Seq<char>> {
    Seq::new(k, |j: int| " "@ + names[j])
}

proof fn lemma_name_no_comma(n: Seq<char>)
    requires
        name_chars(n),
    ensures
        forall|i: int| 0 <= i < (" "@ + n).len() ==> (" "@ + n)[i] != ',',
        forall|i: int| 0 <= i < (" "@ + n + " "@).len() ==> (" "@ + n + " "@)[i] != ',',
{
    reveal_strlit(" ");
    assert forall|i: int| 0 <= i < (" "@ + n).len() implies (" "@ + n)[i] != ',' by {
        if i > 0 {
            assert((" "@ + n)[i] == n[i - 1]);
        }
    }
    assert forall|i: int| 0 <= i < (" "@ + n + " "@).len() implies (" "@ + n + " "@)[i]
        != ',' by {
        if 0 < i < n.len() + 1 {
            assert((" "@ + n + " "@)[i] == n[i - 1]);
        }
    }
}

proof fn lemma_names_split(names: Seq<Seq<char>>, k: nat)
    requires
        1 <= k <= names.len(),
        forall|j: int| 0 <= j < names.len() ==> name_chars(#[trigger] names[j]),
    ensures
        split(" "@ + join_names(names, k), ',') == name_pieces(names, k),
    decreases k,
{
    reveal_strlit(" ");
    reveal_strlit(", ");
    assert(name_chars(names[k - 1]));
    lemma_name_no_comma(names[k - 1]);
    if k == 1 {
        lemma_split_none(" "@ + names[0], ',');
        assert(name_pieces(names, 1) =~= seq![" "@ + names[0]]);
    } else {
        lemma_names_split(names, (k - 1) as nat);
        let x = " "@ + join_names(names, (k - 1) as nat);
        let y = " "@ + names[k - 1];
        assert(" "@ + join_names(names, k) =~= x + seq![','] + y);
        lemma_split_concat(x, ',', y);
        lemma_split_none(y, ',');
        assert(name_pieces(names, k) =~= name_pieces(names, (k - 1) as nat) + seq![y]);
    }
}

proof fn lemma_names_of(parts: Seq<Seq<char>>, names: Seq<Seq<char>>, i: nat)
    requires
        parts.len() == names.len(),
        i <= names.len(),
        forall|j: int| 0 <= j < names.len() ==> trim(#[trigger] parts[j]) == names[j],
        forall|j: int| 0 <= j < names.len() ==> name_chars(#[trigger] names[j]),
    ensures
        names_of(parts, i as int, names.take(i as int)) == names,
    decreases names.len() - i,
{
    if i < names.len() {
        assert(trim(parts[i as int]) == names[i as int]);
        assert(name_chars(names[i as int]));
        assert(names.take(i as int).push(names[i as int]) =~= names.take(i as int + 1));
        lemma_names_of(parts, names, i + 1);
    } else {
        assert(names.take(i as int) =~= names);
    }
}

/// An import line of a plain import reads back as that import.
#[verifier::spinoff_prover]
#[verifier::rlimit(100)]
proof fn lemma_import_round_trip(imp: ImportV)
    requires
        plain_import(imp),
    ensures
        parse_import_spec(import_line(imp)) == Ok::<ImportV, Seq<char>>(imp),
        trim(import_line(imp)) == import_line(imp),
        import_line(imp)[0] == 'i',
        starts_with(import_line(imp), "import "@),
        no_newline(import_line(imp)),
        import_source(imp) == import_line(imp) + "\n"@,
{
    reveal_strlit("import { ");
    reveal_strlit("import ");
    reveal_strlit("import");
    reveal_strlit(" } from \"");
    reveal_strlit(" } from ");
    reveal_strlit("\"\n");
    reveal_strlit("\n");
    reveal_strlit(";");
    reveal_strlit("}");
    reveal_strlit("{");
    reveal_strlit("from");
    reveal_strlit(" ");
    reveal_strlit(", ");
    let names = imp.names;
    let m = imp.module;
    let k = names.len();
    let j = join_names(names, k);
    let line = import_line(imp);
    let qm = seq!['"'] + m + seq!['"'];
    // the joined names are name characters, commas and spaces
    assert(no_block_or_quote(j)) by {
        lemma_join_chars(names, k);
    }
    reveal_strlit("{ ");
    assert("import { "@ =~= "import"@ + " "@ + "{ "@);
    assert(" } from \""@ =~= " } from "@ + seq!['"']);
    assert(line =~= "import"@ + (" "@ + ("{ "@ + j + " } from "@ + qm)));
    assert(line.last() == '"');
    lemma_trim_id(line);
    lemma_not_suffix(line, ";"@);
    assert(trim_end_matches(line, ";"@) == line);
    lemma_prefix("import"@, " "@ + ("{ "@ + j + " } from "@ + qm));
    let inner = "{ "@ + j + " } from "@ + qm;
    assert(inner[0] == '{' && inner.last() == '"');
    lemma_trim_pad(" "@, inner, Seq::empty());
    assert(" "@ + inner + Seq::<char>::empty() =~= " "@ + inner);
    // split at the closing brace
    let np = "{ "@ + j + " "@;
    reveal_strlit(" from ");
    assert(" } from "@ =~= " "@ + "}"@ + " from "@);
    assert(inner =~= np + "}"@ + (" from "@ + qm));
    assert forall|i: int| 0 <= i < np.len() implies np[i] != "}"@[0] by {
        if 2 <= i < j.len() + 2 {
            assert(np[i] == j[i - 2]);
        }
    }
    lemma_find_first(np, "}"@, " from "@ + qm, 0);
    assert(inner.take(np.len() as int) =~= np);
    assert(inner.skip(np.len() as int + 1) =~= " from "@ + qm);
    assert(np =~= "{"@ + (" "@ + j + " "@));
    lemma_prefix("{"@, " "@ + j + " "@);
    // the names
    lemma_names_split(names, k);
    let block = " "@ + j + " "@;
    let parts = split(block, ',');
    assert(name_chars(names[k - 1]));
    lemma_name_no_comma(names[k - 1]);
    if k == 1 {
        lemma_split_none(block, ',');
    } else {
        let x = " "@ + join_names(names, (k - 1) as nat);
        lemma_names_split(names, (k - 1) as nat);
        assert(block =~= x + seq![','] + (" "@ + names[k - 1] + " "@));
        lemma_split_concat(x, ',', " "@ + names[k - 1] + " "@);
        lemma_split_none(" "@ + names[k - 1] + " "@, ',');
    }
    assert(parts.len() == k);
    assert forall|i: int| 0 <= i < k implies trim(#[trigger] parts[i]) == names[i] by {
        assert(name_chars(names[i]));
        if i < k - 1 {
            assert(parts[i] == " "@ + names[i]);
            lemma_trim_pad(" "@, names[i], Seq::empty());
            assert(" "@ + names[i] + Seq::<char>::empty() =~= " "@ + names[i]);
        } else {
            assert(parts[i] == " "@ + names[i] + " "@);
            lemma_trim_pad(" "@, names[i], " "@);
        }
    }
    lemma_names_of(parts, names, 0);
    assert(names.take(0) =~= Seq::<Seq<char>>::empty());
    // the module
    assert(" from "@ + qm =~= " "@ + ("from"@ + " "@ + qm) + Seq::<char>::empty());
    lemma_trim_pad(" "@, "from"@ + " "@ + qm, Seq::empty());
    lemma_prefix("from"@, " "@ + qm);
    assert("from"@ + " "@ + qm =~= "from"@ + (" "@ + qm));
    lemma_quoted_text(m, " "@);
    lemma_escape_plain(m);
    assert(quoted(m) == qm);
    assert(trim(" "@ + qm) == qm) by {
        lemma_trim_pad(" "@, qm, Seq::empty());
        assert(" "@ + qm + Seq::<char>::empty() =~= " "@ + qm);
    }
    lemma_unquote(m);
    assert(no_newline(line)) by {
        assert forall|i: int| 0 <= i < line.len() implies line[i] != '\n' by {
            if 9 <= i < 9 + j.len() {
                assert(line[i] == j[i - 9]);
            } else if 18 + j.len() <= i < 18 + j.len() + m.len() {
                assert(line[i] == m[i - 18 - j.len()]);
            }
        }
    }
    assert(import_source(imp) =~= line + "\n"@);
    assert(line =~= "import "@ + ("{ "@ + j + " } from "@ + qm));
    lemma_prefix("import "@, "{ "@ + j + " } from "@ + qm);
}

/// Text without braces, quotes or newlines.
pub open spec fn no_block_or_quote(t: Seq<char>) -> bool {
    forall|i: int|
        0 <= i < t.len() ==> t[i] != '{' && t[i] != '}' && t[i] != '"' && t[i] != '\n'
}

proof fn lemma_join_chars(names: Seq<Seq<char>>, k: nat)
    requires
        k <= names.len(),
        forall|j: int| 0 <= j < names.len() ==> name_chars(#[trigger] names[j]),
    ensures
        no_block_or_quote(join_names(names, k)),
    decreases k,
{
    reveal_strlit(", ");
    if k > 1 {
        lemma_join_chars(names, (k - 1) as nat);
        let x = join_names(names, (k - 1) as nat);
        let n = names[k - 1];
        assert(name_chars(n));
        assert forall|i: int| 0 <= i < (x + ", "@ + n).len() implies (x + ", "@ + n)[i] != '{'
            && (x + ", "@ + n)[i] != '}' && (x + ", "@ + n)[i] != '"' && (x + ", "@ + n)[i]
            != '\n' by {
            if i >= x.len() + 2 {
                assert((x + ", "@ + n)[i] == n[i - x.len() - 2]);
                assert(is_name_char(n[i - x.len() - 2]));
            } else if i < x.len() {
                assert((x + ", "@ + n)[i] == x[i]);
            }
        }
    } else if k == 1 {
        assert(name_chars(names[0]));
        assert forall|i: int| 0 <= i < names[0].len() implies names[0][i] != '{' && names[0][i]
            != '}' && names[0][i] != '"' && names[0][i] != '\n' by {
            assert(is_name_char(names[0][i]));
        }
    }
}

/// The import lines of the first `k` imports, without newlines.
pub open spec fn import_lines(v: Seq<ImportV>, k: nat) -> Seq<Seq<char>>
    decreases k,
{
    if k == 0 || k > v.len() {
        Seq::empty()
    } else {
        import_lines(v, (k - 1) as nat).push(import_line(v[k - 1]))
    }
}

pub open spec fn all_plain_imports(v: Seq<ImportV>) -> bool {
    forall|i: int| 0 <= i < v.len() ==> plain_import(#[trigger] v[i])
}

proof fn lemma_import_lines(v: Seq<ImportV>, k: nat)
    requires
        all_plain_imports(v),
        k <= v.len(),
    ensures
        imports_source(v, k) == join_lines(import_lines(v, k)),
        import_lines(v, k).len() == k,
        forall|j: int| 0 <= j < k ==> (#[trigger] import_lines(v, k)[j]) == import_line(v[j]),
        forall|j: int| 0 <= j < k ==> no_newline(#[trigger] import_lines(v, k)[j]),
    decreases k,
{
    if k > 0 {
        lemma_import_lines(v, (k - 1) as nat);
        assert(plain_import(v[k - 1]));
        lemma_import_round_trip(v[k - 1]);
        lemma_join_append(import_lines(v, (k - 1) as nat), seq![import_line(v[k - 1])]);
        lemma_join_one(import_line(v[k - 1]));
        assert(import_lines(v, k) =~= import_lines(v, (k - 1) as nat) + seq![
            import_line(v[k - 1]),
        ]);
        assert forall|j: int| 0 <= j < k implies no_newline(#[trigger] import_lines(v, k)[j]) by {
            assert(plain_import(v[j]));
            lemma_import_round_trip(v[j]);
        }
    } else {
        assert(join_lines(Seq::<Seq<char>>::empty()) == Seq::<char>::empty());
    }
}

proof fn lemma_scan_imports(lines: Seq<Seq<char>>, v: Seq<ImportV>, k: nat)
    requires
        all_plain_imports(v),
        k <= v.len(),
        v.len() <= lines.len(),
        forall|j: int| 0 <= j < v.len() ==> lines[j] == import_line(#[trigger] v[j]),
    ensures
        scan_spec(lines, 0, ScanMode::Top, no_function(), Seq::empty(), Seq::empty())
            == scan_spec(lines, k as int, ScanMode::Top, no_function(), v.take(k as int), Seq::empty()),
    decreases k,
{
    reveal_strlit("//");
    if k > 0 {
        lemma_scan_imports(lines, v, (k - 1) as nat);
        let imp = v[k - 1];
        assert(plain_import(imp));
        lemma_import_round_trip(imp);
        assert(lines[k - 1] == import_line(imp));
        lemma_not_prefix(import_line(imp), "//"@, 0);
        assert(v.take(k - 1).push(imp) =~= v.take(k as int));
    } else {
        assert(v.take(0) =~= Seq::<ImportV>::empty());
    }
}

/// Formatting a program and parsing the text gives the program back, up to
/// line tags, when its imports and functions are plain: imports of plain
/// names from a quote-free module, and functions with a plain name and
/// annotation whose body lines are plain statements, possibly awaited:
/// leaf statements, and `if`, `while` and `for` over one-line blocks of
/// possibly awaited leaf statements.
pub proof fn lemma_format_parse_round_trip(p: ProgramV)
    requires
        p.functions.len() > 0,
        all_plain_imports(p.imports),
        all_plain(p.functions),
    ensures
        parse_program_spec(format_spec(p)) matches Ok(q) && same_but_lines(p, q),
{
    let v = p.imports;
    if v.len() == 0 {
        lemma_round_trip_no_imports(p);
    } else {
        let fs = p.functions;
        let n = fs.len() as nat;
        let m = v.len() as nat;
        lemma_import_lines(v, m);
        lemma_all_lines(fs, n);
        let il = import_lines(v, m);
        let all = all_lines(fs, n);
        let blank = seq![Seq::<char>::empty()];
        lemma_join_one(Seq::empty());
        assert(Seq::<char>::empty() + "\n"@ =~= "\n"@);
        lemma_join_append(il, blank);
        lemma_join_append(il + blank, all);
        let ls = il + blank + all;
        assert(format_spec(p) == join_lines(ls));
        assert forall|j: int| 0 <= j < ls.len() implies no_newline(#[trigger] ls[j]) by {
            if j < m {
                assert(ls[j] == il[j]);
            } else if j > m {
                assert(ls[j] == all[j - m - 1]);
            }
        }
        lemma_lines_of_join(ls);
        let lines = ls.push(Seq::empty());
        assert forall|j: int| 0 <= j < v.len() implies lines[j] == import_line(#[trigger] v[j]) by {
            assert(lines[j] == il[j]);
        }
        lemma_scan_imports(lines, v, m);
        assert(v.take(m as int) =~= v);
        // the blank line after the imports
        assert(lines[m as int] == Seq::<char>::empty());
        assert(trim(lines[m as int]).len() == 0);
        let off = m + 1;
        assert(lines.subrange(off as int, off as int + all.len()) =~= all);
        lemma_scan_functions(lines, fs, n, off, v);
        lemma_relined_all(fs, n, off);
        let r = relined_all(fs, n, off);
        let q = ProgramV { imports: v, functions: r };
        let end = off as int + all.len();
        assert(trim(lines[end]).len() == 0);
        assert(scan_spec(lines, end + 1, ScanMode::Top, no_function(), v, r) == Ok::<
            ProgramV,
            (Seq<char>, nat),
        >(q));
        assert(scan_spec(lines, end, ScanMode::Top, no_function(), v, r) == scan_spec(
            lines,
            end + 1,
            ScanMode::Top,
            no_function(),
            v,
            r,
        ));
        assert(scan_spec(lines, m as int, ScanMode::Top, no_function(), v, Seq::empty())
            == scan_spec(lines, off as int, ScanMode::Top, no_function(), v, Seq::empty()));
        assert(split(format_spec(p), '\n') == lines);
        assert(parse_program_spec(format_spec(p)) == Ok::<ProgramV, (Seq<char>, nat)>(q));
        assert forall|i: int| 0 <= i < p.functions.len() implies {
            let f = #[trigger] p.functions[i];
            let g = q.functions[i];
            &&& f.name == g.name
            &&& f.return_type == g.return_type
            &&& f.is_async == g.is_async
            &&& f.body.len() == g.body.len()
            &&& forall|k: int| 0 <= k < f.body.len() ==> (#[trigger] f.body[k]).0 == g.body[k].0
        } by {
            assert(q.functions[i] == relined(fs[i], off + all_lines(fs, i as nat).len()));
        }
    }
}

/// Parsing a source, formatting the result and parsing again gives what the
/// first parse gave, up to line tags, for sources whose program has plain
/// imports and functions.
pub proof fn lemma_parse_format_parse(source: Seq<char>)
    requires
        parse_program_spec(source) matches Ok(p) && p.functions.len() > 0 && all_plain_imports(
            p.imports,
        ) && all_plain(p.functions),
    ensures
        parse_program_spec(source) matches Ok(p) && parse_program_spec(format_spec(p)) matches Ok(
            q,
        ) && same_but_lines(p, q),
{
    let p = parse_program_spec(source)->Ok_0;
    lemma_format_parse_round_trip(p);
}

} // verus!
