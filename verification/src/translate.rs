//! One statement of a terra script to one Rust statement (or an error).
use vstd::prelude::*;
use crate::ctx::{Ctx, CtxView, bound, unknown_variable, well_formed};
use crate::text::{
    texts, ident, uint, find, split, trim, trim_end, without_comment, escape, split_once,
    is_ident, is_uint, text_of, text_is, slice, join2, join3, join5, push_all, push_str,
    find_char, split_char, split_once_char, trim_text, trim_end_text, strip_comment,
    escape_text, contains_name, string_of, lemma_find_from, digits_value, i64_max, u64_max,
    uint_within,
};

verus! {

/// Rust code that keeps asking until it reads a whole number; a closed
/// stdin ends the program cleanly instead of looping forever.
pub const READER_CODE: &'static str = r#"{
        use std::io::BufRead;
        loop {
            let mut __buf = String::new();
            let __read = std::io::stdin().lock().read_line(&mut __buf).unwrap_or(0);
            if __read == 0 {
                eprintln!("terra: unexpected end of input");
                std::process::exit(1);
            }
            match __buf.trim().parse::<i64>() {
                Ok(__v) => break __v,
                Err(_) => {
                    use std::io::Write;
                    print!("(a whole number, please) ");
                    std::io::stdout().flush().ok();
                }
            }
        }
    }"#;

/// Rust code that clears the terminal.
pub const CLS_CODE: &'static str = r#"    print!("\x1b[2J\x1b[H");
    {
        use std::io::Write;
        std::io::stdout().flush().ok();
    }"#;

/// Rust code for a clock-seeded xor-shift number, up to the limit.
pub const RND_HEAD: &'static str = r#"{
            use std::time::{SystemTime, UNIX_EPOCH};
            let __n = SystemTime::now().duration_since(UNIX_EPOCH).map(|d| d.subsec_nanos() as u64).unwrap_or(0);
            ((__n ^ (__n << 13) ^ (__n >> 7)) % "#;

/// The end of the random-number expression, after the limit.
pub const RND_TAIL: &'static str = r#".max(1)) as i64
        }"#;

/// The views of a translation result.
pub open spec fn rv(r: Result<Vec<char>, Vec<char>>) -> Result<Seq<char>, Seq<char>> {
    match r {
        Ok(v) => Ok(v@),
        Err(e) => Err(e@),
    }
}

/// The views of a translation result given as strings.
pub open spec fn sv(r: Result<String, String>) -> Result<Seq<char>, Seq<char>> {
    match r {
        Ok(v) => Ok(v@),
        Err(e) => Err(e@),
    }
}

/// Words that cannot name a variable.
pub open spec fn reserved(w: Seq<char>) -> bool {
    w == "log"@ || w == "in"@ || w == "w"@ || w == "q"@ || w == "j"@ || w == "jeq"@
        || w == "jne"@ || w == "jlt"@ || w == "jgt"@ || w == "jle"@ || w == "jge"@
        || w == "ask"@ || w == "rnd"@ || w == "cls"@ || w == "len"@ || w == "up"@
        || w == "low"@ || w == "abs"@ || w == "min"@ || w == "max"@ || w == "now"@
        || w == "bell"@ || w == "chr"@ || w == "ord"@
}

pub open spec fn reserved_word(w: Seq<char>) -> Seq<char> {
    "'"@ + w + "' is a reserved word"@
}

/// The error for a number too large for the Rust type `ty` it is used as.
pub open spec fn out_of_range(lit: Seq<char>, ty: Seq<char>) -> Seq<char> {
    "number '"@ + lit + "' does not fit in "@ + ty
}

/// The Rust comparison of a conditional jump verb.
pub open spec fn cond_symbol(verb: Seq<char>) -> Option<Seq<char>> {
    if verb == "jeq"@ {
        Some("=="@)
    } else if verb == "jne"@ {
        Some("!="@)
    } else if verb == "jlt"@ {
        Some("<"@)
    } else if verb == "jgt"@ {
        Some(">"@)
    } else if verb == "jle"@ {
        Some("<="@)
    } else if verb == "jge"@ {
        Some(">="@)
    } else {
        None
    }
}

pub open spec fn jump_verb(verb: Seq<char>) -> bool {
    verb == "j"@ || cond_symbol(verb) is Some
}

pub open spec fn not_a_variable(name: Seq<char>) -> Seq<char> {
    "'"@ + name + "' is not a variable name"@
}

pub open spec fn unknown_label(name: Seq<char>) -> Seq<char> {
    "unknown label '"@ + name + "'"@
}

/// `in.name`.
pub open spec fn input(name: Seq<char>, c: CtxView) -> (Result<Seq<char>, Seq<char>>, CtxView) {
    if !ident(name) {
        (Err("in expects a variable name, got '"@ + name + "'"@), c)
    } else if reserved(name) {
        (Err(reserved_word(name)), c)
    } else {
        (Ok(bound(c, name, READER_CODE@).1), bound(c, name, READER_CODE@).0)
    }
}

/// `ask."prompt".name`.
pub open spec fn asked(operand: Seq<char>, c: CtxView) -> (Result<Seq<char>, Seq<char>>, CtxView) {
    if !(operand.len() > 0 && operand[0] == '"') {
        (Err("ask expects a quoted prompt, got '{operand}'"@), c)
    } else {
        let rest = operand.drop_first();
        let close = find(rest, '"');
        if close < 0 {
            (Err("unterminated prompt string"@), c)
        } else {
            let text = escape(rest.subrange(0, close));
            let after = trim(rest.subrange(close + 1, rest.len() as int));
            if !(after.len() > 0 && after[0] == '.') {
                (Err("ask expects '.<variable>' after the prompt"@), c)
            } else {
                let var = after.drop_first();
                if !ident(var) {
                    (Err(not_a_variable(var)), c)
                } else if reserved(var) {
                    (Err(reserved_word(var)), c)
                } else {
                    let (c2, read) = bound(c, var, READER_CODE@);
                    (Ok("    print!(\""@ + text + "\");\n"@ + read), c2)
                }
            }
        }
    }
}

/// `log."text"`, `log."text".name` and `log.name`.
pub open spec fn logged(operand: Seq<char>, c: CtxView) -> Result<Seq<char>, Seq<char>> {
    if operand.len() > 0 && operand[0] == '"' {
        let rest = operand.drop_first();
        let close = find(rest, '"');
        if close < 0 {
            Err("unterminated string"@)
        } else {
            let text = escape(rest.subrange(0, close));
            let after = trim(rest.subrange(close + 1, rest.len() as int));
            if after.len() == 0 {
                Ok("    println!(\""@ + text + "\");"@)
            } else if after[0] != '.' {
                Err("expected '.<variable>' after the string"@)
            } else {
                let var = after.drop_first();
                if !ident(var) {
                    Err(not_a_variable(var))
                } else if !c.declared.contains(var) {
                    Err(unknown_variable(var))
                } else {
                    Ok("    println!(\""@ + text + "{}\", "@ + var + ");"@)
                }
            }
        }
    } else if ident(operand) {
        if !c.declared.contains(operand) {
            Err(unknown_variable(operand))
        } else {
            Ok("    println!(\"{}\", "@ + operand + ");"@)
        }
    } else {
        Err("log expects a quoted string or a variable, got '"@ + operand + "'"@)
    }
}

/// `rnd.name.limit`.
pub open spec fn random(operand: Seq<char>, c: CtxView) -> (Result<Seq<char>, Seq<char>>, CtxView) {
    let parts = split(operand, '.');
    if parts.len() != 2 {
        (Err("rnd expects '<var>.<limit>', got '"@ + operand + "'"@), c)
    } else if !ident(parts[0]) {
        (Err(not_a_variable(parts[0])), c)
    } else if reserved(parts[0]) {
        (Err(reserved_word(parts[0])), c)
    } else if !uint(parts[1]) {
        (Err("bad limit '"@ + parts[1] + "' (whole number expected)"@), c)
    } else if digits_value(parts[1]) > u64_max() {
        (Err(out_of_range(parts[1], "u64"@)), c)
    } else {
        let expr = RND_HEAD@ + parts[1] + RND_TAIL@;
        (Ok(bound(c, parts[0], expr).1), bound(c, parts[0], expr).0)
    }
}

/// `j.label` and `jeq.a.b.label` and its cousins: moves of the state machine.
pub open spec fn jumped(verb: Seq<char>, operand: Seq<char>, c: CtxView, labels: Seq<Seq<char>>) -> Result<Seq<char>, Seq<char>> {
    if verb == "j"@ {
        if !labels.contains(operand) {
            Err(unknown_label(operand))
        } else {
            Ok("    __pc = \""@ + operand + "\";\n    continue '__run;"@)
        }
    } else {
        let op = cond_symbol(verb)->0;
        let parts = split(operand, '.');
        if parts.len() != 3 {
            Err(verb + " expects '<var>.<value>.<label>', got '"@ + operand + "'"@)
        } else {
            let a = parts[0];
            let b = parts[1];
            let target = parts[2];
            if !ident(a) {
                Err(not_a_variable(a))
            } else if !c.declared.contains(a) {
                Err(unknown_variable(a))
            } else if !uint(b) && !ident(b) {
                Err("bad comparison operand '"@ + b + "' (number or variable expected)"@)
            } else if uint(b) && digits_value(b) > i64_max() {
                Err(out_of_range(b, "i64"@))
            } else if !uint(b) && !c.declared.contains(b) {
                Err(unknown_variable(b))
            } else if !labels.contains(target) {
                Err(unknown_label(target))
            } else {
                Ok("    if "@ + a + " "@ + op + " "@ + b + " {\n        __pc = \""@ + target
                    + "\";\n        continue '__run;\n    }"@)
            }
        }
    }
}

pub open spec fn arith_sign(c: char) -> bool {
    c == '+' || c == '-' || c == '*' || c == '/' || c == '%'
}

/// `name.+N`, `name.-var` and the rest: modify in place.  `name.-N` on a
/// fresh variable declares a negative literal instead.
pub open spec fn modified(target: Seq<char>, operand: Seq<char>, c: CtxView) -> (Result<Seq<char>, Seq<char>>, CtxView) {
    let rest = operand.drop_first();
    let sign = operand[0];
    if !uint(rest) && !ident(rest) {
        (
            Err("bad arithmetic operand '"@ + operand
                + "' (expected +N/-N/*N//N/%N or +var)"@),
            c,
        )
    } else if (sign == '/' || sign == '%') && uint(rest) && digits_value(rest) == 0 {
        (Err("division by zero ("@ + seq![sign] + rest + ")"@), c)
    } else if sign == '-' && uint(rest) && !c.declared.contains(target) {
        if digits_value(rest) > i64_max() + 1 {
            (Err(out_of_range("-"@ + rest, "i64"@)), c)
        } else {
            (Ok(bound(c, target, "-"@ + rest).1), bound(c, target, "-"@ + rest).0)
        }
    } else if uint(rest) && digits_value(rest) > i64_max() {
        (Err(out_of_range(rest, "i64"@)), c)
    } else if !uint(rest) && !c.declared.contains(rest) {
        (Err(unknown_variable(rest)), c)
    } else if !c.declared.contains(target) {
        (Err(unknown_variable(target)), c)
    } else {
        (Ok("    "@ + target + " = "@ + target + " "@ + seq![sign] + " "@ + rest + ";"@), c)
    }
}

/// `name.value`: assignment, copy, or in-place arithmetic.
pub open spec fn assigned(target: Seq<char>, operand: Seq<char>, c: CtxView) -> (Result<Seq<char>, Seq<char>>, CtxView) {
    if !ident(target) {
        (Err("unknown command '"@ + target + "'"@), c)
    } else if reserved(target) {
        (Err(reserved_word(target)), c)
    } else if operand.len() == 0 {
        (Err("missing operand for '"@ + target + "'"@), c)
    } else if uint(operand) {
        if digits_value(operand) > i64_max() {
            (Err(out_of_range(operand, "i64"@)), c)
        } else {
            (Ok(bound(c, target, operand).1), bound(c, target, operand).0)
        }
    } else if arith_sign(operand[0]) {
        modified(target, operand, c)
    } else if ident(operand) {
        if !c.declared.contains(operand) {
            (Err(unknown_variable(operand)), c)
        } else {
            (Ok(bound(c, target, operand).1), bound(c, target, operand).0)
        }
    } else {
        (
            Err("unknown operand '"@ + operand
                + "' (integer, +N/-N/*N//N/-N or variable expected)"@),
            c,
        )
    }
}

/// A statement `verb.operand`.
pub open spec fn statement(verb: Seq<char>, operand: Seq<char>, c: CtxView, labels: Seq<Seq<char>>) -> (Result<Seq<char>, Seq<char>>, CtxView) {
    if verb == "log"@ {
        (logged(operand, c), c)
    } else if verb == "in"@ {
        input(operand, c)
    } else if verb == "ask"@ {
        asked(operand, c)
    } else if verb == "rnd"@ {
        random(operand, c)
    } else if verb == "cls"@ {
        (if operand.len() > 0 { Err("cls takes no operand"@) } else { Ok(CLS_CODE@) }, c)
    } else if verb == "w"@ {
        (
            if !uint(operand) {
                Err("w expects milliseconds, got '"@ + operand + "'"@)
            } else if digits_value(operand) > u64_max() {
                Err(out_of_range(operand, "u64"@))
            } else {
                Ok("    std::thread::sleep(std::time::Duration::from_millis("@ + operand + "));"@)
            },
            c,
        )
    } else if verb == "q"@ {
        (
            if operand.len() > 0 {
                Err("q takes no operand"@)
            } else if c.machine {
                Ok("    break '__run;"@)
            } else {
                Ok("    return;"@)
            },
            c,
        )
    } else if jump_verb(verb) {
        (jumped(verb, operand, c, labels), c)
    } else {
        assigned(verb, operand, c)
    }
}

/// The line of a raw statement that is translated: trimmed, with its
/// comment cut.
pub open spec fn code_of(raw: Seq<char>) -> Seq<char> {
    trim_end(without_comment(trim(raw)))
}

/// A raw statement translated against the state `c` and the defined
/// labels: the Rust statement (empty for a blank or comment line) or the
/// error, and the state afterwards.
pub open spec fn translated(raw: Seq<char>, c: CtxView, labels: Seq<Seq<char>>) -> (Result<Seq<char>, Seq<char>>, CtxView) {
    let line = code_of(raw);
    if line.len() == 0 || line[0] == '#' {
        (Ok(seq![]), c)
    } else {
        match split_once(line, '.') {
            None => (Err("expected '<verb>.<operand>', got '"@ + line + "'"@), c),
            Some((verb, operand)) => statement(verb, operand, c, labels),
        }
    }
}

// ---------------------------------------------------------------- exec

/// The Rust expression that reads an integer from stdin.
pub fn read_int_expr() -> (r: &'static str)
    ensures
        r@ == READER_CODE@,
{
    READER_CODE
}

/// `in.name`: read an integer into `name`.
pub fn translate_in(name: &Vec<char>, ctx: &mut Ctx) -> (r: Result<Vec<char>, Vec<char>>)
    ensures
        (rv(r), final(ctx)@) == input(name@, old(ctx)@),
{
    if !is_ident(name) {
        return Err(join3("in expects a variable name, got '", name, "'"));
    }
    if is_reserved(name) {
        return Err(join3("'", name, "' is a reserved word"));
    }
    let reader = text_of(read_int_expr());
    Ok(ctx.bind(name, &reader))
}

/// `ask."prompt".x`: print the prompt without a newline, then read an
/// integer into x.
pub fn translate_ask(operand: &Vec<char>, ctx: &mut Ctx) -> (r: Result<Vec<char>, Vec<char>>)
    ensures
        (rv(r), final(ctx)@) == asked(operand@, old(ctx)@),
{
    if !(operand.len() > 0 && operand[0] == '"') {
        return Err(text_of("ask expects a quoted prompt, got '{operand}'"));
    }
    let rest = slice(operand, 1, operand.len());
    assert(rest@ =~= operand@.drop_first());
    proof {
        lemma_find_from(rest@, '"', 0);
    }
    let close = match find_char(&rest, '"', 0) {
        Some(k) => k,
        None => {
            return Err(text_of("unterminated prompt string"));
        },
    };
    let inner = slice(&rest, 0, close);
    let text = escape_text(&inner);
    let tail = slice(&rest, close + 1, rest.len());
    let after = trim_text(&tail);
    if !(after.len() > 0 && after[0] == '.') {
        return Err(text_of("ask expects '.<variable>' after the prompt"));
    }
    let var = slice(&after, 1, after.len());
    assert(var@ =~= after@.drop_first());
    if !is_ident(&var) {
        return Err(join3("'", &var, "' is not a variable name"));
    }
    if is_reserved(&var) {
        return Err(join3("'", &var, "' is a reserved word"));
    }
    let reader = text_of(read_int_expr());
    let read = ctx.bind(&var, &reader);
    let mut out = join3("    print!(\"", &text, "\");\n");
    push_all(&mut out, &read);
    Ok(out)
}

/// `log."text"`, `log."text".x` or `log.x`: print a line.
pub fn translate_log(operand: &Vec<char>, ctx: &Ctx) -> (r: Result<Vec<char>, Vec<char>>)
    ensures
        rv(r) == logged(operand@, ctx@),
{
    if operand.len() > 0 && operand[0] == '"' {
        // log."text" / log."text".x
        let rest = slice(operand, 1, operand.len());
        assert(rest@ =~= operand@.drop_first());
        proof {
            lemma_find_from(rest@, '"', 0);
        }
        let close = match find_char(&rest, '"', 0) {
            Some(k) => k,
            None => {
                return Err(text_of("unterminated string"));
            },
        };
        let inner = slice(&rest, 0, close);
        let text = escape_text(&inner);
        let tail = slice(&rest, close + 1, rest.len());
        let after = trim_text(&tail);
        if after.len() == 0 {
            return Ok(join3("    println!(\"", &text, "\");"));
        }
        if after[0] != '.' {
            return Err(text_of("expected '.<variable>' after the string"));
        }
        let var = slice(&after, 1, after.len());
        assert(var@ =~= after@.drop_first());
        if !is_ident(&var) {
            return Err(join3("'", &var, "' is not a variable name"));
        }
        ctx.require_declared(&var)?;
        Ok(join5("    println!(\"", &text, "{}\", ", &var, ");"))
    } else if is_ident(operand) {
        ctx.require_declared(operand)?;
        Ok(join3("    println!(\"{}\", ", operand, ");"))
    } else {
        Err(join3("log expects a quoted string or a variable, got '", operand, "'"))
    }
}

/// The Rust comparison of a conditional jump verb.
pub fn cond_op(verb: &Vec<char>) -> (r: Option<&'static str>)
    ensures
        match r {
            Some(s) => cond_symbol(verb@) == Some(s@),
            None => cond_symbol(verb@) is None,
        },
{
    if text_is(verb, "jeq") {
        Some("==")
    } else if text_is(verb, "jne") {
        Some("!=")
    } else if text_is(verb, "jlt") {
        Some("<")
    } else if text_is(verb, "jgt") {
        Some(">")
    } else if text_is(verb, "jle") {
        Some("<=")
    } else if text_is(verb, "jge") {
        Some(">=")
    } else {
        None
    }
}

/// Whether `verb` moves the state machine.
pub fn is_jump_verb(verb: &Vec<char>) -> (b: bool)
    ensures
        b == jump_verb(verb@),
{
    text_is(verb, "j") || cond_op(verb).is_some()
}

/// `rnd.x.50`: x becomes a random whole number in 0..50, seeded from the
/// clock nanos with an xor-shift.
pub fn translate_rnd(operand: &Vec<char>, ctx: &mut Ctx) -> (r: Result<Vec<char>, Vec<char>>)
    ensures
        (rv(r), final(ctx)@) == random(operand@, old(ctx)@),
{
    let parts = split_char(operand, '.');
    assert(parts@.len() == texts(parts@).len());
    if parts.len() != 2 {
        return Err(join3("rnd expects '<var>.<limit>', got '", operand, "'"));
    }
    let var = &parts[0];
    let limit = &parts[1];
    assert(texts(parts@)[0] == var@ && texts(parts@)[1] == limit@);
    if !is_ident(var) {
        return Err(join3("'", var, "' is not a variable name"));
    }
    if is_reserved(var) {
        return Err(join3("'", var, "' is a reserved word"));
    }
    if !is_uint(limit) {
        return Err(join3("bad limit '", limit, "' (whole number expected)"));
    }
    if !uint_within(limit, 18446744073709551615u64) {
        return Err(range_error(limit, "u64"));
    }
    let expr = join3(RND_HEAD, limit, RND_TAIL);
    Ok(ctx.bind(var, &expr))
}

/// `j.label` / `jeq.a.b.label` and its cousins: moves of the state machine.
pub fn translate_jump(
    verb: &Vec<char>,
    operand: &Vec<char>,
    ctx: &Ctx,
    labels: &Vec<Vec<char>>,
) -> (r: Result<Vec<char>, Vec<char>>)
    requires
        jump_verb(verb@),
    ensures
        rv(r) == jumped(verb@, operand@, ctx@, texts(labels@)),
{
    if text_is(verb, "j") {
        if !contains_name(labels, operand) {
            return Err(join3("unknown label '", operand, "'"));
        }
        return Ok(join3("    __pc = \"", operand, "\";\n    continue '__run;"));
    }
    let op = match cond_op(verb) {
        Some(o) => o,
        None => {
            return Err(Vec::new());
        },
    };
    let parts = split_char(operand, '.');
    assert(parts@.len() == texts(parts@).len());
    if parts.len() != 3 {
        let mut m: Vec<char> = Vec::new();
        push_all(&mut m, verb);
        push_str(&mut m, " expects '<var>.<value>.<label>', got '");
        push_all(&mut m, operand);
        push_str(&mut m, "'");
        return Err(m);
    }
    let a = &parts[0];
    let b = &parts[1];
    let target = &parts[2];
    assert(texts(parts@)[0] == a@ && texts(parts@)[1] == b@ && texts(parts@)[2] == target@);
    if !is_ident(a) {
        return Err(join3("'", a, "' is not a variable name"));
    }
    ctx.require_declared(a)?;
    if is_uint(b) {
    } else if is_ident(b) {
        ctx.require_declared(b)?;
    } else {
        return Err(join3("bad comparison operand '", b, "' (number or variable expected)"));
    }
    if is_uint(b) && !uint_within(b, 9223372036854775807u64) {
        return Err(range_error(b, "i64"));
    }
    if !contains_name(labels, target) {
        return Err(join3("unknown label '", target, "'"));
    }
    let mut out = join3("    if ", a, " ");
    push_str(&mut out, op);
    push_str(&mut out, " ");
    push_all(&mut out, b);
    push_str(&mut out, " {\n        __pc = \"");
    push_all(&mut out, target);
    push_str(&mut out, "\";\n        continue '__run;\n    }");
    Ok(out)
}

/// `name.value` statements: assignment, copy, or in-place arithmetic.
fn translate_assign(target: &Vec<char>, operand: &Vec<char>, ctx: &mut Ctx) -> (r: Result<Vec<char>, Vec<char>>)
    ensures
        (rv(r), final(ctx)@) == assigned(target@, operand@, old(ctx)@),
{
    if !is_ident(target) {
        return Err(join3("unknown command '", target, "'"));
    }
    if is_reserved(target) {
        return Err(join3("'", target, "' is a reserved word"));
    }
    if operand.len() == 0 {
        return Err(join3("missing operand for '", target, "'"));
    }
    if is_uint(operand) {
        if !uint_within(operand, 9223372036854775807u64) {
            return Err(range_error(operand, "i64"));
        }
        return Ok(ctx.bind(target, operand));
    }
    let sign = operand[0];
    if sign == '+' || sign == '-' || sign == '*' || sign == '/' || sign == '%' {
        // x.+5, x.-2, x.+score, ... modify in place; the part after
        // the sign may be a literal or another variable.
        // x.-N on a fresh variable declares a negative literal instead
        let rest = slice(operand, 1, operand.len());
        assert(rest@ =~= operand@.drop_first());
        let rest_uint = is_uint(&rest);
        if !rest_uint && !is_ident(&rest) {
            return Err(join3(
                "bad arithmetic operand '",
                operand,
                "' (expected +N/-N/*N//N/%N or +var)",
            ));
        }
        let op = slice(operand, 0, 1);
        assert(op@ =~= seq![sign]);
        if (sign == '/' || sign == '%') && uint_within(&rest, 0) {
            let mut m = join2("division by zero (", &op);
            push_all(&mut m, &rest);
            push_str(&mut m, ")");
            return Err(m);
        }
        if sign == '-' && rest_uint && !ctx.is_declared(target) {
            let neg = join2("-", &rest);
            if !uint_within(&rest, 9223372036854775808u64) {
                return Err(range_error(&neg, "i64"));
            }
            return Ok(ctx.bind(target, &neg));
        }
        if rest_uint && !uint_within(&rest, 9223372036854775807u64) {
            return Err(range_error(&rest, "i64"));
        }
        if !rest_uint {
            ctx.require_declared(&rest)?;
        }
        ctx.require_declared(target)?;
        let mut out = join5("    ", target, " = ", target, " ");
        push_all(&mut out, &op);
        push_str(&mut out, " ");
        push_all(&mut out, &rest);
        push_str(&mut out, ";");
        return Ok(out);
    }
    if is_ident(operand) {
        ctx.require_declared(operand)?;
        return Ok(ctx.bind(target, operand));
    }
    Err(join3(
        "unknown operand '",
        operand,
        "' (integer, +N/-N/*N//N/-N or variable expected)",
    ))
}

/// The error for a number too large for the Rust type `ty`.
fn range_error(lit: &Vec<char>, ty: &str) -> (r: Vec<char>)
    ensures
        r@ == out_of_range(lit@, ty@),
{
    let mut m = join3("number '", lit, "' does not fit in ");
    push_str(&mut m, ty);
    m
}

/// Whether `w` is a reserved word.
pub fn is_reserved(w: &Vec<char>) -> (b: bool)
    ensures
        b == reserved(w@),
{
    text_is(w, "log") || text_is(w, "in") || text_is(w, "w") || text_is(w, "q") || text_is(w, "j")
        || text_is(w, "jeq") || text_is(w, "jne") || text_is(w, "jlt") || text_is(w, "jgt")
        || text_is(w, "jle") || text_is(w, "jge") || text_is(w, "ask") || text_is(w, "rnd")
        || text_is(w, "cls") || text_is(w, "len") || text_is(w, "up") || text_is(w, "low")
        || text_is(w, "abs") || text_is(w, "min") || text_is(w, "max") || text_is(w, "now")
        || text_is(w, "bell") || text_is(w, "chr") || text_is(w, "ord")
}

/// One raw statement (as characters) to Rust, against the state and the
/// defined labels.
pub fn translate_text(raw: &Vec<char>, ctx: &mut Ctx, labels: &Vec<Vec<char>>) -> (r: Result<Vec<char>, Vec<char>>)
    ensures
        (rv(r), final(ctx)@) == translated(raw@, old(ctx)@, texts(labels@)),
{
    let trimmed = trim_text(raw);
    let cut = strip_comment(&trimmed);
    let line = trim_end_text(&cut);
    if line.len() == 0 || line[0] == '#' {
        return Ok(Vec::new());
    }
    let (verb, operand) = match split_once_char(&line, '.') {
        Some(p) => p,
        None => {
            return Err(join3("expected '<verb>.<operand>', got '", &line, "'"));
        },
    };
    if text_is(&verb, "log") {
        translate_log(&operand, ctx)
    } else if text_is(&verb, "in") {
        translate_in(&operand, ctx)
    } else if text_is(&verb, "ask") {
        translate_ask(&operand, ctx)
    } else if text_is(&verb, "rnd") {
        translate_rnd(&operand, ctx)
    } else if text_is(&verb, "cls") {
        if operand.len() != 0 {
            return Err(text_of("cls takes no operand"));
        }
        Ok(text_of(CLS_CODE))
    } else if text_is(&verb, "w") {
        if !is_uint(&operand) {
            return Err(join3("w expects milliseconds, got '", &operand, "'"));
        }
        if !uint_within(&operand, 18446744073709551615u64) {
            return Err(range_error(&operand, "u64"));
        }
        Ok(join3("    std::thread::sleep(std::time::Duration::from_millis(", &operand, "));"))
    } else if text_is(&verb, "q") {
        if operand.len() != 0 {
            return Err(text_of("q takes no operand"));
        }
        if ctx.is_machine() {
            Ok(text_of("    break '__run;"))
        } else {
            Ok(text_of("    return;"))
        }
    } else if is_jump_verb(&verb) {
        translate_jump(&verb, &operand, ctx, labels)
    } else {
        translate_assign(&verb, &operand, ctx)
    }
}

/// The characters of each of `names`.
pub fn names_of(names: &[String]) -> (r: Vec<Vec<char>>)
    ensures
        texts(r@) == names@.map_values(|s: String| s@),
{
    let mut r: Vec<Vec<char>> = Vec::new();
    let mut i: usize = 0;
    while i < names.len()
        invariant
            i <= names.len(),
            texts(r@) == names@.take(i as int).map_values(|s: String| s@),
        decreases names.len() - i,
    {
        let ghost before = texts(r@);
        let s = &names[i];
        let t = text_of(s.as_str());
        assert(t@ == names@[i as int]@);
        r.push(t);
        assert(texts(r@) =~= before.push(t@));
        i = i + 1;
        assert(names@.take(i as int).map_values(|s: String| s@) =~= names@.take(i - 1).map_values(
            |s: String| s@,
        ).push(t@));
    }
    assert(names@.take(names.len() as int) =~= names@);
    r
}

/// One line of a terra script to a Rust statement, or the reason it is
/// rejected.  A blank or comment line gives an empty statement; a rejected
/// line leaves the state as it was.
pub fn translate(raw: &str, ctx: &mut Ctx, labels: &[String]) -> (r: Result<String, String>)
    ensures
        (sv(r), final(ctx)@) == translated(raw@, old(ctx)@, labels@.map_values(|s: String| s@)),
        well_formed(final(ctx)@),
{
    let line = text_of(raw);
    let names = names_of(labels);
    let r = translate_text(&line, ctx, &names);
    proof {
        use_type_invariant(&*ctx);
    }
    match r {
        Ok(code) => Ok(string_of(&code)),
        Err(msg) => Err(string_of(&msg)),
    }
}

} // verus!
