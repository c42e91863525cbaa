//! What each kind of statement gives, stated over the text of the script,
//! and how the arm of a machine segment ends.
use vstd::prelude::*;
use crate::ctx::{CtxView, bound, let_line, int_literal};
use crate::text::{
    ident, uint, is_digit, escape, find, find_from, split, digits_value, u64_max, i64_max,
    lemma_find_from, is_space, is_ident_char, trim, trim_start, trim_end, comment_at,
    without_comment,
};
use crate::translate::{
    translated, statement, reserved, cond_symbol, out_of_range, READER_CODE, RND_HEAD, RND_TAIL,
    CLS_CODE,
};
use crate::compile::{arm, exits, indented_block};
use crate::exit_laws::{leaves_arm, lemma_brace_stays, lemma_jump_leaves, lemma_quit_leaves};
use crate::laws::lemma_find_at;

verus! {

/// The reader code is a block: it starts with an opening brace and ends
/// with a closing one.
pub proof fn lemma_reader_block()
    ensures
        READER_CODE@.len() > 0,
        READER_CODE@[0] == '{',
        READER_CODE@.last() == '}',
{
    reveal_strlit(r#"{
        use std::io::BufRead;
        loop {
            let mut __buf = String::new();
            let __read = std::io::stdin().lock().read_line(&mut __buf).unwrap_or(0);
            if __read == 0 {
                eprintln!("terra: unexpected end of input");
                std::process::exit(1);
            }
            match __buf.trim().parse::<i64>() {
                Ok(__v) => break __v,
                Err(_) => {
                    use std::io::Write;
                    print!("(a whole number, please) ");
                    std::io::stdout().flush().ok();
                }
            }
        }
    }"#);
}

/// The random-number code is a block: it starts with an opening brace and
/// ends with a closing one.
pub proof fn lemma_random_block()
    ensures
        RND_HEAD@.len() > 0,
        RND_HEAD@[0] == '{',
        RND_TAIL@.len() > 0,
        RND_TAIL@.last() == '}',
{
    reveal_strlit(r#"{
            use std::time::{SystemTime, UNIX_EPOCH};
            let __n = SystemTime::now().duration_since(UNIX_EPOCH).map(|d| d.subsec_nanos() as u64).unwrap_or(0);
            ((__n ^ (__n << 13) ^ (__n >> 7)) % "#);
    reveal_strlit(r#".max(1)) as i64
        }"#);
}

/// The screen-clearing code ends with a closing brace.
pub proof fn lemma_clear_block()
    ensures
        CLS_CODE@.len() > 0,
        CLS_CODE@.last() == '}',
{
    reveal_strlit(r#"    print!("\x1b[2J\x1b[H");
    {
        use std::io::Write;
        std::io::stdout().flush().ok();
    }"#);
}

// ---------------------------------------------------------------- parsing

proof fn lemma_no_hash(s: Seq<char>, i: nat, in_string: bool)
    requires
        i <= s.len(),
        forall|j: int| 0 <= j < s.len() ==> #[trigger] s[j] != '#',
    ensures
        comment_at(s, i, in_string) == s.len(),
    decreases s.len() - i,
{
    if i < s.len() {
        lemma_no_hash(s, i + 1, !in_string);
        lemma_no_hash(s, i + 1, in_string);
    }
}

/// Past a stretch without quotes or comment marks nothing changes in the
/// search for a comment.
proof fn lemma_skip(s: Seq<char>, i: nat, j: nat, in_string: bool)
    requires
        i <= j <= s.len(),
        forall|m: int| i <= m < j ==> #[trigger] s[m] != '#' && s[m] != '"',
    ensures
        comment_at(s, i, in_string) == comment_at(s, j, in_string),
    decreases j - i,
{
    if i < j {
        lemma_skip(s, i + 1, j, in_string);
    }
}

/// Inside a string only a quote matters.
proof fn lemma_skip_quoted(s: Seq<char>, i: nat, j: nat)
    requires
        i <= j <= s.len(),
        forall|m: int| i <= m < j ==> #[trigger] s[m] != '"',
    ensures
        comment_at(s, i, true) == comment_at(s, j, true),
    decreases j - i,
{
    if i < j {
        lemma_skip_quoted(s, i + 1, j);
    }
}

/// A name and a dot hold no quote and no comment mark.
proof fn lemma_name_dot(raw: Seq<char>, verb: Seq<char>)
    requires
        ident(verb),
        verb.len() < raw.len(),
        raw.subrange(0, verb.len() as int) == verb,
        raw[verb.len() as int] == '.',
    ensures
        forall|m: int| 0 <= m < verb.len() + 1 ==> #[trigger] raw[m] != '#' && raw[m] != '"',
{
    assert forall|m: int| 0 <= m < verb.len() + 1 implies #[trigger] raw[m] != '#' && raw[m] != '"' by {
        if m < verb.len() {
            assert(raw[m] == raw.subrange(0, verb.len() as int)[m]);
            if m > 0 {
                assert(is_ident_char(verb[m]));
            }
        }
    }
}

/// A line `verb.operand` whose verb is a name, which holds no comment, and
/// whose operand does not end in white space is that statement.
proof fn lemma_line(verb: Seq<char>, operand: Seq<char>, c: CtxView, labels: Seq<Seq<char>>)
    requires
        ident(verb),
        comment_at(verb + seq!['.'] + operand, 0, false) == verb.len() + 1 + operand.len(),
        operand.len() == 0 || !is_space(operand.last()),
    ensures
        translated(verb + seq!['.'] + operand, c, labels) == statement(verb, operand, c, labels),
{
    let raw = verb + seq!['.'] + operand;
    let k: int = verb.len() as int;
    assert(raw[0] == verb[0]);
    if operand.len() > 0 {
        assert(raw.last() == operand.last());
    } else {
        assert(raw.last() == '.');
    }
    assert(trim_start(raw) == raw);
    assert(trim(raw) == raw);
    assert(without_comment(raw) =~= raw);
    assert(trim_end(raw) == raw);
    assert forall|j: int| 0 <= j < k implies raw[j] != '.' by {
        assert(raw[j] == verb[j]);
        if j > 0 {
            assert(is_ident_char(verb[j]));
        }
    }
    lemma_find_at(raw, '.', 0, k as nat);
    assert(raw.subrange(0, k) =~= verb);
    assert(raw.subrange(k + 1, raw.len() as int) =~= operand);
}

// ---------------------------------------------------------------- reading

/// The statement that gives `x` the value of the expression `rhs`, which is
/// evaluated each time it runs: a declaration on the first mention in
/// linear mode, an assignment otherwise.
pub open spec fn value_statement(x: Seq<char>, rhs: Seq<char>, c: CtxView) -> Seq<char> {
    if c.declared.contains(x) || c.machine {
        "    "@ + x + " = "@ + rhs + ";"@
    } else {
        "    let mut "@ + x + ": i64 = "@ + rhs + ";"@
    }
}

/// The state after `x` is given a computed value: `x` is declared, and on
/// its first mention in machine mode it is declared with 0 above the machine.
pub open spec fn mentioned(x: Seq<char>, c: CtxView) -> CtxView {
    if c.declared.contains(x) {
        c
    } else if c.machine {
        CtxView {
            declared: c.declared.push(x),
            machine: true,
            hoisted: c.hoisted.push("    let mut "@ + x + ": i64 = 0;"@),
        }
    } else {
        CtxView { declared: c.declared.push(x), machine: false, hoisted: c.hoisted }
    }
}

/// Giving `x` a value that is not an integer literal.
pub proof fn lemma_bound_computed(c: CtxView, x: Seq<char>, rhs: Seq<char>)
    requires
        int_literal(rhs) is None,
    ensures
        bound(c, x, rhs) == (mentioned(x, c), value_statement(x, rhs, c)),
        value_statement(x, rhs, c).len() > 0,
{
    reveal_strlit("    let mut ");
    reveal_strlit(": i64 = ");
    reveal_strlit(": i64 = 0;");
    reveal_strlit("0");
    reveal_strlit(";");
    assert(let_line(x, "0"@) =~= "    let mut "@ + x + ": i64 = 0;"@);
    reveal_strlit("    ");
}

/// Giving `x` a value computed by a block.
pub proof fn lemma_bound_block(c: CtxView, x: Seq<char>, rhs: Seq<char>)
    requires
        rhs.len() > 0,
        rhs[0] == '{',
    ensures
        bound(c, x, rhs) == (mentioned(x, c), value_statement(x, rhs, c)),
        value_statement(x, rhs, c).len() > 0,
{
    assert(!is_digit(rhs[0]));
    assert(!uint(rhs));
    lemma_bound_computed(c, x, rhs);
}

/// The statement left in place when `x` is given the integer literal
/// `lit`: none on the first mention in machine mode, where the declaration
/// above the machine starts from the literal.
pub open spec fn literal_statement(x: Seq<char>, lit: Seq<char>, c: CtxView) -> Seq<char> {
    if c.declared.contains(x) {
        "    "@ + x + " = "@ + lit + ";"@
    } else if c.machine {
        seq![]
    } else {
        "    let mut "@ + x + ": i64 = "@ + lit + ";"@
    }
}

/// The state after `x` is given the integer literal `lit`.
pub open spec fn literal_mention(x: Seq<char>, lit: Seq<char>, c: CtxView) -> CtxView {
    if c.declared.contains(x) {
        c
    } else if c.machine {
        CtxView {
            declared: c.declared.push(x),
            machine: true,
            hoisted: c.hoisted.push("    let mut "@ + x + ": i64 = "@ + lit + ";"@),
        }
    } else {
        CtxView { declared: c.declared.push(x), machine: false, hoisted: c.hoisted }
    }
}

/// Giving `x` an integer literal.
pub proof fn lemma_bound_literal(c: CtxView, x: Seq<char>, lit: Seq<char>)
    requires
        int_literal(lit) is Some,
    ensures
        bound(c, x, lit) == (literal_mention(x, lit, c), literal_statement(x, lit, c)),
{
}

/// `in.x` reads a whole number from stdin into `x`, each time the statement
/// runs: in linear mode the first mention declares `x` with the value read,
/// later ones assign it; in machine mode `x` is declared with 0 above the
/// machine and the statement is the assignment of the value read.  The
/// code is never empty.
pub proof fn law_read_input(x: Seq<char>, c: CtxView, labels: Seq<Seq<char>>)
    requires
        ident(x),
        !reserved(x),
    ensures
        translated("in"@ + seq!['.'] + x, c, labels) == (
            Ok::<Seq<char>, Seq<char>>(value_statement(x, READER_CODE@, c)),
            mentioned(x, c),
        ),
        value_statement(x, READER_CODE@, c).len() > 0,
        c.machine ==> value_statement(x, READER_CODE@, c) == "    "@ + x + " = "@ + READER_CODE@ + ";"@,
{
    reveal_strlit("in");
    reveal_strlit("log");
    assert(ident("in"@));
    let raw = "in"@ + seq!['.'] + x;
    assert forall|j: int| 0 <= j < raw.len() implies #[trigger] raw[j] != '#' by {
        if 3 <= j {
            assert(raw[j] == x[j - 3]);
            if j > 3 {
                assert(is_ident_char(x[j - 3]));
            }
        }
    }
    lemma_no_hash(raw, 0, false);
    assert(x[x.len() - 1] == x.last());
    if x.len() > 1 {
        assert(is_ident_char(x[x.len() - 1]));
    }
    lemma_line("in"@, x, c, labels);
    lemma_reader_block();
    lemma_bound_block(c, x, READER_CODE@);
}

/// A line `verb."text"` followed by a tail without quotes or comment
/// marks holds no comment: the text is quoted.
proof fn lemma_quoted_comment(verb: Seq<char>, p: Seq<char>, tail: Seq<char>)
    requires
        ident(verb),
        forall|j: int| 0 <= j < p.len() ==> #[trigger] p[j] != '"',
        forall|j: int| 0 <= j < tail.len() ==> #[trigger] tail[j] != '#' && tail[j] != '"',
    ensures
        comment_at(verb + seq!['.', '"'] + p + seq!['"'] + tail, 0, false) == verb.len() + p.len() + 3
            + tail.len(),
{
    let raw = verb + seq!['.', '"'] + p + seq!['"'] + tail;
    let k: int = verb.len() as int;
    let n: int = p.len() as int;
    assert(raw.subrange(0, k) =~= verb);
    assert(raw[k] == '.');
    lemma_name_dot(raw, verb);
    lemma_skip(raw, 0, (k + 1) as nat, false);
    assert(raw[k + 1] == '"');
    assert forall|m: int| k + 2 <= m < k + 2 + n implies #[trigger] raw[m] != '"' by {
        assert(raw[m] == p[m - k - 2]);
    }
    lemma_skip_quoted(raw, (k + 2) as nat, (k + 2 + n) as nat);
    assert(raw[k + 2 + n] == '"');
    assert forall|m: int| k + 3 + n <= m < raw.len() implies #[trigger] raw[m] != '#' && raw[m] != '"' by {
        assert(raw[m] == tail[m - k - 3 - n]);
    }
    lemma_skip(raw, (k + 3 + n) as nat, raw.len(), false);
}

/// `ask."p".x` prints the prompt `p` (escaped for a Rust format string),
/// without a newline, and then reads a whole number into `x` just as `in.x`
/// does, each time the statement runs.  The prompt may hold any character
/// but a quote, a comment mark among them.
pub proof fn law_ask(p: Seq<char>, x: Seq<char>, c: CtxView, labels: Seq<Seq<char>>)
    requires
        forall|j: int| 0 <= j < p.len() ==> #[trigger] p[j] != '"',
        ident(x),
        !reserved(x),
    ensures
        translated("ask"@ + seq!['.', '"'] + p + seq!['"', '.'] + x, c, labels) == (
            Ok::<Seq<char>, Seq<char>>(
                "    print!(\""@ + escape(p) + "\");\n"@ + value_statement(x, READER_CODE@, c),
            ),
            mentioned(x, c),
        ),
        c.machine ==> value_statement(x, READER_CODE@, c) == "    "@ + x + " = "@ + READER_CODE@ + ";"@,
{
    reveal_strlit("ask");
    reveal_strlit("log");
    reveal_strlit("in");
    assert(ident("ask"@));
    let operand = seq!['"'] + p + seq!['"', '.'] + x;
    let raw = "ask"@ + seq!['.'] + operand;
    assert(raw =~= "ask"@ + seq!['.', '"'] + p + seq!['"', '.'] + x);
    let n: int = p.len() as int;
    lemma_word(x);
    lemma_quoted_comment("ask"@, p, seq!['.'] + x);
    assert(raw =~= "ask"@ + seq!['.', '"'] + p + seq!['"'] + (seq!['.'] + x));
    assert(operand.last() == x.last());
    assert(x[x.len() - 1] == x.last());
    if x.len() > 1 {
        assert(is_ident_char(x[x.len() - 1]));
    }
    lemma_line("ask"@, operand, c, labels);
    // the operand: the prompt up to the closing quote, then ".x"
    let rest = operand.drop_first();
    assert(rest =~= p + seq!['"', '.'] + x);
    lemma_find_at(rest, '"', 0, n as nat);
    assert(find(rest, '"') == n);
    assert(rest.subrange(0, n as int) =~= p);
    let tail = rest.subrange(n + 1, rest.len() as int);
    assert(tail =~= seq!['.'] + x);
    assert(tail.last() == x.last());
    assert(trim_start(tail) == tail);
    assert(trim(tail) == tail);
    assert(tail.drop_first() =~= x);
    lemma_reader_block();
    lemma_bound_block(c, x, READER_CODE@);
}

/// A name, a dot and a whole number split at that dot into the two.
proof fn lemma_split_name_number(x: Seq<char>, n: Seq<char>)
    requires
        ident(x),
        uint(n),
    ensures
        split(x + seq!['.'] + n, '.') == seq![x, n],
{
    let s = x + seq!['.'] + n;
    assert forall|j: int| 0 <= j < x.len() implies s[j] != '.' by {
        assert(s[j] == x[j]);
        if j > 0 {
            assert(is_ident_char(x[j]));
        }
    }
    lemma_find_at(s, '.', 0, x.len());
    assert(s.subrange(0, x.len() as int) =~= x);
    assert(s.subrange(x.len() + 1int, s.len() as int) =~= n);
    lemma_find_from(n, '.', 0);
    if find_from(n, '.', 0) >= 0 {
        assert(is_digit(n[find_from(n, '.', 0)]));
    }
    assert(split(n, '.') == seq![n]);
    assert(split(s, '.') =~= seq![x] + seq![n]);
}

/// `rnd.x.N` gives `x` a fresh random whole number below `N` each time the
/// statement runs, by the same rule as `in.x`: in machine mode an
/// assignment of the drawn number in place, with `x` declared with 0 above
/// the machine.  A limit beyond the `u64` range is refused.
pub proof fn law_random(x: Seq<char>, n: Seq<char>, c: CtxView, labels: Seq<Seq<char>>)
    requires
        ident(x),
        !reserved(x),
        uint(n),
    ensures
        translated("rnd"@ + seq!['.'] + x + seq!['.'] + n, c, labels) == (if digits_value(n) <= u64_max() {
            (
                Ok::<Seq<char>, Seq<char>>(value_statement(x, RND_HEAD@ + n + RND_TAIL@, c)),
                mentioned(x, c),
            )
        } else {
            (Err::<Seq<char>, Seq<char>>(out_of_range(n, "u64"@)), c)
        }),
        value_statement(x, RND_HEAD@ + n + RND_TAIL@, c).len() > 0,
        c.machine ==> value_statement(x, RND_HEAD@ + n + RND_TAIL@, c) == "    "@ + x + " = "@
            + RND_HEAD@ + n + RND_TAIL@ + ";"@,
{
    reveal_strlit("rnd");
    reveal_strlit("ask");
    reveal_strlit("log");
    reveal_strlit("in");
    assert(ident("rnd"@));
    let operand = x + seq!['.'] + n;
    let raw = "rnd"@ + seq!['.'] + operand;
    assert(raw =~= "rnd"@ + seq!['.'] + x + seq!['.'] + n);
    assert forall|j: int| 0 <= j < raw.len() implies #[trigger] raw[j] != '#' by {
        if 4 <= j < 4 + x.len() {
            assert(raw[j] == x[j - 4]);
            if j > 4 {
                assert(is_ident_char(x[j - 4]));
            }
        } else if j > 4 + x.len() {
            assert(raw[j] == n[j - 5 - x.len()]);
            assert(is_digit(n[j - 5 - x.len()]));
        }
    }
    lemma_no_hash(raw, 0, false);
    assert(operand.last() == n[n.len() - 1]);
    assert(is_digit(n[n.len() - 1]));
    lemma_line("rnd"@, operand, c, labels);
    lemma_split_name_number(x, n);
    lemma_random_block();
    let rhs = RND_HEAD@ + n + RND_TAIL@;
    assert(rhs[0] == RND_HEAD@[0]);
    lemma_bound_block(c, x, rhs);
}

// ---------------------------------------------------------------- output

/// `log."p"` prints the text `p` and a newline, escaped for a Rust format
/// string; the state is unchanged.
pub proof fn law_log_text(p: Seq<char>, c: CtxView, labels: Seq<Seq<char>>)
    requires
        forall|j: int| 0 <= j < p.len() ==> #[trigger] p[j] != '"',
    ensures
        translated("log"@ + seq!['.', '"'] + p + seq!['"'], c, labels) == (
            Ok::<Seq<char>, Seq<char>>("    println!(\""@ + escape(p) + "\");"@),
            c,
        ),
{
    reveal_strlit("log");
    assert(ident("log"@));
    let operand = seq!['"'] + p + seq!['"'];
    let raw = "log"@ + seq!['.'] + operand;
    let n: int = p.len() as int;
    lemma_quoted_comment("log"@, p, seq![]);
    assert(raw =~= "log"@ + seq!['.', '"'] + p + seq!['"'] + Seq::<char>::empty());
    assert(raw =~= "log"@ + seq!['.', '"'] + p + seq!['"']);
    assert(operand.last() == '"');
    lemma_line("log"@, operand, c, labels);
    let rest = operand.drop_first();
    assert(rest =~= p + seq!['"']);
    lemma_find_at(rest, '"', 0, n as nat);
    assert(rest.subrange(0, n) =~= p);
    assert(rest.subrange(n + 1, rest.len() as int).len() == 0);
}

/// `log."p".x` prints the text `p` followed by the value of the declared
/// variable `x`, and is rejected when `x` was never given a value; the
/// state is unchanged.
pub proof fn law_log_text_variable(p: Seq<char>, x: Seq<char>, c: CtxView, labels: Seq<Seq<char>>)
    requires
        forall|j: int| 0 <= j < p.len() ==> #[trigger] p[j] != '"',
        ident(x),
    ensures
        translated("log"@ + seq!['.', '"'] + p + seq!['"', '.'] + x, c, labels) == (if c.declared.contains(x) {
            (Ok::<Seq<char>, Seq<char>>("    println!(\""@ + escape(p) + "{}\", "@ + x + ");"@), c)
        } else {
            (Err::<Seq<char>, Seq<char>>("unknown variable '"@ + x + "'"@), c)
        }),
{
    reveal_strlit("log");
    assert(ident("log"@));
    let operand = seq!['"'] + p + seq!['"', '.'] + x;
    let raw = "log"@ + seq!['.'] + operand;
    let n: int = p.len() as int;
    lemma_word(x);
    lemma_quoted_comment("log"@, p, seq!['.'] + x);
    assert(raw =~= "log"@ + seq!['.', '"'] + p + seq!['"'] + (seq!['.'] + x));
    assert(raw =~= "log"@ + seq!['.', '"'] + p + seq!['"', '.'] + x);
    assert(operand.last() == x[x.len() - 1]);
    lemma_line("log"@, operand, c, labels);
    let rest = operand.drop_first();
    assert(rest =~= p + seq!['"', '.'] + x);
    lemma_find_at(rest, '"', 0, n as nat);
    assert(rest.subrange(0, n) =~= p);
    let tail = rest.subrange(n + 1, rest.len() as int);
    assert(tail =~= seq!['.'] + x);
    assert(tail.last() == x[x.len() - 1]);
    assert(trim_start(tail) == tail);
    assert(trim(tail) == tail);
    assert(tail.drop_first() =~= x);
}

/// `w.N` pauses for `N` milliseconds; a number beyond the `u64` range is
/// refused.  The state is unchanged.
pub proof fn law_wait(n: Seq<char>, c: CtxView, labels: Seq<Seq<char>>)
    requires
        uint(n),
    ensures
        translated("w"@ + seq!['.'] + n, c, labels) == (if digits_value(n) <= u64_max() {
            (
                Ok::<Seq<char>, Seq<char>>(
                    "    std::thread::sleep(std::time::Duration::from_millis("@ + n + "));"@,
                ),
                c,
            )
        } else {
            (Err::<Seq<char>, Seq<char>>("number '"@ + n + "' does not fit in u64"@), c)
        }),
{
    reveal_strlit("w");
    reveal_strlit("log");
    reveal_strlit("in");
    reveal_strlit("ask");
    reveal_strlit("rnd");
    reveal_strlit("cls");
    reveal_strlit("' does not fit in ");
    reveal_strlit("u64");
    reveal_strlit("' does not fit in u64");
    assert(ident("w"@));
    lemma_word(n);
    let raw = "w"@ + seq!['.'] + n;
    assert forall|j: int| 0 <= j < raw.len() implies #[trigger] raw[j] != '#' by {
        if j >= 2 {
            assert(raw[j] == n[j - 2]);
        }
    }
    lemma_no_hash(raw, 0, false);
    assert(n.last() == n[n.len() - 1]);
    lemma_line("w"@, n, c, labels);
    assert(out_of_range(n, "u64"@) =~= "number '"@ + n + "' does not fit in u64"@);
}

/// `cls.` clears the screen; the state is unchanged.
pub proof fn law_clear(c: CtxView, labels: Seq<Seq<char>>)
    ensures
        translated("cls"@ + seq!['.'], c, labels) == (Ok::<Seq<char>, Seq<char>>(CLS_CODE@), c),
{
    reveal_strlit("cls");
    reveal_strlit("log");
    reveal_strlit("in");
    reveal_strlit("ask");
    reveal_strlit("rnd");
    assert(ident("cls"@));
    let raw = "cls"@ + seq!['.'];
    assert(raw =~= "cls"@ + seq!['.'] + Seq::<char>::empty());
    lemma_no_hash(raw, 0, false);
    lemma_line("cls"@, seq![], c, labels);
}

// ---------------------------------------------------------------- jumps

/// A name or a whole number: no dot, quote, comment mark or white space.
proof fn lemma_word(s: Seq<char>)
    requires
        ident(s) || uint(s),
    ensures
        forall|j: int| 0 <= j < s.len() ==> #[trigger] s[j] != '.' && s[j] != '#' && s[j] != '"'
            && !is_space(s[j]),
        s.len() > 0,
{
    assert forall|j: int| 0 <= j < s.len() implies #[trigger] s[j] != '.' && s[j] != '#' && s[j] != '"'
        && !is_space(s[j]) by {
        if uint(s) {
            assert(is_digit(s[j]));
        } else if j > 0 {
            assert(is_ident_char(s[j]));
        }
    }
}

/// Splitting at a dot: the text before the first dot, then the rest split.
proof fn lemma_split_front(x: Seq<char>, rest: Seq<char>)
    requires
        forall|j: int| 0 <= j < x.len() ==> #[trigger] x[j] != '.',
    ensures
        split(x + seq!['.'] + rest, '.') == seq![x] + split(rest, '.'),
{
    let s = x + seq!['.'] + rest;
    assert forall|j: int| 0 <= j < x.len() implies s[j] != '.' by {
        assert(s[j] == x[j]);
    }
    lemma_find_at(s, '.', 0, x.len());
    assert(s.subrange(0, x.len() as int) =~= x);
    assert(s.subrange(x.len() + 1int, s.len() as int) =~= rest);
}

/// A text without a dot is one part.
proof fn lemma_split_whole(x: Seq<char>)
    requires
        forall|j: int| 0 <= j < x.len() ==> #[trigger] x[j] != '.',
    ensures
        split(x, '.') == seq![x],
{
    lemma_find_from(x, '.', 0);
    if find_from(x, '.', 0) >= 0 {
        assert(x[find_from(x, '.', 0)] == '.');
    }
}

/// The Rust comparison that each conditional jump verb stands for.
pub open spec fn comparison(v: Seq<char>, op: Seq<char>) -> bool {
    ||| v == "jeq"@ && op == "=="@
    ||| v == "jne"@ && op == "!="@
    ||| v == "jlt"@ && op == "<"@
    ||| v == "jgt"@ && op == ">"@
    ||| v == "jle"@ && op == "<="@
    ||| v == "jge"@ && op == ">="@
}

/// A conditional verb is a name of three letters, none of the other verbs,
/// and stands for its comparison.
proof fn lemma_comparison(v: Seq<char>, op: Seq<char>)
    requires
        comparison(v, op),
    ensures
        ident(v),
        v.len() == 3,
        v != "log"@ && v != "in"@ && v != "ask"@ && v != "rnd"@ && v != "cls"@ && v != "w"@
            && v != "q"@ && v != "j"@,
        cond_symbol(v) == Some(op),
{
    reveal_strlit("log");
    reveal_strlit("in");
    reveal_strlit("ask");
    reveal_strlit("rnd");
    reveal_strlit("cls");
    reveal_strlit("w");
    reveal_strlit("q");
    reveal_strlit("j");
    reveal_strlit("jeq");
    reveal_strlit("jne");
    reveal_strlit("jlt");
    reveal_strlit("jgt");
    reveal_strlit("jle");
    reveal_strlit("jge");
    assert("jeq"@ =~= seq!['j', 'e', 'q']);
    assert("jne"@ =~= seq!['j', 'n', 'e']);
    assert("jlt"@ =~= seq!['j', 'l', 't']);
    assert("jgt"@ =~= seq!['j', 'g', 't']);
    assert("jle"@ =~= seq!['j', 'l', 'e']);
    assert("jge"@ =~= seq!['j', 'g', 'e']);
    assert(v.len() == 3 && v[0] == 'j');
    assert(ident(v));
    if v[1] == 'e' {
        assert(v =~= "jeq"@);
    } else if v[1] == 'n' {
        assert(v =~= "jne"@);
    } else if v[1] == 'l' && v[2] == 't' {
        assert(v =~= "jlt"@);
    } else if v[1] == 'g' && v[2] == 't' {
        assert(v =~= "jgt"@);
    } else if v[1] == 'l' {
        assert(v =~= "jle"@);
    } else {
        assert(v =~= "jge"@);
    }
}

/// `v.a.b.t` with a conditional verb jumps to label `t` when `a op b`
/// holds: the declared variable `a` on the left, the number or declared
/// variable `b` on the right, whatever `b` is; otherwise the machine goes on
/// with the next statement.  It is refused for an undeclared variable, a
/// number beyond the `i64` range or an undefined label, checked in that
/// order.  The state is unchanged.
pub proof fn law_conditional_jump(
    v: Seq<char>,
    op: Seq<char>,
    a: Seq<char>,
    b: Seq<char>,
    t: Seq<char>,
    c: CtxView,
    labels: Seq<Seq<char>>,
)
    requires
        comparison(v, op),
        ident(a),
        uint(b) || ident(b),
        ident(t),
    ensures
        translated(v + seq!['.'] + a + seq!['.'] + b + seq!['.'] + t, c, labels) == (
            if !c.declared.contains(a) {
                Err::<Seq<char>, Seq<char>>("unknown variable '"@ + a + "'"@)
            } else if uint(b) && digits_value(b) > i64_max() {
                Err::<Seq<char>, Seq<char>>("number '"@ + b + "' does not fit in i64"@)
            } else if ident(b) && !c.declared.contains(b) {
                Err::<Seq<char>, Seq<char>>("unknown variable '"@ + b + "'"@)
            } else if !labels.contains(t) {
                Err::<Seq<char>, Seq<char>>("unknown label '"@ + t + "'"@)
            } else {
                Ok::<Seq<char>, Seq<char>>(
                    "    if "@ + a + " "@ + op + " "@ + b + " {\n        __pc = \""@ + t
                        + "\";\n        continue '__run;\n    }"@,
                )
            },
            c,
        ),
{
    reveal_strlit("' does not fit in ");
    reveal_strlit("i64");
    reveal_strlit("' does not fit in i64");
    assert(out_of_range(b, "i64"@) =~= "number '"@ + b + "' does not fit in i64"@);
    lemma_comparison(v, op);
    lemma_word(a);
    lemma_word(b);
    lemma_word(t);
    if uint(b) {
        assert(is_digit(b[0]));
        assert(!ident(b));
    }
    let operand = a + seq!['.'] + b + seq!['.'] + t;
    let raw = v + seq!['.'] + operand;
    assert(raw =~= v + seq!['.'] + a + seq!['.'] + b + seq!['.'] + t);
    let la: int = a.len() as int;
    let lb: int = b.len() as int;
    assert forall|j: int| 0 <= j < raw.len() implies #[trigger] raw[j] != '#' by {
        if 4 <= j < 4 + la {
            assert(raw[j] == a[j - 4]);
        } else if 5 + la <= j < 5 + la + lb {
            assert(raw[j] == b[j - 5 - la]);
        } else if 6 + la + lb <= j {
            assert(raw[j] == t[j - 6 - la - lb]);
        }
    }
    lemma_no_hash(raw, 0, false);
    assert(operand.last() == t[t.len() - 1]);
    lemma_line(v, operand, c, labels);
    lemma_split_whole(t);
    lemma_split_front(b, t);
    assert(a + seq!['.'] + b + seq!['.'] + t =~= a + seq!['.'] + (b + seq!['.'] + t));
    lemma_split_front(a, b + seq!['.'] + t);
    assert(split(operand, '.') =~= seq![a, b, t]);
    lemma_comparison(v, op);
}

// ---------------------------------------------------------------- segments

/// The arm of a segment whose last statement ends in a closing brace, as a
/// conditional jump does, does not end there: after its statements control
/// moves on to the next segment, or leaves the machine after the last one.
pub proof fn law_brace_falls_through(ids: Seq<Seq<char>>, segs: Seq<Seq<Seq<char>>>, idx: int)
    requires
        0 <= idx < segs.len(),
        segs[idx].len() > 0,
        trim_end(segs[idx].last()).len() > 0,
        trim_end(segs[idx].last()).last() == '}',
    ensures
        arm(ids, segs, idx) == "            \""@ + ids[idx] + "\" => {\n"@ + indented_block(segs[idx])
            + (if idx + 1 < ids.len() {
            "                __pc = \""@ + ids[idx + 1] + "\";\n                continue '__run;\n"@
        } else {
            "                break '__run;\n"@
        }) + "            }\n"@,
{
    lemma_brace_stays(segs[idx].last());
    assert(exits(segs[idx]) == leaves_arm(segs[idx].last()));
}

/// The text of a conditional jump that `law_conditional_jump` gives.
pub open spec fn jump_if(a: Seq<char>, op: Seq<char>, b: Seq<char>, t: Seq<char>) -> Seq<char> {
    "    if "@ + a + " "@ + op + " "@ + b + " {\n        __pc = \""@ + t
        + "\";\n        continue '__run;\n    }"@
}

/// A segment that ends in a conditional jump falls through when the
/// comparison fails: its arm moves on to the next segment (or leaves the
/// machine after the last one) instead of running the segment again.
pub proof fn law_conditional_jump_falls_through(
    ids: Seq<Seq<char>>,
    segs: Seq<Seq<Seq<char>>>,
    idx: int,
    a: Seq<char>,
    op: Seq<char>,
    b: Seq<char>,
    t: Seq<char>,
)
    requires
        0 <= idx < segs.len(),
        segs[idx].len() > 0,
        segs[idx].last() == jump_if(a, op, b, t),
    ensures
        arm(ids, segs, idx) == "            \""@ + ids[idx] + "\" => {\n"@ + indented_block(segs[idx])
            + (if idx + 1 < ids.len() {
            "                __pc = \""@ + ids[idx + 1] + "\";\n                continue '__run;\n"@
        } else {
            "                break '__run;\n"@
        }) + "            }\n"@,
{
    let tail = "\";\n        continue '__run;\n    }"@;
    reveal_strlit("\";\n        continue '__run;\n    }");
    let s = jump_if(a, op, b, t);
    assert(s.last() == tail.last());
    assert(trim_end(s) == s);
    law_brace_falls_through(ids, segs, idx);
}

/// A segment that ends in `j.t` or `q.` leaves its arm by that statement:
/// nothing is added after its statements.
pub proof fn law_jump_or_quit_exits(ids: Seq<Seq<char>>, segs: Seq<Seq<Seq<char>>>, idx: int, t: Seq<char>)
    requires
        0 <= idx < segs.len(),
        segs[idx].len() > 0,
        segs[idx].last() == "    __pc = \""@ + t + "\";\n    continue '__run;"@ || segs[idx].last()
            == "    break '__run;"@,
    ensures
        arm(ids, segs, idx) == "            \""@ + ids[idx] + "\" => {\n"@ + indented_block(segs[idx])
            + "            }\n"@,
{
    lemma_jump_leaves(t);
    lemma_quit_leaves();
    assert(exits(segs[idx]) == leaves_arm(segs[idx].last()));
}

} // verus!
