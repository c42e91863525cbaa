//! Which statements end the arm of their segment in the state machine.
use vstd::prelude::*;
use crate::ctx::{CtxView, bound, let_line, assign_line};
use crate::text::{
    is_space, is_digit, is_ident_char, ident, uint, trim, trim_start, trim_end, ends_with, split_once,
    find, escape, split,
};
use crate::translate::{
    translated, statement, code_of, logged, assigned, jump_verb, READER_CODE, RND_HEAD, RND_TAIL,
    CLS_CODE,
};
use crate::compile::{arm, exits, indented_block};
use crate::command_laws::{
    lemma_bound_block, lemma_reader_block, lemma_random_block, lemma_clear_block, value_statement,
};

verus! {

/// Whether the statement `s` leaves the arm it stands in: it ends in a jump
/// of the machine, or it is a break out of it.
pub open spec fn leaves_arm(s: Seq<char>) -> bool {
    ends_with(trim_end(s), "continue '__run;"@) || trim(s) == "break '__run;"@
}

/// Text without an apostrophe.
pub open spec fn apostrophe_free(s: Seq<char>) -> bool {
    forall|i: int| 0 <= i < s.len() ==> #[trigger] s[i] != '\''
}

proof fn lemma_trim_end_shape(s: Seq<char>)
    ensures
        trim_end(s).len() <= s.len(),
        trim_end(s) == s.subrange(0, trim_end(s).len() as int),
        trim_end(s).len() > 0 ==> !is_space(trim_end(s).last()),
    decreases s.len(),
{
    if s.len() > 0 && is_space(s.last()) {
        lemma_trim_end_shape(s.drop_last());
        assert(s.drop_last().subrange(0, trim_end(s).len() as int) =~= s.subrange(0, trim_end(s).len() as int));
    } else {
        assert(s.subrange(0, s.len() as int) =~= s);
    }
}

/// Dropping a leading space commutes with trimming the end, where
/// something is left.
proof fn lemma_trim_end_drop_first(s: Seq<char>)
    requires
        s.len() > 0,
        is_space(s[0]),
        trim_end(s).len() > 0,
    ensures
        trim_end(s.drop_first()) == trim_end(s).drop_first(),
    decreases s.len(),
{
    if is_space(s.last()) {
        if s.len() == 1 {
            assert(s.drop_last().len() == 0);
            assert(trim_end(s) == trim_end(s.drop_last()));
        }
        assert(s.drop_last()[0] == s[0]);
        lemma_trim_end_drop_first(s.drop_last());
        assert(s.drop_first().drop_last() =~= s.drop_last().drop_first());
        assert(s.drop_first().last() == s.last());
    } else {
        assert(s.len() != 1);
        assert(s.drop_first().last() == s.last());
    }
}

/// Trimming both ends keeps the last character that trimming the end keeps.
proof fn lemma_trim_keeps_last(s: Seq<char>)
    requires
        trim_end(s).len() > 0,
    ensures
        trim(s).len() > 0,
        trim(s).last() == trim_end(s).last(),
    decreases s.len(),
{
    lemma_trim_end_shape(s);
    if s.len() > 0 && is_space(s[0]) {
        lemma_trim_end_drop_first(s);
        let t = trim_end(s);
        assert(t[0] == s[0]);
        assert(t.len() > 1);
        lemma_trim_keeps_last(s.drop_first());
        assert(trim_start(s) == trim_start(s.drop_first()));
    } else {
        assert(trim_start(s) == s);
    }
}

proof fn lemma_trim_start_shape(s: Seq<char>)
    ensures
        trim_start(s).len() <= s.len(),
        trim_start(s) == s.subrange(s.len() - trim_start(s).len(), s.len() as int),
        trim_start(s).len() > 0 ==> !is_space(trim_start(s)[0]),
    decreases s.len(),
{
    if s.len() > 0 && is_space(s[0]) {
        lemma_trim_start_shape(s.drop_first());
        let k = s.len() - trim_start(s).len();
        assert(s.drop_first().subrange(k - 1, s.len() - 1) =~= s.subrange(k, s.len() as int));
    } else {
        assert(s.subrange(0, s.len() as int) =~= s);
    }
}

/// A statement without an apostrophe stays in its arm.
pub proof fn lemma_apostrophe_free_stays(s: Seq<char>)
    requires
        apostrophe_free(s),
    ensures
        !leaves_arm(s),
{
    reveal_strlit("continue '__run;");
    reveal_strlit("break '__run;");
    lemma_trim_end_shape(s);
    let te = trim_end(s);
    let cont = "continue '__run;"@;
    if ends_with(te, cont) {
        assert(te.subrange(te.len() - cont.len(), te.len() as int)[9] == te[te.len() - cont.len() + 9]);
        assert(te[te.len() - cont.len() + 9] == s[te.len() - cont.len() + 9]);
    }
    lemma_trim_start_shape(s);
    let ts = trim_start(s);
    lemma_trim_end_shape(ts);
    let t = trim(s);
    if t == "break '__run;"@ {
        let k = s.len() - ts.len();
        assert(t[6] == ts[6]);
        assert(ts[6] == s[k + 6]);
    }
}

/// A statement that ends in `;` after anything but an `n` stays in its arm.
pub proof fn lemma_semicolon_stays(s: Seq<char>)
    requires
        s.len() >= 2,
        s.last() == ';',
        s[s.len() - 2] != 'n',
    ensures
        !leaves_arm(s),
{
    reveal_strlit("continue '__run;");
    reveal_strlit("break '__run;");
    assert(trim_end(s) == s);
    let cont = "continue '__run;"@;
    if ends_with(s, cont) {
        assert(s.subrange(s.len() - cont.len(), s.len() as int)[14] == s[s.len() - 2]);
    }
    lemma_trim_start_shape(s);
    let ts = trim_start(s);
    let k = s.len() - ts.len();
    if ts.len() > 0 {
        assert(ts.last() == s.last());
        assert(trim_end(ts) == ts);
        if ts == "break '__run;"@ {
            assert(ts[11] == s[k + 11]);
        }
    } else {
        assert(trim_end(ts) == ts);
    }
}

/// A statement that ends in a closing brace stays in its arm.
pub proof fn lemma_brace_stays(s: Seq<char>)
    requires
        trim_end(s).len() > 0,
        trim_end(s).last() == '}',
    ensures
        !leaves_arm(s),
{
    reveal_strlit("continue '__run;");
    reveal_strlit("break '__run;");
    let cont = "continue '__run;"@;
    if ends_with(trim_end(s), cont) {
        let te = trim_end(s);
        assert(te.subrange(te.len() - cont.len(), te.len() as int)[cont.len() - 1] == te.last());
    }
    lemma_trim_keeps_last(s);
}

/// A statement ending in `;` with the given character before it.
pub open spec fn ends_in(s: Seq<char>, before: char) -> bool {
    s.len() >= 2 && s.last() == ';' && s[s.len() - 2] == before
}

proof fn lemma_ends_in(a: Seq<char>, tail: Seq<char>, before: char)
    requires
        ends_in(tail, before),
    ensures
        ends_in(a + tail, before),
{
    let s = a + tail;
    assert(s.last() == tail.last());
    assert(s[s.len() - 2] == tail[tail.len() - 2]);
}

/// `log` statements print a line and stay in their arm.
proof fn lemma_logged_stays(operand: Seq<char>, c: CtxView)
    requires
        logged(operand, c) is Ok,
    ensures
        !leaves_arm(logged(operand, c)->Ok_0),
{
    reveal_strlit("\");"); 
    reveal_strlit(");");
    assert(ends_in("\");"@, ')'));
    assert(ends_in(");"@, ')'));
    let code = logged(operand, c)->Ok_0;
    if operand.len() > 0 && operand[0] == '"' {
        let rest = operand.drop_first();
        let close = find(rest, '"');
        let text = escape(rest.subrange(0, close));
        let after = trim(rest.subrange(close + 1, rest.len() as int));
        if after.len() == 0 {
            lemma_ends_in("    println!(\""@ + text, "\");"@, ')');
        } else {
            let var = after.drop_first();
            lemma_ends_in("    println!(\""@ + text + "{}\", "@ + var, ");"@, ')');
        }
    } else {
        lemma_ends_in("    println!(\"{}\", "@ + operand, ");"@, ')');
    }
    lemma_semicolon_stays(code);
}

/// A value computed by a block, given to a variable, stays in its arm.
proof fn lemma_block_value_stays(x: Seq<char>, rhs: Seq<char>, c: CtxView)
    requires
        c.machine,
        rhs.len() > 0,
        rhs.last() == '}',
    ensures
        ends_in(value_statement(x, rhs, c), '}'),
{
    reveal_strlit(";");
    let s = "    "@ + x + " = "@ + rhs;
    assert(s.last() == rhs.last());
}

proof fn lemma_free_concat(a: Seq<char>, b: Seq<char>)
    requires
        apostrophe_free(a),
        apostrophe_free(b),
    ensures
        apostrophe_free(a + b),
{
    assert forall|i: int| 0 <= i < (a + b).len() implies #[trigger] (a + b)[i] != '\'' by {
        if i >= a.len() {
            assert((a + b)[i] == b[i - a.len()]);
        }
    }
}

proof fn lemma_word_free(s: Seq<char>)
    requires
        ident(s) || uint(s),
    ensures
        apostrophe_free(s),
{
    assert forall|i: int| 0 <= i < s.len() implies #[trigger] s[i] != '\'' by {
        if uint(s) {
            assert(is_digit(s[i]));
        } else if i > 0 {
            assert(is_ident_char(s[i]));
        }
    }
}

/// Giving a name a value written without an apostrophe stays in the arm.
proof fn lemma_bound_free(c: CtxView, x: Seq<char>, rhs: Seq<char>)
    requires
        apostrophe_free(x),
        apostrophe_free(rhs),
    ensures
        apostrophe_free(bound(c, x, rhs).1),
{
    reveal_strlit("    ");
    reveal_strlit(" = ");
    reveal_strlit(";");
    reveal_strlit("    let mut ");
    reveal_strlit(": i64 = ");
    lemma_free_concat("    "@, x);
    lemma_free_concat("    "@ + x, " = "@);
    lemma_free_concat("    "@ + x + " = "@, rhs);
    lemma_free_concat("    "@ + x + " = "@ + rhs, ";"@);
    lemma_free_concat("    let mut "@, x);
    lemma_free_concat("    let mut "@ + x, ": i64 = "@);
    lemma_free_concat("    let mut "@ + x + ": i64 = "@, rhs);
    lemma_free_concat("    let mut "@ + x + ": i64 = "@ + rhs, ";"@);
    assert(apostrophe_free(assign_line(x, rhs)));
    assert(apostrophe_free(let_line(x, rhs)));
}

/// Assignments and in-place arithmetic stay in their arm.
proof fn lemma_assigned_stays(target: Seq<char>, operand: Seq<char>, c: CtxView)
    requires
        assigned(target, operand, c).0 is Ok,
    ensures
        apostrophe_free(assigned(target, operand, c).0->Ok_0),
{
    lemma_word_free(target);
    if uint(operand) || ident(operand) {
        lemma_word_free(operand);
        lemma_bound_free(c, target, operand);
    } else {
        let rest = operand.drop_first();
        let sign = operand[0];
        lemma_word_free(rest);
        reveal_strlit("-");
        lemma_free_concat("-"@, rest);
        lemma_bound_free(c, target, "-"@ + rest);
        reveal_strlit("    ");
        reveal_strlit(" = ");
        reveal_strlit(" ");
        reveal_strlit(";");
        assert(apostrophe_free(seq![sign]));
        let s1 = "    "@ + target;
        lemma_free_concat("    "@, target);
        lemma_free_concat(s1, " = "@);
        lemma_free_concat(s1 + " = "@, target);
        lemma_free_concat(s1 + " = "@ + target, " "@);
        lemma_free_concat(s1 + " = "@ + target + " "@, seq![sign]);
        lemma_free_concat(s1 + " = "@ + target + " "@ + seq![sign], " "@);
        lemma_free_concat(s1 + " = "@ + target + " "@ + seq![sign] + " "@, rest);
        lemma_free_concat(s1 + " = "@ + target + " "@ + seq![sign] + " "@ + rest, ";"@);
    }
}

/// A jump of the machine leaves the arm.
pub proof fn lemma_jump_leaves(t: Seq<char>)
    ensures
        leaves_arm("    __pc = \""@ + t + "\";\n    continue '__run;"@),
{
    reveal_strlit("continue '__run;");
    reveal_strlit("\";\n    continue '__run;");
    let last = "    __pc = \""@ + t + "\";\n    continue '__run;"@;
    let cont = "continue '__run;"@;
    assert(trim_end(last) == last);
    assert(last.subrange(last.len() - cont.len(), last.len() as int) =~= cont);
}

/// A break out of the machine leaves the arm.
pub proof fn lemma_quit_leaves()
    ensures
        leaves_arm("    break '__run;"@),
{
    reveal_strlit("break '__run;");
    reveal_strlit("    break '__run;");
    let last = "    break '__run;"@;
    let b = "break '__run;"@;
    assert(trim_end(last) == last);
    assert(last.drop_first().drop_first().drop_first().drop_first() =~= b);
    assert(trim_start(last.drop_first().drop_first().drop_first()) == trim_start(
        last.drop_first().drop_first().drop_first().drop_first(),
    ));
    assert(trim_start(last.drop_first().drop_first()) == trim_start(last.drop_first().drop_first().drop_first()));
    assert(trim_start(last.drop_first()) == trim_start(last.drop_first().drop_first()));
    assert(trim_start(last) == trim_start(last.drop_first()));
    assert(trim_start(b) == b);
}

/// The verb of a statement line: what stands before its first dot.
pub open spec fn verb_of(raw: Seq<char>) -> Seq<char> {
    split_once(code_of(raw), '.')->Some_0.0
}

/// In machine mode only `j.` and `q.` leave the arm of their segment: the
/// code of a jump or a quit leaves it, the code of any other accepted
/// statement (a conditional jump among them) does not, so control goes on
/// after it.
pub proof fn law_only_jumps_and_quits_leave(raw: Seq<char>, c: CtxView, labels: Seq<Seq<char>>)
    requires
        c.machine,
        translated(raw, c, labels).0 is Ok,
        translated(raw, c, labels).0->Ok_0.len() > 0,
    ensures
        leaves_arm(translated(raw, c, labels).0->Ok_0) <==> (verb_of(raw) == "j"@ || verb_of(raw) == "q"@),
{
    let line = code_of(raw);
    let verb = split_once(line, '.')->Some_0.0;
    let operand = split_once(line, '.')->Some_0.1;
    let code = translated(raw, c, labels).0->Ok_0;
    assert(split_once(line, '.') is Some);
    assert(verb_of(raw) == verb);
    assert(statement(verb, operand, c, labels).0 == Ok::<Seq<char>, Seq<char>>(code));
    reveal_strlit("log");
    reveal_strlit("in");
    reveal_strlit("ask");
    reveal_strlit("rnd");
    reveal_strlit("cls");
    reveal_strlit("w");
    reveal_strlit("q");
    reveal_strlit("j");
    if verb == "log"@ {
        lemma_logged_stays(operand, c);
        assert(!leaves_arm(code));
    } else if verb == "in"@ {
        lemma_reader_block();
        lemma_bound_block(c, operand, READER_CODE@);
        lemma_block_value_stays(operand, READER_CODE@, c);
        lemma_semicolon_stays(code);
        assert(!leaves_arm(code));
    } else if verb == "ask"@ {
        lemma_reader_block();
        let rest = operand.drop_first();
        let close = find(rest, '"');
        let text = escape(rest.subrange(0, close));
        let after = trim(rest.subrange(close + 1, rest.len() as int));
        let var = after.drop_first();
        lemma_bound_block(c, var, READER_CODE@);
        lemma_block_value_stays(var, READER_CODE@, c);
        lemma_ends_in("    print!(\""@ + text + "\");\n"@, value_statement(var, READER_CODE@, c), '}');
        lemma_semicolon_stays(code);
        assert(!leaves_arm(code));
    } else if verb == "rnd"@ {
        lemma_random_block();
        let parts = split(operand, '.');
        let expr = RND_HEAD@ + parts[1] + RND_TAIL@;
        assert(expr[0] == RND_HEAD@[0]);
        assert(expr.last() == RND_TAIL@.last());
        lemma_bound_block(c, parts[0], expr);
        lemma_block_value_stays(parts[0], expr, c);
        lemma_semicolon_stays(code);
        assert(!leaves_arm(code));
    } else if verb == "cls"@ {
        lemma_clear_block();
        assert(trim_end(CLS_CODE@) == CLS_CODE@);
        lemma_brace_stays(code);
        assert(!leaves_arm(code));
    } else if verb == "w"@ {
        reveal_strlit("));");
        lemma_ends_in("    std::thread::sleep(std::time::Duration::from_millis("@ + operand, "));"@, ')');
        lemma_semicolon_stays(code);
        assert(!leaves_arm(code));
    } else if verb == "q"@ {
        lemma_quit_leaves();
        assert(code == "    break '__run;"@);
        assert(leaves_arm(code));
    } else if verb == "j"@ {
        lemma_jump_leaves(operand);
        assert(leaves_arm(code));
    } else if jump_verb(verb) {
        reveal_strlit("\";\n        continue '__run;\n    }");
        let tail = "\";\n        continue '__run;\n    }"@;
        assert(code.last() == tail.last());
        assert(trim_end(code) == code);
        lemma_brace_stays(code);
        assert(!leaves_arm(code));
    } else {
        lemma_assigned_stays(verb, operand, c);
        lemma_apostrophe_free_stays(code);
        assert(!leaves_arm(code));
    }
}

/// The arm of a machine segment whose last statement is the code of a
/// statement line: after the segment's statements control moves on to the
/// next segment (or leaves the machine after the last one), unless that
/// line is a `j.` or a `q.`, which leaves the arm by itself.
pub proof fn law_arm_end(
    raw: Seq<char>,
    c: CtxView,
    labels: Seq<Seq<char>>,
    ids: Seq<Seq<char>>,
    segs: Seq<Seq<Seq<char>>>,
    idx: int,
)
    requires
        c.machine,
        0 <= idx < segs.len(),
        segs[idx].len() > 0,
        segs[idx].last().len() > 0,
        translated(raw, c, labels).0 == Ok::<Seq<char>, Seq<char>>(segs[idx].last()),
    ensures
        arm(ids, segs, idx) == "            \""@ + ids[idx] + "\" => {\n"@ + indented_block(segs[idx]) + (
        if verb_of(raw) == "j"@ || verb_of(raw) == "q"@ {
            seq![]
        } else if idx + 1 < ids.len() {
            "                __pc = \""@ + ids[idx + 1] + "\";\n                continue '__run;\n"@
        } else {
            "                break '__run;\n"@
        }) + "            }\n"@,
{
    law_only_jumps_and_quits_leave(raw, c, labels);
    assert(exits(segs[idx]) == leaves_arm(segs[idx].last()));
    let head = "            \""@ + ids[idx] + "\" => {\n"@ + indented_block(segs[idx]);
    assert(head + Seq::<char>::empty() =~= head);
}

} // verus!
