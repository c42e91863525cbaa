//! Properties of the translator that span its functions.
use vstd::prelude::*;
use crate::ctx::{CtxView, well_formed, bound, let_line, assign_line, unknown_variable, int_literal};
use crate::text::{
    ident, uint, is_space, is_digit, is_ident_char, trim, trim_end, comment_at, without_comment,
    find, find_from, split_once, escape, escape_char, split, lines, digits_value, i64_max,
};
use crate::translate::{
    translated, statement, reserved, code_of, out_of_range, unknown_label, jump_verb, cond_symbol,
    READER_CODE, RND_HEAD, RND_TAIL,
};
use crate::compile::{
    statements, scan, build, compiled, line_no, Scan, lines_block, linear_body,
};
use crate::layout_laws::law_statement_numbers;
use crate::command_laws::{
    value_statement, mentioned, literal_statement, literal_mention, lemma_bound_computed,
    lemma_bound_literal,
};

verus! {

/// Characters that need no quoting and end no statement: no comment mark,
/// no quote, no white space.
pub open spec fn plain(s: Seq<char>) -> bool {
    forall|i: int| 0 <= i < s.len() ==> #[trigger] s[i] != '#' && s[i] != '"' && !is_space(s[i])
}

// ---------------------------------------------------------------- binding

/// Binding a name declares it: afterwards it is declared, no other name
/// is, the mode is kept, and a well-formed state stays well formed.
pub proof fn law_bind_declares(c: CtxView, name: Seq<char>, rhs: Seq<char>)
    ensures
        bound(c, name, rhs).0.declared.contains(name),
        bound(c, name, rhs).0.machine == c.machine,
        c.declared.contains(name) ==> bound(c, name, rhs).0 == c,
        !c.declared.contains(name) ==> bound(c, name, rhs).0.declared == c.declared.push(name),
        well_formed(c) ==> well_formed(bound(c, name, rhs).0),
{
    let c2 = bound(c, name, rhs).0;
    if !c.declared.contains(name) {
        assert(c2.declared.last() == name);
        if well_formed(c) {
            assert forall|i: int, j: int|
                0 <= i < c2.declared.len() && 0 <= j < c2.declared.len() && i != j implies c2.declared[i] != c2.declared[j] by {
                if i < c.declared.len() && j < c.declared.len() {
                    assert(c2.declared[i] == c.declared[i]);
                    assert(c2.declared[j] == c.declared[j]);
                } else if i < c.declared.len() {
                    assert(c2.declared[i] == c.declared[i]);
                } else {
                    assert(c2.declared[j] == c.declared[j]);
                }
            }
        }
    }
}

/// First mention declares, the rest just assign: once a name is bound,
/// binding it again only assigns and leaves the state as it is.
pub proof fn law_rebind_assigns(c: CtxView, name: Seq<char>, r1: Seq<char>, r2: Seq<char>)
    ensures
        bound(bound(c, name, r1).0, name, r2) == (bound(c, name, r1).0, assign_line(name, r2)),
{
    law_bind_declares(c, name, r1);
}

/// In linear mode the first mention is a `let` in place; in machine mode
/// it is hoisted, and what stays in place is at most an assignment.
pub proof fn law_first_mention(c: CtxView, name: Seq<char>, rhs: Seq<char>)
    requires
        !c.declared.contains(name),
    ensures
        !c.machine ==> bound(c, name, rhs).1 == let_line(name, rhs),
        c.machine ==> bound(c, name, rhs).0.hoisted == c.hoisted.push(
            let_line(name, if int_literal(rhs) is Some { rhs } else { "0"@ }),
        ),
        c.machine ==> bound(c, name, rhs).1.len() == 0 || bound(c, name, rhs).1 == assign_line(name, rhs),
{
}

/// What a hoisted declaration of a variable starts from: its first value
/// when that is an integer literal, else 0.
pub open spec fn hoisted_init(rhs: Seq<char>) -> Seq<char> {
    if int_literal(rhs) is Some {
        rhs
    } else {
        "0"@
    }
}

/// The state after binding each `(name, value)` of `ops` in turn.
pub open spec fn binds(c: CtxView, ops: Seq<(Seq<char>, Seq<char>)>) -> CtxView
    decreases ops.len(),
{
    if ops.len() == 0 {
        c
    } else {
        bound(binds(c, ops.drop_last()), ops.last().0, ops.last().1).0
    }
}

/// The value `name` is first bound to in `ops`, if it is bound at all.
pub open spec fn first_value(ops: Seq<(Seq<char>, Seq<char>)>, name: Seq<char>) -> Option<Seq<char>>
    decreases ops.len(),
{
    if ops.len() == 0 {
        None
    } else if first_value(ops.drop_last(), name) is Some {
        first_value(ops.drop_last(), name)
    } else if ops.last().0 == name {
        Some(ops.last().1)
    } else {
        None
    }
}

/// Binding names one after another from a fresh state: the declared
/// variables are the names bound, each once, in order of first binding.
/// In linear mode nothing is hoisted; in machine mode the `i`-th hoisted
/// line declares the `i`-th variable, starting from its first value when
/// that is an integer literal and from 0 otherwise.
pub proof fn law_hoisted_declarations(m: bool, ops: Seq<(Seq<char>, Seq<char>)>)
    ensures
        binds(CtxView { declared: seq![], machine: m, hoisted: seq![] }, ops).machine == m,
        binds(CtxView { declared: seq![], machine: m, hoisted: seq![] }, ops).declared.no_duplicates(),
        forall|n: Seq<char>|
            binds(CtxView { declared: seq![], machine: m, hoisted: seq![] }, ops).declared.contains(n)
                <==> #[trigger] first_value(ops, n) is Some,
        !m ==> binds(CtxView { declared: seq![], machine: m, hoisted: seq![] }, ops).hoisted.len() == 0,
        m ==> binds(CtxView { declared: seq![], machine: m, hoisted: seq![] }, ops).hoisted.len()
            == binds(CtxView { declared: seq![], machine: m, hoisted: seq![] }, ops).declared.len(),
        m ==> forall|i: int|
            0 <= i < binds(CtxView { declared: seq![], machine: m, hoisted: seq![] }, ops).declared.len()
                ==> #[trigger] binds(CtxView { declared: seq![], machine: m, hoisted: seq![] }, ops).hoisted[i]
                == let_line(
                binds(CtxView { declared: seq![], machine: m, hoisted: seq![] }, ops).declared[i],
                hoisted_init(
                    first_value(
                        ops,
                        binds(CtxView { declared: seq![], machine: m, hoisted: seq![] }, ops).declared[i],
                    )->0,
                ),
            ),
    decreases ops.len(),
{
    let c0 = CtxView { declared: seq![], machine: m, hoisted: seq![] };
    let c = binds(c0, ops);
    if ops.len() == 0 {
        assert(c.declared.len() == 0);
    } else {
        let prev_ops = ops.drop_last();
        law_hoisted_declarations(m, prev_ops);
        let p = binds(c0, prev_ops);
        let (name, rhs) = ops.last();
        law_bind_declares(p, name, rhs);
        assert(well_formed(p));
        assert forall|n: Seq<char>| c.declared.contains(n) <==> #[trigger] first_value(ops, n) is Some by {
            assert(first_value(prev_ops, n) is Some <==> p.declared.contains(n));
            assert(first_value(prev_ops, name) is Some <==> p.declared.contains(name));
            if !p.declared.contains(name) {
                if c.declared.contains(n) && n != name {
                    let k = choose|k: int| 0 <= k < c.declared.len() && c.declared[k] == n;
                    assert(k < p.declared.len());
                    assert(p.declared[k] == n);
                }
                if p.declared.contains(n) {
                    let k = choose|k: int| 0 <= k < p.declared.len() && p.declared[k] == n;
                    assert(c.declared[k] == n);
                }
                if n == name {
                    assert(c.declared[c.declared.len() - 1] == n);
                }
            }
        }
        if m {
            assert forall|i: int| 0 <= i < c.declared.len() implies #[trigger] c.hoisted[i] == let_line(
                c.declared[i],
                hoisted_init(first_value(ops, c.declared[i])->0),
            ) by {
                if i < p.declared.len() {
                    assert(c.declared[i] == p.declared[i]);
                    assert(c.hoisted[i] == p.hoisted[i]);
                    assert(p.declared.contains(p.declared[i]));
                    assert(first_value(prev_ops, p.declared[i]) is Some);
                } else {
                    assert(!p.declared.contains(name));
                    assert(c.declared[i] == name);
                    assert(first_value(prev_ops, name) is None);
                }
            }
        }
    }
}

// ---------------------------------------------------------------- statements

/// How a statement may change the state: the mode stays, declarations are
/// only added (one at most, at the end), and well-formedness is kept.
pub open spec fn grows(c: CtxView, c2: CtxView) -> bool {
    &&& c2.machine == c.machine
    &&& c.declared.len() <= c2.declared.len() <= c.declared.len() + 1
    &&& c2.declared.subrange(0, c.declared.len() as int) == c.declared
    &&& well_formed(c) ==> well_formed(c2)
}

proof fn lemma_bound_grows(c: CtxView, name: Seq<char>, rhs: Seq<char>)
    ensures
        grows(c, bound(c, name, rhs).0),
{
    law_bind_declares(c, name, rhs);
    let c2 = bound(c, name, rhs).0;
    if !c.declared.contains(name) {
        assert(c2.declared.subrange(0, c.declared.len() as int) =~= c.declared);
    } else {
        assert(c2.declared.subrange(0, c.declared.len() as int) =~= c.declared);
    }
}

proof fn lemma_grows_refl(c: CtxView)
    ensures
        grows(c, c),
{
    assert(c.declared.subrange(0, c.declared.len() as int) =~= c.declared);
}

proof fn lemma_statement_grows(verb: Seq<char>, operand: Seq<char>, c: CtxView, labels: Seq<Seq<char>>)
    ensures
        statement(verb, operand, c, labels).0 is Err ==> statement(verb, operand, c, labels).1 == c,
        grows(c, statement(verb, operand, c, labels).1),
{
    lemma_grows_refl(c);
    // in.x
    lemma_bound_grows(c, operand, READER_CODE@);
    // ask."prompt".x
    if operand.len() > 0 && operand[0] == '"' {
        let rest = operand.drop_first();
        let close = find(rest, '"');
        if close >= 0 {
            let after = trim(rest.subrange(close + 1, rest.len() as int));
            if after.len() > 0 {
                lemma_bound_grows(c, after.drop_first(), READER_CODE@);
            }
        }
    }
    // rnd.x.limit
    let parts = split(operand, '.');
    if parts.len() == 2 {
        lemma_bound_grows(c, parts[0], RND_HEAD@ + parts[1] + RND_TAIL@);
    }
    // x.value
    lemma_bound_grows(c, verb, operand);
    if operand.len() > 0 {
        lemma_bound_grows(c, verb, "-"@ + operand.drop_first());
    }
}

proof fn lemma_bind_other(c: CtxView, name: Seq<char>, rhs: Seq<char>, w: Seq<char>)
    requires
        name != w,
        !c.declared.contains(w),
    ensures
        !bound(c, name, rhs).0.declared.contains(w),
{
    law_bind_declares(c, name, rhs);
    if !c.declared.contains(name) {
        let d = c.declared.push(name);
        assert forall|i: int| 0 <= i < d.len() implies d[i] != w by {
            if i < c.declared.len() {
                assert(d[i] == c.declared[i]);
            }
        }
    }
}

/// The words reserved for commands never become variables: no statement
/// declares one.
pub proof fn law_reserved_never_declared(raw: Seq<char>, c: CtxView, labels: Seq<Seq<char>>, w: Seq<char>)
    requires
        reserved(w),
        !c.declared.contains(w),
    ensures
        !translated(raw, c, labels).1.declared.contains(w),
{
    let line = code_of(raw);
    if !(line.len() == 0 || line[0] == '#') {
        match split_once(line, '.') {
            Some((verb, operand)) => {
                if !reserved(operand) {
                    lemma_bind_other(c, operand, READER_CODE@, w);
                }
                if operand.len() > 0 && operand[0] == '"' {
                    let rest = operand.drop_first();
                    let close = find(rest, '"');
                    if close >= 0 {
                        let after = trim(rest.subrange(close + 1, rest.len() as int));
                        if after.len() > 0 && !reserved(after.drop_first()) {
                            lemma_bind_other(c, after.drop_first(), READER_CODE@, w);
                        }
                    }
                }
                let parts = split(operand, '.');
                if parts.len() == 2 && !reserved(parts[0]) {
                    lemma_bind_other(c, parts[0], RND_HEAD@ + parts[1] + RND_TAIL@, w);
                }
                if !reserved(verb) {
                    lemma_bind_other(c, verb, operand, w);
                    if operand.len() > 0 {
                        lemma_bind_other(c, verb, "-"@ + operand.drop_first(), w);
                    }
                }
            },
            None => {},
        }
    }
}

/// A statement that is rejected leaves the state as it was; one that is
/// accepted keeps the mode, only adds a declaration at the end (one at
/// most), and keeps a well-formed state well formed.
pub proof fn law_translate_state(raw: Seq<char>, c: CtxView, labels: Seq<Seq<char>>)
    ensures
        translated(raw, c, labels).0 is Err ==> translated(raw, c, labels).1 == c,
        grows(c, translated(raw, c, labels).1),
{
    lemma_grows_refl(c);
    let line = code_of(raw);
    if !(line.len() == 0 || line[0] == '#') {
        match split_once(line, '.') {
            Some((verb, operand)) => lemma_statement_grows(verb, operand, c, labels),
            None => {},
        }
    }
}

// ---------------------------------------------------------------- parsing

proof fn lemma_trim_unchanged(s: Seq<char>)
    requires
        s.len() > 0,
        !is_space(s[0]),
        !is_space(s.last()),
    ensures
        trim(s) == s,
        trim_end(s) == s,
{
}

proof fn lemma_no_comment(s: Seq<char>, i: nat, in_string: bool)
    requires
        i <= s.len(),
        forall|j: int| 0 <= j < s.len() ==> #[trigger] s[j] != '#' && s[j] != '"',
    ensures
        comment_at(s, i, in_string) == s.len(),
    decreases s.len() - i,
{
    if i < s.len() {
        lemma_no_comment(s, i + 1, in_string);
    }
}

pub proof fn lemma_find_at(s: Seq<char>, c: char, i: nat, k: nat)
    requires
        i <= k < s.len(),
        s[k as int] == c,
        forall|j: int| i <= j < k ==> s[j] != c,
    ensures
        find_from(s, c, i) == k,
    decreases k - i,
{
    if i < k {
        lemma_find_at(s, c, i + 1, k);
    }
}

/// A line `verb.operand` with a name for its verb and a plain operand is
/// the statement `verb.operand`: nothing is trimmed or cut from it, and it
/// splits at the dot after the verb.
pub proof fn law_statement_line(verb: Seq<char>, operand: Seq<char>, c: CtxView, labels: Seq<Seq<char>>)
    requires
        ident(verb),
        plain(operand),
    ensures
        translated(verb + seq!['.'] + operand, c, labels) == statement(verb, operand, c, labels),
{
    let raw = verb + seq!['.'] + operand;
    let k: int = verb.len() as int;
    assert forall|j: int| 0 <= j < raw.len() implies #[trigger] raw[j] != '#' && raw[j] != '"' && (j != k ==> !is_space(raw[j])) by {
        if j < k {
            assert(raw[j] == verb[j]);
            if j > 0 {
                assert(is_ident_char(verb[j]));
            }
        } else if j > k {
            assert(raw[j] == operand[j - k - 1]);
        }
    }
    assert(raw[0] == verb[0]);
    if operand.len() > 0 {
        assert(raw.last() == operand[operand.len() - 1]);
    }
    lemma_trim_unchanged(raw);
    lemma_no_comment(raw, 0, false);
    assert(without_comment(raw) =~= raw);
    assert forall|j: int| 0 <= j < k implies raw[j] != '.' by {
        assert(raw[j] == verb[j]);
        if j > 0 {
            assert(is_ident_char(verb[j]));
        }
    }
    lemma_find_at(raw, '.', 0, k as nat);
    assert(raw.subrange(0, k) =~= verb);
    assert(raw.subrange(k + 1, raw.len() as int) =~= operand);
}

proof fn lemma_uint_plain(s: Seq<char>)
    requires
        uint(s),
    ensures
        plain(s),
        !ident(s),
{
    assert forall|i: int| 0 <= i < s.len() implies #[trigger] s[i] != '#' && s[i] != '"' && !is_space(s[i]) by {
        assert(is_digit(s[i]));
    }
    assert(is_digit(s[0]));
}

proof fn lemma_ident_plain(s: Seq<char>)
    requires
        ident(s),
    ensures
        plain(s),
        !uint(s),
{
    assert forall|i: int| 0 <= i < s.len() implies #[trigger] s[i] != '#' && s[i] != '"' && !is_space(s[i]) by {
        if i > 0 {
            assert(is_ident_char(s[i]));
        }
    }
}

/// A whole number and a name never look alike, so `x.5` assigns and `x.y`
/// copies without ambiguity.
pub proof fn law_number_or_name(s: Seq<char>)
    ensures
        !(uint(s) && ident(s)),
{
    if uint(s) {
        lemma_uint_plain(s);
    }
}

proof fn lemma_not_a_verb(t: Seq<char>)
    requires
        !reserved(t),
    ensures
        !jump_verb(t),
        cond_symbol(t) is None,
{
}

/// `x.N` gives `x` the value `N`: declared on first mention (in machine
/// mode above the machine, starting from `N`, with nothing left in place),
/// assigned after that; a number beyond the `i64` range is refused.
pub proof fn law_assign_number(t: Seq<char>, n: Seq<char>, c: CtxView, labels: Seq<Seq<char>>)
    requires
        ident(t),
        !reserved(t),
        uint(n),
    ensures
        translated(t + seq!['.'] + n, c, labels) == (if digits_value(n) <= i64_max() {
            (Ok::<Seq<char>, Seq<char>>(literal_statement(t, n, c)), literal_mention(t, n, c))
        } else {
            (Err::<Seq<char>, Seq<char>>(out_of_range(n, "i64"@)), c)
        }),
{
    lemma_uint_plain(n);
    law_statement_line(t, n, c, labels);
    lemma_not_a_verb(t);
    assert(is_digit(n[0]));
    lemma_bound_literal(c, t, n);
}

/// `x.y` copies a declared variable `y` into `x` each time it runs (in
/// machine mode always by an assignment in place); an undeclared `y` is an
/// error.
pub proof fn law_copy_variable(t: Seq<char>, src: Seq<char>, c: CtxView, labels: Seq<Seq<char>>)
    requires
        ident(t),
        !reserved(t),
        ident(src),
    ensures
        translated(t + seq!['.'] + src, c, labels) == (if c.declared.contains(src) {
            (Ok::<Seq<char>, Seq<char>>(value_statement(t, src, c)), mentioned(t, c))
        } else {
            (Err::<Seq<char>, Seq<char>>(unknown_variable(src)), c)
        }),
{
    lemma_ident_plain(src);
    law_statement_line(t, src, c, labels);
    lemma_not_a_verb(t);
    assert(!is_digit(src[0]));
    lemma_bound_computed(c, t, src);
}

proof fn lemma_signed_operand(sign: char, rhs: Seq<char>)
    requires
        sign == '+' || sign == '-' || sign == '*' || sign == '/' || sign == '%',
        plain(rhs),
    ensures
        plain(seq![sign] + rhs),
        !uint(seq![sign] + rhs),
        (seq![sign] + rhs).drop_first() == rhs,
        (seq![sign] + rhs)[0] == sign,
{
    let operand = seq![sign] + rhs;
    assert forall|i: int| 0 <= i < operand.len() implies #[trigger] operand[i] != '#' && operand[i] != '"' && !is_space(operand[i]) by {
        if i > 0 {
            assert(operand[i] == rhs[i - 1]);
        }
    }
    assert(operand.drop_first() =~= rhs);
    assert(!is_digit(operand[0]));
}

/// `x.-N` declares the negative literal `-N` on a fresh variable and
/// subtracts `N` from an existing one; `-N` must fit an `i64`.
pub proof fn law_negative_literal(t: Seq<char>, d: Seq<char>, c: CtxView, labels: Seq<Seq<char>>)
    requires
        ident(t),
        !reserved(t),
        uint(d),
    ensures
        translated(t + seq!['.', '-'] + d, c, labels) == (if c.declared.contains(t) {
            if digits_value(d) <= i64_max() {
                (
                    Ok::<Seq<char>, Seq<char>>(
                        "    "@ + t + " = "@ + t + " "@ + seq!['-'] + " "@ + d + ";"@,
                    ),
                    c,
                )
            } else {
                (Err::<Seq<char>, Seq<char>>(out_of_range(d, "i64"@)), c)
            }
        } else if digits_value(d) <= i64_max() + 1 {
            (Ok::<Seq<char>, Seq<char>>(literal_statement(t, "-"@ + d, c)), literal_mention(t, "-"@ + d, c))
        } else {
            (Err::<Seq<char>, Seq<char>>(out_of_range("-"@ + d, "i64"@)), c)
        }),
{
    lemma_uint_plain(d);
    lemma_signed_operand('-', d);
    assert(t + seq!['.', '-'] + d =~= t + seq!['.'] + (seq!['-'] + d));
    law_statement_line(t, seq!['-'] + d, c, labels);
    lemma_not_a_verb(t);
    reveal_strlit("-");
    assert(("-"@ + d).drop_first() =~= d);
    lemma_bound_literal(c, t, "-"@ + d);
}

/// `x.+N`, `x.*y` and the like modify a declared variable in place; the
/// part after the sign may be a number within the `i64` range (not zero
/// after `/` or `%`) or a declared variable; nothing is declared.
pub proof fn law_modify_in_place(t: Seq<char>, sign: char, rhs: Seq<char>, c: CtxView, labels: Seq<Seq<char>>)
    requires
        ident(t),
        !reserved(t),
        c.declared.contains(t),
        sign == '+' || sign == '-' || sign == '*' || sign == '/' || sign == '%',
        (uint(rhs) && digits_value(rhs) <= i64_max()) || (ident(rhs) && c.declared.contains(rhs)),
        (sign == '/' || sign == '%') && uint(rhs) ==> digits_value(rhs) != 0,
    ensures
        translated(t + seq!['.', sign] + rhs, c, labels) == (
            Ok::<Seq<char>, Seq<char>>(
                "    "@ + t + " = "@ + t + " "@ + seq![sign] + " "@ + rhs + ";"@,
            ),
            c,
        ),
{
    if uint(rhs) {
        lemma_uint_plain(rhs);
    } else {
        lemma_ident_plain(rhs);
    }
    lemma_signed_operand(sign, rhs);
    assert(t + seq!['.', sign] + rhs =~= t + seq!['.'] + (seq![sign] + rhs));
    law_statement_line(t, seq![sign] + rhs, c, labels);
    lemma_not_a_verb(t);
}

/// Dividing by zero, or taking a remainder by it, however many zeros are
/// written, is rejected before anything is built, whether the variable
/// exists or not.
pub proof fn law_division_by_zero(t: Seq<char>, sign: char, zero: Seq<char>, c: CtxView, labels: Seq<Seq<char>>)
    requires
        ident(t),
        !reserved(t),
        sign == '/' || sign == '%',
        uint(zero),
        digits_value(zero) == 0,
    ensures
        translated(t + seq!['.', sign] + zero, c, labels) == (
            Err::<Seq<char>, Seq<char>>("division by zero ("@ + seq![sign] + zero + ")"@),
            c,
        ),
{
    lemma_uint_plain(zero);
    lemma_signed_operand(sign, zero);
    assert(t + seq!['.', sign] + zero =~= t + seq!['.'] + (seq![sign] + zero));
    law_statement_line(t, seq![sign] + zero, c, labels);
    lemma_not_a_verb(t);
}

/// `j.name` moves the machine to a defined label and is rejected for any
/// other name.
pub proof fn law_jump(name: Seq<char>, c: CtxView, labels: Seq<Seq<char>>)
    requires
        ident(name),
    ensures
        translated("j"@ + seq!['.'] + name, c, labels) == (if labels.contains(name) {
            (Ok::<Seq<char>, Seq<char>>("    __pc = \""@ + name + "\";\n    continue '__run;"@), c)
        } else {
            (Err::<Seq<char>, Seq<char>>(unknown_label(name)), c)
        }),
{
    reveal_strlit("j");
    reveal_strlit("log");
    reveal_strlit("in");
    reveal_strlit("ask");
    reveal_strlit("rnd");
    reveal_strlit("cls");
    reveal_strlit("w");
    reveal_strlit("q");
    lemma_ident_plain(name);
    assert(ident("j"@));
    law_statement_line("j"@, name, c, labels);
}

/// `q.` ends the program: a `return` in linear mode, a `break` out of the
/// machine in machine mode.
pub proof fn law_quit(c: CtxView, labels: Seq<Seq<char>>)
    ensures
        translated("q"@ + seq!['.'], c, labels) == (
            Ok::<Seq<char>, Seq<char>>(if c.machine { "    break '__run;"@ } else { "    return;"@ }),
            c,
        ),
{
    reveal_strlit("q");
    reveal_strlit("log");
    reveal_strlit("in");
    reveal_strlit("ask");
    reveal_strlit("rnd");
    reveal_strlit("cls");
    reveal_strlit("w");
    assert(ident("q"@));
    assert("q"@ + seq!['.'] =~= "q"@ + seq!['.'] + Seq::<char>::empty());
    law_statement_line("q"@, seq![], c, labels);
}

/// `log.x` prints a declared variable and is rejected for an undeclared one.
pub proof fn law_log_variable(name: Seq<char>, c: CtxView, labels: Seq<Seq<char>>)
    requires
        ident(name),
    ensures
        translated("log"@ + seq!['.'] + name, c, labels) == (if c.declared.contains(name) {
            (Ok::<Seq<char>, Seq<char>>("    println!(\"{}\", "@ + name + ");"@), c)
        } else {
            (Err::<Seq<char>, Seq<char>>(unknown_variable(name)), c)
        }),
{
    reveal_strlit("log");
    lemma_ident_plain(name);
    assert(ident("log"@));
    law_statement_line("log"@, name, c, labels);
    assert(name[0] != '"');
}

/// A blank line, or one that is only a comment, translates to nothing and
/// changes nothing.
pub proof fn law_blank_or_comment(raw: Seq<char>, c: CtxView, labels: Seq<Seq<char>>)
    requires
        trim(raw).len() == 0 || trim(raw)[0] == '#',
    ensures
        translated(raw, c, labels) == (Ok::<Seq<char>, Seq<char>>(seq![]), c),
{
    let s = trim(raw);
    if s.len() > 0 {
        assert(comment_at(s, 0, false) == 0);
    }
    assert(without_comment(s).len() == 0);
}

// ---------------------------------------------------------------- escaping

/// Escaping works character by character: the escape of two texts one
/// after the other is their escapes one after the other.
pub proof fn law_escape_concat(a: Seq<char>, b: Seq<char>)
    ensures
        escape(a + b) == escape(a) + escape(b),
    decreases b.len(),
{
    if b.len() == 0 {
        assert(a + b =~= a);
        assert(escape(a) + escape(b) =~= escape(a));
    } else {
        law_escape_concat(a, b.drop_last());
        assert((a + b).drop_last() =~= a + b.drop_last());
        assert((a + b).last() == b.last());
        assert(escape(a + b) =~= escape(a) + escape(b));
    }
}

/// A backslash and a quote are escaped with a backslash, and a brace is
/// doubled, so that the printed text shows each of them once.
pub proof fn law_escape_specials()
    ensures
        escape(seq!['\\']) == seq!['\\', '\\'],
        escape(seq!['"']) == seq!['\\', '"'],
        escape(seq!['{']) == seq!['{', '{'],
        escape(seq!['}']) == seq!['}', '}'],
{
    lemma_escape_one('\\');
    lemma_escape_one('"');
    lemma_escape_one('{');
    lemma_escape_one('}');
}

proof fn lemma_escape_one(c: char)
    ensures
        escape(seq![c]) == escape_char(c),
{
    assert(seq![c].drop_last() =~= Seq::<char>::empty());
    assert(seq![c].last() == c);
    assert(escape(Seq::<char>::empty()) + escape_char(c) =~= escape_char(c));
}

/// Text without backslashes, quotes or braces is printed as it stands.
pub proof fn law_escape_plain(s: Seq<char>)
    requires
        forall|i: int| 0 <= i < s.len() ==> #[trigger] s[i] != '\\' && s[i] != '"' && s[i] != '{' && s[i] != '}',
    ensures
        escape(s) == s,
    decreases s.len(),
{
    if s.len() > 0 {
        law_escape_plain(s.drop_last());
        assert(s[s.len() - 1] == s.last());
        assert(escape(s) =~= s);
    }
}

// ---------------------------------------------------------------- programs

/// `e` is a diagnostic about one of the first `n_lines` lines.
pub open spec fn is_diagnostic(e: Seq<char>, n_lines: nat) -> bool {
    exists|n: nat, m: Seq<char>| 1 <= n <= n_lines && e == line_no(n) + m
}

proof fn lemma_scan_diagnostics(st: Seq<(nat, Seq<char>)>, n_lines: nat)
    requires
        forall|i: int| 0 <= i < st.len() ==> 1 <= #[trigger] st[i].0 <= n_lines,
    ensures
        forall|i: int| 0 <= i < scan(st).errors.len() ==> is_diagnostic(#[trigger] scan(st).errors[i], n_lines),
    decreases st.len(),
{
    if st.len() > 0 {
        let prev = st.drop_last();
        assert forall|i: int| 0 <= i < prev.len() implies 1 <= #[trigger] prev[i].0 <= n_lines by {
            assert(prev[i] == st[i]);
        }
        lemma_scan_diagnostics(prev, n_lines);
        let acc = scan(prev);
        let last = st.last();
        assert(1 <= last.0 <= n_lines);
        let line = trim(last.1);
        let errs = scan(st).errors;
        assert forall|i: int| 0 <= i < errs.len() implies is_diagnostic(#[trigger] errs[i], n_lines) by {
            if i < acc.errors.len() {
                assert(errs[i] == acc.errors[i]);
            } else {
                let name = line.drop_first();
                if !ident(name) {
                    assert(errs[i] == line_no(last.0) + ("bad label '"@ + line + "'"@));
                } else {
                    assert(errs[i] == line_no(last.0) + ("duplicate label '"@ + name + "'"@));
                }
            }
        }
    }
}

proof fn lemma_build_diagnostics(st: Seq<(nat, Seq<char>)>, labels: Seq<Seq<char>>, machine: bool, n_lines: nat)
    requires
        forall|i: int| 0 <= i < st.len() ==> 1 <= #[trigger] st[i].0 <= n_lines,
    ensures
        forall|i: int|
            0 <= i < build(st, labels, machine).errors.len() ==> is_diagnostic(#[trigger] build(st, labels, machine).errors[i], n_lines),
    decreases st.len(),
{
    if st.len() > 0 {
        let prev = st.drop_last();
        assert forall|i: int| 0 <= i < prev.len() implies 1 <= #[trigger] prev[i].0 <= n_lines by {
            assert(prev[i] == st[i]);
        }
        lemma_build_diagnostics(prev, labels, machine, n_lines);
        let b = build(prev, labels, machine);
        let last = st.last();
        assert(1 <= last.0 <= n_lines);
        let errs = build(st, labels, machine).errors;
        assert forall|i: int| 0 <= i < errs.len() implies is_diagnostic(#[trigger] errs[i], n_lines) by {
            if i < b.errors.len() {
                assert(errs[i] == b.errors[i]);
            } else {
                let r = translated(last.1, b.ctx, labels).0;
                assert(errs[i] == line_no(last.0) + r->Err_0);
            }
        }
    }
}

/// Errors are caught before anything is built: a program that is rejected
/// gets at least one diagnostic, and each is `line N: ...` for a line `N`
/// of the source.
pub proof fn law_diagnostics(source: Seq<char>)
    ensures
        compiled(source) is Err ==> compiled(source)->Err_0.len() > 0,
        compiled(source) is Err ==> forall|i: int|
            0 <= i < compiled(source)->Err_0.len() ==> is_diagnostic(
                #[trigger] compiled(source)->Err_0[i],
                lines(source).len(),
            ),
{
    let st = statements(source);
    law_statement_numbers(source);
    lemma_scan_diagnostics(st, lines(source).len());
    let one = scan(st);
    let machine = one.has_flow || one.labels.len() > 0;
    lemma_build_diagnostics(st, one.labels, machine, lines(source).len());
}

/// The state after translating a program: in its mode, with each variable
/// declared once, hoisted once in machine mode and never in linear mode.
pub proof fn law_build_state(st: Seq<(nat, Seq<char>)>, labels: Seq<Seq<char>>, machine: bool)
    ensures
        build(st, labels, machine).ctx.machine == machine,
        well_formed(build(st, labels, machine).ctx),
    decreases st.len(),
{
    if st.len() == 0 {
        let c = build(st, labels, machine).ctx;
        assert(c.declared.no_duplicates());
    } else {
        law_build_state(st.drop_last(), labels, machine);
        let b = build(st.drop_last(), labels, machine);
        law_translate_state(st.last().1, b.ctx, labels);
    }
}

/// The label a statement `:name` defines, if it defines one.
pub open spec fn defines_label(text: Seq<char>) -> Option<Seq<char>> {
    let line = trim(text);
    if line.len() > 0 && line[0] == ':' && ident(line.drop_first()) {
        Some(line.drop_first())
    } else {
        None
    }
}

/// Every well-named label of a program is known after the first pass, so
/// the second pass finds a segment for each.
pub proof fn law_labels_defined(st: Seq<(nat, Seq<char>)>)
    ensures
        forall|i: int|
            0 <= i < st.len() && #[trigger] defines_label(st[i].1) is Some ==> scan(st).labels.contains(
                defines_label(st[i].1)->0,
            ),
    decreases st.len(),
{
    if st.len() > 0 {
        let prev = st.drop_last();
        law_labels_defined(prev);
        let before = scan(prev).labels;
        let after = scan(st).labels;
        assert forall|x: Seq<char>| before.contains(x) implies after.contains(x) by {
            let k = choose|k: int| 0 <= k < before.len() && before[k] == x;
            if after != before {
                assert(after[k] == before[k]);
            }
        }
        assert forall|i: int|
            0 <= i < st.len() && #[trigger] defines_label(st[i].1) is Some implies after.contains(
                defines_label(st[i].1)->0,
            ) by {
            if i < prev.len() {
                assert(prev[i] == st[i]);
            } else {
                let name = defines_label(st[i].1)->0;
                if !before.contains(name) {
                    assert(after.last() == name);
                }
            }
        }
    }
}

/// What translating statements one after another, with one state, gives:
/// the code of those accepted (each non-empty one followed by a newline),
/// the state afterwards, and a `line N: ` diagnostic for each one rejected.
/// Label lines (`:name`) are skipped.
pub struct Run {
    pub body: Seq<char>,
    pub ctx: CtxView,
    pub errors: Seq<Seq<char>>,
}

/// Whether a statement is a label line.
pub open spec fn label_line(text: Seq<char>) -> bool {
    trim(text).len() > 0 && trim(text)[0] == ':'
}

/// The statements translated in order from the state `c0`.
pub open spec fn run(st: Seq<(nat, Seq<char>)>, labels: Seq<Seq<char>>, c0: CtxView) -> Run
    decreases st.len(),
{
    if st.len() == 0 {
        Run { body: seq![], ctx: c0, errors: seq![] }
    } else {
        let r = run(st.drop_last(), labels, c0);
        let last = st.last();
        if label_line(last.1) {
            r
        } else {
            let (res, c2) = translated(last.1, r.ctx, labels);
            match res {
                Ok(code) => Run {
                    body: r.body + if code.len() > 0 { code + seq!['\n'] } else { seq![] },
                    ctx: c2,
                    ..r
                },
                Err(m) => Run { ctx: c2, errors: r.errors.push(line_no(last.0) + m), ..r },
            }
        }
    }
}

/// A fresh state in the given mode.
pub open spec fn fresh(machine: bool) -> CtxView {
    CtxView { declared: seq![], machine, hoisted: seq![] }
}

proof fn lemma_build_run(st: Seq<(nat, Seq<char>)>, labels: Seq<Seq<char>>, machine: bool)
    ensures
        build(st, labels, machine).ctx == run(st, labels, fresh(machine)).ctx,
        build(st, labels, machine).errors == run(st, labels, fresh(machine)).errors,
    decreases st.len(),
{
    if st.len() > 0 {
        lemma_build_run(st.drop_last(), labels, machine);
    }
}

/// Which diagnostics a program gets: if any label is badly named or
/// defined twice, those label diagnostics alone, in order; otherwise the
/// program is rejected exactly when some statement, translated in order
/// with one state, is rejected, and then with a `line N: ` diagnostic for
/// each such statement, in order.
pub proof fn law_reported_errors(source: Seq<char>)
    ensures
        scan(statements(source)).errors.len() > 0 ==> compiled(source) == Err::<Seq<char>, Seq<Seq<char>>>(
            scan(statements(source)).errors,
        ),
        ({
            let one = scan(statements(source));
            let machine = one.has_flow || one.labels.len() > 0;
            let r = run(statements(source), one.labels, fresh(machine));
            one.errors.len() == 0 ==> (compiled(source) is Err <==> r.errors.len() > 0) && (
            r.errors.len() > 0 ==> compiled(source) == Err::<Seq<char>, Seq<Seq<char>>>(r.errors))
        }),
{
    let one = scan(statements(source));
    let machine = one.has_flow || one.labels.len() > 0;
    lemma_build_run(statements(source), one.labels, machine);
}

/// Whether a statement is a jump (`j.` or a conditional jump).
pub open spec fn jump_line(text: Seq<char>) -> bool {
    match split_once(trim(text), '.') {
        Some((verb, _)) => jump_verb(verb),
        None => false,
    }
}

proof fn lemma_scan_plain(st: Seq<(nat, Seq<char>)>)
    requires
        forall|i: int| 0 <= i < st.len() ==> !label_line(#[trigger] st[i].1) && !jump_line(st[i].1),
    ensures
        scan(st) == (Scan { labels: seq![], has_flow: false, errors: seq![] }),
    decreases st.len(),
{
    if st.len() > 0 {
        assert forall|i: int| 0 <= i < st.drop_last().len() implies !label_line(#[trigger] st.drop_last()[i].1) && !jump_line(st.drop_last()[i].1) by {
            assert(st.drop_last()[i] == st[i]);
        }
        lemma_scan_plain(st.drop_last());
        assert(st.last() == st[st.len() - 1]);
    }
}

proof fn lemma_build_linear(st: Seq<(nat, Seq<char>)>)
    requires
        forall|i: int| 0 <= i < st.len() ==> !label_line(#[trigger] st[i].1),
    ensures
        build(st, seq![], false).segments.len() == 1,
        build(st, seq![], false).current == 0,
        lines_block(build(st, seq![], false).segments[0]) == run(st, seq![], fresh(false)).body,
    decreases st.len(),
{
    if st.len() == 0 {
        let segs = build(st, seq![], false).segments;
        assert(segs[0].len() == 0);
    } else {
        assert forall|i: int| 0 <= i < st.drop_last().len() implies !label_line(#[trigger] st.drop_last()[i].1) by {
            assert(st.drop_last()[i] == st[i]);
        }
        lemma_build_linear(st.drop_last());
        lemma_build_run(st.drop_last(), seq![], false);
        assert(st.last() == st[st.len() - 1]);
        let b = build(st.drop_last(), seq![], false);
        let seg = b.segments[0];
        let (res, c2) = translated(st.last().1, b.ctx, seq![]);
        match res {
            Ok(code) => {
                if code.len() > 0 {
                    let seg2 = seg.push(code);
                    assert(build(st, seq![], false).segments[0] == seg2);
                    assert(seg2.drop_last() =~= seg);
                    assert(lines_block(seg2) =~= lines_block(seg) + (code + seq!['\n']));
                } else {
                    assert(lines_block(seg) =~= lines_block(seg) + Seq::<char>::empty());
                }
            },
            Err(_) => {},
        }
    }
}

/// Without labels or jumps a program is translated flat: the body is the
/// code of its statements, in order, translated with one state from a
/// fresh linear one, each followed by a newline; it is rejected exactly
/// when one of them is.
pub proof fn law_linear_program(source: Seq<char>)
    requires
        forall|i: int|
            0 <= i < statements(source).len() ==> !label_line(#[trigger] statements(source)[i].1)
                && !jump_line(statements(source)[i].1),
    ensures
        compiled(source) == (if run(statements(source), seq![], fresh(false)).errors.len() == 0 {
            Ok::<Seq<char>, Seq<Seq<char>>>(run(statements(source), seq![], fresh(false)).body)
        } else {
            Err::<Seq<char>, Seq<Seq<char>>>(run(statements(source), seq![], fresh(false)).errors)
        }),
{
    let st = statements(source);
    lemma_scan_plain(st);
    lemma_build_run(st, seq![], false);
    lemma_build_linear(st);
    let segs = build(st, seq![], false).segments;
    assert(segs.drop_last().len() == 0);
    assert(linear_body(segs) == linear_body(segs.drop_last()) + lines_block(segs[0]));
    assert(linear_body(segs) =~= lines_block(segs[0]));
}

} // verus!
