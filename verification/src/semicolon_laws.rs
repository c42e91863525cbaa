//! Writing statements on separate lines or joining them with `;` gives
//! the same program.
use vstd::prelude::*;
use crate::text::{lines, find, strip_cr, lemma_find_from, trim};
use crate::compile::{
    pieces_from, line_pieces, statements_from, statements, join_lines, scan, build, compiled,
    line_no,
};
use crate::layout_laws::{quotes, join_semi};
use crate::translate::translated;

verus! {

/// A statement that can stand on a line of its own or between `;`: no
/// line break, carriage return, `;` or `#`, and an even number of `"`.
pub open spec fn joinable(s: Seq<char>) -> bool {
    &&& forall|j: int|
        0 <= j < s.len() ==> #[trigger] s[j] != '\n' && s[j] != '\r' && s[j] != ';' && s[j] != '#'
    &&& quotes(s) % 2 == 0
}

proof fn lemma_lines_of_join(ls: Seq<Seq<char>>)
    requires
        forall|i: int| 0 <= i < ls.len() ==> joinable(#[trigger] ls[i]),
    ensures
        lines(join_lines(ls)) == if ls.len() > 0 && ls.last().len() == 0 {
            ls.drop_last()
        } else {
            ls
        },
    decreases ls.len(),
{
    if ls.len() > 0 {
        let x = ls[0];
        assert(joinable(x));
        let rest = ls.drop_first();
        assert(ls =~= seq![x] + rest);
        crate::layout_laws::lemma_join_front(x, rest);
        let s = join_lines(ls);
        if rest.len() == 0 {
            assert(s == x);
            lemma_find_from(x, '\n', 0);
            if x.len() == 0 {
                assert(ls.drop_last() =~= Seq::<Seq<char>>::empty());
            } else {
                if find(x, '\n') >= 0 {
                    assert(x[find(x, '\n')] == '\n');
                }
                assert(lines(s) =~= ls);
            }
        } else {
            assert forall|i: int| 0 <= i < rest.len() implies joinable(#[trigger] rest[i]) by {
                assert(rest[i] == ls[i + 1]);
            }
            lemma_lines_of_join(rest);
            let k = x.len() as int;
            assert forall|j: int| 0 <= j < k implies s[j] != '\n' by {
                assert(s[j] == x[j]);
            }
            crate::laws::lemma_find_at(s, '\n', 0, k as nat);
            assert(s.subrange(0, k) =~= x);
            assert(s.subrange(k + 1, s.len() as int) =~= join_lines(rest));
            if x.len() > 0 {
                assert(x.last() == x[x.len() - 1]);
            }
            assert(strip_cr(x) == x);
            assert(ls.last() == rest.last());
            if rest.last().len() == 0 {
                assert(ls.drop_last() =~= seq![x] + rest.drop_last());
            }
            assert(lines(s) =~= seq![x] + lines(join_lines(rest)));
        }
    }
}

proof fn lemma_quotes_concat(a: Seq<char>, b: Seq<char>)
    ensures
        quotes(a + b) == quotes(a) + quotes(b),
    decreases b.len(),
{
    if b.len() == 0 {
        assert(a + b =~= a);
    } else {
        lemma_quotes_concat(a, b.drop_last());
        assert((a + b).drop_last() =~= a + b.drop_last());
        assert((a + b).last() == b.last());
    }
}

proof fn lemma_pieces_run(s: Seq<char>, i: nat, j: nat, cur: Seq<char>, b: bool)
    requires
        i <= j <= s.len(),
        forall|k: int| i <= k < j ==> #[trigger] s[k] != ';' && s[k] != '#',
    ensures
        pieces_from(s, i, cur, b) == pieces_from(
            s,
            j,
            cur + s.subrange(i as int, j as int),
            b != (quotes(s.subrange(i as int, j as int)) % 2 == 1),
        ),
    decreases j - i,
{
    if i == j {
        assert(cur + s.subrange(i as int, j as int) =~= cur);
        assert(quotes(s.subrange(i as int, j as int)) == 0);
    } else {
        let c = s[i as int];
        let b2 = if c == '"' { !b } else { b };
        assert(pieces_from(s, i, cur, b) == pieces_from(s, i + 1, cur.push(c), b2));
        lemma_pieces_run(s, i + 1, j, cur.push(c), b2);
        assert(cur.push(c) + s.subrange(i + 1int, j as int) =~= cur + s.subrange(i as int, j as int));
        assert(s.subrange(i as int, j as int) =~= seq![c] + s.subrange(i + 1int, j as int));
        lemma_quotes_concat(seq![c], s.subrange(i + 1int, j as int));
        assert(seq![c].drop_last() =~= Seq::<char>::empty());
        assert(seq![c].last() == c);
        assert(quotes(Seq::<char>::empty()) == 0);
        assert(quotes(seq![c]) == if c == '"' { 1nat } else { 0nat });
    }
}

proof fn lemma_pieces_suffix(s: Seq<char>, i: nat, j: nat, cur: Seq<char>, b: bool)
    requires
        i <= s.len(),
    ensures
        pieces_from(s, i + j, cur, b) == pieces_from(s.subrange(i as int, s.len() as int), j, cur, b),
    decreases s.len() - (i + j),
{
    let t = s.subrange(i as int, s.len() as int);
    if i + j < s.len() {
        let c = s[(i + j) as int];
        assert(t[j as int] == c);
        lemma_pieces_suffix(s, i, j + 1, cur.push(c), !b);
        lemma_pieces_suffix(s, i, j + 1, cur.push(c), b);
        lemma_pieces_suffix(s, i, j + 1, seq![], b);
    }
}

proof fn lemma_pieces_of_join(ps: Seq<Seq<char>>)
    requires
        ps.len() > 0,
        forall|i: int| 0 <= i < ps.len() ==> joinable(#[trigger] ps[i]),
    ensures
        line_pieces(join_semi(ps)) == ps,
    decreases ps.len(),
{
    let x = ps[0];
    assert(joinable(x));
    let s = join_semi(ps);
    let n = x.len();
    let e = Seq::<char>::empty();
    if ps.len() == 1 {
        assert(s == x);
        lemma_pieces_run(s, 0, n, e, false);
        assert(s.subrange(0, n as int) =~= x);
        assert(e + x =~= x);
        assert(line_pieces(s) =~= ps);
    } else {
        let rest = ps.drop_first();
        assert forall|i: int| 0 <= i < rest.len() implies joinable(#[trigger] rest[i]) by {
            assert(rest[i] == ps[i + 1]);
        }
        lemma_pieces_of_join(rest);
        assert(s == x + seq![';'] + join_semi(rest));
        assert forall|k: int| 0 <= k < n implies #[trigger] s[k] != ';' && s[k] != '#' by {
            assert(s[k] == x[k]);
        }
        lemma_pieces_run(s, 0, n, e, false);
        assert(s.subrange(0, n as int) =~= x);
        assert(e + x =~= x);
        assert(s[n as int] == ';');
        lemma_pieces_suffix(s, n + 1, 0, e, false);
        assert(s.subrange(n + 1int, s.len() as int) =~= join_semi(rest));
        assert(line_pieces(s) =~= seq![x] + rest);
        assert(seq![x] + rest =~= ps);
    }
}

proof fn lemma_pieces_of_plain(x: Seq<char>)
    requires
        joinable(x),
    ensures
        line_pieces(x) == seq![x],
{
    let e = Seq::<char>::empty();
    lemma_pieces_run(x, 0, x.len(), e, false);
    assert(x.subrange(0, x.len() as int) =~= x);
    assert(e + x =~= x);
}

/// The texts of numbered statements.
pub open spec fn texts_of(st: Seq<(nat, Seq<char>)>) -> Seq<Seq<char>> {
    st.map_values(|e: (nat, Seq<char>)| e.1)
}

proof fn lemma_statements_plain(ls: Seq<Seq<char>>, k: nat)
    requires
        k <= ls.len(),
        forall|i: int| 0 <= i < ls.len() ==> joinable(#[trigger] ls[i]),
    ensures
        texts_of(statements_from(ls, k)) == ls.subrange(k as int, ls.len() as int),
    decreases ls.len() - k,
{
    if k < ls.len() {
        lemma_statements_plain(ls, k + 1);
        lemma_pieces_of_plain(ls[k as int]);
        let p = line_pieces(ls[k as int]).map_values(|q: Seq<char>| ((k + 1) as nat, q));
        assert(texts_of(p + statements_from(ls, k + 1)) =~= seq![ls[k as int]] + ls.subrange(
            k + 1int,
            ls.len() as int,
        ));
        assert(ls.subrange(k as int, ls.len() as int) =~= seq![ls[k as int]] + ls.subrange(
            k + 1int,
            ls.len() as int,
        ));
    } else {
        assert(texts_of(statements_from(ls, k)) =~= Seq::<Seq<char>>::empty());
    }
}

proof fn lemma_statements_of_join(ss: Seq<Seq<char>>)
    requires
        forall|i: int| 0 <= i < ss.len() ==> joinable(#[trigger] ss[i]),
    ensures
        texts_of(statements(join_lines(ss))) == if ss.len() > 0 && ss.last().len() == 0 {
            ss.drop_last()
        } else {
            ss
        },
        texts_of(statements(join_semi(ss))) == if join_semi(ss).len() == 0 {
            seq![]
        } else {
            ss
        },
{
    lemma_lines_of_join(ss);
    let ls = lines(join_lines(ss));
    assert forall|i: int| 0 <= i < ls.len() implies joinable(#[trigger] ls[i]) by {
        assert(ls[i] == ss[i]);
    }
    lemma_statements_plain(ls, 0);
    assert(ls.subrange(0, ls.len() as int) =~= ls);
    let b = join_semi(ss);
    if b.len() > 0 {
        assert(ss.len() > 0);
        lemma_semi_no_break(ss);
        lemma_find_from(b, '\n', 0);
        if find(b, '\n') >= 0 {
            assert(b[find(b, '\n')] == '\n');
        }
        assert(lines(b) =~= seq![b]);
        lemma_pieces_of_join(ss);
        assert(statements(b) =~= line_pieces(b).map_values(|q: Seq<char>| (1nat, q)) + statements_from(lines(b), 1));
        assert(texts_of(statements(b)) =~= ss);
    } else {
        assert(lines(b) =~= Seq::<Seq<char>>::empty());
        assert(texts_of(statements(b)) =~= Seq::<Seq<char>>::empty());
    }
}

proof fn lemma_semi_no_break(ss: Seq<Seq<char>>)
    requires
        forall|i: int| 0 <= i < ss.len() ==> joinable(#[trigger] ss[i]),
    ensures
        forall|j: int| 0 <= j < join_semi(ss).len() ==> #[trigger] join_semi(ss)[j] != '\n',
    decreases ss.len(),
{
    if ss.len() > 1 {
        let rest = ss.drop_first();
        assert forall|i: int| 0 <= i < rest.len() implies joinable(#[trigger] rest[i]) by {
            assert(rest[i] == ss[i + 1]);
        }
        lemma_semi_no_break(rest);
        let x = ss[0];
        assert(joinable(x));
        let b = join_semi(ss);
        assert forall|j: int| 0 <= j < b.len() implies #[trigger] b[j] != '\n' by {
            if j < x.len() {
                assert(b[j] == x[j]);
            } else if j > x.len() {
                assert(b[j] == join_semi(rest)[j - x.len() - 1]);
            }
        }
    } else if ss.len() == 1 {
        assert(joinable(ss[0]));
    }
}

// ---------------------------------------------------------------- programs

/// Two lists of diagnostics that say the same, statement for statement,
/// apart from the line numbers they name.
pub open spec fn same_diagnostics(e1: Seq<Seq<char>>, e2: Seq<Seq<char>>) -> bool {
    &&& e1.len() == e2.len()
    &&& forall|i: int| 0 <= i < e1.len() ==> same_message(#[trigger] e1[i], e2[i])
}

/// Two diagnostics with the same message, about lines perhaps different.
pub open spec fn same_message(x: Seq<char>, y: Seq<char>) -> bool {
    exists|a: nat, b: nat, z: Seq<char>|
        #![trigger line_no(a) + z, line_no(b) + z]
        x == line_no(a) + z && y == line_no(b) + z
}

proof fn lemma_texts_drop_last(st1: Seq<(nat, Seq<char>)>, st2: Seq<(nat, Seq<char>)>)
    requires
        texts_of(st1) == texts_of(st2),
        st1.len() > 0,
    ensures
        st1.len() == st2.len(),
        texts_of(st1.drop_last()) == texts_of(st2.drop_last()),
        st1.last().1 == st2.last().1,
{
    assert(texts_of(st1).len() == st1.len());
    assert(texts_of(st2).len() == st2.len());
    assert(texts_of(st1)[st1.len() - 1] == texts_of(st2)[st2.len() - 1]);
    assert(texts_of(st1.drop_last()) =~= texts_of(st1).drop_last());
    assert(texts_of(st2.drop_last()) =~= texts_of(st2).drop_last());
}

proof fn lemma_same_after_push(e1: Seq<Seq<char>>, e2: Seq<Seq<char>>, n1: nat, n2: nat, m: Seq<char>)
    requires
        same_diagnostics(e1, e2),
    ensures
        same_diagnostics(e1.push(line_no(n1) + m), e2.push(line_no(n2) + m)),
{
    let f1 = e1.push(line_no(n1) + m);
    let f2 = e2.push(line_no(n2) + m);
    assert forall|i: int| 0 <= i < f1.len() implies same_message(#[trigger] f1[i], f2[i]) by {
        if i < e1.len() {
            assert(f1[i] == e1[i]);
            assert(f2[i] == e2[i]);
        } else {
            lemma_witness(f1[i], f2[i], n1, n2, m);
        }
    }
}

proof fn lemma_scan_same(st1: Seq<(nat, Seq<char>)>, st2: Seq<(nat, Seq<char>)>)
    requires
        texts_of(st1) == texts_of(st2),
    ensures
        scan(st1).labels == scan(st2).labels,
        scan(st1).has_flow == scan(st2).has_flow,
        same_diagnostics(scan(st1).errors, scan(st2).errors),
    decreases st1.len(),
{
    if st1.len() == 0 {
        assert(texts_of(st2).len() == 0);
    } else {
        lemma_texts_drop_last(st1, st2);
        lemma_scan_same(st1.drop_last(), st2.drop_last());
        let a1 = scan(st1.drop_last());
        let a2 = scan(st2.drop_last());
        let line = trim(st1.last().1);
        if line.len() > 0 && line[0] == ':' {
            let name = line.drop_first();
            if !crate::text::ident(name) {
                lemma_same_after_push(a1.errors, a2.errors, st1.last().0, st2.last().0, "bad label '"@ + line + "'"@);
            } else if a1.labels.contains(name) {
                lemma_same_after_push(a1.errors, a2.errors, st1.last().0, st2.last().0, "duplicate label '"@ + name + "'"@);
            }
        }
    }
}

proof fn lemma_build_same(st1: Seq<(nat, Seq<char>)>, st2: Seq<(nat, Seq<char>)>, labels: Seq<Seq<char>>, machine: bool)
    requires
        texts_of(st1) == texts_of(st2),
    ensures
        build(st1, labels, machine).current == build(st2, labels, machine).current,
        build(st1, labels, machine).ctx == build(st2, labels, machine).ctx,
        build(st1, labels, machine).segments == build(st2, labels, machine).segments,
        same_diagnostics(build(st1, labels, machine).errors, build(st2, labels, machine).errors),
    decreases st1.len(),
{
    if st1.len() == 0 {
        assert(texts_of(st2).len() == 0);
    } else {
        lemma_texts_drop_last(st1, st2);
        lemma_build_same(st1.drop_last(), st2.drop_last(), labels, machine);
        let b1 = build(st1.drop_last(), labels, machine);
        let b2 = build(st2.drop_last(), labels, machine);
        let text = st1.last().1;
        let trimmed = trim(text);
        if !(trimmed.len() > 0 && trimmed[0] == ':') {
            match translated(text, b1.ctx, labels).0 {
                Err(m) => lemma_same_after_push(b1.errors, b2.errors, st1.last().0, st2.last().0, m),
                Ok(_) => {},
            }
        }
    }
}

proof fn lemma_blank_last(st: Seq<(nat, Seq<char>)>, labels: Seq<Seq<char>>, machine: bool)
    requires
        st.len() > 0,
        st.last().1.len() == 0,
    ensures
        scan(st) == scan(st.drop_last()),
        build(st, labels, machine) == build(st.drop_last(), labels, machine),
{
    let e = st.last().1;
    assert(trim(e).len() == 0);
    crate::laws::law_blank_or_comment(e, build(st.drop_last(), labels, machine).ctx, labels);
    assert(crate::text::find(trim(e), '.') == -1);
}

proof fn lemma_witness(x: Seq<char>, y: Seq<char>, n1: nat, n2: nat, m: Seq<char>)
    requires
        x == line_no(n1) + m,
        y == line_no(n2) + m,
    ensures
        same_message(x, y),
{
    assert(x == line_no(n1) + m && y == line_no(n2) + m);
}

proof fn lemma_same_diagnostics_refl(e: Seq<Seq<char>>, n_lines: nat)
    requires
        forall|i: int| 0 <= i < e.len() ==> crate::laws::is_diagnostic(#[trigger] e[i], n_lines),
    ensures
        same_diagnostics(e, e),
{
    assert forall|i: int| 0 <= i < e.len() implies same_message(#[trigger] e[i], e[i]) by {
        assert(crate::laws::is_diagnostic(e[i], n_lines));
        let (n, m) = choose|n: nat, m: Seq<char>| 1 <= n <= n_lines && e[i] == line_no(n) + m;
        lemma_witness(e[i], e[i], n, n, m);
    }
}

proof fn lemma_compiled_same(s1: Seq<char>, s2: Seq<char>, st2: Seq<(nat, Seq<char>)>)
    requires
        st2 == statements(s2),
        texts_of(statements(s1)) == texts_of(st2) || (st2.len() > 0 && st2.last().1.len() == 0
            && texts_of(statements(s1)) == texts_of(st2.drop_last())),
    ensures
        compiled(s1) is Ok <==> compiled(s2) is Ok,
        compiled(s1) is Ok ==> compiled(s1) == compiled(s2),
        compiled(s1) is Err ==> same_diagnostics(compiled(s1)->Err_0, compiled(s2)->Err_0),
{
    let st1 = statements(s1);
    let other = if texts_of(st1) == texts_of(st2) { st2 } else { st2.drop_last() };
    lemma_scan_same(st1, other);
    let one = scan(st1);
    let machine = one.has_flow || one.labels.len() > 0;
    lemma_build_same(st1, other, one.labels, machine);
    if texts_of(st1) != texts_of(st2) {
        lemma_blank_last(st2, one.labels, machine);
    }
}

/// Statements written one per line, or joined on one line with `;`, make
/// the same program: both are accepted with the same body, or both are
/// rejected with diagnostics that say the same, one for one, apart from
/// their line numbers.
pub proof fn law_lines_or_semicolons(ss: Seq<Seq<char>>)
    requires
        forall|i: int| 0 <= i < ss.len() ==> joinable(#[trigger] ss[i]),
    ensures
        compiled(join_lines(ss)) is Ok <==> compiled(join_semi(ss)) is Ok,
        compiled(join_lines(ss)) is Ok ==> compiled(join_lines(ss)) == compiled(join_semi(ss)),
        compiled(join_lines(ss)) is Err ==> same_diagnostics(
            compiled(join_lines(ss))->Err_0,
            compiled(join_semi(ss))->Err_0,
        ),
{
    lemma_statements_of_join(ss);
    let a = join_lines(ss);
    let b = join_semi(ss);
    let stb = statements(b);
    if b.len() == 0 {
        if ss.len() > 1 {
            assert(b == ss[0] + seq![';'] + join_semi(ss.drop_first()));
            assert(b.len() > 0);
        }
        if ss.len() == 1 {
            assert(a == ss[0]);
        }
        assert(a == b);
        crate::laws::law_diagnostics(a);
        if compiled(a) is Err {
            lemma_same_diagnostics_refl(compiled(a)->Err_0, lines(a).len());
        }
    } else if ss.len() > 0 && ss.last().len() == 0 {
        assert(texts_of(stb).len() == stb.len());
        assert(stb.last().1 == texts_of(stb)[stb.len() - 1]);
        assert(texts_of(stb.drop_last()) =~= texts_of(stb).drop_last());
        lemma_compiled_same(a, b, stb);
    } else {
        lemma_compiled_same(a, b, stb);
    }
}

} // verus!
