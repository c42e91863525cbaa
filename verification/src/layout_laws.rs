//! Properties of how a program's text is cut into statements: comments,
//! `;` separators, line numbers and indentation.
use vstd::prelude::*;
use crate::text::{comment_at, without_comment, lines, find, strip_cr, lemma_find_from};
use crate::compile::{
    pieces_from, line_pieces, statements_from, statements, spaces, indent_line, join_lines, indented,
};

verus! {

/// The number of `"` in `s`.
pub open spec fn quotes(s: Seq<char>) -> nat
    decreases s.len(),
{
    if s.len() == 0 {
        0
    } else {
        quotes(s.drop_last()) + if s.last() == '"' { 1nat } else { 0nat }
    }
}

/// Whether position `j` of `s` lies inside a string literal: an odd number
/// of `"` come before it.
pub open spec fn quoted_at(s: Seq<char>, j: int) -> bool {
    quotes(s.take(j)) % 2 == 1
}

proof fn lemma_quotes_step(s: Seq<char>, i: int)
    requires
        0 <= i < s.len(),
    ensures
        quotes(s.take(i + 1)) == quotes(s.take(i)) + if s[i] == '"' { 1nat } else { 0nat },
{
    assert(s.take(i + 1).drop_last() =~= s.take(i));
}

proof fn lemma_comment_scan(s: Seq<char>, i: nat, in_string: bool)
    requires
        i <= s.len(),
        in_string == quoted_at(s, i as int),
    ensures
        i <= comment_at(s, i, in_string) <= s.len(),
        comment_at(s, i, in_string) < s.len() ==> s[comment_at(s, i, in_string) as int] == '#'
            && !quoted_at(s, comment_at(s, i, in_string) as int),
        forall|j: int|
            i <= j < comment_at(s, i, in_string) && #[trigger] s[j] == '#' ==> quoted_at(s, j),
    decreases s.len() - i,
{
    if i < s.len() {
        lemma_quotes_step(s, i as int);
        let c = s[i as int];
        if c == '"' {
            lemma_comment_scan(s, i + 1, !in_string);
        } else if c == '#' && !in_string {
        } else {
            lemma_comment_scan(s, i + 1, in_string);
        }
    }
}

/// Removing a comment keeps the line up to its first `#` that stands
/// outside a string literal, or the whole line when there is none; doing
/// it again changes nothing.
pub proof fn law_comment_cut(s: Seq<char>)
    ensures
        comment_at(s, 0, false) <= s.len(),
        without_comment(s) == s.subrange(0, comment_at(s, 0, false) as int),
        comment_at(s, 0, false) < s.len() ==> s[comment_at(s, 0, false) as int] == '#' && !quoted_at(
            s,
            comment_at(s, 0, false) as int,
        ),
        forall|j: int| 0 <= j < comment_at(s, 0, false) && #[trigger] s[j] == '#' ==> quoted_at(s, j),
        without_comment(without_comment(s)) == without_comment(s),
{
    assert(s.take(0) =~= Seq::<char>::empty());
    lemma_comment_scan(s, 0, false);
    let k = comment_at(s, 0, false);
    let t = s.subrange(0, k as int);
    assert(t.take(0) =~= Seq::<char>::empty());
    lemma_comment_scan(t, 0, false);
    let r = comment_at(t, 0, false);
    if r < t.len() {
        assert(t.take(r as int) =~= s.take(r as int));
        assert(t[r as int] == s[r as int]);
        assert(false);
    }
    assert(t.subrange(0, r as int) =~= t);
}

// ---------------------------------------------------------------- statements of a line

/// Statements joined again with `;` between them.
pub open spec fn join_semi(ps: Seq<Seq<char>>) -> Seq<char>
    decreases ps.len(),
{
    if ps.len() == 0 {
        seq![]
    } else if ps.len() == 1 {
        ps[0]
    } else {
        ps[0] + seq![';'] + join_semi(ps.drop_first())
    }
}

/// Every `;` and `#` of `p` stands inside a string literal of `p`, and `p`
/// holds no line break.
pub open spec fn separators_quoted(p: Seq<char>) -> bool {
    forall|q: int|
        0 <= q < p.len() ==> (#[trigger] p[q] == ';' || p[q] == '#' ==> quoted_at(p, q)) && p[q]
            != '\n'
}

/// The number of `;` before position `n` of `s` that stand outside string
/// literals.
pub open spec fn unquoted_semis(s: Seq<char>, n: int) -> nat
    decreases n,
{
    if n <= 0 {
        0
    } else {
        unquoted_semis(s, n - 1) + if s[n - 1] == ';' && !quoted_at(s, n - 1) {
            1nat
        } else {
            0nat
        }
    }
}

pub proof fn lemma_pieces_nonempty(s: Seq<char>, i: nat, cur: Seq<char>, in_string: bool)
    ensures
        pieces_from(s, i, cur, in_string).len() >= 1,
    decreases s.len() - i,
{
    if i < s.len() {
        lemma_pieces_nonempty(s, i + 1, cur.push(s[i as int]), !in_string);
        lemma_pieces_nonempty(s, i + 1, cur.push(s[i as int]), in_string);
        lemma_pieces_nonempty(s, i + 1, seq![], in_string);
    }
}

proof fn lemma_pieces_join(s: Seq<char>, i: nat, cur: Seq<char>, in_string: bool)
    requires
        i <= s.len(),
    ensures
        i <= comment_at(s, i, in_string) <= s.len(),
        join_semi(pieces_from(s, i, cur, in_string)) == cur + s.subrange(
            i as int,
            comment_at(s, i, in_string) as int,
        ),
    decreases s.len() - i,
{
    if i == s.len() {
        assert(cur + s.subrange(i as int, i as int) =~= cur);
    } else {
        let c = s[i as int];
        let k = comment_at(s, i, in_string);
        if c == '"' {
            lemma_pieces_join(s, i + 1, cur.push(c), !in_string);
            assert(cur.push(c) + s.subrange(i + 1int, k as int) =~= cur + s.subrange(i as int, k as int));
        } else if c == '#' && !in_string {
            assert(cur + s.subrange(i as int, i as int) =~= cur);
        } else if c == ';' && !in_string {
            lemma_pieces_join(s, i + 1, seq![], in_string);
            lemma_pieces_nonempty(s, i + 1, seq![], in_string);
            let ps = seq![cur] + pieces_from(s, i + 1, seq![], in_string);
            assert(ps.drop_first() =~= pieces_from(s, i + 1, seq![], in_string));
            assert(Seq::<char>::empty() + s.subrange(i + 1int, k as int) =~= s.subrange(i + 1int, k as int));
            assert(cur + seq![';'] + s.subrange(i + 1int, k as int) =~= cur + s.subrange(i as int, k as int));
        } else {
            lemma_pieces_join(s, i + 1, cur.push(c), in_string);
            assert(cur.push(c) + s.subrange(i + 1int, k as int) =~= cur + s.subrange(i as int, k as int));
        }
    }
}

proof fn lemma_push_quoted(cur: Seq<char>, c: char)
    requires
        separators_quoted(cur),
        c == ';' || c == '#' ==> quotes(cur) % 2 == 1,
        c != '\n',
    ensures
        separators_quoted(cur.push(c)),
        quotes(cur.push(c)) == quotes(cur) + if c == '"' { 1nat } else { 0nat },
{
    let p = cur.push(c);
    assert(p.drop_last() =~= cur);
    assert forall|q: int| 0 <= q < p.len() implies (#[trigger] p[q] == ';' || p[q] == '#' ==> quoted_at(p, q)) && p[q] != '\n' by {
        if q < cur.len() {
            assert(p.take(q) =~= cur.take(q));
            assert(p[q] == cur[q]);
        } else {
            assert(p.take(q) =~= cur);
        }
    }
}

proof fn lemma_pieces_quoted(s: Seq<char>, i: nat, cur: Seq<char>, in_string: bool)
    requires
        i <= s.len(),
        forall|j: int| 0 <= j < s.len() ==> #[trigger] s[j] != '\n',
        separators_quoted(cur),
        in_string == (quotes(cur) % 2 == 1),
    ensures
        forall|k: int|
            0 <= k < pieces_from(s, i, cur, in_string).len() ==> separators_quoted(
                #[trigger] pieces_from(s, i, cur, in_string)[k],
            ),
    decreases s.len() - i,
{
    if i >= s.len() {
        assert(pieces_from(s, i, cur, in_string) =~= seq![cur]);
    } else {
        let c = s[i as int];
        if c == '"' {
            lemma_push_quoted(cur, c);
            assert(!in_string == (quotes(cur.push(c)) % 2 == 1));
            lemma_pieces_quoted(s, i + 1, cur.push(c), !in_string);
            assert(pieces_from(s, i, cur, in_string) == pieces_from(s, i + 1, cur.push(c), !in_string));
        } else if c == '#' && !in_string {
            assert(pieces_from(s, i, cur, in_string) =~= seq![cur]);
        } else if c == ';' && !in_string {
            let e = Seq::<char>::empty();
            assert(quotes(e) == 0);
            lemma_pieces_quoted(s, i + 1, e, in_string);
            let rest = pieces_from(s, i + 1, e, in_string);
            assert forall|k: int| 0 <= k < (seq![cur] + rest).len() implies separators_quoted(#[trigger] (seq![cur] + rest)[k]) by {
                if k > 0 {
                    assert((seq![cur] + rest)[k] == rest[k - 1]);
                }
            }
        } else {
            lemma_push_quoted(cur, c);
            lemma_pieces_quoted(s, i + 1, cur.push(c), in_string);
            assert(pieces_from(s, i, cur, in_string) == pieces_from(s, i + 1, cur.push(c), in_string));
        }
    }
}

proof fn lemma_pieces_count(s: Seq<char>, i: nat, cur: Seq<char>, in_string: bool)
    requires
        i <= s.len(),
        in_string == quoted_at(s, i as int),
    ensures
        pieces_from(s, i, cur, in_string).len() + unquoted_semis(s, i as int) == 1 + unquoted_semis(
            s,
            comment_at(s, i, in_string) as int,
        ),
    decreases s.len() - i,
{
    if i < s.len() {
        lemma_quotes_step(s, i as int);
        let c = s[i as int];
        assert(unquoted_semis(s, i + 1int) == unquoted_semis(s, i as int) + if c == ';'
            && !quoted_at(s, i as int) {
            1nat
        } else {
            0nat
        });
        if c == '"' {
            lemma_pieces_count(s, i + 1, cur.push(c), !in_string);
        } else if c == '#' && !in_string {
        } else if c == ';' && !in_string {
            lemma_pieces_count(s, i + 1, seq![], in_string);
        } else {
            lemma_pieces_count(s, i + 1, cur.push(c), in_string);
        }
    }
}

/// The statements of one line, joined again with `;`, give the line
/// without its comment; there is one more statement than there are `;`
/// outside string literals before the comment; and within a statement
/// every `;` or `#` is string content.
pub proof fn law_line_pieces(line: Seq<char>)
    ensures
        join_semi(line_pieces(line)) == without_comment(line),
        line_pieces(line).len() == 1 + unquoted_semis(line, comment_at(line, 0, false) as int),
        (forall|j: int| 0 <= j < line.len() ==> #[trigger] line[j] != '\n') ==> forall|k: int|
            0 <= k < line_pieces(line).len() ==> separators_quoted(#[trigger] line_pieces(line)[k]),
{
    let e = Seq::<char>::empty();
    lemma_pieces_join(line, 0, e, false);
    assert(e + line.subrange(0, comment_at(line, 0, false) as int) =~= without_comment(line));
    assert(line.take(0) =~= e);
    assert(quotes(e) == 0);
    lemma_pieces_count(line, 0, e, false);
    if forall|j: int| 0 <= j < line.len() ==> #[trigger] line[j] != '\n' {
        lemma_pieces_quoted(line, 0, e, false);
    }
}

// ---------------------------------------------------------------- numbering

/// The texts of the statements numbered `n`, in order.
pub open spec fn texts_numbered(st: Seq<(nat, Seq<char>)>, n: nat) -> Seq<Seq<char>>
    decreases st.len(),
{
    if st.len() == 0 {
        seq![]
    } else {
        texts_numbered(st.drop_last(), n) + if st.last().0 == n {
            seq![st.last().1]
        } else {
            seq![]
        }
    }
}

proof fn lemma_numbered_concat(a: Seq<(nat, Seq<char>)>, b: Seq<(nat, Seq<char>)>, n: nat)
    ensures
        texts_numbered(a + b, n) == texts_numbered(a, n) + texts_numbered(b, n),
    decreases b.len(),
{
    if b.len() == 0 {
        assert(a + b =~= a);
        assert(texts_numbered(a, n) + texts_numbered(b, n) =~= texts_numbered(a, n));
    } else {
        lemma_numbered_concat(a, b.drop_last(), n);
        assert((a + b).drop_last() =~= a + b.drop_last());
        assert((a + b).last() == b.last());
        assert(texts_numbered(a + b, n) =~= texts_numbered(a, n) + texts_numbered(b, n));
    }
}

proof fn lemma_numbered_one_line(ps: Seq<Seq<char>>, m: nat, n: nat)
    ensures
        texts_numbered(ps.map_values(|p: Seq<char>| (m, p)), n) == if m == n {
            ps
        } else {
            seq![]
        },
    decreases ps.len(),
{
    let st = ps.map_values(|p: Seq<char>| (m, p));
    if ps.len() > 0 {
        lemma_numbered_one_line(ps.drop_last(), m, n);
        assert(st.drop_last() =~= ps.drop_last().map_values(|p: Seq<char>| (m, p)));
        if m == n {
            assert(texts_numbered(st, n) =~= ps);
        } else {
            assert(texts_numbered(st, n) =~= Seq::<Seq<char>>::empty());
        }
    }
}

proof fn lemma_numbered_none(st: Seq<(nat, Seq<char>)>, n: nat)
    requires
        forall|i: int| 0 <= i < st.len() ==> #[trigger] st[i].0 != n,
    ensures
        texts_numbered(st, n) == Seq::<Seq<char>>::empty(),
    decreases st.len(),
{
    if st.len() > 0 {
        assert(st.last() == st[st.len() - 1]);
        assert forall|i: int| 0 <= i < st.drop_last().len() implies #[trigger] st.drop_last()[i].0 != n by {
            assert(st.drop_last()[i] == st[i]);
        }
        lemma_numbered_none(st.drop_last(), n);
    }
}

proof fn lemma_numbers_from(ls: Seq<Seq<char>>, k: nat)
    ensures
        statements_from(ls, k).len() >= ls.len() - k,
        forall|i: int|
            0 <= i < statements_from(ls, k).len() ==> k + 1 <= #[trigger] statements_from(ls, k)[i].0 <= ls.len(),
        forall|i: int, j: int|
            0 <= i < j < statements_from(ls, k).len() ==> #[trigger] statements_from(ls, k)[i].0 <= #[trigger] statements_from(ls, k)[j].0,
    decreases ls.len() - k,
{
    if k < ls.len() {
        lemma_numbers_from(ls, k + 1);
        lemma_pieces_nonempty(ls[k as int], 0, seq![], false);
        let p = line_pieces(ls[k as int]).map_values(|q: Seq<char>| ((k + 1) as nat, q));
        let rest = statements_from(ls, k + 1);
        let all = statements_from(ls, k);
        assert(all == p + rest);
        assert forall|i: int| 0 <= i < all.len() implies k + 1 <= #[trigger] all[i].0 <= ls.len() by {
            if i < p.len() {
                assert(all[i] == p[i]);
            } else {
                assert(all[i] == rest[i - p.len()]);
            }
        }
        assert forall|i: int, j: int| 0 <= i < j < all.len() implies #[trigger] all[i].0 <= #[trigger] all[j].0 by {
            if j < p.len() {
                assert(all[i] == p[i]);
                assert(all[j] == p[j]);
            } else if i < p.len() {
                assert(all[i] == p[i]);
                assert(all[j] == rest[j - p.len()]);
            } else {
                assert(all[i] == rest[i - p.len()]);
                assert(all[j] == rest[j - p.len()]);
            }
        }
    }
}

/// Diagnostics stay honest: every statement carries the number of a real
/// source line, numbers never go down, and every line gives at least one
/// statement.
pub proof fn law_statement_numbers(source: Seq<char>)
    ensures
        statements(source).len() >= lines(source).len(),
        forall|i: int|
            0 <= i < statements(source).len() ==> 1 <= #[trigger] statements(source)[i].0 <= lines(source).len(),
        forall|i: int, j: int|
            0 <= i < j < statements(source).len() ==> #[trigger] statements(source)[i].0 <= #[trigger] statements(source)[j].0,
{
    lemma_numbers_from(lines(source), 0);
}

proof fn lemma_numbered_from(ls: Seq<Seq<char>>, k: nat, n: nat)
    ensures
        texts_numbered(statements_from(ls, k), n) == if k < n <= ls.len() {
            line_pieces(ls[n - 1])
        } else {
            seq![]
        },
    decreases ls.len() - k,
{
    if k >= ls.len() {
    } else {
        let p = line_pieces(ls[k as int]).map_values(|q: Seq<char>| ((k + 1) as nat, q));
        let rest = statements_from(ls, k + 1);
        lemma_numbered_concat(p, rest, n);
        lemma_numbered_one_line(line_pieces(ls[k as int]), (k + 1) as nat, n);
        if n == k + 1 {
            lemma_numbers_from(ls, k + 1);
            lemma_numbered_none(rest, n);
            assert(texts_numbered(statements_from(ls, k), n) =~= line_pieces(ls[n - 1]));
        } else {
            lemma_numbered_from(ls, k + 1, n);
            assert(texts_numbered(statements_from(ls, k), n) =~= texts_numbered(rest, n));
        }
    }
}

proof fn lemma_lines_no_break(s: Seq<char>)
    ensures
        forall|i: int, j: int|
            0 <= i < lines(s).len() && 0 <= j < lines(s)[i].len() ==> #[trigger] lines(s)[i][j] != '\n',
    decreases s.len(),
{
    if s.len() > 0 {
        lemma_find_from(s, '\n', 0);
        let k = find(s, '\n');
        if k >= 0 && k < s.len() {
            let rest = s.subrange(k + 1, s.len() as int);
            lemma_lines_no_break(rest);
            let first = strip_cr(s.subrange(0, k));
            assert forall|i: int, j: int| 0 <= i < lines(s).len() && 0 <= j < lines(s)[i].len() implies #[trigger] lines(s)[i][j] != '\n' by {
                if i == 0 {
                    assert(lines(s)[0] == first);
                    assert(first[j] == s[j]);
                } else {
                    assert(lines(s)[i] == lines(rest)[i - 1]);
                }
            }
        }
    }
}

/// For each line of a program, its statements (those numbered with it),
/// joined again with `;`, give the line without its comment; there is one
/// statement more than there are `;` outside string literals before the
/// comment; and within a statement every `;` and `#` is string content and
/// no line break occurs.
pub proof fn law_statements_by_line(source: Seq<char>, n: nat)
    requires
        1 <= n <= lines(source).len(),
    ensures
        texts_numbered(statements(source), n) == line_pieces(lines(source)[n - 1]),
        join_semi(texts_numbered(statements(source), n)) == without_comment(lines(source)[n - 1]),
        texts_numbered(statements(source), n).len() == 1 + unquoted_semis(
            lines(source)[n - 1],
            comment_at(lines(source)[n - 1], 0, false) as int,
        ),
        forall|k: int|
            0 <= k < texts_numbered(statements(source), n).len() ==> separators_quoted(
                #[trigger] texts_numbered(statements(source), n)[k],
            ),
{
    lemma_numbered_from(lines(source), 0, n);
    let line = lines(source)[n - 1];
    lemma_lines_no_break(source);
    assert forall|j: int| 0 <= j < line.len() implies #[trigger] line[j] != '\n' by {
        assert(lines(source)[n - 1][j] != '\n');
    }
    law_line_pieces(line);
}

// ---------------------------------------------------------------- indentation

/// Text that `lines` splits and `join_lines` puts back unchanged: no
/// carriage return, and no line break at the end.
pub open spec fn simple_block(s: Seq<char>) -> bool {
    (forall|j: int| 0 <= j < s.len() ==> #[trigger] s[j] != '\r') && (s.len() == 0 || s.last() != '\n')
}

pub proof fn lemma_join_front(x: Seq<char>, ls: Seq<Seq<char>>)
    ensures
        join_lines(seq![x] + ls) == if ls.len() == 0 { x } else { x + seq!['\n'] + join_lines(ls) },
    decreases ls.len(),
{
    let all = seq![x] + ls;
    if ls.len() == 0 {
        assert(all =~= seq![x]);
    } else if ls.len() == 1 {
        assert(all.drop_last() =~= seq![x]);
        assert(all.last() == ls[0]);
        assert(join_lines(seq![x]) == x);
        assert(join_lines(ls) == ls[0]);
        assert(join_lines(all) == join_lines(all.drop_last()) + seq!['\n'] + all.last());
    } else {
        lemma_join_front(x, ls.drop_last());
        assert(all.drop_last() =~= seq![x] + ls.drop_last());
        assert(all.last() == ls.last());
        assert(join_lines(all) == join_lines(all.drop_last()) + seq!['\n'] + all.last());
        assert(join_lines(ls) == join_lines(ls.drop_last()) + seq!['\n'] + ls.last());
        assert(join_lines(all) =~= x + seq!['\n'] + join_lines(ls));
    }
}

proof fn lemma_lines_join(ls: Seq<Seq<char>>)
    requires
        forall|i: int, j: int|
            0 <= i < ls.len() && 0 <= j < ls[i].len() ==> #[trigger] ls[i][j] != '\n' && ls[i][j] != '\r',
        ls.len() > 0 ==> ls.last().len() > 0,
    ensures
        lines(join_lines(ls)) == ls,
    decreases ls.len(),
{
    if ls.len() > 0 {
        let x = ls[0];
        let rest = ls.drop_first();
        assert(ls =~= seq![x] + rest);
        lemma_join_front(x, rest);
        let s = join_lines(ls);
        if rest.len() == 0 {
            assert(s == x);
            lemma_find_from(x, '\n', 0);
            if find(x, '\n') >= 0 {
                assert(x[find(x, '\n')] == ls[0][find(x, '\n')]);
            }
            assert(lines(s) =~= ls);
        } else {
            assert forall|i: int, j: int| 0 <= i < rest.len() && 0 <= j < rest[i].len() implies #[trigger] rest[i][j] != '\n' && rest[i][j] != '\r' by {
                assert(rest[i] == ls[i + 1]);
            }
            lemma_lines_join(rest);
            let k = x.len() as int;
            assert(s == x + seq!['\n'] + join_lines(rest));
            assert forall|j: int| 0 <= j < k implies s[j] != '\n' by {
                assert(s[j] == x[j]);
                assert(x[j] == ls[0][j]);
            }
            crate::laws::lemma_find_at(s, '\n', 0, k as nat);
            assert(s.subrange(0, k) =~= x);
            assert(s.subrange(k + 1, s.len() as int) =~= join_lines(rest));
            if x.len() > 0 {
                assert(x.last() == ls[0][x.len() - 1]);
            }
            assert(strip_cr(x) == x);
            assert(lines(s) =~= seq![x] + rest);
        }
    }
}

proof fn lemma_join_lines_of(s: Seq<char>)
    requires
        simple_block(s),
    ensures
        join_lines(lines(s)) == s,
        s.len() > 0 ==> lines(s).len() > 0 && lines(s).last().len() > 0,
        forall|i: int, j: int|
            0 <= i < lines(s).len() && 0 <= j < lines(s)[i].len() ==> #[trigger] lines(s)[i][j] != '\n' && lines(s)[i][j] != '\r',
    decreases s.len(),
{
    lemma_lines_no_break(s);
    if s.len() > 0 {
        lemma_find_from(s, '\n', 0);
        let k = find(s, '\n');
        if k < 0 || k >= s.len() {
            assert(lines(s) =~= seq![s]);
            assert(join_lines(seq![s]) == s);
            assert forall|i: int, j: int| 0 <= i < lines(s).len() && 0 <= j < lines(s)[i].len() implies #[trigger] lines(s)[i][j] != '\n' && lines(s)[i][j] != '\r' by {
                assert(lines(s)[i] == s);
            }
        } else {
            let pre = s.subrange(0, k);
            let rest = s.subrange(k + 1, s.len() as int);
            assert(k < s.len() - 1);
            assert(rest.last() == s.last());
            assert forall|j: int| 0 <= j < rest.len() implies #[trigger] rest[j] != '\r' by {
                assert(rest[j] == s[k + 1 + j]);
            }
            lemma_join_lines_of(rest);
            if pre.len() > 0 {
                assert(pre.last() == s[k - 1]);
            }
            assert(strip_cr(pre) == pre);
            assert(lines(s) == seq![pre] + lines(rest));
            lemma_join_front(pre, lines(rest));
            assert(pre + seq!['\n'] + rest =~= s);
            assert(lines(s).last() == lines(rest).last());
            assert forall|i: int, j: int| 0 <= i < lines(s).len() && 0 <= j < lines(s)[i].len() implies #[trigger] lines(s)[i][j] != '\n' && lines(s)[i][j] != '\r' by {
                if i == 0 {
                    assert(lines(s)[0] == pre);
                    assert(pre[j] == s[j]);
                } else {
                    assert(lines(s)[i] == lines(rest)[i - 1]);
                }
            }
        }
    }
}

/// Indenting by nothing leaves a block as it is, and indenting twice is
/// indenting once by the sum, for a block without carriage returns that
/// does not end in a line break.
pub proof fn law_indent(code: Seq<char>, a: nat, b: nat)
    requires
        simple_block(code),
    ensures
        indented(code, 0) == code,
        indented(indented(code, a), b) == indented(code, a + b),
{
    lemma_join_lines_of(code);
    let ls = lines(code);
    let zero = ls.map_values(|l: Seq<char>| indent_line(l, 0));
    assert forall|i: int| 0 <= i < ls.len() implies zero[i] == ls[i] by {
        assert(spaces(0) + ls[i] =~= ls[i]);
    }
    assert(zero =~= ls);
    let m = ls.map_values(|l: Seq<char>| indent_line(l, a));
    assert forall|i: int, j: int| 0 <= i < m.len() && 0 <= j < m[i].len() implies #[trigger] m[i][j] != '\n' && m[i][j] != '\r' by {
        if ls[i].len() > 0 && j < a {
            assert(m[i][j] == ' ');
        } else if ls[i].len() > 0 {
            assert(m[i][j] == ls[i][j - a]);
        } else {
            assert(m[i][j] == ls[i][j]);
        }
    }
    if m.len() > 0 {
        assert(m.last() == indent_line(ls.last(), a));
    }
    lemma_lines_join(m);
    let twice = m.map_values(|l: Seq<char>| indent_line(l, b));
    let once = ls.map_values(|l: Seq<char>| indent_line(l, a + b));
    assert forall|i: int| 0 <= i < ls.len() implies twice[i] == once[i] by {
        if ls[i].len() > 0 {
            assert(spaces(b) + (spaces(a) + ls[i]) =~= spaces(a + b) + ls[i]);
        }
    }
    assert(twice =~= once);
}

} // verus!
