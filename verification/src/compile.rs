//! A whole terra program to the body of a Rust `main`, or its diagnostics.
use vstd::prelude::*;
use crate::ctx::{Ctx, CtxView};
use crate::text::{
    texts, ident, lines, trim, trim_end, split_once, decimal, ends_with, is_ident,
    text_of, slice, copy, join3, push_all, push_str, lines_of, trim_text, trim_end_text,
    split_once_char, decimal_text, ends_with_text, text_is, string_of, text_eq,
    contains_name,
};
use crate::translate::{jump_verb, translated, is_jump_verb, translate_text};

verus! {

// ---------------------------------------------------------------- statements

/// The statements of one physical line: split at `;` outside string
/// literals, and cut at a `#` outside string literals; scanning from `i`
/// with `cur` collected so far.
pub open spec fn pieces_from(s: Seq<char>, i: nat, cur: Seq<char>, in_string: bool) -> Seq<Seq<char>>
    decreases s.len() - i,
{
    if i >= s.len() {
        seq![cur]
    } else {
        let c = s[i as int];
        if c == '"' {
            pieces_from(s, i + 1, cur.push(c), !in_string)
        } else if c == '#' && !in_string {
            seq![cur]
        } else if c == ';' && !in_string {
            seq![cur] + pieces_from(s, i + 1, seq![], in_string)
        } else {
            pieces_from(s, i + 1, cur.push(c), in_string)
        }
    }
}

/// The statements of one physical line.
pub open spec fn line_pieces(line: Seq<char>) -> Seq<Seq<char>> {
    pieces_from(line, 0, seq![], false)
}

/// The statements of the lines from the `k`-th on, each with its line number.
pub open spec fn statements_from(ls: Seq<Seq<char>>, k: nat) -> Seq<(nat, Seq<char>)>
    decreases ls.len() - k,
{
    if k >= ls.len() {
        seq![]
    } else {
        line_pieces(ls[k as int]).map_values(|p: Seq<char>| ((k + 1) as nat, p)) + statements_from(ls, k + 1)
    }
}

/// The statements of a program, each with its (1-based) source line number.
pub open spec fn statements(source: Seq<char>) -> Seq<(nat, Seq<char>)> {
    statements_from(lines(source), 0)
}

/// The views of numbered statements.
pub open spec fn numbered(v: Seq<(usize, Vec<char>)>) -> Seq<(nat, Seq<char>)> {
    v.map_values(|p: (usize, Vec<char>)| (p.0 as nat, p.1@))
}

/// The views of numbered statements given as strings.
pub open spec fn numbered_strings(v: Seq<(usize, String)>) -> Seq<(nat, Seq<char>)> {
    v.map_values(|p: (usize, String)| (p.0 as nat, p.1@))
}

/// The statements of one physical line.
pub fn split_line(line: &Vec<char>) -> (r: Vec<Vec<char>>)
    ensures
        texts(r@) == line_pieces(line@),
{
    let mut out: Vec<Vec<char>> = Vec::new();
    let mut current: Vec<char> = Vec::new();
    let mut in_string = false;
    let mut i: usize = 0;
    while i < line.len()
        invariant
            i <= line.len(),
            texts(out@) + pieces_from(line@, i as nat, current@, in_string) == line_pieces(line@),
        decreases line.len() - i,
    {
        let c = line[i];
        let ghost before = texts(out@);
        if c == '"' {
            in_string = !in_string;
            current.push(c);
        } else if c == '#' && !in_string {
            // rest of the physical line is a comment
            i = line.len();
            continue;
        } else if c == ';' && !in_string {
            let piece = copy(&current);
            out.push(piece);
            assert(texts(out@) =~= before + seq![piece@]);
            current = Vec::new();
            assert(current@ =~= Seq::<char>::empty());
        } else {
            current.push(c);
        }
        i = i + 1;
    }
    let ghost before = texts(out@);
    out.push(current);
    assert(texts(out@) =~= before + seq![out@.last()@]);
    out
}

/// The statements of a program (as characters) with their line numbers.
pub fn split_statements_text(source: &Vec<char>) -> (r: Vec<(usize, Vec<char>)>)
    ensures
        numbered(r@) == statements(source@),
{
    let ls = lines_of(source);
    let mut out: Vec<(usize, Vec<char>)> = Vec::new();
    let mut k: usize = 0;
    while k < ls.len()
        invariant
            k <= ls.len(),
            texts(ls@) == lines(source@),
            numbered(out@) + statements_from(texts(ls@), k as nat) == statements(source@),
        decreases ls.len() - k,
    {
        let pieces = split_line(&ls[k]);
        let ghost start = numbered(out@);
        let ghost want = line_pieces(texts(ls@)[k as int]).map_values(
            |p: Seq<char>| ((k + 1) as nat, p),
        );
        assert(texts(ls@)[k as int] == ls@[k as int]@);
        let mut j: usize = 0;
        while j < pieces.len()
            invariant
                j <= pieces.len(),
                k < ls.len(),
                texts(pieces@) == line_pieces(texts(ls@)[k as int]),
                want == line_pieces(texts(ls@)[k as int]).map_values(
                    |p: Seq<char>| ((k + 1) as nat, p),
                ),
                numbered(out@) == start + want.take(j as int),
            decreases pieces.len() - j,
        {
            let ghost prev = numbered(out@);
            let p = copy(&pieces[j]);
            assert(p@ == texts(pieces@)[j as int]);
            out.push((k + 1, p));
            assert(numbered(out@) =~= prev.push(((k + 1) as nat, p@)));
            j = j + 1;
            assert(want.take(j as int) =~= want.take(j - 1).push(((k + 1) as nat, p@)));
        }
        assert(want.take(j as int) =~= want);
        k = k + 1;
    }
    out
}

/// Statements are separated by newlines or by `;` (a `;` inside a string
/// literal is content); each comes with its source line number.
pub fn split_statements(source: &str) -> (r: Vec<(usize, String)>)
    ensures
        numbered_strings(r@) == statements(source@),
{
    let chars = text_of(source);
    let stmts = split_statements_text(&chars);
    let mut out: Vec<(usize, String)> = Vec::new();
    let mut i: usize = 0;
    while i < stmts.len()
        invariant
            i <= stmts.len(),
            numbered(stmts@) == statements(source@),
            numbered_strings(out@) == numbered(stmts@).take(i as int),
        decreases stmts.len() - i,
    {
        let ghost prev = numbered_strings(out@);
        let s = string_of(&stmts[i].1);
        out.push((stmts[i].0, s));
        assert(numbered_strings(out@) =~= prev.push(numbered(stmts@)[i as int]));
        i = i + 1;
        assert(numbered(stmts@).take(i as int) =~= numbered(stmts@).take(i - 1).push(
            numbered(stmts@)[i - 1],
        ));
    }
    assert(numbered(stmts@).take(stmts.len() as int) =~= numbered(stmts@));
    out
}

// ---------------------------------------------------------------- pass one

/// `line N: `, the start of a diagnostic.
pub open spec fn line_no(no: nat) -> Seq<char> {
    "line "@ + decimal(no) + ": "@
}

/// What the first pass learns: the labels in order of definition, whether
/// any jump occurs, and the label errors.
pub struct Scan {
    pub labels: Seq<Seq<char>>,
    pub has_flow: bool,
    pub errors: Seq<Seq<char>>,
}

/// The first pass over one statement.
pub open spec fn scan_step(acc: Scan, st: (nat, Seq<char>)) -> Scan {
    let line = trim(st.1);
    if line.len() > 0 && line[0] == ':' {
        let name = line.drop_first();
        if !ident(name) {
            Scan { errors: acc.errors.push(line_no(st.0) + ("bad label '"@ + line + "'"@)), ..acc }
        } else if acc.labels.contains(name) {
            Scan {
                errors: acc.errors.push(line_no(st.0) + ("duplicate label '"@ + name + "'"@)),
                ..acc
            }
        } else {
            Scan { labels: acc.labels.push(name), ..acc }
        }
    } else {
        match split_once(line, '.') {
            Some((verb, _)) => Scan { has_flow: acc.has_flow || jump_verb(verb), ..acc },
            None => acc,
        }
    }
}

/// The first pass over the statements.
pub open spec fn scan(st: Seq<(nat, Seq<char>)>) -> Scan
    decreases st.len(),
{
    if st.len() == 0 {
        Scan { labels: seq![], has_flow: false, errors: seq![] }
    } else {
        scan_step(scan(st.drop_last()), st.last())
    }
}

/// `line N: ` followed by `msg`.
fn diagnostic(no: usize, msg: &Vec<char>) -> (r: Vec<char>)
    ensures
        r@ == line_no(no as nat) + msg@,
{
    let digits = decimal_text(no);
    let mut r = join3("line ", &digits, ": ");
    push_all(&mut r, msg);
    r
}

/// Pass one: labels in order, duplicates and bad names, flow detection.
fn scan_labels(stmts: &Vec<(usize, Vec<char>)>) -> (r: (Vec<Vec<char>>, bool, Vec<Vec<char>>))
    ensures
        scan(numbered(stmts@)) == (Scan { labels: texts(r.0@), has_flow: r.1, errors: texts(r.2@) }),
{
    let mut labels: Vec<Vec<char>> = Vec::new();
    let mut has_flow = false;
    let mut errors: Vec<Vec<char>> = Vec::new();
    let mut i: usize = 0;
    assert(numbered(stmts@).take(0) =~= Seq::<(nat, Seq<char>)>::empty());
    assert(texts(errors@) =~= Seq::<Seq<char>>::empty());
    assert(texts(labels@) =~= Seq::<Seq<char>>::empty());
    while i < stmts.len()
        invariant
            i <= stmts.len(),
            scan(numbered(stmts@).take(i as int)) == (Scan {
                labels: texts(labels@),
                has_flow,
                errors: texts(errors@),
            }),
        decreases stmts.len() - i,
    {
        let ghost acc = Scan { labels: texts(labels@), has_flow, errors: texts(errors@) };
        let ghost st = numbered(stmts@)[i as int];
        assert(numbered(stmts@).take(i + 1).drop_last() =~= numbered(stmts@).take(i as int));
        assert(numbered(stmts@).take(i + 1).last() == st);
        let no = stmts[i].0;
        let line = trim_text(&stmts[i].1);
        assert(st.0 == no as nat && st.1 == stmts@[i as int].1@);
        if line.len() > 0 && line[0] == ':' {
            let name = slice(&line, 1, line.len());
            assert(name@ =~= line@.drop_first());
            if !is_ident(&name) {
                let m = join3("bad label '", &line, "'");
                let d = diagnostic(no, &m);
                errors.push(d);
                assert(texts(errors@) =~= acc.errors.push(d@));
            } else if contains_name(&labels, &name) {
                let m = join3("duplicate label '", &name, "'");
                let d = diagnostic(no, &m);
                errors.push(d);
                assert(texts(errors@) =~= acc.errors.push(d@));
            } else {
                labels.push(name);
                assert(texts(labels@) =~= acc.labels.push(name@));
            }
            assert(scan_step(acc, st) == (Scan { labels: texts(labels@), has_flow, errors: texts(errors@) }));
        } else {
            match split_once_char(&line, '.') {
                Some((verb, _)) => {
                    if is_jump_verb(&verb) {
                        has_flow = true;
                    }
                },
                None => {},
            }
            assert(scan_step(acc, st) == (Scan { labels: texts(labels@), has_flow, errors: texts(errors@) }));
        }
        i = i + 1;
    }
    assert(numbered(stmts@).take(stmts.len() as int) =~= numbered(stmts@));
    (labels, has_flow, errors)
}

// ---------------------------------------------------------------- pass two

/// Index of the first `name` in `names`, or `-1`.
pub open spec fn index_of(names: Seq<Seq<char>>, name: Seq<char>) -> int
    decreases names.len(),
{
    if names.len() == 0 {
        -1
    } else if index_of(names.drop_last(), name) >= 0 {
        index_of(names.drop_last(), name)
    } else if names.last() == name {
        names.len() - 1
    } else {
        -1
    }
}

pub proof fn lemma_index_of(names: Seq<Seq<char>>, name: Seq<char>)
    ensures
        -1 <= index_of(names, name) < names.len(),
        index_of(names, name) >= 0 ==> names[index_of(names, name)] == name,
        index_of(names, name) < 0 ==> !names.contains(name),
    decreases names.len(),
{
    if names.len() > 0 {
        lemma_index_of(names.drop_last(), name);
        if index_of(names, name) < 0 {
            assert forall|j: int| 0 <= j < names.len() implies names[j] != name by {
                if j < names.len() - 1 {
                    assert(names.drop_last()[j] == names[j]);
                }
            }
        }
    }
}

/// What the second pass builds: the segment being filled, the state, the
/// statements of each segment, and the diagnostics.
pub struct Build {
    pub current: nat,
    pub ctx: CtxView,
    pub segments: Seq<Seq<Seq<char>>>,
    pub errors: Seq<Seq<char>>,
}

/// The second pass over one statement: a label line selects its segment;
/// any other is translated, its code added to the current segment, its
/// error recorded with the line number.
pub open spec fn build_step(b: Build, st: (nat, Seq<char>), labels: Seq<Seq<char>>) -> Build {
    let trimmed = trim(st.1);
    if trimmed.len() > 0 && trimmed[0] == ':' {
        let name = trimmed.drop_first();
        if ident(name) && index_of(labels, name) >= 0 {
            Build { current: (index_of(labels, name) + 1) as nat, ..b }
        } else {
            b
        }
    } else {
        let (r, c2) = translated(st.1, b.ctx, labels);
        match r {
            Ok(code) => if code.len() > 0 {
                Build {
                    ctx: c2,
                    segments: b.segments.update(
                        b.current as int,
                        b.segments[b.current as int].push(code),
                    ),
                    ..b
                }
            } else {
                Build { ctx: c2, ..b }
            },
            Err(msg) => Build { ctx: c2, errors: b.errors.push(line_no(st.0) + msg), ..b },
        }
    }
}

/// The second pass over the statements.
pub open spec fn build(st: Seq<(nat, Seq<char>)>, labels: Seq<Seq<char>>, machine: bool) -> Build
    decreases st.len(),
{
    if st.len() == 0 {
        Build {
            current: 0,
            ctx: CtxView { declared: seq![], machine, hoisted: seq![] },
            segments: Seq::new(labels.len() + 1, |i: int| Seq::<Seq<char>>::empty()),
            errors: seq![],
        }
    } else {
        build_step(build(st.drop_last(), labels, machine), st.last(), labels)
    }
}

pub proof fn lemma_build_shape(st: Seq<(nat, Seq<char>)>, labels: Seq<Seq<char>>, machine: bool)
    ensures
        build(st, labels, machine).segments.len() == labels.len() + 1,
        build(st, labels, machine).current < labels.len() + 1,
    decreases st.len(),
{
    if st.len() > 0 {
        lemma_build_shape(st.drop_last(), labels, machine);
        let b = build(st.drop_last(), labels, machine);
        let trimmed = trim(st.last().1);
        if trimmed.len() > 0 && trimmed[0] == ':' {
            lemma_index_of(labels, trimmed.drop_first());
        }
    }
}

/// The views of the segments.
pub open spec fn segment_views(v: Seq<Vec<Vec<char>>>) -> Seq<Seq<Seq<char>>> {
    v.map_values(|s: Vec<Vec<char>>| texts(s@))
}

/// Position of `name` among `labels`.
fn label_index(labels: &Vec<Vec<char>>, name: &Vec<char>) -> (r: Option<usize>)
    ensures
        match r {
            Some(k) => index_of(texts(labels@), name@) == k && k < labels.len(),
            None => index_of(texts(labels@), name@) < 0,
        },
{
    proof {
        lemma_index_of(texts(labels@), name@);
    }
    let mut i: usize = 0;
    while i < labels.len()
        invariant
            i <= labels.len(),
            forall|j: int| 0 <= j < i ==> labels@[j]@ != name@,
            -1 <= index_of(texts(labels@), name@) < labels.len(),
            index_of(texts(labels@), name@) >= 0 ==> texts(labels@)[index_of(texts(labels@), name@)] == name@,
        decreases labels.len() - i,
    {
        if text_eq(&labels[i], name) {
            proof {
                lemma_index_first(texts(labels@), name@, i as int);
            }
            return Some(i);
        }
        i = i + 1;
    }
    proof {
        if index_of(texts(labels@), name@) >= 0 {
            assert(texts(labels@)[index_of(texts(labels@), name@)] == labels@[index_of(texts(labels@), name@)]@);
        }
    }
    None
}

proof fn lemma_index_first(names: Seq<Seq<char>>, name: Seq<char>, i: int)
    requires
        0 <= i < names.len(),
        names[i] == name,
        forall|j: int| 0 <= j < i ==> names[j] != name,
    ensures
        index_of(names, name) == i,
    decreases names.len(),
{
    if i < names.len() - 1 {
        lemma_index_first(names.drop_last(), name, i);
    } else {
        lemma_index_of(names.drop_last(), name);
    }
}

/// Pass two: every statement translated into the segment of the label
/// above it.
fn build_segments(stmts: &Vec<(usize, Vec<char>)>, labels: &Vec<Vec<char>>, machine: bool) -> (r: (Ctx, Vec<Vec<Vec<char>>>, Vec<Vec<char>>))
    ensures
        build(numbered(stmts@), texts(labels@), machine).ctx == r.0@,
        build(numbered(stmts@), texts(labels@), machine).segments == segment_views(r.1@),
        build(numbered(stmts@), texts(labels@), machine).errors == texts(r.2@),
{
    let ghost ls = texts(labels@);
    let mut segments: Vec<Vec<Vec<char>>> = Vec::new();
    segments.push(Vec::new());
    let mut n: usize = 0;
    while n < labels.len()
        invariant
            n <= labels.len(),
            segments@.len() == n + 1,
            forall|j: int| 0 <= j < segments@.len() ==> segments@[j]@.len() == 0,
        decreases labels.len() - n,
    {
        segments.push(Vec::new());
        n = n + 1;
    }
    assert(segment_views(segments@) =~= Seq::new(ls.len() + 1, |i: int| Seq::<Seq<char>>::empty())) by {
        assert forall|j: int| 0 <= j < segments@.len() implies segment_views(segments@)[j] =~= Seq::<Seq<char>>::empty() by {
            assert(segments@[j]@.len() == 0);
        }
    }
    let mut current: usize = 0;
    let mut ctx = Ctx::new(machine);
    let mut errors: Vec<Vec<char>> = Vec::new();
    let mut i: usize = 0;
    assert(numbered(stmts@).take(0) =~= Seq::<(nat, Seq<char>)>::empty());
    assert(texts(errors@) =~= Seq::<Seq<char>>::empty());
    while i < stmts.len()
        invariant
            i <= stmts.len(),
            ls == texts(labels@),
            segments@.len() == labels.len() + 1,
            current < segments@.len(),
            build(numbered(stmts@).take(i as int), ls, machine) == (Build {
                current: current as nat,
                ctx: ctx@,
                segments: segment_views(segments@),
                errors: texts(errors@),
            }),
        decreases stmts.len() - i,
    {
        let ghost b = Build {
            current: current as nat,
            ctx: ctx@,
            segments: segment_views(segments@),
            errors: texts(errors@),
        };
        let ghost st = numbered(stmts@)[i as int];
        assert(numbered(stmts@).take(i + 1).drop_last() =~= numbered(stmts@).take(i as int));
        assert(numbered(stmts@).take(i + 1).last() == st);
        let no = stmts[i].0;
        let text = &stmts[i].1;
        let trimmed = trim_text(text);
        if trimmed.len() > 0 && trimmed[0] == ':' {
            let name = slice(&trimmed, 1, trimmed.len());
            assert(name@ =~= trimmed@.drop_first());
            if is_ident(&name) {
                match label_index(labels, &name) {
                    Some(k) => {
                        current = k + 1;
                    },
                    None => {},
                }
            }
        } else {
            match translate_text(text, &mut ctx, labels) {
                Ok(code) => {
                    if code.len() != 0 {
                        let ghost seg = segment_views(segments@)[current as int];
                        segments[current].push(code);
                        assert(segment_views(segments@) =~= b.segments.update(
                            current as int,
                            seg.push(code@),
                        )) by {
                            assert(texts(segments@[current as int]@) =~= seg.push(code@));
                        }
                    }
                },
                Err(msg) => {
                    let d = diagnostic(no, &msg);
                    errors.push(d);
                    assert(texts(errors@) =~= b.errors.push(d@));
                },
            }
        }
        i = i + 1;
    }
    assert(numbered(stmts@).take(stmts.len() as int) =~= numbered(stmts@));
    (ctx, segments, errors)
}

// ---------------------------------------------------------------- assembly

/// Each text followed by a newline.
pub open spec fn lines_block(ls: Seq<Seq<char>>) -> Seq<char>
    decreases ls.len(),
{
    if ls.len() == 0 {
        seq![]
    } else {
        lines_block(ls.drop_last()) + ls.last() + seq!['\n']
    }
}

/// The statements of all segments in order, each followed by a newline.
pub open spec fn linear_body(segs: Seq<Seq<Seq<char>>>) -> Seq<char>
    decreases segs.len(),
{
    if segs.len() == 0 {
        seq![]
    } else {
        linear_body(segs.drop_last()) + lines_block(segs.last())
    }
}

pub open spec fn spaces(n: nat) -> Seq<char> {
    Seq::new(n, |i: int| ' ')
}

/// A line shifted right by `n` spaces, unless it is empty.
pub open spec fn indent_line(l: Seq<char>, n: nat) -> Seq<char> {
    if l.len() == 0 {
        l
    } else {
        spaces(n) + l
    }
}

/// Lines joined with newlines between them.
pub open spec fn join_lines(ls: Seq<Seq<char>>) -> Seq<char>
    decreases ls.len(),
{
    if ls.len() == 0 {
        seq![]
    } else if ls.len() == 1 {
        ls[0]
    } else {
        join_lines(ls.drop_last()) + seq!['\n'] + ls.last()
    }
}

/// A block of code with each non-empty line shifted right by `n` spaces.
pub open spec fn indented(code: Seq<char>, n: nat) -> Seq<char> {
    join_lines(lines(code).map_values(|l: Seq<char>| indent_line(l, n)))
}

/// The statements of a segment, indented to fit a match arm.
pub open spec fn indented_block(stmts: Seq<Seq<char>>) -> Seq<char>
    decreases stmts.len(),
{
    if stmts.len() == 0 {
        seq![]
    } else {
        indented_block(stmts.drop_last()) + indented(stmts.last(), 12) + seq!['\n']
    }
}

/// Whether a segment already leaves its arm: its last statement is a `q.`
/// or ends in a jump.
pub open spec fn exits(seg: Seq<Seq<char>>) -> bool {
    seg.len() > 0 && (ends_with(trim_end(seg.last()), "continue '__run;"@) || trim(seg.last())
        == "break '__run;"@)
}

/// How control leaves the arm of segment `idx` when its statements do not.
pub open spec fn fallthrough(ids: Seq<Seq<char>>, segs: Seq<Seq<Seq<char>>>, idx: int) -> Seq<char> {
    if exits(segs[idx]) {
        seq![]
    } else if idx + 1 < ids.len() {
        "                __pc = \""@ + ids[idx + 1] + "\";\n                continue '__run;\n"@
    } else {
        "                break '__run;\n"@
    }
}

/// The match arm of segment `idx`.
pub open spec fn arm(ids: Seq<Seq<char>>, segs: Seq<Seq<Seq<char>>>, idx: int) -> Seq<char> {
    "            \""@ + ids[idx] + "\" => {\n"@ + indented_block(segs[idx]) + fallthrough(ids, segs, idx)
        + "            }\n"@
}

/// The match arms of the first `k` segments.
pub open spec fn arms(ids: Seq<Seq<char>>, segs: Seq<Seq<Seq<char>>>, k: nat) -> Seq<char>
    decreases k,
{
    if k == 0 {
        seq![]
    } else {
        arms(ids, segs, (k - 1) as nat) + arm(ids, segs, k - 1)
    }
}

/// The state machine: hoisted declarations, then a labeled loop that
/// matches on the current segment.
pub open spec fn machine_body(hoisted: Seq<Seq<char>>, ids: Seq<Seq<char>>, segs: Seq<Seq<Seq<char>>>) -> Seq<char> {
    lines_block(hoisted) + "    let mut __pc = \"@begin\";\n"@ + "    '__run: loop {\n"@
        + "        match __pc {\n"@ + arms(ids, segs, ids.len()) + "            _ => {}\n"@
        + "        }\n"@ + "    }\n"@
}

/// The segment names: the prologue, then the labels.
pub open spec fn segment_ids(labels: Seq<Seq<char>>) -> Seq<Seq<char>> {
    seq!["@begin"@] + labels
}

/// A whole program compiled: the body of `main`, or every diagnostic.
/// Label errors stop before translation; otherwise all statements are
/// translated and every error is reported with its line number.  Without
/// labels or jumps the body is flat; with them, a state machine.
pub open spec fn compiled(source: Seq<char>) -> Result<Seq<char>, Seq<Seq<char>>> {
    let st = statements(source);
    let one = scan(st);
    if one.errors.len() > 0 {
        Err(one.errors)
    } else {
        let machine = one.has_flow || one.labels.len() > 0;
        let two = build(st, one.labels, machine);
        if two.errors.len() > 0 {
            Err(two.errors)
        } else if !machine {
            Ok(linear_body(two.segments))
        } else {
            Ok(machine_body(two.ctx.hoisted, segment_ids(one.labels), two.segments))
        }
    }
}

/// Appends each of `ls` followed by a newline.
fn push_lines(body: &mut Vec<char>, ls: &Vec<Vec<char>>)
    ensures
        final(body)@ == old(body)@ + lines_block(texts(ls@)),
{
    let mut i: usize = 0;
    while i < ls.len()
        invariant
            i <= ls.len(),
            body@ == old(body)@ + lines_block(texts(ls@).take(i as int)),
        decreases ls.len() - i,
    {
        let ghost prev = body@;
        push_all(body, &ls[i]);
        body.push('\n');
        assert(texts(ls@).take(i + 1).drop_last() =~= texts(ls@).take(i as int));
        assert(texts(ls@).take(i + 1).last() == ls@[i as int]@);
        i = i + 1;
        assert(body@ =~= old(body)@ + lines_block(texts(ls@).take(i as int)));
    }
    assert(texts(ls@).take(ls.len() as int) =~= texts(ls@));
}

/// Shifts a statement block deeper so it fits inside a match arm.
pub fn indent_block(code: &Vec<char>, spaces: usize) -> (r: Vec<char>)
    ensures
        r@ == indented(code@, spaces as nat),
{
    let ls = lines_of(code);
    let ghost shifted = lines(code@).map_values(|l: Seq<char>| indent_line(l, spaces as nat));
    let mut out: Vec<char> = Vec::new();
    let mut i: usize = 0;
    while i < ls.len()
        invariant
            i <= ls.len(),
            texts(ls@) == lines(code@),
            shifted == lines(code@).map_values(|l: Seq<char>| indent_line(l, spaces as nat)),
            out@ == join_lines(shifted.take(i as int)),
        decreases ls.len() - i,
    {
        let ghost prev = out@;
        if i > 0 {
            out.push('\n');
        }
        let l = &ls[i];
        assert(l@ == lines(code@)[i as int]);
        if l.len() != 0 {
            let mut k: usize = 0;
            while k < spaces
                invariant
                    k <= spaces,
                    out@ == (if i > 0 { prev + seq!['\n'] } else { prev }) + Seq::new(k as nat, |j: int| ' '),
                decreases spaces - k,
            {
                out.push(' ');
                k = k + 1;
                assert(out@ =~= (if i > 0 { prev + seq!['\n'] } else { prev }) + Seq::new(k as nat, |j: int| ' '));
            }
        }
        let ghost mid = out@;
        push_all(&mut out, l);
        assert(shifted.take(i + 1).drop_last() =~= shifted.take(i as int));
        assert(shifted[i as int] == indent_line(l@, spaces as nat));
        if i == 0 {
            assert(shifted.take(1) =~= seq![shifted[0]]);
            assert(out@ =~= join_lines(shifted.take(1)));
        } else {
            assert(out@ =~= join_lines(shifted.take(i as int)) + seq!['\n'] + shifted[i as int]);
        }
        i = i + 1;
    }
    assert(shifted.take(ls.len() as int) =~= shifted);
    out
}

/// Appends the statements of a segment, each indented for its arm.
fn push_indented(body: &mut Vec<char>, seg: &Vec<Vec<char>>)
    ensures
        final(body)@ == old(body)@ + indented_block(texts(seg@)),
{
    let mut i: usize = 0;
    while i < seg.len()
        invariant
            i <= seg.len(),
            body@ == old(body)@ + indented_block(texts(seg@).take(i as int)),
        decreases seg.len() - i,
    {
        let block = indent_block(&seg[i], 12);
        push_all(body, &block);
        body.push('\n');
        assert(texts(seg@).take(i + 1).drop_last() =~= texts(seg@).take(i as int));
        assert(texts(seg@).take(i + 1).last() == seg@[i as int]@);
        i = i + 1;
        assert(body@ =~= old(body)@ + indented_block(texts(seg@).take(i as int)));
    }
    assert(texts(seg@).take(seg.len() as int) =~= texts(seg@));
}

/// Whether a segment already leaves its arm.
fn segment_exits(seg: &Vec<Vec<char>>) -> (r: bool)
    ensures
        r == exits(texts(seg@)),
{
    if seg.len() == 0 {
        return false;
    }
    let last = &seg[seg.len() - 1];
    assert(texts(seg@).last() == last@);
    let trimmed = trim_end_text(last);
    let cont = text_of("continue '__run;");
    ends_with_text(&trimmed, &cont) || text_is(&trim_text(last), "break '__run;")
}

/// The state machine around the translated segments.
fn machine_text(hoisted: &Vec<Vec<char>>, ids: &Vec<Vec<char>>, segments: &Vec<Vec<Vec<char>>>) -> (r: Vec<char>)
    requires
        segments@.len() == ids@.len(),
    ensures
        r@ == machine_body(texts(hoisted@), texts(ids@), segment_views(segments@)),
{
    let ghost is = texts(ids@);
    let ghost ss = segment_views(segments@);
    let mut body: Vec<char> = Vec::new();
    push_lines(&mut body, hoisted);
    push_str(&mut body, "    let mut __pc = \"@begin\";\n");
    push_str(&mut body, "    '__run: loop {\n");
    push_str(&mut body, "        match __pc {\n");
    let ghost head = body@;
    assert(head =~= Seq::<char>::empty() + lines_block(texts(hoisted@))
        + "    let mut __pc = \"@begin\";\n"@ + "    '__run: loop {\n"@ + "        match __pc {\n"@);
    let mut idx: usize = 0;
    while idx < ids.len()
        invariant
            idx <= ids.len(),
            segments@.len() == ids@.len(),
            is == texts(ids@),
            ss == segment_views(segments@),
            body@ == head + arms(is, ss, idx as nat),
        decreases ids.len() - idx,
    {
        let seg = &segments[idx];
        assert(texts(seg@) == ss[idx as int]);
        let mut a = join3("            \"", &ids[idx], "\" => {\n");
        assert(ids@[idx as int]@ == is[idx as int]);
        push_indented(&mut a, seg);
        // if the segment already exits (q. or trailing jump), no fallthrough
        if !segment_exits(seg) {
            if idx + 1 < ids.len() {
                assert(ids@[idx + 1]@ == is[idx + 1]);
                let f = join3("                __pc = \"", &ids[idx + 1], "\";\n                continue '__run;\n");
                push_all(&mut a, &f);
            } else {
                push_str(&mut a, "                break '__run;\n");
            }
        } else {
            assert(a@ =~= a@ + Seq::<char>::empty());
        }
        push_str(&mut a, "            }\n");
        assert(a@ =~= arm(is, ss, idx as int));
        push_all(&mut body, &a);
        idx = idx + 1;
    }
    push_str(&mut body, "            _ => {}\n");
    push_str(&mut body, "        }\n");
    push_str(&mut body, "    }\n");
    assert(body@ =~= machine_body(texts(hoisted@), is, ss));
    body
}

/// A whole program (as characters) to the body of `main`, or every
/// diagnostic.
pub fn compile_text(source: &Vec<char>) -> (r: Result<Vec<char>, Vec<Vec<char>>>)
    ensures
        match r {
            Ok(body) => compiled(source@) == Ok::<Seq<char>, Seq<Seq<char>>>(body@),
            Err(errs) => compiled(source@) == Err::<Seq<char>, Seq<Seq<char>>>(texts(errs@)),
        },
{
    let statements = split_statements_text(source);

    // pass one: labels, duplicates, flow detection
    let (label_order, has_flow, errors) = scan_labels(&statements);
    if errors.len() != 0 {
        return Err(errors);
    }

    let machine = has_flow || label_order.len() != 0;

    // pass two: every statement into the segment of the label above it
    let (ctx, segments, errors) = build_segments(&statements, &label_order, machine);
    proof {
        lemma_build_shape(numbered(statements@), texts(label_order@), machine);
    }
    if errors.len() != 0 {
        return Err(errors);
    }

    if !machine {
        let mut body: Vec<char> = Vec::new();
        let mut i: usize = 0;
        while i < segments.len()
            invariant
                i <= segments.len(),
                body@ == linear_body(segment_views(segments@).take(i as int)),
            decreases segments.len() - i,
        {
            let ghost prev = body@;
            push_lines(&mut body, &segments[i]);
            assert(segment_views(segments@).take(i + 1).drop_last() =~= segment_views(segments@).take(i as int));
            assert(segment_views(segments@).take(i + 1).last() == texts(segments@[i as int]@));
            i = i + 1;
        }
        assert(segment_views(segments@).take(segments.len() as int) =~= segment_views(segments@));
        return Ok(body);
    }

    // state machine assembly
    let mut ids: Vec<Vec<char>> = Vec::new();
    ids.push(text_of("@begin"));
    let mut k: usize = 0;
    while k < label_order.len()
        invariant
            k <= label_order.len(),
            texts(ids@) == segment_ids(texts(label_order@).take(k as int)),
        decreases label_order.len() - k,
    {
        let ghost prev = texts(ids@);
        ids.push(copy(&label_order[k]));
        assert(texts(ids@) =~= prev.push(label_order@[k as int]@));
        k = k + 1;
        assert(segment_ids(texts(label_order@).take(k as int)) =~= segment_ids(
            texts(label_order@).take(k - 1),
        ).push(label_order@[k - 1]@));
    }
    assert(texts(label_order@).take(label_order.len() as int) =~= texts(label_order@));
    assert(segment_views(segments@).len() == segments@.len());
    Ok(machine_text(ctx.hoisted_lines(), &ids, &segments))
}

/// The views of a compilation result given as strings.
pub open spec fn compile_view(r: Result<String, Vec<String>>) -> Result<Seq<char>, Seq<Seq<char>>> {
    match r {
        Ok(body) => Ok(body@),
        Err(errs) => Err(errs@.map_values(|e: String| e@)),
    }
}

/// A whole program to the body of a Rust `main`, or every diagnostic as
/// `line N: ...`.
///
/// Linear mode (no labels or jumps): the statements in order, a plain body.
///
/// Machine mode (any label or jump): variables hoisted above a labeled
/// loop, each label a match arm, jumps move `__pc`; backward jumps work
/// because nothing depends on textual position.
pub fn compile(source: &str) -> (r: Result<String, Vec<String>>)
    ensures
        compile_view(r) == compiled(source@),
{
    let chars = text_of(source);
    match compile_text(&chars) {
        Ok(body) => Ok(string_of(&body)),
        Err(errs) => {
            let mut out: Vec<String> = Vec::new();
            let mut i: usize = 0;
            while i < errs.len()
                invariant
                    i <= errs.len(),
                    out@.map_values(|e: String| e@) == texts(errs@).take(i as int),
                decreases errs.len() - i,
            {
                let ghost prev = out@.map_values(|e: String| e@);
                let s = string_of(&errs[i]);
                out.push(s);
                assert(out@.map_values(|e: String| e@) =~= prev.push(errs@[i as int]@));
                i = i + 1;
                assert(texts(errs@).take(i as int) =~= texts(errs@).take(i - 1).push(errs@[i - 1]@));
            }
            assert(texts(errs@).take(errs.len() as int) =~= texts(errs@));
            Err(out)
        },
    }
}

} // verus!
