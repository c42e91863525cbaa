//! Where the statements of a program with labels go: the arm of the
//! nearest label above them.
use vstd::prelude::*;
use crate::text::{ident, trim};
use crate::compile::{scan, build, index_of, lemma_index_of, lemma_build_shape};
use crate::laws::label_line;
use crate::translate::translated;

verus! {

/// The number of label lines among the statements.
pub open spec fn label_count(st: Seq<(nat, Seq<char>)>) -> nat
    decreases st.len(),
{
    if st.len() == 0 {
        0
    } else {
        label_count(st.drop_last()) + if label_line(st.last().1) { 1nat } else { 0nat }
    }
}

/// The name a label line gives.
pub open spec fn label_name(text: Seq<char>) -> Seq<char> {
    trim(text).drop_first()
}

proof fn lemma_scan_errors_grow(st: Seq<(nat, Seq<char>)>)
    ensures
        st.len() > 0 ==> scan(st.drop_last()).errors.len() <= scan(st).errors.len(),
{
}

proof fn lemma_scan_distinct(st: Seq<(nat, Seq<char>)>)
    ensures
        scan(st).labels.no_duplicates(),
    decreases st.len(),
{
    if st.len() > 0 {
        lemma_scan_distinct(st.drop_last());
        let before = scan(st.drop_last()).labels;
        let after = scan(st).labels;
        if after != before {
            let name = after.last();
            assert(!before.contains(name));
            assert forall|i: int, j: int| 0 <= i < after.len() && 0 <= j < after.len() && i != j implies after[i] != after[j] by {
                if i < before.len() && j < before.len() {
                    assert(after[i] == before[i] && after[j] == before[j]);
                } else if i < before.len() {
                    assert(after[i] == before[i]);
                } else {
                    assert(after[j] == before[j]);
                }
            }
        }
    }
}

/// Without label errors the first pass lists the label lines' names in
/// order, each a name.
proof fn lemma_scan_labels(st: Seq<(nat, Seq<char>)>)
    requires
        scan(st).errors.len() == 0,
    ensures
        scan(st).labels.len() == label_count(st),
        forall|i: int| 0 <= i < st.len() && #[trigger] label_line(st[i].1) ==> label_count(st.take(i))
            < scan(st).labels.len() && scan(st).labels[label_count(st.take(i)) as int] == label_name(st[i].1)
            && ident(label_name(st[i].1)),
    decreases st.len(),
{
    if st.len() > 0 {
        let prev = st.drop_last();
        lemma_scan_errors_grow(st);
        lemma_scan_labels(prev);
        let before = scan(prev).labels;
        let after = scan(st).labels;
        assert forall|i: int| 0 <= i < st.len() && #[trigger] label_line(st[i].1) implies label_count(st.take(i))
            < after.len() && after[label_count(st.take(i)) as int] == label_name(st[i].1)
            && ident(label_name(st[i].1)) by {
            if i < prev.len() {
                assert(st.take(i) =~= prev.take(i));
                assert(prev[i] == st[i]);
                assert(label_line(prev[i].1));
                if after != before {
                    assert(after[label_count(st.take(i)) as int] == before[label_count(st.take(i)) as int]);
                }
            } else {
                assert(st.take(i) =~= prev);
            }
        }
    }
}

/// Where the statements of a program without label errors go: the segment
/// being filled after any first part of the program is the number of label
/// lines in that part, the `k`-th label line names the `k`-th label (whose
/// arm is the `k + 1`-th, after the prologue's), a statement changes no
/// segment but the one being filled after it, and the code of an accepted
/// statement is added at the end of the segment of the nearest label above
/// it.
pub proof fn law_segments_follow_labels(st: Seq<(nat, Seq<char>)>, machine: bool)
    requires
        scan(st).errors.len() == 0,
    ensures
        scan(st).labels.len() == label_count(st),
        forall|i: int| 0 <= i < st.len() && #[trigger] label_line(st[i].1) ==> scan(st).labels[label_count(st.take(i)) as int]
            == label_name(st[i].1),
        forall|i: int| 0 <= i <= st.len() ==> #[trigger] build(st.take(i), scan(st).labels, machine).current
            == label_count(st.take(i)),
        forall|i: int, j: int|
            0 <= i < st.len() && 0 <= j <= label_count(st) && j != label_count(st.take(i + 1)) ==> #[trigger] build(
                st.take(i + 1),
                scan(st).labels,
                machine,
            ).segments[j] == build(st.take(i), scan(st).labels, machine).segments[j],
        forall|i: int|
            0 <= i < st.len() && !label_line(st[i].1) && #[trigger] translated(
                st[i].1,
                build(st.take(i), scan(st).labels, machine).ctx,
                scan(st).labels,
            ).0 is Ok ==> build(st.take(i + 1), scan(st).labels, machine).segments[label_count(st.take(i)) as int]
                == build(st.take(i), scan(st).labels, machine).segments[label_count(st.take(i)) as int] + (
            if translated(st[i].1, build(st.take(i), scan(st).labels, machine).ctx, scan(st).labels).0->Ok_0.len()
                > 0 {
                seq![translated(st[i].1, build(st.take(i), scan(st).labels, machine).ctx, scan(st).labels).0->Ok_0]
            } else {
                seq![]
            }),
{
    lemma_scan_labels(st);
    lemma_scan_distinct(st);
    let labels = scan(st).labels;
    assert forall|i: int| 0 <= i <= st.len() implies #[trigger] build(st.take(i), labels, machine).current
        == label_count(st.take(i)) by {
        lemma_build_current(st, machine, i as nat);
    }
    assert forall|i: int, j: int|
        0 <= i < st.len() && 0 <= j <= label_count(st) && j != label_count(st.take(i + 1)) implies #[trigger] build(
            st.take(i + 1),
            labels,
            machine,
        ).segments[j] == build(st.take(i), labels, machine).segments[j] by {
        lemma_build_current(st, machine, i as nat);
        lemma_build_current(st, machine, (i + 1) as nat);
        lemma_build_shape(st.take(i), labels, machine);
        assert(st.take(i + 1).drop_last() =~= st.take(i));
        assert(st.take(i + 1).last() == st[i]);
    }
    assert forall|i: int|
        0 <= i < st.len() && !label_line(st[i].1) && #[trigger] translated(
            st[i].1,
            build(st.take(i), labels, machine).ctx,
            labels,
        ).0 is Ok implies build(st.take(i + 1), labels, machine).segments[label_count(st.take(i)) as int]
            == build(st.take(i), labels, machine).segments[label_count(st.take(i)) as int] + (
        if translated(st[i].1, build(st.take(i), labels, machine).ctx, labels).0->Ok_0.len() > 0 {
            seq![translated(st[i].1, build(st.take(i), labels, machine).ctx, labels).0->Ok_0]
        } else {
            seq![]
        }) by {
        lemma_build_current(st, machine, i as nat);
        lemma_build_shape(st.take(i), labels, machine);
        assert(st.take(i + 1).drop_last() =~= st.take(i));
        assert(st.take(i + 1).last() == st[i]);
        let seg = build(st.take(i), labels, machine).segments[label_count(st.take(i)) as int];
        let code = translated(st[i].1, build(st.take(i), labels, machine).ctx, labels).0->Ok_0;
        if code.len() > 0 {
            assert(seg.push(code) =~= seg + seq![code]);
        } else {
            assert(seg =~= seg + Seq::<Seq<char>>::empty());
        }
    }
}

proof fn lemma_build_current(st: Seq<(nat, Seq<char>)>, machine: bool, i: nat)
    requires
        scan(st).errors.len() == 0,
        i <= st.len(),
    ensures
        build(st.take(i as int), scan(st).labels, machine).current == label_count(st.take(i as int)),
    decreases i,
{
    let labels = scan(st).labels;
    if i > 0 {
        lemma_build_current(st, machine, (i - 1) as nat);
        lemma_scan_labels(st);
        lemma_scan_distinct(st);
        let p = st.take(i - 1);
        assert(st.take(i as int).drop_last() =~= p);
        assert(st.take(i as int).last() == st[i - 1]);
        if label_line(st[i - 1].1) {
            let name = label_name(st[i - 1].1);
            let k = label_count(p);
            assert(labels[k as int] == name);
            lemma_index_of(labels, name);
            assert(labels.contains(name));
            assert(index_of(labels, name) == k);
        }
    } else {
        assert(st.take(0).len() == 0);
    }
}

} // verus!
