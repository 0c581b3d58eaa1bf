use vstd::prelude::*;
use crate::ast::Node;
use crate::codegen::{Emit, code, node_code, loop_count, node_loop_count, cmp_cell_zero, RET};

verus! {

broadcast use vstd::seq::group_seq_axioms;

/// How many steps of `p` are `e`.
pub open spec fn occurrences(p: Seq<Emit>, e: Emit) -> nat
    decreases p.len(),
{
    if p.len() == 0 {
        0
    } else {
        occurrences(p.drop_last(), e) + if p.last() == e { 1nat } else { 0nat }
    }
}

/// The label that a step refers to or attaches, if any.
pub open spec fn label_of(e: Emit) -> Option<usize> {
    match e {
        Emit::JzLabel(l) => Some(l),
        Emit::JnzLabel(l) => Some(l),
        Emit::AttachLabel(l) => Some(l),
        _ => None,
    }
}

/// Every label that the steps create is attached exactly once, and every
/// jump or attach names a label that they create.
pub open spec fn well_labelled(p: Seq<Emit>) -> bool {
    let created = occurrences(p, Emit::CreateLabel);
    &&& forall|l: usize| l < created ==> #[trigger] occurrences(p, Emit::AttachLabel(l)) == 1
    &&& forall|i: int| 0 <= i < p.len() && (#[trigger] label_of(p[i])) is Some ==> label_of(p[i])->Some_0 < created
}

proof fn lemma_occurrences_concat(a: Seq<Emit>, b: Seq<Emit>, e: Emit)
    ensures
        occurrences(a + b, e) == occurrences(a, e) + occurrences(b, e),
    decreases b.len(),
{
    if b.len() > 0 {
        lemma_occurrences_concat(a, b.drop_last(), e);
        assert((a + b).drop_last() =~= a + b.drop_last());
    } else {
        assert(a + b =~= a);
    }
}

proof fn lemma_occurrences_pair(x: Emit, y: Emit, e: Emit)
    ensures
        occurrences(seq![x, y], e) == (if x == e { 1nat } else { 0nat }) + (if y == e { 1nat } else { 0nat }),
{
    assert(seq![x, y].drop_last() =~= seq![x]);
    assert(seq![x].drop_last() =~= Seq::<Emit>::empty());
    assert(occurrences(Seq::<Emit>::empty(), e) == 0);
    assert(occurrences(seq![x], e) == if x == e { 1nat } else { 0nat });
}

/// Every label that a step of `p` names lies in `[lo, hi)`.
pub open spec fn labels_within(p: Seq<Emit>, lo: nat, hi: nat) -> bool {
    forall|i: int| 0 <= i < p.len() && (#[trigger] label_of(p[i])) is Some
        ==> lo <= label_of(p[i])->Some_0 < hi
}

proof fn lemma_labels_within_concat(a: Seq<Emit>, b: Seq<Emit>, lo: nat, hi: nat)
    requires
        labels_within(a, lo, hi),
        labels_within(b, lo, hi),
    ensures
        labels_within(a + b, lo, hi),
{
    assert forall|i: int| 0 <= i < (a + b).len() && (#[trigger] label_of((a + b)[i])) is Some
        implies lo <= label_of((a + b)[i])->Some_0 < hi by {
        if i < a.len() {
            assert((a + b)[i] == a[i]);
        } else {
            assert((a + b)[i] == b[i - a.len()]);
        }
    }
}

proof fn lemma_occurrences_absent(p: Seq<Emit>, e: Emit)
    requires
        forall|i: int| 0 <= i < p.len() ==> p[i] != e,
    ensures
        occurrences(p, e) == 0,
    decreases p.len(),
{
    if p.len() > 0 {
        lemma_occurrences_absent(p.drop_last(), e);
    }
}

/// No step of `p` creates, attaches or names a label.
pub open spec fn label_free(p: Seq<Emit>) -> bool {
    forall|i: int| 0 <= i < p.len() ==> (#[trigger] p[i] is Byte) || p[i] is DoubleWord
}

proof fn lemma_label_free(p: Seq<Emit>)
    requires
        label_free(p),
    ensures
        occurrences(p, Emit::CreateLabel) == 0,
        forall|l: usize| #[trigger] occurrences(p, Emit::AttachLabel(l)) == 0,
        forall|lo: nat, hi: nat| #[trigger] labels_within(p, lo, hi),
{
    assert forall|i: int| 0 <= i < p.len() implies p[i] != Emit::CreateLabel by {
        assert(p[i] is Byte || p[i] is DoubleWord);
    }
    lemma_occurrences_absent(p, Emit::CreateLabel);
    assert forall|l: usize| #[trigger] occurrences(p, Emit::AttachLabel(l)) == 0 by {
        assert forall|i: int| 0 <= i < p.len() implies p[i] != Emit::AttachLabel(l) by {
            assert(p[i] is Byte || p[i] is DoubleWord);
        }
        lemma_occurrences_absent(p, Emit::AttachLabel(l));
    }
    assert forall|lo: nat, hi: nat| #[trigger] labels_within(p, lo, hi) by {
        assert forall|i: int| 0 <= i < p.len() && (#[trigger] label_of(p[i])) is Some
            implies lo <= label_of(p[i])->Some_0 < hi by {
            assert(p[i] is Byte || p[i] is DoubleWord);
        }
    }
}

/// In the code of a tree whose labels start at `base`: the code creates two
/// labels per loop, attaches each of `base .. base + 2 * loops` once and no
/// other, and names none outside that range.
pub proof fn lemma_code_labels(s: Seq<Node>, base: nat)
    requires
        base + 2 * loop_count(s) <= usize::MAX,
    ensures
        occurrences(code(s, base), Emit::CreateLabel) == 2 * loop_count(s),
        forall|l: usize| #[trigger] occurrences(code(s, base), Emit::AttachLabel(l))
            == if base <= l < base + 2 * loop_count(s) { 1nat } else { 0nat },
        labels_within(code(s, base), base, base + 2 * loop_count(s)),
    decreases s,
{
    if s.len() > 0 {
        let p = s.drop_last();
        let mid = base + 2 * loop_count(p);
        lemma_code_labels(p, base);
        lemma_node_code_labels(s.last(), mid);
        let a = code(p, base);
        let b = node_code(s.last(), mid);
        assert(code(s, base) == a + b);
        lemma_occurrences_concat(a, b, Emit::CreateLabel);
        assert forall|l: usize| #[trigger] occurrences(code(s, base), Emit::AttachLabel(l))
            == if base <= l < base + 2 * loop_count(s) { 1nat } else { 0nat } by {
            lemma_occurrences_concat(a, b, Emit::AttachLabel(l));
        }
        let hi = base + 2 * loop_count(s);
        assert(labels_within(a, base, hi));
        assert(labels_within(b, base, hi));
        lemma_labels_within_concat(a, b, base, hi);
    } else {
        assert(occurrences(code(s, base), Emit::CreateLabel) == 0);
        assert(code(s, base).len() == 0);
    }
}

pub proof fn lemma_node_code_labels(n: Node, base: nat)
    requires
        base + 2 * node_loop_count(n) <= usize::MAX,
    ensures
        occurrences(node_code(n, base), Emit::CreateLabel) == 2 * node_loop_count(n),
        forall|l: usize| #[trigger] occurrences(node_code(n, base), Emit::AttachLabel(l))
            == if base <= l < base + 2 * node_loop_count(n) { 1nat } else { 0nat },
        labels_within(node_code(n, base), base, base + 2 * node_loop_count(n)),
    decreases n,
{
    if let Node::Loop(body) = n {
        let ls = base as usize;
        let pl = (base + 1) as usize;
        let hi = base + 2 * node_loop_count(n);
        let a = seq![Emit::CreateLabel, Emit::CreateLabel];
        let c = cmp_cell_zero();
        let j1 = seq![Emit::JzLabel(pl), Emit::AttachLabel(ls)];
        let bc = code(body, base + 2);
        let j2 = seq![Emit::JnzLabel(ls), Emit::AttachLabel(pl)];
        lemma_code_labels(body, base + 2);
        assert(node_code(n, base) == a + c + j1 + bc + c + j2);
        assert(label_free(c));
        lemma_label_free(c);
        assert forall|e: Emit| #[trigger] occurrences(node_code(n, base), e)
            == occurrences(a, e) + occurrences(c, e) + occurrences(j1, e) + occurrences(bc, e)
                + occurrences(c, e) + occurrences(j2, e) by {
            lemma_occurrences_concat(a, c, e);
            lemma_occurrences_concat(a + c, j1, e);
            lemma_occurrences_concat(a + c + j1, bc, e);
            lemma_occurrences_concat(a + c + j1 + bc, c, e);
            lemma_occurrences_concat(a + c + j1 + bc + c, j2, e);
        }
        lemma_occurrences_pair(Emit::CreateLabel, Emit::CreateLabel, Emit::CreateLabel);
        lemma_occurrences_pair(Emit::JzLabel(pl), Emit::AttachLabel(ls), Emit::CreateLabel);
        lemma_occurrences_pair(Emit::JnzLabel(ls), Emit::AttachLabel(pl), Emit::CreateLabel);
        assert(occurrences(node_code(n, base), Emit::CreateLabel) == 2 * node_loop_count(n));
        assert forall|l: usize| #[trigger] occurrences(node_code(n, base), Emit::AttachLabel(l))
            == if base <= l < hi { 1nat } else { 0nat } by {
            let e = Emit::AttachLabel(l);
            lemma_occurrences_pair(Emit::CreateLabel, Emit::CreateLabel, e);
            lemma_occurrences_pair(Emit::JzLabel(pl), Emit::AttachLabel(ls), e);
            lemma_occurrences_pair(Emit::JnzLabel(ls), Emit::AttachLabel(pl), e);
            assert(occurrences(node_code(n, base), e) == occurrences(a, e) + occurrences(c, e)
                + occurrences(j1, e) + occurrences(bc, e) + occurrences(c, e) + occurrences(j2, e));
        }
        assert(labels_within(a, base, hi));
        assert(labels_within(j1, base, hi));
        assert(labels_within(j2, base, hi));
        assert(labels_within(bc, base, hi));
        lemma_labels_within_concat(a, c, base, hi);
        lemma_labels_within_concat(a + c, j1, base, hi);
        lemma_labels_within_concat(a + c + j1, bc, base, hi);
        lemma_labels_within_concat(a + c + j1 + bc, c, base, hi);
        lemma_labels_within_concat(a + c + j1 + bc + c, j2, base, hi);
    } else {
        let p = node_code(n, base);
        assert(label_free(p));
        lemma_label_free(p);
    }
}

/// Every label created while generating the code of a tree is attached
/// exactly once, and every jump names a created label.
pub proof fn lemma_code_well_labelled(s: Seq<Node>)
    requires
        2 * loop_count(s) <= usize::MAX,
    ensures
        well_labelled(code(s, 0).push(Emit::Byte(RET))),
{
    let p = code(s, 0);
    let q = p.push(Emit::Byte(RET));
    lemma_code_labels(s, 0);
    assert(q.drop_last() =~= p);
    assert forall|l: usize| l < occurrences(q, Emit::CreateLabel) implies #[trigger] occurrences(
        q,
        Emit::AttachLabel(l),
    ) == 1 by {
        assert(occurrences(p, Emit::AttachLabel(l)) == 1);
    }
    assert forall|i: int| 0 <= i < q.len() && (#[trigger] label_of(q[i])) is Some
        implies label_of(q[i])->Some_0 < occurrences(q, Emit::CreateLabel) by {
        assert(q[i] == p[i]);
    }
}

proof fn lemma_occurrences_take(p: Seq<Emit>, k: int, e: Emit)
    requires
        0 <= k < p.len(),
    ensures
        occurrences(p.take(k + 1), e) == occurrences(p.take(k), e) + if p[k] == e { 1nat } else { 0nat },
{
    assert(p.take(k + 1).drop_last() =~= p.take(k));
}

/// Whether the steps are well labelled: every created label attached
/// exactly once, every jump and attach naming a created label. A runtime
/// checks this before it resolves the labels.
pub fn labels_resolved(steps: &Vec<Emit>) -> (r: bool)
    ensures
        r == well_labelled(steps@),
{
    let ghost p = steps@;
    let mut created: usize = 0;
    let mut k: usize = 0;
    assert(p.take(0) =~= Seq::<Emit>::empty());
    while k < steps.len()
        invariant
            p == steps@,
            k <= p.len(),
            created <= k,
            created == occurrences(p.take(k as int), Emit::CreateLabel),
        decreases p.len() - k,
    {
        proof {
            lemma_occurrences_take(p, k as int, Emit::CreateLabel);
        }
        if steps[k] == Emit::CreateLabel {
            created = created + 1;
        }
        k = k + 1;
    }
    assert(p.take(k as int) =~= p);
    let mut attached: Vec<usize> = Vec::new();
    let mut l: usize = 0;
    while l < created
        invariant
            l <= created,
            attached@ == Seq::new(l as nat, |i: int| 0usize),
        decreases created - l,
    {
        attached.push(0);
        l = l + 1;
        assert(attached@ =~= Seq::new(l as nat, |i: int| 0usize));
    }
    k = 0;
    while k < steps.len()
        invariant
            p == steps@,
            k <= p.len(),
            created == occurrences(p, Emit::CreateLabel),
            attached@.len() == created,
            forall|l: int| 0 <= l < created ==> #[trigger] attached@[l] == occurrences(
                p.take(k as int),
                Emit::AttachLabel(l as usize),
            ),
            forall|l: int| 0 <= l < created ==> attached@[l] <= k,
            forall|i: int| 0 <= i < k && (#[trigger] label_of(p[i])) is Some ==> label_of(p[i])->Some_0 < created,
        decreases p.len() - k,
    {
        let step = steps[k];
        let named: Option<usize> = match step {
            Emit::JzLabel(l) => Some(l),
            Emit::JnzLabel(l) => Some(l),
            Emit::AttachLabel(l) => Some(l),
            _ => None,
        };
        if let Some(l) = named {
            if l >= created {
                proof {
                    assert(label_of(p[k as int]) is Some);
                }
                return false;
            }
        }
        proof {
            assert forall|l: int| 0 <= l < created implies #[trigger] occurrences(p.take(k + 1), Emit::AttachLabel(l as usize))
                == occurrences(p.take(k as int), Emit::AttachLabel(l as usize))
                + if p[k as int] == Emit::AttachLabel(l as usize) { 1nat } else { 0nat } by {
                lemma_occurrences_take(p, k as int, Emit::AttachLabel(l as usize));
            }
        }
        if let Emit::AttachLabel(l) = step {
            let c = attached[l];
            attached.set(l, c + 1);
        }
        k = k + 1;
    }
    assert(p.take(k as int) =~= p);
    let mut l: usize = 0;
    while l < created
        invariant
            p == steps@,
            l <= created,
            created == occurrences(p, Emit::CreateLabel),
            attached@.len() == created,
            forall|m: int| 0 <= m < created ==> #[trigger] attached@[m] == occurrences(p, Emit::AttachLabel(m as usize)),
            forall|m: usize| m < l ==> #[trigger] occurrences(p, Emit::AttachLabel(m)) == 1,
            forall|i: int| 0 <= i < p.len() && (#[trigger] label_of(p[i])) is Some ==> label_of(p[i])->Some_0 < created,
        decreases created - l,
    {
        if attached[l] != 1 {
            proof {
                assert(occurrences(p, Emit::AttachLabel(l)) != 1);
                assert(l < occurrences(p, Emit::CreateLabel));
                assert(!well_labelled(p));
            }
            return false;
        }
        l = l + 1;
    }
    true
}

} // verus!
