//! Properties of the index that hold for every well-formed store.
use vstd::prelude::*;
use crate::store::{StoreModel, DataKeyView, StoreError, lemma_create_wf, lemma_with_note, lemma_with_fact};
use crate::render::render_full;
use crate::text::strictly_sorted;

verus! {

/// Every entry but the root has a present parent that lists it among its
/// children, and its fully-qualified name is its own label followed by a dot
/// and the parent's fully-qualified name (the label alone under the root);
/// that name resolves back to the entry. Each mutation keeps the store well
/// formed, so this holds after any sequence of creations, at any depth.
pub proof fn lemma_full_name_chain(m: StoreModel, h: Seq<char>)
    requires
        m.wf(),
        m.index.contains_key(h),
        h != m.root,
    ensures
        ({
            let p = m.index[h].parent_hash;
            &&& m.index.contains_key(p)
            &&& m.index[p].children.contains(m.index[h].full_name())
            &&& m.index[h].full_name() == m.index[h].name + if p == m.root {
                Seq::<char>::empty()
            } else {
                seq!['.'] + m.index[p].full_name()
            }
            &&& m.names[m.index[h].full_name()] == h
        }),
{
    reveal(StoreModel::wf);
    let p = m.index[h].parent_hash;
    assert(m.index.contains_key(h) && h != m.root);
    if p != m.root {
        assert(seq!['.'] + m.index[p].name + m.index[p].parent_path =~= seq!['.'] + m.index[p].full_name());
    }
    assert(m.index[h].name + m.index[h].parent_path =~= m.index[h].full_name());
}

/// Applying the same creation twice reports the same outcome the second time
/// as the first and leaves the store as one application left it.
pub proof fn lemma_create_idempotent(m: StoreModel, p: Seq<char>, c: Seq<char>, n: Seq<char>)
    requires
        m.wf(),
    ensures
        m.create(p, c, n).create_outcome(p, c, n) == m.create_outcome(p, c, n),
        m.create(p, c, n).create(p, c, n) == m.create(p, c, n),
{
    lemma_create_wf(m, p, c, n);
}

/// Once an immutable annotation is set under a label, setting it again is
/// refused as a duplicate and changes nothing, and a mutable write under the
/// same label leaves the stored value as it is.
pub proof fn lemma_fact_is_immutable(m: StoreModel, p: Seq<char>, label: Seq<char>, v: Seq<u8>, d: Seq<u8>)
    requires
        m.wf(),
        m.index.contains_key(p),
        m.index[p].annotation(label) == Some(DataKeyView::Fact(v)),
    ensures
        m.fact_outcome(p, label) == Err::<(), StoreError>(StoreError::DuplicateImmutable),
        m.fact(p, label, d) == m,
        m.note(p, label, d).index[p].annotation(label) == Some(DataKeyView::Fact(v)),
{
    reveal(StoreModel::wf);
    let node = m.index[p];
    let k = node.labels.index_of(label);
    assert(node.labels[k] == label);
    assert(node.with_note(label, d) == node);
    assert(m.note(p, label, d).index =~= m.index);
}

/// Setting a fact on an entry that does not hold the label stores it, and
/// any later attempt to set that label is refused without effect.
pub proof fn lemma_fact_set_once(m: StoreModel, p: Seq<char>, label: Seq<char>, d: Seq<u8>, d2: Seq<u8>)
    requires
        m.wf(),
        m.fact_outcome(p, label) is Ok,
    ensures
        m.fact(p, label, d).index[p].annotation(label) == Some(DataKeyView::Fact(d)),
        m.fact(p, label, d).fact_outcome(p, label) == Err::<(), StoreError>(StoreError::DuplicateImmutable),
        m.fact(p, label, d).fact(p, label, d2) == m.fact(p, label, d),
{
    reveal(StoreModel::wf);
    let node = m.index[p];
    lemma_with_fact(node, label, d);
    let n2 = node.with_fact(label, d);
    assert(n2.labels.contains(label));
}

/// A store after each payload of `ds` is written, in order, as a note under
/// `label` of entry `p`.
pub open spec fn notes(m: StoreModel, p: Seq<char>, label: Seq<char>, ds: Seq<Seq<u8>>) -> StoreModel
    decreases ds.len(),
{
    if ds.len() == 0 {
        m
    } else {
        notes(m, p, label, ds.drop_last()).note(p, label, ds.last())
    }
}

/// The history that an annotation holds before more notes are written.
pub open spec fn history_of(a: Option<DataKeyView>) -> Seq<Seq<u8>> {
    match a {
        Some(DataKeyView::Note(h)) => h,
        _ => Seq::empty(),
    }
}

/// Writing a note keeps the store well formed.
pub proof fn lemma_note_wf(m: StoreModel, p: Seq<char>, label: Seq<char>, d: Seq<u8>)
    requires
        m.wf(),
    ensures
        m.note(p, label, d).wf(),
        m.note(p, label, d).index.dom() == m.index.dom(),
{
    if m.index.contains_key(p) {
        crate::store::lemma_node_wf(m, p);
        lemma_with_note(m.index[p], label, d);
        crate::store::lemma_reannotate_wf(m, p, m.index[p].with_note(label, d));
    }
    assert(m.note(p, label, d).index.dom() =~= m.index.dom());
}

/// After a run of notes under one label of a present entry, the history is
/// the earlier one followed by every payload in call order: its length grows
/// by the number of calls and its last element is the latest payload.
pub proof fn lemma_notes_append(m: StoreModel, p: Seq<char>, label: Seq<char>, ds: Seq<Seq<u8>>)
    requires
        m.wf(),
        m.index.contains_key(p),
        !(m.index[p].annotation(label) matches Some(DataKeyView::Fact(_))),
        ds.len() > 0,
    ensures
        notes(m, p, label, ds).wf(),
        notes(m, p, label, ds).index.contains_key(p),
        notes(m, p, label, ds).index[p].annotation(label) == Some(
            DataKeyView::Note(history_of(m.index[p].annotation(label)) + ds),
        ),
    decreases ds.len(),
{
    let h0 = history_of(m.index[p].annotation(label));
    let prev = notes(m, p, label, ds.drop_last());
    if ds.len() == 1 {
        assert(ds.drop_last().len() == 0);
        assert(prev == m);
        crate::store::lemma_node_wf(m, p);
        lemma_with_note(m.index[p], label, ds.last());
        lemma_note_wf(m, p, label, ds.last());
        assert(h0 + ds =~= h0.push(ds.last()));
    } else {
        lemma_notes_append(m, p, label, ds.drop_last());
        crate::store::lemma_node_wf(prev, p);
        lemma_with_note(prev.index[p], label, ds.last());
        lemma_note_wf(prev, p, label, ds.last());
        assert((h0 + ds.drop_last()).push(ds.last()) =~= h0 + ds);
    }
}

/// Rendering is a function of the store alone: equal stores render the same
/// entry identically, and the children of every entry are listed in strictly
/// increasing lexicographic order of their full names.
pub proof fn lemma_render_deterministic(m1: StoreModel, m2: StoreModel, h: Seq<char>, level: nat)
    requires
        m1 == m2,
        m1.wf(),
    ensures
        render_full(m1, h, level) == render_full(m2, h, level),
        m1.index.contains_key(h) ==> strictly_sorted(m1.index[h].children),
{
    reveal(StoreModel::wf);
}

} // verus!
