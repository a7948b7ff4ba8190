//! The entry store and the name resolver: every entry of the namespace keyed
//! by its hash, and every fully-qualified name mapped back to its hash.
use vstd::prelude::*;
use vstd::string::*;
use crate::text::{
    lex_lt, strictly_sorted, texts, ins_pos, sorted_insert, splits_at, locate, str_eq, push_char,
    lemma_insert_sorted, lemma_sorted_index_of, lemma_lex_irreflexive,
};

verus! {

/// Hash of the root entry of the namespace.
pub const ROOT_HASH: &'static str = "0x0000000000000000000000000000000000000000000000000000000000000000";

/// Why a mutation was not applied.
#[derive(PartialEq, Eq, Structural, Clone, Copy, Debug)]
pub enum StoreError {
    /// The entry that the mutation names is not in the store.
    OrphanParent,
    /// An immutable annotation under this label is already set.
    DuplicateImmutable,
    /// A creation contradicts an entry or a name already in the store.
    InvariantViolation,
}

/// An annotation of an entry.
#[derive(Clone, Debug)]
pub enum DataKey {
    /// Set once, never changed.
    Fact(Vec<u8>),
    /// Every version written so far, oldest first.
    Note(Vec<Vec<u8>>),
}

/// The mathematical value of an annotation.
pub enum DataKeyView {
    /// The value set once.
    Fact(Seq<u8>),
    /// The history, oldest first; never empty.
    Note(Seq<Seq<u8>>),
}

impl DataKeyView {
    /// Byte length of the current value: the fact, or the latest note.
    pub open spec fn current_len(self) -> nat {
        match self {
            DataKeyView::Fact(b) => b.len(),
            DataKeyView::Note(h) => h.last().len(),
        }
    }
}

impl View for DataKey {
    type V = DataKeyView;

    open spec fn view(&self) -> DataKeyView {
        match self {
            DataKey::Fact(b) => DataKeyView::Fact(b@),
            DataKey::Note(h) => DataKeyView::Note(h@.map_values(|x: Vec<u8>| x@)),
        }
    }
}

/// An entry of the namespace.
#[derive(Clone, Debug)]
pub struct Node {
    /// Hash of the entry this one was created under (empty for the root).
    pub parent_hash: String,
    /// Every name above the parent's own, each preceded by a dot.
    pub parent_path: String,
    /// The entry's own label.
    pub name: String,
    /// Number of ancestors: zero for the root.
    pub depth: usize,
    /// Fully-qualified names of the entries created under this one, sorted.
    pub child_names: Vec<String>,
    /// Labels of the annotations, sorted.
    pub data_labels: Vec<String>,
    /// The annotation under each label, in the same order.
    pub data_values: Vec<DataKey>,
}

impl Node {
    /// A copy of this entry.
    pub fn clone_node(&self) -> (r: Node)
        ensures
            r@ == self@,
    {
        let mut child_names: Vec<String> = Vec::new();
        let mut i: usize = 0;
        while i < self.child_names.len()
            invariant
                i <= self.child_names.len(),
                child_names.len() == i,
                forall|x: int| 0 <= x < i ==> (#[trigger] child_names@[x])@ == self.child_names@[x]@,
            decreases self.child_names.len() - i,
        {
            child_names.push(self.child_names[i].clone());
            i = i + 1;
        }
        let mut data_labels: Vec<String> = Vec::new();
        let mut j: usize = 0;
        while j < self.data_labels.len()
            invariant
                j <= self.data_labels.len(),
                data_labels.len() == j,
                forall|x: int| 0 <= x < j ==> (#[trigger] data_labels@[x])@ == self.data_labels@[x]@,
            decreases self.data_labels.len() - j,
        {
            data_labels.push(self.data_labels[j].clone());
            j = j + 1;
        }
        let mut data_values: Vec<DataKey> = Vec::new();
        let mut k: usize = 0;
        while k < self.data_values.len()
            invariant
                k <= self.data_values.len(),
                data_values.len() == k,
                forall|x: int| 0 <= x < k ==> (#[trigger] data_values@[x])@ == self.data_values@[x]@,
            decreases self.data_values.len() - k,
        {
            data_values.push(self.data_values[k].clone_key());
            k = k + 1;
        }
        proof {
            assert(texts(child_names@) =~= texts(self.child_names@));
            assert(texts(data_labels@) =~= texts(self.data_labels@));
            assert(data_values@.map_values(|d: DataKey| d@) =~= self.data_values@.map_values(|d: DataKey| d@));
        }
        Node {
            parent_hash: self.parent_hash.clone(),
            parent_path: self.parent_path.clone(),
            name: self.name.clone(),
            depth: self.depth,
            child_names,
            data_labels,
            data_values,
        }
    }
}

impl DataKey {
    /// A copy of this annotation.
    pub fn clone_key(&self) -> (r: DataKey)
        ensures
            r@ == self@,
    {
        match self {
            DataKey::Fact(b) => DataKey::Fact(b.clone()),
            DataKey::Note(h) => {
                let mut out: Vec<Vec<u8>> = Vec::new();
                let mut i: usize = 0;
                while i < h.len()
                    invariant
                        i <= h.len(),
                        out.len() == i,
                        forall|j: int| 0 <= j < i ==> (#[trigger] out@[j])@ == h@[j]@,
                    decreases h.len() - i,
                {
                    out.push(h[i].clone());
                    i = i + 1;
                }
                proof {
                    assert(out@.map_values(|x: Vec<u8>| x@) =~= h@.map_values(|x: Vec<u8>| x@));
                }
                DataKey::Note(out)
            },
        }
    }
}

/// The mathematical value of an entry.
pub struct NodeView {
    pub parent_hash: Seq<char>,
    pub parent_path: Seq<char>,
    pub name: Seq<char>,
    pub depth: nat,
    pub children: Seq<Seq<char>>,
    pub labels: Seq<Seq<char>>,
    pub values: Seq<DataKeyView>,
}

impl View for Node {
    type V = NodeView;

    open spec fn view(&self) -> NodeView {
        NodeView {
            parent_hash: self.parent_hash@,
            parent_path: self.parent_path@,
            name: self.name@,
            depth: self.depth as nat,
            children: texts(self.child_names@),
            labels: texts(self.data_labels@),
            values: self.data_values@.map_values(|d: DataKey| d@),
        }
    }
}

impl NodeView {
    /// The entry's name followed by the path of its ancestors.
    pub open spec fn full_name(self) -> Seq<char> {
        self.name + self.parent_path
    }

    /// The annotation under `label`, if any.
    pub open spec fn annotation(self, label: Seq<char>) -> Option<DataKeyView> {
        if self.labels.contains(label) {
            Some(self.values[self.labels.index_of(label)])
        } else {
            None
        }
    }

    pub open spec fn wf(self) -> bool {
        &&& strictly_sorted(self.children)
        &&& strictly_sorted(self.labels)
        &&& self.labels.len() == self.values.len()
        &&& forall|i: int|
            0 <= i < self.values.len() && (#[trigger] self.values[i] is Note) ==> self.values[i]->Note_0.len() > 0
    }

    /// A fresh entry with no children and no annotations.
    pub open spec fn fresh(parent_hash: Seq<char>, parent_path: Seq<char>, name: Seq<char>, depth: nat) -> NodeView {
        NodeView {
            parent_hash,
            parent_path,
            name,
            depth,
            children: Seq::empty(),
            labels: Seq::empty(),
            values: Seq::empty(),
        }
    }

    /// This entry with one more note under `label`. A fact there stays as it is.
    pub open spec fn with_note(self, label: Seq<char>, data: Seq<u8>) -> NodeView {
        if self.labels.contains(label) {
            let k = self.labels.index_of(label);
            match self.values[k] {
                DataKeyView::Note(h) => NodeView {
                    values: self.values.update(k, DataKeyView::Note(h.push(data))),
                    ..self
                },
                DataKeyView::Fact(_) => self,
            }
        } else {
            NodeView {
                labels: sorted_insert(self.labels, label),
                values: self.values.insert(ins_pos(self.labels, label), DataKeyView::Note(seq![data])),
                ..self
            }
        }
    }

    /// This entry with a fact under a label that it does not hold yet.
    pub open spec fn with_fact(self, label: Seq<char>, data: Seq<u8>) -> NodeView {
        NodeView {
            labels: sorted_insert(self.labels, label),
            values: self.values.insert(ins_pos(self.labels, label), DataKeyView::Fact(data)),
            ..self
        }
    }
}

/// The store as a mathematical value.
pub struct StoreModel {
    pub root: Seq<char>,
    /// Each entry by its hash.
    pub index: Map<Seq<char>, NodeView>,
    /// Each fully-qualified name to the hash of its entry.
    pub names: Map<Seq<char>, Seq<char>>,
}

/// The path that an entry created under `parent` gets.
pub open spec fn path_under(root: Seq<char>, parent_hash: Seq<char>, parent: NodeView) -> Seq<char> {
    if parent_hash == root {
        Seq::empty()
    } else {
        seq!['.'] + parent.name + parent.parent_path
    }
}

impl StoreModel {
    /// The root is present, with an empty name and path.
    pub open spec fn root_ok(self) -> bool {
        &&& self.index.contains_key(self.root)
        &&& self.index[self.root].name.len() == 0
        &&& self.index[self.root].parent_path.len() == 0
        &&& self.index[self.root].depth == 0
    }

    /// Every entry has fewer ancestors than the store has entries.
    pub open spec fn depths(self) -> bool {
        &&& self.index.dom().finite()
        &&& forall|h: Seq<char>| #[trigger] self.index.contains_key(h) ==> self.index[h].depth < self.index.dom().len()
    }

    /// Every child name resolves to an entry one level deeper.
    pub open spec fn kids_deeper(self) -> bool {
        forall|h: Seq<char>, i: int|
            self.index.contains_key(h) && 0 <= i < self.index[h].children.len()
                ==> self.index[self.names[#[trigger] self.index[h].children[i]]].depth == self.index[h].depth + 1
    }

    pub open spec fn nodes_wf(self) -> bool {
        forall|h: Seq<char>| #[trigger] self.index.contains_key(h) ==> self.index[h].wf()
    }

    /// Every entry but the root hangs under a present parent that lists it,
    /// and its path is the one that parent gives.
    pub open spec fn links(self) -> bool {
        forall|h: Seq<char>|
            #[trigger] self.index.contains_key(h) && h != self.root ==> {
                let p = self.index[h].parent_hash;
                &&& self.index.contains_key(p)
                &&& self.index[p].children.contains(self.index[h].full_name())
                &&& self.index[h].parent_path == path_under(self.root, p, self.index[p])
            }
    }

    /// Every entry's full name resolves to it.
    pub open spec fn named(self) -> bool {
        forall|h: Seq<char>|
            #[trigger] self.index.contains_key(h) ==> {
                &&& self.names.contains_key(self.index[h].full_name())
                &&& self.names[self.index[h].full_name()] == h
            }
    }

    /// Every name resolves to an entry with that full name.
    pub open spec fn resolves(self) -> bool {
        forall|n: Seq<char>|
            #[trigger] self.names.contains_key(n) ==> {
                &&& self.index.contains_key(self.names[n])
                &&& self.index[self.names[n]].full_name() == n
            }
    }

    /// Every child name is a resolvable name.
    pub open spec fn kids_named(self) -> bool {
        forall|h: Seq<char>, i: int|
            self.index.contains_key(h) && 0 <= i < self.index[h].children.len()
                ==> self.names.contains_key(#[trigger] self.index[h].children[i])
    }

    #[verifier::opaque]
    pub open spec fn wf(self) -> bool {
        &&& self.root_ok()
        &&& self.nodes_wf()
        &&& self.links()
        &&& self.named()
        &&& self.resolves()
        &&& self.kids_named()
        &&& self.depths()
        &&& self.kids_deeper()
    }

    /// What creating entry `c` named `n` under `p` reports.
    pub open spec fn create_outcome(self, p: Seq<char>, c: Seq<char>, n: Seq<char>) -> Result<(), StoreError> {
        if !self.index.contains_key(p) {
            Err(StoreError::OrphanParent)
        } else if self.index.contains_key(c) {
            if self.index[c].parent_hash == p && self.index[c].name == n {
                Ok(())
            } else {
                Err(StoreError::InvariantViolation)
            }
        } else if self.names.contains_key(n + path_under(self.root, p, self.index[p])) {
            Err(StoreError::InvariantViolation)
        } else {
            Ok(())
        }
    }

    /// The store after creating entry `c` named `n` under `p`.
    pub open spec fn create(self, p: Seq<char>, c: Seq<char>, n: Seq<char>) -> StoreModel {
        if self.create_outcome(p, c, n) is Ok && !self.index.contains_key(c) {
            let parent = self.index[p];
            let path = path_under(self.root, p, parent);
            let full = n + path;
            StoreModel {
                root: self.root,
                index: self.index.insert(
                    p,
                    NodeView { children: sorted_insert(parent.children, full), ..parent },
                ).insert(c, NodeView::fresh(p, path, n, parent.depth + 1)),
                names: self.names.insert(full, c),
            }
        } else {
            self
        }
    }

    /// What adding a note under `label` to entry `p` reports.
    pub open spec fn note_outcome(self, p: Seq<char>) -> Result<(), StoreError> {
        if self.index.contains_key(p) {
            Ok(())
        } else {
            Err(StoreError::OrphanParent)
        }
    }

    /// The store after adding a note under `label` to entry `p`.
    pub open spec fn note(self, p: Seq<char>, label: Seq<char>, data: Seq<u8>) -> StoreModel {
        if self.index.contains_key(p) {
            StoreModel { index: self.index.insert(p, self.index[p].with_note(label, data)), ..self }
        } else {
            self
        }
    }

    /// What setting a fact under `label` on entry `p` reports.
    pub open spec fn fact_outcome(self, p: Seq<char>, label: Seq<char>) -> Result<(), StoreError> {
        if !self.index.contains_key(p) {
            Err(StoreError::OrphanParent)
        } else if self.index[p].labels.contains(label) {
            Err(StoreError::DuplicateImmutable)
        } else {
            Ok(())
        }
    }

    /// The store after setting a fact under `label` on entry `p`.
    pub open spec fn fact(self, p: Seq<char>, label: Seq<char>, data: Seq<u8>) -> StoreModel {
        if self.fact_outcome(p, label) is Ok {
            StoreModel { index: self.index.insert(p, self.index[p].with_fact(label, data)), ..self }
        } else {
            self
        }
    }
}

/// Every entry of a well-formed store is well formed.
pub proof fn lemma_node_wf(m: StoreModel, h: Seq<char>)
    requires
        m.wf(),
        m.index.contains_key(h),
    ensures
        m.index[h].wf(),
        m.index[h].depth < m.index.dom().len(),
        m.index.dom().finite(),
{
    reveal(StoreModel::wf);
}

/// A creation that adds an entry.
pub open spec fn adds_entry(m: StoreModel, p: Seq<char>, c: Seq<char>, n: Seq<char>) -> bool {
    m.create_outcome(p, c, n) is Ok && !m.index.contains_key(c)
}

/// What a sorted insertion of a new name does to a list of children.
pub proof fn lemma_kids(s: Seq<Seq<char>>, x: Seq<char>)
    requires
        strictly_sorted(s),
        !s.contains(x),
    ensures
        strictly_sorted(sorted_insert(s, x)),
        sorted_insert(s, x).contains(x),
        forall|y: Seq<char>| s.contains(y) ==> #[trigger] sorted_insert(s, x).contains(y),
        forall|i: int|
            0 <= i < sorted_insert(s, x).len() ==> #[trigger] sorted_insert(s, x)[i] == x
                || s.contains(sorted_insert(s, x)[i]),
{
    let pos = ins_pos(s, x);
    crate::text::lemma_ins_pos_splits(s, x);
    lemma_insert_sorted(s, x, pos);
    let kids = sorted_insert(s, x);
    assert(kids[pos] == x);
    assert forall|y: Seq<char>| s.contains(y) implies #[trigger] kids.contains(y) by {
        let k = choose|k: int| 0 <= k < s.len() && s[k] == y;
        if k < pos {
            assert(kids[k] == y);
        } else {
            assert(kids[k + 1] == y);
        }
    }
    assert forall|i: int| 0 <= i < kids.len() implies #[trigger] kids[i] == x || s.contains(kids[i]) by {
        if i < pos {
            assert(kids[i] == s[i]);
        } else if i > pos {
            assert(kids[i] == s[i - 1]);
        }
    }
}

proof fn lemma_create_parent(m: StoreModel, p: Seq<char>, c: Seq<char>, n: Seq<char>)
    requires
        m.wf(),
        adds_entry(m, p, c, n),
    ensures
        ({
            let parent = m.index[p];
            let full = n + path_under(m.root, p, parent);
            &&& !parent.children.contains(full)
            &&& !m.names.contains_key(full)
            &&& c != m.root
            &&& c != p
            &&& strictly_sorted(parent.children)
        }),
{
    reveal(StoreModel::wf);
    let parent = m.index[p];
    let full = n + path_under(m.root, p, parent);
    if parent.children.contains(full) {
        let k = choose|k: int| 0 <= k < parent.children.len() && parent.children[k] == full;
        assert(m.names.contains_key(parent.children[k]));
    }
}

/// Creating an entry keeps the store well formed.
pub proof fn lemma_create_wf(m: StoreModel, p: Seq<char>, c: Seq<char>, n: Seq<char>)
    requires
        m.wf(),
    ensures
        m.create(p, c, n).wf(),
{
    reveal(StoreModel::wf);
    if adds_entry(m, p, c, n) {
        let parent = m.index[p];
        let path = path_under(m.root, p, parent);
        let full = n + path;
        let m2 = m.create(p, c, n);
        lemma_create_parent(m, p, c, n);
        lemma_kids(parent.children, full);
        lemma_create_links(m, p, c, n);
        lemma_create_names(m, p, c, n);
        assert(m2.nodes_wf());
        assert(m2.root_ok());
    }
}

proof fn lemma_create_links(m: StoreModel, p: Seq<char>, c: Seq<char>, n: Seq<char>)
    requires
        m.wf(),
        adds_entry(m, p, c, n),
    ensures
        m.create(p, c, n).links(),
{
    reveal(StoreModel::wf);
    let parent = m.index[p];
    let full = n + path_under(m.root, p, parent);
    let m2 = m.create(p, c, n);
    lemma_create_parent(m, p, c, n);
    lemma_kids(parent.children, full);
    assert(m2.index[c].full_name() == full);
    assert forall|h: Seq<char>| #[trigger] m2.index.contains_key(h) && h != m2.root implies {
        let q = m2.index[h].parent_hash;
        &&& m2.index.contains_key(q)
        &&& m2.index[q].children.contains(m2.index[h].full_name())
        &&& m2.index[h].parent_path == path_under(m2.root, q, m2.index[q])
    } by {
        if h != c {
            let q = m.index[h].parent_hash;
            assert(m.index.contains_key(h) && h != m.root);
            assert(m.index[q].children.contains(m.index[h].full_name()));
        }
    }
}

proof fn lemma_create_names(m: StoreModel, p: Seq<char>, c: Seq<char>, n: Seq<char>)
    requires
        m.wf(),
        adds_entry(m, p, c, n),
    ensures
        m.create(p, c, n).named(),
        m.create(p, c, n).resolves(),
        m.create(p, c, n).kids_named(),
{
    reveal(StoreModel::wf);
    let parent = m.index[p];
    let full = n + path_under(m.root, p, parent);
    let m2 = m.create(p, c, n);
    lemma_create_parent(m, p, c, n);
    lemma_kids(parent.children, full);
    assert(m2.index[c].full_name() == full);
    assert forall|h: Seq<char>| #[trigger] m2.index.contains_key(h) implies {
        &&& m2.names.contains_key(m2.index[h].full_name())
        &&& m2.names[m2.index[h].full_name()] == h
    } by {
        if h != c {
            assert(m.index.contains_key(h));
        }
    }
    assert forall|x: Seq<char>| #[trigger] m2.names.contains_key(x) implies {
        &&& m2.index.contains_key(m2.names[x])
        &&& m2.index[m2.names[x]].full_name() == x
    } by {
        if x != full {
            assert(m.names.contains_key(x));
        }
    }
    assert forall|h: Seq<char>, i: int|
        m2.index.contains_key(h) && 0 <= i < m2.index[h].children.len()
        implies m2.names.contains_key(#[trigger] m2.index[h].children[i]) by {
        if h == p {
            let y = m2.index[h].children[i];
            if y != full {
                let k = choose|k: int| 0 <= k < parent.children.len() && parent.children[k] == y;
                assert(m.names.contains_key(m.index[p].children[k]));
            }
        } else if h != c {
            assert(m.names.contains_key(m.index[h].children[i]));
        }
    }
}

/// What a note does to the annotations of one entry.
pub proof fn lemma_with_note(node: NodeView, label: Seq<char>, data: Seq<u8>)
    requires
        node.wf(),
    ensures
        node.with_note(label, data).wf(),
        node.with_note(label, data).annotation(label) == match node.annotation(label) {
            None => Some(DataKeyView::Note(seq![data])),
            Some(DataKeyView::Note(h)) => Some(DataKeyView::Note(h.push(data))),
            Some(DataKeyView::Fact(v)) => Some(DataKeyView::Fact(v)),
        },
{
    let n2 = node.with_note(label, data);
    if node.labels.contains(label) {
        let k = node.labels.index_of(label);
        assert(node.labels[k] == label);
    } else {
        let pos = ins_pos(node.labels, label);
        lemma_kids(node.labels, label);
        crate::text::lemma_ins_pos_splits(node.labels, label);
        assert(n2.labels[pos] == label);
        lemma_sorted_index_of(n2.labels, pos);
        assert forall|i: int| 0 <= i < n2.values.len() && (#[trigger] n2.values[i] is Note)
            implies n2.values[i]->Note_0.len() > 0 by {
            if i < pos {
                assert(n2.values[i] == node.values[i]);
            } else if i > pos {
                assert(n2.values[i] == node.values[i - 1]);
            }
        }
    }
}

/// What a fact under a new label does to the annotations of one entry.
pub proof fn lemma_with_fact(node: NodeView, label: Seq<char>, data: Seq<u8>)
    requires
        node.wf(),
        !node.labels.contains(label),
    ensures
        node.with_fact(label, data).wf(),
        node.with_fact(label, data).annotation(label) == Some(DataKeyView::Fact(data)),
{
    let n2 = node.with_fact(label, data);
    let pos = ins_pos(node.labels, label);
    lemma_kids(node.labels, label);
    crate::text::lemma_ins_pos_splits(node.labels, label);
    assert(n2.labels[pos] == label);
    lemma_sorted_index_of(n2.labels, pos);
    assert forall|i: int| 0 <= i < n2.values.len() && (#[trigger] n2.values[i] is Note)
        implies n2.values[i]->Note_0.len() > 0 by {
        if i < pos {
            assert(n2.values[i] == node.values[i]);
        } else if i > pos {
            assert(n2.values[i] == node.values[i - 1]);
        }
    }
}

/// Replacing the annotations of one entry keeps the store well formed.
pub proof fn lemma_reannotate_wf(m: StoreModel, p: Seq<char>, node: NodeView)
    requires
        m.wf(),
        m.index.contains_key(p),
        node.wf(),
        node.parent_hash == m.index[p].parent_hash,
        node.parent_path == m.index[p].parent_path,
        node.name == m.index[p].name,
        node.depth == m.index[p].depth,
        node.children == m.index[p].children,
    ensures
        (StoreModel { index: m.index.insert(p, node), ..m }).wf(),
{
    reveal(StoreModel::wf);
    let m2 = StoreModel { index: m.index.insert(p, node), ..m };
    assert(m2.links()) by {
        assert forall|h: Seq<char>| #[trigger] m2.index.contains_key(h) && h != m2.root implies {
            let q = m2.index[h].parent_hash;
            &&& m2.index.contains_key(q)
            &&& m2.index[q].children.contains(m2.index[h].full_name())
            &&& m2.index[h].parent_path == path_under(m2.root, q, m2.index[q])
        } by {
            assert(m.index.contains_key(h));
        }
    }
    assert(m2.named()) by {
        assert forall|h: Seq<char>| #[trigger] m2.index.contains_key(h) implies {
            &&& m2.names.contains_key(m2.index[h].full_name())
            &&& m2.names[m2.index[h].full_name()] == h
        } by {
            assert(m.index.contains_key(h));
        }
    }
    assert(m2.resolves()) by {
        assert forall|x: Seq<char>| #[trigger] m2.names.contains_key(x) implies {
            &&& m2.index.contains_key(m2.names[x])
            &&& m2.index[m2.names[x]].full_name() == x
        } by {
            assert(m.names.contains_key(x));
        }
    }
    assert(m2.kids_named()) by {
        assert forall|h: Seq<char>, i: int|
            m2.index.contains_key(h) && 0 <= i < m2.index[h].children.len()
            implies m2.names.contains_key(#[trigger] m2.index[h].children[i]) by {
            assert(m.names.contains_key(m.index[h].children[i]));
        }
    }
}

/// Adding a key that is not there yet to a list of distinct keys.
proof fn lemma_push_key(ks: Seq<String>, k: String)
    requires
        texts(ks).no_duplicates(),
        !texts(ks).contains(k@),
    ensures
        texts(ks.push(k)) == texts(ks).push(k@),
        texts(ks.push(k)).no_duplicates(),
        texts(ks.push(k)).to_set() == texts(ks).to_set().insert(k@),
{
    let t = texts(ks.push(k));
    assert(t =~= texts(ks).push(k@));
    assert forall|i: int, j: int| 0 <= i < t.len() && 0 <= j < t.len() && i != j implies t[i] != t[j] by {
        if i == ks.len() {
            assert(texts(ks)[j] == t[j]);
        } else if j == ks.len() {
            assert(texts(ks)[i] == t[i]);
        } else {
            assert(texts(ks)[i] == t[i] && texts(ks)[j] == t[j]);
        }
    }
    assert forall|y: Seq<char>| t.to_set().contains(y) <==> texts(ks).to_set().insert(k@).contains(y) by {
        if t.contains(y) {
            let i = choose|i: int| 0 <= i < t.len() && t[i] == y;
            if i < ks.len() {
                assert(texts(ks)[i] == y);
            }
        }
        if texts(ks).contains(y) {
            let i = choose|i: int| 0 <= i < texts(ks).len() && texts(ks)[i] == y;
            assert(t[i] == y);
        }
        if y == k@ {
            assert(t[ks.len() as int] == y);
        }
    }
    assert(t.to_set() =~= texts(ks).to_set().insert(k@));
}

/// The namespace index: entries by hash, and the name resolver.
pub struct State {
    root: String,
    hashes: Vec<String>,
    nodes: Vec<Node>,
    name_keys: Vec<String>,
    name_hashes: Vec<String>,
    index: Ghost<Map<Seq<char>, NodeView>>,
    names: Ghost<Map<Seq<char>, Seq<char>>>,
}

impl View for State {
    type V = StoreModel;

    closed spec fn view(&self) -> StoreModel {
        StoreModel { root: self.root@, index: self.index@, names: self.names@ }
    }
}

impl State {
    /// The vectors hold exactly what the model says.
    pub closed spec fn inv(&self) -> bool {
        &&& self@.wf()
        &&& self.hashes.len() == self.nodes.len()
        &&& self.name_keys.len() == self.name_hashes.len()
        &&& texts(self.hashes@).no_duplicates()
        &&& texts(self.name_keys@).no_duplicates()
        &&& self.index@.dom() == texts(self.hashes@).to_set()
        &&& self.names@.dom() == texts(self.name_keys@).to_set()
        &&& forall|i: int|
            0 <= i < self.nodes.len() ==> self.index@[#[trigger] self.hashes@[i]@] == self.nodes@[i]@
        &&& forall|i: int|
            0 <= i < self.name_keys.len() ==> self.names@[#[trigger] self.name_keys@[i]@]
                == self.name_hashes@[i]@
    }
}

impl State {
    /// An index that holds the root entry alone.
    pub fn new() -> (r: State)
        ensures
            r.inv(),
            r@.wf(),
            r@.root == ROOT_HASH@,
            r@.index == map![ROOT_HASH@ => NodeView::fresh(Seq::empty(), Seq::empty(), Seq::empty(), 0)],
            r@.names == map![Seq::<char>::empty() => ROOT_HASH@],
    {
        let root = String::from_str(ROOT_HASH);
        let node = Node {
            parent_hash: String::new(),
            parent_path: String::new(),
            name: String::new(),
            depth: 0,
            child_names: Vec::new(),
            data_labels: Vec::new(),
            data_values: Vec::new(),
        };
        let ghost nv = node@;
        let ghost gi = map![ROOT_HASH@ => nv];
        let ghost gn = map![Seq::<char>::empty() => ROOT_HASH@];
        let hashes = vec![root.clone()];
        let nodes = vec![node];
        let name_keys = vec![String::new()];
        let name_hashes = vec![root.clone()];
        let r = State {
            root,
            hashes,
            nodes,
            name_keys,
            name_hashes,
            index: Ghost(gi),
            names: Ghost(gn),
        };
        proof {
            assert(nv.children =~= Seq::empty());
            assert(nv.labels =~= Seq::empty());
            assert(nv.values =~= Seq::empty());
            assert(nv == NodeView::fresh(Seq::empty(), Seq::empty(), Seq::empty(), 0));
            assert(r.hashes@[0]@ == ROOT_HASH@);
            assert(texts(r.hashes@) =~= seq![ROOT_HASH@]);
            assert(texts(r.name_keys@) =~= seq![Seq::<char>::empty()]);
            assert forall|y: Seq<char>| texts(r.hashes@).to_set().contains(y) <==> r.index@.dom().contains(y) by {
                if y == ROOT_HASH@ {
                    assert(texts(r.hashes@)[0] == y);
                }
            }
            assert forall|y: Seq<char>| texts(r.name_keys@).to_set().contains(y) <==> r.names@.dom().contains(y) by {
                if y == Seq::<char>::empty() {
                    assert(texts(r.name_keys@)[0] == y);
                }
            }
            assert(r.index@.dom() =~= texts(r.hashes@).to_set());
            assert(r.names@.dom() =~= texts(r.name_keys@).to_set());
            assert(nv.full_name() =~= Seq::<char>::empty());
            reveal(StoreModel::wf);
            assert(r.index@.dom() =~= set![ROOT_HASH@]);
        }
        r
    }

    /// Position of the entry with hash `h` in the vectors.
    fn find_hash(&self, h: &str) -> (r: Option<usize>)
        requires
            self.inv(),
        ensures
            r is None <==> !self@.index.contains_key(h@),
            r is Some ==> r->0 < self.nodes.len() && self.hashes@[r->0 as int]@ == h@
                && self@.index[h@] == self.nodes@[r->0 as int]@,
    {
        let mut i: usize = 0;
        while i < self.hashes.len()
            invariant
                self.inv(),
                i <= self.hashes.len(),
                forall|j: int| 0 <= j < i ==> self.hashes@[j]@ != h@,
            decreases self.hashes.len() - i,
        {
            if str_eq(self.hashes[i].as_str(), h) {
                assert(texts(self.hashes@)[i as int] == h@);
                assert(texts(self.hashes@).to_set().contains(h@));
                return Some(i);
            }
            i = i + 1;
        }
        proof {
            if self@.index.contains_key(h@) {
                assert(texts(self.hashes@).contains(h@));
                let k = choose|k: int| 0 <= k < texts(self.hashes@).len() && texts(self.hashes@)[k] == h@;
                assert(self.hashes@[k]@ == h@);
            }
        }
        None
    }

    /// Position of the name `n` in the resolver's vectors.
    fn find_name(&self, n: &str) -> (r: Option<usize>)
        requires
            self.inv(),
        ensures
            r is None <==> !self@.names.contains_key(n@),
            r is Some ==> r->0 < self.name_keys.len() && self.name_keys@[r->0 as int]@ == n@
                && self@.names[n@] == self.name_hashes@[r->0 as int]@,
    {
        let mut i: usize = 0;
        while i < self.name_keys.len()
            invariant
                self.inv(),
                i <= self.name_keys.len(),
                forall|j: int| 0 <= j < i ==> self.name_keys@[j]@ != n@,
            decreases self.name_keys.len() - i,
        {
            if str_eq(self.name_keys[i].as_str(), n) {
                assert(texts(self.name_keys@)[i as int] == n@);
                assert(texts(self.name_keys@).to_set().contains(n@));
                return Some(i);
            }
            i = i + 1;
        }
        proof {
            if self@.names.contains_key(n@) {
                assert(texts(self.name_keys@).contains(n@));
                let k = choose|k: int| 0 <= k < texts(self.name_keys@).len() && texts(self.name_keys@)[k] == n@;
                assert(self.name_keys@[k]@ == n@);
            }
        }
        None
    }

    /// Puts a changed entry back at position `i`, with the model to match.
    fn replace_node(&mut self, i: usize, node: Node)
        requires
            old(self).inv(),
            i < old(self).nodes.len(),
            node@.wf(),
            ({
                let h = old(self).hashes@[i as int]@;
                let o = old(self)@.index[h];
                &&& node@.parent_hash == o.parent_hash
                &&& node@.parent_path == o.parent_path
                &&& node@.name == o.name
                &&& node@.depth == o.depth
                &&& node@.children == o.children
            }),
        ensures
            final(self).inv(),
            final(self)@ == (StoreModel {
                index: old(self)@.index.insert(old(self).hashes@[i as int]@, node@),
                ..old(self)@
            }),
            final(self).hashes@ == old(self).hashes@,
    {
        let ghost h = self.hashes@[i as int]@;
        let ghost nv = node@;
        proof {
            assert(texts(self.hashes@)[i as int] == h);
            lemma_reannotate_wf(self@, h, nv);
        }
        self.nodes.set(i, node);
        self.index = Ghost(self.index@.insert(h, nv));
        proof {
            assert forall|j: int| 0 <= j < self.nodes.len() implies self.index@[#[trigger] self.hashes@[j]@] == self.nodes@[j]@ by {
                if j != i {
                    assert(texts(self.hashes@)[j] != texts(self.hashes@)[i as int]);
                }
            }
            assert(self.index@.dom() =~= texts(self.hashes@).to_set());
        }
    }
}

impl State {
    /// Appends `data` to the history of the mutable annotation `note_label`
    /// of entry `parent_hash`, starting the history on its first write.
    pub fn add_note(&mut self, parent_hash: &str, note_label: String, data: Vec<u8>) -> (r: Result<(), StoreError>)
        requires
            old(self).inv(),
        ensures
            final(self).inv(),
            final(self)@.wf(),
            r == old(self)@.note_outcome(parent_hash@),
            final(self)@ == old(self)@.note(parent_hash@, note_label@, data@),
    {
        let pi = match self.find_hash(parent_hash) {
            Some(i) => i,
            None => return Err(StoreError::OrphanParent),
        };
        let ghost old_node = self.nodes@[pi as int]@;
        proof {
            lemma_node_wf(self@, parent_hash@);
        }
        let mut node = self.nodes[pi].clone_node();
        let (k, found) = locate(&node.data_labels, note_label.as_str());
        if found {
            let ghost vs = node.data_values@;
            let v = node.data_values.remove(k);
            let v2 = match v {
                DataKey::Note(h) => {
                    let mut h = h;
                    let ghost hv = h@;
                    h.push(data);
                    proof {
                        assert(h@.map_values(|x: Vec<u8>| x@) =~= hv.map_values(|x: Vec<u8>| x@).push(data@));
                    }
                    DataKey::Note(h)
                },
                DataKey::Fact(b) => DataKey::Fact(b),
            };
            node.data_values.insert(k, v2);
            proof {
                lemma_sorted_index_of(old_node.labels, k as int);
                assert(node.data_values@ =~= vs.update(k as int, v2));
                assert(node@.values =~= old_node.values.update(k as int, v2@));
                if v is Fact {
                    assert(node@.values =~= old_node.values);
                }
                assert(node@ == old_node.with_note(note_label@, data@));
            }
        } else {
            let ghost vs = node.data_values@;
            let ghost ls = node.data_labels@;
            node.data_labels.insert(k, note_label);
            let hist = vec![data];
            let ghost hv = hist@;
            node.data_values.insert(k, DataKey::Note(hist));
            proof {
                assert(hv.map_values(|x: Vec<u8>| x@) =~= seq![data@]);
                assert(texts(node.data_labels@) =~= texts(ls).insert(k as int, note_label@));
                assert(node@.values =~= old_node.values.insert(k as int, DataKeyView::Note(seq![data@])));
                assert(node@ == old_node.with_note(note_label@, data@));
            }
        }
        proof {
            lemma_with_note(old_node, note_label@, data@);
        }
        self.replace_node(pi, node);
        Ok(())
    }

    /// Sets the immutable annotation `fact_label` of entry `parent_hash`.
    /// A label that the entry already holds is refused and left as it is.
    pub fn add_fact(&mut self, parent_hash: &str, fact_label: String, data: Vec<u8>) -> (r: Result<(), StoreError>)
        requires
            old(self).inv(),
        ensures
            final(self).inv(),
            final(self)@.wf(),
            r == old(self)@.fact_outcome(parent_hash@, fact_label@),
            final(self)@ == old(self)@.fact(parent_hash@, fact_label@, data@),
    {
        let pi = match self.find_hash(parent_hash) {
            Some(i) => i,
            None => return Err(StoreError::OrphanParent),
        };
        let ghost old_node = self.nodes@[pi as int]@;
        proof {
            lemma_node_wf(self@, parent_hash@);
        }
        let (k, found) = locate(&self.nodes[pi].data_labels, fact_label.as_str());
        if found {
            return Err(StoreError::DuplicateImmutable);
        }
        let mut node = self.nodes[pi].clone_node();
        let ghost ls = node.data_labels@;
        node.data_labels.insert(k, fact_label);
        node.data_values.insert(k, DataKey::Fact(data));
        proof {
            assert(texts(node.data_labels@) =~= texts(ls).insert(k as int, fact_label@));
            assert(node@.values =~= old_node.values.insert(k as int, DataKeyView::Fact(data@)));
            assert(node@ == old_node.with_fact(fact_label@, data@));
            lemma_with_fact(old_node, fact_label@, data@);
        }
        self.replace_node(pi, node);
        Ok(())
    }
}

impl State {
    /// Creates entry `child_hash` named `name` under `parent_hash`, and makes
    /// its fully-qualified name resolve to it. Creating an entry again with
    /// the same parent and name changes nothing.
    pub fn add_mint(&mut self, parent_hash: &str, child_hash: String, name: String) -> (r: Result<(), StoreError>)
        requires
            old(self).inv(),
        ensures
            final(self).inv(),
            final(self)@.wf(),
            r == old(self)@.create_outcome(parent_hash@, child_hash@, name@),
            final(self)@ == old(self)@.create(parent_hash@, child_hash@, name@),
    {
        let pi = match self.find_hash(parent_hash) {
            Some(i) => i,
            None => return Err(StoreError::OrphanParent),
        };
        match self.find_hash(child_hash.as_str()) {
            Some(ci) => {
                if str_eq(self.nodes[ci].parent_hash.as_str(), parent_hash) && str_eq(
                    self.nodes[ci].name.as_str(),
                    name.as_str(),
                ) {
                    return Ok(());
                }
                return Err(StoreError::InvariantViolation);
            },
            None => {},
        }
        let ghost m = self@;
        let ghost pv = self.nodes@[pi as int]@;
        proof {
            lemma_node_wf(m, parent_hash@);
            texts(self.hashes@).unique_seq_to_set();
        }
        let mut path = String::new();
        if !str_eq(parent_hash, self.root.as_str()) {
            push_char(&mut path, '.');
            path.append(self.nodes[pi].name.as_str());
            path.append(self.nodes[pi].parent_path.as_str());
        }
        assert(path@ =~= path_under(m.root, parent_hash@, pv));
        let mut full = name.clone();
        full.append(path.as_str());
        if self.find_name(full.as_str()).is_some() {
            return Err(StoreError::InvariantViolation);
        }
        let ghost p = parent_hash@;
        let ghost c = child_hash@;
        let ghost n = name@;
        proof {
            lemma_create_parent(m, p, c, n);
            lemma_create_wf(m, p, c, n);
        }
        let mut parent = self.nodes[pi].clone_node();
        let (pos, _found) = locate(&parent.child_names, full.as_str());
        let ghost cs = parent.child_names@;
        parent.child_names.insert(pos, full.clone());
        proof {
            assert(texts(parent.child_names@) =~= texts(cs).insert(pos as int, full@));
        }
        let ghost m2 = m.create(p, c, n);
        assert(parent@ == m2.index[p]);
        self.nodes.set(pi, parent);
        let child = Node {
            parent_hash: String::from_str(parent_hash),
            parent_path: path,
            name,
            depth: self.nodes[pi].depth + 1,
            child_names: Vec::new(),
            data_labels: Vec::new(),
            data_values: Vec::new(),
        };
        proof {
            assert(child@.children =~= Seq::empty());
            assert(child@.labels =~= Seq::empty());
            assert(child@.values =~= Seq::empty());
            assert(child@ == m2.index[c]);
        }
        let ghost hs = self.hashes@;
        let ghost ks = self.name_keys@;
        let ghost full_s = full;
        let ghost child_s = child_hash;
        self.hashes.push(child_hash.clone());
        self.nodes.push(child);
        self.name_keys.push(full);
        self.name_hashes.push(child_hash);
        self.index = Ghost(m2.index);
        self.names = Ghost(m2.names);
        proof {
            assert(!texts(hs).contains(c)) by {
                assert(!texts(hs).to_set().contains(c));
            }
            assert(!texts(ks).contains(full@)) by {
                assert(!texts(ks).to_set().contains(full@));
            }
            lemma_push_key(hs, child_s);
            lemma_push_key(ks, full_s);
            assert(m2.index.dom() =~= m.index.dom().insert(c));
            assert(m2.names.dom() =~= m.names.dom().insert(full@));
            assert forall|i: int| 0 <= i < self.nodes.len() implies self.index@[#[trigger] self.hashes@[i]@] == self.nodes@[i]@ by {
                if i < hs.len() && i != pi {
                    assert(texts(hs)[i] != texts(hs)[pi as int]);
                    assert(texts(hs)[i] != c);
                }
            }
            assert forall|i: int| 0 <= i < self.name_keys.len() implies self.names@[#[trigger] self.name_keys@[i]@] == self.name_hashes@[i]@ by {
                if i < ks.len() {
                    assert(texts(ks)[i] != full@);
                }
            }
        }
        Ok(())
    }
}

impl State {
    /// The entry with hash `hash`, if any.
    pub fn get(&self, hash: &str) -> (r: Option<&Node>)
        requires
            self.inv(),
        ensures
            r is Some <==> self@.index.contains_key(hash@),
            r is Some ==> r->0@ == self@.index[hash@] && r->0@.wf() && r->0@.depth < self@.index.dom().len(),
    {
        proof {
            if self@.index.contains_key(hash@) {
                lemma_node_wf(self@, hash@);
            }
        }
        match self.find_hash(hash) {
            Some(i) => Some(&self.nodes[i]),
            None => None,
        }
    }

    /// The hash that the fully-qualified name `name` resolves to, if any.
    pub fn resolve(&self, name: &str) -> (r: Option<String>)
        requires
            self.inv(),
        ensures
            r is Some <==> self@.names.contains_key(name@),
            r is Some ==> r->0@ == self@.names[name@],
    {
        match self.find_name(name) {
            Some(i) => Some(self.name_hashes[i].clone()),
            None => None,
        }
    }

    /// The entry whose fully-qualified name is `name`, if any.
    pub fn lookup_by_name(&self, name: &str) -> (r: Option<&Node>)
        requires
            self.inv(),
        ensures
            r is Some <==> self@.names.contains_key(name@),
            r is Some ==> r->0@ == self@.index[self@.names[name@]] && r->0@.full_name() == name@,
    {
        proof {
            reveal(StoreModel::wf);
        }
        match self.find_name(name) {
            Some(i) => self.get(self.name_hashes[i].as_str()),
            None => None,
        }
    }

    /// The invariant gives a well-formed model.
    pub proof fn lemma_wf(&self)
        requires
            self.inv(),
        ensures
            self@.wf(),
    {
    }

    /// The number of entries, the root included.
    pub fn len(&self) -> (r: usize)
        requires
            self.inv(),
        ensures
            r == self@.index.dom().len(),
    {
        proof {
            texts(self.hashes@).unique_seq_to_set();
        }
        self.hashes.len()
    }
}

} // verus!
