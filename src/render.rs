//! Text rendering of a subtree of the index.
use vstd::prelude::*;
use vstd::string::*;
use crate::store::{State, StoreModel, NodeView, Node, DataKey};
use crate::text::{decimal, push_char, push_decimal};

verus! {

pub open spec fn crlf() -> Seq<char> {
    seq!['\r', '\n']
}

/// The branch mark in front of a name.
pub open spec fn branch() -> Seq<char> {
    seq!['└', '─', ' ']
}

/// Four spaces for each level of nesting.
pub open spec fn indent(level: nat) -> Seq<char> {
    Seq::new(4 * level, |i: int| ' ')
}

/// The first line of an entry: its name, or `.` for the root, then its path.
pub open spec fn head(node: NodeView) -> Seq<char> {
    (if node.name.len() == 0 { seq!['.'] } else { branch() + node.name }) + node.parent_path
}

/// One line for an annotation: its label and the byte length of its current value.
pub open spec fn annotation_line(node: NodeView, level: nat, k: int) -> Seq<char> {
    crlf() + indent(level) + branch() + node.labels[k] + seq![':', ' ']
        + decimal(node.values[k].current_len()) + seq![' ', 'b', 'y', 't', 'e', 's']
}

/// The lines of the first `n` annotations, in label order.
pub open spec fn annotation_lines(node: NodeView, level: nat, n: nat) -> Seq<char>
    decreases n,
{
    if n == 0 {
        Seq::empty()
    } else {
        annotation_lines(node, level, (n - 1) as nat) + annotation_line(node, level, n - 1)
    }
}

/// The blocks of the children named in `kids`, each on its own line; a name
/// that does not resolve leaves its line empty.
pub open spec fn child_blocks(m: StoreModel, kids: Seq<Seq<char>>, level: nat, fuel: nat) -> Seq<char>
    decreases fuel, kids.len(),
{
    if kids.len() == 0 {
        Seq::empty()
    } else {
        let c = kids.last();
        child_blocks(m, kids.drop_last(), level, fuel) + crlf() + if m.names.contains_key(c) {
            indent(level) + render(m, m.names[c], level + 1, fuel)
        } else {
            Seq::empty()
        }
    }
}

/// The rendering of entry `h` at nesting `level`, descending at most `fuel`
/// levels. An unknown entry renders as empty text.
pub open spec fn render(m: StoreModel, h: Seq<char>, level: nat, fuel: nat) -> Seq<char>
    decreases fuel, 0nat,
{
    if fuel == 0 || !m.index.contains_key(h) {
        Seq::empty()
    } else {
        let node = m.index[h];
        head(node) + annotation_lines(node, level, node.labels.len()) + child_blocks(
            m,
            node.children,
            level,
            (fuel - 1) as nat,
        )
    }
}

/// The whole rendering of entry `h`: enough levels to reach its deepest
/// descendant, since no entry has as many ancestors as the store has entries.
pub open spec fn render_full(m: StoreModel, h: Seq<char>, level: nat) -> Seq<char> {
    if m.index.contains_key(h) {
        render(m, h, level, (m.index.dom().len() - m.index[h].depth) as nat)
    } else {
        Seq::empty()
    }
}

/// The blocks of the children named in `kids`, each rendered whole.
pub open spec fn child_blocks_full(m: StoreModel, kids: Seq<Seq<char>>, level: nat) -> Seq<char>
    decreases kids.len(),
{
    if kids.len() == 0 {
        Seq::empty()
    } else {
        let c = kids.last();
        child_blocks_full(m, kids.drop_last(), level) + crlf() + if m.names.contains_key(c) {
            indent(level) + render_full(m, m.names[c], level + 1)
        } else {
            Seq::empty()
        }
    }
}

proof fn lemma_child_blocks_full(m: StoreModel, h: Seq<char>, level: nat, n: int)
    requires
        m.wf(),
        m.index.contains_key(h),
        0 <= n <= m.index[h].children.len(),
    ensures
        child_blocks(
            m,
            m.index[h].children.take(n),
            level,
            (m.index.dom().len() - m.index[h].depth - 1) as nat,
        ) == child_blocks_full(m, m.index[h].children.take(n), level),
    decreases n,
{
    let kids = m.index[h].children.take(n);
    if n > 0 {
        assert(kids.drop_last() =~= m.index[h].children.take(n - 1));
        lemma_child_blocks_full(m, h, level, n - 1);
        reveal(StoreModel::wf);
        let c = kids.last();
        assert(c == m.index[h].children[n - 1]);
        assert(m.names.contains_key(c));
        assert(m.index[m.names[c]].depth == m.index[h].depth + 1);
    }
}

/// Rendering an entry whole is its head, its annotation lines, then each
/// child rendered whole one level deeper: no subtree is ever cut short.
pub proof fn lemma_render_unfolds(m: StoreModel, h: Seq<char>, level: nat)
    requires
        m.wf(),
        m.index.contains_key(h),
    ensures
        render_full(m, h, level) == head(m.index[h]) + annotation_lines(
            m.index[h],
            level,
            m.index[h].labels.len(),
        ) + child_blocks_full(m, m.index[h].children, level),
{
    crate::store::lemma_node_wf(m, h);
    lemma_child_blocks_full(m, h, level, m.index[h].children.len() as int);
    assert(m.index[h].children.take(m.index[h].children.len() as int) =~= m.index[h].children);
}

fn push_crlf(s: &mut String)
    ensures
        final(s)@ == old(s)@ + crlf(),
{
    push_char(s, '\r');
    push_char(s, '\n');
    assert(final(s)@ =~= old(s)@ + crlf());
}

fn push_branch(s: &mut String)
    ensures
        final(s)@ == old(s)@ + branch(),
{
    push_char(s, '└');
    push_char(s, '─');
    push_char(s, ' ');
    assert(final(s)@ =~= old(s)@ + branch());
}

fn push_indent(s: &mut String, level: usize)
    ensures
        final(s)@ == old(s)@ + indent(level as nat),
{
    let mut i: usize = 0;
    while i < level
        invariant
            i <= level,
            s@ == old(s)@ + indent(i as nat),
        decreases level - i,
    {
        let ghost before = s@;
        push_char(s, ' ');
        push_char(s, ' ');
        push_char(s, ' ');
        push_char(s, ' ');
        assert(s@ =~= before + seq![' ', ' ', ' ', ' ']);
        assert(indent((i + 1) as nat) =~= indent(i as nat) + seq![' ', ' ', ' ', ' ']);
        i = i + 1;
    }
}

/// Byte length of the current value of an annotation.
fn current_len(d: &DataKey) -> (r: usize)
    requires
        d@ is Note ==> d@->Note_0.len() > 0,
    ensures
        r == d@.current_len(),
{
    match d {
        DataKey::Fact(b) => b.len(),
        DataKey::Note(h) => h[h.len() - 1].len(),
    }
}

fn head_text(node: &Node) -> (r: String)
    ensures
        r@ == head(node@),
{
    let mut out = String::new();
    if node.name.as_str().is_empty() {
        push_char(&mut out, '.');
    } else {
        push_branch(&mut out);
        out.append(node.name.as_str());
    }
    out.append(node.parent_path.as_str());
    assert(out@ =~= head(node@));
    out
}

fn append_annotations(out: &mut String, node: &Node, level: usize)
    requires
        node@.wf(),
    ensures
        final(out)@ == old(out)@ + annotation_lines(node@, level as nat, node@.labels.len()),
{
    let ghost nv = node@;
    let ghost start = out@;
    let mut k: usize = 0;
    assert(out@ =~= start + annotation_lines(nv, level as nat, 0));
    while k < node.data_labels.len()
        invariant
            nv == node@,
            nv.wf(),
            k <= node.data_labels.len(),
            out@ == start + annotation_lines(nv, level as nat, k as nat),
        decreases node.data_labels.len() - k,
    {
        let ghost before = out@;
        assert(nv.values[k as int] == node.data_values@[k as int]@);
        push_crlf(out);
        push_indent(out, level);
        push_branch(out);
        out.append(node.data_labels[k].as_str());
        push_char(out, ':');
        push_char(out, ' ');
        push_decimal(out, current_len(&node.data_values[k]));
        push_char(out, ' ');
        push_char(out, 'b');
        push_char(out, 'y');
        push_char(out, 't');
        push_char(out, 'e');
        push_char(out, 's');
        assert(out@ =~= before + annotation_line(nv, level as nat, k as int));
        assert(annotation_lines(nv, level as nat, (k + 1) as nat) == annotation_lines(nv, level as nat, k as nat) + annotation_line(nv, level as nat, k as int));
        k = k + 1;
    }
}

impl State {
    fn tree_rec(&self, h: &str, level: usize, fuel: usize) -> (r: String)
        requires
            self.inv(),
            level + fuel <= usize::MAX,
        ensures
            r@ == render(self@, h@, level as nat, fuel as nat),
        decreases fuel,
    {
        if fuel == 0 {
            return String::new();
        }
        let node = match self.get(h) {
            Some(n) => n,
            None => return String::new(),
        };
        let ghost nv = node@;
        let mut out = head_text(node);
        append_annotations(&mut out, node, level);
        let ghost top = out@;
        let mut i: usize = 0;
        assert(nv.children.take(0) =~= Seq::<Seq<char>>::empty());
        while i < node.child_names.len()
            invariant
                nv == node@,
                self.inv(),
                level + fuel <= usize::MAX,
                fuel > 0,
                i <= node.child_names.len(),
                out@ == top + child_blocks(self@, nv.children.take(i as int), level as nat, (fuel - 1) as nat),
            decreases node.child_names.len() - i,
        {
            let ghost before = out@;
            let ghost kids = nv.children.take(i as int + 1);
            assert(kids.drop_last() =~= nv.children.take(i as int));
            assert(kids.last() == node.child_names@[i as int]@);
            push_crlf(&mut out);
            match self.resolve(node.child_names[i].as_str()) {
                Some(ch) => {
                    push_indent(&mut out, level);
                    let sub = self.tree_rec(ch.as_str(), level + 1, fuel - 1);
                    out.append(sub.as_str());
                },
                None => {},
            }
            assert(out@ =~= top + child_blocks(self@, kids, level as nat, (fuel - 1) as nat));
            i = i + 1;
        }
        assert(nv.children.take(i as int) =~= nv.children);
        assert(out@ =~= head(nv) + annotation_lines(nv, level as nat, nv.labels.len()) + child_blocks(
            self@,
            nv.children,
            level as nat,
            (fuel - 1) as nat,
        ));
        out
    }

    /// Renders the whole subtree under `root_hash` as text, one line per
    /// entry and per annotation, children in lexicographic order of their
    /// full names, each nesting level indented by four more spaces. An
    /// unknown hash renders as empty text.
    pub fn tree(&self, root_hash: &str, nest_level: usize) -> (r: String)
        requires
            self.inv(),
            nest_level + self@.index.dom().len() <= usize::MAX,
        ensures
            r@ == render_full(self@, root_hash@, nest_level as nat),
    {
        match self.get(root_hash) {
            None => String::new(),
            Some(node) => {
                let fuel = self.len() - node.depth;
                self.tree_rec(root_hash, nest_level, fuel)
            },
        }
    }
}

} // verus!
