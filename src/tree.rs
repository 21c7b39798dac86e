use vstd::prelude::*;
use crate::kind::SyntaxKind;

verus! {

/// One step of a depth-first walk of the tree: entering a node, a leaf
/// token, or leaving a node.
pub enum Entry {
    Open { kind: SyntaxKind },
    Leaf { kind: SyntaxKind, text: Vec<u8> },
    Close,
}

pub enum EntryView {
    Open(SyntaxKind),
    Leaf(SyntaxKind, Seq<u8>),
    Close,
}

impl View for Entry {
    type V = EntryView;

    open spec fn view(&self) -> EntryView {
        match self {
            Entry::Open { kind } => EntryView::Open(*kind),
            Entry::Leaf { kind, text } => EntryView::Leaf(*kind, text@),
            Entry::Close => EntryView::Close,
        }
    }
}

pub open spec fn entry_views(s: Seq<Entry>) -> Seq<EntryView> {
    s.map_values(|e: Entry| e@)
}

/// The leaf tokens of a walk, in document order.
pub open spec fn leaves(s: Seq<EntryView>) -> Seq<(SyntaxKind, Seq<u8>)>
    decreases s.len(),
{
    if s.len() == 0 {
        Seq::empty()
    } else {
        leaves(s.drop_last()) + match s.last() {
            EntryView::Leaf(k, t) => seq![(k, t)],
            _ => Seq::empty(),
        }
    }
}

pub proof fn lemma_leaves_push(s: Seq<EntryView>, e: EntryView)
    ensures
        leaves(s.push(e)) == leaves(s) + match e {
            EntryView::Leaf(k, t) => seq![(k, t)],
            _ => Seq::empty(),
        },
{
    assert(s.push(e).drop_last() =~= s);
}

/// How many `Error` nodes a walk enters.
pub open spec fn error_nodes(s: Seq<EntryView>) -> nat
    decreases s.len(),
{
    if s.len() == 0 {
        0
    } else {
        error_nodes(s.drop_last()) + if s.last() == EntryView::Open(SyntaxKind::Error) {
            1nat
        } else {
            0nat
        }
    }
}

pub proof fn lemma_error_nodes_append(a: Seq<EntryView>, b: Seq<EntryView>)
    ensures
        error_nodes(a + b) == error_nodes(a) + error_nodes(b),
    decreases b.len(),
{
    if b.len() == 0 {
        assert(a + b =~= a);
    } else {
        lemma_error_nodes_append(a, b.drop_last());
        assert((a + b).drop_last() =~= a + b.drop_last());
    }
}

/// An immutable concrete syntax tree, stored as its depth-first walk. Spans
/// are not stored: a node spans the bytes of the leaves inside it.
pub struct SyntaxTree {
    pub entries: Vec<Entry>,
}

/// The kind of the node or leaf at entry `i`; none for a `Close`.
pub open spec fn entry_kind(w: Seq<EntryView>, i: int) -> Option<SyntaxKind> {
    match w[i] {
        EntryView::Open(k) => Some(k),
        EntryView::Leaf(k, _) => Some(k),
        EntryView::Close => None,
    }
}

/// The entries of the direct children, from entry `j` on, of a node that
/// is `depth` levels up.
pub open spec fn child_list(w: Seq<EntryView>, j: int, depth: nat) -> Seq<usize>
    decreases w.len() - j,
{
    if j < 0 || j >= w.len() {
        Seq::empty()
    } else {
        let here: Seq<usize> = if depth == 1 {
            seq![j as usize]
        } else {
            Seq::empty()
        };
        match w[j] {
            EntryView::Open(_) => here + child_list(w, j + 1, depth + 1),
            EntryView::Leaf(_, _) => here + child_list(w, j + 1, depth),
            EntryView::Close => if depth <= 1 {
                Seq::empty()
            } else {
                child_list(w, j + 1, (depth - 1) as nat)
            },
        }
    }
}

/// The entries of the direct children of the node entered at `i`.
pub open spec fn children_of(w: Seq<EntryView>, i: int) -> Seq<usize> {
    match w[i] {
        EntryView::Open(_) => child_list(w, i + 1, 1),
        _ => Seq::empty(),
    }
}

impl SyntaxTree {
    pub open spec fn walk(&self) -> Seq<EntryView> {
        entry_views(self.entries@)
    }

    /// The entry of the root node.
    pub fn root(&self) -> (r: usize)
        ensures
            r == 0,
    {
        0
    }

    /// The kind of the node or leaf at entry `i`.
    pub fn kind(&self, i: usize) -> (r: Option<SyntaxKind>)
        requires
            i < self.entries@.len(),
        ensures
            r == entry_kind(self.walk(), i as int),
    {
        match &self.entries[i] {
            Entry::Open { kind } => Some(*kind),
            Entry::Leaf { kind, .. } => Some(*kind),
            Entry::Close => None,
        }
    }

    /// The entries of the direct children of the node entered at `i`, in
    /// order; a leaf has none.
    pub fn children(&self, i: usize) -> (r: Vec<usize>)
        requires
            i < self.entries@.len(),
        ensures
            r@ == children_of(self.walk(), i as int),
    {
        let ghost w = self.walk();
        let n = self.entries.len();
        let mut out: Vec<usize> = Vec::new();
        match &self.entries[i] {
            Entry::Open { .. } => {},
            _ => {
                return out;
            },
        }
        assert(i < n);
        let mut j: usize = i + 1;
        let mut depth: usize = 1;
        proof {
            assert(out@ + child_list(w, j as int, 1) =~= child_list(w, j as int, 1));
        }
        while j < self.entries.len()
            invariant
                w == self.walk(),
                i < j <= w.len(),
                1 <= depth <= j - i,
                out@ + child_list(w, j as int, depth as nat) == child_list(w, i + 1, 1),
                w[i as int] is Open,
            decreases w.len() - j,
        {
            let ghost before = out@;
            match &self.entries[j] {
                Entry::Open { .. } => {
                    if depth == 1 {
                        out.push(j);
                    }
                    assert(out@ + child_list(w, j + 1, (depth + 1) as nat) =~= before + child_list(
                        w,
                        j as int,
                        depth as nat,
                    ));
                    depth = depth + 1;
                },
                Entry::Leaf { .. } => {
                    if depth == 1 {
                        out.push(j);
                    }
                    assert(out@ + child_list(w, j + 1, depth as nat) =~= before + child_list(
                        w,
                        j as int,
                        depth as nat,
                    ));
                },
                Entry::Close => {
                    if depth <= 1 {
                        assert(child_list(w, j as int, depth as nat) =~= Seq::<usize>::empty());
                        assert(out@ =~= child_list(w, i + 1, 1));
                        return out;
                    }
                    depth = depth - 1;
                },
            }
            j = j + 1;
        }
        assert(child_list(w, j as int, depth as nat) =~= Seq::<usize>::empty());
        assert(out@ =~= child_list(w, i + 1, 1));
        out
    }
}

} // verus!
