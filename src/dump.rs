use vstd::prelude::*;
use vstd::utf8::encode_utf8;
use crate::kind::{SyntaxKind, kind_name};
use crate::lexer::texts;
use crate::tree::{Entry, EntryView, SyntaxTree, entry_views, leaves};

verus! {

/// The decimal digits of `n`.
pub open spec fn decimal(n: nat) -> Seq<u8>
    decreases n,
{
    if n < 10 {
        seq![(48 + n) as u8]
    } else {
        decimal(n / 10) + seq![(48 + n % 10) as u8]
    }
}

/// A lower-case hexadecimal digit.
pub open spec fn hex_digit(v: u8) -> u8 {
    if v < 10 {
        (48 + v) as u8
    } else {
        (87 + v) as u8
    }
}

/// A byte in hexadecimal, without leading zeros.
pub open spec fn hex(x: u8) -> Seq<u8> {
    if x < 16 {
        seq![hex_digit(x)]
    } else {
        seq![hex_digit(x / 16), hex_digit(x % 16)]
    }
}

/// A byte as it is quoted in the dump, as Rust's `Debug` quotes strings:
/// the usual backslash escapes, `\u{..}` for other control characters.
pub open spec fn escape_byte(x: u8) -> Seq<u8> {
    if x == 0 {
        seq![92u8, 48u8]
    } else if x == 10 {
        seq![92u8, 110u8]
    } else if x == 13 {
        seq![92u8, 114u8]
    } else if x == 9 {
        seq![92u8, 116u8]
    } else if x == 92 {
        seq![92u8, 92u8]
    } else if x == 34 {
        seq![92u8, 34u8]
    } else if x < 32 || x == 127 {
        seq![92u8, 117u8, 123u8] + hex(x) + seq![125u8]
    } else {
        seq![x]
    }
}

pub open spec fn escaped(t: Seq<u8>) -> Seq<u8>
    decreases t.len(),
{
    if t.len() == 0 {
        Seq::empty()
    } else {
        escaped(t.drop_last()) + escape_byte(t.last())
    }
}

/// Two spaces per level of nesting.
pub open spec fn indent(depth: nat) -> Seq<u8>
    decreases depth,
{
    if depth == 0 {
        Seq::empty()
    } else {
        indent((depth - 1) as nat) + seq![32u8, 32u8]
    }
}

pub open spec fn name_bytes(k: SyntaxKind) -> Seq<u8> {
    encode_utf8(kind_name(k))
}

/// The bytes of the leaves from entry `i` on, up to the `Close` that ends
/// a walk `depth` levels deep (or the end of the walk).
pub open spec fn span_len(w: Seq<EntryView>, i: int, depth: nat) -> nat
    decreases w.len() - i,
{
    if i < 0 || i >= w.len() {
        0
    } else {
        match w[i] {
            EntryView::Open(_) => span_len(w, i + 1, depth + 1),
            EntryView::Leaf(_, t) => t.len() + span_len(w, i + 1, depth),
            EntryView::Close => if depth <= 1 {
                0
            } else {
                span_len(w, i + 1, (depth - 1) as nat)
            },
        }
    }
}

/// `<Kind>@<start>..<end>`
pub open spec fn head(k: SyntaxKind, start: nat, end: nat) -> Seq<u8> {
    name_bytes(k) + seq![64u8] + decimal(start) + seq![46u8, 46u8] + decimal(end)
}

/// The dump's lines for the entries from `i` on, each ending in a newline;
/// `off` is the byte offset reached at entry `i`.
pub open spec fn lines_from(w: Seq<EntryView>, i: int, depth: nat, off: nat) -> Seq<u8>
    decreases w.len() - i,
{
    if i < 0 || i >= w.len() {
        Seq::empty()
    } else {
        match w[i] {
            EntryView::Open(k) => indent(depth) + head(k, off, off + span_len(w, i + 1, 1)) + seq![10u8]
                + lines_from(w, i + 1, depth + 1, off),
            EntryView::Leaf(k, t) => indent(depth) + head(k, off, off + t.len()) + seq![32u8, 34u8]
                + escaped(t) + seq![34u8, 10u8] + lines_from(w, i + 1, depth, off + t.len()),
            EntryView::Close => lines_from(w, i + 1, if depth == 0 {
                0
            } else {
                (depth - 1) as nat
            }, off),
        }
    }
}

/// The canonical dump of a walk: one line per node or leaf, depth first,
/// with no newline at the end.
pub open spec fn dump(w: Seq<EntryView>) -> Seq<u8> {
    let s = lines_from(w, 0, 0, 0);
    if s.len() == 0 {
        s
    } else {
        s.drop_last()
    }
}

/// The number of leaf bytes in the first `i` entries.
pub open spec fn offset_at(w: Seq<EntryView>, i: int) -> nat {
    texts(leaves(w.take(i))).len()
}

proof fn lemma_offset_step(w: Seq<EntryView>, i: int)
    requires
        0 <= i < w.len(),
    ensures
        offset_at(w, i + 1) == offset_at(w, i) + match w[i] {
            EntryView::Leaf(_, t) => t.len(),
            _ => 0,
        },
{
    assert(w.take(i + 1).drop_last() =~= w.take(i));
    let l = leaves(w.take(i));
    match w[i] {
        EntryView::Leaf(k, t) => {
            assert(leaves(w.take(i + 1)) == l + seq![(k, t)]);
            assert((l + seq![(k, t)]).drop_last() =~= l);
        },
        _ => {
            assert(leaves(w.take(i + 1)) =~= l);
        },
    }
}

proof fn lemma_span_bound(w: Seq<EntryView>, i: int, depth: nat)
    requires
        0 <= i <= w.len(),
    ensures
        offset_at(w, i) + span_len(w, i, depth) <= offset_at(w, w.len() as int),
    decreases w.len() - i,
{
    if i < w.len() {
        lemma_offset_step(w, i);
        match w[i] {
            EntryView::Open(_) => lemma_span_bound(w, i + 1, depth + 1),
            EntryView::Leaf(_, t) => lemma_span_bound(w, i + 1, depth),
            EntryView::Close => if depth > 1 {
                lemma_span_bound(w, i + 1, (depth - 1) as nat);
            } else {
                lemma_span_bound(w, i + 1, depth);
            },
        }
    }
}

proof fn lemma_offset_mono(w: Seq<EntryView>, i: int)
    requires
        0 <= i <= w.len(),
    ensures
        offset_at(w, i) <= offset_at(w, w.len() as int),
    decreases w.len() - i,
{
    if i < w.len() {
        lemma_offset_step(w, i);
        lemma_offset_mono(w, i + 1);
    }
}

/// The texts of the leaves from entry `i` on, up to the `Close` that ends
/// a walk `depth` levels deep (or the end of the walk).
pub open spec fn node_text(w: Seq<EntryView>, i: int, depth: nat) -> Seq<u8>
    decreases w.len() - i,
{
    if i < 0 || i >= w.len() {
        Seq::empty()
    } else {
        match w[i] {
            EntryView::Open(_) => node_text(w, i + 1, depth + 1),
            EntryView::Leaf(_, t) => t + node_text(w, i + 1, depth),
            EntryView::Close => if depth <= 1 {
                Seq::empty()
            } else {
                node_text(w, i + 1, (depth - 1) as nat)
            },
        }
    }
}

/// The texts of all the leaves from entry `i` on.
pub open spec fn rest_text(w: Seq<EntryView>, i: int) -> Seq<u8>
    decreases w.len() - i,
{
    if i < 0 || i >= w.len() {
        Seq::empty()
    } else {
        match w[i] {
            EntryView::Leaf(_, t) => t + rest_text(w, i + 1),
            _ => rest_text(w, i + 1),
        }
    }
}

proof fn lemma_node_text(w: Seq<EntryView>, i: int, depth: nat)
    requires
        0 <= i <= w.len(),
    ensures
        span_len(w, i, depth) == node_text(w, i, depth).len(),
        node_text(w, i, depth).len() <= rest_text(w, i).len(),
        node_text(w, i, depth) == rest_text(w, i).take(node_text(w, i, depth).len() as int),
    decreases w.len() - i,
{
    if i < w.len() {
        match w[i] {
            EntryView::Open(_) => lemma_node_text(w, i + 1, depth + 1),
            EntryView::Leaf(_, t) => {
                lemma_node_text(w, i + 1, depth);
                let n = node_text(w, i + 1, depth);
                assert((t + rest_text(w, i + 1)).take((t + n).len() as int) =~= t + n);
            },
            EntryView::Close => if depth > 1 {
                lemma_node_text(w, i + 1, (depth - 1) as nat);
            } else {
                lemma_node_text(w, i + 1, depth);
                assert(rest_text(w, i).take(0) =~= Seq::<u8>::empty());
            },
        }
    } else {
        assert(rest_text(w, i).take(0) =~= Seq::<u8>::empty());
    }
}

proof fn lemma_rest_text(w: Seq<EntryView>, i: int)
    requires
        0 <= i <= w.len(),
    ensures
        texts(leaves(w.take(i))) + rest_text(w, i) == texts(leaves(w)),
    decreases w.len() - i,
{
    if i < w.len() {
        lemma_rest_text(w, i + 1);
        assert(w.take(i + 1).drop_last() =~= w.take(i));
        let l = leaves(w.take(i));
        match w[i] {
            EntryView::Leaf(k, t) => {
                assert(leaves(w.take(i + 1)) == l + seq![(k, t)]);
                assert((l + seq![(k, t)]).drop_last() =~= l);
                assert(texts(l + seq![(k, t)]) == texts(l) + t);
                assert(texts(leaves(w.take(i))) + rest_text(w, i) =~= texts(leaves(w.take(i + 1))) + rest_text(
                    w,
                    i + 1,
                ));
            },
            _ => {
                assert(leaves(w.take(i + 1)) =~= l);
            },
        }
    } else {
        assert(w.take(i) =~= w);
        assert(texts(leaves(w)) + rest_text(w, i) =~= texts(leaves(w)));
    }
}

/// Span consistency: in a tree whose leaves spell `input`, the span of the
/// node entered at `i` is as long as the texts of its descendant leaves
/// together, and the bytes of `input` in that span are exactly those texts.
pub proof fn lemma_span_consistency(w: Seq<EntryView>, input: Seq<u8>, i: int)
    requires
        texts(leaves(w)) == input,
        0 <= i < w.len(),
        w[i] is Open,
    ensures
        span_len(w, i + 1, 1) == node_text(w, i + 1, 1).len(),
        input.subrange(
            offset_at(w, i) as int,
            (offset_at(w, i) + span_len(w, i + 1, 1)) as int,
        ) == node_text(w, i + 1, 1),
{
    lemma_node_text(w, i + 1, 1);
    lemma_rest_text(w, i + 1);
    lemma_offset_step(w, i);
    let a = texts(leaves(w.take(i + 1)));
    let n = node_text(w, i + 1, 1);
    let r = rest_text(w, i + 1);
    assert(input == a + r);
    assert(input.subrange(a.len() as int, (a.len() + n.len()) as int) =~= n);
}

/// The byte range of the node or leaf at entry `i`: where its first leaf
/// starts and where its last one ends.
pub open spec fn entry_span(w: Seq<EntryView>, i: int) -> (nat, nat) {
    let s = offset_at(w, i);
    match w[i] {
        EntryView::Open(_) => (s, s + span_len(w, i + 1, 1)),
        EntryView::Leaf(_, t) => (s, s + t.len()),
        EntryView::Close => (s, s),
    }
}

impl SyntaxTree {
    /// The bytes of all the leaves fit in memory, as those of an input do.
    pub open spec fn fits(&self) -> bool {
        offset_at(self.walk(), self.walk().len() as int) <= usize::MAX
    }

    /// The byte range covered by the node or leaf at entry `i`.
    pub fn span(&self, i: usize) -> (r: (usize, usize))
        requires
            i < self.entries@.len(),
            self.fits(),
        ensures
            r.0 == entry_span(self.walk(), i as int).0,
            r.1 == entry_span(self.walk(), i as int).1,
    {
        let ghost w = self.walk();
        let n = self.entries.len();
        let mut off: usize = 0;
        let mut j: usize = 0;
        proof {
            assert(w.take(0) =~= Seq::<EntryView>::empty());
            assert(leaves(w.take(0)) =~= Seq::<(SyntaxKind, Seq<u8>)>::empty());
            assert(texts(leaves(w.take(0))) =~= Seq::<u8>::empty());
        }
        while j < i
            invariant
                w == self.walk(),
                j <= i < w.len(),
                off == offset_at(w, j as int),
                offset_at(w, w.len() as int) <= usize::MAX,
            decreases i - j,
        {
            proof {
                lemma_offset_step(w, j as int);
                lemma_offset_mono(w, j + 1);
            }
            match &self.entries[j] {
                Entry::Leaf { text, .. } => {
                    off = off + text.len();
                },
                _ => {},
            }
            j = j + 1;
        }
        proof {
            lemma_offset_step(w, i as int);
            lemma_offset_mono(w, i + 1);
        }
        match &self.entries[i] {
            Entry::Open { .. } => {
                assert(i < n);
                let len = node_len(&self.entries, i + 1);
                proof {
                    lemma_span_bound(w, i + 1, 1);
                }
                (off, off + len)
            },
            Entry::Leaf { text, .. } => (off, off + text.len()),
            Entry::Close => (off, off),
        }
    }
}

fn push_bytes(out: &mut Vec<u8>, b: &[u8])
    ensures
        final(out)@ == old(out)@ + b@,
{
    let mut k: usize = 0;
    while k < b.len()
        invariant
            k <= b@.len(),
            out@ == old(out)@ + b@.take(k as int),
        decreases b@.len() - k,
    {
        out.push(b[k]);
        k = k + 1;
        assert(out@ =~= old(out)@ + b@.take(k as int));
    }
    assert(b@.take(b@.len() as int) =~= b@);
}

fn push_decimal(out: &mut Vec<u8>, n: usize)
    ensures
        final(out)@ == old(out)@ + decimal(n as nat),
    decreases n,
{
    if n >= 10 {
        push_decimal(out, n / 10);
    }
    out.push(48 + (n % 10) as u8);
    assert(out@ =~= old(out)@ + decimal(n as nat));
}

fn push_indent(out: &mut Vec<u8>, depth: usize)
    ensures
        final(out)@ == old(out)@ + indent(depth as nat),
{
    let mut d: usize = 0;
    while d < depth
        invariant
            d <= depth,
            out@ == old(out)@ + indent(d as nat),
        decreases depth - d,
    {
        out.push(32);
        out.push(32);
        d = d + 1;
        assert(out@ =~= old(out)@ + indent(d as nat));
    }
}

fn hex_digit_exec(v: u8) -> (r: u8)
    requires
        v < 16,
    ensures
        r == hex_digit(v),
{
    if v < 10 {
        48 + v
    } else {
        87 + v
    }
}

fn push_escaped(out: &mut Vec<u8>, t: &Vec<u8>)
    ensures
        final(out)@ == old(out)@ + escaped(t@),
{
    let mut k: usize = 0;
    while k < t.len()
        invariant
            k <= t@.len(),
            out@ == old(out)@ + escaped(t@.take(k as int)),
        decreases t@.len() - k,
    {
        let x = t[k];
        let ghost before = out@;
        if x == 0 {
            out.push(92);
            out.push(48);
        } else if x == 10 {
            out.push(92);
            out.push(110);
        } else if x == 13 {
            out.push(92);
            out.push(114);
        } else if x == 9 {
            out.push(92);
            out.push(116);
        } else if x == 92 {
            out.push(92);
            out.push(92);
        } else if x == 34 {
            out.push(92);
            out.push(34);
        } else if x < 32 || x == 127 {
            out.push(92);
            out.push(117);
            out.push(123);
            if x >= 16 {
                out.push(hex_digit_exec(x / 16));
            }
            out.push(hex_digit_exec(x % 16));
            out.push(125);
        } else {
            out.push(x);
        }
        assert(out@ =~= before + escape_byte(x));
        assert(t@.take(k + 1).drop_last() =~= t@.take(k as int));
        k = k + 1;
        assert(out@ =~= old(out)@ + escaped(t@.take(k as int)));
    }
    assert(t@.take(t@.len() as int) =~= t@);
}

fn push_head(out: &mut Vec<u8>, k: SyntaxKind, start: usize, end: usize)
    ensures
        final(out)@ == old(out)@ + head(k, start as nat, end as nat),
{
    push_bytes(out, k.name().as_bytes());
    out.push(64);
    push_decimal(out, start);
    out.push(46);
    out.push(46);
    push_decimal(out, end);
    assert(out@ =~= old(out)@ + head(k, start as nat, end as nat));
}

/// The length in bytes of the node whose `Open` entry is just before `i`.
fn node_len(entries: &Vec<Entry>, i: usize) -> (r: usize)
    requires
        1 <= i <= entries@.len(),
        offset_at(entry_views(entries@), entries@.len() as int) <= usize::MAX,
    ensures
        r == span_len(entry_views(entries@), i as int, 1),
{
    let ghost w = entry_views(entries@);
    let mut j: usize = i;
    let mut depth: usize = 1;
    let mut acc: usize = 0;
    proof {
        lemma_span_bound(w, i as int, 1);
        lemma_offset_mono(w, i as int);
    }
    while j < entries.len()
        invariant
            w == entry_views(entries@),
            i <= j <= w.len(),
            depth >= 1,
            acc + span_len(w, j as int, depth as nat) == span_len(w, i as int, 1),
            span_len(w, i as int, 1) <= usize::MAX,
            1 <= i,
            depth <= j - i + 1,
        decreases w.len() - j,
    {
        match &entries[j] {
            Entry::Open { .. } => {
                depth = depth + 1;
            },
            Entry::Leaf { text, .. } => {
                acc = acc + text.len();
            },
            Entry::Close => {
                if depth <= 1 {
                    return acc;
                }
                depth = depth - 1;
            },
        }
        j = j + 1;
    }
    acc
}

fn push_open_line(out: &mut Vec<u8>, kind: SyntaxKind, depth: usize, start: usize, end: usize)
    ensures
        final(out)@ == old(out)@ + indent(depth as nat) + head(kind, start as nat, end as nat) + seq![10u8],
{
    push_indent(out, depth);
    push_head(out, kind, start, end);
    out.push(10);
    assert(out@ =~= old(out)@ + indent(depth as nat) + head(kind, start as nat, end as nat) + seq![10u8]);
}

fn push_leaf_line(out: &mut Vec<u8>, kind: SyntaxKind, depth: usize, start: usize, end: usize, text: &Vec<u8>)
    ensures
        final(out)@ == old(out)@ + indent(depth as nat) + head(kind, start as nat, end as nat) + seq![32u8, 34u8]
            + escaped(text@) + seq![34u8, 10u8],
{
    push_indent(out, depth);
    push_head(out, kind, start, end);
    out.push(32);
    out.push(34);
    push_escaped(out, text);
    out.push(34);
    out.push(10);
    assert(out@ =~= old(out)@ + indent(depth as nat) + head(kind, start as nat, end as nat) + seq![32u8, 34u8]
        + escaped(text@) + seq![34u8, 10u8]);
}

/// The dump of a walk, as bytes.
#[verifier::rlimit(50)]
pub fn dump_bytes(entries: &Vec<Entry>) -> (r: Vec<u8>)
    requires
        offset_at(entry_views(entries@), entries@.len() as int) <= usize::MAX,
    ensures
        r@ == dump(entry_views(entries@)),
{
    let ghost w = entry_views(entries@);
    let mut out: Vec<u8> = Vec::new();
    let mut i: usize = 0;
    let mut depth: usize = 0;
    let mut off: usize = 0;
    proof {
        assert(w.take(0) =~= Seq::<EntryView>::empty());
        assert(leaves(w.take(0)) =~= Seq::<(SyntaxKind, Seq<u8>)>::empty());
        assert(texts(leaves(w.take(0))) =~= Seq::<u8>::empty());
        assert(out@ + lines_from(w, 0, 0, 0) =~= lines_from(w, 0, 0, 0));
    }
    while i < entries.len()
        invariant
            w == entry_views(entries@),
            i <= w.len(),
            depth <= i,
            off == offset_at(w, i as int),
            offset_at(w, w.len() as int) <= usize::MAX,
            out@ + lines_from(w, i as int, depth as nat, off as nat) == lines_from(w, 0, 0, 0),
        decreases w.len() - i,
    {
        proof {
            lemma_offset_step(w, i as int);
            lemma_offset_mono(w, i + 1);
        }
        let ghost before = out@;
        let ghost rest = lines_from(w, i as int, depth as nat, off as nat);
        match &entries[i] {
            Entry::Open { kind } => {
                let len = node_len(entries, i + 1);
                proof {
                    lemma_span_bound(w, i + 1, 1);
                }
                let ghost line = indent(depth as nat) + head(*kind, off as nat, (off + len) as nat) + seq![10u8];
                assert(rest == line + lines_from(w, i + 1, (depth + 1) as nat, off as nat));
                push_open_line(&mut out, *kind, depth, off, off + len);
                assert(out@ + lines_from(w, i + 1, (depth + 1) as nat, off as nat) =~= before + rest);
                depth = depth + 1;
            },
            Entry::Leaf { kind, text } => {
                let end = off + text.len();
                let ghost line = indent(depth as nat) + head(*kind, off as nat, end as nat) + seq![32u8, 34u8]
                    + escaped(text@) + seq![34u8, 10u8];
                assert(rest == line + lines_from(w, i + 1, depth as nat, end as nat));
                push_leaf_line(&mut out, *kind, depth, off, end, text);
                assert(out@ + lines_from(w, i + 1, depth as nat, end as nat) =~= before + rest);
                off = end;
            },
            Entry::Close => {
                let nd = if depth > 0 { depth - 1 } else { 0 };
                assert(rest == lines_from(w, i + 1, nd as nat, off as nat));
                depth = nd;
            },
        }
        i = i + 1;
    }
    assert(lines_from(w, i as int, depth as nat, off as nat) =~= Seq::<u8>::empty());
    assert(out@ =~= lines_from(w, 0, 0, 0));
    if out.len() > 0 {
        out.pop();
    }
    out
}

} // verus!
