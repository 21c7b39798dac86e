use vstd::prelude::*;
use crate::kind::{SyntaxKind, spec_is_trivia};
use crate::lexer::{Lexeme, copy_bytes, lexeme_views};
use crate::event::{Event, EventView, event_views, tokens_of, significant, error_starts, lemma_error_starts_push};
use crate::tree::{Entry, EntryView, SyntaxTree, entry_views, leaves, lemma_leaves_push, error_nodes, lemma_error_nodes_append};

verus! {

pub proof fn lemma_tokens_append(a: Seq<EventView>, b: Seq<EventView>)
    ensures
        tokens_of(a + b) == tokens_of(a) + tokens_of(b),
    decreases b.len(),
{
    if b.len() == 0 {
        assert(a + b =~= a);
        assert(tokens_of(a) + tokens_of(b) =~= tokens_of(a));
    } else {
        lemma_tokens_append(a, b.drop_last());
        assert((a + b).drop_last() =~= a + b.drop_last());
        assert(tokens_of(a + b) =~= tokens_of(a) + tokens_of(b));
    }
}

pub proof fn lemma_significant_append(a: Seq<(SyntaxKind, Seq<u8>)>, b: Seq<(SyntaxKind, Seq<u8>)>)
    ensures
        significant(a + b) == significant(a) + significant(b),
    decreases b.len(),
{
    if b.len() == 0 {
        assert(a + b =~= a);
        assert(significant(a) + significant(b) =~= significant(a));
    } else {
        lemma_significant_append(a, b.drop_last());
        assert((a + b).drop_last() =~= a + b.drop_last());
        assert(significant(a + b) =~= significant(a) + significant(b));
    }
}

proof fn lemma_significant_step(lx: Seq<(SyntaxKind, Seq<u8>)>, c: int)
    requires
        0 <= c < lx.len(),
    ensures
        significant(lx.take(c + 1)) == significant(lx.take(c)) + if spec_is_trivia(lx[c].0) {
            Seq::empty()
        } else {
            seq![lx[c]]
        },
{
    assert(lx.take(c + 1).drop_last() =~= lx.take(c));
}

/// The lexeme under the cursor is the next significant one, so it is the
/// token that the next `AddToken` event adds.
proof fn lemma_next_token(
    ev: Seq<EventView>,
    lx: Seq<(SyntaxKind, Seq<u8>)>,
    i: int,
    c: int,
    k: SyntaxKind,
    t: Seq<u8>,
)
    requires
        tokens_of(ev) == significant(lx),
        0 <= i < ev.len(),
        0 <= c <= lx.len(),
        ev[i] == EventView::AddToken(k, t),
        tokens_of(ev.take(i)) == significant(lx.take(c)),
        c == lx.len() || !spec_is_trivia(lx[c].0),
    ensures
        c < lx.len(),
        lx[c] == (k, t),
{
    let m = significant(lx.take(c)).len() as int;
    assert(ev.take(i + 1).drop_last() =~= ev.take(i));
    assert(tokens_of(ev.take(i + 1)) == significant(lx.take(c)) + seq![(k, t)]);
    lemma_tokens_append(ev.take(i + 1), ev.skip(i + 1));
    assert(ev.take(i + 1) + ev.skip(i + 1) =~= ev);
    assert(significant(lx)[m] == (k, t));
    if c == lx.len() {
        assert(lx.take(c) =~= lx);
    } else {
        lemma_significant_step(lx, c);
        lemma_significant_append(lx.take(c + 1), lx.skip(c + 1));
        assert(lx.take(c + 1) + lx.skip(c + 1) =~= lx);
        assert(significant(lx)[m] == lx[c]);
    }
}

/// The entry that an event becomes.
pub open spec fn entry_of(e: EventView) -> EntryView {
    match e {
        EventView::StartNode(k) => EntryView::Open(k),
        EventView::StartNodeAt(k, _) => EntryView::Open(k),
        EventView::AddToken(k, t) => EntryView::Leaf(k, t),
        EventView::FinishNode => EntryView::Close,
    }
}

/// The end of the run of trivia lexemes that starts at `c`.
pub open spec fn trivia_end(lx: Seq<(SyntaxKind, Seq<u8>)>, c: int) -> int
    decreases lx.len() - c,
{
    if 0 <= c < lx.len() && spec_is_trivia(lx[c].0) {
        trivia_end(lx, c + 1)
    } else {
        c
    }
}

/// The lexemes from `c` to `e`, as leaves.
pub open spec fn leaf_run(lx: Seq<(SyntaxKind, Seq<u8>)>, c: int, e: int) -> Seq<EntryView> {
    lx.subrange(c, e).map_values(|l: (SyntaxKind, Seq<u8>)| EntryView::Leaf(l.0, l.1))
}

/// The walk that replaying the events from `i` on produces, with the cursor
/// at lexeme `c`: each event's entry, then the trivia that follow.
pub open spec fn replay(ev: Seq<EventView>, lx: Seq<(SyntaxKind, Seq<u8>)>, i: int, c: int) -> Seq<EntryView>
    decreases ev.len() - i,
{
    if i < 0 || i >= ev.len() {
        Seq::empty()
    } else {
        let c1 = if ev[i] is AddToken {
            c + 1
        } else {
            c
        };
        let c2 = trivia_end(lx, c1);
        seq![entry_of(ev[i])] + leaf_run(lx, c1, c2) + replay(ev, lx, i + 1, c2)
    }
}

/// Appends, as leaves, the trivia lexemes under the cursor.
fn eat_trivia(lexemes: &Vec<Lexeme>, cursor: &mut usize, out: &mut Vec<Entry>)
    requires
        *old(cursor) <= lexemes@.len(),
        leaves(entry_views(old(out)@)) == lexeme_views(lexemes@).take(*old(cursor) as int),
    ensures
        *old(cursor) <= *final(cursor) <= lexemes@.len(),
        leaves(entry_views(final(out)@)) == lexeme_views(lexemes@).take(*final(cursor) as int),
        significant(lexeme_views(lexemes@).take(*final(cursor) as int)) == significant(
            lexeme_views(lexemes@).take(*old(cursor) as int),
        ),
        *final(cursor) == lexemes@.len() || !spec_is_trivia(lexemes@[*final(cursor) as int].kind),
        *final(cursor) == trivia_end(lexeme_views(lexemes@), *old(cursor) as int),
        entry_views(final(out)@) == entry_views(old(out)@) + leaf_run(
            lexeme_views(lexemes@),
            *old(cursor) as int,
            *final(cursor) as int,
        ),
{
    let ghost lx = lexeme_views(lexemes@);
    while *cursor < lexemes.len() && lexemes[*cursor].kind.is_trivia()
        invariant
            lx == lexeme_views(lexemes@),
            *old(cursor) <= *cursor <= lexemes@.len(),
            leaves(entry_views(out@)) == lx.take(*cursor as int),
            significant(lx.take(*cursor as int)) == significant(lx.take(*old(cursor) as int)),
            trivia_end(lx, *cursor as int) == trivia_end(lx, *old(cursor) as int),
            entry_views(out@) == entry_views(old(out)@) + leaf_run(lx, *old(cursor) as int, *cursor as int),
        decreases lexemes@.len() - *cursor,
    {
        let lexeme = &lexemes[*cursor];
        let leaf = Entry::Leaf { kind: lexeme.kind, text: copy_bytes(&lexeme.text) };
        proof {
            let c = *cursor as int;
            lemma_leaves_push(entry_views(out@), leaf@);
            lemma_significant_step(lx, c);
            assert(lx.take(c + 1) =~= lx.take(c).push(lx[c]));
        }
        let ghost before = entry_views(out@);
        out.push(leaf);
        assert(entry_views(out@) =~= before.push(leaf@));
        assert(leaf_run(lx, *old(cursor) as int, *cursor + 1) =~= leaf_run(lx, *old(cursor) as int, *cursor as int).push(
            leaf@,
        ));
        *cursor = *cursor + 1;
    }
}

/// When the significant lexemes before the cursor are all of them and the
/// lexeme under the cursor is not trivia, the cursor is at the end.
proof fn lemma_all_consumed(lx: Seq<(SyntaxKind, Seq<u8>)>, c: int)
    requires
        0 <= c <= lx.len(),
        significant(lx.take(c)) == significant(lx),
        c == lx.len() || !spec_is_trivia(lx[c].0),
    ensures
        lx.take(c) == lx,
{
    lemma_significant_append(lx.take(c), lx.skip(c));
    assert(lx.take(c) + lx.skip(c) =~= lx);
    if c < lx.len() {
        let rest = lx.skip(c);
        lemma_significant_append(seq![rest[0]], rest.skip(1));
        assert(seq![rest[0]] + rest.skip(1) =~= rest);
        assert(seq![rest[0]].drop_last() =~= Seq::<(SyntaxKind, Seq<u8>)>::empty());
        assert(significant(seq![rest[0]]) =~= seq![rest[0]]);
    }
    assert(lx.take(lx.len() as int) =~= lx);
}

/// Replays a resolved log into a tree. After every event, the trivia that
/// the parser's lookahead skipped are put back as leaves of the node that
/// is open at that point, so the leaves are exactly the lexemes.
pub fn build(lexemes: &Vec<Lexeme>, events: &Vec<Event>) -> (r: SyntaxTree)
    requires
        tokens_of(event_views(events@)) == significant(lexeme_views(lexemes@)),
        events@.len() >= 1,
        events@[0]@ is StartNode,
    ensures
        leaves(r.walk()) == lexeme_views(lexemes@),
        r.walk() == replay(event_views(events@), lexeme_views(lexemes@), 0, 0),
        error_nodes(r.walk()) >= error_starts(event_views(events@)),
{
    let ghost lx = lexeme_views(lexemes@);
    let ghost ev = event_views(events@);
    let n = lexemes.len();
    let mut out: Vec<Entry> = Vec::new();
    let mut cursor: usize = 0;
    let mut i: usize = 0;
    proof {
        assert(ev.take(0) =~= Seq::<EventView>::empty());
        assert(lx.take(0) =~= Seq::<(SyntaxKind, Seq<u8>)>::empty());
        assert(leaves(entry_views(out@)) =~= Seq::<(SyntaxKind, Seq<u8>)>::empty());
        assert(entry_views(out@) + replay(ev, lx, 0, 0) =~= replay(ev, lx, 0, 0));
        assert(entry_views(out@) =~= Seq::<EntryView>::empty());
    }
    while i < events.len()
        invariant
            lx == lexeme_views(lexemes@),
            lx.len() == n,
            n == lexemes@.len(),
            ev == event_views(events@),
            tokens_of(ev) == significant(lx),
            ev[0] is StartNode,
            i <= ev.len(),
            cursor <= lx.len(),
            leaves(entry_views(out@)) == lx.take(cursor as int),
            tokens_of(ev.take(i as int)) == significant(lx.take(cursor as int)),
            i >= 1 ==> (cursor == lx.len() || !spec_is_trivia(lx[cursor as int].0)),
            entry_views(out@) + replay(ev, lx, i as int, cursor as int) == replay(ev, lx, 0, 0),
            error_nodes(entry_views(out@)) >= error_starts(ev.take(i as int)),
        decreases ev.len() - i,
    {
        let ghost before = entry_views(out@);
        let ghost c0 = cursor as int;
        proof {
            assert(ev.take(i + 1) =~= ev.take(i as int).push(ev[i as int]));
            assert(ev.take(i + 1).drop_last() =~= ev.take(i as int));
        }
        match &events[i] {
            Event::StartNode { kind } | Event::StartNodeAt { kind, .. } => {
                let e = Entry::Open { kind: *kind };
                proof {
                    lemma_leaves_push(before, e@);
                }
                out.push(e);
                assert(entry_views(out@) =~= before.push(e@));
            },
            Event::AddToken { kind, text } => {
                proof {
                    lemma_next_token(ev, lx, i as int, cursor as int, *kind, text@);
                    lemma_significant_step(lx, cursor as int);
                    assert(lx.take(cursor + 1) =~= lx.take(cursor as int).push(lx[cursor as int]));
                }
                let e = Entry::Leaf { kind: *kind, text: copy_bytes(text) };
                proof {
                    lemma_leaves_push(before, e@);
                }
                out.push(e);
                assert(entry_views(out@) =~= before.push(e@));
                assert(leaves(entry_views(out@)) == lx.take(cursor as int).push(lx[cursor as int]));
                cursor = cursor + 1;
            },
            Event::FinishNode => {
                proof {
                    lemma_leaves_push(before, EntryView::Close);
                }
                out.push(Entry::Close);
                assert(entry_views(out@) =~= before.push(EntryView::Close));
            },
        }
        assert(leaves(entry_views(out@)) == lx.take(cursor as int));
        assert(entry_views(out@) == before.push(entry_of(ev[i as int])));
        let ghost c1 = cursor as int;
        proof {
            lemma_error_starts_push(ev.take(i as int), ev[i as int]);
            lemma_error_nodes_append(before, seq![entry_of(ev[i as int])]);
            assert(before.push(entry_of(ev[i as int])) == before + seq![entry_of(ev[i as int])]);
            assert(seq![entry_of(ev[i as int])].drop_last() =~= Seq::<EntryView>::empty());
        }
        let ghost mid = entry_views(out@);
        eat_trivia(lexemes, &mut cursor, &mut out);
        proof {
            lemma_error_nodes_append(mid, leaf_run(lx, c1, cursor as int));
        }
        assert(replay(ev, lx, i as int, c0) == seq![entry_of(ev[i as int])] + leaf_run(lx, c1, cursor as int)
            + replay(ev, lx, i + 1, cursor as int));
        assert(entry_views(out@) + replay(ev, lx, i + 1, cursor as int) =~= before + replay(ev, lx, i as int, c0));
        i = i + 1;
    }
    proof {
        assert(ev.take(ev.len() as int) =~= ev);
        assert(entry_views(out@) =~= replay(ev, lx, 0, 0));
        lemma_all_consumed(lx, cursor as int);
    }
    SyntaxTree { entries: out }
}

} // verus!
