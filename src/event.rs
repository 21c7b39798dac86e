use vstd::prelude::*;
use crate::lexer::copy_bytes;
use crate::kind::{SyntaxKind, spec_is_trivia};
use crate::grammar::checkpoints_ok;
use crate::sink::lemma_tokens_append;

verus! {

/// One structural decision of the parser.
pub enum Event {
    StartNode { kind: SyntaxKind },
    /// A start of node that belongs before the event at index `checkpoint`.
    StartNodeAt { kind: SyntaxKind, checkpoint: usize },
    AddToken { kind: SyntaxKind, text: Vec<u8> },
    FinishNode,
}

/// What an event says, with its text as a sequence of bytes.
pub enum EventView {
    StartNode(SyntaxKind),
    StartNodeAt(SyntaxKind, nat),
    AddToken(SyntaxKind, Seq<u8>),
    FinishNode,
}

impl View for Event {
    type V = EventView;

    open spec fn view(&self) -> EventView {
        match self {
            Event::StartNode { kind } => EventView::StartNode(*kind),
            Event::StartNodeAt { kind, checkpoint } => EventView::StartNodeAt(*kind, *checkpoint as nat),
            Event::AddToken { kind, text } => EventView::AddToken(*kind, text@),
            Event::FinishNode => EventView::FinishNode,
        }
    }
}

impl Event {
    /// A copy of the event.
    pub fn duplicate(&self) -> (r: Event)
        ensures
            r@ == self@,
    {
        match self {
            Event::StartNode { kind } => Event::StartNode { kind: *kind },
            Event::StartNodeAt { kind, checkpoint } => Event::StartNodeAt { kind: *kind, checkpoint: *checkpoint },
            Event::AddToken { kind, text } => Event::AddToken { kind: *kind, text: copy_bytes(text) },
            Event::FinishNode => Event::FinishNode,
        }
    }
}

pub open spec fn event_views(s: Seq<Event>) -> Seq<EventView> {
    s.map_values(|e: Event| e@)
}

/// The tokens that a sequence of events adds, in order.
pub open spec fn tokens_of(s: Seq<EventView>) -> Seq<(SyntaxKind, Seq<u8>)>
    decreases s.len(),
{
    if s.len() == 0 {
        Seq::empty()
    } else {
        tokens_of(s.drop_last()) + match s.last() {
            EventView::AddToken(k, t) => seq![(k, t)],
            _ => Seq::empty(),
        }
    }
}

/// How many `Error` nodes a sequence of events starts directly.
pub open spec fn error_starts(s: Seq<EventView>) -> nat
    decreases s.len(),
{
    if s.len() == 0 {
        0
    } else {
        error_starts(s.drop_last()) + if s.last() == EventView::StartNode(SyntaxKind::Error) {
            1nat
        } else {
            0nat
        }
    }
}

pub proof fn lemma_error_starts_push(s: Seq<EventView>, e: EventView)
    ensures
        error_starts(s.push(e)) == error_starts(s) + if e == EventView::StartNode(SyntaxKind::Error) {
            1nat
        } else {
            0nat
        },
{
    assert(s.push(e).drop_last() =~= s);
}

/// The significant (non-trivia) lexemes of a sequence, in order.
pub open spec fn significant(s: Seq<(SyntaxKind, Seq<u8>)>) -> Seq<(SyntaxKind, Seq<u8>)>
    decreases s.len(),
{
    if s.len() == 0 {
        Seq::empty()
    } else {
        significant(s.drop_last()) + if spec_is_trivia(s.last().0) {
            Seq::empty()
        } else {
            seq![s.last()]
        }
    }
}

/// The log after the deferred starts among its first `i` events have been
/// moved, in the order they were emitted, within one working copy: each is
/// removed from its index and a plain start is inserted at its checkpoint.
/// Indices after the one being moved are untouched by earlier moves, so
/// each index still names the original event. A start deferred past itself
/// stays where it is.
pub open spec fn rewrite_upto(ev: Seq<EventView>, i: int) -> Seq<EventView>
    decreases i,
{
    if i <= 0 {
        ev
    } else {
        let w = rewrite_upto(ev, i - 1);
        match ev[i - 1] {
            EventView::StartNodeAt(k, c) => if c <= i - 1 {
                w.remove(i - 1).insert(c as int, EventView::StartNode(k))
            } else {
                w
            },
            _ => w,
        }
    }
}

pub open spec fn resolved(ev: Seq<EventView>) -> Seq<EventView> {
    rewrite_upto(ev, ev.len() as int)
}

pub proof fn lemma_error_starts_append(a: Seq<EventView>, b: Seq<EventView>)
    ensures
        error_starts(a + b) == error_starts(a) + error_starts(b),
    decreases b.len(),
{
    if b.len() == 0 {
        assert(a + b =~= a);
    } else {
        lemma_error_starts_append(a, b.drop_last());
        assert((a + b).drop_last() =~= a + b.drop_last());
    }
}

/// Moving a deferred start to an earlier index as a plain start keeps the
/// tokens, and does not lose an `Error` start.
proof fn lemma_move(w: Seq<EventView>, i: int, c: int, k: SyntaxKind)
    requires
        0 <= c <= i < w.len(),
        w[i] is StartNodeAt,
    ensures
        tokens_of(w.remove(i).insert(c, EventView::StartNode(k))) == tokens_of(w),
        error_starts(w.remove(i).insert(c, EventView::StartNode(k))) >= error_starts(w),
        w.remove(i).insert(c, EventView::StartNode(k)).len() == w.len(),
{
    let x = EventView::StartNode(k);
    let a = w.take(c);
    let b = w.subrange(c, i);
    let y = seq![w[i]];
    let d = w.skip(i + 1);
    assert(w =~= a + b + y + d);
    let r = w.remove(i).insert(c, x);
    assert(r =~= a + seq![x] + b + d);
    lemma_tokens_append(a + b + y, d);
    lemma_tokens_append(a + b, y);
    lemma_tokens_append(a, b);
    lemma_tokens_append(a + seq![x] + b, d);
    lemma_tokens_append(a + seq![x], b);
    lemma_tokens_append(a, seq![x]);
    lemma_error_starts_append(a + b + y, d);
    lemma_error_starts_append(a + b, y);
    lemma_error_starts_append(a, b);
    lemma_error_starts_append(a + seq![x] + b, d);
    lemma_error_starts_append(a + seq![x], b);
    lemma_error_starts_append(a, seq![x]);
    assert(y.drop_last() =~= Seq::<EventView>::empty());
    assert(seq![x].drop_last() =~= Seq::<EventView>::empty());
    assert(y.last() == w[i]);
    assert(tokens_of(y.drop_last()) =~= Seq::<(SyntaxKind, Seq<u8>)>::empty());
    assert(error_starts(y.drop_last()) == 0);
    assert(tokens_of(y) =~= Seq::<(SyntaxKind, Seq<u8>)>::empty());
    assert(tokens_of(seq![x]) =~= Seq::<(SyntaxKind, Seq<u8>)>::empty());
    assert(error_starts(y) == 0);
}

/// Two binary starts deferred to the same checkpoint nest: the one emitted
/// later encloses the one emitted earlier, as left association needs.
pub proof fn lemma_same_checkpoint_nests(
    a: EventView,
    m1: EventView,
    b: EventView,
    m2: EventView,
    c: EventView,
)
    requires
        a is AddToken,
        m1 is AddToken,
        b is AddToken,
        m2 is AddToken,
        c is AddToken,
    ensures
        resolved(
            seq![
                EventView::StartNode(SyntaxKind::Root),
                a,
                EventView::StartNodeAt(SyntaxKind::BinaryExpr, 1),
                m1,
                b,
                EventView::FinishNode,
                EventView::StartNodeAt(SyntaxKind::BinaryExpr, 1),
                m2,
                c,
                EventView::FinishNode,
                EventView::FinishNode,
            ],
        ) == seq![
            EventView::StartNode(SyntaxKind::Root),
            EventView::StartNode(SyntaxKind::BinaryExpr),
            EventView::StartNode(SyntaxKind::BinaryExpr),
            a,
            m1,
            b,
            EventView::FinishNode,
            m2,
            c,
            EventView::FinishNode,
            EventView::FinishNode,
        ],
{
    let bin = EventView::StartNode(SyntaxKind::BinaryExpr);
    let ev = seq![
        EventView::StartNode(SyntaxKind::Root),
        a,
        EventView::StartNodeAt(SyntaxKind::BinaryExpr, 1),
        m1,
        b,
        EventView::FinishNode,
        EventView::StartNodeAt(SyntaxKind::BinaryExpr, 1),
        m2,
        c,
        EventView::FinishNode,
        EventView::FinishNode,
    ];
    assert(rewrite_upto(ev, 0) == ev);
    assert(ev[0] == EventView::StartNode(SyntaxKind::Root));
    assert(rewrite_upto(ev, 1) == ev);
    assert(ev[1] == a);
    assert(rewrite_upto(ev, 2) == ev);
    assert(ev[2] == EventView::StartNodeAt(SyntaxKind::BinaryExpr, 1));
    let r3 = ev.remove(2).insert(1, bin);
    assert(rewrite_upto(ev, 3) == r3);
    assert(ev[3] == m1 && ev[4] == b && ev[5] == EventView::FinishNode);
    assert(rewrite_upto(ev, 4) == r3);
    assert(rewrite_upto(ev, 5) == r3);
    assert(rewrite_upto(ev, 6) == r3);
    assert(ev[6] == EventView::StartNodeAt(SyntaxKind::BinaryExpr, 1));
    let r7 = r3.remove(6).insert(1, bin);
    assert(rewrite_upto(ev, 7) == r7);
    assert(ev[7] == m2 && ev[8] == c && ev[9] == EventView::FinishNode && ev[10] == EventView::FinishNode);
    assert(rewrite_upto(ev, 8) == r7);
    assert(rewrite_upto(ev, 9) == r7);
    assert(rewrite_upto(ev, 10) == r7);
    assert(rewrite_upto(ev, 11) == r7);
    assert(r7 =~= seq![
        EventView::StartNode(SyntaxKind::Root),
        bin,
        bin,
        a,
        m1,
        b,
        EventView::FinishNode,
        m2,
        c,
        EventView::FinishNode,
        EventView::FinishNode,
    ]);
}

/// Moves every deferred start to its checkpoint, in the order they were
/// emitted, within one working copy of the log.
pub fn resolve(ev: &Vec<Event>) -> (r: Vec<Event>)
    requires
        ev@.len() >= 1,
        ev@[0]@ is StartNode,
    ensures
        event_views(r@) == resolved(event_views(ev@)),
        tokens_of(event_views(r@)) == tokens_of(event_views(ev@)),
        error_starts(event_views(r@)) >= error_starts(event_views(ev@)),
        r@.len() >= 1,
        r@[0]@ is StartNode,
        checkpoints_ok(event_views(ev@)) ==> r@[0]@ == ev@[0]@,
{
    let ghost evv = event_views(ev@);
    let n = ev.len();
    let mut w: Vec<Event> = Vec::new();
    let mut j: usize = 0;
    while j < n
        invariant
            n == ev@.len(),
            evv == event_views(ev@),
            j <= n,
            event_views(w@) == evv.take(j as int),
        decreases n - j,
    {
        let ghost before = event_views(w@);
        w.push(ev[j].duplicate());
        assert(event_views(w@) =~= before.push(evv[j as int]));
        assert(evv.take(j + 1) =~= evv.take(j as int).push(evv[j as int]));
        j = j + 1;
    }
    assert(evv.take(n as int) =~= evv);
    let mut i: usize = 0;
    while i < n
        invariant
            n == ev@.len(),
            evv == event_views(ev@),
            evv[0] is StartNode,
            i <= n,
            w@.len() == n,
            event_views(w@) == rewrite_upto(evv, i as int),
            forall|q: int| i <= q < n ==> (#[trigger] w@[q])@ == evv[q],
            tokens_of(event_views(w@)) == tokens_of(evv),
            error_starts(event_views(w@)) >= error_starts(evv),
            w@[0]@ is StartNode,
            checkpoints_ok(evv) ==> w@[0]@ == evv[0],
        decreases n - i,
    {
        let ghost ww = event_views(w@);
        let ghost ow = w@;
        match &ev[i] {
            Event::StartNodeAt { kind, checkpoint } => {
                if *checkpoint <= i {
                    let c = *checkpoint;
                    let ghost x = EventView::StartNode(*kind);
                    proof {
                        assert(ww[i as int] == evv[i as int]);
                        lemma_move(ww, i as int, c as int, *kind);
                    }
                    let _moved = w.remove(i);
                    w.insert(c, Event::StartNode { kind: *kind });
                    proof {
                        assert(event_views(w@) =~= ww.remove(i as int).insert(c as int, x));
                        assert forall|q: int| i + 1 <= q < n implies (#[trigger] w@[q])@ == evv[q] by {
                            assert(event_views(w@)[q] == ww[q]);
                            assert(ww[q] == ow[q]@);
                        }
                        if checkpoints_ok(evv) {
                            assert(c >= 1);
                            assert(w@[0]@ == ww[0]);
                        }
                    }
                }
            },
            _ => {},
        }
        i = i + 1;
    }
    w
}

} // verus!
