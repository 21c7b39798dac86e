use vstd::prelude::*;
use crate::kind::{SyntaxKind, spec_is_trivia};
use crate::lexer::{Lexeme, copy_bytes, lexeme_views, texts, lemma_texts_append};
use crate::grammar;
use crate::grammar::{GState, g_push, g_bump, g_error, g_peek, g_expr, g_skip_rest, parse_state, well_formed_expr, lemma_well_formed_no_errors, checkpoints_ok, lemma_parse_log};
use crate::sink::lemma_significant_append;
use crate::event::{Event, EventView, event_views, tokens_of, significant, error_starts, lemma_error_starts_push};

verus! {

/// What the parser looked for where the input did not fit the grammar.
#[derive(Debug, Clone, Copy, PartialEq, Eq, Structural)]
pub enum Expected {
    Expression,
    RParen,
    EndOfInput,
}

/// A recovered parse error: the byte offset where it was found and what was
/// expected there.
#[derive(Debug, Clone, Copy, PartialEq, Eq, Structural)]
pub struct Diagnostic {
    pub offset: usize,
    pub expected: Expected,
}

/// The parser's state: a cursor into the lexemes and the append-only event
/// log. Lookahead skips trivia, which the sink puts back later.
pub struct Parser<'l> {
    pub lexemes: &'l Vec<Lexeme>,
    pub cursor: usize,
    pub offset: usize,
    pub events: Vec<Event>,
    pub errors: Vec<Diagnostic>,
    /// Where each error was found, as a count of significant lexemes.
    pub error_at: Ghost<Seq<int>>,
}

/// How many lexemes of kind `k` a sequence holds.
pub open spec fn count_kind(s: Seq<(SyntaxKind, Seq<u8>)>, k: SyntaxKind) -> int
    decreases s.len(),
{
    if s.len() == 0 {
        0
    } else {
        count_kind(s.drop_last(), k) + if s.last().0 == k {
            1int
        } else {
            0int
        }
    }
}

/// Opening minus closing parentheses.
pub open spec fn paren_balance(s: Seq<(SyntaxKind, Seq<u8>)>) -> int {
    count_kind(s, SyntaxKind::LParen) - count_kind(s, SyntaxKind::RParen)
}

/// The kinds that can end an operand.
pub open spec fn ends_operand(k: SyntaxKind) -> bool {
    k == SyntaxKind::Number || k == SyntaxKind::Ident || k == SyntaxKind::RParen
}

pub open spec fn is_infix_operator(k: SyntaxKind) -> bool {
    k == SyntaxKind::Plus || k == SyntaxKind::Minus || k == SyntaxKind::Star || k == SyntaxKind::Slash
}

pub proof fn lemma_balance_push(s: Seq<(SyntaxKind, Seq<u8>)>, x: (SyntaxKind, Seq<u8>))
    ensures
        paren_balance(s.push(x)) == paren_balance(s) + if x.0 == SyntaxKind::LParen {
            1int
        } else if x.0 == SyntaxKind::RParen {
            -1int
        } else {
            0int
        },
        s.push(x).last() == x,
        s.push(x).len() == s.len() + 1,
{
    assert(s.push(x).drop_last() =~= s);
}

impl<'l> Parser<'l> {
    pub open spec fn lx(&self) -> Seq<(SyntaxKind, Seq<u8>)> {
        lexeme_views(self.lexemes@)
    }

    /// The significant lexemes.
    pub open spec fn sig(&self) -> Seq<(SyntaxKind, Seq<u8>)> {
        significant(self.lx())
    }

    /// The state as the grammar sees it.
    pub open spec fn gstate(&self) -> GState {
        GState { pos: self.toks().len() as int, ev: event_views(self.events@), errs: expecteds(self.errors@), at: self.error_at@ }
    }

    /// The tokens added to the log so far.
    pub open spec fn toks(&self) -> Seq<(SyntaxKind, Seq<u8>)> {
        tokens_of(event_views(self.events@))
    }

    pub open spec fn wf(&self) -> bool {
        &&& self.cursor <= self.lexemes@.len()
        &&& texts(self.lx()).len() <= usize::MAX
        &&& self.offset == texts(self.lx().take(self.cursor as int)).len()
        &&& tokens_of(event_views(self.events@)) == significant(self.lx().take(self.cursor as int))
        &&& self.events@.len() >= 1
        &&& self.events@[0]@ == EventView::StartNode(SyntaxKind::Root)
        &&& self.errors@.len() <= error_starts(event_views(self.events@))
        &&& self.toks().len() <= self.sig().len()
        &&& forall|i: int| 0 <= i < self.errors@.len() ==> (#[trigger] self.errors@[i]).offset <= texts(self.lx()).len()
        &&& self.error_at@.len() == self.errors@.len()
        &&& forall|i: int|
            0 <= i < self.errors@.len() ==> (#[trigger] self.errors@[i]).offset == sig_offset(self.lx(), self.error_at@[i])
    }

    /// The parser keeps its lexemes, moves its cursor forward only, and
    /// stays well formed.
    pub open spec fn advanced(&self, next: &Self) -> bool {
        &&& next.wf()
        &&& next.lexemes == self.lexemes
        &&& self.cursor <= next.cursor
        &&& self.errors@.len() <= next.errors@.len()
        &&& self.toks().len() <= next.toks().len()
    }

    pub fn new(lexemes: &'l Vec<Lexeme>) -> (r: Self)
        ensures
            r.lexemes == lexemes,
            r.cursor == 0,
            r.offset == 0,
            r.events@.len() == 0,
            r.errors@.len() == 0,
            r.error_at@.len() == 0,
    {
        Parser { lexemes, cursor: 0, offset: 0, events: Vec::new(), errors: Vec::new(), error_at: Ghost(Seq::empty()) }
    }

    pub fn checkpoint(&self) -> (r: usize)
        ensures
            r == self.events@.len(),
            r == self.gstate().ev.len(),
    {
        self.events.len()
    }

    pub fn start_node(&mut self, kind: SyntaxKind)
        requires
            old(self).wf(),
        ensures
            old(self).advanced(&*final(self)),
            final(self).cursor == old(self).cursor,
            final(self).events@ == old(self).events@.push((Event::StartNode { kind })),
            final(self).toks() == old(self).toks(),
            final(self).gstate() == g_push(old(self).gstate(), EventView::StartNode(kind)),
            error_starts(event_views(final(self).events@)) == error_starts(event_views(old(self).events@)) + if kind
                == SyntaxKind::Error {
                1nat
            } else {
                0nat
            },
            final(self).errors@ == old(self).errors@,
    {
        proof {
            lemma_push_non_token(event_views(self.events@), EventView::StartNode(kind));
            lemma_error_starts_push(event_views(self.events@), EventView::StartNode(kind));
        }
        self.events.push(Event::StartNode { kind });
        proof {
            assert(event_views(self.events@) =~= event_views(old(self).events@).push(EventView::StartNode(kind)));
            assert(expecteds(self.errors@) == expecteds(old(self).errors@));
        }
    }

    pub fn start_node_at(&mut self, checkpoint: usize, kind: SyntaxKind)
        requires
            old(self).wf(),
        ensures
            old(self).advanced(&*final(self)),
            final(self).cursor == old(self).cursor,
            final(self).events@ == old(self).events@.push((Event::StartNodeAt { kind, checkpoint })),
            final(self).toks() == old(self).toks(),
            final(self).gstate() == g_push(old(self).gstate(), EventView::StartNodeAt(kind, checkpoint as nat)),
            final(self).errors@ == old(self).errors@,
    {
        proof {
            lemma_push_non_token(event_views(self.events@), EventView::StartNodeAt(kind, checkpoint as nat));
            lemma_error_starts_push(event_views(self.events@), EventView::StartNodeAt(kind, checkpoint as nat));
        }
        self.events.push(Event::StartNodeAt { kind, checkpoint });
        proof {
            assert(event_views(self.events@) =~= event_views(old(self).events@).push(
                EventView::StartNodeAt(kind, checkpoint as nat),
            ));
        }
    }

    pub fn finish_node(&mut self)
        requires
            old(self).wf(),
        ensures
            old(self).advanced(&*final(self)),
            final(self).cursor == old(self).cursor,
            final(self).events@ == old(self).events@.push(Event::FinishNode),
            final(self).toks() == old(self).toks(),
            final(self).gstate() == g_push(old(self).gstate(), EventView::FinishNode),
            final(self).errors@ == old(self).errors@,
    {
        proof {
            lemma_push_non_token(event_views(self.events@), EventView::FinishNode);
            lemma_error_starts_push(event_views(self.events@), EventView::FinishNode);
        }
        self.events.push(Event::FinishNode);
        proof {
            assert(event_views(self.events@) =~= event_views(old(self).events@).push(EventView::FinishNode));
            assert(expecteds(self.errors@) == expecteds(old(self).errors@));
        }
    }

    /// The kind of the lexeme under the cursor, trivia included.
    pub fn peek_raw(&self) -> (r: Option<SyntaxKind>)
        requires
            self.cursor <= self.lexemes@.len(),
        ensures
            self.cursor == self.lexemes@.len() ==> r is None,
            self.cursor < self.lexemes@.len() ==> r == Some(self.lexemes@[self.cursor as int].kind),
    {
        if self.cursor < self.lexemes.len() {
            Some(self.lexemes[self.cursor].kind)
        } else {
            None
        }
    }

    /// Moves the cursor past the whitespace and comments under it.
    pub fn eat_whitespace(&mut self)
        requires
            old(self).wf(),
        ensures
            old(self).advanced(&*final(self)),
            final(self).events@ == old(self).events@,
            final(self).errors@ == old(self).errors@,
            final(self).error_at == old(self).error_at,
            final(self).cursor == final(self).lexemes@.len() || !spec_is_trivia(
                final(self).lexemes@[final(self).cursor as int].kind,
            ),
    {
        while self.cursor < self.lexemes.len() && self.lexemes[self.cursor].kind.is_trivia()
            invariant
                self.wf(),
                self.lexemes == old(self).lexemes,
                self.events@ == old(self).events@,
                self.errors@ == old(self).errors@,
                self.error_at == old(self).error_at,
                old(self).cursor <= self.cursor,
            decreases self.lexemes@.len() - self.cursor,
        {
            proof {
                self.lemma_step();
            }
            self.offset = self.offset + self.lexemes[self.cursor].text.len();
            self.cursor = self.cursor + 1;
        }
    }

    /// The kind of the next significant lexeme.
    pub fn peek(&mut self) -> (r: Option<SyntaxKind>)
        requires
            old(self).wf(),
        ensures
            old(self).advanced(&*final(self)),
            final(self).events@ == old(self).events@,
            final(self).errors@ == old(self).errors@,
            r is None <==> final(self).cursor == final(self).lexemes@.len(),
            r matches Some(k) ==> k == final(self).lexemes@[final(self).cursor as int].kind
                && !spec_is_trivia(k),
            final(self).gstate() == old(self).gstate(),
            r == g_peek(old(self).sig(), old(self).gstate().pos),
    {
        self.eat_whitespace();
        proof {
            lemma_sig_at(self.lx(), self.cursor as int);
        }
        self.peek_raw()
    }

    /// Adds the significant lexeme under the cursor to the log.
    pub fn bump(&mut self)
        requires
            old(self).wf(),
            old(self).cursor < old(self).lexemes@.len(),
            !spec_is_trivia(old(self).lexemes@[old(self).cursor as int].kind),
        ensures
            old(self).advanced(&*final(self)),
            final(self).cursor == old(self).cursor + 1,
            final(self).errors@ == old(self).errors@,
            final(self).events@.len() == old(self).events@.len() + 1,
            final(self).toks() == old(self).toks().push(old(self).lx()[old(self).cursor as int]),
            final(self).gstate() == g_bump(old(self).sig(), old(self).gstate()),
    {
        proof {
            self.lemma_step();
            lemma_sig_at(self.lx(), self.cursor as int);
        }
        let n = self.lexemes.len();
        let lexeme = &self.lexemes[self.cursor];
        let ghost evs = event_views(self.events@);
        let ev = Event::AddToken { kind: lexeme.kind, text: copy_bytes(&lexeme.text) };
        proof {
            assert(ev@ == EventView::AddToken(lexeme@.0, lexeme@.1));
            assert(self.lx()[self.cursor as int] == lexeme@);
            lemma_tokens_push_token(evs, ev@);
            lemma_error_starts_push(evs, ev@);
        }
        self.offset = self.offset + lexeme.text.len();
        self.events.push(ev);
        assert(self.cursor < n);
        self.cursor = self.cursor + 1;
        proof {
            assert(event_views(self.events@) =~= evs.push(ev@));
        }
    }

    /// Records a diagnostic at the cursor's byte offset.
    pub fn error(&mut self, expected: Expected)
        requires
            old(self).wf(),
            old(self).errors@.len() < error_starts(event_views(old(self).events@)),
            old(self).cursor == old(self).lexemes@.len() || !spec_is_trivia(
                old(self).lexemes@[old(self).cursor as int].kind,
            ),
        ensures
            old(self).advanced(&*final(self)),
            final(self).cursor == old(self).cursor,
            final(self).events@ == old(self).events@,
            final(self).errors@ == old(self).errors@.push((Diagnostic { offset: old(self).offset, expected })),
            final(self).gstate() == g_error(old(self).gstate(), expected),
    {
        proof {
            let lx = self.lx();
            lemma_texts_append(lx.take(self.cursor as int), lx.skip(self.cursor as int));
            assert(lx.take(self.cursor as int) + lx.skip(self.cursor as int) =~= lx);
        }
        proof {
            lemma_sig_index(self.lx(), 0, self.cursor as int);
            assert(self.lx().take(0) =~= Seq::<(SyntaxKind, Seq<u8>)>::empty());
            assert(significant(self.lx().take(0)) =~= Seq::<(SyntaxKind, Seq<u8>)>::empty());
        }
        let d = Diagnostic { offset: self.offset, expected };
        self.errors.push(d);
        self.error_at = Ghost(self.error_at@.push(self.toks().len() as int));
        proof {
            assert(expecteds(self.errors@) =~= expecteds(old(self).errors@).push(expected));
        }
    }

    /// Runs the grammar over all the lexemes: a `Root` node around one
    /// expression, if there is any significant lexeme, and an `Error` node
    /// around whatever follows it. Every
    /// significant lexeme is added to the log, in order.
    pub fn parse(self) -> (r: (Vec<Event>, Vec<Diagnostic>))
        requires
            self.cursor == 0,
            self.offset == 0,
            self.events@.len() == 0,
            self.errors@.len() == 0,
            self.error_at@.len() == 0,
            texts(self.lx()).len() <= usize::MAX,
        ensures
            tokens_of(event_views(r.0@)) == significant(self.lx()),
            r.1@.len() <= error_starts(event_views(r.0@)),
            r.1@.len() == 0 ==> paren_balance(significant(self.lx())) == 0,
            r.1@.len() == 0 && significant(self.lx()).len() > 0 ==> ends_operand(
                significant(self.lx()).last().0,
            ),
            r.0@.len() >= 1,
            r.0@[0]@ == EventView::StartNode(SyntaxKind::Root),
            event_views(r.0@) == parse_state(significant(self.lx())).ev,
            expecteds(r.1@) == parse_state(significant(self.lx())).errs,
            well_formed_expr(significant(self.lx())) ==> r.1@.len() == 0,
            checkpoints_ok(event_views(r.0@)),
            event_views(r.0@).last() == EventView::FinishNode,
            r.1@.len() == parse_state(significant(self.lx())).at.len(),
            forall|i: int|
                0 <= i < r.1@.len() ==> (#[trigger] r.1@[i]).offset == sig_offset(
                    self.lx(),
                    parse_state(significant(self.lx())).at[i],
                ),
            forall|i: int| 0 <= i < r.1@.len() ==> (#[trigger] r.1@[i]).offset <= texts(self.lx()).len(),
    {
        let mut p = self;
        let ghost sig = p.sig();
        let ghost lx = p.lx();
        p.events.push(Event::StartNode { kind: SyntaxKind::Root });
        proof {
            let evs = event_views(p.events@);
            assert(evs.drop_last() =~= Seq::<EventView>::empty());
            assert(evs.last() == EventView::StartNode(SyntaxKind::Root));
            assert(tokens_of(evs.drop_last()) =~= Seq::<(SyntaxKind, Seq<u8>)>::empty());
            assert(tokens_of(evs) =~= Seq::<(SyntaxKind, Seq<u8>)>::empty());
            lemma_error_starts_push(Seq::<EventView>::empty(), EventView::StartNode(SyntaxKind::Root));
            assert(evs =~= Seq::<EventView>::empty().push(EventView::StartNode(SyntaxKind::Root)));
            assert(lx.take(0) =~= Seq::<(SyntaxKind, Seq<u8>)>::empty());
            assert(texts(lx.take(0)) =~= Seq::<u8>::empty());
        }
        assert(p.toks() =~= Seq::<(SyntaxKind, Seq<u8>)>::empty());
        assert(paren_balance(p.toks()) == 0);
        let ghost s0 = p.gstate();
        assert(expecteds(p.errors@) =~= Seq::<Expected>::empty());
        assert(s0.ev =~= seq![EventView::StartNode(SyntaxKind::Root)]);
        assert(s0.at =~= Seq::<int>::empty());
        assert(s0 == GState {
            pos: 0,
            ev: seq![EventView::StartNode(SyntaxKind::Root)],
            errs: Seq::empty(),
            at: Seq::empty(),
        });
        match p.peek() {
            Some(_) => grammar::expr(&mut p),
            None => {},
        }
        let ghost s1 = p.gstate();
        assert(s1 == if sig.len() > 0 { g_expr(sig, s0, 0u8) } else { s0 });
        assert(p.errors@.len() == 0 ==> paren_balance(p.toks()) == 0 && (p.toks().len() > 0 ==> ends_operand(
            p.toks().last().0,
        )));
        match p.peek() {
            Some(_) => {
                p.start_node(SyntaxKind::Error);
                p.error(Expected::EndOfInput);
                let ghost target = g_skip_rest(sig, p.gstate());
                loop
                    invariant
                        p.wf(),
                        p.lx() == lx,
                        p.errors@.len() >= 1,
                        g_skip_rest(sig, p.gstate()) == target,
                        sig == p.sig(),
                    ensures
                        p.wf(),
                        p.lx() == lx,
                        p.errors@.len() >= 1,
                        p.cursor == p.lexemes@.len(),
                        p.gstate() == target,
                    decreases p.lexemes@.len() - p.cursor,
                {
                    match p.peek() {
                        Some(_) => p.bump(),
                        None => break,
                    }
                }
                p.finish_node();
            },
            None => {},
        }
        p.finish_node();
        proof {
            assert(lx.take(lx.len() as int) =~= lx);
            assert(p.toks() == significant(lx));
            if well_formed_expr(sig) {
                lemma_well_formed_no_errors(sig);
                assert(expecteds(p.errors@).len() == p.errors@.len());
            }
            lemma_parse_log(sig);
        }
        (p.events, p.errors)
    }

    /// Stepping the cursor over one lexeme adds its text to the offset and,
    /// unless it is trivia, the lexeme to the significant ones.
    proof fn lemma_step(&self)
        requires
            self.wf(),
            self.cursor < self.lexemes@.len(),
        ensures
            texts(self.lx().take(self.cursor + 1)) == texts(self.lx().take(self.cursor as int))
                + self.lx()[self.cursor as int].1,
            significant(self.lx().take(self.cursor + 1)) == significant(self.lx().take(self.cursor as int))
                + if spec_is_trivia(self.lx()[self.cursor as int].0) {
                Seq::empty()
            } else {
                seq![self.lx()[self.cursor as int]]
            },
            self.offset + self.lexemes@[self.cursor as int].text@.len() <= usize::MAX,
            self.lx()[self.cursor as int] == self.lexemes@[self.cursor as int]@,
    {
        let lx = self.lx();
        let c = self.cursor as int;
        assert(lx.take(c + 1).drop_last() =~= lx.take(c));
        lemma_texts_append(lx.take(c + 1), lx.skip(c + 1));
        assert(lx.take(c + 1) + lx.skip(c + 1) =~= lx);
    }
}

/// The index of the lexeme that holds the `m`-th significant lexeme from
/// `c` on, or the end.
pub open spec fn sig_index(lx: Seq<(SyntaxKind, Seq<u8>)>, c: int, m: int) -> int
    decreases lx.len() - c,
{
    if c < 0 || c >= lx.len() {
        lx.len() as int
    } else if spec_is_trivia(lx[c].0) {
        sig_index(lx, c + 1, m)
    } else if m <= 0 {
        c
    } else {
        sig_index(lx, c + 1, m - 1)
    }
}

/// The byte offset at which the `m`-th significant lexeme starts, or the
/// length of the input when there are no more.
pub open spec fn sig_offset(lx: Seq<(SyntaxKind, Seq<u8>)>, m: int) -> nat {
    texts(lx.take(sig_index(lx, 0, m))).len()
}

/// A cursor on a significant lexeme (or at the end) is where the lexeme
/// that follows those before it stands.
pub proof fn lemma_sig_index(lx: Seq<(SyntaxKind, Seq<u8>)>, k: int, c: int)
    requires
        0 <= k <= c <= lx.len(),
        c == lx.len() || !spec_is_trivia(lx[c].0),
    ensures
        sig_index(lx, k, significant(lx.take(c)).len() - significant(lx.take(k)).len()) == c,
    decreases c - k,
{
    if k < c {
        lemma_significant_append(lx.take(k + 1), lx.subrange(k + 1, c));
        assert(lx.take(k + 1) + lx.subrange(k + 1, c) =~= lx.take(c));
        assert(lx.take(k + 1).drop_last() =~= lx.take(k));
        lemma_sig_index(lx, k + 1, c);
    }
}

/// What each diagnostic expected, in order.
pub open spec fn expecteds(s: Seq<Diagnostic>) -> Seq<Expected> {
    s.map_values(|d: Diagnostic| d.expected)
}

/// The significant lexemes before lexeme `c` are a prefix of all of them;
/// a significant lexeme at `c` is the next one after that prefix.
pub proof fn lemma_sig_at(lx: Seq<(SyntaxKind, Seq<u8>)>, c: int)
    requires
        0 <= c <= lx.len(),
    ensures
        significant(lx.take(c)).len() <= significant(lx).len(),
        c == lx.len() ==> significant(lx.take(c)).len() == significant(lx).len(),
        c < lx.len() && !spec_is_trivia(lx[c].0) ==> significant(lx.take(c)).len() < significant(lx).len()
            && significant(lx)[significant(lx.take(c)).len() as int] == lx[c],
{
    lemma_significant_append(lx.take(c), lx.skip(c));
    assert(lx.take(c) + lx.skip(c) =~= lx);
    if c == lx.len() {
        assert(lx.take(c) =~= lx);
    }
    if c < lx.len() && !spec_is_trivia(lx[c].0) {
        let rest = lx.skip(c);
        assert(rest[0] == lx[c]);
        lemma_significant_append(seq![rest[0]], rest.skip(1));
        assert(seq![rest[0]] + rest.skip(1) =~= rest);
        let one = seq![rest[0]];
        assert(one.drop_last() =~= Seq::<(SyntaxKind, Seq<u8>)>::empty());
        assert(significant(one.drop_last()) =~= Seq::<(SyntaxKind, Seq<u8>)>::empty());
        assert(one.last() == lx[c]);
        assert(significant(one) == significant(one.drop_last()) + seq![one.last()]);
        assert(significant(one) =~= one);
    }
}

proof fn lemma_push_non_token(s: Seq<EventView>, e: EventView)
    requires
        !(e is AddToken),
    ensures
        tokens_of(s.push(e)) == tokens_of(s),
{
    assert(s.push(e).drop_last() =~= s);
    assert(tokens_of(s.push(e)) =~= tokens_of(s));
}

proof fn lemma_tokens_push_token(s: Seq<EventView>, e: EventView)
    requires
        e is AddToken,
    ensures
        tokens_of(s.push(e)) == tokens_of(s) + seq![(e->AddToken_0, e->AddToken_1)],
{
    assert(s.push(e).drop_last() =~= s);
}

} // verus!
