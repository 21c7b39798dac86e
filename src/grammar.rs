use vstd::prelude::*;
use crate::kind::{SyntaxKind, spec_is_trivia};
use crate::parser::{Parser, Expected, ends_operand, paren_balance, lemma_balance_push};
use crate::event::EventView;

verus! {

/// The parser's state as the grammar sees it: how many significant lexemes
/// are consumed, the event log, and what each recorded error expected.
pub struct GState {
    pub pos: int,
    pub ev: Seq<EventView>,
    pub errs: Seq<Expected>,
    /// Where each error was found, as a count of significant lexemes.
    pub at: Seq<int>,
}

pub type Sig = Seq<(SyntaxKind, Seq<u8>)>;

/// The kind of the significant lexeme at `pos`, if any.
pub open spec fn g_peek(sig: Sig, pos: int) -> Option<SyntaxKind> {
    if 0 <= pos < sig.len() {
        Some(sig[pos].0)
    } else {
        None
    }
}

pub open spec fn g_push(s: GState, e: EventView) -> GState {
    GState { pos: s.pos, ev: s.ev.push(e), errs: s.errs, at: s.at }
}

/// Consumes the significant lexeme at `s.pos` as a token.
pub open spec fn g_bump(sig: Sig, s: GState) -> GState {
    GState { pos: s.pos + 1, ev: s.ev.push(EventView::AddToken(sig[s.pos].0, sig[s.pos].1)), errs: s.errs, at: s.at }
}

pub open spec fn g_error(s: GState, x: Expected) -> GState {
    GState { pos: s.pos, ev: s.ev, errs: s.errs.push(x), at: s.at.push(s.pos) }
}

/// Consumes lexemes up to the next `)` or the end.
pub open spec fn g_skip(sig: Sig, s: GState) -> GState
    decreases sig.len() - s.pos,
{
    if 0 <= s.pos < sig.len() && sig[s.pos].0 != SyntaxKind::RParen {
        g_skip(sig, g_bump(sig, s))
    } else {
        s
    }
}

/// Consumes all the remaining lexemes.
pub open spec fn g_skip_rest(sig: Sig, s: GState) -> GState
    decreases sig.len() - s.pos,
{
    if 0 <= s.pos < sig.len() {
        g_skip_rest(sig, g_bump(sig, s))
    } else {
        s
    }
}

/// An `Error` node around the lexemes up to the next `)` or the end.
pub open spec fn g_recover(sig: Sig, s: GState, x: Expected) -> GState {
    g_push(g_skip(sig, g_error(g_push(s, EventView::StartNode(SyntaxKind::Error)), x)), EventView::FinishNode)
}

pub open spec fn infix_bp(k: SyntaxKind) -> Option<(u8, u8)> {
    if k == SyntaxKind::Plus || k == SyntaxKind::Minus {
        Some((1u8, 2u8))
    } else if k == SyntaxKind::Star || k == SyntaxKind::Slash {
        Some((3u8, 4u8))
    } else {
        None
    }
}

/// An operand: a number, an identifier, a prefix `-` applied to an operand
/// that binds tighter than every infix operator, or a parenthesised
/// expression; an `Error` node where none starts.
pub open spec fn g_operand(sig: Sig, s: GState) -> GState
    decreases sig.len() - s.pos, 1int, 0int,
{
    let cp = s.ev.len();
    match g_peek(sig, s.pos) {
        Some(SyntaxKind::Number) => g_bump(sig, s),
        Some(SyntaxKind::Ident) => g_bump(sig, s),
        Some(SyntaxKind::Minus) => g_push(
            g_expr(sig, g_push(g_bump(sig, s), EventView::StartNodeAt(SyntaxKind::PrefixExpr, cp)), 5u8),
            EventView::FinishNode,
        ),
        Some(SyntaxKind::LParen) => {
            let s2 = g_expr(sig, g_bump(sig, s), 0u8);
            if g_peek(sig, s2.pos) == Some(SyntaxKind::RParen) {
                g_bump(sig, s2)
            } else {
                let s3 = g_recover(sig, s2, Expected::RParen);
                if g_peek(sig, s3.pos) == Some(SyntaxKind::RParen) {
                    g_bump(sig, s3)
                } else {
                    s3
                }
            }
        },
        _ => g_recover(sig, s, Expected::Expression),
    }
}

/// An expression whose infix operators bind at least as tightly as
/// `min_bp`: an operand, then operators and their right operands, each
/// wrapping what came before it (from the checkpoint) in a binary node.
pub open spec fn g_expr(sig: Sig, s: GState, min_bp: u8) -> GState
    decreases sig.len() - s.pos, 1int, 1int,
{
    let cp = s.ev.len();
    let a = g_operand(sig, s);
    if s.pos <= a.pos <= sig.len() {
        g_loop(sig, a, cp, min_bp)
    } else {
        a
    }
}

/// The operators that follow a left operand, and their right operands: the
/// start of the binary node is deferred to the checkpoint before the
/// operator is consumed.
pub open spec fn g_loop(sig: Sig, s: GState, cp: nat, min_bp: u8) -> GState
    decreases sig.len() - s.pos, 0int, 0int,
{
    match g_peek(sig, s.pos) {
        Some(k) => match infix_bp(k) {
            Some((l, r)) => if l < min_bp {
                s
            } else {
                let s2 = g_push(
                    g_expr(sig, g_bump(sig, g_push(s, EventView::StartNodeAt(SyntaxKind::BinaryExpr, cp))), r),
                    EventView::FinishNode,
                );
                if s.pos < s2.pos <= sig.len() {
                    g_loop(sig, s2, cp, min_bp)
                } else {
                    s2
                }
            },
            None => s,
        },
        None => s,
    }
}

/// The whole parse of the significant lexemes `sig`: a `Root` node around
/// an expression (when there is any lexeme), then an `Error` node around
/// what the expression left over.
pub open spec fn parse_state(sig: Sig) -> GState {
    let s0 = GState { pos: 0, ev: seq![EventView::StartNode(SyntaxKind::Root)], errs: Seq::empty(), at: Seq::empty() };
    let s1 = if sig.len() > 0 {
        g_expr(sig, s0, 0u8)
    } else {
        s0
    };
    let s2 = if s1.pos < sig.len() {
        g_push(
            g_skip_rest(sig, g_error(g_push(s1, EventView::StartNode(SyntaxKind::Error)), Expected::EndOfInput)),
            EventView::FinishNode,
        )
    } else {
        s1
    };
    g_push(s2, EventView::FinishNode)
}

/// No start is deferred to the very first event, nor to one at or after
/// itself.
pub open spec fn checkpoints_ok(ev: Seq<EventView>) -> bool {
    forall|i: int|
        0 <= i < ev.len() ==> match #[trigger] ev[i] {
            EventView::StartNodeAt(_, c) => 1 <= c < i,
            _ => true,
        }
}

/// The grammar only appends to the log, and places every checkpoint after
/// the first event and before the deferred start itself.
pub proof fn lemma_skip_log(sig: Sig, s: GState)
    requires
        checkpoints_ok(s.ev),
    ensures
        checkpoints_ok(g_skip(sig, s).ev),
        g_skip(sig, s).ev.len() >= s.ev.len(),
        g_skip(sig, s).ev.take(s.ev.len() as int) == s.ev,
        checkpoints_ok(g_skip_rest(sig, s).ev),
        g_skip_rest(sig, s).ev.take(s.ev.len() as int) == s.ev,
        g_skip_rest(sig, s).ev.len() >= s.ev.len(),
    decreases sig.len() - s.pos,
{
    if 0 <= s.pos < sig.len() {
        let b = g_bump(sig, s);
        lemma_skip_log(sig, b);
        assert(b.ev.take(s.ev.len() as int) =~= s.ev);
        assert(s.ev.take(s.ev.len() as int) =~= s.ev);
        if sig[s.pos].0 != SyntaxKind::RParen {
            assert(g_skip(sig, s).ev.take(s.ev.len() as int) =~= g_skip(sig, s).ev.take(b.ev.len() as int).take(
                s.ev.len() as int,
            ));
        }
        assert(g_skip_rest(sig, s).ev.take(s.ev.len() as int) =~= g_skip_rest(sig, s).ev.take(
            b.ev.len() as int,
        ).take(s.ev.len() as int));
    } else {
        assert(s.ev.take(s.ev.len() as int) =~= s.ev);
    }
}

proof fn lemma_push_log(s: GState, e: EventView)
    requires
        checkpoints_ok(s.ev),
        match e {
            EventView::StartNodeAt(_, c) => 1 <= c < s.ev.len(),
            _ => true,
        },
    ensures
        checkpoints_ok(g_push(s, e).ev),
        g_push(s, e).ev.take(s.ev.len() as int) == s.ev,
{
    assert(g_push(s, e).ev.take(s.ev.len() as int) =~= s.ev);
}

proof fn lemma_operand_log(sig: Sig, s: GState)
    requires
        checkpoints_ok(s.ev),
        s.ev.len() >= 1,
    ensures
        checkpoints_ok(g_operand(sig, s).ev),
        g_operand(sig, s).ev.len() > s.ev.len(),
        g_operand(sig, s).ev.take(s.ev.len() as int) == s.ev,
    decreases sig.len() - s.pos, 1int, 0int,
{
    let cp = s.ev.len();
    let e = GState { pos: s.pos, ev: s.ev.push(EventView::StartNode(SyntaxKind::Error)), errs: s.errs, at: s.at };
    lemma_push_log(s, EventView::StartNode(SyntaxKind::Error));
    lemma_skip_log(sig, g_error(e, Expected::Expression));
    let sk = g_skip(sig, g_error(e, Expected::Expression));
    lemma_push_log(sk, EventView::FinishNode);
    assert(sk.ev.take(s.ev.len() as int) =~= sk.ev.take(e.ev.len() as int).take(s.ev.len() as int));
    assert(g_recover(sig, s, Expected::Expression).ev.take(s.ev.len() as int) =~= sk.ev.take(s.ev.len() as int));
    match g_peek(sig, s.pos) {
        Some(SyntaxKind::Number) | Some(SyntaxKind::Ident) => {
            let b = g_bump(sig, s);
            assert(b.ev.take(s.ev.len() as int) =~= s.ev);
        },
        Some(SyntaxKind::Minus) => {
            let b = g_bump(sig, s);
            let s1 = g_push(b, EventView::StartNodeAt(SyntaxKind::PrefixExpr, cp));
            lemma_push_log(b, EventView::StartNodeAt(SyntaxKind::PrefixExpr, cp));
            lemma_expr_log(sig, s1, 5u8);
            let s2 = g_expr(sig, s1, 5u8);
            lemma_push_log(s2, EventView::FinishNode);
            assert(g_push(s2, EventView::FinishNode).ev.take(s.ev.len() as int) =~= s2.ev.take(s1.ev.len() as int).take(
                s.ev.len() as int,
            ));
        },
        Some(SyntaxKind::LParen) => {
            let b = g_bump(sig, s);
            assert(b.ev.take(s.ev.len() as int) =~= s.ev);
            lemma_expr_log(sig, b, 0u8);
            let s2 = g_expr(sig, b, 0u8);
            let e2 = GState { pos: s2.pos, ev: s2.ev.push(EventView::StartNode(SyntaxKind::Error)), errs: s2.errs, at: s2.at };
            lemma_push_log(s2, EventView::StartNode(SyntaxKind::Error));
            lemma_skip_log(sig, g_error(e2, Expected::RParen));
            let sk2 = g_skip(sig, g_error(e2, Expected::RParen));
            lemma_push_log(sk2, EventView::FinishNode);
            let s3 = g_recover(sig, s2, Expected::RParen);
            assert(s3.ev.take(s.ev.len() as int) =~= s3.ev.take(s2.ev.len() as int).take(s.ev.len() as int));
            assert(s2.ev.take(s.ev.len() as int) =~= s2.ev.take(b.ev.len() as int).take(s.ev.len() as int));
            let b2 = g_bump(sig, s2);
            assert(b2.ev.take(s.ev.len() as int) =~= s2.ev.take(s.ev.len() as int));
            let b3 = g_bump(sig, s3);
            assert(b3.ev.take(s.ev.len() as int) =~= s3.ev.take(s.ev.len() as int));
        },
        _ => {},
    }
}

proof fn lemma_expr_log(sig: Sig, s: GState, bp: u8)
    requires
        checkpoints_ok(s.ev),
        s.ev.len() >= 1,
    ensures
        checkpoints_ok(g_expr(sig, s, bp).ev),
        g_expr(sig, s, bp).ev.len() >= s.ev.len(),
        g_expr(sig, s, bp).ev.take(s.ev.len() as int) == s.ev,
    decreases sig.len() - s.pos, 1int, 1int,
{
    lemma_operand_log(sig, s);
    let a = g_operand(sig, s);
    if s.pos <= a.pos <= sig.len() {
        lemma_loop_log(sig, a, s.ev.len(), bp);
        assert(g_loop(sig, a, s.ev.len(), bp).ev.take(s.ev.len() as int) =~= g_loop(sig, a, s.ev.len(), bp).ev.take(
            a.ev.len() as int,
        ).take(s.ev.len() as int));
    }
}

proof fn lemma_loop_log(sig: Sig, s: GState, cp: nat, bp: u8)
    requires
        checkpoints_ok(s.ev),
        1 <= cp < s.ev.len(),
    ensures
        checkpoints_ok(g_loop(sig, s, cp, bp).ev),
        g_loop(sig, s, cp, bp).ev.len() >= s.ev.len(),
        g_loop(sig, s, cp, bp).ev.take(s.ev.len() as int) == s.ev,
    decreases sig.len() - s.pos, 0int, 0int,
{
    assert(s.ev.take(s.ev.len() as int) =~= s.ev);
    if 0 <= s.pos < sig.len() && infix_bp(sig[s.pos].0) is Some {
        let (l, r) = infix_bp(sig[s.pos].0).unwrap();
        if l >= bp {
            let b = g_push(s, EventView::StartNodeAt(SyntaxKind::BinaryExpr, cp));
            lemma_push_log(s, EventView::StartNodeAt(SyntaxKind::BinaryExpr, cp));
            let s1 = g_bump(sig, b);
            assert(s1.ev.take(b.ev.len() as int) =~= b.ev);
            assert(b.ev.take(s.ev.len() as int) =~= s.ev);
            lemma_expr_log(sig, s1, r);
            let s2x = g_expr(sig, s1, r);
            lemma_push_log(s2x, EventView::FinishNode);
            let s2 = g_push(s2x, EventView::FinishNode);
            assert(s2.ev.take(s.ev.len() as int) =~= s2.ev.take(s1.ev.len() as int).take(s.ev.len() as int));
            assert(s1.ev.take(s.ev.len() as int) =~= s.ev);
            if s.pos < s2.pos <= sig.len() {
                lemma_loop_log(sig, s2, cp, bp);
                assert(g_loop(sig, s2, cp, bp).ev.take(s.ev.len() as int) =~= g_loop(sig, s2, cp, bp).ev.take(
                    s2.ev.len() as int,
                ).take(s.ev.len() as int));
            }
        }
    }
}

/// The whole log starts with the `Root` start, and no start is deferred to
/// it or past itself.
pub proof fn lemma_parse_log(sig: Sig)
    ensures
        checkpoints_ok(parse_state(sig).ev),
        parse_state(sig).ev.len() >= 2,
        parse_state(sig).ev[0] == EventView::StartNode(SyntaxKind::Root),
{
    let s0 = GState { pos: 0, ev: seq![EventView::StartNode(SyntaxKind::Root)], errs: Seq::empty(), at: Seq::empty() };
    assert(checkpoints_ok(s0.ev));
    let s1 = if sig.len() > 0 {
        g_expr(sig, s0, 0u8)
    } else {
        s0
    };
    if sig.len() > 0 {
        lemma_expr_log(sig, s0, 0u8);
    }
    assert(s1.ev.take(1) == s0.ev);
    let s2 = if s1.pos < sig.len() {
        g_push(
            g_skip_rest(sig, g_error(g_push(s1, EventView::StartNode(SyntaxKind::Error)), Expected::EndOfInput)),
            EventView::FinishNode,
        )
    } else {
        s1
    };
    if s1.pos < sig.len() {
        let e = g_push(s1, EventView::StartNode(SyntaxKind::Error));
        lemma_push_log(s1, EventView::StartNode(SyntaxKind::Error));
        lemma_skip_log(sig, g_error(e, Expected::EndOfInput));
        let sk = g_skip_rest(sig, g_error(e, Expected::EndOfInput));
        lemma_push_log(sk, EventView::FinishNode);
        assert(sk.ev.take(1) =~= sk.ev.take(e.ev.len() as int).take(1));
        assert(e.ev.take(1) =~= s1.ev.take(1));
        assert(s2.ev.take(1) =~= sk.ev.take(1));
    }
    assert(s2.ev.take(1) == s0.ev);
    assert(s2.ev[0] == s2.ev.take(1)[0]);
    lemma_push_log(s2, EventView::FinishNode);
}

/// Where a complete operand that starts at `i` ends, or -1 where none does.
pub open spec fn operand_end(sig: Sig, i: int) -> int
    decreases sig.len() - i, 1int,
{
    if i < 0 || i >= sig.len() {
        -1
    } else if sig[i].0 == SyntaxKind::Number || sig[i].0 == SyntaxKind::Ident {
        i + 1
    } else if sig[i].0 == SyntaxKind::Minus {
        let e = operand_end(sig, i + 1);
        if i + 1 < e <= sig.len() {
            e
        } else {
            -1
        }
    } else if sig[i].0 == SyntaxKind::LParen {
        let j = expr_end(sig, i + 1);
        if i + 1 < j < sig.len() && sig[j].0 == SyntaxKind::RParen {
            j + 1
        } else {
            -1
        }
    } else {
        -1
    }
}

/// Where a complete expression (operands joined by infix operators) that
/// starts at `i` ends, or -1 where none does.
pub open spec fn expr_end(sig: Sig, i: int) -> int
    decreases sig.len() - i, 2int,
{
    let j = operand_end(sig, i);
    if i < j <= sig.len() {
        let t = tail_end(sig, j);
        if j <= t <= sig.len() {
            t
        } else {
            -1
        }
    } else {
        -1
    }
}

/// Where the run of (operator, operand) pairs from `j` ends, or -1 where an
/// operator lacks a complete operand.
pub open spec fn tail_end(sig: Sig, j: int) -> int
    decreases sig.len() - j, 0int,
{
    if 0 <= j < sig.len() && infix_bp(sig[j].0) is Some {
        let k = operand_end(sig, j + 1);
        if j + 1 < k <= sig.len() {
            let t = tail_end(sig, k);
            if k <= t <= sig.len() {
                t
            } else {
                -1
            }
        } else {
            -1
        }
    } else {
        j
    }
}

/// The significant lexemes form one complete expression, or there are none.
pub open spec fn well_formed_expr(sig: Sig) -> bool {
    sig.len() == 0 || expr_end(sig, 0) == sig.len()
}

/// With a binding power above every infix operator, the operator loop
/// stops at once.
proof fn lemma_loop_tight(sig: Sig, s: GState, cp: nat)
    ensures
        g_loop(sig, s, cp, 5u8) == s,
{
}

proof fn lemma_operand_ok(sig: Sig, s: GState)
    requires
        0 <= s.pos,
        s.pos < operand_end(sig, s.pos) <= sig.len(),
    ensures
        g_operand(sig, s).errs == s.errs,
        g_operand(sig, s).pos == operand_end(sig, s.pos),
    decreases sig.len() - s.pos, 1int, 0int,
{
    let k = sig[s.pos].0;
    let cp = s.ev.len();
    if k == SyntaxKind::Minus {
        let s1 = g_push(g_bump(sig, s), EventView::StartNodeAt(SyntaxKind::PrefixExpr, cp));
        lemma_operand_ok(sig, s1);
        let a = g_operand(sig, s1);
        lemma_loop_tight(sig, a, s1.ev.len());
        assert(g_expr(sig, s1, 5u8) == a);
    } else if k == SyntaxKind::LParen {
        let j = expr_end(sig, s.pos + 1);
        let s1 = g_bump(sig, s);
        lemma_expr_ok(sig, s1, 0u8, j);
    }
}

proof fn lemma_expr_ok(sig: Sig, s: GState, bp: u8, e: int)
    requires
        0 <= s.pos,
        s.pos < operand_end(sig, s.pos) <= sig.len(),
        tail_end(sig, operand_end(sig, s.pos)) == e,
        operand_end(sig, s.pos) <= e <= sig.len(),
    ensures
        g_expr(sig, s, bp).errs == s.errs,
        s.pos < g_expr(sig, s, bp).pos <= e,
        tail_end(sig, g_expr(sig, s, bp).pos) == e,
        g_expr(sig, s, bp).pos == e || infix_bp(sig[g_expr(sig, s, bp).pos].0).unwrap().0 < bp,
    decreases sig.len() - s.pos, 1int, 1int,
{
    lemma_operand_ok(sig, s);
    lemma_loop_ok(sig, g_operand(sig, s), s.ev.len(), bp, e);
}

proof fn lemma_loop_ok(sig: Sig, s: GState, cp: nat, bp: u8, e: int)
    requires
        0 <= s.pos <= e <= sig.len(),
        tail_end(sig, s.pos) == e,
    ensures
        g_loop(sig, s, cp, bp).errs == s.errs,
        s.pos <= g_loop(sig, s, cp, bp).pos <= e,
        tail_end(sig, g_loop(sig, s, cp, bp).pos) == e,
        g_loop(sig, s, cp, bp).pos == e || infix_bp(sig[g_loop(sig, s, cp, bp).pos].0).unwrap().0 < bp,
    decreases sig.len() - s.pos, 0int, 0int,
{
    if s.pos < sig.len() && infix_bp(sig[s.pos].0) is Some {
        let (l, r) = infix_bp(sig[s.pos].0).unwrap();
        if l >= bp {
            let s1 = g_bump(sig, g_push(s, EventView::StartNodeAt(SyntaxKind::BinaryExpr, cp)));
            lemma_expr_ok(sig, s1, r, e);
            let s2 = g_push(g_expr(sig, s1, r), EventView::FinishNode);
            lemma_loop_ok(sig, s2, cp, bp, e);
        }
    }
}

/// Input that forms one complete expression parses without diagnostics.
pub proof fn lemma_well_formed_no_errors(sig: Sig)
    requires
        well_formed_expr(sig),
    ensures
        parse_state(sig).errs.len() == 0,
{
    if sig.len() > 0 {
        let s0 = GState { pos: 0, ev: seq![EventView::StartNode(SyntaxKind::Root)], errs: Seq::empty(), at: Seq::empty() };
        lemma_expr_ok(sig, s0, 0u8, sig.len() as int);
    }
}

/// Multiplication binds tighter than addition: for `a + b * c` the log
/// defers a binary start to `a` and another, inside it, to `b`.
pub proof fn lemma_precedence(a: Seq<u8>, plus: Seq<u8>, b: Seq<u8>, star: Seq<u8>, c: Seq<u8>)
    ensures
        ({
            let sig = seq![
                (SyntaxKind::Number, a),
                (SyntaxKind::Plus, plus),
                (SyntaxKind::Number, b),
                (SyntaxKind::Star, star),
                (SyntaxKind::Number, c),
            ];
            parse_state(sig).ev == seq![
                EventView::StartNode(SyntaxKind::Root),
                EventView::AddToken(SyntaxKind::Number, a),
                EventView::StartNodeAt(SyntaxKind::BinaryExpr, 1),
                EventView::AddToken(SyntaxKind::Plus, plus),
                EventView::AddToken(SyntaxKind::Number, b),
                EventView::StartNodeAt(SyntaxKind::BinaryExpr, 4),
                EventView::AddToken(SyntaxKind::Star, star),
                EventView::AddToken(SyntaxKind::Number, c),
                EventView::FinishNode,
                EventView::FinishNode,
                EventView::FinishNode,
            ] && parse_state(sig).errs.len() == 0
        }),
{
    let sig = seq![
        (SyntaxKind::Number, a),
        (SyntaxKind::Plus, plus),
        (SyntaxKind::Number, b),
        (SyntaxKind::Star, star),
        (SyntaxKind::Number, c),
    ];
    let s0 = GState { pos: 0, ev: seq![EventView::StartNode(SyntaxKind::Root)], errs: Seq::empty(), at: Seq::empty() };
    let o1 = g_operand(sig, s0);
    assert(o1 == g_bump(sig, s0));
    let b1 = g_bump(sig, g_push(o1, EventView::StartNodeAt(SyntaxKind::BinaryExpr, 1)));
    let o2 = g_operand(sig, b1);
    assert(o2 == g_bump(sig, b1));
    let b2 = g_bump(sig, g_push(o2, EventView::StartNodeAt(SyntaxKind::BinaryExpr, 4)));
    let o3 = g_operand(sig, b2);
    assert(o3 == g_bump(sig, b2));
    assert(g_loop(sig, o3, 8, 4u8) == o3);
    assert(g_expr(sig, b2, 4u8) == o3);
    let f3 = g_push(o3, EventView::FinishNode);
    assert(g_loop(sig, f3, 4, 2u8) == f3);
    assert(g_loop(sig, o2, 4, 2u8) == f3);
    assert(g_expr(sig, b1, 2u8) == f3);
    let f2 = g_push(f3, EventView::FinishNode);
    assert(g_loop(sig, f2, 1, 0u8) == f2);
    assert(g_loop(sig, o1, 1, 0u8) == f2);
    assert(g_expr(sig, s0, 0u8) == f2);
    assert(parse_state(sig) == g_push(f2, EventView::FinishNode));
    assert(parse_state(sig).ev =~= seq![
        EventView::StartNode(SyntaxKind::Root),
        EventView::AddToken(SyntaxKind::Number, a),
        EventView::StartNodeAt(SyntaxKind::BinaryExpr, 1),
        EventView::AddToken(SyntaxKind::Plus, plus),
        EventView::AddToken(SyntaxKind::Number, b),
        EventView::StartNodeAt(SyntaxKind::BinaryExpr, 4),
        EventView::AddToken(SyntaxKind::Star, star),
        EventView::AddToken(SyntaxKind::Number, c),
        EventView::FinishNode,
        EventView::FinishNode,
        EventView::FinishNode,
    ]);
}

/// Operators of one level associate to the left: for `a - b - c` both
/// binary starts are deferred to `a`, the second one after the first node
/// is finished, so that it encloses it.
pub proof fn lemma_left_associative(a: Seq<u8>, m1: Seq<u8>, b: Seq<u8>, m2: Seq<u8>, c: Seq<u8>)
    ensures
        ({
            let sig = seq![
                (SyntaxKind::Number, a),
                (SyntaxKind::Minus, m1),
                (SyntaxKind::Number, b),
                (SyntaxKind::Minus, m2),
                (SyntaxKind::Number, c),
            ];
            parse_state(sig).ev == seq![
                EventView::StartNode(SyntaxKind::Root),
                EventView::AddToken(SyntaxKind::Number, a),
                EventView::StartNodeAt(SyntaxKind::BinaryExpr, 1),
                EventView::AddToken(SyntaxKind::Minus, m1),
                EventView::AddToken(SyntaxKind::Number, b),
                EventView::FinishNode,
                EventView::StartNodeAt(SyntaxKind::BinaryExpr, 1),
                EventView::AddToken(SyntaxKind::Minus, m2),
                EventView::AddToken(SyntaxKind::Number, c),
                EventView::FinishNode,
                EventView::FinishNode,
            ] && parse_state(sig).errs.len() == 0
        }),
{
    let sig = seq![
        (SyntaxKind::Number, a),
        (SyntaxKind::Minus, m1),
        (SyntaxKind::Number, b),
        (SyntaxKind::Minus, m2),
        (SyntaxKind::Number, c),
    ];
    let s0 = GState { pos: 0, ev: seq![EventView::StartNode(SyntaxKind::Root)], errs: Seq::empty(), at: Seq::empty() };
    let o1 = g_operand(sig, s0);
    assert(o1 == g_bump(sig, s0));
    let b1 = g_bump(sig, g_push(o1, EventView::StartNodeAt(SyntaxKind::BinaryExpr, 1)));
    let o2 = g_operand(sig, b1);
    assert(o2 == g_bump(sig, b1));
    assert(g_loop(sig, o2, 4, 2u8) == o2);
    assert(g_expr(sig, b1, 2u8) == o2);
    let f2 = g_push(o2, EventView::FinishNode);
    let b2 = g_bump(sig, g_push(f2, EventView::StartNodeAt(SyntaxKind::BinaryExpr, 1)));
    let o3 = g_operand(sig, b2);
    assert(o3 == g_bump(sig, b2));
    assert(g_loop(sig, o3, 8, 2u8) == o3);
    assert(g_expr(sig, b2, 2u8) == o3);
    let f3 = g_push(o3, EventView::FinishNode);
    assert(g_loop(sig, f3, 1, 0u8) == f3);
    assert(g_loop(sig, f2, 1, 0u8) == f3);
    assert(g_loop(sig, o1, 1, 0u8) == f3);
    assert(g_expr(sig, s0, 0u8) == f3);
    assert(parse_state(sig) == g_push(f3, EventView::FinishNode));
    assert(parse_state(sig).ev =~= seq![
        EventView::StartNode(SyntaxKind::Root),
        EventView::AddToken(SyntaxKind::Number, a),
        EventView::StartNodeAt(SyntaxKind::BinaryExpr, 1),
        EventView::AddToken(SyntaxKind::Minus, m1),
        EventView::AddToken(SyntaxKind::Number, b),
        EventView::FinishNode,
        EventView::StartNodeAt(SyntaxKind::BinaryExpr, 1),
        EventView::AddToken(SyntaxKind::Minus, m2),
        EventView::AddToken(SyntaxKind::Number, c),
        EventView::FinishNode,
        EventView::FinishNode,
    ]);
}

/// Left and right binding power of an infix operator; `*` and `/` bind
/// tighter than `+` and `-`, and the right power is one more than the left,
/// which makes chains of one level associate to the left.
pub fn infix_binding_power(k: SyntaxKind) -> (r: Option<(u8, u8)>)
    ensures
        (k == SyntaxKind::Plus || k == SyntaxKind::Minus) ==> r == Some((1u8, 2u8)),
        (k == SyntaxKind::Star || k == SyntaxKind::Slash) ==> r == Some((3u8, 4u8)),
        !(k == SyntaxKind::Plus || k == SyntaxKind::Minus || k == SyntaxKind::Star || k
            == SyntaxKind::Slash) ==> r is None,
{
    match k {
        SyntaxKind::Plus | SyntaxKind::Minus => Some((1, 2)),
        SyntaxKind::Star | SyntaxKind::Slash => Some((3, 4)),
        _ => None,
    }
}

/// The binding power of prefix `-`: tighter than every infix operator.
pub const PREFIX_BINDING_POWER: u8 = 5;

/// Records that `expected` was missing and wraps the lexemes up to the next
/// `)` or the end of input in an `Error` node.
pub fn recover(p: &mut Parser, expected: Expected)
    requires
        old(p).wf(),
        old(p).cursor == old(p).lexemes@.len() || !spec_is_trivia(old(p).lexemes@[old(p).cursor as int].kind),
    ensures
        old(p).advanced(&*final(p)),
        final(p).errors@.len() == old(p).errors@.len() + 1,
        final(p).gstate() == g_recover(old(p).sig(), old(p).gstate(), expected),
{
    let ghost sig = p.sig();
    p.start_node(SyntaxKind::Error);
    p.error(expected);
    let ghost target = g_skip(sig, p.gstate());
    loop
        invariant
            old(p).advanced(&*p),
            p.sig() == sig,
            p.errors@.len() == old(p).errors@.len() + 1,
            g_skip(sig, p.gstate()) == target,
        ensures
            old(p).advanced(&*p),
            p.errors@.len() == old(p).errors@.len() + 1,
            p.gstate() == target,
        decreases p.lexemes@.len() - p.cursor,
    {
        match p.peek() {
            None => break,
            Some(SyntaxKind::RParen) => break,
            Some(_) => p.bump(),
        }
    }
    p.finish_node();
}

/// An expression whose infix operators bind at least as tightly as
/// `min_bp`. A binary node wraps its left operand after the fact, by a start
/// deferred to the checkpoint taken before that operand.
pub fn expr_binding_power(p: &mut Parser, min_bp: u8)
    requires
        old(p).wf(),
    ensures
        old(p).advanced(&*final(p)),
        final(p).errors@.len() == old(p).errors@.len() ==> final(p).toks().len() > old(p).toks().len()
            && ends_operand(final(p).toks().last().0) && paren_balance(final(p).toks()) == paren_balance(
            old(p).toks(),
        ),
        final(p).gstate() == g_expr(old(p).sig(), old(p).gstate(), min_bp),
    decreases old(p).lexemes@.len() - old(p).cursor,
{
    let checkpoint = p.checkpoint();
    let ghost sig = p.sig();
    let ghost s0 = p.gstate();
    let ghost t0 = p.toks();
    let ghost e0 = p.errors@.len();
    match p.peek() {
        Some(SyntaxKind::Number) | Some(SyntaxKind::Ident) => {
            proof {
                lemma_balance_push(p.toks(), p.lx()[p.cursor as int]);
            }
            p.bump();
        },
        Some(SyntaxKind::Minus) => {
            proof {
                lemma_balance_push(p.toks(), p.lx()[p.cursor as int]);
            }
            p.bump();
            p.start_node_at(checkpoint, SyntaxKind::PrefixExpr);
            expr_binding_power(p, PREFIX_BINDING_POWER);
            p.finish_node();
        },
        Some(SyntaxKind::LParen) => {
            proof {
                lemma_balance_push(p.toks(), p.lx()[p.cursor as int]);
            }
            p.bump();
            expr_binding_power(p, 0);
            match p.peek() {
                Some(SyntaxKind::RParen) => {
                    proof {
                        lemma_balance_push(p.toks(), p.lx()[p.cursor as int]);
                    }
                    p.bump();
                },
                _ => {
                    recover(p, Expected::RParen);
                    match p.peek() {
                        Some(SyntaxKind::RParen) => p.bump(),
                        _ => {},
                    }
                },
            }
        },
        _ => recover(p, Expected::Expression),
    }
    assert(p.gstate() == g_operand(sig, s0));
    let ghost cp = checkpoint as nat;
    loop
        invariant
            old(p).advanced(&*p),
            p.sig() == sig,
            s0 == old(p).gstate(),
            cp == checkpoint as nat,
            cp == s0.ev.len(),
            g_loop(sig, p.gstate(), cp, min_bp) == g_expr(sig, s0, min_bp),
            t0 == old(p).toks(),
            e0 == old(p).errors@.len(),
            p.errors@.len() == e0 ==> p.toks().len() > t0.len() && ends_operand(p.toks().last().0)
                && paren_balance(p.toks()) == paren_balance(t0),
        ensures
            old(p).advanced(&*p),
            p.errors@.len() == e0 ==> p.toks().len() > t0.len() && ends_operand(p.toks().last().0)
                && paren_balance(p.toks()) == paren_balance(t0),
            p.gstate() == g_expr(sig, s0, min_bp),
        decreases p.lexemes@.len() - p.cursor,
    {
        let op = match p.peek() {
            Some(k) => k,
            None => {
                assert(g_loop(sig, p.gstate(), cp, min_bp) == p.gstate());
                break;
            },
        };
        let (left_bp, right_bp) = match infix_binding_power(op) {
            Some(bp) => bp,
            None => {
                assert(g_loop(sig, p.gstate(), cp, min_bp) == p.gstate());
                break;
            },
        };
        if left_bp < min_bp {
            assert(g_loop(sig, p.gstate(), cp, min_bp) == p.gstate());
            break;
        }
        proof {
            lemma_balance_push(p.toks(), p.lx()[p.cursor as int]);
        }
        p.start_node_at(checkpoint, SyntaxKind::BinaryExpr);
        p.bump();
        expr_binding_power(p, right_bp);
        p.finish_node();
    }
}

/// A whole expression.
pub fn expr(p: &mut Parser)
    requires
        old(p).wf(),
    ensures
        old(p).advanced(&*final(p)),
        final(p).errors@.len() == old(p).errors@.len() ==> final(p).toks().len() > old(p).toks().len()
            && ends_operand(final(p).toks().last().0) && paren_balance(final(p).toks()) == paren_balance(
            old(p).toks(),
        ),
        final(p).gstate() == g_expr(old(p).sig(), old(p).gstate(), 0u8),
{
    expr_binding_power(p, 0);
}

} // verus!
