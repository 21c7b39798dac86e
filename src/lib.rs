pub mod kind;
pub mod lexer;
pub mod event;
pub mod parser;
pub mod grammar;
pub mod tree;
pub mod sink;
pub mod dump;

use vstd::prelude::*;
use vstd::utf8::{encode_utf8, valid_utf8};
use vstd::string::StringSliceAdditionalSpecFns;
use crate::lexer::{lex, spec_lex, texts};
use crate::parser::{Parser, Diagnostic, paren_balance, ends_operand, expecteds, sig_offset};
use crate::grammar::{parse_state, well_formed_expr, lemma_well_formed_no_errors, lemma_parse_log};
use crate::tree::EntryView;
use crate::kind::SyntaxKind;
use crate::event::resolved;
use crate::sink::replay;
use crate::event::{significant, resolve};
use crate::sink::build;
use crate::tree::{SyntaxTree, leaves, error_nodes};
use crate::dump::{dump, dump_bytes};

verus! {

/// The result of parsing: the lossless tree and the diagnostics of the
/// errors that were recovered from.
pub struct Parse {
    pub tree: SyntaxTree,
    pub errors: Vec<Diagnostic>,
}

impl Parse {
    /// The leaves' bytes fit in memory, as those of an input do.
    pub open spec fn wf(&self) -> bool {
        self.tree.fits()
    }

    /// The canonical dump of the tree, as bytes.
    pub fn debug_bytes(&self) -> (r: Vec<u8>)
        requires
            self.wf(),
        ensures
            r@ == dump(self.tree.walk()),
    {
        dump_bytes(&self.tree.entries)
    }

    /// The canonical dump of the tree: `<Kind>@<start>..<end>` for nodes,
    /// followed by ` "<text>"` for leaves, two spaces of indentation per
    /// level, one line each, no newline at the end.
    pub fn debug_tree(&self) -> (r: String)
        requires
            self.wf(),
        ensures
            valid_utf8(dump(self.tree.walk())) ==> encode_utf8(r@) == dump(self.tree.walk()),
    {
        let b = self.debug_bytes();
        utf8_lossy(&b)
    }
}

/// Relies on `String::from_utf8_lossy`: valid UTF-8 comes back as the same
/// text.
#[verifier::external_body]
fn utf8_lossy(b: &Vec<u8>) -> (r: String)
    ensures
        valid_utf8(b@) ==> encode_utf8(r@) == b@,
{
    String::from_utf8_lossy(b.as_slice()).into_owned()
}

/// Parses `text` into a lossless concrete syntax tree. Never fails: input
/// that the grammar does not expect ends up in `Error` nodes, with a
/// diagnostic for each. The leaves are the lexemes of the input, so their
/// texts, in order, are the input itself. Input with unbalanced
/// parentheses, or whose last significant lexeme cannot end an operand (a
/// trailing operator or `(`), always comes with diagnostics, and each
/// diagnostic with an `Error` node.
pub fn parse(text: &str) -> (r: Parse)
    ensures
        leaves(r.tree.walk()) == spec_lex(text.spec_bytes()),
        texts(leaves(r.tree.walk())) == text.spec_bytes(),
        r.wf(),
        r.tree.walk() == replay(
            resolved(parse_state(significant(spec_lex(text.spec_bytes()))).ev),
            spec_lex(text.spec_bytes()),
            0,
            0,
        ),
        expecteds(r.errors@) == parse_state(significant(spec_lex(text.spec_bytes()))).errs,
        well_formed_expr(significant(spec_lex(text.spec_bytes()))) ==> r.errors@.len() == 0,
        forall|i: int| 0 <= i < r.errors@.len() ==> (#[trigger] r.errors@[i]).offset <= text.spec_bytes().len(),
        r.errors@.len() == parse_state(significant(spec_lex(text.spec_bytes()))).at.len(),
        forall|i: int|
            0 <= i < r.errors@.len() ==> (#[trigger] r.errors@[i]).offset == sig_offset(
                spec_lex(text.spec_bytes()),
                parse_state(significant(spec_lex(text.spec_bytes()))).at[i],
            ),
        r.errors@.len() <= error_nodes(r.tree.walk()),
        r.tree.walk().len() >= 1,
        r.tree.walk()[0] == EntryView::Open(SyntaxKind::Root),
        paren_balance(significant(spec_lex(text.spec_bytes()))) != 0 ==> r.errors@.len() > 0,
        significant(spec_lex(text.spec_bytes())).len() > 0 && !ends_operand(
            significant(spec_lex(text.spec_bytes())).last().0,
        ) ==> r.errors@.len() > 0,
{
    let bytes = text.as_bytes();
    // The input's length is a usize, which bounds every offset in the tree.
    let _len: usize = bytes.len();
    let lexemes = lex(bytes);
    let parser = Parser::new(&lexemes);
    let (events, errors) = parser.parse();
    let in_place = resolve(&events);
    let tree = build(&lexemes, &in_place);
    proof {
        let w = tree.walk();
        assert(w.take(w.len() as int) =~= w);
        let sig = significant(spec_lex(bytes@));
        let ev = parse_state(sig).ev;
        lemma_parse_log(sig);
        assert(replay(resolved(ev), spec_lex(bytes@), 0, 0)[0] == EntryView::Open(SyntaxKind::Root));
        if well_formed_expr(sig) {
            lemma_well_formed_no_errors(sig);
            assert(expecteds(errors@).len() == errors@.len());
        }
    }
    Parse { tree, errors }
}

} // verus!
