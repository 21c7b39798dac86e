use vstd::prelude::*;
use crate::kind::SyntaxKind;

verus! {

/// Byte classes that make up the runs of multi-byte lexemes.
#[derive(Clone, Copy, PartialEq, Eq, Structural)]
pub enum ByteClass {
    Space,
    Digit,
    AlphaNum,
    NotNewline,
    Continuation,
}

pub open spec fn is_space(x: u8) -> bool {
    x == 32 || x == 9 || x == 10 || x == 13
}

pub open spec fn is_digit(x: u8) -> bool {
    48 <= x <= 57
}

pub open spec fn is_alpha(x: u8) -> bool {
    (65 <= x <= 90) || (97 <= x <= 122)
}

pub open spec fn in_class(c: ByteClass, x: u8) -> bool {
    match c {
        ByteClass::Space => is_space(x),
        ByteClass::Digit => is_digit(x),
        ByteClass::AlphaNum => is_alpha(x) || is_digit(x),
        ByteClass::NotNewline => x != 10,
        ByteClass::Continuation => 128 <= x <= 191,
    }
}

/// The end of the longest run of bytes of class `c` that starts at `j`.
pub open spec fn run_end(b: Seq<u8>, j: int, c: ByteClass) -> int
    decreases b.len() - j,
{
    if 0 <= j < b.len() && in_class(c, b[j]) {
        run_end(b, j + 1, c)
    } else {
        j
    }
}

/// The kind of a single punctuation byte, if it is one.
pub open spec fn punct_kind(x: u8) -> Option<SyntaxKind> {
    if x == 43 {
        Some(SyntaxKind::Plus)
    } else if x == 45 {
        Some(SyntaxKind::Minus)
    } else if x == 42 {
        Some(SyntaxKind::Star)
    } else if x == 47 {
        Some(SyntaxKind::Slash)
    } else if x == 61 {
        Some(SyntaxKind::Equals)
    } else if x == 123 {
        Some(SyntaxKind::LBrace)
    } else if x == 125 {
        Some(SyntaxKind::RBrace)
    } else if x == 40 {
        Some(SyntaxKind::LParen)
    } else if x == 41 {
        Some(SyntaxKind::RParen)
    } else {
        None
    }
}

/// Where the lexeme that starts at `i` ends (longest match).
pub open spec fn lexeme_end(b: Seq<u8>, i: int) -> int {
    let x = b[i];
    if is_space(x) {
        run_end(b, i + 1, ByteClass::Space)
    } else if x == 35 {
        run_end(b, i + 1, ByteClass::NotNewline)
    } else if is_digit(x) {
        run_end(b, i + 1, ByteClass::Digit)
    } else if is_alpha(x) {
        run_end(b, i + 1, ByteClass::AlphaNum)
    } else if x >= 128 {
        run_end(b, i + 1, ByteClass::Continuation)
    } else {
        i + 1
    }
}

/// The kind of the lexeme `t`, classified by its first byte; keywords win
/// over identifiers of the same text.
pub open spec fn lexeme_kind(t: Seq<u8>) -> SyntaxKind {
    let x = t[0];
    if is_space(x) {
        SyntaxKind::Whitespace
    } else if x == 35 {
        SyntaxKind::Comment
    } else if is_digit(x) {
        SyntaxKind::Number
    } else if is_alpha(x) {
        if t == seq![102u8, 110u8] {
            SyntaxKind::FnKw
        } else if t == seq![108u8, 101u8, 116u8] {
            SyntaxKind::LetKw
        } else {
            SyntaxKind::Ident
        }
    } else {
        match punct_kind(x) {
            Some(k) => k,
            None => SyntaxKind::Error,
        }
    }
}

/// The lexemes of `b` from byte `i` on, as (kind, text) pairs.
pub open spec fn lex_from(b: Seq<u8>, i: int) -> Seq<(SyntaxKind, Seq<u8>)>
    decreases b.len() - i,
{
    if 0 <= i < b.len() {
        let e = lexeme_end(b, i);
        if i < e <= b.len() {
            let t = b.subrange(i, e);
            seq![(lexeme_kind(t), t)] + lex_from(b, e)
        } else {
            Seq::empty()
        }
    } else {
        Seq::empty()
    }
}

pub open spec fn spec_lex(b: Seq<u8>) -> Seq<(SyntaxKind, Seq<u8>)> {
    lex_from(b, 0)
}

/// The concatenation of the texts of a sequence of lexemes.
pub open spec fn texts(s: Seq<(SyntaxKind, Seq<u8>)>) -> Seq<u8>
    decreases s.len(),
{
    if s.len() == 0 {
        Seq::empty()
    } else {
        texts(s.drop_last()) + s.last().1
    }
}

/// A classified slice of the input, owning a copy of its bytes.
pub struct Lexeme {
    pub kind: SyntaxKind,
    pub text: Vec<u8>,
}

impl View for Lexeme {
    type V = (SyntaxKind, Seq<u8>);

    open spec fn view(&self) -> (SyntaxKind, Seq<u8>) {
        (self.kind, self.text@)
    }
}

pub open spec fn lexeme_views(s: Seq<Lexeme>) -> Seq<(SyntaxKind, Seq<u8>)> {
    s.map_values(|l: Lexeme| l@)
}

proof fn lemma_run_end(b: Seq<u8>, j: int, c: ByteClass)
    requires
        0 <= j <= b.len(),
    ensures
        j <= run_end(b, j, c) <= b.len(),
    decreases b.len() - j,
{
    if j < b.len() && in_class(c, b[j]) {
        lemma_run_end(b, j + 1, c);
    }
}

proof fn lemma_lexeme_end(b: Seq<u8>, i: int)
    requires
        0 <= i < b.len(),
    ensures
        i < lexeme_end(b, i) <= b.len(),
{
    lemma_run_end(b, i + 1, ByteClass::Space);
    lemma_run_end(b, i + 1, ByteClass::NotNewline);
    lemma_run_end(b, i + 1, ByteClass::Digit);
    lemma_run_end(b, i + 1, ByteClass::AlphaNum);
    lemma_run_end(b, i + 1, ByteClass::Continuation);
}

pub proof fn lemma_texts_append(a: Seq<(SyntaxKind, Seq<u8>)>, c: Seq<(SyntaxKind, Seq<u8>)>)
    ensures
        texts(a + c) == texts(a) + texts(c),
    decreases c.len(),
{
    if c.len() == 0 {
        assert(a + c =~= a);
        assert(texts(a) + texts(c) =~= texts(a));
    } else {
        lemma_texts_append(a, c.drop_last());
        assert((a + c).drop_last() =~= a + c.drop_last());
        assert(texts(a + c) =~= texts(a) + texts(c));
    }
}

/// The lexemes from byte `i` on spell out the rest of the input.
proof fn lemma_lex_from_covers(b: Seq<u8>, i: int)
    requires
        0 <= i <= b.len(),
    ensures
        texts(lex_from(b, i)) == b.subrange(i, b.len() as int),
    decreases b.len() - i,
{
    if i < b.len() {
        lemma_lexeme_end(b, i);
        let e = lexeme_end(b, i);
        let t = b.subrange(i, e);
        lemma_lex_from_covers(b, e);
        lemma_texts_append(seq![(lexeme_kind(t), t)], lex_from(b, e));
        let one = seq![(lexeme_kind(t), t)];
        assert(one.drop_last() =~= Seq::<(SyntaxKind, Seq<u8>)>::empty());
        assert(texts(one.drop_last()) =~= Seq::<u8>::empty());
        assert(texts(one) == texts(one.drop_last()) + one.last().1);
        assert(texts(one) =~= t);
        assert(lex_from(b, i) == one + lex_from(b, e));
        assert(b.subrange(i, b.len() as int) =~= t + b.subrange(e, b.len() as int));
    } else {
        assert(b.subrange(i, b.len() as int) =~= Seq::<u8>::empty());
    }
}

/// Lexing covers the input exactly: the texts of the lexemes, in order,
/// are the input.
pub proof fn lemma_lex_covers(b: Seq<u8>)
    ensures
        texts(spec_lex(b)) == b,
{
    lemma_lex_from_covers(b, 0);
    assert(b.subrange(0, b.len() as int) =~= b);
}

fn in_class_exec(c: ByteClass, x: u8) -> (r: bool)
    ensures
        r == in_class(c, x),
{
    match c {
        ByteClass::Space => x == 32 || x == 9 || x == 10 || x == 13,
        ByteClass::Digit => 48 <= x && x <= 57,
        ByteClass::AlphaNum => (65 <= x && x <= 90) || (97 <= x && x <= 122) || (48 <= x && x <= 57),
        ByteClass::NotNewline => x != 10,
        ByteClass::Continuation => 128 <= x && x <= 191,
    }
}

fn scan_run(b: &[u8], j: usize, c: ByteClass) -> (r: usize)
    requires
        j <= b@.len(),
    ensures
        r as int == run_end(b@, j as int, c),
        j <= r <= b@.len(),
{
    let mut k: usize = j;
    while k < b.len() && in_class_exec(c, b[k])
        invariant
            j <= k <= b@.len(),
            run_end(b@, k as int, c) == run_end(b@, j as int, c),
        decreases b@.len() - k,
    {
        k = k + 1;
    }
    k
}

fn scan_lexeme(b: &[u8], i: usize) -> (r: usize)
    requires
        i < b@.len(),
    ensures
        r as int == lexeme_end(b@, i as int),
{
    proof {
        lemma_lexeme_end(b@, i as int);
    }
    let x = b[i];
    if x == 32 || x == 9 || x == 10 || x == 13 {
        scan_run(b, i + 1, ByteClass::Space)
    } else if x == 35 {
        scan_run(b, i + 1, ByteClass::NotNewline)
    } else if 48 <= x && x <= 57 {
        scan_run(b, i + 1, ByteClass::Digit)
    } else if (65 <= x && x <= 90) || (97 <= x && x <= 122) {
        scan_run(b, i + 1, ByteClass::AlphaNum)
    } else if x >= 128 {
        scan_run(b, i + 1, ByteClass::Continuation)
    } else {
        i + 1
    }
}

fn classify(t: &Vec<u8>) -> (r: SyntaxKind)
    requires
        t@.len() > 0,
    ensures
        r == lexeme_kind(t@),
{
    let x = t[0];
    if x == 32 || x == 9 || x == 10 || x == 13 {
        SyntaxKind::Whitespace
    } else if x == 35 {
        SyntaxKind::Comment
    } else if 48 <= x && x <= 57 {
        SyntaxKind::Number
    } else if (65 <= x && x <= 90) || (97 <= x && x <= 122) {
        if t.len() == 2 && t[0] == 102 && t[1] == 110 {
            assert(t@ =~= seq![102u8, 110u8]);
            SyntaxKind::FnKw
        } else if t.len() == 3 && t[0] == 108 && t[1] == 101 && t[2] == 116 {
            assert(t@ =~= seq![108u8, 101u8, 116u8]);
            SyntaxKind::LetKw
        } else {
            assert(t@ != seq![102u8, 110u8] && t@ != seq![108u8, 101u8, 116u8]) by {
                if t@ == seq![102u8, 110u8] {
                    assert(t@[1] == 110u8);
                }
                if t@ == seq![108u8, 101u8, 116u8] {
                    assert(t@[2] == 116u8);
                }
            }
            SyntaxKind::Ident
        }
    } else if x == 43 {
        SyntaxKind::Plus
    } else if x == 45 {
        SyntaxKind::Minus
    } else if x == 42 {
        SyntaxKind::Star
    } else if x == 47 {
        SyntaxKind::Slash
    } else if x == 61 {
        SyntaxKind::Equals
    } else if x == 123 {
        SyntaxKind::LBrace
    } else if x == 125 {
        SyntaxKind::RBrace
    } else if x == 40 {
        SyntaxKind::LParen
    } else if x == 41 {
        SyntaxKind::RParen
    } else {
        SyntaxKind::Error
    }
}

fn copy_range(b: &[u8], lo: usize, hi: usize) -> (r: Vec<u8>)
    requires
        lo <= hi <= b@.len(),
    ensures
        r@ == b@.subrange(lo as int, hi as int),
{
    let mut r: Vec<u8> = Vec::new();
    let mut k: usize = lo;
    while k < hi
        invariant
            lo <= k <= hi <= b@.len(),
            r@ == b@.subrange(lo as int, k as int),
        decreases hi - k,
    {
        r.push(b[k]);
        k = k + 1;
        assert(r@ =~= b@.subrange(lo as int, k as int));
    }
    r
}

/// A copy of a byte buffer.
pub fn copy_bytes(v: &Vec<u8>) -> (r: Vec<u8>)
    ensures
        r@ == v@,
{
    let r = copy_range(v.as_slice(), 0, v.len());
    assert(v@.subrange(0, v@.len() as int) =~= v@);
    r
}

/// Splits `b` into lexemes. The tokenizer is total: a byte that starts no
/// rule becomes an `Error` lexeme of its own (with the continuation bytes of
/// its character), so every byte lands in exactly one lexeme.
pub fn lex(b: &[u8]) -> (r: Vec<Lexeme>)
    ensures
        lexeme_views(r@) == spec_lex(b@),
        texts(lexeme_views(r@)) == b@,
{
    let mut out: Vec<Lexeme> = Vec::new();
    let mut i: usize = 0;
    while i < b.len()
        invariant
            i <= b@.len(),
            lexeme_views(out@) + lex_from(b@, i as int) == spec_lex(b@),
        decreases b@.len() - i,
    {
        let e = scan_lexeme(b, i);
        proof {
            lemma_lexeme_end(b@, i as int);
        }
        let text = copy_range(b, i, e);
        let kind = classify(&text);
        let ghost before = lexeme_views(out@);
        out.push(Lexeme { kind, text });
        assert(lexeme_views(out@) =~= before.push((kind, b@.subrange(i as int, e as int))));
        assert(lex_from(b@, i as int) == seq![(kind, b@.subrange(i as int, e as int))] + lex_from(b@, e as int));
        assert(lexeme_views(out@) + lex_from(b@, e as int) =~= before + lex_from(b@, i as int));
        i = e;
    }
    assert(lex_from(b@, i as int) =~= Seq::<(SyntaxKind, Seq<u8>)>::empty());
    assert(lexeme_views(out@) =~= spec_lex(b@));
    proof {
        lemma_lex_covers(b@);
    }
    out
}

} // verus!
