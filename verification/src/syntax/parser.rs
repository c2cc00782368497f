//! The parser: from tokens to the syntax tree.
//!
//! Each parsing function starts at a token index and, on success, returns
//! the node it read and the index just past it. Its contract says that the
//! node is written with exactly the tokens it consumed (`*_kinds` of the
//! node equals the kinds of those tokens), that every operator in it
//! groups as precedence says (`*_wf`), and that it and every node in it
//! carry the span of their own tokens (`*_spans`).

use vstd::prelude::*;
use crate::ir::str_eq;
use crate::syntax::ast::{
    Spanned, PrimitiveType, TypeAnnotation, TypeExpr, FieldDef, TypeDef, EnumDef, ParamDef,
    FunctionBody, FunctionDef, BinaryOp, UnaryOp, Literal, Expr, ExprKind, StructField, IfExprElse,
    Block, Stmt, StmtKind, ElseClause, AssignTarget, Accessor, Item, Program, KindView, kind_view,
    toks_view, seg, p, w, primitive_name, run_span, annotation_spans, type_spans, expr_spans, exprs_spans,
    struct_field_spans, struct_fields_spans, block_spans, stmts_spans, stmt_spans, target_spans, accessor_spans,
    accessors_spans, field_def_spans, field_defs_spans, variants_spans, param_spans, params_spans, item_spans,
    items_spans, binary_sym, annotation_kinds, literal_kinds,
    type_kinds, expr_kinds, exprs_kinds, struct_field_kinds, struct_fields_kinds, block_kinds,
    stmts_kinds, stmt_kinds, target_kinds, accessor_kinds, accessors_kinds, op_level, expr_level,
    expr_wf, exprs_wf, struct_fields_wf, block_wf, stmts_wf, stmt_wf, accessors_wf, field_def_kinds,
    field_defs_kinds, variants_kinds, param_kinds, params_kinds, item_kinds, item_wf, items_kinds,
    items_wf, program_kinds,
};
use crate::syntax::lexer::{
    last_end, lex_error_at, lexed, skip_trivia, tokenize, tokenization, token_span, LexError, Span, Sym, Token,
    TokenKind,
    law_tokenization_unique, same_kind, law_read_or_refused,
};

verus! {

/// The parser of the language. Its functions are [`parse`] and
/// [`parse_expression`].
pub struct LatticeParser;

/// Why a source text is not a program.
#[derive(Debug)]
pub enum ParseError {
    /// The text could not be split into tokens.
    Lex(LexError),
    /// The tokens do not form a program: `position` is the index of the
    /// token where reading stopped (the number of tokens at the end of the
    /// input).
    Syntax { position: usize },
}

// ---------------------------------------------------------------------------
// Token runs
// ---------------------------------------------------------------------------

/// The kinds of `a..c` are those of `a..b` followed by those of `b..c`.
pub proof fn lemma_seg_split(ts: Seq<Token>, a: int, b: int, c: int)
    requires
        0 <= a <= b <= c <= ts.len(),
    ensures
        seg(ts, a, c) == seg(ts, a, b) + seg(ts, b, c),
{
    assert(seg(ts, a, c) =~= seg(ts, a, b) + seg(ts, b, c));
}

/// The kinds of one token.
pub proof fn lemma_seg_one(ts: Seq<Token>, a: int)
    requires
        0 <= a < ts.len(),
    ensures
        seg(ts, a, a + 1) == seq![kind_view(ts[a].kind)],
{
    assert(seg(ts, a, a + 1) =~= seq![kind_view(ts[a].kind)]);
}

/// Extending a run by the token after it.
pub proof fn lemma_seg_push(ts: Seq<Token>, a: int, b: int)
    requires
        0 <= a <= b < ts.len(),
    ensures
        seg(ts, a, b + 1) == seg(ts, a, b) + seq![kind_view(ts[b].kind)],
{
    lemma_seg_split(ts, a, b, b + 1);
    lemma_seg_one(ts, b);
}

/// A token run of the whole sequence.
pub proof fn lemma_seg_all(ts: Seq<Token>)
    ensures
        seg(ts, 0, ts.len() as int) == toks_view(ts),
{
    assert(ts.subrange(0, ts.len() as int) =~= ts);
}

/// The token at `pos` is the operator `s`.
fn punct_at(ts: &Vec<Token>, pos: usize, s: Sym) -> (b: bool)
    ensures
        b == (pos < ts@.len() && ts@[pos as int].kind == TokenKind::Punct(s)),
        ts@.len() <= usize::MAX,
{
    if pos < ts.len() {
        match &ts[pos].kind {
            TokenKind::Punct(q) => *q == s,
            _ => false,
        }
    } else {
        false
    }
}

/// The token kind `k` is the word `s`.
pub open spec fn is_word(k: TokenKind, s: Seq<char>) -> bool {
    k matches TokenKind::Word(x) && x@ == s
}

/// The token at `pos` is the word `kw`.
fn word_at(ts: &Vec<Token>, pos: usize, kw: &str) -> (b: bool)
    ensures
        b == (pos < ts@.len() && is_word(ts@[pos as int].kind, kw@)),
        ts@.len() <= usize::MAX,
{
    if pos < ts.len() {
        match &ts[pos].kind {
            TokenKind::Word(x) => str_eq(x.as_str(), kw),
            _ => false,
        }
    } else {
        false
    }
}

/// The words that name no variable, field or type.
/// The text starts with a capital letter from `A` to `Z`.
pub open spec fn upper_start(s: Seq<char>) -> bool {
    s.len() > 0 && 'A' <= s[0] && s[0] <= 'Z'
}

/// A name that reads as a variable: not reserved, and not starting with a
/// capital letter (which may start a struct literal).
pub open spec fn lower_name(s: Seq<char>) -> bool {
    !reserved(s) && !upper_start(s)
}

/// The token at `pos` is one that an operand of an arithmetic expression
/// can be: an integer or a variable.
pub open spec fn atom_token(ts: Seq<Token>, pos: int) -> bool {
    0 <= pos < ts.len() && match ts[pos].kind {
        TokenKind::Int(_) => true,
        TokenKind::Word(x) => lower_name(x@),
        _ => false,
    }
}

/// The expression `e` is the operand written as the token `k`.
pub open spec fn atom_of(k: TokenKind, e: ExprKind) -> bool {
    match (k, e) {
        (TokenKind::Int(v), ExprKind::Literal(Literal::Int(w))) => v == w,
        (TokenKind::Word(x), ExprKind::Var(y)) => x@ == y@,
        _ => false,
    }
}

pub open spec fn reserved(s: Seq<char>) -> bool {
    s == "let"@ || s == "if"@ || s == "else"@ || s == "while"@ || s == "for"@ || s == "in"@
        || s == "return"@ || s == "def"@ || s == "type"@ || s == "enum"@ || s == "true"@
        || s == "false"@ || s == "null"@
}

fn is_reserved(x: &str) -> (b: bool)
    ensures
        b == reserved(x@),
{
    str_eq(x, "let") || str_eq(x, "if") || str_eq(x, "else") || str_eq(x, "while") || str_eq(x, "for")
        || str_eq(x, "in") || str_eq(x, "return") || str_eq(x, "def") || str_eq(x, "type")
        || str_eq(x, "enum") || str_eq(x, "true") || str_eq(x, "false") || str_eq(x, "null")
}

/// The name at `pos`: a word that is not reserved.
fn name_at(ts: &Vec<Token>, pos: usize) -> (r: Option<String>)
    ensures
        r matches Some(x) ==> pos < ts@.len() && kind_view(ts@[pos as int].kind) == KindView::Word(x@)
            && !reserved(x@),
        pos < ts@.len() && plain_name(kind_view(ts@[pos as int].kind)) ==> r is Some,
        ts@.len() <= usize::MAX,
{
    if pos < ts.len() {
        match &ts[pos].kind {
            TokenKind::Word(x) => {
                if is_reserved(x.as_str()) {
                    None
                } else {
                    Some(x.clone())
                }
            },
            _ => None,
        }
    } else {
        None
    }
}

/// The span from the start of token `a` to the end of token `b - 1`.
fn span_between(ts: &Vec<Token>, a: usize, b: usize) -> (r: Span)
    requires
        a < b <= ts@.len(),
    ensures
        r == run_span(ts@, a as int, b as int),
{
    Span { start: ts[a].span.start, end: ts[b - 1].span.end, line: ts[a].span.line, column: ts[a].span.column }
}

/// A name with the span of its token.
fn spanned_name(ts: &Vec<Token>, pos: usize, x: String) -> (r: Spanned<String>)
    requires
        pos < ts@.len(),
    ensures
        r.node@ == x@,
        r.span == ts@[pos as int].span,
{
    Spanned::new(x, ts[pos].span)
}

fn starts_upper(x: &str) -> (b: bool)
    ensures
        b == upper_start(x@),
{
    let cs = crate::text::chars_of(x);
    cs.len() > 0 && 'A' <= cs[0] && cs[0] <= 'Z'
}

// ---------------------------------------------------------------------------
// Type annotations
// ---------------------------------------------------------------------------

/// The built-in type named `x`, if any.
fn primitive_of(x: &str) -> (r: Option<PrimitiveType>)
    ensures
        r matches Some(t) ==> primitive_name(t) == x@,
        r is None ==> forall|t: PrimitiveType| primitive_name(t) != x@,
{
    if str_eq(x, "String") {
        Some(PrimitiveType::String)
    } else if str_eq(x, "Int") {
        Some(PrimitiveType::Int)
    } else if str_eq(x, "Float") {
        Some(PrimitiveType::Float)
    } else if str_eq(x, "Bool") {
        Some(PrimitiveType::Bool)
    } else if str_eq(x, "Null") {
        Some(PrimitiveType::Null)
    } else if str_eq(x, "Path") {
        Some(PrimitiveType::Path)
    } else {
        proof {
            assert forall|t: PrimitiveType| primitive_name(t) != x@ by {
                match t {
                    PrimitiveType::String => {},
                    PrimitiveType::Int => {},
                    PrimitiveType::Float => {},
                    PrimitiveType::Bool => {},
                    PrimitiveType::Null => {},
                    PrimitiveType::Path => {},
                }
            }
        }
        None
    }
}

/// Token `i` ends a type annotation of a field, a parameter or a return
/// type: a comma, `}`, `)` or `{`.
pub open spec fn ends_field(ts: Seq<Token>, i: int) -> bool {
    0 <= i < ts.len() && (ts[i].kind == TokenKind::Punct(Sym::Comma) || ts[i].kind == TokenKind::Punct(Sym::RBrace)
        || ts[i].kind == TokenKind::Punct(Sym::RParen) || ts[i].kind == TokenKind::Punct(Sym::LBrace))
}

/// Parameter `i` of a list written from `a` in `k` is `name: Type`, both
/// plain names.
pub open spec fn param_at(k: Seq<KindView>, a: int, i: int) -> bool {
    plain_name(k[a + 4 * i]) && k[a + 1 + 4 * i] == KindView::Punct(Sym::Colon) && plain_name(k[a + 2 + 4 * i])
}

/// A comma follows parameter `i` of a list written from `a` in `k`.
pub open spec fn param_comma_at(k: Seq<KindView>, a: int, i: int) -> bool {
    k[a + 3 + 4 * i] == KindView::Punct(Sym::Comma)
}

/// Where the `)` after `n` parameters written from `a` stands.
pub open spec fn params_close(a: int, n: int) -> int {
    if n == 0 { a } else { a + 4 * n - 1 }
}

/// `k` holds from `a` on `n` parameters `name: Type` separated by commas,
/// then a `)`.
pub open spec fn params_shape(k: Seq<KindView>, a: int, n: int) -> bool {
    &&& n >= 0
    &&& 0 <= a
    &&& params_close(a, n) < k.len()
    &&& forall|i: int| 0 <= i < n ==> #[trigger] param_at(k, a, i)
    &&& forall|i: int| 0 <= i < n - 1 ==> #[trigger] param_comma_at(k, a, i)
    &&& k[params_close(a, n)] == KindView::Punct(Sym::RParen)
}

/// `k` is exactly `def name(p1: T1, ..., pn: Tn) -> T { body }`, each name
/// and type a plain name, the body written as the arithmetic expression
/// `e`.
pub open spec fn fn_shape(k: Seq<KindView>, n: int, e: Expr) -> bool {
    let c = params_close(3, n);
    &&& k.len() == c + 5 + expr_kinds(e).len()
    &&& k[0] == KindView::Word("def"@)
    &&& plain_name(k[1])
    &&& k[2] == KindView::Punct(Sym::LParen)
    &&& params_shape(k, 3, n)
    &&& k[c + 1] == KindView::Punct(Sym::Arrow)
    &&& plain_name(k[c + 2])
    &&& k[c + 3] == KindView::Punct(Sym::LBrace)
    &&& arith(e)
    &&& expr_wf(e)
    &&& k.subrange(c + 4, c + 4 + expr_kinds(e).len()) == expr_kinds(e)
    &&& k[k.len() - 1] == KindView::Punct(Sym::RBrace)
}

/// The tokens from `pos` on are a block `{ e }` whose body is the
/// arithmetic expression `e`.
pub open spec fn arith_block(ts: Seq<Token>, pos: int, e: Expr) -> bool {
    &&& 0 <= pos < ts.len()
    &&& ts[pos].kind == TokenKind::Punct(Sym::LBrace)
    &&& fits(ts, pos + 1, e, 1)
    &&& closes_at(ts, pos + 1 + expr_kinds(e).len())
}

/// Token `i` is a `}`.
pub open spec fn closes_at(ts: Seq<Token>, i: int) -> bool {
    0 <= i < ts.len() && ts[i].kind == TokenKind::Punct(Sym::RBrace)
}

/// Field `i` of a type definition written in `k` is `name: Type`, both
/// plain names.
pub open spec fn type_field_at(k: Seq<KindView>, i: int) -> bool {
    plain_name(k[3 + 4 * i]) && k[4 + 4 * i] == KindView::Punct(Sym::Colon) && plain_name(k[5 + 4 * i])
}

/// A comma follows field `i` of a type definition written in `k`.
pub open spec fn type_comma_at(k: Seq<KindView>, i: int) -> bool {
    k[6 + 4 * i] == KindView::Punct(Sym::Comma)
}

/// `k` is exactly `type Name { f1: T1, ..., fn: Tn }`, each name and type
/// a word that is not reserved.
pub open spec fn type_shape(k: Seq<KindView>, n: int) -> bool {
    &&& n >= 0
    &&& k.len() == (if n == 0 { 4 } else { 3 + 4 * n })
    &&& k[0] == KindView::Word("type"@)
    &&& plain_name(k[1])
    &&& k[2] == KindView::Punct(Sym::LBrace)
    &&& forall|i: int| 0 <= i < n ==> #[trigger] type_field_at(k, i)
    &&& forall|i: int| 0 <= i < n - 1 ==> #[trigger] type_comma_at(k, i)
    &&& k[k.len() - 1] == KindView::Punct(Sym::RBrace)
}

/// Reads a type annotation: a type and an optional `?`.
fn parse_annotation(ts: &Vec<Token>, pos: usize) -> (r: Result<(TypeAnnotation, usize), usize>)
    requires
        pos <= ts@.len(),
    ensures
        r matches Ok((t, next)) ==> pos < next <= ts@.len() && annotation_kinds(t) == seg(ts@, pos as int, next as int)
            && annotation_spans(ts@, pos as int, t),
        pos < ts@.len() && plain_name(kind_view(ts@[pos as int].kind)) && ends_field(ts@, pos + 1)
            ==> (r matches Ok((t, next)) && next == pos + 1),
    decreases ts@.len() - pos, 3int,
{
    let (ty, m) = parse_type_expr(ts, pos)?;
    if punct_at(ts, m, Sym::Question) {
        proof { lemma_seg_push(ts@, pos as int, m as int); }
        let span = span_between(ts, pos, m + 1);
        Ok((TypeAnnotation { ty, optional: true, span }, m + 1))
    } else {
        let span = span_between(ts, pos, m);
        Ok((TypeAnnotation { ty, optional: false, span }, m))
    }
}

/// Reads `Map<K, V>` or `Result<T, E>` from the `<` at `pos`: the two
/// annotations and the position after the closing `>`.
fn parse_type_pair(ts: &Vec<Token>, pos: usize) -> (r: Result<(TypeAnnotation, TypeAnnotation, usize), usize>)
    requires
        pos <= ts@.len(),
    ensures
        r matches Ok((a, b, next)) ==> pos < next <= ts@.len()
            && p(Sym::Lt) + annotation_kinds(a) + p(Sym::Comma) + annotation_kinds(b) + p(Sym::Gt)
                == seg(ts@, pos as int, next as int)
            && annotation_spans(ts@, pos + 1, a) && annotation_spans(ts@, pos + 2 + annotation_kinds(a).len(), b),
    decreases ts@.len() - pos, 2int,
{
    if !punct_at(ts, pos, Sym::Lt) {
        return Err(pos);
    }
    let (a, m1) = parse_annotation(ts, pos + 1)?;
    if !punct_at(ts, m1, Sym::Comma) {
        return Err(m1);
    }
    let (b, m2) = parse_annotation(ts, m1 + 1)?;
    if !punct_at(ts, m2, Sym::Gt) {
        return Err(m2);
    }
    proof {
        let s = ts@;
        lemma_seg_one(s, pos as int);
        lemma_seg_split(s, pos as int, pos + 1, m1 as int);
        lemma_seg_push(s, pos as int, m1 as int);
        lemma_seg_split(s, pos as int, m1 + 1, m2 as int);
        lemma_seg_push(s, pos as int, m2 as int);
    }
    Ok((a, b, m2 + 1))
}

/// Reads a type: `[T]`, `Map<K, V>`, `Result<T, E>`, a built-in type or
/// the name of a defined type.
#[verifier::rlimit(30)]
fn parse_type_expr(ts: &Vec<Token>, pos: usize) -> (r: Result<(TypeExpr, usize), usize>)
    requires
        pos <= ts@.len(),
    ensures
        r matches Ok((t, next)) ==> pos < next <= ts@.len() && type_kinds(t) == seg(ts@, pos as int, next as int)
            && type_spans(ts@, pos as int, t),
        pos < ts@.len() && plain_name(kind_view(ts@[pos as int].kind)) && ends_field(ts@, pos + 1)
            ==> (r matches Ok((t, next)) && next == pos + 1),
    decreases ts@.len() - pos, 1int,
{
    if punct_at(ts, pos, Sym::LBracket) {
        let (inner, m) = parse_annotation(ts, pos + 1)?;
        if !punct_at(ts, m, Sym::RBracket) {
            return Err(m);
        }
        proof {
            lemma_seg_one(ts@, pos as int);
            lemma_seg_split(ts@, pos as int, pos + 1, m as int);
            lemma_seg_push(ts@, pos as int, m as int);
        }
        return Ok((TypeExpr::List(Box::new(inner)), m + 1));
    }
    if word_at(ts, pos, "Map") && punct_at(ts, pos + 1, Sym::Lt) {
        let (k, v, m) = parse_type_pair(ts, pos + 1)?;
        proof {
            lemma_seg_one(ts@, pos as int);
            lemma_seg_split(ts@, pos as int, pos + 1, m as int);
            assert(w("Map"@) + (p(Sym::Lt) + annotation_kinds(k) + p(Sym::Comma) + annotation_kinds(v)
                + p(Sym::Gt)) =~= type_kinds(TypeExpr::MapOf(Box::new(k), Box::new(v))));
        }
        return Ok((TypeExpr::MapOf(Box::new(k), Box::new(v)), m));
    }
    if word_at(ts, pos, "Result") && punct_at(ts, pos + 1, Sym::Lt) {
        let (o, e, m) = parse_type_pair(ts, pos + 1)?;
        proof {
            lemma_seg_one(ts@, pos as int);
            lemma_seg_split(ts@, pos as int, pos + 1, m as int);
            assert(w("Result"@) + (p(Sym::Lt) + annotation_kinds(o) + p(Sym::Comma) + annotation_kinds(e)
                + p(Sym::Gt)) =~= type_kinds(TypeExpr::Result(Box::new(o), Box::new(e))));
        }
        return Ok((TypeExpr::Result(Box::new(o), Box::new(e)), m));
    }
    match name_at(ts, pos) {
        Some(x) => {
            proof { lemma_seg_one(ts@, pos as int); }
            match primitive_of(x.as_str()) {
                Some(t) => Ok((TypeExpr::Primitive(t), pos + 1)),
                None => Ok((TypeExpr::Named(x), pos + 1)),
            }
        },
        None => Err(pos),
    }
}

// ---------------------------------------------------------------------------
// Expressions and statements
// ---------------------------------------------------------------------------

/// No field access, index or call can start at token `i`.
pub open spec fn no_postfix_at(ts: Seq<Token>, i: int) -> bool {
    i >= ts.len() || !(ts[i].kind == TokenKind::Punct(Sym::Dot) || ts[i].kind == TokenKind::Punct(Sym::LBracket)
        || ts[i].kind == TokenKind::Punct(Sym::LParen) || ts[i].kind == TokenKind::Punct(Sym::ColonColon))
}

/// An expression of level `level` ends before token `i`: no postfix and
/// no binary operator binding at least as tightly follows.
pub open spec fn stops_at(ts: Seq<Token>, i: int, level: int) -> bool {
    &&& no_postfix_at(ts, i)
    &&& (i < ts.len() ==> sym_level(kind_view(ts[i].kind)) < level)
}

/// The binary operator of precedence `level` at `pos`, if any.
fn binary_op_at(ts: &Vec<Token>, pos: usize, level: u8) -> (r: Option<BinaryOp>)
    requires
        1 <= level <= 6,
    ensures
        r matches Some(op) ==> pos < ts@.len() && op_level(op) == level
            && ts@[pos as int].kind == TokenKind::Punct(binary_sym(op)),
        r is Some <==> (pos < ts@.len() && sym_level(kind_view(ts@[pos as int].kind)) == level),
        ts@.len() <= usize::MAX,
{
    let n = ts.len();
    if pos >= ts.len() {
        return None;
    }
    let s = match &ts[pos].kind {
        TokenKind::Punct(s) => *s,
        _ => return None,
    };
    let (op, l): (BinaryOp, u8) = match s {
        Sym::OrOr => (BinaryOp::Or, 1),
        Sym::AndAnd => (BinaryOp::And, 2),
        Sym::EqEq => (BinaryOp::Eq, 3),
        Sym::NotEq => (BinaryOp::Ne, 3),
        Sym::Lt => (BinaryOp::Lt, 4),
        Sym::Le => (BinaryOp::Le, 4),
        Sym::Gt => (BinaryOp::Gt, 4),
        Sym::Ge => (BinaryOp::Ge, 4),
        Sym::Plus => (BinaryOp::Add, 5),
        Sym::Minus => (BinaryOp::Sub, 5),
        Sym::Star => (BinaryOp::Mul, 6),
        Sym::Slash => (BinaryOp::Div, 6),
        Sym::Percent => (BinaryOp::Mod, 6),
        _ => return None,
    };
    if l == level {
        Some(op)
    } else {
        None
    }
}

/// An `if` statement whose `else if` branches are `if` statements too.
pub open spec fn if_chain(s: Stmt) -> bool
    decreases s,
{
    match s.kind {
        StmtKind::If { condition, then_branch, else_branch } => match else_branch {
            Some(ElseClause::ElseIf(inner)) => if_chain(*inner),
            _ => true,
        },
        _ => false,
    }
}

/// The `if` expression written as the `if` statement `s`.
fn if_stmt_to_expr(s: Stmt, Ghost(ts): Ghost<Seq<Token>>, Ghost(a): Ghost<int>) -> (e: Expr)
    requires
        if_chain(s),
    ensures
        expr_kinds(e) == stmt_kinds(s),
        stmt_wf(s) ==> expr_wf(e),
        expr_level(e) == 9,
        stmt_spans(ts, a, s) ==> expr_spans(ts, a, e),
    decreases s,
{
    let span = s.span;
    match s.kind {
        StmtKind::If { condition, then_branch, else_branch } => {
            let ghost x = a + 2 + expr_kinds(condition).len() + block_kinds(then_branch).len();
            let els = match else_branch {
                None => None,
                Some(ElseClause::Else(b)) => Some(IfExprElse::Else(b)),
                Some(ElseClause::ElseIf(inner)) => Some(
                    IfExprElse::ElseIf(Box::new(if_stmt_to_expr(*inner, Ghost(ts), Ghost(x)))),
                ),
            };
            Expr { kind: ExprKind::If { condition: Box::new(condition), then_branch, else_branch: els }, span }
        },
        _ => {
            proof {
                assert(false);
            }
            Expr { kind: ExprKind::Literal(Literal::Null), span }
        },
    }
}

/// A token that can start the value of a `return`.
fn value_follows(ts: &Vec<Token>, pos: usize) -> bool {
    pos < ts.len() && !punct_at(ts, pos, Sym::RBrace) && !word_at(ts, pos, "let") && !word_at(ts, pos, "while")
        && !word_at(ts, pos, "for") && !word_at(ts, pos, "return") && !word_at(ts, pos, "def")
        && !word_at(ts, pos, "type") && !word_at(ts, pos, "enum")
}

/// The arithmetic expression `e` is written with the tokens from `pos` on,
/// and an expression of level `level` ends after them.
pub open spec fn fits(ts: Seq<Token>, pos: int, e: Expr, level: int) -> bool {
    let end = pos + expr_kinds(e).len();
    &&& arith(e)
    &&& expr_wf(e)
    &&& expr_level(e) >= level
    &&& 0 <= pos
    &&& end <= ts.len()
    &&& seg(ts, pos, end) == expr_kinds(e)
    &&& stops_at(ts, end, level)
}

/// The left spine of `e` at level `level`: the operand that starts it,
/// then each expression that the next operator of that level adds to it,
/// ending with `e`.
pub open spec fn spine(e: Expr, level: int) -> Seq<Expr>
    decreases e,
{
    match e.kind {
        ExprKind::Binary { left, op, right } => if op_level(op) == level {
            spine(*left, level).push(e)
        } else {
            seq![e]
        },
        _ => seq![e],
    }
}

/// The operand that the `j`-th step of a spine adds (the first operand
/// for step 0).
pub open spec fn spine_operand(sp: Seq<Expr>, j: int) -> Expr {
    if j == 0 {
        sp[0]
    } else {
        match sp[j].kind {
            ExprKind::Binary { left, op, right } => *right,
            _ => sp[j],
        }
    }
}

/// The operator of the `j`-th step of a spine.
pub open spec fn spine_op(sp: Seq<Expr>, j: int) -> BinaryOp {
    match sp[j].kind {
        ExprKind::Binary { left, op, right } => op,
        _ => BinaryOp::Add,
    }
}

/// Where the operand of the `j`-th step of a spine starts.
pub open spec fn operand_start(sp: Seq<Expr>, pos: int, j: int) -> int {
    if j == 0 { pos } else { pos + expr_kinds(sp[j - 1]).len() + 1 }
}

/// Step `j` of a spine adds an operator of the level and an operand that
/// binds more tightly.
pub open spec fn spine_ok(sp: Seq<Expr>, j: int, level: int) -> bool {
    &&& sp[j].kind is Binary
    &&& sp[j].kind->left == sp[j - 1]
    &&& op_level(spine_op(sp, j)) == level
    &&& arith(spine_operand(sp, j))
    &&& expr_wf(spine_operand(sp, j))
    &&& expr_level(spine_operand(sp, j)) > level
    &&& expr_kinds(sp[j]) == expr_kinds(sp[j - 1]) + p(binary_sym(spine_op(sp, j))) + expr_kinds(spine_operand(sp, j))
}

proof fn lemma_spine(e: Expr, level: int)
    requires
        arith(e),
        expr_wf(e),
        expr_level(e) >= level,
        1 <= level <= 6,
    ensures
        spine(e, level).len() >= 1,
        spine(e, level).last() == e,
        arith(spine(e, level)[0]),
        expr_wf(spine(e, level)[0]),
        expr_level(spine(e, level)[0]) > level,
        forall|j: int| 1 <= j < spine(e, level).len() ==> #[trigger] spine_ok(spine(e, level), j, level),
        forall|j: int| 0 <= j < spine(e, level).len()
            ==> expr_kinds(#[trigger] spine(e, level)[j]).is_prefix_of(expr_kinds(e)),
    decreases e,
{
    let sp = spine(e, level);
    match e.kind {
        ExprKind::Binary { left, op, right } => {
            if op_level(op) == level {
                lemma_spine(*left, level);
                let sl = spine(*left, level);
                assert(sp == sl.push(e));
                assert forall|j: int| 1 <= j < sp.len() implies #[trigger] spine_ok(sp, j, level) by {
                    if j < sp.len() - 1 {
                        assert(spine_ok(sl, j, level));
                        assert(sp[j] == sl[j]);
                        assert(sp[j - 1] == sl[j - 1]);
                    } else {
                        assert(sp[j - 1] == sl.last());
                    }
                }
                assert forall|j: int| 0 <= j < sp.len() implies expr_kinds(#[trigger] sp[j]).is_prefix_of(expr_kinds(e)) by {
                    if j < sp.len() - 1 {
                        assert(sp[j] == sl[j]);
                        assert(expr_kinds(sl[j]).is_prefix_of(expr_kinds(*left)));
                        let a = expr_kinds(sl[j]);
                        let b = expr_kinds(*left);
                        let c = expr_kinds(e);
                        assert(c == b + p(binary_sym(op)) + expr_kinds(*right));
                        assert forall|k: int| 0 <= k < a.len() implies a[k] == c[k] by {
                            assert(a[k] == b[k]);
                        }
                    } else {
                        assert(expr_kinds(e).is_prefix_of(expr_kinds(e)));
                    }
                }
            } else {
                assert(expr_kinds(e).is_prefix_of(expr_kinds(e)));
            }
        },
        _ => {
            assert(expr_kinds(e).is_prefix_of(expr_kinds(e)));
        },
    }
}

/// The tokens of the `j`-th operand of the spine of an expression that
/// fits: where they are, that a tighter expression ends after them, and the
/// operator token that follows them.
proof fn lemma_operand(ts: Seq<Token>, pos: int, t: Expr, level: int, j: int)
    requires
        fits(ts, pos, t, level),
        1 <= level <= 6,
        0 <= j < spine(t, level).len(),
    ensures
        ({
            let sp = spine(t, level);
            let a = spine_operand(sp, j);
            let st = operand_start(sp, pos, j);
            let q = pos + expr_kinds(sp[j]).len();
            &&& st + expr_kinds(a).len() == q
            &&& pos <= st < q
            &&& arith(a) && expr_wf(a) && expr_level(a) > level
            &&& seg(ts, st, q) == expr_kinds(a)
            &&& stops_at(ts, q, level + 1)
            &&& (j + 1 < sp.len() ==> q < ts.len() && ts[q].kind == TokenKind::Punct(binary_sym(spine_op(sp, j + 1))))
            &&& (j + 1 == sp.len() ==> sp[j] == t)
            &&& (j > 0 ==> ts[st - 1].kind == TokenKind::Punct(binary_sym(spine_op(sp, j))))
        }),
{
    lemma_spine(t, level);
    let sp = spine(t, level);
    let k = expr_kinds(t);
    let a = spine_operand(sp, j);
    let st = operand_start(sp, pos, j);
    let q = pos + expr_kinds(sp[j]).len();
    let end = pos + k.len();
    assert(expr_kinds(sp[j]).is_prefix_of(k));
    assert forall|i: int| 0 <= i < k.len() implies kind_view(#[trigger] ts[pos + i].kind) == k[i] by {
        assert(seg(ts, pos, end)[i] == kind_view(ts[pos + i].kind));
    }
    if j == 0 {
        lemma_arith_ops(sp[0]);
        assert(seg(ts, st, q) =~= expr_kinds(a)) by {
            assert forall|i: int| 0 <= i < q - st implies seg(ts, st, q)[i] == expr_kinds(a)[i] by {
                assert(seg(ts, st, q)[i] == kind_view(ts[pos + i].kind));
                assert(expr_kinds(sp[0])[i] == k[i]);
            }
        }
    } else {
        assert(spine_ok(sp, j, level));
        lemma_arith_ops(a);
        let kp = expr_kinds(sp[j - 1]);
        assert(expr_kinds(sp[j]) == kp + p(binary_sym(spine_op(sp, j))) + expr_kinds(a));
        assert(seg(ts, st, q) =~= expr_kinds(a)) by {
            assert forall|i: int| 0 <= i < q - st implies seg(ts, st, q)[i] == expr_kinds(a)[i] by {
                assert(seg(ts, st, q)[i] == kind_view(ts[st + i].kind));
                assert(expr_kinds(sp[j])[kp.len() + 1 + i] == k[kp.len() + 1 + i]);
            }
        }
        assert(expr_kinds(sp[j])[kp.len() as int] == k[kp.len() as int]);
        assert(kind_view(ts[st - 1].kind) == k[kp.len() as int]);
    }
    if j + 1 < sp.len() {
        assert(spine_ok(sp, j + 1, level));
        lemma_op_token(spine_op(sp, j + 1));
        let kj = expr_kinds(sp[j]);
        assert(expr_kinds(sp[j + 1]).is_prefix_of(k));
        assert(expr_kinds(sp[j + 1])[kj.len() as int] == k[kj.len() as int]);
        assert(kind_view(ts[q].kind) == KindView::Punct(binary_sym(spine_op(sp, j + 1))));
    }
}

/// An operand of an arithmetic expression that binds more tightly than
/// every operator is one token, an integer or a variable, and any
/// expression that token reads as has its shape.
proof fn lemma_atom_token(ts: Seq<Token>, pos: int, a: Expr)
    requires
        arith(a),
        expr_level(a) > 6,
        0 <= pos,
        pos + expr_kinds(a).len() <= ts.len(),
        seg(ts, pos, pos + expr_kinds(a).len()) == expr_kinds(a),
    ensures
        expr_kinds(a).len() == 1,
        atom_token(ts, pos),
        forall|e: Expr| atom_of(ts[pos].kind, e.kind) ==> same_shape(e, a),
{
    match a.kind {
        ExprKind::Literal(Literal::Int(v)) => {
            assert(expr_kinds(a) =~= seq![KindView::Int(v)]);
            lemma_seg_one(ts, pos);
            assert(seg(ts, pos, pos + 1)[0] == expr_kinds(a)[0]);
            assert(kind_view(ts[pos].kind) == KindView::Int(v));
            assert(ts[pos].kind == TokenKind::Int(v));
        },
        ExprKind::Var(x) => {
            assert(expr_kinds(a) =~= seq![KindView::Word(x@)]);
            lemma_seg_one(ts, pos);
            assert(seg(ts, pos, pos + 1)[0] == expr_kinds(a)[0]);
            assert(kind_view(ts[pos].kind) == KindView::Word(x@));
            assert(ts[pos].kind is Word);
        },
        _ => {},
    }
}

/// Reads an expression whose operators bind at least as tightly as
/// `level` (from 1, `||`, to 6, `* / %`).
fn parse_binary(ts: &Vec<Token>, pos: usize, level: u8, Ghost(target): Ghost<Option<Expr>>) -> (r: Result<
    (Expr, usize),
    usize,
>)
    requires
        pos <= ts@.len(),
        1 <= level <= 6,
    ensures
        r matches Ok((e, next)) ==> pos < next <= ts@.len() && expr_kinds(e) == seg(ts@, pos as int, next as int)
            && expr_wf(e) && expr_level(e) >= level && expr_spans(ts@, pos as int, e),
        target is Some && fits(ts@, pos as int, target->Some_0, level as int) ==> (r matches Ok((e, next))
            && next == pos + expr_kinds(target->Some_0).len() && same_shape(e, target->Some_0)),
    decreases ts@.len() - pos, 20 - level,
{
    let ghost ok = target is Some && fits(ts@, pos as int, target->Some_0, level as int);
    let ghost t = match target { Some(t) => t, None => Expr { kind: ExprKind::Literal(Literal::Null), span: Span { start: 0, end: 0, line: 0, column: 0 } } };
    let ghost sp = spine(t, level as int);
    proof {
        if ok {
            lemma_spine(t, level as int);
            lemma_operand(ts@, pos as int, t, level as int, 0);
        }
    }
    let (first, m) = if level == 6 {
        proof {
            if ok {
                lemma_atom_token(ts@, pos as int, sp[0]);
            }
        }
        parse_unary(ts, pos)?
    } else {
        parse_binary(ts, pos, level + 1, Ghost(if ok { Some(sp[0]) } else { None }))?
    };
    proof {
        if ok && level == 6 {
            lemma_atom_token(ts@, pos as int, sp[0]);
            assert(atom_of(ts@[pos as int].kind, first.kind));
            assert(same_shape(first, sp[0]));
        }
    }
    let mut e = first;
    let mut end = m;
    let ghost mut j: int = 0;
    loop
        invariant
            pos < end <= ts@.len(),
            1 <= level <= 6,
            expr_kinds(e) == seg(ts@, pos as int, end as int),
            expr_wf(e),
            expr_level(e) >= level,
            expr_spans(ts@, pos as int, e),
            ok == (target is Some && fits(ts@, pos as int, target->Some_0, level as int)),
            ok ==> target == Some(t),
            sp == spine(t, level as int),
            ok ==> 0 <= j < sp.len() && end == pos + expr_kinds(sp[j]).len() && same_shape(e, sp[j]),
        ensures
            pos < end <= ts@.len(),
            expr_kinds(e) == seg(ts@, pos as int, end as int),
            expr_wf(e),
            expr_level(e) >= level,
            expr_spans(ts@, pos as int, e),
            ok ==> end == pos + expr_kinds(t).len() && same_shape(e, t),
        decreases ts@.len() - end,
    {
        proof {
            if ok {
                lemma_spine(t, level as int);
                lemma_operand(ts@, pos as int, t, level as int, j);
                if j + 1 < sp.len() {
                    lemma_op_token(spine_op(sp, j + 1));
                }
            }
        }
        let op = match binary_op_at(ts, end, level) {
            Some(op) => op,
            None => {
                proof {
                    if ok && j + 1 < sp.len() {
                        assert(spine_ok(sp, j + 1, level as int));
                        lemma_op_token(spine_op(sp, j + 1));
                        assert(ts@[end as int].kind == TokenKind::Punct(binary_sym(spine_op(sp, j + 1))));
                        assert(sym_level(kind_view(ts@[end as int].kind)) == level);
                    }
                }
                break;
            },
        };
        let ghost nj = j + 1;
        proof {
            if ok {
                assert(nj < sp.len());
                lemma_operand(ts@, pos as int, t, level as int, nj);
                lemma_op_token(spine_op(sp, nj));
                assert(op == spine_op(sp, nj));
                assert(operand_start(sp, pos as int, nj) == end + 1);
            }
        }
        let (right, m2) = if level == 6 {
            proof {
                if ok {
                    lemma_atom_token(ts@, end + 1, spine_operand(sp, nj));
                }
            }
            parse_unary(ts, end + 1)?
        } else {
            parse_binary(ts, end + 1, level + 1, Ghost(if ok { Some(spine_operand(sp, nj)) } else { None }))?
        };
        proof {
            lemma_seg_push(ts@, pos as int, end as int);
            lemma_seg_split(ts@, pos as int, end + 1, m2 as int);
            if ok && level == 6 {
                lemma_atom_token(ts@, end + 1, spine_operand(sp, nj));
                assert(atom_of(ts@[end + 1].kind, right.kind));
                assert(same_shape(right, spine_operand(sp, nj)));
            }
        }
        let span = span_between(ts, pos, m2);
        let ghost prev = e;
        e = Expr { kind: ExprKind::Binary { left: Box::new(e), op, right: Box::new(right) }, span };
        end = m2;
        proof {
            if ok {
                assert(spine_ok(sp, nj, level as int));
                let sk = sp[nj].kind;
                assert(*(sk->left) == sp[j]);
                assert(same_shape(prev, sp[j]));
                assert(same_shape(right, spine_operand(sp, nj)));
                assert(op == spine_op(sp, nj));
                assert(same_shape(e, sp[nj]));
                j = nj;
            }
        }
    }
    Ok((e, end))
}

/// Reads an expression with any number of prefix `-` and `!`.
fn parse_unary(ts: &Vec<Token>, pos: usize) -> (r: Result<(Expr, usize), usize>)
    requires
        pos <= ts@.len(),
    ensures
        r matches Ok((e, next)) ==> pos < next <= ts@.len() && expr_kinds(e) == seg(ts@, pos as int, next as int)
            && expr_wf(e) && expr_level(e) >= 7 && expr_spans(ts@, pos as int, e),
        atom_token(ts@, pos as int) && no_postfix_at(ts@, pos + 1) ==> (r matches Ok((e, next)) && next == pos + 1
            && atom_of(ts@[pos as int].kind, e.kind)),
    decreases ts@.len() - pos, 13int,
{
    let op = if punct_at(ts, pos, Sym::Minus) {
        Some(UnaryOp::Neg)
    } else if punct_at(ts, pos, Sym::Bang) {
        Some(UnaryOp::Not)
    } else {
        None
    };
    match op {
        Some(op) => {
            let (operand, m) = parse_unary(ts, pos + 1)?;
            proof {
                lemma_seg_one(ts@, pos as int);
                lemma_seg_split(ts@, pos as int, pos + 1, m as int);
            }
            let span = span_between(ts, pos, m);
            Ok((Expr { kind: ExprKind::Unary { op, operand: Box::new(operand) }, span }, m))
        },
        None => parse_postfix(ts, pos),
    }
}

/// Reads an expression followed by any number of field accesses, indexes
/// and calls.
fn parse_postfix(ts: &Vec<Token>, pos: usize) -> (r: Result<(Expr, usize), usize>)
    requires
        pos <= ts@.len(),
    ensures
        r matches Ok((e, next)) ==> pos < next <= ts@.len() && expr_kinds(e) == seg(ts@, pos as int, next as int)
            && expr_wf(e) && expr_level(e) >= 8 && expr_spans(ts@, pos as int, e),
        atom_token(ts@, pos as int) && no_postfix_at(ts@, pos + 1) ==> (r matches Ok((e, next)) && next == pos + 1
            && atom_of(ts@[pos as int].kind, e.kind)),
    decreases ts@.len() - pos, 12int,
{
    let ghost lit = atom_token(ts@, pos as int) && no_postfix_at(ts@, pos + 1);
    let (first, m) = parse_primary(ts, pos)?;
    let ghost first_kind = first.kind;
    let mut e = first;
    let mut end = m;
    loop
        invariant
            pos < end <= ts@.len(),
            expr_kinds(e) == seg(ts@, pos as int, end as int),
            expr_wf(e),
            expr_level(e) >= 8,
            expr_spans(ts@, pos as int, e),
            lit == (atom_token(ts@, pos as int) && no_postfix_at(ts@, pos + 1)),
            lit ==> end == pos + 1 && e.kind == first_kind && atom_of(ts@[pos as int].kind, first_kind),
        ensures
            pos < end <= ts@.len(),
            expr_kinds(e) == seg(ts@, pos as int, end as int),
            expr_wf(e),
            expr_level(e) >= 8,
            expr_spans(ts@, pos as int, e),
        decreases ts@.len() - end,
    {
        if punct_at(ts, end, Sym::Dot) {
            match name_at(ts, end + 1) {
                Some(field) => {
                    proof {
                        lemma_seg_push(ts@, pos as int, end as int);
                        lemma_seg_push(ts@, pos as int, end + 1);
                    }
                    let span = span_between(ts, pos, end + 2);
                    e = Expr { kind: ExprKind::Field { object: Box::new(e), field }, span };
                    end = end + 2;
                },
                None => return Err(end + 1),
            }
        } else if punct_at(ts, end, Sym::LBracket) {
            let (index, m2) = parse_binary(ts, end + 1, 1, Ghost(None))?;
            if !punct_at(ts, m2, Sym::RBracket) {
                return Err(m2);
            }
            proof {
                lemma_seg_push(ts@, pos as int, end as int);
                lemma_seg_split(ts@, pos as int, end + 1, m2 as int);
                lemma_seg_push(ts@, pos as int, m2 as int);
            }
            let span = span_between(ts, pos, m2 + 1);
            e = Expr { kind: ExprKind::Index { object: Box::new(e), index: Box::new(index) }, span };
            end = m2 + 1;
        } else if punct_at(ts, end, Sym::LParen) {
            let (args, m2) = parse_expr_list(ts, end + 1, Sym::RParen)?;
            proof {
                lemma_seg_push(ts@, pos as int, end as int);
                lemma_seg_split(ts@, pos as int, end + 1, m2 as int);
                lemma_seg_push(ts@, pos as int, m2 as int);
            }
            let span = span_between(ts, pos, m2 + 1);
            e = Expr { kind: ExprKind::Call { callee: Box::new(e), args }, span };
            end = m2 + 1;
        } else {
            break;
        }
    }
    Ok((e, end))
}

/// Reads expressions separated by commas, up to the `close` token, which
/// it does not consume.
fn parse_expr_list(ts: &Vec<Token>, pos: usize, close: Sym) -> (r: Result<(Vec<Expr>, usize), usize>)
    requires
        pos <= ts@.len(),
    ensures
        r matches Ok((es, next)) ==> pos <= next < ts@.len() && ts@[next as int].kind == TokenKind::Punct(close)
            && exprs_kinds(es@) == seg(ts@, pos as int, next as int) && exprs_wf(es@)
            && exprs_spans(ts@, pos as int, es@),
    decreases ts@.len() - pos, 20int,
{
    if punct_at(ts, pos, close) {
        proof {
            assert(seg(ts@, pos as int, pos as int) =~= Seq::<KindView>::empty());
        }
        return Ok((Vec::new(), pos));
    }
    let (first, m) = parse_binary(ts, pos, 1, Ghost(None))?;
    let mut es: Vec<Expr> = Vec::new();
    es.push(first);
    let mut end = m;
    proof {
        assert(es@.subrange(0, 0) =~= Seq::<Expr>::empty());
        assert(exprs_wf(Seq::<Expr>::empty()));
    }
    while punct_at(ts, end, Sym::Comma)
        invariant
            pos < end <= ts@.len(),
            es@.len() >= 1,
            exprs_kinds(es@) == seg(ts@, pos as int, end as int),
            exprs_wf(es@),
            exprs_spans(ts@, pos as int, es@),
        decreases ts@.len() - end,
    {
        let (e, m2) = parse_binary(ts, end + 1, 1, Ghost(None))?;
        proof {
            lemma_seg_push(ts@, pos as int, end as int);
            lemma_seg_split(ts@, pos as int, end + 1, m2 as int);
        }
        let ghost before = es@;
        es.push(e);
        proof {
            assert(es@.subrange(0, es@.len() - 1) =~= before);
        }
        end = m2;
    }
    if punct_at(ts, end, close) {
        Ok((es, end))
    } else {
        Err(end)
    }
}

/// Reads `name: value` in a struct literal.
fn parse_struct_field(ts: &Vec<Token>, pos: usize) -> (r: Result<(StructField, usize), usize>)
    requires
        pos <= ts@.len(),
    ensures
        r matches Ok((f, next)) ==> pos < next <= ts@.len()
            && struct_field_kinds(f) == seg(ts@, pos as int, next as int) && expr_wf(f.value)
            && struct_field_spans(ts@, pos as int, f),
    decreases ts@.len() - pos, 16int,
{
    let name = match name_at(ts, pos) {
        Some(n) => n,
        None => return Err(pos),
    };
    if !punct_at(ts, pos + 1, Sym::Colon) {
        return Err(pos + 1);
    }
    let (value, m) = parse_binary(ts, pos + 2, 1, Ghost(None))?;
    proof {
        lemma_seg_one(ts@, pos as int);
        lemma_seg_push(ts@, pos as int, pos + 1);
        lemma_seg_split(ts@, pos as int, pos + 2, m as int);
    }
    Ok((StructField { name, value }, m))
}

/// Reads the fields of a struct literal up to its `}`, which it does not
/// consume.
fn parse_struct_fields(ts: &Vec<Token>, pos: usize) -> (r: Result<(Vec<StructField>, usize), usize>)
    requires
        pos <= ts@.len(),
    ensures
        r matches Ok((fs, next)) ==> pos <= next < ts@.len() && ts@[next as int].kind == TokenKind::Punct(Sym::RBrace)
            && struct_fields_kinds(fs@) == seg(ts@, pos as int, next as int) && struct_fields_wf(fs@)
            && struct_fields_spans(ts@, pos as int, fs@),
    decreases ts@.len() - pos, 17int,
{
    if punct_at(ts, pos, Sym::RBrace) {
        proof {
            assert(seg(ts@, pos as int, pos as int) =~= Seq::<KindView>::empty());
        }
        return Ok((Vec::new(), pos));
    }
    let (first, m) = parse_struct_field(ts, pos)?;
    let mut fs: Vec<StructField> = Vec::new();
    fs.push(first);
    let mut end = m;
    proof {
        assert(fs@.subrange(0, 0) =~= Seq::<StructField>::empty());
        assert(struct_fields_wf(Seq::<StructField>::empty()));
    }
    while punct_at(ts, end, Sym::Comma)
        invariant
            pos < end <= ts@.len(),
            fs@.len() >= 1,
            struct_fields_kinds(fs@) == seg(ts@, pos as int, end as int),
            struct_fields_wf(fs@),
            struct_fields_spans(ts@, pos as int, fs@),
        decreases ts@.len() - end,
    {
        let (f, m2) = parse_struct_field(ts, end + 1)?;
        proof {
            lemma_seg_push(ts@, pos as int, end as int);
            lemma_seg_split(ts@, pos as int, end + 1, m2 as int);
        }
        let ghost before = fs@;
        fs.push(f);
        proof {
            assert(fs@.subrange(0, fs@.len() - 1) =~= before);
        }
        end = m2;
    }
    if punct_at(ts, end, Sym::RBrace) {
        Ok((fs, end))
    } else {
        Err(end)
    }
}

/// Reads a literal, a variable, a parenthesized expression, a list, a
/// struct literal, an enum variant or an `if` expression.
fn parse_primary(ts: &Vec<Token>, pos: usize) -> (r: Result<(Expr, usize), usize>)
    requires
        pos <= ts@.len(),
    ensures
        r matches Ok((e, next)) ==> pos < next <= ts@.len() && expr_kinds(e) == seg(ts@, pos as int, next as int)
            && expr_wf(e) && expr_level(e) == 9 && expr_spans(ts@, pos as int, e),
        atom_token(ts@, pos as int) && no_postfix_at(ts@, pos + 1) ==> (r matches Ok((e, next)) && next == pos + 1
            && atom_of(ts@[pos as int].kind, e.kind)),
    decreases ts@.len() - pos, 11int,
{
    if pos >= ts.len() {
        return Err(pos);
    }
    proof {
        lemma_seg_one(ts@, pos as int);
    }
    let here = ts[pos].span;
    match &ts[pos].kind {
        TokenKind::Int(v) => Ok((Expr { kind: ExprKind::Literal(Literal::Int(*v)), span: here }, pos + 1)),
        TokenKind::Float(f) => Ok((Expr { kind: ExprKind::Literal(Literal::Float(f.clone())), span: here }, pos + 1)),
        TokenKind::Str(s) => Ok((Expr { kind: ExprKind::Literal(Literal::String(s.clone())), span: here }, pos + 1)),
        TokenKind::FStr(_) => Err(pos),
        TokenKind::Punct(Sym::LParen) => {
            let (inner, m) = parse_binary(ts, pos + 1, 1, Ghost(None))?;
            if !punct_at(ts, m, Sym::RParen) {
                return Err(m);
            }
            proof {
                lemma_seg_split(ts@, pos as int, pos + 1, m as int);
                lemma_seg_push(ts@, pos as int, m as int);
            }
            let span = span_between(ts, pos, m + 1);
            Ok((Expr { kind: ExprKind::Grouped(Box::new(inner)), span }, m + 1))
        },
        TokenKind::Punct(Sym::LBracket) => {
            let (items, m) = parse_expr_list(ts, pos + 1, Sym::RBracket)?;
            proof {
                lemma_seg_split(ts@, pos as int, pos + 1, m as int);
                lemma_seg_push(ts@, pos as int, m as int);
            }
            let span = span_between(ts, pos, m + 1);
            Ok((Expr { kind: ExprKind::List(items), span }, m + 1))
        },
        TokenKind::Punct(_) => Err(pos),
        TokenKind::Word(x) => {
            if str_eq(x.as_str(), "true") {
                Ok((Expr { kind: ExprKind::Literal(Literal::Bool(true)), span: here }, pos + 1))
            } else if str_eq(x.as_str(), "false") {
                Ok((Expr { kind: ExprKind::Literal(Literal::Bool(false)), span: here }, pos + 1))
            } else if str_eq(x.as_str(), "null") {
                Ok((Expr { kind: ExprKind::Literal(Literal::Null), span: here }, pos + 1))
            } else if str_eq(x.as_str(), "if") {
                let (s, m) = parse_if(ts, pos)?;
                Ok((if_stmt_to_expr(s, Ghost(ts@), Ghost(pos as int)), m))
            } else if is_reserved(x.as_str()) {
                Err(pos)
            } else if punct_at(ts, pos + 1, Sym::ColonColon) {
                match name_at(ts, pos + 2) {
                    Some(variant) => {
                        proof {
                            lemma_seg_push(ts@, pos as int, pos + 1);
                            lemma_seg_push(ts@, pos as int, pos + 2);
                        }
                        let span = span_between(ts, pos, pos + 3);
                        Ok((Expr { kind: ExprKind::EnumVariant { enum_name: x.clone(), variant }, span }, pos + 3))
                    },
                    None => Err(pos + 2),
                }
            } else if starts_upper(x.as_str()) && punct_at(ts, pos + 1, Sym::LBrace) && (punct_at(ts, pos + 2, Sym::RBrace)
                || (name_at(ts, pos + 2).is_some() && punct_at(ts, pos + 3, Sym::Colon))) {
                let (fields, m) = parse_struct_fields(ts, pos + 2)?;
                proof {
                    lemma_seg_push(ts@, pos as int, pos + 1);
                    lemma_seg_split(ts@, pos as int, pos + 2, m as int);
                    lemma_seg_push(ts@, pos as int, m as int);
                }
                let span = span_between(ts, pos, m + 1);
                Ok((Expr { kind: ExprKind::Struct { name: x.clone(), fields }, span }, m + 1))
            } else {
                Ok((Expr { kind: ExprKind::Var(x.clone()), span: here }, pos + 1))
            }
        },
    }
}

/// Reads an `if` statement at the `if` at `pos`, with its `else` and
/// `else if` branches.
fn parse_if(ts: &Vec<Token>, pos: usize) -> (r: Result<(Stmt, usize), usize>)
    requires
        pos < ts@.len(),
        is_word(ts@[pos as int].kind, "if"@),
        ts@.len() <= usize::MAX,
    ensures
        r matches Ok((s, next)) ==> pos < next <= ts@.len() && stmt_kinds(s) == seg(ts@, pos as int, next as int)
            && stmt_wf(s) && if_chain(s) && stmt_spans(ts@, pos as int, s),
    decreases ts@.len() - pos, 10int,
{
    let (condition, m1) = parse_binary(ts, pos + 1, 1, Ghost(None))?;
    let (then_branch, m2) = parse_block(ts, m1)?;
    proof {
        lemma_seg_one(ts@, pos as int);
        lemma_seg_split(ts@, pos as int, pos + 1, m1 as int);
        lemma_seg_split(ts@, pos as int, m1 as int, m2 as int);
    }
    if word_at(ts, m2, "else") {
        if word_at(ts, m2 + 1, "if") {
            let (inner, m3) = parse_if(ts, m2 + 1)?;
            proof {
                lemma_seg_push(ts@, pos as int, m2 as int);
                lemma_seg_split(ts@, pos as int, m2 + 1, m3 as int);
            }
            let span = span_between(ts, pos, m3);
            let kind = StmtKind::If {
                condition,
                then_branch,
                else_branch: Some(ElseClause::ElseIf(Box::new(inner))),
            };
            Ok((Stmt { kind, span }, m3))
        } else {
            let (b, m3) = parse_block(ts, m2 + 1)?;
            proof {
                lemma_seg_push(ts@, pos as int, m2 as int);
                lemma_seg_split(ts@, pos as int, m2 + 1, m3 as int);
            }
            let span = span_between(ts, pos, m3);
            let kind = StmtKind::If { condition, then_branch, else_branch: Some(ElseClause::Else(b)) };
            Ok((Stmt { kind, span }, m3))
        }
    } else {
        let span = span_between(ts, pos, m2);
        let kind = StmtKind::If { condition, then_branch, else_branch: None };
        let s = Stmt { kind, span };
        proof {
            assert(stmt_kinds(s) =~= seg(ts@, pos as int, m2 as int));
        }
        Ok((s, m2))
    }
}

/// Reads a block `{ ... }`: statements, and the expression or `if` that
/// ends it as its value.
fn parse_block(ts: &Vec<Token>, pos: usize) -> (r: Result<(Block, usize), usize>)
    requires
        pos <= ts@.len(),
    ensures
        r matches Ok((b, next)) ==> pos < next <= ts@.len() && block_kinds(b) == seg(ts@, pos as int, next as int)
            && block_wf(b) && block_spans(ts@, pos as int, b),
        forall|e: Expr| #[trigger] arith_block(ts@, pos as int, e)
            ==> (r matches Ok((b, next)) && next == pos + 2 + expr_kinds(e).len()),
    decreases ts@.len() - pos, 9int,
{
    let ghost body = exists|e: Expr| arith_block(ts@, pos as int, e);
    let ghost t = choose|e: Expr| arith_block(ts@, pos as int, e);
    proof {
        if body {
            lemma_arith_body(ts@, pos + 1, t);
        }
    }
    if !punct_at(ts, pos, Sym::LBrace) {
        return Err(pos);
    }
    let mut stmts: Vec<Stmt> = Vec::new();
    let mut end = pos + 1;
    proof {
        lemma_seg_one(ts@, pos as int);
        assert(p(Sym::LBrace) + stmts_kinds(stmts@) =~= p(Sym::LBrace));
    }
    loop
        invariant
            pos < end <= ts@.len(),
            seg(ts@, pos as int, end as int) == p(Sym::LBrace) + stmts_kinds(stmts@),
            stmts_wf(stmts@),
            stmts_spans(ts@, pos + 1, stmts@),
            body == exists|e: Expr| arith_block(ts@, pos as int, e),
            body ==> arith_block(ts@, pos as int, t) && end == pos + 1 && atom_token(ts@, pos + 1),
        decreases ts@.len() - end,
    {
        if punct_at(ts, end, Sym::RBrace) {
            proof {
                lemma_seg_push(ts@, pos as int, end as int);
            }
            let span = span_between(ts, pos, end + 1);
            let b = Block { stmts, expr: None, span };
            proof {
                assert(block_kinds(b) =~= seg(ts@, pos as int, end + 1));
            }
            return Ok((b, end + 1));
        }
        let (s, m) = parse_statement(ts, end)?;
        proof {
            lemma_seg_split(ts@, pos as int, end as int, m as int);
        }
        if punct_at(ts, m, Sym::RBrace) {
            proof {
                lemma_seg_push(ts@, pos as int, m as int);
            }
            let span = span_between(ts, pos, m + 1);
            let sspan = s.span;
            let ghost gs = s;
            match s.kind {
                StmtKind::Expr { expr } => {
                    let b = Block { stmts, expr: Some(Box::new(expr)), span };
                    proof {
                        assert forall|e: Expr| #[trigger] arith_block(ts@, pos as int, e)
                            implies m + 1 == pos + 2 + expr_kinds(e).len() by {
                            lemma_same_end(ts@, pos + 1, e, t);
                        }
                    }
                    return Ok((b, m + 1));
                },
                StmtKind::If { condition, then_branch, else_branch } => {
                    let st = Stmt { kind: StmtKind::If { condition, then_branch, else_branch }, span: sspan };
                    proof {
                        assert(st == gs);
                    }
                    let e = if_stmt_to_expr(st, Ghost(ts@), Ghost(end as int));
                    let b = Block { stmts, expr: Some(Box::new(e)), span };
                    return Ok((b, m + 1));
                },
                k => {
                    let st = Stmt { kind: k, span: sspan };
                    proof {
                        assert(st == gs);
                    }
                    let ghost before = stmts@;
                    stmts.push(st);
                    proof {
                        assert(stmts@.subrange(0, stmts@.len() - 1) =~= before);
                    }
                    let b = Block { stmts, expr: None, span };
                    proof {
                        assert(block_kinds(b) =~= seg(ts@, pos as int, m + 1));
                    }
                    return Ok((b, m + 1));
                },
            }
        }
        let ghost before = stmts@;
        stmts.push(s);
        proof {
            assert(stmts@.subrange(0, stmts@.len() - 1) =~= before);
        }
        end = m;
    }
}

/// Reads `let name (: Type)? = value` at the `let` at `pos`.
fn parse_let(ts: &Vec<Token>, pos: usize) -> (r: Result<(Stmt, usize), usize>)
    requires
        pos < ts@.len(),
        is_word(ts@[pos as int].kind, "let"@),
        ts@.len() <= usize::MAX,
    ensures
        r matches Ok((s, next)) ==> pos < next <= ts@.len() && stmt_kinds(s) == seg(ts@, pos as int, next as int)
            && stmt_wf(s) && s.kind is Let && stmt_spans(ts@, pos as int, s),
    decreases ts@.len() - pos, 15int,
{
    let name = match name_at(ts, pos + 1) {
        Some(n) => n,
        None => return Err(pos + 1),
    };
    proof {
        lemma_seg_one(ts@, pos as int);
        lemma_seg_push(ts@, pos as int, pos + 1);
    }
    let name = spanned_name(ts, pos + 1, name);
    let (ty, eq_at) = if punct_at(ts, pos + 2, Sym::Colon) {
        let (t, m) = parse_annotation(ts, pos + 3)?;
        proof {
            lemma_seg_push(ts@, pos as int, pos + 2);
            lemma_seg_split(ts@, pos as int, pos + 3, m as int);
        }
        (Some(t), m)
    } else {
        proof {
            assert(seg(ts@, pos as int, pos + 2) =~= seg(ts@, pos as int, pos + 2) + Seq::<KindView>::empty());
        }
        (None, pos + 2)
    };
    assert(seg(ts@, pos as int, eq_at as int) == w("let"@) + w(name.node@) + (match ty {
        None => Seq::empty(),
        Some(t) => p(Sym::Colon) + annotation_kinds(t),
    }));
    if !punct_at(ts, eq_at, Sym::Assign) {
        return Err(eq_at);
    }
    let (value, m) = parse_binary(ts, eq_at + 1, 1, Ghost(None))?;
    proof {
        lemma_seg_push(ts@, pos as int, eq_at as int);
        lemma_seg_split(ts@, pos as int, eq_at + 1, m as int);
    }
    let span = span_between(ts, pos, m);
    Ok((Stmt { kind: StmtKind::Let { name, ty, value }, span }, m))
}

/// Reads the place an assignment writes: a name followed by field
/// accesses and indexes.
#[verifier::rlimit(30)]
fn parse_target(ts: &Vec<Token>, pos: usize) -> (r: Result<(AssignTarget, usize), usize>)
    requires
        pos <= ts@.len(),
    ensures
        r matches Ok((t, next)) ==> pos < next <= ts@.len() && target_kinds(t) == seg(ts@, pos as int, next as int)
            && accessors_wf(t.accessors@) && target_spans(ts@, pos as int, t),
        no_postfix_at(ts@, pos + 1) ==> (r matches Ok((t, next)) ==> next == pos + 1),
    decreases ts@.len() - pos, 16int,
{
    let base = match name_at(ts, pos) {
        Some(b) => b,
        None => return Err(pos),
    };
    let base = spanned_name(ts, pos, base);
    let mut accessors: Vec<Accessor> = Vec::new();
    let mut end = pos + 1;
    proof {
        lemma_seg_one(ts@, pos as int);
        assert(w(base.node@) + accessors_kinds(accessors@) =~= w(base.node@));
    }
    loop
        invariant
            pos < end <= ts@.len(),
            seg(ts@, pos as int, end as int) == w(base.node@) + accessors_kinds(accessors@),
            accessors_wf(accessors@),
            accessors_spans(ts@, pos + 1, accessors@),
            no_postfix_at(ts@, pos + 1) ==> end == pos + 1,
        ensures
            pos < end <= ts@.len(),
            seg(ts@, pos as int, end as int) == w(base.node@) + accessors_kinds(accessors@),
            accessors_wf(accessors@),
            accessors_spans(ts@, pos + 1, accessors@),
            no_postfix_at(ts@, pos + 1) ==> end == pos + 1,
        decreases ts@.len() - end,
    {
        if punct_at(ts, end, Sym::Dot) {
            match name_at(ts, end + 1) {
                Some(f) => {
                    proof {
                        lemma_seg_push(ts@, pos as int, end as int);
                        lemma_seg_push(ts@, pos as int, end + 1);
                    }
                    let ghost before = accessors@;
                    accessors.push(Accessor::Field(f));
                    proof {
                        assert(accessors@.subrange(0, accessors@.len() - 1) =~= before);
                        assert(accessors_kinds(accessors@) == accessors_kinds(before)
                            + accessor_kinds(accessors@[accessors@.len() - 1]));
                        assert(seg(ts@, pos as int, end + 2) =~= w(base.node@) + accessors_kinds(accessors@));
                        assert(accessor_spans(ts@, end as int, accessors@[accessors@.len() - 1]));
                        assert(accessors_spans(ts@, pos + 1, accessors@));
                    }
                    end = end + 2;
                },
                None => return Err(end + 1),
            }
        } else if punct_at(ts, end, Sym::LBracket) {
            let (index, m) = parse_binary(ts, end + 1, 1, Ghost(None))?;
            if !punct_at(ts, m, Sym::RBracket) {
                return Err(m);
            }
            proof {
                lemma_seg_push(ts@, pos as int, end as int);
                lemma_seg_split(ts@, pos as int, end + 1, m as int);
                lemma_seg_push(ts@, pos as int, m as int);
            }
            let ghost before = accessors@;
            accessors.push(Accessor::Index(index));
            proof {
                assert(accessors@.subrange(0, accessors@.len() - 1) =~= before);
                assert(accessors_kinds(accessors@) == accessors_kinds(before)
                    + accessor_kinds(accessors@[accessors@.len() - 1]));
                assert(seg(ts@, pos as int, m + 1) =~= w(base.node@) + accessors_kinds(accessors@));
                assert(seg(ts@, pos as int, end as int).len() == end - pos);
                assert(accessor_spans(ts@, end as int, accessors@[accessors@.len() - 1]));
                assert(accessors_spans(ts@, pos + 1, accessors@));
            }
            end = m + 1;
        } else {
            break;
        }
    }
    let span = span_between(ts, pos, end);
    Ok((AssignTarget { base, accessors, span }, end))
}

/// Reads a statement.
fn parse_statement(ts: &Vec<Token>, pos: usize) -> (r: Result<(Stmt, usize), usize>)
    requires
        pos <= ts@.len(),
    ensures
        r matches Ok((s, next)) ==> pos < next <= ts@.len() && stmt_kinds(s) == seg(ts@, pos as int, next as int)
            && stmt_wf(s) && (s.kind is If ==> if_chain(s)) && stmt_spans(ts@, pos as int, s),
        forall|e: Expr| fits(ts@, pos as int, e, 1) && closes_at(ts@, pos + expr_kinds(e).len())
            ==> (r matches Ok((s, next)) && next == pos + expr_kinds(e).len() && s.kind is Expr),
    decreases ts@.len() - pos, 21int,
{
    let ghost body = exists|e: Expr| fits(ts@, pos as int, e, 1) && closes_at(ts@, pos + expr_kinds(e).len());
    let ghost t = choose|e: Expr| fits(ts@, pos as int, e, 1) && closes_at(ts@, pos + expr_kinds(e).len());
    proof {
        if body {
            lemma_arith_body(ts@, pos as int, t);
            reveal_strlit("let");
            reveal_strlit("if");
            reveal_strlit("while");
            reveal_strlit("for");
            reveal_strlit("return");
        }
    }
    if word_at(ts, pos, "let") {
        return parse_let(ts, pos);
    }
    if word_at(ts, pos, "if") {
        return parse_if(ts, pos);
    }
    if word_at(ts, pos, "while") {
        let (condition, m1) = parse_binary(ts, pos + 1, 1, Ghost(None))?;
        let (body, m2) = parse_block(ts, m1)?;
        proof {
            lemma_seg_one(ts@, pos as int);
            lemma_seg_split(ts@, pos as int, pos + 1, m1 as int);
            lemma_seg_split(ts@, pos as int, m1 as int, m2 as int);
        }
        let span = span_between(ts, pos, m2);
        return Ok((Stmt { kind: StmtKind::While { condition, body }, span }, m2));
    }
    if word_at(ts, pos, "for") {
        let var = match name_at(ts, pos + 1) {
            Some(v) => v,
            None => return Err(pos + 1),
        };
        if !word_at(ts, pos + 2, "in") {
            return Err(pos + 2);
        }
        let var = spanned_name(ts, pos + 1, var);
        let (iterable, m1) = parse_binary(ts, pos + 3, 1, Ghost(None))?;
        let (body, m2) = parse_block(ts, m1)?;
        proof {
            lemma_seg_one(ts@, pos as int);
            lemma_seg_push(ts@, pos as int, pos + 1);
            lemma_seg_push(ts@, pos as int, pos + 2);
            lemma_seg_split(ts@, pos as int, pos + 3, m1 as int);
            lemma_seg_split(ts@, pos as int, m1 as int, m2 as int);
        }
        let span = span_between(ts, pos, m2);
        return Ok((Stmt { kind: StmtKind::For { var, iterable, body }, span }, m2));
    }
    if word_at(ts, pos, "return") {
        proof {
            lemma_seg_one(ts@, pos as int);
        }
        if value_follows(ts, pos + 1) {
            let (v, m) = parse_binary(ts, pos + 1, 1, Ghost(None))?;
            proof {
                lemma_seg_split(ts@, pos as int, pos + 1, m as int);
            }
            let span = span_between(ts, pos, m);
            return Ok((Stmt { kind: StmtKind::Return { value: Some(v) }, span }, m));
        } else {
            let s = Stmt { kind: StmtKind::Return { value: None }, span: ts[pos].span };
            proof {
                assert(stmt_kinds(s) =~= seg(ts@, pos as int, pos + 1));
            }
            return Ok((s, pos + 1));
        }
    }
    match parse_target(ts, pos) {
        Ok((target, m)) => {
            if punct_at(ts, m, Sym::Assign) {
                let (value, m2) = parse_binary(ts, m + 1, 1, Ghost(None))?;
                proof {
                    lemma_seg_push(ts@, pos as int, m as int);
                    lemma_seg_split(ts@, pos as int, m + 1, m2 as int);
                }
                let span = span_between(ts, pos, m2);
                return Ok((Stmt { kind: StmtKind::Assign { target, value }, span }, m2));
            }
        },
        Err(_) => {},
    }
    let (expr, m) = parse_binary(ts, pos, 1, Ghost(if body { Some(t) } else { None }))?;
    let span = span_between(ts, pos, m);
    proof {
        assert forall|e: Expr| fits(ts@, pos as int, e, 1) && closes_at(ts@, pos + expr_kinds(e).len())
            implies m == pos + expr_kinds(e).len() by {
            lemma_same_end(ts@, pos as int, e, t);
        }
    }
    Ok((Stmt { kind: StmtKind::Expr { expr }, span }, m))
}

/// The first token of an arithmetic expression is an integer or a
/// variable.
proof fn lemma_arith_first(e: Expr)
    requires
        arith(e),
        expr_wf(e),
    ensures
        expr_kinds(e).len() >= 1,
        expr_kinds(e)[0] is Int || (expr_kinds(e)[0] is Word && lower_name(expr_kinds(e)[0]->Word_0)),
    decreases e,
{
    lemma_arith_ops(e);
    match e.kind {
        ExprKind::Binary { left, op, right } => {
            lemma_arith_first(*left);
            assert(expr_kinds(e) == expr_kinds(*left) + p(binary_sym(op)) + expr_kinds(*right));
            assert(expr_kinds(e)[0] == expr_kinds(*left)[0]);
        },
        ExprKind::Literal(Literal::Int(v)) => {
            assert(expr_kinds(e) =~= seq![KindView::Int(v)]);
        },
        ExprKind::Var(x) => {
            assert(expr_kinds(e) =~= seq![KindView::Word(x@)]);
        },
        _ => {},
    }
}

/// An arithmetic expression holds no token with no binding level, such as
/// `}` or `=`.
proof fn lemma_arith_levels(e: Expr, i: int)
    requires
        arith(e),
        expr_wf(e),
        0 <= i < expr_kinds(e).len(),
    ensures
        expr_kinds(e)[i] is Punct ==> sym_level(expr_kinds(e)[i]) >= 1,
{
    lemma_arith_ops(e);
    assert(expr_level(e) >= 1);
}

/// The body of a definition, an arithmetic expression closed by a `}`:
/// its first token is an operand, and what follows that token neither
/// extends it nor assigns to it.
proof fn lemma_arith_body(ts: Seq<Token>, pos: int, t: Expr)
    requires
        fits(ts, pos, t, 1),
        closes_at(ts, pos + expr_kinds(t).len()),
    ensures
        atom_token(ts, pos),
        no_postfix_at(ts, pos + 1),
        pos + 1 < ts.len(),
        ts[pos + 1].kind != TokenKind::Punct(Sym::Assign),
{
    lemma_arith_first(t);
    let k = expr_kinds(t);
    let end = pos + k.len();
    assert(seg(ts, pos, end)[0] == kind_view(ts[pos].kind));
    if k.len() > 1 {
        assert(seg(ts, pos, end)[1] == kind_view(ts[pos + 1].kind));
        lemma_arith_levels(t, 1);
    }
}

/// Two arithmetic expressions closed by a `}` from the same token on have
/// the same length: neither holds a `}`.
proof fn lemma_same_end(ts: Seq<Token>, pos: int, e: Expr, t: Expr)
    requires
        fits(ts, pos, e, 1),
        closes_at(ts, pos + expr_kinds(e).len()),
        fits(ts, pos, t, 1),
        closes_at(ts, pos + expr_kinds(t).len()),
    ensures
        expr_kinds(e).len() == expr_kinds(t).len(),
{
    let le = expr_kinds(e).len() as int;
    let lt = expr_kinds(t).len() as int;
    if lt < le {
        assert(seg(ts, pos, pos + le)[lt] == kind_view(ts[pos + lt].kind));
        lemma_arith_levels(e, lt);
    } else if le < lt {
        assert(seg(ts, pos, pos + lt)[le] == kind_view(ts[pos + le].kind));
        lemma_arith_levels(t, le);
    }
}

// ---------------------------------------------------------------------------
// Definitions and programs
// ---------------------------------------------------------------------------

/// The string literal at `pos`, if any.
fn str_at(ts: &Vec<Token>, pos: usize) -> (r: Option<String>)
    ensures
        r matches Some(d) ==> pos < ts@.len() && kind_view(ts@[pos as int].kind) == KindView::Str(d@),
        pos < ts@.len() && !(ts@[pos as int].kind is Str) ==> r is None,
{
    if pos < ts.len() {
        match &ts[pos].kind {
            TokenKind::Str(d) => Some(d.clone()),
            _ => None,
        }
    } else {
        None
    }
}

/// Reads `name: Type` with an optional description string after it.
fn parse_field_def(ts: &Vec<Token>, pos: usize) -> (r: Result<(FieldDef, usize), usize>)
    requires
        pos <= ts@.len(),
    ensures
        r matches Ok((f, next)) ==> pos < next <= ts@.len() && field_def_kinds(f) == seg(ts@, pos as int, next as int)
            && field_def_spans(ts@, pos as int, f),
        pos + 3 < ts@.len() && plain_name(kind_view(ts@[pos as int].kind))
            && ts@[pos + 1].kind == TokenKind::Punct(Sym::Colon) && plain_name(kind_view(ts@[pos + 2].kind))
            && ends_field(ts@, pos + 3) ==> (r matches Ok((f, next)) && next == pos + 3),
{
    let name = match name_at(ts, pos) {
        Some(n) => n,
        None => return Err(pos),
    };
    if !punct_at(ts, pos + 1, Sym::Colon) {
        return Err(pos + 1);
    }
    let name = spanned_name(ts, pos, name);
    let (ty, m) = parse_annotation(ts, pos + 2)?;
    proof {
        lemma_seg_one(ts@, pos as int);
        lemma_seg_push(ts@, pos as int, pos + 1);
        lemma_seg_split(ts@, pos as int, pos + 2, m as int);
    }
    match str_at(ts, m) {
        Some(d) => {
            proof {
                lemma_seg_push(ts@, pos as int, m as int);
            }
            let span = span_between(ts, pos, m + 1);
            Ok((FieldDef { name, ty, description: Some(d), span }, m + 1))
        },
        None => {
            let span = span_between(ts, pos, m);
            let f = FieldDef { name, ty, description: None, span };
            proof {
                assert(field_def_kinds(f) =~= seg(ts@, pos as int, m as int));
            }
            Ok((f, m))
        },
    }
}

/// Reads `type Name { field, ... }` at the `type` at `pos`.
#[verifier::rlimit(100)]
#[verifier::spinoff_prover]
fn parse_type_def(ts: &Vec<Token>, pos: usize, Ghost(shape): Ghost<Option<int>>) -> (r: Result<(TypeDef, usize), usize>)
    requires
        pos < ts@.len(),
        is_word(ts@[pos as int].kind, "type"@),
        ts@.len() <= usize::MAX,
    ensures
        r matches Ok((t, next)) ==> pos < next <= ts@.len()
            && item_kinds(Item::TypeDef(t)) == seg(ts@, pos as int, next as int)
            && item_spans(ts@, pos as int, Item::TypeDef(t)),
        shape is Some && type_shape(seg(ts@, pos as int, ts@.len() as int), shape->Some_0)
            ==> (r matches Ok((t, next)) && next == ts@.len()),
{
    let ghost ok = shape is Some && type_shape(seg(ts@, pos as int, ts@.len() as int), shape->Some_0);
    let ghost n = shape->Some_0;
    let ghost k = seg(ts@, pos as int, ts@.len() as int);
    proof {
        assert forall|i: int| 0 <= i < k.len() implies #[trigger] k[i] == kind_view(ts@[pos + i].kind) by {}
        if ok && n >= 1 {
            assert(type_field_at(k, 0));
            if n > 1 {
                assert(type_comma_at(k, 0));
            }
            assert(k.len() == ts@.len() - pos);
            assert(kind_view(ts@[pos + 3].kind) == k[3]);
            assert(kind_view(ts@[pos + 5].kind) == k[5]);
            assert(kind_view(ts@[pos + 6].kind) == k[6]);
            assert(kind_view(ts@[pos + 4].kind) == k[4]);
        }
    }
    let name = match name_at(ts, pos + 1) {
        Some(n) => n,
        None => return Err(pos + 1),
    };
    if !punct_at(ts, pos + 2, Sym::LBrace) {
        return Err(pos + 2);
    }
    let name = spanned_name(ts, pos + 1, name);
    let mut fields: Vec<FieldDef> = Vec::new();
    let mut end = pos + 3;
    if !punct_at(ts, end, Sym::RBrace) {
        let (f, m) = parse_field_def(ts, end)?;
        fields.push(f);
        end = m;
        proof {
            assert(field_defs_kinds(fields@) == seg(ts@, pos + 3, end as int));
        }
        while punct_at(ts, end, Sym::Comma)
            invariant
                pos + 3 < end <= ts@.len(),
                fields@.len() >= 1,
                field_defs_kinds(fields@) == seg(ts@, pos + 3, end as int),
                field_defs_spans(ts@, pos + 3, fields@),
                k == seg(ts@, pos as int, ts@.len() as int),
                forall|i: int| 0 <= i < k.len() ==> #[trigger] k[i] == kind_view(ts@[pos + i].kind),
                ok == (shape is Some && type_shape(k, n)),
                n == shape->Some_0,
                ok ==> fields@.len() <= n && end == pos + 2 + 4 * fields@.len(),
            decreases ts@.len() - end,
        {
            proof {
                if ok {
                    let c: int = fields@.len() as int;
                    assert(c < n) by {
                        if c == n {
                            assert(k[2 + 4 * n] == KindView::Punct(Sym::RBrace));
                        }
                    }
                    assert(type_field_at(k, c));
                    if c + 1 < n {
                        assert(type_comma_at(k, c));
                    }
                    assert(k.len() == ts@.len() - pos);
                    assert(kind_view(ts@[end + 1].kind) == k[3 + 4 * c]);
                    assert(kind_view(ts@[end + 2].kind) == k[4 + 4 * c]);
                    assert(kind_view(ts@[end + 3].kind) == k[5 + 4 * c]);
                    assert(kind_view(ts@[end + 4].kind) == k[6 + 4 * c]);
                }
            }
            let (f, m) = parse_field_def(ts, end + 1)?;
            proof {
                lemma_seg_push(ts@, pos + 3, end as int);
                lemma_seg_split(ts@, pos + 3, end + 1, m as int);
            }
            let ghost before = fields@;
            fields.push(f);
            proof {
                assert(fields@.subrange(0, fields@.len() - 1) =~= before);
            }
            end = m;
        }
        proof {
            if ok && fields@.len() < n {
                assert(type_comma_at(k, fields@.len() - 1));
            }
        }
    } else {
        proof {
            assert(seg(ts@, pos + 3, end as int) =~= Seq::<KindView>::empty());
        }
    }
    if !punct_at(ts, end, Sym::RBrace) {
        return Err(end);
    }
    proof {
        lemma_seg_one(ts@, pos as int);
        lemma_seg_push(ts@, pos as int, pos + 1);
        lemma_seg_push(ts@, pos as int, pos + 2);
        lemma_seg_split(ts@, pos as int, pos + 3, end as int);
        lemma_seg_push(ts@, pos as int, end as int);
    }
    let span = span_between(ts, pos, end + 1);
    Ok((TypeDef { name, fields, span }, end + 1))
}

/// A word that is not reserved.
pub open spec fn plain_name(k: KindView) -> bool {
    k matches KindView::Word(x) && !reserved(x)
}

/// Variant `i` of an enum written in `k` is a plain name.
pub open spec fn enum_variant_at(k: Seq<KindView>, i: int) -> bool {
    plain_name(k[3 + 2 * i])
}

/// A comma follows variant `i` of an enum written in `k`.
pub open spec fn enum_comma_at(k: Seq<KindView>, i: int) -> bool {
    k[4 + 2 * i] == KindView::Punct(Sym::Comma)
}

/// `k` is exactly `enum Name { V1, ..., Vn }`, with names that are not
/// reserved words.
pub open spec fn enum_shape(k: Seq<KindView>, n: int) -> bool {
    &&& n >= 0
    &&& k.len() == (if n == 0 { 4 } else { 3 + 2 * n })
    &&& k[0] == KindView::Word("enum"@)
    &&& plain_name(k[1])
    &&& k[2] == KindView::Punct(Sym::LBrace)
    &&& forall|i: int| 0 <= i < n ==> #[trigger] enum_variant_at(k, i)
    &&& forall|i: int| 0 <= i < n - 1 ==> #[trigger] enum_comma_at(k, i)
    &&& k[k.len() - 1] == KindView::Punct(Sym::RBrace)
}

/// Reads `enum Name { Variant, ... }` at the `enum` at `pos`.
fn parse_enum_def(ts: &Vec<Token>, pos: usize, Ghost(shape): Ghost<Option<int>>) -> (r: Result<(EnumDef, usize), usize>)
    requires
        pos < ts@.len(),
        is_word(ts@[pos as int].kind, "enum"@),
        ts@.len() <= usize::MAX,
    ensures
        r matches Ok((e, next)) ==> pos < next <= ts@.len()
            && item_kinds(Item::EnumDef(e)) == seg(ts@, pos as int, next as int)
            && item_spans(ts@, pos as int, Item::EnumDef(e)),
        shape is Some && enum_shape(seg(ts@, pos as int, ts@.len() as int), shape->Some_0)
            ==> (r matches Ok((e, next)) && next == ts@.len()),
{
    let ghost ok = shape is Some && enum_shape(seg(ts@, pos as int, ts@.len() as int), shape->Some_0);
    let ghost n = shape->Some_0;
    let ghost k = seg(ts@, pos as int, ts@.len() as int);
    proof {
        assert forall|i: int| 0 <= i < k.len() implies #[trigger] k[i] == kind_view(ts@[pos + i].kind) by {}
    }
    let name = match name_at(ts, pos + 1) {
        Some(n) => n,
        None => return Err(pos + 1),
    };
    if !punct_at(ts, pos + 2, Sym::LBrace) {
        return Err(pos + 2);
    }
    let name = spanned_name(ts, pos + 1, name);
    let mut variants: Vec<Spanned<String>> = Vec::new();
    let mut end = pos + 3;
    proof {
        if ok && n >= 1 {
            assert(enum_variant_at(k, 0));
        }
    }
    if !punct_at(ts, end, Sym::RBrace) {
        let v = match name_at(ts, end) {
            Some(v) => v,
            None => return Err(end),
        };
        proof {
            lemma_seg_one(ts@, end as int);
        }
        variants.push(spanned_name(ts, end, v));
        end = end + 1;
        while punct_at(ts, end, Sym::Comma)
            invariant
                pos + 3 < end <= ts@.len(),
                variants@.len() >= 1,
                variants_kinds(variants@) == seg(ts@, pos + 3, end as int),
                variants_spans(ts@, pos + 3, variants@),
                k == seg(ts@, pos as int, ts@.len() as int),
                forall|i: int| 0 <= i < k.len() ==> #[trigger] k[i] == kind_view(ts@[pos + i].kind),
                ok == (shape is Some && enum_shape(k, n)),
                n == shape->Some_0,
                ok ==> variants@.len() <= n && end == pos + 2 + 2 * variants@.len(),
            decreases ts@.len() - end,
        {
            proof {
                if ok {
                    assert(variants@.len() < n) by {
                        if variants@.len() == n {
                            assert(k[2 + 2 * n] == KindView::Punct(Sym::RBrace));
                        }
                    }
                    let c: int = variants@.len() as int;
                    assert(enum_variant_at(k, c));
                    assert(k[3 + 2 * c] == kind_view(ts@[end + 1].kind));
                    assert(plain_name(kind_view(ts@[end + 1].kind)));
                    assert(k.len() == ts@.len() - pos);
                    assert(end + 1 < ts@.len());
                }
            }
            let v = match name_at(ts, end + 1) {
                Some(v) => v,
                None => return Err(end + 1),
            };
            proof {
                lemma_seg_push(ts@, pos + 3, end as int);
                lemma_seg_push(ts@, pos + 3, end + 1);
            }
            let ghost before = variants@;
            variants.push(spanned_name(ts, end + 1, v));
            proof {
                assert(variants@.subrange(0, variants@.len() - 1) =~= before);
            }
            end = end + 2;
        }
        proof {
            if ok && variants@.len() < n {
                assert(enum_comma_at(k, variants@.len() - 1));
            }
        }
    } else {
        proof {
            assert(seg(ts@, pos + 3, end as int) =~= Seq::<KindView>::empty());
        }
    }
    if !punct_at(ts, end, Sym::RBrace) {
        return Err(end);
    }
    proof {
        lemma_seg_one(ts@, pos as int);
        lemma_seg_push(ts@, pos as int, pos + 1);
        lemma_seg_push(ts@, pos as int, pos + 2);
        lemma_seg_split(ts@, pos as int, pos + 3, end as int);
        lemma_seg_push(ts@, pos as int, end as int);
    }
    let span = span_between(ts, pos, end + 1);
    Ok((EnumDef { name, variants, span }, end + 1))
}

/// Reads `name: Type`, a parameter.
fn parse_param(ts: &Vec<Token>, pos: usize) -> (r: Result<(ParamDef, usize), usize>)
    requires
        pos <= ts@.len(),
    ensures
        r matches Ok((d, next)) ==> pos < next <= ts@.len() && param_kinds(d) == seg(ts@, pos as int, next as int)
            && param_spans(ts@, pos as int, d),
        pos + 3 < ts@.len() && plain_name(kind_view(ts@[pos as int].kind))
            && ts@[pos + 1].kind == TokenKind::Punct(Sym::Colon) && plain_name(kind_view(ts@[pos + 2].kind))
            && ends_field(ts@, pos + 3) ==> (r matches Ok((d, next)) && next == pos + 3),
{
    let name = match name_at(ts, pos) {
        Some(n) => n,
        None => return Err(pos),
    };
    if !punct_at(ts, pos + 1, Sym::Colon) {
        return Err(pos + 1);
    }
    let name = spanned_name(ts, pos, name);
    let (ty, m) = parse_annotation(ts, pos + 2)?;
    proof {
        lemma_seg_one(ts@, pos as int);
        lemma_seg_push(ts@, pos as int, pos + 1);
        lemma_seg_split(ts@, pos as int, pos + 2, m as int);
    }
    let span = span_between(ts, pos, m);
    Ok((ParamDef { name, ty, span }, m))
}

/// Reads parameters separated by commas up to the `)`, which it does not
/// consume.
#[verifier::rlimit(80)]
#[verifier::spinoff_prover]
fn parse_params(ts: &Vec<Token>, pos: usize, Ghost(shape): Ghost<Option<int>>) -> (r: Result<(Vec<ParamDef>, usize), usize>)
    requires
        pos <= ts@.len(),
    ensures
        r matches Ok((ps, next)) ==> pos <= next < ts@.len() && ts@[next as int].kind == TokenKind::Punct(Sym::RParen)
            && params_kinds(ps@) == seg(ts@, pos as int, next as int) && params_spans(ts@, pos as int, ps@),
        shape is Some && params_shape(toks_view(ts@), pos as int, shape->Some_0) ==> (r matches Ok((ps, next))
            && next == params_close(pos as int, shape->Some_0)),
{
    let ghost ok = shape is Some && params_shape(toks_view(ts@), pos as int, shape->Some_0);
    let ghost n = shape->Some_0;
    let ghost k = toks_view(ts@);
    let mut params: Vec<ParamDef> = Vec::new();
    if punct_at(ts, pos, Sym::RParen) {
        proof {
            assert(seg(ts@, pos as int, pos as int) =~= Seq::<KindView>::empty());
            if ok && n > 0 {
                assert(param_at(k, pos as int, 0));
            }
        }
        return Ok((params, pos));
    }
    proof {
        if ok {
            assert(param_at(k, pos as int, 0));
            if n > 1 {
                assert(param_comma_at(k, pos as int, 0));
            }
        }
    }
    let (d, m) = parse_param(ts, pos)?;
    params.push(d);
    let mut end = m;
    proof {
        assert(params_kinds(params@) == seg(ts@, pos as int, end as int));
    }
    while punct_at(ts, end, Sym::Comma)
        invariant
            pos < end <= ts@.len(),
            params@.len() >= 1,
            params_kinds(params@) == seg(ts@, pos as int, end as int),
            params_spans(ts@, pos as int, params@),
            k == toks_view(ts@),
            ok == (shape is Some && params_shape(toks_view(ts@), pos as int, shape->Some_0)),
            ok ==> n == shape->Some_0 && 1 <= params@.len() <= n && end == pos + 4 * params@.len() - 1,
        decreases ts@.len() - end,
    {
        let ghost c = params@.len() as int;
        proof {
            if ok {
                if c == n {
                    assert(k[params_close(pos as int, n)] == KindView::Punct(Sym::RParen));
                } else {
                    let q = pos + 4 * c;
                    assert(param_at(k, pos as int, c));
                    assert(kind_view(ts@[q + 1].kind) == KindView::Punct(Sym::Colon));
                    assert(ts@[q + 1].kind == TokenKind::Punct(Sym::Colon));
                    if c + 1 < n {
                        assert(param_comma_at(k, pos as int, c));
                        assert(kind_view(ts@[q + 3].kind) == KindView::Punct(Sym::Comma));
                    } else {
                        assert(q + 3 == params_close(pos as int, n));
                        assert(kind_view(ts@[q + 3].kind) == KindView::Punct(Sym::RParen));
                    }
                    assert(ends_field(ts@, q + 3));
                }
            }
        }
        let (d, m) = parse_param(ts, end + 1)?;
        proof {
            lemma_seg_push(ts@, pos as int, end as int);
            lemma_seg_split(ts@, pos as int, end + 1, m as int);
        }
        let ghost before = params@;
        params.push(d);
        proof {
            assert(params@.subrange(0, params@.len() - 1) =~= before);
        }
        end = m;
    }
    proof {
        if ok {
            let c = params@.len() as int;
            if c < n {
                assert(param_comma_at(k, pos as int, c - 1));
            }
        }
    }
    if punct_at(ts, end, Sym::RParen) {
        Ok((params, end))
    } else {
        Err(end)
    }
}

/// Reads an optional `-> Type` at `pos`.
fn parse_return_type(ts: &Vec<Token>, pos: usize) -> (r: Result<(Option<TypeAnnotation>, usize), usize>)
    requires
        pos <= ts@.len(),
    ensures
        r matches Ok((t, next)) ==> pos <= next <= ts@.len() && seg(ts@, pos as int, next as int) == (match t {
            None => Seq::empty(),
            Some(t) => p(Sym::Arrow) + annotation_kinds(t),
        }) && (t matches Some(a) ==> annotation_spans(ts@, pos + 1, a)),
        pos + 1 < ts@.len() && ts@[pos as int].kind == TokenKind::Punct(Sym::Arrow)
            && plain_name(kind_view(ts@[pos + 1].kind)) && ends_field(ts@, pos + 2)
            ==> (r matches Ok((t, next)) && next == pos + 2),
{
    if punct_at(ts, pos, Sym::Arrow) {
        let (t, m) = parse_annotation(ts, pos + 1)?;
        proof {
            lemma_seg_one(ts@, pos as int);
            lemma_seg_split(ts@, pos as int, pos + 1, m as int);
        }
        Ok((Some(t), m))
    } else {
        proof {
            assert(seg(ts@, pos as int, pos as int) =~= Seq::<KindView>::empty());
        }
        Ok((None, pos))
    }
}

/// Reads `def name(params) -> Type { body }` at the `def` at `pos`; the
/// return type may be left out.
#[verifier::rlimit(30)]
fn parse_function_def(ts: &Vec<Token>, pos: usize, Ghost(shape): Ghost<Option<(int, Expr)>>) -> (r: Result<
    (FunctionDef, usize),
    usize,
>)
    requires
        pos < ts@.len(),
        is_word(ts@[pos as int].kind, "def"@),
        ts@.len() <= usize::MAX,
    ensures
        r matches Ok((f, next)) ==> pos < next <= ts@.len()
            && item_kinds(Item::FunctionDef(f)) == seg(ts@, pos as int, next as int)
            && item_wf(Item::FunctionDef(f)) && item_spans(ts@, pos as int, Item::FunctionDef(f)),
        pos == 0 && shape is Some && fn_shape(toks_view(ts@), shape->Some_0.0, shape->Some_0.1)
            ==> (r matches Ok((f, next)) && next == ts@.len()),
{
    let ghost ok = pos == 0 && shape is Some && fn_shape(toks_view(ts@), shape->Some_0.0, shape->Some_0.1);
    let ghost n = shape->Some_0.0;
    let ghost e = shape->Some_0.1;
    let ghost c = params_close(3, n);
    let ghost k = toks_view(ts@);
    proof {
        if ok {
            assert(params_shape(k, 3, n));
            assert(k[c] == KindView::Punct(Sym::RParen));
            assert(kind_view(ts@[c + 1].kind) == KindView::Punct(Sym::Arrow));
            assert(kind_view(ts@[c + 3].kind) == KindView::Punct(Sym::LBrace));
            assert(kind_view(ts@[k.len() - 1].kind) == KindView::Punct(Sym::RBrace));
            let b = c + 4;
            let l = expr_kinds(e).len() as int;
            assert(seg(ts@, b, b + l) =~= k.subrange(b, b + l));
            assert(arith_block(ts@, c + 3, e));
        }
    }
    let name = match name_at(ts, pos + 1) {
        Some(n) => n,
        None => return Err(pos + 1),
    };
    if !punct_at(ts, pos + 2, Sym::LParen) {
        return Err(pos + 2);
    }
    let name = spanned_name(ts, pos + 1, name);
    let (params, close) = parse_params(ts, pos + 3, Ghost(if ok { Some(n) } else { None }))?;
    let (return_type, body_at) = parse_return_type(ts, close + 1)?;
    let (body, m) = parse_block(ts, body_at)?;
    proof {
        let s = ts@;
        let (a, c) = (pos as int, close as int);
        lemma_seg_one(s, a);
        lemma_seg_push(s, a, a + 1);
        lemma_seg_push(s, a, a + 2);
        lemma_seg_split(s, a, a + 3, c);
        lemma_seg_push(s, a, c);
        lemma_seg_split(s, a, c + 1, body_at as int);
        lemma_seg_split(s, a, body_at as int, m as int);
    }
    let span = span_between(ts, pos, m);
    Ok((FunctionDef { name, params, return_type, body: FunctionBody::Block(body), span }, m))
}

/// Reads a top-level item: a type, enum or function definition, or a
/// statement.
fn parse_item(
    ts: &Vec<Token>,
    pos: usize,
    Ghost(shape): Ghost<Option<int>>,
    Ghost(tshape): Ghost<Option<int>>,
    Ghost(fshape): Ghost<Option<(int, Expr)>>,
) -> (r: Result<
    (Item, usize),
    usize,
>)
    requires
        pos <= ts@.len(),
    ensures
        r matches Ok((i, next)) ==> pos < next <= ts@.len() && item_kinds(i) == seg(ts@, pos as int, next as int)
            && item_wf(i) && item_spans(ts@, pos as int, i),
        shape is Some && enum_shape(seg(ts@, pos as int, ts@.len() as int), shape->Some_0)
            ==> (r matches Ok((i, next)) && next == ts@.len() && i is EnumDef),
        tshape is Some && type_shape(seg(ts@, pos as int, ts@.len() as int), tshape->Some_0)
            ==> (r matches Ok((i, next)) && next == ts@.len() && i is TypeDef),
        pos == 0 && fshape is Some && fn_shape(toks_view(ts@), fshape->Some_0.0, fshape->Some_0.1)
            ==> (r matches Ok((i, next)) && next == ts@.len() && i is FunctionDef),
{
    proof {
        if pos == 0 && fshape is Some && fn_shape(toks_view(ts@), fshape->Some_0.0, fshape->Some_0.1) {
            reveal_strlit("def");
            reveal_strlit("enum");
            reveal_strlit("type");
            assert(kind_view(ts@[0].kind) == KindView::Word("def"@));
            assert("def"@ != "type"@) by {
                assert("def"@[0] != "type"@[0]);
            }
            assert("def"@ != "enum"@) by {
                assert("def"@[0] != "enum"@[0]);
            }
            assert(is_word(ts@[0].kind, "def"@));
        }
    }
    proof {
        if tshape is Some && type_shape(seg(ts@, pos as int, ts@.len() as int), tshape->Some_0) {
            assert(seg(ts@, pos as int, ts@.len() as int)[0] == kind_view(ts@[pos as int].kind));
            assert(is_word(ts@[pos as int].kind, "type"@));
        }
    }
    proof {
        if shape is Some && enum_shape(seg(ts@, pos as int, ts@.len() as int), shape->Some_0) {
            reveal_strlit("enum");
            reveal_strlit("type");
            assert(seg(ts@, pos as int, ts@.len() as int)[0] == kind_view(ts@[pos as int].kind));
            assert(is_word(ts@[pos as int].kind, "enum"@));
            assert("enum"@ != "type"@) by {
                assert("enum"@[0] != "type"@[0]);
            }
        }
    }
    if word_at(ts, pos, "type") {
        let (t, m) = parse_type_def(ts, pos, Ghost(tshape))?;
        Ok((Item::TypeDef(t), m))
    } else if word_at(ts, pos, "enum") {
        let (e, m) = parse_enum_def(ts, pos, Ghost(shape))?;
        Ok((Item::EnumDef(e), m))
    } else if word_at(ts, pos, "def") {
        let (f, m) = parse_function_def(ts, pos, Ghost(fshape))?;
        Ok((Item::FunctionDef(f), m))
    } else {
        let (s, m) = parse_statement(ts, pos)?;
        Ok((Item::Statement(s), m))
    }
}

/// Reads a program from its tokens: items up to the last token.
pub fn parse_tokens(ts: &Vec<Token>) -> (r: Result<Program, usize>)
    ensures
        r matches Ok(prog) ==> program_kinds(prog) == toks_view(ts@) && items_wf(prog.items@)
            && items_spans(ts@, 0, prog.items@),
        forall|n: int| #[trigger] enum_shape(toks_view(ts@), n)
            ==> (r matches Ok(prog) && prog.items@.len() == 1 && prog.items@[0] is EnumDef),
        forall|n: int| #[trigger] type_shape(toks_view(ts@), n)
            ==> (r matches Ok(prog) && prog.items@.len() == 1 && prog.items@[0] is TypeDef),
        forall|n: int, e: Expr| #[trigger] fn_shape(toks_view(ts@), n, e)
            ==> (r matches Ok(prog) && prog.items@.len() == 1 && prog.items@[0] is FunctionDef),
{
    let ghost ffound = exists|n: int, e: Expr| fn_shape(toks_view(ts@), n, e);
    let ghost f0 = choose|n: int, e: Expr| fn_shape(toks_view(ts@), n, e);
    let ghost found = exists|n: int| enum_shape(toks_view(ts@), n);
    let ghost n0 = choose|n: int| enum_shape(toks_view(ts@), n);
    let ghost tfound = exists|n: int| type_shape(toks_view(ts@), n);
    let ghost t0 = choose|n: int| type_shape(toks_view(ts@), n);
    proof {
        lemma_seg_all(ts@);
    }
    let mut items: Vec<Item> = Vec::new();
    let mut end: usize = 0;
    proof {
        assert(seg(ts@, 0, 0) =~= Seq::<KindView>::empty());
    }
    while end < ts.len()
        invariant
            end <= ts@.len(),
            items_kinds(items@) == seg(ts@, 0, end as int),
            items_wf(items@),
            items_spans(ts@, 0, items@),
            found == (exists|n: int| enum_shape(toks_view(ts@), n)),
            found ==> enum_shape(toks_view(ts@), n0),
            seg(ts@, 0, ts@.len() as int) == toks_view(ts@),
            found ==> (end == 0 && items@.len() == 0) || (end == ts@.len() && items@.len() == 1
                && items@[0] is EnumDef),
            tfound == (exists|n: int| type_shape(toks_view(ts@), n)),
            tfound ==> type_shape(toks_view(ts@), t0),
            tfound ==> (end == 0 && items@.len() == 0) || (end == ts@.len() && items@.len() == 1
                && items@[0] is TypeDef),
            ffound == (exists|n: int, e: Expr| fn_shape(toks_view(ts@), n, e)),
            ffound ==> fn_shape(toks_view(ts@), f0.0, f0.1),
            ffound ==> (end == 0 && items@.len() == 0) || (end == ts@.len() && items@.len() == 1
                && items@[0] is FunctionDef),
        decreases ts@.len() - end,
    {
        let (i, m) = match parse_item(
            ts,
            end,
            Ghost(if end == 0 && found { Some(n0) } else { None }),
            Ghost(if end == 0 && tfound { Some(t0) } else { None }),
            Ghost(if end == 0 && ffound { Some(f0) } else { None }),
        ) {
            Ok(x) => x,
            Err(at) => return Err(at),
        };
        proof {
            lemma_seg_split(ts@, 0, end as int, m as int);
        }
        let ghost before = items@;
        items.push(i);
        proof {
            assert(items@.subrange(0, items@.len() - 1) =~= before);
        }
        end = m;
    }
    proof {
        lemma_seg_all(ts@);
        assert forall|n: int| #[trigger] enum_shape(toks_view(ts@), n) implies items@.len() == 1
            && items@[0] is EnumDef by {
            assert(found);
            if ts@.len() == 0 {
                assert(toks_view(ts@).len() == 0);
            }
        }
        assert forall|n: int| #[trigger] type_shape(toks_view(ts@), n) implies items@.len() == 1
            && items@[0] is TypeDef by {
            assert(tfound);
            if ts@.len() == 0 {
                assert(toks_view(ts@).len() == 0);
            }
        }
        assert forall|n: int, e: Expr| #[trigger] fn_shape(toks_view(ts@), n, e) implies items@.len() == 1
            && items@[0] is FunctionDef by {
            assert(ffound);
            if ts@.len() == 0 {
                assert(toks_view(ts@).len() == 0);
            }
        }
    }
    Ok(Program { items })
}

/// Each token carries the span of its characters in `source`.
pub open spec fn spans_of_source(source: Seq<char>, ts: Seq<Token>) -> bool {
    forall|k: int| 0 <= k < ts.len() ==> (#[trigger] ts[k]).span == token_span(source, ts[k].start as int, ts[k].end as int)
}

/// Parses a program. A text that is one enum definition, or one type
/// definition whose fields have one-word types, with names that are not
/// reserved words, is always read, as that one item.
pub fn parse(source: &str) -> (r: Result<Program, ParseError>)
    ensures
        r matches Ok(prog) ==> exists|ts: Seq<Token>| tokenization(source@, ts) && spans_of_source(source@, ts)
            && program_kinds(prog) == toks_view(ts) && items_wf(prog.items@) && items_spans(ts, 0, prog.items@),
        r matches Err(ParseError::Lex(e)) ==> exists|toks: Seq<Token>| #[trigger] lexed(source@, toks, last_end(toks))
            && lex_error_at(source@, skip_trivia(source@, last_end(toks)), e),
        r matches Err(ParseError::Syntax { .. }) ==> exists|ts: Seq<Token>| tokenization(source@, ts),
        forall|ts: Seq<Token>, n: int|
            #![trigger tokenization(source@, ts), enum_shape(toks_view(ts), n)]
            tokenization(source@, ts) && enum_shape(toks_view(ts), n)
                ==> (r matches Ok(prog) && prog.items@.len() == 1 && prog.items@[0] is EnumDef),
        forall|ts: Seq<Token>, n: int|
            #![trigger tokenization(source@, ts), type_shape(toks_view(ts), n)]
            tokenization(source@, ts) && type_shape(toks_view(ts), n)
                ==> (r matches Ok(prog) && prog.items@.len() == 1 && prog.items@[0] is TypeDef),
        forall|ts: Seq<Token>, n: int, e: Expr|
            #![trigger tokenization(source@, ts), fn_shape(toks_view(ts), n, e)]
            tokenization(source@, ts) && fn_shape(toks_view(ts), n, e)
                ==> (r matches Ok(prog) && prog.items@.len() == 1 && prog.items@[0] is FunctionDef),
{
    let ts = match tokenize(source) {
        Ok(ts) => ts,
        Err(e) => {
            proof {
                lemma_refused_has_no_reading(source@, e);
            }
            return Err(ParseError::Lex(e));
        },
    };
    proof {
        assert(tokenization(source@, ts@));
        assert forall|a: Seq<Token>, n: int|
            #![trigger tokenization(source@, a), enum_shape(toks_view(a), n)]
            tokenization(source@, a) && enum_shape(toks_view(a), n) implies enum_shape(toks_view(ts@), n) by {
            law_text_spells_one_token_sequence(source@, a, ts@);
        }
        assert forall|a: Seq<Token>, n: int|
            #![trigger tokenization(source@, a), type_shape(toks_view(a), n)]
            tokenization(source@, a) && type_shape(toks_view(a), n) implies type_shape(toks_view(ts@), n) by {
            law_text_spells_one_token_sequence(source@, a, ts@);
        }
        assert forall|a: Seq<Token>, n: int, e: Expr|
            #![trigger tokenization(source@, a), fn_shape(toks_view(a), n, e)]
            tokenization(source@, a) && fn_shape(toks_view(a), n, e) implies fn_shape(toks_view(ts@), n, e) by {
            law_text_spells_one_token_sequence(source@, a, ts@);
        }
    }
    match parse_tokens(&ts) {
        Ok(prog) => {
            proof {
                assert(tokenization(source@, ts@));
            }
            Ok(prog)
        },
        Err(position) => {
            proof {
                assert(tokenization(source@, ts@));
            }
            Err(ParseError::Syntax { position })
        },
    }
}

/// Parses a single expression: the whole source must be one expression.
/// An arithmetic expression (integers and binary operators) is always
/// read, with the grouping that precedence gives it.
#[verifier::rlimit(100)]
#[verifier::spinoff_prover]
pub fn parse_expression(source: &str) -> (r: Result<Expr, ParseError>)
    ensures
        r matches Ok(e) ==> exists|ts: Seq<Token>| tokenization(source@, ts) && spans_of_source(source@, ts)
            && expr_kinds(e) == toks_view(ts) && expr_wf(e) && expr_spans(ts, 0, e),
        r matches Err(ParseError::Lex(e)) ==> exists|toks: Seq<Token>| #[trigger] lexed(source@, toks, last_end(toks))
            && lex_error_at(source@, skip_trivia(source@, last_end(toks)), e),
        r matches Err(ParseError::Syntax { .. }) ==> exists|ts: Seq<Token>| tokenization(source@, ts),
        forall|ts: Seq<Token>, e: Expr|
            #![trigger tokenization(source@, ts), arith(e)]
            tokenization(source@, ts) && arith(e) && expr_wf(e) && expr_kinds(e) == toks_view(ts)
                ==> (r matches Ok(x) && same_shape(x, e)),
{
    let ts = match tokenize(source) {
        Ok(ts) => ts,
        Err(e) => {
            proof {
                lemma_refused_has_no_reading(source@, e);
            }
            return Err(ParseError::Lex(e));
        },
    };
    let ghost found = exists|e: Expr| arith(e) && expr_wf(e) && expr_kinds(e) == toks_view(ts@);
    let ghost t = choose|e: Expr| arith(e) && expr_wf(e) && expr_kinds(e) == toks_view(ts@);
    proof {
        assert(tokenization(source@, ts@));
        if found {
            lemma_fits_whole(ts@, t);
        }
    }
    let res = parse_binary(&ts, 0, 1, Ghost(if found { Some(t) } else { None }));
    match res {
        Ok((e, m)) => {
            if m == ts.len() {
                proof {
                    if found {
                        lemma_expression_complete(source@, ts@, t, e);
                    } else {
                        lemma_no_arith_reading(source@, ts@);
                    }
                }
                Ok(e)
            } else {
                proof {
                    if !found {
                        lemma_no_arith_reading(source@, ts@);
                    }
                }
                Err(ParseError::Syntax { position: m })
            }
        },
        Err(position) => {
            proof {
                if !found {
                    lemma_no_arith_reading(source@, ts@);
                }
            }
            Err(ParseError::Syntax { position })
        },
    }
}

/// Read as an arithmetic expression of the same shape as one reading of
/// the text, an expression has the shape of every arithmetic expression
/// written with the text's tokens.
proof fn lemma_expression_complete(source: Seq<char>, ts0: Seq<Token>, t: Expr, x: Expr)
    requires
        tokenization(source, ts0),
        arith(t),
        expr_wf(t),
        expr_kinds(t) == toks_view(ts0),
        same_shape(x, t),
    ensures
        forall|a: Seq<Token>, e: Expr|
            #![trigger tokenization(source, a), arith(e)]
            tokenization(source, a) && arith(e) && expr_wf(e) && expr_kinds(e) == toks_view(a)
                ==> same_shape(x, e),
{
    assert forall|a: Seq<Token>, e: Expr|
        #![trigger tokenization(source, a), arith(e)]
        tokenization(source, a) && arith(e) && expr_wf(e) && expr_kinds(e) == toks_view(a)
        implies same_shape(x, e) by {
        law_text_spells_one_token_sequence(source, a, ts0);
        law_precedence_decides_the_tree(t, e);
        lemma_same_shape_trans(x, t, e);
    }
}

/// When no arithmetic expression is written with the tokens of one
/// reading of a text, none is with those of any reading.
proof fn lemma_no_arith_reading(source: Seq<char>, ts0: Seq<Token>)
    requires
        tokenization(source, ts0),
        !(exists|e: Expr| arith(e) && expr_wf(e) && expr_kinds(e) == toks_view(ts0)),
    ensures
        forall|a: Seq<Token>, e: Expr|
            #![trigger tokenization(source, a), arith(e)]
            !(tokenization(source, a) && arith(e) && expr_wf(e) && expr_kinds(e) == toks_view(a)),
{
    assert forall|a: Seq<Token>, e: Expr|
        #![trigger tokenization(source, a), arith(e)]
        !(tokenization(source, a) && arith(e) && expr_wf(e) && expr_kinds(e) == toks_view(a)) by {
        if tokenization(source, a) && arith(e) && expr_wf(e) && expr_kinds(e) == toks_view(a) {
            law_text_spells_one_token_sequence(source, a, ts0);
            assert(expr_kinds(e) == toks_view(ts0));
        }
    }
}

/// A text with an error found after a partial reading has no complete
/// reading.
proof fn lemma_refused_has_no_reading(source: Seq<char>, e: LexError)
    requires
        exists|toks: Seq<Token>| #[trigger] lexed(source, toks, last_end(toks))
            && lex_error_at(source, skip_trivia(source, last_end(toks)), e),
    ensures
        forall|a: Seq<Token>| !tokenization(source, a),
{
    assert forall|a: Seq<Token>| !tokenization(source, a) by {
        if tokenization(source, a) {
            let toks = choose|toks: Seq<Token>| #[trigger] lexed(source, toks, last_end(toks))
                && lex_error_at(source, skip_trivia(source, last_end(toks)), e);
            law_read_or_refused(source, a, toks, e);
        }
    }
}

/// An arithmetic expression written with all the tokens fits them.
proof fn lemma_fits_whole(ts: Seq<Token>, t: Expr)
    requires
        arith(t),
        expr_wf(t),
        expr_kinds(t) == toks_view(ts),
    ensures
        fits(ts, 0, t, 1),
{
    lemma_seg_all(ts);
    lemma_arith_ops(t);
    assert(expr_level(t) >= 1);
}

/// Shapes that agree with a third agree with each other.
proof fn lemma_same_shape_trans(a: Expr, b: Expr, c: Expr)
    requires
        same_shape(a, b),
        same_shape(b, c),
    ensures
        same_shape(a, c),
    decreases a,
{
    match (a.kind, b.kind, c.kind) {
        (ExprKind::Binary { left: l1, op: o1, right: r1 }, ExprKind::Binary { left: l2, op: o2, right: r2 },
            ExprKind::Binary { left: l3, op: o3, right: r3 }) => {
            lemma_same_shape_trans(*l1, *l2, *l3);
            lemma_same_shape_trans(*r1, *r2, *r3);
        },
        _ => {},
    }
}

/// Tokens of the same kinds, one for one, have the same view.
proof fn lemma_same_kinds_view(a: Seq<Token>, b: Seq<Token>)
    requires
        a.len() == b.len(),
        forall|k: int| 0 <= k < a.len() ==> same_kind((#[trigger] a[k]).kind, b[k].kind),
    ensures
        toks_view(a) == toks_view(b),
{
    assert forall|k: int| 0 <= k < a.len() implies toks_view(a)[k] == toks_view(b)[k] by {
        assert(same_kind(a[k].kind, b[k].kind));
    }
    assert(toks_view(a) =~= toks_view(b));
}

/// A text is spelled by one sequence of token kinds: any two complete
/// readings of it have the same kinds, so the kinds a parsed program or
/// expression flattens back to are those of its text.
pub proof fn law_text_spells_one_token_sequence(s: Seq<char>, a: Seq<Token>, b: Seq<Token>)
    requires
        tokenization(s, a),
        tokenization(s, b),
    ensures
        toks_view(a) == toks_view(b),
{
    law_tokenization_unique(s, a, b);
    lemma_same_kinds_view(a, b);
}

// ---------------------------------------------------------------------------
// Precedence decides the tree
// ---------------------------------------------------------------------------

/// An arithmetic expression: integers and variables joined by binary
/// operators.
pub open spec fn arith(e: Expr) -> bool
    decreases e,
{
    match e.kind {
        ExprKind::Literal(Literal::Int(_)) => true,
        ExprKind::Var(x) => lower_name(x@),
        ExprKind::Binary { left, op, right } => arith(*left) && arith(*right),
        _ => false,
    }
}

/// Two arithmetic expressions with the same integers, operators and
/// grouping (their spans aside).
pub open spec fn same_shape(a: Expr, b: Expr) -> bool
    decreases a,
{
    match (a.kind, b.kind) {
        (ExprKind::Literal(Literal::Int(x)), ExprKind::Literal(Literal::Int(y))) => x == y,
        (ExprKind::Var(x), ExprKind::Var(y)) => x@ == y@,
        (ExprKind::Binary { left: l1, op: o1, right: r1 }, ExprKind::Binary { left: l2, op: o2, right: r2 }) =>
            o1 == o2 && same_shape(*l1, *l2) && same_shape(*r1, *r2),
        _ => false,
    }
}

/// The level of the operator an operator token stands for, or 0.
pub open spec fn sym_level(k: KindView) -> int {
    match k {
        KindView::Punct(Sym::OrOr) => 1,
        KindView::Punct(Sym::AndAnd) => 2,
        KindView::Punct(Sym::EqEq) | KindView::Punct(Sym::NotEq) => 3,
        KindView::Punct(Sym::Lt) | KindView::Punct(Sym::Le) | KindView::Punct(Sym::Gt)
            | KindView::Punct(Sym::Ge) => 4,
        KindView::Punct(Sym::Plus) | KindView::Punct(Sym::Minus) => 5,
        KindView::Punct(Sym::Star) | KindView::Punct(Sym::Slash) | KindView::Punct(Sym::Percent) => 6,
        _ => 0,
    }
}

/// Every operator token in `k` binds at least at level `lv`.
pub open spec fn ops_from(k: Seq<KindView>, lv: int) -> bool {
    forall|i: int| 0 <= i < k.len() && (#[trigger] k[i]) is Punct ==> sym_level(k[i]) >= lv
}

proof fn lemma_op_token(op: BinaryOp)
    ensures
        sym_level(KindView::Punct(binary_sym(op))) == op_level(op),
        forall|o: BinaryOp| binary_sym(o) == binary_sym(op) ==> o == op,
{
    assert forall|o: BinaryOp| binary_sym(o) == binary_sym(op) implies o == op by {
        match o {
            BinaryOp::Add => {}, BinaryOp::Sub => {}, BinaryOp::Mul => {}, BinaryOp::Div => {},
            BinaryOp::Mod => {}, BinaryOp::Eq => {}, BinaryOp::Ne => {}, BinaryOp::Lt => {},
            BinaryOp::Le => {}, BinaryOp::Gt => {}, BinaryOp::Ge => {}, BinaryOp::And => {},
            BinaryOp::Or => {},
        }
    }
}

/// In a well-formed arithmetic expression every operator binds at least
/// as tightly as the outermost one, and its tokens are not empty.
proof fn lemma_arith_ops(e: Expr)
    requires
        arith(e),
        expr_wf(e),
    ensures
        ops_from(expr_kinds(e), expr_level(e)),
        expr_kinds(e).len() >= 1,
        expr_kinds(e).len() == 1 <==> (e.kind is Literal || e.kind is Var),
    decreases e,
{
    match e.kind {
        ExprKind::Binary { left, op, right } => {
            lemma_arith_ops(*left);
            lemma_arith_ops(*right);
            lemma_op_token(op);
            let kl = expr_kinds(*left);
            let kr = expr_kinds(*right);
            let k = expr_kinds(e);
            assert(k == kl + p(binary_sym(op)) + kr);
            assert forall|i: int| 0 <= i < k.len() && (#[trigger] k[i]) is Punct implies sym_level(k[i]) >= expr_level(e) by {
                if i < kl.len() {
                    assert(k[i] == kl[i]);
                } else if i > kl.len() {
                    assert(k[i] == kr[i - kl.len() - 1]);
                }
            }
        },
        ExprKind::Literal(l) => {
            assert(expr_kinds(e) =~= literal_kinds(l));
        },
        ExprKind::Var(x) => {
            assert(expr_kinds(e) =~= seq![KindView::Word(x@)]);
        },
        _ => {},
    }
}

/// Precedence decides the tree: two well-formed arithmetic expressions
/// written with the same tokens have the same shape, so an operator that
/// binds more tightly groups first and operators of one level group to the
/// left.
pub proof fn law_precedence_decides_the_tree(e1: Expr, e2: Expr)
    requires
        arith(e1),
        arith(e2),
        expr_wf(e1),
        expr_wf(e2),
        expr_kinds(e1) == expr_kinds(e2),
    ensures
        same_shape(e1, e2),
    decreases e1,
{
    lemma_arith_ops(e1);
    lemma_arith_ops(e2);
    let k = expr_kinds(e1);
    match (e1.kind, e2.kind) {
        (ExprKind::Literal(Literal::Int(x)), ExprKind::Literal(Literal::Int(y))) => {
            assert(k[0] == KindView::Int(x));
            assert(expr_kinds(e2)[0] == KindView::Int(y));
        },
        (ExprKind::Var(x), ExprKind::Var(y)) => {
            assert(k[0] == KindView::Word(x@));
            assert(expr_kinds(e2)[0] == KindView::Word(y@));
        },
        (ExprKind::Literal(Literal::Int(x)), ExprKind::Var(y)) => {
            assert(k[0] == KindView::Int(x));
            assert(expr_kinds(e2)[0] == KindView::Word(y@));
        },
        (ExprKind::Var(x), ExprKind::Literal(Literal::Int(y))) => {
            assert(k[0] == KindView::Word(x@));
            assert(expr_kinds(e2)[0] == KindView::Int(y));
        },
        (ExprKind::Binary { left: l1, op: o1, right: r1 }, ExprKind::Binary { left: l2, op: o2, right: r2 }) => {
            lemma_arith_ops(*l1);
            lemma_arith_ops(*r1);
            lemma_arith_ops(*l2);
            lemma_arith_ops(*r2);
            lemma_op_token(o1);
            lemma_op_token(o2);
            let p1 = expr_kinds(*l1).len() as int;
            let p2 = expr_kinds(*l2).len() as int;
            assert(k == expr_kinds(*l1) + p(binary_sym(o1)) + expr_kinds(*r1));
            assert(k == expr_kinds(*l2) + p(binary_sym(o2)) + expr_kinds(*r2));
            assert(k[p1] == KindView::Punct(binary_sym(o1)));
            assert(k[p2] == KindView::Punct(binary_sym(o2)));
            assert(sym_level(k[p2]) >= op_level(o1));
            assert(sym_level(k[p1]) >= op_level(o2));
            if p1 < p2 {
                assert(k[p2] == expr_kinds(*r1)[p2 - p1 - 1]);
                assert(sym_level(k[p2]) >= expr_level(*r1));
            } else if p2 < p1 {
                assert(k[p1] == expr_kinds(*r2)[p1 - p2 - 1]);
                assert(sym_level(k[p1]) >= expr_level(*r2));
            }
            assert(p1 == p2);
            assert(o1 == o2);
            assert(expr_kinds(*l1) =~= k.take(p1));
            assert(expr_kinds(*l2) =~= k.take(p1));
            assert(expr_kinds(*r1) =~= k.skip(p1 + 1));
            assert(expr_kinds(*r2) =~= k.skip(p1 + 1));
            law_precedence_decides_the_tree(*l1, *l2);
            law_precedence_decides_the_tree(*r1, *r2);
        },
        _ => {},
    }
}

/// The operators `*`, `/` and `%` bind more tightly than `+` and `-`: every
/// well-formed arithmetic reading of `x lo y hi z`, with `lo` one of
/// `+ -`, `hi` one of `* / %` and operands that bind more tightly than
/// any operator, has `lo` at its root, `x` on its left, and `y hi z` on its
/// right.
pub proof fn law_tighter_operator_groups_first(e: Expr, x: Expr, y: Expr, z: Expr, lo: BinaryOp, hi: BinaryOp)
    requires
        lo == BinaryOp::Add || lo == BinaryOp::Sub,
        hi == BinaryOp::Mul || hi == BinaryOp::Div || hi == BinaryOp::Mod,
        arith(x),
        arith(y),
        arith(z),
        expr_wf(x),
        expr_wf(y),
        expr_wf(z),
        expr_level(x) > 6,
        expr_level(y) > 6,
        expr_level(z) > 6,
        arith(e),
        expr_wf(e),
        expr_kinds(e) == expr_kinds(x) + p(binary_sym(lo)) + expr_kinds(y) + p(binary_sym(hi)) + expr_kinds(z),
    ensures
        e.kind is Binary,
        bin_op(e) == lo,
        same_shape(bin_left(e), x),
        bin_right(e).kind is Binary,
        bin_op(bin_right(e)) == hi,
        same_shape(bin_left(bin_right(e)), y),
        same_shape(bin_right(bin_right(e)), z),
{
    let inner = Expr { kind: ExprKind::Binary { left: Box::new(y), op: hi, right: Box::new(z) }, span: e.span };
    let t = Expr { kind: ExprKind::Binary { left: Box::new(x), op: lo, right: Box::new(inner) }, span: e.span };
    assert(expr_kinds(inner) == expr_kinds(y) + p(binary_sym(hi)) + expr_kinds(z));
    assert(expr_kinds(t) == expr_kinds(x) + p(binary_sym(lo)) + expr_kinds(inner));
    assert(expr_kinds(t) =~= expr_kinds(e));
    assert(arith(inner));
    assert(arith(t));
    assert(expr_wf(inner));
    assert(expr_wf(t));
    law_precedence_decides_the_tree(e, t);
    lemma_same_shape_parts(e, t);
    lemma_same_shape_parts(bin_right(e), inner);
}

/// Operators of one level group to the left: every well-formed arithmetic
/// reading of `x a y b z`, with `a` and `b` both among `+ -` or both among
/// `* / %`, has `b` at its root, `x a y` on its left and `z` on its right.
pub proof fn law_same_level_groups_left(e: Expr, x: Expr, y: Expr, z: Expr, a: BinaryOp, b: BinaryOp)
    requires
        ((a == BinaryOp::Add || a == BinaryOp::Sub) && (b == BinaryOp::Add || b == BinaryOp::Sub))
            || ((a == BinaryOp::Mul || a == BinaryOp::Div || a == BinaryOp::Mod) && (b == BinaryOp::Mul
            || b == BinaryOp::Div || b == BinaryOp::Mod)),
        arith(x),
        arith(y),
        arith(z),
        expr_wf(x),
        expr_wf(y),
        expr_wf(z),
        expr_level(x) > 6,
        expr_level(y) > 6,
        expr_level(z) > 6,
        arith(e),
        expr_wf(e),
        expr_kinds(e) == expr_kinds(x) + p(binary_sym(a)) + expr_kinds(y) + p(binary_sym(b)) + expr_kinds(z),
    ensures
        e.kind is Binary,
        bin_op(e) == b,
        same_shape(bin_right(e), z),
        bin_left(e).kind is Binary,
        bin_op(bin_left(e)) == a,
        same_shape(bin_left(bin_left(e)), x),
        same_shape(bin_right(bin_left(e)), y),
{
    let inner = Expr { kind: ExprKind::Binary { left: Box::new(x), op: a, right: Box::new(y) }, span: e.span };
    let t = Expr { kind: ExprKind::Binary { left: Box::new(inner), op: b, right: Box::new(z) }, span: e.span };
    assert(expr_kinds(inner) == expr_kinds(x) + p(binary_sym(a)) + expr_kinds(y));
    assert(expr_kinds(t) == expr_kinds(inner) + p(binary_sym(b)) + expr_kinds(z));
    assert(expr_kinds(t) =~= expr_kinds(e));
    assert(arith(inner));
    assert(arith(t));
    assert(expr_wf(inner));
    assert(expr_wf(t));
    law_precedence_decides_the_tree(e, t);
    lemma_same_shape_parts(e, t);
    lemma_same_shape_parts(bin_left(e), inner);
}

/// Two expressions of the same shape with a binary operator at the root
/// have the same operator and operands of the same shapes.
proof fn lemma_same_shape_parts(a: Expr, b: Expr)
    requires
        same_shape(a, b),
        b.kind is Binary,
    ensures
        a.kind is Binary,
        bin_op(a) == bin_op(b),
        same_shape(bin_left(a), bin_left(b)),
        same_shape(bin_right(a), bin_right(b)),
{
}

/// The left operand of a binary expression.
pub open spec fn bin_left(e: Expr) -> Expr {
    match e.kind {
        ExprKind::Binary { left, op, right } => *left,
        _ => e,
    }
}

/// The right operand of a binary expression.
pub open spec fn bin_right(e: Expr) -> Expr {
    match e.kind {
        ExprKind::Binary { left, op, right } => *right,
        _ => e,
    }
}

/// The operator of a binary expression.
pub open spec fn bin_op(e: Expr) -> BinaryOp {
    match e.kind {
        ExprKind::Binary { left, op, right } => op,
        _ => BinaryOp::Add,
    }
}

} // verus!
