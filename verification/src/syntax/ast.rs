//! The syntax tree of a program, and the token kinds that each node is
//! written with.

use vstd::prelude::*;
use crate::syntax::lexer::{Span, Sym, TokenKind, Token};

verus! {

/// A value with the span of the source it was read from.
#[derive(Debug, Clone)]
pub struct Spanned<T> {
    pub node: T,
    pub span: Span,
}

impl<T> Spanned<T> {
    pub fn new(node: T, span: Span) -> (r: Self)
        ensures
            r.node == node,
            r.span == span,
    {
        Spanned { node, span }
    }
}

/// The built-in types.
#[derive(Debug, Clone, Copy, PartialEq, Eq, Structural)]
pub enum PrimitiveType {
    String,
    Int,
    Float,
    Bool,
    Null,
    Path,
}

/// A type as written, with whether it is marked optional (`?`).
#[derive(Debug)]
pub struct TypeAnnotation {
    pub ty: TypeExpr,
    pub optional: bool,
    pub span: Span,
}

/// A type expression.
#[derive(Debug)]
pub enum TypeExpr {
    Primitive(PrimitiveType),
    Named(String),
    /// `[T]`
    List(Box<TypeAnnotation>),
    /// `Map<K, V>`
    MapOf(Box<TypeAnnotation>, Box<TypeAnnotation>),
    /// `Result<T, E>`
    Result(Box<TypeAnnotation>, Box<TypeAnnotation>),
}

/// A field of a type definition.
#[derive(Debug)]
pub struct FieldDef {
    pub name: Spanned<String>,
    pub ty: TypeAnnotation,
    pub description: Option<String>,
    pub span: Span,
}

/// `type Name { field: Type, ... }`
#[derive(Debug)]
pub struct TypeDef {
    pub name: Spanned<String>,
    pub fields: Vec<FieldDef>,
    pub span: Span,
}

/// `enum Name { Variant, ... }`
#[derive(Debug)]
pub struct EnumDef {
    pub name: Spanned<String>,
    pub variants: Vec<Spanned<String>>,
    pub span: Span,
}

/// A parameter of a function.
#[derive(Debug)]
pub struct ParamDef {
    pub name: Spanned<String>,
    pub ty: TypeAnnotation,
    pub span: Span,
}

/// The body of a function.
#[derive(Debug)]
pub enum FunctionBody {
    Block(Block),
}

/// `def name(params) -> Type { body }`
#[derive(Debug)]
pub struct FunctionDef {
    pub name: Spanned<String>,
    pub params: Vec<ParamDef>,
    pub return_type: Option<TypeAnnotation>,
    pub body: FunctionBody,
    pub span: Span,
}

/// Binary operators.
#[derive(Debug, Clone, Copy, PartialEq, Eq, Structural)]
pub enum BinaryOp {
    Add,
    Sub,
    Mul,
    Div,
    Mod,
    Eq,
    Ne,
    Lt,
    Le,
    Gt,
    Ge,
    And,
    Or,
}

/// Unary operators.
#[derive(Debug, Clone, Copy, PartialEq, Eq, Structural)]
pub enum UnaryOp {
    Neg,
    Not,
}

/// Literal values. A number with a fractional part keeps the text it was
/// written with.
#[derive(Debug, Clone)]
pub enum Literal {
    Int(i64),
    Float(String),
    String(String),
    Bool(bool),
    Null,
}

/// An expression with its span.
#[derive(Debug)]
pub struct Expr {
    pub kind: ExprKind,
    pub span: Span,
}

/// The kinds of expression.
#[derive(Debug)]
pub enum ExprKind {
    Literal(Literal),
    Var(String),
    Binary { left: Box<Expr>, op: BinaryOp, right: Box<Expr> },
    Unary { op: UnaryOp, operand: Box<Expr> },
    Field { object: Box<Expr>, field: String },
    Index { object: Box<Expr>, index: Box<Expr> },
    Call { callee: Box<Expr>, args: Vec<Expr> },
    Grouped(Box<Expr>),
    List(Vec<Expr>),
    Struct { name: String, fields: Vec<StructField> },
    EnumVariant { enum_name: String, variant: String },
    If { condition: Box<Expr>, then_branch: Block, else_branch: Option<IfExprElse> },
}

/// A field of a struct literal.
#[derive(Debug)]
pub struct StructField {
    pub name: String,
    pub value: Expr,
}

/// The `else` part of an `if` expression.
#[derive(Debug)]
pub enum IfExprElse {
    ElseIf(Box<Expr>),
    Else(Block),
}

/// A block: statements and an optional value expression at the end.
#[derive(Debug)]
pub struct Block {
    pub stmts: Vec<Stmt>,
    pub expr: Option<Box<Expr>>,
    pub span: Span,
}

/// A statement with its span.
#[derive(Debug)]
pub struct Stmt {
    pub kind: StmtKind,
    pub span: Span,
}

/// The kinds of statement.
#[derive(Debug)]
pub enum StmtKind {
    Let { name: Spanned<String>, ty: Option<TypeAnnotation>, value: Expr },
    Assign { target: AssignTarget, value: Expr },
    If { condition: Expr, then_branch: Block, else_branch: Option<ElseClause> },
    While { condition: Expr, body: Block },
    For { var: Spanned<String>, iterable: Expr, body: Block },
    Return { value: Option<Expr> },
    Expr { expr: Expr },
}

/// The `else` part of an `if` statement.
#[derive(Debug)]
pub enum ElseClause {
    ElseIf(Box<Stmt>),
    Else(Block),
}

/// The place an assignment writes: a variable and a path of fields and
/// indices.
#[derive(Debug)]
pub struct AssignTarget {
    pub base: Spanned<String>,
    pub accessors: Vec<Accessor>,
    pub span: Span,
}

/// One step of an assignment path.
#[derive(Debug)]
pub enum Accessor {
    Field(String),
    Index(Expr),
}

/// A top-level item.
#[derive(Debug)]
pub enum Item {
    TypeDef(TypeDef),
    EnumDef(EnumDef),
    FunctionDef(FunctionDef),
    Statement(Stmt),
}

/// A whole program.
#[derive(Debug)]
pub struct Program {
    pub items: Vec<Item>,
}

// ---------------------------------------------------------------------------
// The tokens each node is written with
// ---------------------------------------------------------------------------

/// A token kind with its strings taken by their characters.
pub enum KindView {
    Word(Seq<char>),
    Int(i64),
    Float(Seq<char>),
    Str(Seq<char>),
    FStr(Seq<char>),
    Punct(Sym),
}

pub open spec fn kind_view(k: TokenKind) -> KindView {
    match k {
        TokenKind::Word(w) => KindView::Word(w@),
        TokenKind::Int(v) => KindView::Int(v),
        TokenKind::Float(f) => KindView::Float(f@),
        TokenKind::Str(s) => KindView::Str(s@),
        TokenKind::FStr(s) => KindView::FStr(s@),
        TokenKind::Punct(p) => KindView::Punct(p),
    }
}

/// The kinds of a run of tokens.
pub open spec fn toks_view(ts: Seq<Token>) -> Seq<KindView> {
    ts.map_values(|t: Token| kind_view(t.kind))
}

/// The kinds of the tokens `a..b`.
pub open spec fn seg(ts: Seq<Token>, a: int, b: int) -> Seq<KindView> {
    toks_view(ts.subrange(a, b))
}

/// One operator token.
pub open spec fn p(s: Sym) -> Seq<KindView> {
    seq![KindView::Punct(s)]
}

/// One word token.
pub open spec fn w(s: Seq<char>) -> Seq<KindView> {
    seq![KindView::Word(s)]
}

/// The name of a built-in type.
pub open spec fn primitive_name(t: PrimitiveType) -> Seq<char> {
    match t {
        PrimitiveType::String => "String"@,
        PrimitiveType::Int => "Int"@,
        PrimitiveType::Float => "Float"@,
        PrimitiveType::Bool => "Bool"@,
        PrimitiveType::Null => "Null"@,
        PrimitiveType::Path => "Path"@,
    }
}

/// The operator token of a binary operator.
pub open spec fn binary_sym(op: BinaryOp) -> Sym {
    match op {
        BinaryOp::Add => Sym::Plus,
        BinaryOp::Sub => Sym::Minus,
        BinaryOp::Mul => Sym::Star,
        BinaryOp::Div => Sym::Slash,
        BinaryOp::Mod => Sym::Percent,
        BinaryOp::Eq => Sym::EqEq,
        BinaryOp::Ne => Sym::NotEq,
        BinaryOp::Lt => Sym::Lt,
        BinaryOp::Le => Sym::Le,
        BinaryOp::Gt => Sym::Gt,
        BinaryOp::Ge => Sym::Ge,
        BinaryOp::And => Sym::AndAnd,
        BinaryOp::Or => Sym::OrOr,
    }
}

/// The operator token of a unary operator.
pub open spec fn unary_sym(op: UnaryOp) -> Sym {
    match op {
        UnaryOp::Neg => Sym::Minus,
        UnaryOp::Not => Sym::Bang,
    }
}

pub open spec fn literal_kinds(l: Literal) -> Seq<KindView> {
    match l {
        Literal::Int(v) => seq![KindView::Int(v)],
        Literal::Float(f) => seq![KindView::Float(f@)],
        Literal::String(s) => seq![KindView::Str(s@)],
        Literal::Bool(b) => if b { w("true"@) } else { w("false"@) },
        Literal::Null => w("null"@),
    }
}

/// The tokens of a type annotation.
pub open spec fn annotation_kinds(t: TypeAnnotation) -> Seq<KindView>
    decreases t,
{
    type_kinds(t.ty) + if t.optional { p(Sym::Question) } else { Seq::empty() }
}

/// The tokens of a type expression.
pub open spec fn type_kinds(t: TypeExpr) -> Seq<KindView>
    decreases t,
{
    match t {
        TypeExpr::Primitive(pt) => w(primitive_name(pt)),
        TypeExpr::Named(n) => w(n@),
        TypeExpr::List(inner) => p(Sym::LBracket) + annotation_kinds(*inner) + p(Sym::RBracket),
        TypeExpr::MapOf(k, v) => w("Map"@) + p(Sym::Lt) + annotation_kinds(*k) + p(Sym::Comma)
            + annotation_kinds(*v) + p(Sym::Gt),
        TypeExpr::Result(o, e) => w("Result"@) + p(Sym::Lt) + annotation_kinds(*o) + p(Sym::Comma)
            + annotation_kinds(*e) + p(Sym::Gt),
    }
}

/// The tokens of an expression.
pub open spec fn expr_kinds(e: Expr) -> Seq<KindView>
    decreases e,
{
    match e.kind {
        ExprKind::Literal(l) => literal_kinds(l),
        ExprKind::Var(n) => w(n@),
        ExprKind::Binary { left, op, right } => expr_kinds(*left) + p(binary_sym(op)) + expr_kinds(*right),
        ExprKind::Unary { op, operand } => p(unary_sym(op)) + expr_kinds(*operand),
        ExprKind::Field { object, field } => expr_kinds(*object) + p(Sym::Dot) + w(field@),
        ExprKind::Index { object, index } => expr_kinds(*object) + p(Sym::LBracket) + expr_kinds(*index)
            + p(Sym::RBracket),
        ExprKind::Call { callee, args } => expr_kinds(*callee) + p(Sym::LParen) + exprs_kinds(args@)
            + p(Sym::RParen),
        ExprKind::Grouped(inner) => p(Sym::LParen) + expr_kinds(*inner) + p(Sym::RParen),
        ExprKind::List(items) => p(Sym::LBracket) + exprs_kinds(items@) + p(Sym::RBracket),
        ExprKind::Struct { name, fields } => w(name@) + p(Sym::LBrace) + struct_fields_kinds(fields@)
            + p(Sym::RBrace),
        ExprKind::EnumVariant { enum_name, variant } => w(enum_name@) + p(Sym::ColonColon) + w(variant@),
        ExprKind::If { condition, then_branch, else_branch } => w("if"@) + expr_kinds(*condition)
            + block_kinds(then_branch) + (match else_branch {
                None => Seq::empty(),
                Some(IfExprElse::ElseIf(inner)) => w("else"@) + expr_kinds(*inner),
                Some(IfExprElse::Else(b)) => w("else"@) + block_kinds(b),
            }),
    }
}

/// The tokens of expressions separated by commas.
pub open spec fn exprs_kinds(es: Seq<Expr>) -> Seq<KindView>
    decreases es,
{
    if es.len() == 0 {
        Seq::empty()
    } else if es.len() == 1 {
        expr_kinds(es[0])
    } else {
        exprs_kinds(es.subrange(0, es.len() - 1)) + p(Sym::Comma) + expr_kinds(es[es.len() - 1])
    }
}

/// The tokens of one field of a struct literal.
pub open spec fn struct_field_kinds(f: StructField) -> Seq<KindView>
    decreases f,
{
    w(f.name@) + p(Sym::Colon) + expr_kinds(f.value)
}

/// The tokens of struct literal fields separated by commas.
pub open spec fn struct_fields_kinds(fs: Seq<StructField>) -> Seq<KindView>
    decreases fs,
{
    if fs.len() == 0 {
        Seq::empty()
    } else if fs.len() == 1 {
        struct_field_kinds(fs[0])
    } else {
        struct_fields_kinds(fs.subrange(0, fs.len() - 1)) + p(Sym::Comma)
            + struct_field_kinds(fs[fs.len() - 1])
    }
}

/// The tokens of a block.
pub open spec fn block_kinds(b: Block) -> Seq<KindView>
    decreases b,
{
    p(Sym::LBrace) + stmts_kinds(b.stmts@) + (match b.expr {
        None => Seq::empty(),
        Some(e) => expr_kinds(*e),
    }) + p(Sym::RBrace)
}

/// The tokens of statements, one after the other.
pub open spec fn stmts_kinds(ss: Seq<Stmt>) -> Seq<KindView>
    decreases ss,
{
    if ss.len() == 0 {
        Seq::empty()
    } else {
        stmts_kinds(ss.subrange(0, ss.len() - 1)) + stmt_kinds(ss[ss.len() - 1])
    }
}

/// The tokens of a statement.
pub open spec fn stmt_kinds(s: Stmt) -> Seq<KindView>
    decreases s,
{
    match s.kind {
        StmtKind::Let { name, ty, value } => w("let"@) + w(name.node@) + (match ty {
            None => Seq::empty(),
            Some(t) => p(Sym::Colon) + annotation_kinds(t),
        }) + p(Sym::Assign) + expr_kinds(value),
        StmtKind::Assign { target, value } => target_kinds(target) + p(Sym::Assign) + expr_kinds(value),
        StmtKind::If { condition, then_branch, else_branch } => w("if"@) + expr_kinds(condition)
            + block_kinds(then_branch) + (match else_branch {
                None => Seq::empty(),
                Some(ElseClause::ElseIf(inner)) => w("else"@) + stmt_kinds(*inner),
                Some(ElseClause::Else(b)) => w("else"@) + block_kinds(b),
            }),
        StmtKind::While { condition, body } => w("while"@) + expr_kinds(condition) + block_kinds(body),
        StmtKind::For { var, iterable, body } => w("for"@) + w(var.node@) + w("in"@)
            + expr_kinds(iterable) + block_kinds(body),
        StmtKind::Return { value } => w("return"@) + (match value {
            None => Seq::empty(),
            Some(v) => expr_kinds(v),
        }),
        StmtKind::Expr { expr } => expr_kinds(expr),
    }
}

/// The tokens of an assignment target.
pub open spec fn target_kinds(t: AssignTarget) -> Seq<KindView>
    decreases t,
{
    w(t.base.node@) + accessors_kinds(t.accessors@)
}

/// The tokens of one step of an assignment path.
pub open spec fn accessor_kinds(a: Accessor) -> Seq<KindView>
    decreases a,
{
    match a {
        Accessor::Field(f) => p(Sym::Dot) + w(f@),
        Accessor::Index(e) => p(Sym::LBracket) + expr_kinds(e) + p(Sym::RBracket),
    }
}

/// The tokens of an assignment path.
pub open spec fn accessors_kinds(a: Seq<Accessor>) -> Seq<KindView>
    decreases a,
{
    if a.len() == 0 {
        Seq::empty()
    } else {
        accessors_kinds(a.subrange(0, a.len() - 1)) + accessor_kinds(a[a.len() - 1])
    }
}

// ---------------------------------------------------------------------------
// Operator precedence
// ---------------------------------------------------------------------------

/// How tightly a binary operator binds: `||` loosest, then `&&`, equality,
/// comparison, `+ -`, and `* / %` tightest.
pub open spec fn op_level(op: BinaryOp) -> int {
    match op {
        BinaryOp::Or => 1,
        BinaryOp::And => 2,
        BinaryOp::Eq | BinaryOp::Ne => 3,
        BinaryOp::Lt | BinaryOp::Le | BinaryOp::Gt | BinaryOp::Ge => 4,
        BinaryOp::Add | BinaryOp::Sub => 5,
        BinaryOp::Mul | BinaryOp::Div | BinaryOp::Mod => 6,
    }
}

/// The level of an expression's outermost operator: a binary operator's
/// own, 7 for a prefix operator, 8 for a field, index or call, and 9 for
/// everything that needs no operator.
pub open spec fn expr_level(e: Expr) -> int {
    match e.kind {
        ExprKind::Binary { op, .. } => op_level(op),
        ExprKind::Unary { .. } => 7,
        ExprKind::Field { .. } | ExprKind::Index { .. } | ExprKind::Call { .. } => 8,
        _ => 9,
    }
}

/// Every operator in the expression groups as its precedence says: binary
/// operators of one level group to the left, operands of tighter operators
/// are never looser expressions without parentheses.
pub open spec fn expr_wf(e: Expr) -> bool
    decreases e,
{
    match e.kind {
        ExprKind::Binary { left, op, right } => expr_level(*left) >= op_level(op)
            && expr_level(*right) > op_level(op) && expr_wf(*left) && expr_wf(*right),
        ExprKind::Unary { op, operand } => expr_level(*operand) >= 7 && expr_wf(*operand),
        ExprKind::Field { object, field } => expr_level(*object) >= 8 && expr_wf(*object),
        ExprKind::Index { object, index } => expr_level(*object) >= 8 && expr_wf(*object)
            && expr_wf(*index),
        ExprKind::Call { callee, args } => expr_level(*callee) >= 8 && expr_wf(*callee)
            && exprs_wf(args@),
        ExprKind::Grouped(inner) => expr_wf(*inner),
        ExprKind::List(items) => exprs_wf(items@),
        ExprKind::Struct { name, fields } => struct_fields_wf(fields@),
        ExprKind::If { condition, then_branch, else_branch } => expr_wf(*condition)
            && block_wf(then_branch) && (match else_branch {
                None => true,
                Some(IfExprElse::ElseIf(inner)) => expr_wf(*inner),
                Some(IfExprElse::Else(b)) => block_wf(b),
            }),
        _ => true,
    }
}

pub open spec fn exprs_wf(es: Seq<Expr>) -> bool
    decreases es,
{
    if es.len() == 0 {
        true
    } else {
        exprs_wf(es.subrange(0, es.len() - 1)) && expr_wf(es[es.len() - 1])
    }
}

pub open spec fn struct_fields_wf(fs: Seq<StructField>) -> bool
    decreases fs,
{
    if fs.len() == 0 {
        true
    } else {
        struct_fields_wf(fs.subrange(0, fs.len() - 1)) && expr_wf(fs[fs.len() - 1].value)
    }
}

pub open spec fn block_wf(b: Block) -> bool
    decreases b,
{
    stmts_wf(b.stmts@) && (match b.expr {
        None => true,
        Some(e) => expr_wf(*e),
    })
}

pub open spec fn stmts_wf(ss: Seq<Stmt>) -> bool
    decreases ss,
{
    if ss.len() == 0 {
        true
    } else {
        stmts_wf(ss.subrange(0, ss.len() - 1)) && stmt_wf(ss[ss.len() - 1])
    }
}

pub open spec fn stmt_wf(s: Stmt) -> bool
    decreases s,
{
    match s.kind {
        StmtKind::Let { name, ty, value } => expr_wf(value),
        StmtKind::Assign { target, value } => accessors_wf(target.accessors@) && expr_wf(value),
        StmtKind::If { condition, then_branch, else_branch } => expr_wf(condition)
            && block_wf(then_branch) && (match else_branch {
                None => true,
                Some(ElseClause::ElseIf(inner)) => stmt_wf(*inner),
                Some(ElseClause::Else(b)) => block_wf(b),
            }),
        StmtKind::While { condition, body } => expr_wf(condition) && block_wf(body),
        StmtKind::For { var, iterable, body } => expr_wf(iterable) && block_wf(body),
        StmtKind::Return { value } => match value {
            None => true,
            Some(v) => expr_wf(v),
        },
        StmtKind::Expr { expr } => expr_wf(expr),
    }
}

pub open spec fn accessors_wf(a: Seq<Accessor>) -> bool
    decreases a,
{
    if a.len() == 0 {
        true
    } else {
        accessors_wf(a.subrange(0, a.len() - 1)) && match a[a.len() - 1] {
            Accessor::Field(f) => true,
            Accessor::Index(e) => expr_wf(e),
        }
    }
}

// ---------------------------------------------------------------------------
// Definitions and programs
// ---------------------------------------------------------------------------

/// The tokens of a field definition: name, type and an optional
/// description string.
pub open spec fn field_def_kinds(f: FieldDef) -> Seq<KindView> {
    w(f.name.node@) + p(Sym::Colon) + annotation_kinds(f.ty) + match f.description {
        None => Seq::empty(),
        Some(d) => seq![KindView::Str(d@)],
    }
}

pub open spec fn field_defs_kinds(fs: Seq<FieldDef>) -> Seq<KindView>
    decreases fs.len(),
{
    if fs.len() == 0 {
        Seq::empty()
    } else if fs.len() == 1 {
        field_def_kinds(fs[0])
    } else {
        field_defs_kinds(fs.subrange(0, fs.len() - 1)) + p(Sym::Comma) + field_def_kinds(fs[fs.len() - 1])
    }
}

pub open spec fn variants_kinds(vs: Seq<Spanned<String>>) -> Seq<KindView>
    decreases vs.len(),
{
    if vs.len() == 0 {
        Seq::empty()
    } else if vs.len() == 1 {
        w(vs[0].node@)
    } else {
        variants_kinds(vs.subrange(0, vs.len() - 1)) + p(Sym::Comma) + w(vs[vs.len() - 1].node@)
    }
}

pub open spec fn param_kinds(pd: ParamDef) -> Seq<KindView> {
    w(pd.name.node@) + p(Sym::Colon) + annotation_kinds(pd.ty)
}

pub open spec fn params_kinds(ps: Seq<ParamDef>) -> Seq<KindView>
    decreases ps.len(),
{
    if ps.len() == 0 {
        Seq::empty()
    } else if ps.len() == 1 {
        param_kinds(ps[0])
    } else {
        params_kinds(ps.subrange(0, ps.len() - 1)) + p(Sym::Comma) + param_kinds(ps[ps.len() - 1])
    }
}

/// The tokens of a top-level item.
pub open spec fn item_kinds(i: Item) -> Seq<KindView> {
    match i {
        Item::TypeDef(t) => w("type"@) + w(t.name.node@) + p(Sym::LBrace) + field_defs_kinds(t.fields@)
            + p(Sym::RBrace),
        Item::EnumDef(e) => w("enum"@) + w(e.name.node@) + p(Sym::LBrace) + variants_kinds(e.variants@)
            + p(Sym::RBrace),
        Item::FunctionDef(f) => w("def"@) + w(f.name.node@) + p(Sym::LParen) + params_kinds(f.params@)
            + p(Sym::RParen) + (match f.return_type {
                None => Seq::empty(),
                Some(t) => p(Sym::Arrow) + annotation_kinds(t),
            }) + (match f.body {
                FunctionBody::Block(b) => block_kinds(b),
            }),
        Item::Statement(s) => stmt_kinds(s),
    }
}

/// Every expression in the item groups as precedence says.
pub open spec fn item_wf(i: Item) -> bool {
    match i {
        Item::FunctionDef(f) => match f.body {
            FunctionBody::Block(b) => block_wf(b),
        },
        Item::Statement(s) => stmt_wf(s),
        _ => true,
    }
}

pub open spec fn items_kinds(is: Seq<Item>) -> Seq<KindView>
    decreases is.len(),
{
    if is.len() == 0 {
        Seq::empty()
    } else {
        items_kinds(is.subrange(0, is.len() - 1)) + item_kinds(is[is.len() - 1])
    }
}

pub open spec fn items_wf(is: Seq<Item>) -> bool {
    forall|i: int| 0 <= i < is.len() ==> item_wf(#[trigger] is[i])
}

/// The tokens of a program.
pub open spec fn program_kinds(prog: Program) -> Seq<KindView> {
    items_kinds(prog.items@)
}

// ---------------------------------------------------------------------------
// Where each node is written
// ---------------------------------------------------------------------------

/// The span of the tokens `a..b`: from where the first starts (with its
/// line and column) to where the last ends.
pub open spec fn run_span(ts: Seq<Token>, a: int, b: int) -> Span {
    Span { start: ts[a].span.start, end: ts[b - 1].span.end, line: ts[a].span.line, column: ts[a].span.column }
}

/// The annotation `t`, written from token `a` on, and every annotation in
/// it carry the spans of the tokens they are written with.
pub open spec fn annotation_spans(ts: Seq<Token>, a: int, t: TypeAnnotation) -> bool
    decreases t,
{
    &&& t.span == run_span(ts, a, a + annotation_kinds(t).len())
    &&& type_spans(ts, a, t.ty)
}

/// The annotations inside the type `t`, written from token `a` on, carry
/// the spans of their tokens.
pub open spec fn type_spans(ts: Seq<Token>, a: int, t: TypeExpr) -> bool
    decreases t,
{
    match t {
        TypeExpr::List(inner) => annotation_spans(ts, a + 1, *inner),
        TypeExpr::MapOf(k, v) => annotation_spans(ts, a + 2, *k)
            && annotation_spans(ts, a + 3 + annotation_kinds(*k).len(), *v),
        TypeExpr::Result(o, e) => annotation_spans(ts, a + 2, *o)
            && annotation_spans(ts, a + 3 + annotation_kinds(*o).len(), *e),
        _ => true,
    }
}

/// The expression `e`, written from token `a` on, and every node in it
/// carry the spans of the tokens they are written with.
pub open spec fn expr_spans(ts: Seq<Token>, a: int, e: Expr) -> bool
    decreases e,
{
    &&& e.span == run_span(ts, a, a + expr_kinds(e).len())
    &&& match e.kind {
        ExprKind::Binary { left, op, right } => expr_spans(ts, a, *left)
            && expr_spans(ts, a + expr_kinds(*left).len() + 1, *right),
        ExprKind::Unary { op, operand } => expr_spans(ts, a + 1, *operand),
        ExprKind::Field { object, field } => expr_spans(ts, a, *object),
        ExprKind::Index { object, index } => expr_spans(ts, a, *object)
            && expr_spans(ts, a + expr_kinds(*object).len() + 1, *index),
        ExprKind::Call { callee, args } => expr_spans(ts, a, *callee)
            && exprs_spans(ts, a + expr_kinds(*callee).len() + 1, args@),
        ExprKind::Grouped(inner) => expr_spans(ts, a + 1, *inner),
        ExprKind::List(items) => exprs_spans(ts, a + 1, items@),
        ExprKind::Struct { name, fields } => struct_fields_spans(ts, a + 2, fields@),
        ExprKind::If { condition, then_branch, else_branch } => {
            let t = a + 1 + expr_kinds(*condition).len();
            let x = t + block_kinds(then_branch).len() + 1;
            &&& expr_spans(ts, a + 1, *condition)
            &&& block_spans(ts, t, then_branch)
            &&& match else_branch {
                None => true,
                Some(IfExprElse::ElseIf(inner)) => expr_spans(ts, x, *inner),
                Some(IfExprElse::Else(b)) => block_spans(ts, x, b),
            }
        },
        _ => true,
    }
}

/// Expressions separated by commas, from token `a` on, carry the spans of
/// their tokens.
pub open spec fn exprs_spans(ts: Seq<Token>, a: int, es: Seq<Expr>) -> bool
    decreases es,
{
    if es.len() == 0 {
        true
    } else if es.len() == 1 {
        expr_spans(ts, a, es[0])
    } else {
        let init = es.subrange(0, es.len() - 1);
        exprs_spans(ts, a, init) && expr_spans(ts, a + exprs_kinds(init).len() + 1, es[es.len() - 1])
    }
}

/// The value of a struct literal field written from token `a` on carries
/// the spans of its tokens.
pub open spec fn struct_field_spans(ts: Seq<Token>, a: int, f: StructField) -> bool
    decreases f,
{
    expr_spans(ts, a + 2, f.value)
}

/// Struct literal fields separated by commas, from token `a` on, carry the
/// spans of their tokens.
pub open spec fn struct_fields_spans(ts: Seq<Token>, a: int, fs: Seq<StructField>) -> bool
    decreases fs,
{
    if fs.len() == 0 {
        true
    } else if fs.len() == 1 {
        struct_field_spans(ts, a, fs[0])
    } else {
        let init = fs.subrange(0, fs.len() - 1);
        struct_fields_spans(ts, a, init)
            && struct_field_spans(ts, a + struct_fields_kinds(init).len() + 1, fs[fs.len() - 1])
    }
}

/// The block `b`, written from token `a` on, and every node in it carry
/// the spans of their tokens.
pub open spec fn block_spans(ts: Seq<Token>, a: int, b: Block) -> bool
    decreases b,
{
    &&& b.span == run_span(ts, a, a + block_kinds(b).len())
    &&& stmts_spans(ts, a + 1, b.stmts@)
    &&& match b.expr {
        None => true,
        Some(e) => expr_spans(ts, a + 1 + stmts_kinds(b.stmts@).len(), *e),
    }
}

/// Statements one after the other, from token `a` on, carry the spans of
/// their tokens.
pub open spec fn stmts_spans(ts: Seq<Token>, a: int, ss: Seq<Stmt>) -> bool
    decreases ss,
{
    if ss.len() == 0 {
        true
    } else {
        let init = ss.subrange(0, ss.len() - 1);
        stmts_spans(ts, a, init) && stmt_spans(ts, a + stmts_kinds(init).len(), ss[ss.len() - 1])
    }
}

/// The statement `s`, written from token `a` on, and every node in it
/// carry the spans of their tokens.
pub open spec fn stmt_spans(ts: Seq<Token>, a: int, s: Stmt) -> bool
    decreases s,
{
    &&& s.span == run_span(ts, a, a + stmt_kinds(s).len())
    &&& match s.kind {
        StmtKind::Let { name, ty, value } => name.span == ts[a + 1].span && match ty {
            None => expr_spans(ts, a + 3, value),
            Some(t) => annotation_spans(ts, a + 3, t) && expr_spans(ts, a + 4 + annotation_kinds(t).len(), value),
        },
        StmtKind::Assign { target, value } => target_spans(ts, a, target)
            && expr_spans(ts, a + target_kinds(target).len() + 1, value),
        StmtKind::If { condition, then_branch, else_branch } => {
            let t = a + 1 + expr_kinds(condition).len();
            let x = t + block_kinds(then_branch).len() + 1;
            &&& expr_spans(ts, a + 1, condition)
            &&& block_spans(ts, t, then_branch)
            &&& match else_branch {
                None => true,
                Some(ElseClause::ElseIf(inner)) => stmt_spans(ts, x, *inner),
                Some(ElseClause::Else(b)) => block_spans(ts, x, b),
            }
        },
        StmtKind::While { condition, body } => expr_spans(ts, a + 1, condition)
            && block_spans(ts, a + 1 + expr_kinds(condition).len(), body),
        StmtKind::For { var, iterable, body } => var.span == ts[a + 1].span && expr_spans(ts, a + 3, iterable)
            && block_spans(ts, a + 3 + expr_kinds(iterable).len(), body),
        StmtKind::Return { value } => match value {
            None => true,
            Some(v) => expr_spans(ts, a + 1, v),
        },
        StmtKind::Expr { expr } => expr_spans(ts, a, expr),
    }
}

/// The assignment target `t`, written from token `a` on, carries the spans
/// of its tokens.
pub open spec fn target_spans(ts: Seq<Token>, a: int, t: AssignTarget) -> bool
    decreases t,
{
    &&& t.span == run_span(ts, a, a + target_kinds(t).len())
    &&& t.base.span == ts[a].span
    &&& accessors_spans(ts, a + 1, t.accessors@)
}

/// An index in an assignment path, written from token `a` on, carries the
/// spans of its tokens.
pub open spec fn accessor_spans(ts: Seq<Token>, a: int, x: Accessor) -> bool
    decreases x,
{
    match x {
        Accessor::Field(_) => true,
        Accessor::Index(e) => expr_spans(ts, a + 1, e),
    }
}

/// The steps of an assignment path, from token `a` on, carry the spans of
/// their tokens.
pub open spec fn accessors_spans(ts: Seq<Token>, a: int, xs: Seq<Accessor>) -> bool
    decreases xs,
{
    if xs.len() == 0 {
        true
    } else {
        let init = xs.subrange(0, xs.len() - 1);
        accessors_spans(ts, a, init) && accessor_spans(ts, a + accessors_kinds(init).len(), xs[xs.len() - 1])
    }
}

/// A field definition written from token `a` on carries the spans of its
/// tokens.
pub open spec fn field_def_spans(ts: Seq<Token>, a: int, f: FieldDef) -> bool {
    &&& f.span == run_span(ts, a, a + field_def_kinds(f).len())
    &&& f.name.span == ts[a].span
    &&& annotation_spans(ts, a + 2, f.ty)
}

/// Field definitions separated by commas, from token `a` on, carry the
/// spans of their tokens.
pub open spec fn field_defs_spans(ts: Seq<Token>, a: int, fs: Seq<FieldDef>) -> bool
    decreases fs.len(),
{
    if fs.len() == 0 {
        true
    } else if fs.len() == 1 {
        field_def_spans(ts, a, fs[0])
    } else {
        let init = fs.subrange(0, fs.len() - 1);
        field_defs_spans(ts, a, init) && field_def_spans(ts, a + field_defs_kinds(init).len() + 1, fs[fs.len() - 1])
    }
}

/// Variant names separated by commas, from token `a` on, carry the spans
/// of their tokens.
pub open spec fn variants_spans(ts: Seq<Token>, a: int, vs: Seq<Spanned<String>>) -> bool
    decreases vs.len(),
{
    if vs.len() == 0 {
        true
    } else if vs.len() == 1 {
        vs[0].span == ts[a].span
    } else {
        let init = vs.subrange(0, vs.len() - 1);
        variants_spans(ts, a, init) && vs[vs.len() - 1].span == ts[a + variants_kinds(init).len() + 1].span
    }
}

/// A parameter written from token `a` on carries the spans of its tokens.
pub open spec fn param_spans(ts: Seq<Token>, a: int, d: ParamDef) -> bool {
    &&& d.span == run_span(ts, a, a + param_kinds(d).len())
    &&& d.name.span == ts[a].span
    &&& annotation_spans(ts, a + 2, d.ty)
}

/// Parameters separated by commas, from token `a` on, carry the spans of
/// their tokens.
pub open spec fn params_spans(ts: Seq<Token>, a: int, ps: Seq<ParamDef>) -> bool
    decreases ps.len(),
{
    if ps.len() == 0 {
        true
    } else if ps.len() == 1 {
        param_spans(ts, a, ps[0])
    } else {
        let init = ps.subrange(0, ps.len() - 1);
        params_spans(ts, a, init) && param_spans(ts, a + params_kinds(init).len() + 1, ps[ps.len() - 1])
    }
}

/// The item `i`, written from token `a` on, and every node in it carry the
/// spans of their tokens.
pub open spec fn item_spans(ts: Seq<Token>, a: int, i: Item) -> bool {
    let b = a + item_kinds(i).len();
    match i {
        Item::TypeDef(t) => t.span == run_span(ts, a, b) && t.name.span == ts[a + 1].span
            && field_defs_spans(ts, a + 3, t.fields@),
        Item::EnumDef(e) => e.span == run_span(ts, a, b) && e.name.span == ts[a + 1].span
            && variants_spans(ts, a + 3, e.variants@),
        Item::FunctionDef(f) => {
            let r = a + 4 + params_kinds(f.params@).len();
            &&& f.span == run_span(ts, a, b)
            &&& f.name.span == ts[a + 1].span
            &&& params_spans(ts, a + 3, f.params@)
            &&& match f.body {
                FunctionBody::Block(body) => match f.return_type {
                    None => block_spans(ts, r, body),
                    Some(t) => annotation_spans(ts, r + 1, t)
                        && block_spans(ts, r + 1 + annotation_kinds(t).len(), body),
                },
            }
        },
        Item::Statement(s) => stmt_spans(ts, a, s),
    }
}

/// Items one after the other, from token `a` on, carry the spans of their
/// tokens.
pub open spec fn items_spans(ts: Seq<Token>, a: int, is: Seq<Item>) -> bool
    decreases is.len(),
{
    if is.len() == 0 {
        true
    } else {
        let init = is.subrange(0, is.len() - 1);
        items_spans(ts, a, init) && item_spans(ts, a + items_kinds(init).len(), is[is.len() - 1])
    }
}

} // verus!
