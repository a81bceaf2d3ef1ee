//! The syntax tree the rewriting visitor walks: a closed sum type over the
//! node kinds the traversal distinguishes, so that adding a kind is a
//! compile-time obligation on the traversal engine.
//!
//! Nodes carry their span in the flat offset space and the small amount of
//! structured data the per-kind rendering rules consume. Parsing source text
//! into this tree is the front end's job, not this crate's.

use crate::codemap::Span;
use vstd::prelude::*;

verus! {

/// The payload of an attribute.
pub enum MetaItem {
    /// A bare word, e.g. the formatting-suppression marker.
    Word(String),
    /// Any other shape (lists, name-value pairs).
    Other,
}

/// An attribute preceding an item, with its source span.
pub struct Attribute {
    pub span: Span,
    pub meta: MetaItem,
}

/// Item visibility, as far as rendering needs it.
#[derive(Clone, Copy, PartialEq, Eq, Structural)]
pub enum Visibility {
    Public,
    Inherited,
}

/// One formal parameter: its name and the text of its type.
pub struct Param {
    pub name: String,
    pub ty: String,
}

/// A function declaration: parameters and optional return type text.
pub struct FnDecl {
    pub params: Vec<Param>,
    pub ret: Option<String>,
}

/// What kind of function a body belongs to.
pub enum FnKind {
    /// A free function: name and visibility.
    ItemFn(String, Visibility),
    /// A method: name, the explicit self parameter's text if any, and the
    /// visibility when the impl records one.
    Method(String, Option<String>, Option<Visibility>),
}

/// A macro invocation: no rewriting rule is defined for it, so visiting one
/// leaves all its text to gap flushing.
pub struct Mac {
    pub span: Span,
}

/// An expression. Only kinds with a dedicated rendering rule are structured;
/// everything else stays in the source and is flushed as gap text.
pub struct Expr {
    pub span: Span,
    pub kind: ExprKind,
}

pub enum ExprKind {
    /// A path or literal, kept as its text.
    Path(String),
    /// A binary operation: operator text, left and right operands.
    Binary(String, Box<Expr>, Box<Expr>),
}

/// A statement inside a block.
pub struct Stmt {
    pub span: Span,
    pub kind: StmtKind,
}

pub enum StmtKind {
    /// An item declaration; its own visit handles the leading gap and
    /// attributes, so the statement-level gap flush is skipped for it.
    Decl(Box<Item>),
    /// An expression without trailing semicolon.
    Expr(Expr),
    /// An expression statement with trailing semicolon.
    Semi(Expr),
}

/// A block `{ ... }` with its statements and optional trailing expression.
pub struct Block {
    pub span: Span,
    pub stmts: Vec<Stmt>,
    pub expr: Option<Expr>,
}

/// A trait body's children.
pub struct TraitBody {
    pub items: Vec<TraitItem>,
}

/// An impl body's children.
pub struct ImplBody {
    pub items: Vec<ImplItem>,
}

/// A module body: the span of its inside and its items.
pub struct ModBody {
    pub inner: Span,
    pub items: Vec<Item>,
}

/// An item of a trait body.
pub struct TraitItem {
    pub span: Span,
    pub ident: String,
    pub attrs: Vec<Attribute>,
    pub kind: TraitItemKind,
}

pub enum TraitItemKind {
    /// A required method: a signature with no body.
    Required(FnDecl),
    /// Anything else: left to gap flushing.
    Other,
}

/// An item of an impl body.
pub struct ImplItem {
    pub span: Span,
    pub ident: String,
    pub attrs: Vec<Attribute>,
    pub kind: ImplItemKind,
}

pub enum ImplItemKind {
    /// A method with a body: its explicit self text, declaration and block.
    Method(Option<String>, FnDecl, Block),
    /// Anything else: left to gap flushing.
    Other,
}

/// A top-level or nested item.
pub struct Item {
    pub span: Span,
    pub ident: String,
    pub vis: Visibility,
    pub attrs: Vec<Attribute>,
    pub kind: ItemKind,
}

pub enum ItemKind {
    /// A function definition: declaration and body block.
    Fn(FnDecl, Block),
    /// A list-form `use` import: the path prefix text and the list entries.
    UseList(String, Vec<String>),
    /// A glob or single-path import: left untouched pending a dedicated rule.
    UseOther,
    /// `extern crate ...;`: copied verbatim, no reformatting rule defined.
    ExternCrate,
    /// A struct definition. The dedicated struct rule (identifier,
    /// visibility, fields, generics) is not yet modelled, so the item is
    /// copied verbatim — a deliberate scope gap, like wrapping budgets.
    Struct,
    /// A module with an inline or cross-file body.
    Mod(ModBody),
    /// A trait body: indent in, visit children, indent out.
    Trait(TraitBody),
    /// An impl body: indent in, visit children, indent out.
    Impl(ImplBody),
    /// Any other item kind: left to gap flushing.
    Other,
}

} // verus!
