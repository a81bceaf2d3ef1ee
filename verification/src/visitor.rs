//! The rewriting visitor: walks the syntax tree in source order, flushes the
//! original text between visited nodes, renders each node either freshly or
//! verbatim, and advances its write cursor, so that no source byte is dropped
//! or written twice.
//!
//! The two bookkeeping invariants of the traversal are carried by every visit
//! contract: the write cursor never moves backwards, and the indent level
//! returns to its prior value when a nested scope is left. Each visit also
//! owes success: a consistency predicate (spans ahead of the cursor and
//! ordered, every written position owned by a file) under which the visit is
//! proved to return `Ok` with the cursor at the node's computed end and the
//! buffers equal to a spec-level emission of the node (`stmt_out`,
//! `block_out`, `item_out`, ...), so the emitted text of every visit —
//! which gap is flushed, what is rendered, in what order, and nothing else —
//! is pinned exactly. An `UnknownFile` abort can arise only from a genuine
//! tree/source desync; a missing snippet degrades to empty text instead.

use crate::ast::{
    Attribute, Block, Expr, FnDecl, FnKind, ImplBody, ImplItem, ImplItemKind, Item, ItemKind, Mac,
    MetaItem, ModBody, Stmt, StmtKind, TraitBody, TraitItem, TraitItemKind, Visibility,
};
use crate::changes::ChangeSet;
use crate::codemap::{snippet_text, span_wf, BytePos, CodeMap, Span};
use crate::config::{skip_annotation, skip_annotation_spec, Config};
use crate::rewrite::{
    expr_text, fn_sig_text, make_indent, missing_with_indent_str, missing_with_indent_text,
    required_fn_text, rewrite_attrs_text,
    rewrite_expr, rewrite_fn, rewrite_required_fn, rewrite_use_list, spaces, starts_slashes,
    starts_slashes_str, trim_str, trim_ws, use_list_text,
};
use crate::FmtError;
use vstd::prelude::*;
use vstd::string::StrSliceExecFns;
use vstd::string::StringExecFns;

verus! {

broadcast use vstd::std_specs::vec::group_vec_axioms, vstd::seq::axiom_seq_index_decreases;

/// `texts` with `piece` appended to entry `i`.
pub open spec fn append_at(texts: Seq<Seq<char>>, i: int, piece: Seq<char>) -> Seq<Seq<char>> {
    texts.update(i, texts[i] + piece)
}

/// Does every buffer of `b` extend the corresponding buffer of `a`? The
/// traversal only ever appends.
pub open spec fn texts_grow(a: Seq<Seq<char>>, b: Seq<Seq<char>>) -> bool {
    a.len() == b.len() && forall|i: int| 0 <= i < a.len() ==> (#[trigger] a[i]).is_prefix_of(b[i])
}

pub proof fn lemma_grow_refl(a: Seq<Seq<char>>)
    ensures
        texts_grow(a, a),
{
    assert forall|i: int| 0 <= i < a.len() implies (#[trigger] a[i]).is_prefix_of(a[i]) by {
        assert(a[i].subrange(0, a[i].len() as int) =~= a[i]);
    }
}

pub proof fn lemma_grow_trans(a: Seq<Seq<char>>, b: Seq<Seq<char>>, c: Seq<Seq<char>>)
    requires
        texts_grow(a, b),
        texts_grow(b, c),
    ensures
        texts_grow(a, c),
{
    assert forall|i: int| 0 <= i < a.len() implies (#[trigger] a[i]).is_prefix_of(c[i]) by {
        assert(a[i].is_prefix_of(b[i]));
        assert(b[i].is_prefix_of(c[i]));
        assert(a[i] =~= b[i].subrange(0, a[i].len() as int));
        assert(a[i] =~= c[i].subrange(0, a[i].len() as int));
    }
}

pub proof fn lemma_grow_append(a: Seq<Seq<char>>, i: int, piece: Seq<char>)
    requires
        0 <= i < a.len(),
    ensures
        texts_grow(a, append_at(a, i, piece)),
{
    let b = append_at(a, i, piece);
    assert forall|j: int| 0 <= j < a.len() implies (#[trigger] a[j]).is_prefix_of(b[j]) by {
        assert(a[j] =~= b[j].subrange(0, a[j].len() as int));
    }
}

/// After an append addressed by span (or a failed one), buffers only grew.
pub proof fn lemma_grow_after_push(
    pre: Seq<Seq<char>>,
    post: Seq<Seq<char>>,
    spans: Seq<(u32, u32)>,
    p: int,
    piece: Seq<char>,
)
    requires
        pre.len() == spans.len(),
        (crate::changes::span_table_has(spans, p) && post == append_at(
            pre,
            crate::changes::span_table_idx(spans, p),
            piece,
        )) || post == pre,
    ensures
        texts_grow(pre, post),
{
    if post == pre {
        lemma_grow_refl(pre);
    } else {
        let i = crate::changes::span_table_idx(spans, p);
        assert(0 <= i < spans.len());
        lemma_grow_append(pre, i, piece);
    }
}

/// A change whose names and file table are untouched still mirrors the map.
pub proof fn lemma_matches_preserved(o: ChangeSet, n: ChangeSet, cm: CodeMap)
    requires
        o.matches_codemap(cm),
        n.names() == o.names(),
        n.file_spans@ == o.file_spans@,
        n.file_map@.len() == o.file_map@.len(),
    ensures
        n.matches_codemap(cm),
{
    assert forall|i: int| 0 <= i < n.n() implies (#[trigger] n.file_map@[i].name@)
        == cm.files@[i].name@ by {
        assert(n.names()[i] == o.names()[i]);
    }
}

/// Is this attribute the suppression marker?
pub open spec fn attr_is_skip(meta: MetaItem) -> bool {
    match meta {
        MetaItem::Word(s) => s@ == skip_annotation_spec(),
        MetaItem::Other => false,
    }
}

/// Does any attribute of the list carry the suppression marker?
pub open spec fn attrs_have_skip(attrs: Seq<Attribute>) -> bool {
    exists|k: int| 0 <= k < attrs.len() && attr_is_skip(#[trigger] attrs[k].meta)
}

/// Is the meta item the suppression marker?
pub fn is_skip(meta_item: &MetaItem) -> (r: bool)
    ensures
        r == attr_is_skip(*meta_item),
{
    match meta_item {
        MetaItem::Word(s) => {
            let key = String::from_str(skip_annotation());
            *s == key
        },
        MetaItem::Other => false,
    }
}

/// The name a function kind renders under.
pub open spec fn fk_ident(fk: FnKind) -> Seq<char> {
    match fk {
        FnKind::ItemFn(ident, _) => ident@,
        FnKind::Method(ident, _, _) => ident@,
    }
}

/// The visibility a function kind renders with: a method without a recorded
/// visibility renders as inherited.
pub open spec fn fk_vis(fk: FnKind) -> Visibility {
    match fk {
        FnKind::ItemFn(_, vis) => vis,
        FnKind::Method(_, _, vis) => match vis {
            Some(v) => v,
            None => Visibility::Inherited,
        },
    }
}

/// The explicit self parameter a function kind renders with.
pub open spec fn fk_eself(fk: FnKind) -> Option<String> {
    match fk {
        FnKind::ItemFn(_, _) => None,
        FnKind::Method(_, eself, _) => eself,
    }
}

/// Under a change set that mirrors the map, a position has a buffer range
/// exactly when some file owns it.
pub proof fn lemma_pos_owner(ch: ChangeSet, cm: CodeMap, p: int)
    requires
        ch.wf(),
        ch.matches_codemap(cm),
    ensures
        ch.has_pos(p) <==> cm.has_owner(p),
{
    if ch.has_pos(p) {
        let i = ch.pos_idx(p);
        assert(crate::codemap::contains_pos(cm.files@[i], p));
    }
    if cm.has_owner(p) {
        let i = cm.owner_of(p);
        assert((ch.file_spans@[i]).0 <= p < ch.file_spans@[i].1);
        assert(crate::changes::span_table_has(ch.file_spans@, p));
    }
}

/// Does the expression visit succeed from cursor `pos`: the span is ahead of
/// the cursor and ordered, and both the cursor and the span's start are owned
/// by some file.
pub open spec fn expr_ok(cm: CodeMap, pos: int, e: Expr) -> bool {
    &&& pos <= e.span.lo
    &&& e.span.lo <= e.span.hi
    &&& cm.has_owner(pos)
    &&& cm.has_owner(e.span.lo as int)
}

/// Does the attribute-list visit succeed from cursor `pos` (given the cursor
/// is at or before the first attribute): the list is ordered, the cursor is
/// owned, and — unless the list suppresses the item — so is the write
/// position of the rendered attributes.
pub open spec fn attrs_ok(cm: CodeMap, pos: int, attrs: Seq<Attribute>) -> bool {
    attrs.len() == 0 || (attrs[0].span.lo <= attrs[attrs.len() - 1].span.hi && cm.has_owner(pos)
        && (attrs_have_skip(attrs) || cm.has_owner(attrs[0].span.lo as int)))
}

/// Where the cursor stands after an attribute list is handled from `pos`:
/// parked at the first attribute when the list suppresses its item, past the
/// last attribute otherwise, unmoved when there are none.
pub open spec fn attrs_end_at(pos: int, attrs: Seq<Attribute>) -> int {
    if attrs.len() == 0 {
        pos
    } else if attrs_have_skip(attrs) {
        attrs[0].span.lo as int
    } else {
        attrs[attrs.len() - 1].span.hi as int
    }
}

/// Where the cursor stands after a statement visited from `pos`.
pub open spec fn stmt_end(cm: CodeMap, pos: int, s: Stmt) -> int
    decreases s, 0int, 0int,
{
    match s.kind {
        StmtKind::Decl(it) => item_end(cm, pos, *it),
        StmtKind::Expr(e) => e.span.hi as int,
        StmtKind::Semi(e) => e.span.hi as int,
    }
}

/// Where the cursor stands after the first `k` statements, visited in order.
pub open spec fn stmts_end(cm: CodeMap, pos: int, ss: Seq<Stmt>, k: int) -> int
    decreases ss, 1int, k,
{
    if k <= 0 || k > ss.len() {
        pos
    } else {
        stmt_end(cm, stmts_end(cm, pos, ss, k - 1), ss[k - 1])
    }
}

/// Where the cursor stands after the first `k` items, visited in order.
pub open spec fn items_end(cm: CodeMap, pos: int, its: Seq<Item>, k: int) -> int
    decreases its, 1int, k,
{
    if k <= 0 || k > its.len() {
        pos
    } else {
        item_end(cm, items_end(cm, pos, its, k - 1), its[k - 1])
    }
}

/// Where the cursor stands after a trait item visited from `pos`.
pub open spec fn trait_item_end(pos: int, ti: TraitItem) -> int {
    if ti.attrs@.len() > 0 && attrs_have_skip(ti.attrs@) {
        ti.attrs@[0].span.lo as int
    } else {
        match ti.kind {
            TraitItemKind::Required(_) => ti.span.hi as int,
            TraitItemKind::Other => attrs_end_at(pos, ti.attrs@),
        }
    }
}

/// Where the cursor stands after the first `k` trait items.
pub open spec fn tis_end(pos: int, tis: Seq<TraitItem>, k: int) -> int
    decreases k,
{
    if k <= 0 || k > tis.len() {
        pos
    } else {
        trait_item_end(tis_end(pos, tis, k - 1), tis[k - 1])
    }
}

/// Where the cursor stands after an impl item visited from `pos`.
pub open spec fn impl_item_end(pos: int, ii: ImplItem) -> int {
    if ii.attrs@.len() > 0 && attrs_have_skip(ii.attrs@) {
        ii.attrs@[0].span.lo as int
    } else {
        match ii.kind {
            ImplItemKind::Method(_, _, b) => b.span.hi as int,
            ImplItemKind::Other => attrs_end_at(pos, ii.attrs@),
        }
    }
}

/// Where the cursor stands after the first `k` impl items.
pub open spec fn iis_end(pos: int, iis: Seq<ImplItem>, k: int) -> int
    decreases k,
{
    if k <= 0 || k > iis.len() {
        pos
    } else {
        impl_item_end(iis_end(pos, iis, k - 1), iis[k - 1])
    }
}

/// Where the cursor stands after a module body declared at `s`, visited from
/// `pos`: past its children when the body lives in the same file, unmoved
/// otherwise.
pub open spec fn mod_end(cm: CodeMap, pos: int, m: ModBody, s: Span) -> int
    decreases m, 2int, 0int,
{
    if cm.has_owner(s.lo as int) && cm.has_owner(m.inner.lo as int) && cm.owner_of(s.lo as int)
        == cm.owner_of(m.inner.lo as int) {
        items_end(cm, pos, m.items@, m.items@.len() as int)
    } else {
        pos
    }
}

/// Where the cursor stands after an item visited from `pos`.
pub open spec fn item_end(cm: CodeMap, pos: int, it: Item) -> int
    decreases it, 0int, 0int,
{
    if it.attrs@.len() > 0 && attrs_have_skip(it.attrs@) {
        it.attrs@[0].span.lo as int
    } else {
        let p0 = attrs_end_at(pos, it.attrs@);
        match it.kind {
            ItemKind::Fn(_, b) => b.span.hi as int,
            ItemKind::UseList(_, _) => it.span.hi as int,
            ItemKind::UseOther => p0,
            ItemKind::ExternCrate => it.span.hi as int,
            ItemKind::Struct => it.span.hi as int,
            ItemKind::Mod(m) => mod_end(cm, p0, m, it.span),
            ItemKind::Trait(tb) => tis_end(p0, tb.items@, tb.items@.len() as int),
            ItemKind::Impl(ib) => iis_end(p0, ib.items@, ib.items@.len() as int),
            ItemKind::Other => p0,
        }
    }
}

/// Is the tree consistent with the source for a statement visit from `pos`:
/// its spans ahead of the cursor and ordered, every written position owned by
/// a file? When this holds the visit succeeds.
pub open spec fn stmt_ok(cm: CodeMap, pos: int, s: Stmt) -> bool
    decreases s, 0int, 0int,
{
    match s.kind {
        StmtKind::Decl(it) => item_ok(cm, pos, *it),
        StmtKind::Expr(e) => pos <= s.span.lo && cm.has_owner(pos) && expr_ok(
            cm,
            s.span.lo as int,
            e,
        ),
        StmtKind::Semi(e) => pos <= s.span.lo && cm.has_owner(pos) && expr_ok(
            cm,
            s.span.lo as int,
            e,
        ),
    }
}

/// Are the first `k` statements consistent, each from where the one before
/// left the cursor?
pub open spec fn stmts_ok(cm: CodeMap, pos: int, ss: Seq<Stmt>, k: int) -> bool
    decreases ss, 1int, k,
{
    if k <= 0 || k > ss.len() {
        true
    } else {
        stmts_ok(cm, pos, ss, k - 1) && stmt_ok(cm, stmts_end(cm, pos, ss, k - 1), ss[k - 1])
    }
}

/// Is the tree consistent for a block visit from `pos`.
pub open spec fn block_ok(cm: CodeMap, pos: int, b: Block) -> bool
    decreases b, 2int, 0int,
{
    &&& pos <= b.span.lo
    &&& b.span.lo + 2 <= b.span.hi
    &&& cm.has_owner(pos)
    &&& cm.has_owner(b.span.lo as int)
    &&& stmts_ok(cm, b.span.lo + 1, b.stmts@, b.stmts@.len() as int)
    &&& {
        let p1 = stmts_end(cm, b.span.lo + 1, b.stmts@, b.stmts@.len() as int);
        match b.expr {
            Some(e) => p1 <= e.span.lo && cm.has_owner(p1) && expr_ok(cm, e.span.lo as int, e)
                && e.span.hi <= b.span.hi - 1 && cm.has_owner(e.span.hi as int),
            None => p1 <= b.span.hi - 1 && cm.has_owner(p1),
        }
    }
}

/// Is the tree consistent for a function visit: signature span `s` ahead of
/// the cursor, body block behind the signature and itself consistent.
pub open spec fn fn_ok(cm: CodeMap, pos: int, s: Span, b: Block) -> bool
    decreases b, 3int, 0int,
{
    &&& pos <= s.lo
    &&& cm.has_owner(pos)
    &&& cm.has_owner(s.lo as int)
    &&& s.lo <= b.span.lo
    &&& block_ok(cm, b.span.lo as int, b)
}

/// Is the tree consistent for a trait-item visit from `pos`.
pub open spec fn trait_item_ok(cm: CodeMap, pos: int, ti: TraitItem) -> bool {
    &&& (ti.attrs@.len() > 0 ==> pos <= ti.attrs@[0].span.lo)
    &&& attrs_ok(cm, pos, ti.attrs@)
    &&& (!attrs_have_skip(ti.attrs@) ==> {
        let p0 = attrs_end_at(pos, ti.attrs@);
        match ti.kind {
            TraitItemKind::Required(_) => p0 <= ti.span.lo && ti.span.lo <= ti.span.hi
                && cm.has_owner(p0) && cm.has_owner(ti.span.lo as int),
            TraitItemKind::Other => true,
        }
    })
}

/// Are the first `k` trait items consistent, chained by cursor position.
pub open spec fn tis_ok(cm: CodeMap, pos: int, tis: Seq<TraitItem>, k: int) -> bool
    decreases k,
{
    if k <= 0 || k > tis.len() {
        true
    } else {
        tis_ok(cm, pos, tis, k - 1) && trait_item_ok(cm, tis_end(pos, tis, k - 1), tis[k - 1])
    }
}

/// Is the tree consistent for an impl-item visit from `pos`.
pub open spec fn impl_item_ok(cm: CodeMap, pos: int, ii: ImplItem) -> bool
    decreases ii, 0int, 0int,
{
    &&& (ii.attrs@.len() > 0 ==> pos <= ii.attrs@[0].span.lo)
    &&& attrs_ok(cm, pos, ii.attrs@)
    &&& (!attrs_have_skip(ii.attrs@) ==> match ii.kind {
        ImplItemKind::Method(_, _, b) => fn_ok(cm, attrs_end_at(pos, ii.attrs@), ii.span, b),
        ImplItemKind::Other => true,
    })
}

/// Are the first `k` impl items consistent, chained by cursor position.
pub open spec fn iis_ok(cm: CodeMap, pos: int, iis: Seq<ImplItem>, k: int) -> bool
    decreases iis, 1int, k,
{
    if k <= 0 || k > iis.len() {
        true
    } else {
        iis_ok(cm, pos, iis, k - 1) && impl_item_ok(cm, iis_end(pos, iis, k - 1), iis[k - 1])
    }
}

/// Are the first `k` items consistent, chained by cursor position.
pub open spec fn items_ok(cm: CodeMap, pos: int, its: Seq<Item>, k: int) -> bool
    decreases its, 1int, k,
{
    if k <= 0 || k > its.len() {
        true
    } else {
        items_ok(cm, pos, its, k - 1) && item_ok(cm, items_end(cm, pos, its, k - 1), its[k - 1])
    }
}

/// Is the tree consistent for a module visit at `s` from `pos`: both
/// positions resolvable, the children consistent when the body is in the
/// declaring file.
pub open spec fn mod_ok(cm: CodeMap, pos: int, m: ModBody, s: Span) -> bool
    decreases m, 0int, 0int,
{
    &&& cm.has_owner(s.lo as int)
    &&& cm.has_owner(m.inner.lo as int)
    &&& (cm.owner_of(s.lo as int) == cm.owner_of(m.inner.lo as int) ==> items_ok(
        cm,
        pos,
        m.items@,
        m.items@.len() as int,
    ))
}

/// Is the tree consistent for an item visit from `pos`.
pub open spec fn item_ok(cm: CodeMap, pos: int, it: Item) -> bool
    decreases it, 0int, 0int,
{
    &&& (it.attrs@.len() > 0 ==> pos <= it.attrs@[0].span.lo)
    &&& attrs_ok(cm, pos, it.attrs@)
    &&& (!attrs_have_skip(it.attrs@) ==> {
        let p0 = attrs_end_at(pos, it.attrs@);
        match it.kind {
            ItemKind::Fn(_, b) => fn_ok(cm, p0, it.span, b),
            ItemKind::UseList(_, _) => p0 <= it.span.lo && it.span.lo <= it.span.hi
                && cm.has_owner(p0) && cm.has_owner(it.span.lo as int),
            ItemKind::UseOther => true,
            ItemKind::ExternCrate => p0 <= it.span.lo && it.span.lo <= it.span.hi && cm.has_owner(
                p0,
            ) && cm.has_owner(it.span.lo as int),
            ItemKind::Struct => p0 <= it.span.lo && it.span.lo <= it.span.hi && cm.has_owner(p0)
                && cm.has_owner(it.span.lo as int),
            ItemKind::Mod(m) => mod_ok(cm, p0, m, it.span),
            ItemKind::Trait(tb) => tis_ok(cm, p0, tb.items@, tb.items@.len() as int),
            ItemKind::Impl(ib) => iis_ok(cm, p0, ib.items@, ib.items@.len() as int),
            ItemKind::Other => true,
        }
    })
}

/// `texts` with `piece` appended to the buffer of the file whose range holds
/// `p` — the effect of one span-addressed append.
pub open spec fn put(
    spans: Seq<(u32, u32)>,
    texts: Seq<Seq<char>>,
    p: int,
    piece: Seq<char>,
) -> Seq<Seq<char>> {
    append_at(texts, crate::changes::span_table_idx(spans, p), piece)
}

/// The buffers after the gap `[pos, end)` is flushed verbatim.
pub open spec fn out_flush(
    cm: CodeMap,
    spans: Seq<(u32, u32)>,
    texts: Seq<Seq<char>>,
    pos: int,
    end: int,
) -> Seq<Seq<char>> {
    put(spans, texts, pos, snippet_text(cm, Span { lo: pos as u32, hi: end as u32 }))
}

/// The buffers after the gap `[pos, end)` is flushed under the
/// collapse-and-indent rule.
pub open spec fn out_flush_indent(
    cm: CodeMap,
    spans: Seq<(u32, u32)>,
    texts: Seq<Seq<char>>,
    pos: int,
    end: int,
    indent: nat,
) -> Seq<Seq<char>> {
    put(
        spans,
        texts,
        pos,
        missing_with_indent_text(
            snippet_text(cm, Span { lo: pos as u32, hi: end as u32 }),
            pos == 0,
            indent,
        ),
    )
}

/// The indent one level deeper, saturating like the traversal does.
pub open spec fn bump(indent: nat, tab: nat) -> nat {
    if indent + tab <= usize::MAX {
        (indent + tab) as nat
    } else {
        indent
    }
}

/// The buffers after an expression visit from `pos`: the gap flushed
/// verbatim, then the expression's rendering at its span.
pub open spec fn expr_out(
    cm: CodeMap,
    spans: Seq<(u32, u32)>,
    texts: Seq<Seq<char>>,
    pos: int,
    e: Expr,
) -> Seq<Seq<char>> {
    put(
        spans,
        out_flush(cm, spans, texts, pos, e.span.lo as int),
        e.span.lo as int,
        expr_text(e),
    )
}

/// The buffers after an attribute list is handled from `pos`: nothing for an
/// empty list; only the gap flush when the list suppresses its item; the gap
/// flush and the rendered attributes otherwise.
pub open spec fn attrs_out(
    cm: CodeMap,
    spans: Seq<(u32, u32)>,
    texts: Seq<Seq<char>>,
    pos: int,
    indent: nat,
    attrs: Seq<Attribute>,
) -> Seq<Seq<char>> {
    if attrs.len() == 0 {
        texts
    } else if attrs_have_skip(attrs) {
        out_flush_indent(cm, spans, texts, pos, attrs[0].span.lo as int, indent)
    } else {
        put(
            spans,
            out_flush_indent(cm, spans, texts, pos, attrs[0].span.lo as int, indent),
            attrs[0].span.lo as int,
            rewrite_attrs_text(cm, attrs, indent, attrs.len() as int),
        )
    }
}

/// The buffers after a statement visit from `pos`: an item declaration
/// delegates entirely (no statement-level gap flush — the gap is never
/// emitted twice); any other statement flushes its gap exactly once, then
/// emits its expression.
pub open spec fn stmt_out(
    cm: CodeMap,
    spans: Seq<(u32, u32)>,
    texts: Seq<Seq<char>>,
    pos: int,
    indent: nat,
    tab: nat,
    s: Stmt,
) -> Seq<Seq<char>>
    decreases s, 0int, 0int,
{
    match s.kind {
        StmtKind::Decl(it) => item_out(cm, spans, texts, pos, indent, tab, *it),
        StmtKind::Expr(e) => expr_out(
            cm,
            spans,
            out_flush_indent(cm, spans, texts, pos, s.span.lo as int, indent),
            s.span.lo as int,
            e,
        ),
        StmtKind::Semi(e) => expr_out(
            cm,
            spans,
            out_flush_indent(cm, spans, texts, pos, s.span.lo as int, indent),
            s.span.lo as int,
            e,
        ),
    }
}

/// The buffers after the first `k` statements, visited in order.
pub open spec fn stmts_outs(
    cm: CodeMap,
    spans: Seq<(u32, u32)>,
    texts: Seq<Seq<char>>,
    pos: int,
    indent: nat,
    tab: nat,
    ss: Seq<Stmt>,
    k: int,
) -> Seq<Seq<char>>
    decreases ss, 1int, k,
{
    if k <= 0 || k > ss.len() {
        texts
    } else {
        stmt_out(
            cm,
            spans,
            stmts_outs(cm, spans, texts, pos, indent, tab, ss, k - 1),
            stmts_end(cm, pos, ss, k - 1),
            indent,
            tab,
            ss[k - 1],
        )
    }
}

/// The buffers after a block visit from `pos`: the gap up to the block
/// verbatim, the opening brace, each statement one level deeper, the gap and
/// trailing expression (if any), the closing gap at the restored indent, the
/// closing brace — in that order and nothing else.
pub open spec fn block_out(
    cm: CodeMap,
    spans: Seq<(u32, u32)>,
    texts: Seq<Seq<char>>,
    pos: int,
    indent: nat,
    tab: nat,
    b: Block,
) -> Seq<Seq<char>>
    decreases b, 2int, 0int,
{
    let inner = bump(indent, tab);
    let opened = put(
        spans,
        out_flush(cm, spans, texts, pos, b.span.lo as int),
        b.span.lo as int,
        "{"@,
    );
    let after_stmts = stmts_outs(
        cm,
        spans,
        opened,
        b.span.lo + 1,
        inner,
        tab,
        b.stmts@,
        b.stmts@.len() as int,
    );
    let p1 = stmts_end(cm, b.span.lo + 1, b.stmts@, b.stmts@.len() as int);
    let after_expr = match b.expr {
        Some(e) => expr_out(
            cm,
            spans,
            out_flush_indent(cm, spans, after_stmts, p1, e.span.lo as int, inner),
            e.span.lo as int,
            e,
        ),
        None => after_stmts,
    };
    let p2 = match b.expr {
        Some(e) => e.span.hi as int,
        None => p1,
    };
    put(
        spans,
        out_flush_indent(cm, spans, after_expr, p2, b.span.hi - 1, indent),
        b.span.lo as int,
        "}"@,
    )
}

/// The buffers after a function visit: the gap flushed with indent, the
/// rendered signature at the span up to the body, then the body block.
pub open spec fn fn_out(
    cm: CodeMap,
    spans: Seq<(u32, u32)>,
    texts: Seq<Seq<char>>,
    pos: int,
    indent: nat,
    tab: nat,
    vis: Visibility,
    ident: Seq<char>,
    eself: Option<String>,
    fd: FnDecl,
    b: Block,
    s: Span,
) -> Seq<Seq<char>>
    decreases b, 3int, 0int,
{
    let sig = put(
        spans,
        out_flush_indent(cm, spans, texts, pos, s.lo as int, indent),
        s.lo as int,
        fn_sig_text(vis, ident, eself, fd),
    );
    block_out(cm, spans, sig, b.span.lo as int, indent, tab, b)
}

/// The buffers after a trait item: its attributes, then — for a required
/// method — the gap and the rendered signature; nothing else for other kinds.
pub open spec fn trait_item_out(
    cm: CodeMap,
    spans: Seq<(u32, u32)>,
    texts: Seq<Seq<char>>,
    pos: int,
    indent: nat,
    ti: TraitItem,
) -> Seq<Seq<char>> {
    let ta = attrs_out(cm, spans, texts, pos, indent, ti.attrs@);
    if attrs_have_skip(ti.attrs@) {
        ta
    } else {
        let p0 = attrs_end_at(pos, ti.attrs@);
        match ti.kind {
            TraitItemKind::Required(sig) => put(
                spans,
                out_flush_indent(cm, spans, ta, p0, ti.span.lo as int, indent),
                ti.span.lo as int,
                required_fn_text(Visibility::Inherited, ti.ident@, None, sig),
            ),
            TraitItemKind::Other => ta,
        }
    }
}

/// The buffers after the first `k` trait items.
pub open spec fn tis_outs(
    cm: CodeMap,
    spans: Seq<(u32, u32)>,
    texts: Seq<Seq<char>>,
    pos: int,
    indent: nat,
    tis: Seq<TraitItem>,
    k: int,
) -> Seq<Seq<char>>
    decreases k,
{
    if k <= 0 || k > tis.len() {
        texts
    } else {
        trait_item_out(
            cm,
            spans,
            tis_outs(cm, spans, texts, pos, indent, tis, k - 1),
            tis_end(pos, tis, k - 1),
            indent,
            tis[k - 1],
        )
    }
}

/// The buffers after an impl item: its attributes, then — for a method —
/// the function emission; nothing else for other kinds.
pub open spec fn impl_item_out(
    cm: CodeMap,
    spans: Seq<(u32, u32)>,
    texts: Seq<Seq<char>>,
    pos: int,
    indent: nat,
    tab: nat,
    ii: ImplItem,
) -> Seq<Seq<char>>
    decreases ii, 0int, 0int,
{
    let ta = attrs_out(cm, spans, texts, pos, indent, ii.attrs@);
    if attrs_have_skip(ii.attrs@) {
        ta
    } else {
        let p0 = attrs_end_at(pos, ii.attrs@);
        match ii.kind {
            ImplItemKind::Method(eself, fd, b) => fn_out(
                cm,
                spans,
                ta,
                p0,
                indent,
                tab,
                Visibility::Inherited,
                ii.ident@,
                eself,
                fd,
                b,
                ii.span,
            ),
            ImplItemKind::Other => ta,
        }
    }
}

/// The buffers after the first `k` impl items.
pub open spec fn iis_outs(
    cm: CodeMap,
    spans: Seq<(u32, u32)>,
    texts: Seq<Seq<char>>,
    pos: int,
    indent: nat,
    tab: nat,
    iis: Seq<ImplItem>,
    k: int,
) -> Seq<Seq<char>>
    decreases iis, 1int, k,
{
    if k <= 0 || k > iis.len() {
        texts
    } else {
        impl_item_out(
            cm,
            spans,
            iis_outs(cm, spans, texts, pos, indent, tab, iis, k - 1),
            iis_end(pos, iis, k - 1),
            indent,
            tab,
            iis[k - 1],
        )
    }
}

/// The buffers after the first `k` items of a module body.
pub open spec fn items_outs(
    cm: CodeMap,
    spans: Seq<(u32, u32)>,
    texts: Seq<Seq<char>>,
    pos: int,
    indent: nat,
    tab: nat,
    its: Seq<Item>,
    k: int,
) -> Seq<Seq<char>>
    decreases its, 1int, k,
{
    if k <= 0 || k > its.len() {
        texts
    } else {
        item_out(
            cm,
            spans,
            items_outs(cm, spans, texts, pos, indent, tab, its, k - 1),
            items_end(cm, pos, its, k - 1),
            indent,
            tab,
            its[k - 1],
        )
    }
}

/// The buffers after a module visit: its children in order when the body
/// lives in the declaring file, untouched otherwise.
pub open spec fn mod_out(
    cm: CodeMap,
    spans: Seq<(u32, u32)>,
    texts: Seq<Seq<char>>,
    pos: int,
    indent: nat,
    tab: nat,
    m: ModBody,
    s: Span,
) -> Seq<Seq<char>>
    decreases m, 2int, 0int,
{
    if cm.has_owner(s.lo as int) && cm.has_owner(m.inner.lo as int) && cm.owner_of(s.lo as int)
        == cm.owner_of(m.inner.lo as int) {
        items_outs(cm, spans, texts, pos, indent, tab, m.items@, m.items@.len() as int)
    } else {
        texts
    }
}

/// The buffers after an item visit from `pos`: the attribute handling, then
/// the kind's own emission — and nothing at all beyond the attributes for a
/// suppressed item, whose bytes stay behind the cursor for the next flush.
pub open spec fn item_out(
    cm: CodeMap,
    spans: Seq<(u32, u32)>,
    texts: Seq<Seq<char>>,
    pos: int,
    indent: nat,
    tab: nat,
    it: Item,
) -> Seq<Seq<char>>
    decreases it, 0int, 0int,
{
    let ta = attrs_out(cm, spans, texts, pos, indent, it.attrs@);
    if attrs_have_skip(it.attrs@) {
        ta
    } else {
        let p0 = attrs_end_at(pos, it.attrs@);
        match it.kind {
            ItemKind::Fn(fd, b) => fn_out(
                cm,
                spans,
                ta,
                p0,
                indent,
                tab,
                it.vis,
                it.ident@,
                None,
                fd,
                b,
                it.span,
            ),
            ItemKind::UseList(p, l) => put(
                spans,
                out_flush_indent(cm, spans, ta, p0, it.span.lo as int, indent),
                it.span.lo as int,
                use_list_text(it.vis, p@, l@),
            ),
            ItemKind::UseOther => ta,
            ItemKind::ExternCrate => put(
                spans,
                out_flush_indent(cm, spans, ta, p0, it.span.lo as int, indent),
                it.span.lo as int,
                snippet_text(cm, it.span),
            ),
            ItemKind::Struct => put(
                spans,
                out_flush_indent(cm, spans, ta, p0, it.span.lo as int, indent),
                it.span.lo as int,
                snippet_text(cm, it.span),
            ),
            ItemKind::Mod(m) => mod_out(cm, spans, ta, p0, bump(indent, tab), tab, m, it.span),
            ItemKind::Trait(tb) => tis_outs(
                cm,
                spans,
                ta,
                p0,
                bump(indent, tab),
                tb.items@,
                tb.items@.len() as int,
            ),
            ItemKind::Impl(ib) => iis_outs(
                cm,
                spans,
                ta,
                p0,
                bump(indent, tab),
                tab,
                ib.items@,
                ib.items@.len() as int,
            ),
            ItemKind::Other => ta,
        }
    }
}

/// Within a consistent statement run, the statement at `i` is consistent from
/// where the run left the cursor.
pub proof fn lemma_stmts_ok_at(cm: CodeMap, pos: int, ss: Seq<Stmt>, i: int, n: int)
    requires
        stmts_ok(cm, pos, ss, n),
        0 <= i < n <= ss.len(),
    ensures
        stmt_ok(cm, stmts_end(cm, pos, ss, i), ss[i]),
    decreases n,
{
    if i < n - 1 {
        lemma_stmts_ok_at(cm, pos, ss, i, n - 1);
    }
}

/// Within a consistent item run, the item at `i` is consistent from where the
/// run left the cursor.
pub proof fn lemma_items_ok_at(cm: CodeMap, pos: int, its: Seq<Item>, i: int, n: int)
    requires
        items_ok(cm, pos, its, n),
        0 <= i < n <= its.len(),
    ensures
        item_ok(cm, items_end(cm, pos, its, i), its[i]),
    decreases n,
{
    if i < n - 1 {
        lemma_items_ok_at(cm, pos, its, i, n - 1);
    }
}

/// Within a consistent trait-item run, the item at `i` is consistent.
pub proof fn lemma_tis_ok_at(cm: CodeMap, pos: int, tis: Seq<TraitItem>, i: int, n: int)
    requires
        tis_ok(cm, pos, tis, n),
        0 <= i < n <= tis.len(),
    ensures
        trait_item_ok(cm, tis_end(pos, tis, i), tis[i]),
    decreases n,
{
    if i < n - 1 {
        lemma_tis_ok_at(cm, pos, tis, i, n - 1);
    }
}

/// Within a consistent impl-item run, the item at `i` is consistent.
pub proof fn lemma_iis_ok_at(cm: CodeMap, pos: int, iis: Seq<ImplItem>, i: int, n: int)
    requires
        iis_ok(cm, pos, iis, n),
        0 <= i < n <= iis.len(),
    ensures
        impl_item_ok(cm, iis_end(pos, iis, i), iis[i]),
    decreases n,
{
    if i < n - 1 {
        lemma_iis_ok_at(cm, pos, iis, i, n - 1);
    }
}

/// The structural rewriting visitor: the write cursor, the current indent
/// level, the change set it writes through, and the source lookup it reads.
pub struct FmtVisitor {
    pub codemap: CodeMap,
    pub changes: ChangeSet,
    pub last_pos: BytePos,
    pub block_indent: usize,
    pub config: Config,
}

/// What every visit step preserves: the source map, the configuration and the
/// file tables are untouched, buffers only grow, the write cursor never moves
/// backwards, and the indent level is back at its prior value.
pub open spec fn step_ok(o: FmtVisitor, v: FmtVisitor) -> bool {
    &&& v.codemap == o.codemap
    &&& v.config == o.config
    &&& v.changes.file_spans@ == o.changes.file_spans@
    &&& v.changes.names() == o.changes.names()
    &&& v.changes.wf()
    &&& texts_grow(o.changes.texts(), v.changes.texts())
    &&& v.block_indent == o.block_indent
    &&& o.last_pos.0 <= v.last_pos.0
}

impl FmtVisitor {
    pub open spec fn wf(&self) -> bool {
        &&& self.codemap.wf()
        &&& self.changes.wf()
        &&& self.changes.matches_codemap(self.codemap)
    }

    /// Build a visitor over a source map, with an empty change set, the write
    /// cursor at the origin, no indent, and the stock configuration.
    pub fn from_codemap(codemap: &CodeMap) -> (r: FmtVisitor)
        requires
            codemap.wf(),
        ensures
            r.wf(),
            r.codemap.files@ == codemap.files@,
            r.last_pos.0 == 0,
            r.block_indent == 0,
            forall|i: int|
                0 <= i < r.changes.n() ==> (#[trigger] r.changes.texts()[i])
                    == Seq::<char>::empty(),
            r.config == (Config {
                max_width: 100,
                ideal_width: 80,
                tab_spaces: 4,
                newline_style: crate::config::NewlineStyle::Unix,
            }),
    {
        FmtVisitor {
            codemap: codemap.clone_map(),
            changes: ChangeSet::from_codemap(codemap),
            last_pos: BytePos(0),
            block_indent: 0,
            config: Config::default(),
        }
    }

    /// The front end's snippet lookup: the source text of `span`, or empty
    /// text when the span cannot be resolved (it is malformed or crosses a
    /// file boundary) — a missing snippet must not abort the traversal.
    pub fn snippet(&self, span: Span) -> (r: String)
        requires
            self.codemap.wf(),
        ensures
            r@ == snippet_text(self.codemap, span),
    {
        match self.codemap.span_to_snippet(span) {
            Some(s) => s,
            None => String::new(),
        }
    }

    /// Flush the source text from the write cursor up to `end` verbatim into
    /// the owning file's buffer and advance the cursor.
    pub fn format_missing(&mut self, end: BytePos) -> (r: Result<(), FmtError>)
        requires
            old(self).wf(),
            old(self).last_pos.0 <= end.0,
        ensures
            final (self).wf(),
            step_ok(*old(self), *final (self)),
            match r {
                Ok(()) => old(self).changes.has_pos(old(self).last_pos.0 as int) && final (
                self).last_pos == end && final (self).changes.texts() == append_at(
                    old(self).changes.texts(),
                    old(self).changes.pos_idx(old(self).last_pos.0 as int),
                    snippet_text(
                        old(self).codemap,
                        Span { lo: old(self).last_pos.0, hi: end.0 },
                    ),
                ),
                Err(e) => e == FmtError::UnknownFile && final (self).last_pos == old(
                    self,
                ).last_pos,
            },
            r matches Err(e) <==> !old(self).changes.has_pos(old(self).last_pos.0 as int),
    {
        let span = Span { lo: self.last_pos.0, hi: end.0 };
        let snip = self.snippet(span);
        let r = self.changes.push_str_span(span, snip.as_str());
        match r {
            Ok(()) => {
                self.last_pos = end;
                proof {
                    lemma_grow_append(
                        old(self).changes.texts(),
                        old(self).changes.pos_idx(span.lo as int),
                        snip@,
                    );
                    lemma_matches_preserved(
                        old(self).changes,
                        self.changes,
                        old(self).codemap,
                    );
                }
                Ok(())
            },
            Err(e) => {
                proof {
                    lemma_grow_refl(old(self).changes.texts());
                    lemma_matches_preserved(old(self).changes, self.changes, old(self).codemap);
                }
                Err(e)
            },
        }
    }

    /// Flush the gap from the write cursor up to `end` under the
    /// collapse-and-indent rule and advance the cursor.
    pub fn format_missing_with_indent(&mut self, end: BytePos) -> (r: Result<(), FmtError>)
        requires
            old(self).wf(),
            old(self).last_pos.0 <= end.0,
        ensures
            final (self).wf(),
            step_ok(*old(self), *final (self)),
            match r {
                Ok(()) => old(self).changes.has_pos(old(self).last_pos.0 as int) && final (
                self).last_pos == end && final (self).changes.texts() == append_at(
                    old(self).changes.texts(),
                    old(self).changes.pos_idx(old(self).last_pos.0 as int),
                    missing_with_indent_text(
                        snippet_text(
                            old(self).codemap,
                            Span { lo: old(self).last_pos.0, hi: end.0 },
                        ),
                        old(self).last_pos.0 == 0,
                        old(self).block_indent as nat,
                    ),
                ),
                Err(e) => e == FmtError::UnknownFile && final (self).last_pos == old(
                    self,
                ).last_pos,
            },
            r matches Err(e) <==> !old(self).changes.has_pos(old(self).last_pos.0 as int),
    {
        let span = Span { lo: self.last_pos.0, hi: end.0 };
        let snip = self.snippet(span);
        let at_start: bool = self.last_pos.0 == 0;
        let rendered = missing_with_indent_str(snip.as_str(), at_start, self.block_indent);
        let r = self.changes.push_str_span(span, rendered.as_str());
        match r {
            Ok(()) => {
                self.last_pos = end;
                proof {
                    lemma_grow_append(
                        old(self).changes.texts(),
                        old(self).changes.pos_idx(span.lo as int),
                        rendered@,
                    );
                    lemma_matches_preserved(
                        old(self).changes,
                        self.changes,
                        old(self).codemap,
                    );
                }
                Ok(())
            },
            Err(e) => {
                proof {
                    lemma_grow_refl(old(self).changes.texts());
                    lemma_matches_preserved(old(self).changes, self.changes, old(self).codemap);
                }
                Err(e)
            },
        }
    }

    /// Render the attribute list of an item: each attribute's own text is
    /// copied verbatim; the gap between two attributes keeps a trimmed
    /// comment on its own indented line, keeps one blank line between doc
    /// comments only when the original gap held more than one line break, and
    /// collapses to a single indented line break otherwise. Yields nothing
    /// when some attribute is the suppression marker.
    #[verifier::rlimit(100)]
    #[verifier::spinoff_prover]
    pub fn rewrite_attrs(&self, attrs: &Vec<Attribute>, indent: usize) -> (r: Option<String>)
        requires
            self.codemap.wf(),
        ensures
            match r {
                Some(s) => !attrs_have_skip(attrs@) && s@ == rewrite_attrs_text(
                    self.codemap,
                    attrs@,
                    indent as nat,
                    attrs@.len() as int,
                ),
                None => attrs_have_skip(attrs@),
            },
    {
        let mut result = String::new();
        let ind = make_indent(indent);
        let n: usize = attrs.len();
        let mut i: usize = 0;
        while i < n
            invariant
                self.codemap.wf(),
                n == attrs@.len(),
                i <= n,
                ind@ == spaces(indent as nat),
                result@ == rewrite_attrs_text(self.codemap, attrs@, indent as nat, i as int),
                forall|k: int| 0 <= k < i ==> !attr_is_skip(#[trigger] attrs@[k].meta),
            decreases n - i,
        {
            if is_skip(&attrs[i].meta) {
                return None;
            }
            let a_str = self.snippet(attrs[i].span);
            let ghost spec_piece: Seq<char> = if i == 0 {
                a_str@
            } else {
                let comment0 = snippet_text(
                    self.codemap,
                    Span { lo: attrs@[i - 1].span.hi, hi: attrs@[i as int].span.lo },
                );
                let multi0 = starts_slashes(a_str@) && crate::render::count_char(comment0, '\n')
                    > 1;
                let ctrim0 = trim_ws(comment0);
                (if ctrim0.len() > 0 {
                    spaces(indent as nat) + ctrim0 + seq!['\n']
                } else if multi0 {
                    seq!['\n']
                } else {
                    Seq::<char>::empty()
                }) + spaces(indent as nat) + a_str@
            };
            let mut piece = String::new();
            if i > 0 {
                let comment_span = Span { lo: attrs[i - 1].span.hi, hi: attrs[i].span.lo };
                let comment = self.snippet(comment_span);
                let multi_line = starts_slashes_str(a_str.as_str()) && crate::rewrite::count_newlines(
                    comment.as_str(),
                ) > 1;
                let trimmed = trim_str(comment.as_str());
                if trimmed.as_str().unicode_len() > 0 {
                    piece.append(ind.as_str());
                    piece.append(trimmed.as_str());
                    piece.append("\n");
                } else if multi_line {
                    piece.append("\n");
                }
                piece.append(ind.as_str());
            }
            piece.append(a_str.as_str());
            proof {
                reveal_strlit("\n");
                assert("\n"@ =~= seq!['\n']);
                assert(piece@ =~= spec_piece);
            }
            result.append(piece.as_str());
            if i < n - 1 {
                result.append("\n");
            }
            proof {
                reveal_strlit("\n");
                assert("\n"@ =~= seq!['\n']);
                assert(result@ =~= rewrite_attrs_text(
                    self.codemap,
                    attrs@,
                    indent as nat,
                    i + 1,
                ));
            }
            i = i + 1;
        }
        Some(result)
    }

    /// Inspect the attribute list before an item: when some attribute is the
    /// suppression marker, flush the gap up to the attributes and report
    /// `true` — the caller must leave the whole item for verbatim copying.
    /// Otherwise write the rendered attribute list and advance the cursor
    /// past it, reporting `false`.
    pub fn visit_attrs(&mut self, attrs: &Vec<Attribute>) -> (r: Result<bool, FmtError>)
        requires
            old(self).wf(),
            attrs@.len() > 0 ==> old(self).last_pos.0 <= attrs@[0].span.lo,
        ensures
            final (self).wf(),
            step_ok(*old(self), *final (self)),
            match r {
                Ok(skipped) => {
                    &&& skipped == (attrs@.len() > 0 && attrs_have_skip(attrs@))
                    &&& (attrs@.len() == 0 ==> *final (self) == *old(self))
                    &&& (attrs@.len() > 0 && skipped ==> final (self).last_pos.0 == attrs@[0].span.lo
                        && final (self).changes.texts() == append_at(
                        old(self).changes.texts(),
                        old(self).changes.pos_idx(old(self).last_pos.0 as int),
                        missing_with_indent_text(
                            snippet_text(
                                old(self).codemap,
                                Span { lo: old(self).last_pos.0, hi: attrs@[0].span.lo },
                            ),
                            old(self).last_pos.0 == 0,
                            old(self).block_indent as nat,
                        ),
                    ))
                    &&& (attrs@.len() > 0 && !skipped ==> final (self).last_pos.0 == attrs@[attrs@.len()
                        - 1].span.hi && final (self).changes.texts() == append_at(
                        append_at(
                            old(self).changes.texts(),
                            old(self).changes.pos_idx(old(self).last_pos.0 as int),
                            missing_with_indent_text(
                                snippet_text(
                                    old(self).codemap,
                                    Span { lo: old(self).last_pos.0, hi: attrs@[0].span.lo },
                                ),
                                old(self).last_pos.0 == 0,
                                old(self).block_indent as nat,
                            ),
                        ),
                        old(self).changes.pos_idx(attrs@[0].span.lo as int),
                        rewrite_attrs_text(
                            old(self).codemap,
                            attrs@,
                            old(self).block_indent as nat,
                            attrs@.len() as int,
                        ),
                    ))
                },
                Err(e) => e == FmtError::UnknownFile,
            },
            attrs_ok(old(self).codemap, old(self).last_pos.0 as int, attrs@) ==> r matches Ok(_),
    {
        proof {
            lemma_pos_owner(old(self).changes, old(self).codemap, old(self).last_pos.0 as int);
            if attrs@.len() > 0 {
                lemma_pos_owner(
                    old(self).changes,
                    old(self).codemap,
                    attrs@[0].span.lo as int,
                );
            }
        }
        if attrs.len() == 0 {
            proof {
                lemma_grow_refl(old(self).changes.texts());
            }
            return Ok(false);
        }
        let first_lo = attrs[0].span.lo;
        let last_hi0 = attrs[attrs.len() - 1].span.hi;
        if last_hi0 < first_lo {
            // A disordered attribute list would move the cursor backwards:
            // the tree and the source are out of sync.
            proof {
                lemma_grow_refl(old(self).changes.texts());
            }
            return Err(FmtError::UnknownFile);
        }
        let r0 = self.format_missing_with_indent(BytePos(first_lo));
        match r0 {
            Ok(()) => {},
            Err(e) => {
                return Err(e);
            },
        }
        let rewritten = self.rewrite_attrs(attrs, self.block_indent);
        match rewritten {
            Some(s) => {
                let first_span = attrs[0].span;
                let r1 = self.changes.push_str_span(first_span, s.as_str());
                match r1 {
                    Ok(()) => {
                        let last_hi = attrs[attrs.len() - 1].span.hi;
                        self.last_pos = BytePos(last_hi);
                        proof {
                            // The gap flush produced exactly one intermediate
                            // state; the attribute write appended to it.
                            let mid = append_at(
                                old(self).changes.texts(),
                                old(self).changes.pos_idx(old(self).last_pos.0 as int),
                                missing_with_indent_text(
                                    snippet_text(
                                        old(self).codemap,
                                        Span { lo: old(self).last_pos.0, hi: attrs@[0].span.lo },
                                    ),
                                    old(self).last_pos.0 == 0,
                                    old(self).block_indent as nat,
                                ),
                            );
                            lemma_grow_append(
                                old(self).changes.texts(),
                                old(self).changes.pos_idx(old(self).last_pos.0 as int),
                                missing_with_indent_text(
                                    snippet_text(
                                        old(self).codemap,
                                        Span { lo: old(self).last_pos.0, hi: attrs@[0].span.lo },
                                    ),
                                    old(self).last_pos.0 == 0,
                                    old(self).block_indent as nat,
                                ),
                            );
                            assert(old(self).changes.has_pos(first_span.lo as int));
                            assert(mid.len() == old(self).changes.texts().len());
                            assert(0 <= old(self).changes.pos_idx(first_span.lo as int) < old(
                                self,
                            ).changes.file_spans@.len());
                            lemma_grow_append(
                                mid,
                                old(self).changes.pos_idx(first_span.lo as int),
                                s@,
                            );
                            lemma_grow_trans(old(self).changes.texts(), mid, self.changes.texts());
                            lemma_matches_preserved(
                                old(self).changes,
                                self.changes,
                                old(self).codemap,
                            );
                        }
                        Ok(false)
                    },
                    Err(e) => {
                        proof {
                            lemma_matches_preserved(
                                old(self).changes,
                                self.changes,
                                old(self).codemap,
                            );
                        }
                        Err(e)
                    },
                }
            },
            None => Ok(true),
        }
    }

    /// Visit an expression: flush the source up to its start verbatim, render
    /// it within the remaining width budget of its line, write the rendering
    /// over its span and advance the cursor past it.
    #[verifier::rlimit(60)]
    #[verifier::spinoff_prover]
    pub fn visit_expr(&mut self, ex: &Expr) -> (r: Result<(), FmtError>)
        requires
            old(self).wf(),
        ensures
            final (self).wf(),
            step_ok(*old(self), *final (self)),
            match r {
                Ok(()) => old(self).last_pos.0 <= ex.span.lo <= ex.span.hi && final (
                self).last_pos.0 == ex.span.hi && final (self).changes.texts() == append_at(
                    append_at(
                        old(self).changes.texts(),
                        old(self).changes.pos_idx(old(self).last_pos.0 as int),
                        snippet_text(
                            old(self).codemap,
                            Span { lo: old(self).last_pos.0, hi: ex.span.lo },
                        ),
                    ),
                    old(self).changes.pos_idx(ex.span.lo as int),
                    expr_text(*ex),
                ),
                Err(e) => e == FmtError::UnknownFile,
            },
            r matches Err(e) <==> !expr_ok(old(self).codemap, old(self).last_pos.0 as int, *ex),
        decreases *ex, 0int,
    {
        proof {
            lemma_pos_owner(old(self).changes, old(self).codemap, old(self).last_pos.0 as int);
            lemma_pos_owner(old(self).changes, old(self).codemap, ex.span.lo as int);
        }
        if ex.span.lo < self.last_pos.0 || ex.span.hi < ex.span.lo {
            // A span behind the cursor or inside out: tree/source desync.
            proof {
                lemma_grow_refl(old(self).changes.texts());
            }
            return Err(FmtError::UnknownFile);
        }
        let r0 = self.format_missing(BytePos(ex.span.lo));
        match r0 {
            Ok(()) => {},
            Err(e) => {
                return Err(e);
            },
        }
        let offset: usize = match self.changes.cur_offset_span(ex.span) {
            Ok(o) => o,
            Err(e) => {
                return Err(e);
            },
        };
        let width: usize = if offset < self.config.max_width {
            self.config.max_width - offset
        } else {
            0
        };
        let new_str = rewrite_expr(ex, width, offset);
        let ghost mid = self.changes.texts();
        let r1 = self.changes.push_str_span(ex.span, new_str.as_str());
        match r1 {
            Ok(()) => {
                self.last_pos = BytePos(ex.span.hi);
                proof {
                    lemma_grow_append(mid, old(self).changes.pos_idx(ex.span.lo as int), new_str@);
                    lemma_grow_trans(old(self).changes.texts(), mid, self.changes.texts());
                    lemma_matches_preserved(old(self).changes, self.changes, old(self).codemap);
                }
                Ok(())
            },
            Err(e) => {
                proof {
                    lemma_matches_preserved(old(self).changes, self.changes, old(self).codemap);
                }
                Err(e)
            },
        }
    }

    /// Visit a statement. A statement that declares an item skips the generic
    /// gap flush — the nested item visit handles its own leading gap and
    /// attributes — so the gap is accounted exactly once.
    pub fn visit_stmt(&mut self, stmt: &Stmt) -> (r: Result<(), FmtError>)
        requires
            old(self).wf(),
        ensures
            final (self).wf(),
            step_ok(*old(self), *final (self)),
            r matches Err(e) ==> e == FmtError::UnknownFile,
            r matches Ok(()) ==> (stmt.kind matches StmtKind::Expr(e) ==> final (self).last_pos.0
                == e.span.hi),
            r matches Ok(()) ==> (stmt.kind matches StmtKind::Semi(e) ==> final (self).last_pos.0
                == e.span.hi),
            stmt_ok(old(self).codemap, old(self).last_pos.0 as int, *stmt) ==> (r matches Ok(())
                && final (self).last_pos.0 == stmt_end(
                old(self).codemap,
                old(self).last_pos.0 as int,
                *stmt,
            ) && final (self).changes.texts() == stmt_out(
                old(self).codemap,
                old(self).changes.file_spans@,
                old(self).changes.texts(),
                old(self).last_pos.0 as int,
                old(self).block_indent as nat,
                old(self).config.tab_spaces as nat,
                *stmt,
            )),
        decreases *stmt, 0int,
    {
        proof {
            lemma_pos_owner(old(self).changes, old(self).codemap, old(self).last_pos.0 as int);
        }
        let skip_missing: bool = match &stmt.kind {
            StmtKind::Decl(_) => true,
            _ => false,
        };
        if !skip_missing {
            if stmt.span.lo < self.last_pos.0 {
                proof {
                    lemma_grow_refl(old(self).changes.texts());
                }
                return Err(FmtError::UnknownFile);
            }
            let r0 = self.format_missing_with_indent(BytePos(stmt.span.lo));
            match r0 {
                Ok(()) => {},
                Err(e) => {
                    return Err(e);
                },
            }
        } else {
            proof {
                lemma_grow_refl(old(self).changes.texts());
            }
        }
        let ghost t1 = self.changes.texts();
        let r1 = match &stmt.kind {
            StmtKind::Decl(item) => self.visit_item(item),
            StmtKind::Expr(e) => self.visit_expr(e),
            StmtKind::Semi(e) => self.visit_expr(e),
        };
        proof {
            lemma_grow_trans(old(self).changes.texts(), t1, self.changes.texts());
        }
        r1
    }

    /// Visit a block: flush up to it, write the opening brace, visit the
    /// statements and the trailing expression one indent level deeper, flush
    /// up to the closing position, write the closing brace, and advance the
    /// cursor to the block's end. The indent level is back at its prior value
    /// on every path out.
    #[verifier::rlimit(100)]
    #[verifier::spinoff_prover]
    pub fn visit_block(&mut self, b: &Block) -> (r: Result<(), FmtError>)
        requires
            old(self).wf(),
        ensures
            final (self).wf(),
            step_ok(*old(self), *final (self)),
            match r {
                Ok(()) => final (self).last_pos.0 == b.span.hi,
                Err(e) => e == FmtError::UnknownFile,
            },
            block_ok(old(self).codemap, old(self).last_pos.0 as int, *b) ==> (r matches Ok(())
                && final (self).changes.texts() == block_out(
                old(self).codemap,
                old(self).changes.file_spans@,
                old(self).changes.texts(),
                old(self).last_pos.0 as int,
                old(self).block_indent as nat,
                old(self).config.tab_spaces as nat,
                *b,
            )),
            r matches Ok(()) ==> texts_grow(
                append_at(
                    append_at(
                        old(self).changes.texts(),
                        old(self).changes.pos_idx(old(self).last_pos.0 as int),
                        snippet_text(
                            old(self).codemap,
                            Span { lo: old(self).last_pos.0, hi: b.span.lo },
                        ),
                    ),
                    old(self).changes.pos_idx(b.span.lo as int),
                    "{"@,
                ),
                final (self).changes.texts(),
            ),
        decreases *b, 1int,
    {
        let ghost bok = block_ok(old(self).codemap, old(self).last_pos.0 as int, *b);
        proof {
            lemma_pos_owner(old(self).changes, old(self).codemap, old(self).last_pos.0 as int);
            lemma_pos_owner(old(self).changes, old(self).codemap, b.span.lo as int);
        }
        if b.span.lo < self.last_pos.0 || b.span.hi < b.span.lo || b.span.hi - b.span.lo < 2 {
            proof {
                lemma_grow_refl(old(self).changes.texts());
            }
            return Err(FmtError::UnknownFile);
        }
        let r0 = self.format_missing(BytePos(b.span.lo));
        match r0 {
            Ok(()) => {},
            Err(e) => {
                return Err(e);
            },
        }
        let ghost t1 = self.changes.texts();
        let r1 = self.changes.push_str_span(b.span, "{");
        match r1 {
            Ok(()) => {},
            Err(e) => {
                proof {
                    lemma_grow_refl(t1);
                    lemma_grow_trans(old(self).changes.texts(), t1, self.changes.texts());
                    lemma_matches_preserved(old(self).changes, self.changes, old(self).codemap);
                }
                return Err(e);
            },
        }
        proof {
            assert(t1.len() == self.changes.file_spans@.len());
            lemma_grow_after_push(
                t1,
                self.changes.texts(),
                self.changes.file_spans@,
                b.span.lo as int,
                "{"@,
            );
            lemma_grow_trans(old(self).changes.texts(), t1, self.changes.texts());
            lemma_matches_preserved(old(self).changes, self.changes, old(self).codemap);
        }
        let ghost opened = self.changes.texts();
        self.last_pos = BytePos(self.last_pos.0 + 1);
        let saved_indent: usize = self.block_indent;
        let tab: usize = self.config.tab_spaces;
        self.block_indent = if saved_indent <= usize::MAX - tab {
            saved_indent + tab
        } else {
            saved_indent
        };
        let n: usize = b.stmts.len();
        let mut i: usize = 0;
        while i < n
            invariant
                self.wf(),
                n == b.stmts@.len(),
                i <= n,
                self.codemap == old(self).codemap,
                self.config == old(self).config,
                self.changes.file_spans@ == old(self).changes.file_spans@,
                self.changes.names() == old(self).changes.names(),
                texts_grow(old(self).changes.texts(), self.changes.texts()),
                old(self).last_pos.0 <= self.last_pos.0,
                saved_indent == old(self).block_indent,
                tab == old(self).config.tab_spaces,
                self.block_indent == (if saved_indent <= usize::MAX - tab {
                    (saved_indent + tab) as usize
                } else {
                    saved_indent
                }),
                texts_grow(opened, self.changes.texts()),
                bok == block_ok(old(self).codemap, old(self).last_pos.0 as int, *b),
                bok ==> opened == put(
                    old(self).changes.file_spans@,
                    out_flush(
                        old(self).codemap,
                        old(self).changes.file_spans@,
                        old(self).changes.texts(),
                        old(self).last_pos.0 as int,
                        b.span.lo as int,
                    ),
                    b.span.lo as int,
                    "{"@,
                ),
                bok ==> self.changes.texts() == stmts_outs(
                    old(self).codemap,
                    old(self).changes.file_spans@,
                    opened,
                    b.span.lo + 1,
                    bump(old(self).block_indent as nat, old(self).config.tab_spaces as nat),
                    old(self).config.tab_spaces as nat,
                    b.stmts@,
                    i as int,
                ),
                bok ==> self.last_pos.0 == stmts_end(
                    old(self).codemap,
                    b.span.lo + 1,
                    b.stmts@,
                    i as int,
                ),
            decreases n - i,
        {
            let ghost tl = self.changes.texts();
            proof {
                assert(decreases_to!(b.stmts => b.stmts@[i as int]));
                if bok {
                    lemma_stmts_ok_at(
                        old(self).codemap,
                        b.span.lo + 1,
                        b.stmts@,
                        i as int,
                        b.stmts@.len() as int,
                    );
                    assert(self.block_indent as nat == bump(
                        old(self).block_indent as nat,
                        old(self).config.tab_spaces as nat,
                    ));
                }
            }
            let rs = self.visit_stmt(&b.stmts[i]);
            proof {
                lemma_grow_trans(old(self).changes.texts(), tl, self.changes.texts());
                lemma_grow_trans(opened, tl, self.changes.texts());
            }
            match rs {
                Ok(()) => {},
                Err(e) => {
                    self.block_indent = saved_indent;
                    return Err(e);
                },
            }
            i = i + 1;
        }
        match &b.expr {
            Some(e) => {
                proof {
                    lemma_pos_owner(
                        old(self).changes,
                        old(self).codemap,
                        self.last_pos.0 as int,
                    );
                    lemma_pos_owner(old(self).changes, old(self).codemap, e.span.lo as int);
                    lemma_pos_owner(old(self).changes, old(self).codemap, e.span.hi as int);
                }
                if e.span.lo < self.last_pos.0 {
                    self.block_indent = saved_indent;
                    return Err(FmtError::UnknownFile);
                }
                let ghost t2 = self.changes.texts();
                let r2 = self.format_missing_with_indent(BytePos(e.span.lo));
                proof {
                    lemma_grow_trans(old(self).changes.texts(), t2, self.changes.texts());
                    lemma_grow_trans(opened, t2, self.changes.texts());
                }
                match r2 {
                    Ok(()) => {},
                    Err(err) => {
                        self.block_indent = saved_indent;
                        return Err(err);
                    },
                }
                let ghost t3 = self.changes.texts();
                let r3 = self.visit_expr(e);
                proof {
                    lemma_grow_trans(old(self).changes.texts(), t3, self.changes.texts());
                    lemma_grow_trans(opened, t3, self.changes.texts());
                }
                match r3 {
                    Ok(()) => {},
                    Err(err) => {
                        self.block_indent = saved_indent;
                        return Err(err);
                    },
                }
            },
            None => {},
        }
        self.block_indent = saved_indent;
        proof {
            lemma_pos_owner(old(self).changes, old(self).codemap, self.last_pos.0 as int);
        }
        if b.span.hi - 1 < self.last_pos.0 {
            return Err(FmtError::UnknownFile);
        }
        let ghost t4 = self.changes.texts();
        let r4 = self.format_missing_with_indent(BytePos(b.span.hi - 1));
        proof {
            lemma_grow_trans(old(self).changes.texts(), t4, self.changes.texts());
            lemma_grow_trans(opened, t4, self.changes.texts());
        }
        match r4 {
            Ok(()) => {},
            Err(e) => {
                return Err(e);
            },
        }
        let ghost t5 = self.changes.texts();
        let r5 = self.changes.push_str_span(b.span, "}");
        proof {
            assert(t5.len() == self.changes.file_spans@.len());
            lemma_grow_after_push(
                t5,
                self.changes.texts(),
                self.changes.file_spans@,
                b.span.lo as int,
                "}"@,
            );
            lemma_grow_trans(old(self).changes.texts(), t5, self.changes.texts());
            lemma_grow_trans(opened, t5, self.changes.texts());
            lemma_matches_preserved(old(self).changes, self.changes, old(self).codemap);
        }
        match r5 {
            Ok(()) => {
                self.last_pos = BytePos(b.span.hi);
                Ok(())
            },
            Err(e) => Err(e),
        }
    }

    /// Visit a function definition or method: flush the gap, render the
    /// signature over the span up to the body, then visit the body block.
    /// Closures are not routed through here. On success the buffer holds the
    /// flushed gap followed by the rendered signature, and then whatever the
    /// body block appended.
    pub fn visit_fn(&mut self, fk: &FnKind, fd: &FnDecl, b: &Block, s: Span) -> (r: Result<
        (),
        FmtError,
    >)
        requires
            old(self).wf(),
        ensures
            final (self).wf(),
            step_ok(*old(self), *final (self)),
            match r {
                Ok(()) => final (self).last_pos.0 == b.span.hi && texts_grow(
                    append_at(
                        append_at(
                            old(self).changes.texts(),
                            old(self).changes.pos_idx(old(self).last_pos.0 as int),
                            missing_with_indent_text(
                                snippet_text(
                                    old(self).codemap,
                                    Span { lo: old(self).last_pos.0, hi: s.lo },
                                ),
                                old(self).last_pos.0 == 0,
                                old(self).block_indent as nat,
                            ),
                        ),
                        old(self).changes.pos_idx(s.lo as int),
                        fn_sig_text(fk_vis(*fk), fk_ident(*fk), fk_eself(*fk), *fd),
                    ),
                    final (self).changes.texts(),
                ),
                Err(e) => e == FmtError::UnknownFile,
            },
            fn_ok(old(self).codemap, old(self).last_pos.0 as int, s, *b) ==> (r matches Ok(())
                && final (self).changes.texts() == fn_out(
                old(self).codemap,
                old(self).changes.file_spans@,
                old(self).changes.texts(),
                old(self).last_pos.0 as int,
                old(self).block_indent as nat,
                old(self).config.tab_spaces as nat,
                fk_vis(*fk),
                fk_ident(*fk),
                fk_eself(*fk),
                *fd,
                *b,
                s,
            )),
        decreases *b, 2int,
    {
        proof {
            lemma_pos_owner(old(self).changes, old(self).codemap, old(self).last_pos.0 as int);
            lemma_pos_owner(old(self).changes, old(self).codemap, s.lo as int);
        }
        if s.lo < self.last_pos.0 {
            proof {
                lemma_grow_refl(old(self).changes.texts());
            }
            return Err(FmtError::UnknownFile);
        }
        let r0 = self.format_missing_with_indent(BytePos(s.lo));
        match r0 {
            Ok(()) => {},
            Err(e) => {
                return Err(e);
            },
        }
        let indent: usize = self.block_indent;
        let new_fn: String = match fk {
            FnKind::ItemFn(ident, vis) => {
                let none_self: Option<String> = None;
                rewrite_fn(indent, ident.as_str(), &none_self, fd, *vis)
            },
            FnKind::Method(ident, eself, vis) => {
                let v: Visibility = match vis {
                    Some(v0) => *v0,
                    None => Visibility::Inherited,
                };
                rewrite_fn(indent, ident.as_str(), eself, fd, v)
            },
        };
        let ghost t1 = self.changes.texts();
        let r1 = self.changes.push_str_span(s, new_fn.as_str());
        proof {
            assert(t1.len() == self.changes.file_spans@.len());
            lemma_grow_after_push(
                t1,
                self.changes.texts(),
                self.changes.file_spans@,
                s.lo as int,
                new_fn@,
            );
            lemma_grow_trans(old(self).changes.texts(), t1, self.changes.texts());
            lemma_matches_preserved(old(self).changes, self.changes, old(self).codemap);
            assert(new_fn@ == fn_sig_text(fk_vis(*fk), fk_ident(*fk), fk_eself(*fk), *fd));
        }
        let ghost sig_point = self.changes.texts();
        match r1 {
            Ok(()) => {},
            Err(e) => {
                return Err(e);
            },
        }
        if b.span.lo < self.last_pos.0 {
            return Err(FmtError::UnknownFile);
        }
        self.last_pos = BytePos(b.span.lo);
        let ghost t2 = self.changes.texts();
        let r2 = self.visit_block(b);
        proof {
            lemma_grow_trans(old(self).changes.texts(), t2, self.changes.texts());
            if r2 matches Ok(()) {
                lemma_grow_trans(sig_point, t2, self.changes.texts());
                lemma_grow_refl(sig_point);
            }
        }
        r2
    }

    /// Visit an item. The attribute list is inspected before any item,
    /// modules included: when the suppression marker is present the item is
    /// left untouched behind the cursor, so the next gap flush reproduces it
    /// byte for byte, attributes included.
    #[verifier::rlimit(100)]
    #[verifier::spinoff_prover]
    pub fn visit_item(&mut self, item: &Item) -> (r: Result<(), FmtError>)
        requires
            old(self).wf(),
        ensures
            final (self).wf(),
            step_ok(*old(self), *final (self)),
            match r {
                Ok(()) => {
                    &&& (item.attrs@.len() > 0 && attrs_have_skip(item.attrs@) ==> final (
                    self).last_pos.0 == item.attrs@[0].span.lo && final (self).changes.texts()
                        == append_at(
                        old(self).changes.texts(),
                        old(self).changes.pos_idx(old(self).last_pos.0 as int),
                        missing_with_indent_text(
                            snippet_text(
                                old(self).codemap,
                                Span { lo: old(self).last_pos.0, hi: item.attrs@[0].span.lo },
                            ),
                            old(self).last_pos.0 == 0,
                            old(self).block_indent as nat,
                        ),
                    ))
                    &&& (!attrs_have_skip(item.attrs@) ==> (item.kind matches ItemKind::Fn(_, b)
                        ==> final (self).last_pos.0 == b.span.hi))
                    &&& (item.attrs@.len() == 0 && (item.kind matches ItemKind::UseOther
                        || item.kind matches ItemKind::Other) ==> *final (self) == *old(self))
                    &&& (!attrs_have_skip(item.attrs@) ==> ((item.kind matches ItemKind::UseList(
                        _,
                        _,
                    ) || item.kind matches ItemKind::ExternCrate || item.kind
                        matches ItemKind::Struct) ==> final (self).last_pos.0 == item.span.hi))
                    &&& (item.attrs@.len() == 0 ==> ((item.kind matches ItemKind::ExternCrate
                        || item.kind matches ItemKind::Struct) ==> final (self).changes.texts()
                        == append_at(
                        append_at(
                            old(self).changes.texts(),
                            old(self).changes.pos_idx(old(self).last_pos.0 as int),
                            missing_with_indent_text(
                                snippet_text(
                                    old(self).codemap,
                                    Span { lo: old(self).last_pos.0, hi: item.span.lo },
                                ),
                                old(self).last_pos.0 == 0,
                                old(self).block_indent as nat,
                            ),
                        ),
                        old(self).changes.pos_idx(item.span.lo as int),
                        snippet_text(old(self).codemap, item.span),
                    )))
                    &&& (item.attrs@.len() == 0 ==> (item.kind matches ItemKind::UseList(p, l)
                        ==> final (self).changes.texts() == append_at(
                        append_at(
                            old(self).changes.texts(),
                            old(self).changes.pos_idx(old(self).last_pos.0 as int),
                            missing_with_indent_text(
                                snippet_text(
                                    old(self).codemap,
                                    Span { lo: old(self).last_pos.0, hi: item.span.lo },
                                ),
                                old(self).last_pos.0 == 0,
                                old(self).block_indent as nat,
                            ),
                        ),
                        old(self).changes.pos_idx(item.span.lo as int),
                        use_list_text(item.vis, p@, l@),
                    )))
                },
                Err(e) => e == FmtError::UnknownFile,
            },
            item_ok(old(self).codemap, old(self).last_pos.0 as int, *item) ==> (r matches Ok(())
                && final (self).last_pos.0 == item_end(
                old(self).codemap,
                old(self).last_pos.0 as int,
                *item,
            ) && final (self).changes.texts() == item_out(
                old(self).codemap,
                old(self).changes.file_spans@,
                old(self).changes.texts(),
                old(self).last_pos.0 as int,
                old(self).block_indent as nat,
                old(self).config.tab_spaces as nat,
                *item,
            )),
        decreases *item, 0int,
    {
        let ghost iok = item_ok(old(self).codemap, old(self).last_pos.0 as int, *item);
        let ghost p0 = attrs_end_at(old(self).last_pos.0 as int, item.attrs@);
        proof {
            lemma_pos_owner(old(self).changes, old(self).codemap, old(self).last_pos.0 as int);
            lemma_pos_owner(old(self).changes, old(self).codemap, p0);
            lemma_pos_owner(old(self).changes, old(self).codemap, item.span.lo as int);
        }
        if item.attrs.len() > 0 && item.attrs[0].span.lo < self.last_pos.0 {
            proof {
                lemma_grow_refl(old(self).changes.texts());
            }
            return Err(FmtError::UnknownFile);
        }
        let ra = self.visit_attrs(&item.attrs);
        match ra {
            Ok(true) => {
                return Ok(());
            },
            Ok(false) => {},
            Err(e) => {
                return Err(e);
            },
        }
        let ghost t1 = self.changes.texts();
        let r1: Result<(), FmtError> = match &item.kind {
            ItemKind::UseList(path, list) => {
                if item.span.lo < self.last_pos.0 {
                    proof {
                        lemma_grow_refl(t1);
                    }
                    Err(FmtError::UnknownFile)
                } else {
                    let rg = self.format_missing_with_indent(BytePos(item.span.lo));
                    match rg {
                        Ok(()) => {
                            let block_indent: usize = self.block_indent;
                            let one_line_budget: usize = if block_indent
                                < self.config.max_width {
                                self.config.max_width - block_indent
                            } else {
                                0
                            };
                            let multi_line_budget: usize = if block_indent
                                < self.config.ideal_width {
                                self.config.ideal_width - block_indent
                            } else {
                                0
                            };
                            let new_str = rewrite_use_list(
                                block_indent,
                                one_line_budget,
                                multi_line_budget,
                                path.as_str(),
                                list,
                                item.vis,
                            );
                            let ghost tu = self.changes.texts();
                            let rp = self.changes.push_str_span(item.span, new_str.as_str());
                            proof {
                                assert(tu.len() == self.changes.file_spans@.len());
                                lemma_grow_after_push(
                                    tu,
                                    self.changes.texts(),
                                    self.changes.file_spans@,
                                    item.span.lo as int,
                                    new_str@,
                                );
                                lemma_grow_trans(t1, tu, self.changes.texts());
                                lemma_matches_preserved(
                                    old(self).changes,
                                    self.changes,
                                    old(self).codemap,
                                );
                            }
                            match rp {
                                Ok(()) => {
                                    if item.span.hi < self.last_pos.0 {
                                        Err(FmtError::UnknownFile)
                                    } else {
                                        self.last_pos = BytePos(item.span.hi);
                                        Ok(())
                                    }
                                },
                                Err(e) => Err(e),
                            }
                        },
                        Err(e) => Err(e),
                    }
                }
            },
            ItemKind::UseOther => {
                proof {
                    lemma_grow_refl(t1);
                }
                Ok(())
            },
            ItemKind::Mod(m) => {
                let saved_indent: usize = self.block_indent;
                let tab: usize = self.config.tab_spaces;
                self.block_indent = if saved_indent <= usize::MAX - tab {
                    saved_indent + tab
                } else {
                    saved_indent
                };
                let rm = self.visit_mod(m, item.span);
                self.block_indent = saved_indent;
                rm
            },
            ItemKind::Trait(tb) => {
                let saved_indent: usize = self.block_indent;
                let tab: usize = self.config.tab_spaces;
                self.block_indent = if saved_indent <= usize::MAX - tab {
                    saved_indent + tab
                } else {
                    saved_indent
                };
                let rt = self.visit_trait_items(tb);
                self.block_indent = saved_indent;
                rt
            },
            ItemKind::Impl(ib) => {
                let saved_indent: usize = self.block_indent;
                let tab: usize = self.config.tab_spaces;
                self.block_indent = if saved_indent <= usize::MAX - tab {
                    saved_indent + tab
                } else {
                    saved_indent
                };
                let ri = self.visit_impl_items(ib);
                self.block_indent = saved_indent;
                ri
            },
            ItemKind::ExternCrate => self.copy_item_verbatim(item),
            ItemKind::Struct => self.copy_item_verbatim(item),
            ItemKind::Fn(fd, b) => {
                let fk = FnKind::ItemFn(item.ident.clone(), item.vis);
                self.visit_fn(&fk, fd, b, item.span)
            },
            ItemKind::Other => {
                proof {
                    lemma_grow_refl(t1);
                }
                Ok(())
            },
        };
        proof {
            lemma_grow_trans(old(self).changes.texts(), t1, self.changes.texts());
        }
        r1
    }

    /// Copy an item's source text verbatim over its span: the path for kinds
    /// with no dedicated formatting rule.
    fn copy_item_verbatim(&mut self, item: &Item) -> (r: Result<(), FmtError>)
        requires
            old(self).wf(),
        ensures
            final (self).wf(),
            step_ok(*old(self), *final (self)),
            match r {
                Ok(()) => final (self).last_pos.0 == item.span.hi && final (self).changes.texts()
                    == append_at(
                    append_at(
                        old(self).changes.texts(),
                        old(self).changes.pos_idx(old(self).last_pos.0 as int),
                        missing_with_indent_text(
                            snippet_text(
                                old(self).codemap,
                                Span { lo: old(self).last_pos.0, hi: item.span.lo },
                            ),
                            old(self).last_pos.0 == 0,
                            old(self).block_indent as nat,
                        ),
                    ),
                    old(self).changes.pos_idx(item.span.lo as int),
                    snippet_text(old(self).codemap, item.span),
                ),
                Err(e) => e == FmtError::UnknownFile,
            },
            (old(self).last_pos.0 <= item.span.lo && item.span.lo <= item.span.hi && old(
                self,
            ).codemap.has_owner(old(self).last_pos.0 as int) && old(self).codemap.has_owner(
                item.span.lo as int,
            )) ==> r matches Ok(()),
    {
        proof {
            lemma_pos_owner(old(self).changes, old(self).codemap, old(self).last_pos.0 as int);
            lemma_pos_owner(old(self).changes, old(self).codemap, item.span.lo as int);
        }
        if item.span.lo < self.last_pos.0 || item.span.hi < item.span.lo {
            proof {
                lemma_grow_refl(old(self).changes.texts());
            }
            return Err(FmtError::UnknownFile);
        }
        let r0 = self.format_missing_with_indent(BytePos(item.span.lo));
        match r0 {
            Ok(()) => {},
            Err(e) => {
                return Err(e);
            },
        }
        let new_str = self.snippet(item.span);
        let ghost t1 = self.changes.texts();
        let r1 = self.changes.push_str_span(item.span, new_str.as_str());
        proof {
            assert(t1.len() == self.changes.file_spans@.len());
            lemma_grow_after_push(
                t1,
                self.changes.texts(),
                self.changes.file_spans@,
                item.span.lo as int,
                new_str@,
            );
            lemma_grow_trans(old(self).changes.texts(), t1, self.changes.texts());
            lemma_matches_preserved(old(self).changes, self.changes, old(self).codemap);
        }
        match r1 {
            Ok(()) => {
                self.last_pos = BytePos(item.span.hi);
                Ok(())
            },
            Err(e) => Err(e),
        }
    }

    /// Visit the children of a trait body in source order.
    pub fn visit_trait_items(&mut self, tb: &TraitBody) -> (r: Result<(), FmtError>)
        requires
            old(self).wf(),
        ensures
            final (self).wf(),
            step_ok(*old(self), *final (self)),
            r matches Err(e) ==> e == FmtError::UnknownFile,
            tis_ok(
                old(self).codemap,
                old(self).last_pos.0 as int,
                tb.items@,
                tb.items@.len() as int,
            ) ==> (r matches Ok(()) && final (self).last_pos.0 == tis_end(
                old(self).last_pos.0 as int,
                tb.items@,
                tb.items@.len() as int,
            ) && final (self).changes.texts() == tis_outs(
                old(self).codemap,
                old(self).changes.file_spans@,
                old(self).changes.texts(),
                old(self).last_pos.0 as int,
                old(self).block_indent as nat,
                tb.items@,
                tb.items@.len() as int,
            )),
        decreases *tb, 0int,
    {
        let ghost tok = tis_ok(
            old(self).codemap,
            old(self).last_pos.0 as int,
            tb.items@,
            tb.items@.len() as int,
        );
        proof {
            lemma_grow_refl(old(self).changes.texts());
        }
        let n: usize = tb.items.len();
        let mut k: usize = 0;
        while k < n
            invariant
                self.wf(),
                n == tb.items@.len(),
                k <= n,
                self.codemap == old(self).codemap,
                self.config == old(self).config,
                self.changes.file_spans@ == old(self).changes.file_spans@,
                self.changes.names() == old(self).changes.names(),
                texts_grow(old(self).changes.texts(), self.changes.texts()),
                old(self).last_pos.0 <= self.last_pos.0,
                self.block_indent == old(self).block_indent,
                tok == tis_ok(
                    old(self).codemap,
                    old(self).last_pos.0 as int,
                    tb.items@,
                    tb.items@.len() as int,
                ),
                tok ==> self.last_pos.0 == tis_end(
                    old(self).last_pos.0 as int,
                    tb.items@,
                    k as int,
                ),
                tok ==> self.changes.texts() == tis_outs(
                    old(self).codemap,
                    old(self).changes.file_spans@,
                    old(self).changes.texts(),
                    old(self).last_pos.0 as int,
                    old(self).block_indent as nat,
                    tb.items@,
                    k as int,
                ),
            decreases n - k,
        {
            let ghost tk = self.changes.texts();
            proof {
                if tok {
                    lemma_tis_ok_at(
                        old(self).codemap,
                        old(self).last_pos.0 as int,
                        tb.items@,
                        k as int,
                        n as int,
                    );
                }
            }
            let rt = self.visit_trait_item(&tb.items[k]);
            proof {
                lemma_grow_trans(old(self).changes.texts(), tk, self.changes.texts());
            }
            match rt {
                Ok(()) => {},
                Err(e) => {
                    return Err(e);
                },
            }
            k = k + 1;
        }
        Ok(())
    }

    /// Visit the children of an impl body in source order.
    pub fn visit_impl_items(&mut self, ib: &ImplBody) -> (r: Result<(), FmtError>)
        requires
            old(self).wf(),
        ensures
            final (self).wf(),
            step_ok(*old(self), *final (self)),
            r matches Err(e) ==> e == FmtError::UnknownFile,
            iis_ok(
                old(self).codemap,
                old(self).last_pos.0 as int,
                ib.items@,
                ib.items@.len() as int,
            ) ==> (r matches Ok(()) && final (self).last_pos.0 == iis_end(
                old(self).last_pos.0 as int,
                ib.items@,
                ib.items@.len() as int,
            ) && final (self).changes.texts() == iis_outs(
                old(self).codemap,
                old(self).changes.file_spans@,
                old(self).changes.texts(),
                old(self).last_pos.0 as int,
                old(self).block_indent as nat,
                old(self).config.tab_spaces as nat,
                ib.items@,
                ib.items@.len() as int,
            )),
        decreases *ib, 0int,
    {
        let ghost iok2 = iis_ok(
            old(self).codemap,
            old(self).last_pos.0 as int,
            ib.items@,
            ib.items@.len() as int,
        );
        proof {
            lemma_grow_refl(old(self).changes.texts());
        }
        let n: usize = ib.items.len();
        let mut k: usize = 0;
        while k < n
            invariant
                self.wf(),
                n == ib.items@.len(),
                k <= n,
                self.codemap == old(self).codemap,
                self.config == old(self).config,
                self.changes.file_spans@ == old(self).changes.file_spans@,
                self.changes.names() == old(self).changes.names(),
                texts_grow(old(self).changes.texts(), self.changes.texts()),
                old(self).last_pos.0 <= self.last_pos.0,
                self.block_indent == old(self).block_indent,
                iok2 == iis_ok(
                    old(self).codemap,
                    old(self).last_pos.0 as int,
                    ib.items@,
                    ib.items@.len() as int,
                ),
                iok2 ==> self.last_pos.0 == iis_end(
                    old(self).last_pos.0 as int,
                    ib.items@,
                    k as int,
                ),
                iok2 ==> self.changes.texts() == iis_outs(
                    old(self).codemap,
                    old(self).changes.file_spans@,
                    old(self).changes.texts(),
                    old(self).last_pos.0 as int,
                    old(self).block_indent as nat,
                    old(self).config.tab_spaces as nat,
                    ib.items@,
                    k as int,
                ),
            decreases n - k,
        {
            let ghost tk = self.changes.texts();
            proof {
                if iok2 {
                    lemma_iis_ok_at(
                        old(self).codemap,
                        old(self).last_pos.0 as int,
                        ib.items@,
                        k as int,
                        n as int,
                    );
                }
            }
            let ri = self.visit_impl_item(&ib.items[k]);
            proof {
                lemma_grow_trans(old(self).changes.texts(), tk, self.changes.texts());
            }
            match ri {
                Ok(()) => {},
                Err(e) => {
                    return Err(e);
                },
            }
            k = k + 1;
        }
        Ok(())
    }

    /// Visit a trait item: only a required method gets rendered (its
    /// signature with no body); everything else is left to gap flushing.
    pub fn visit_trait_item(&mut self, ti: &TraitItem) -> (r: Result<(), FmtError>)
        requires
            old(self).wf(),
        ensures
            final (self).wf(),
            step_ok(*old(self), *final (self)),
            r matches Err(e) ==> e == FmtError::UnknownFile,
            r matches Ok(()) ==> (!attrs_have_skip(ti.attrs@) ==> (ti.kind matches
                TraitItemKind::Required(_) ==> final (self).last_pos.0 == ti.span.hi)),
            r matches Ok(()) ==> (ti.attrs@.len() > 0 && attrs_have_skip(ti.attrs@) ==> final (
            self).last_pos.0 == ti.attrs@[0].span.lo && final (self).changes.texts() == append_at(
                old(self).changes.texts(),
                old(self).changes.pos_idx(old(self).last_pos.0 as int),
                missing_with_indent_text(
                    snippet_text(
                        old(self).codemap,
                        Span { lo: old(self).last_pos.0, hi: ti.attrs@[0].span.lo },
                    ),
                    old(self).last_pos.0 == 0,
                    old(self).block_indent as nat,
                ),
            )),
            r matches Ok(()) ==> (ti.attrs@.len() == 0 ==> (ti.kind matches
                TraitItemKind::Required(sig) ==> final (self).changes.texts() == append_at(
                append_at(
                    old(self).changes.texts(),
                    old(self).changes.pos_idx(old(self).last_pos.0 as int),
                    missing_with_indent_text(
                        snippet_text(
                            old(self).codemap,
                            Span { lo: old(self).last_pos.0, hi: ti.span.lo },
                        ),
                        old(self).last_pos.0 == 0,
                        old(self).block_indent as nat,
                    ),
                ),
                old(self).changes.pos_idx(ti.span.lo as int),
                required_fn_text(Visibility::Inherited, ti.ident@, None, sig),
            ))),
            trait_item_ok(old(self).codemap, old(self).last_pos.0 as int, *ti) ==> (r matches Ok(
                (),
            ) && final (self).last_pos.0 == trait_item_end(old(self).last_pos.0 as int, *ti)
                && final (self).changes.texts() == trait_item_out(
                old(self).codemap,
                old(self).changes.file_spans@,
                old(self).changes.texts(),
                old(self).last_pos.0 as int,
                old(self).block_indent as nat,
                *ti,
            )),
        decreases *ti, 0int,
    {
        proof {
            lemma_pos_owner(old(self).changes, old(self).codemap, old(self).last_pos.0 as int);
            lemma_pos_owner(
                old(self).changes,
                old(self).codemap,
                attrs_end_at(old(self).last_pos.0 as int, ti.attrs@),
            );
            lemma_pos_owner(old(self).changes, old(self).codemap, ti.span.lo as int);
        }
        if ti.attrs.len() > 0 && ti.attrs[0].span.lo < self.last_pos.0 {
            proof {
                lemma_grow_refl(old(self).changes.texts());
            }
            return Err(FmtError::UnknownFile);
        }
        let ra = self.visit_attrs(&ti.attrs);
        match ra {
            Ok(true) => {
                return Ok(());
            },
            Ok(false) => {},
            Err(e) => {
                return Err(e);
            },
        }
        let ghost t1 = self.changes.texts();
        let out: Result<(), FmtError> = match &ti.kind {
            TraitItemKind::Required(sig) => {
                if ti.span.lo < self.last_pos.0 {
                    proof {
                        lemma_grow_refl(t1);
                    }
                    Err(FmtError::UnknownFile)
                } else {
                    let rg = self.format_missing_with_indent(BytePos(ti.span.lo));
                    match rg {
                        Ok(()) => {
                            let none_self: Option<String> = None;
                            let new_fn = rewrite_required_fn(
                                self.block_indent,
                                ti.ident.as_str(),
                                &none_self,
                                sig,
                            );
                            let ghost t2 = self.changes.texts();
                            let rp = self.changes.push_str_span(ti.span, new_fn.as_str());
                            proof {
                                assert(t2.len() == self.changes.file_spans@.len());
                                lemma_grow_after_push(
                                    t2,
                                    self.changes.texts(),
                                    self.changes.file_spans@,
                                    ti.span.lo as int,
                                    new_fn@,
                                );
                                lemma_grow_trans(t1, t2, self.changes.texts());
                                lemma_matches_preserved(
                                    old(self).changes,
                                    self.changes,
                                    old(self).codemap,
                                );
                            }
                            match rp {
                                Ok(()) => {
                                    if ti.span.hi < self.last_pos.0 {
                                        Err(FmtError::UnknownFile)
                                    } else {
                                        self.last_pos = BytePos(ti.span.hi);
                                        Ok(())
                                    }
                                },
                                Err(e) => Err(e),
                            }
                        },
                        Err(e) => Err(e),
                    }
                }
            },
            TraitItemKind::Other => {
                proof {
                    lemma_grow_refl(t1);
                }
                Ok(())
            },
        };
        proof {
            lemma_grow_trans(old(self).changes.texts(), t1, self.changes.texts());
        }
        out
    }

    /// Visit an impl item: a method with a body goes through the function
    /// path; everything else is left to gap flushing.
    pub fn visit_impl_item(&mut self, ii: &ImplItem) -> (r: Result<(), FmtError>)
        requires
            old(self).wf(),
        ensures
            final (self).wf(),
            step_ok(*old(self), *final (self)),
            r matches Err(e) ==> e == FmtError::UnknownFile,
            r matches Ok(()) ==> (!attrs_have_skip(ii.attrs@) ==> (ii.kind matches
                ImplItemKind::Method(_, _, b) ==> final (self).last_pos.0 == b.span.hi)),
            r matches Ok(()) ==> (ii.attrs@.len() > 0 && attrs_have_skip(ii.attrs@) ==> final (
            self).last_pos.0 == ii.attrs@[0].span.lo && final (self).changes.texts() == append_at(
                old(self).changes.texts(),
                old(self).changes.pos_idx(old(self).last_pos.0 as int),
                missing_with_indent_text(
                    snippet_text(
                        old(self).codemap,
                        Span { lo: old(self).last_pos.0, hi: ii.attrs@[0].span.lo },
                    ),
                    old(self).last_pos.0 == 0,
                    old(self).block_indent as nat,
                ),
            )),
            impl_item_ok(old(self).codemap, old(self).last_pos.0 as int, *ii) ==> (r matches Ok(
                (),
            ) && final (self).last_pos.0 == impl_item_end(old(self).last_pos.0 as int, *ii)
                && final (self).changes.texts() == impl_item_out(
                old(self).codemap,
                old(self).changes.file_spans@,
                old(self).changes.texts(),
                old(self).last_pos.0 as int,
                old(self).block_indent as nat,
                old(self).config.tab_spaces as nat,
                *ii,
            )),
        decreases *ii, 0int,
    {
        proof {
            lemma_pos_owner(old(self).changes, old(self).codemap, old(self).last_pos.0 as int);
        }
        if ii.attrs.len() > 0 && ii.attrs[0].span.lo < self.last_pos.0 {
            proof {
                lemma_grow_refl(old(self).changes.texts());
            }
            return Err(FmtError::UnknownFile);
        }
        let ra = self.visit_attrs(&ii.attrs);
        match ra {
            Ok(true) => {
                return Ok(());
            },
            Ok(false) => {},
            Err(e) => {
                return Err(e);
            },
        }
        let ghost t1 = self.changes.texts();
        let out: Result<(), FmtError> = match &ii.kind {
            ImplItemKind::Method(eself, fd, b) => {
                let eself2: Option<String> = match eself {
                    Some(s0) => Some(s0.clone()),
                    None => None,
                };
                let fk = FnKind::Method(ii.ident.clone(), eself2, None);
                self.visit_fn(&fk, fd, b, ii.span)
            },
            ImplItemKind::Other => {
                proof {
                    lemma_grow_refl(t1);
                }
                Ok(())
            },
        };
        proof {
            lemma_grow_trans(old(self).changes.texts(), t1, self.changes.texts());
        }
        out
    }

    /// Visit a macro invocation: no rewriting rule exists, so the traversal
    /// leaves every byte of it to gap flushing.
    pub fn visit_mac(&mut self, mac: &Mac) -> (r: Result<(), FmtError>)
        ensures
            *final (self) == *old(self),
            r matches Ok(()),
    {
        let _span = mac.span;
        Ok(())
    }

    /// Visit a module body at `s`: only a module whose inside lives in the
    /// same file as its declaration is descended into — cross-file child
    /// traversal is out of scope. A position that no file owns is a desync.
    pub fn visit_mod(&mut self, m: &ModBody, s: Span) -> (r: Result<(), FmtError>)
        requires
            old(self).wf(),
        ensures
            final (self).wf(),
            step_ok(*old(self), *final (self)),
            r matches Err(e) ==> e == FmtError::UnknownFile,
            r matches Ok(()) ==> (old(self).codemap.has_owner(s.lo as int) && old(
                self,
            ).codemap.has_owner(m.inner.lo as int) && old(self).codemap.owner_of(s.lo as int) != old(
                self,
            ).codemap.owner_of(m.inner.lo as int) ==> *final (self) == *old(self)),
            mod_ok(old(self).codemap, old(self).last_pos.0 as int, *m, s) ==> (r matches Ok(())
                && final (self).last_pos.0 == mod_end(
                old(self).codemap,
                old(self).last_pos.0 as int,
                *m,
                s,
            ) && final (self).changes.texts() == mod_out(
                old(self).codemap,
                old(self).changes.file_spans@,
                old(self).changes.texts(),
                old(self).last_pos.0 as int,
                old(self).block_indent as nat,
                old(self).config.tab_spaces as nat,
                *m,
                s,
            )),
        decreases *m, 0int,
    {
        let ghost mok = mod_ok(old(self).codemap, old(self).last_pos.0 as int, *m, s);
        let f1 = self.codemap.file_idx_for(s.lo);
        let f2 = self.codemap.file_idx_for(m.inner.lo);
        let same: bool = match (f1, f2) {
            (Some(a), Some(b)) => a == b,
            _ => {
                proof {
                    lemma_grow_refl(old(self).changes.texts());
                }
                return Err(FmtError::UnknownFile);
            },
        };
        if !same {
            proof {
                lemma_grow_refl(old(self).changes.texts());
            }
            return Ok(());
        }
        proof {
            lemma_grow_refl(old(self).changes.texts());
        }
        let n: usize = m.items.len();
        let mut k: usize = 0;
        while k < n
            invariant
                self.wf(),
                n == m.items@.len(),
                k <= n,
                self.codemap == old(self).codemap,
                self.config == old(self).config,
                self.changes.file_spans@ == old(self).changes.file_spans@,
                self.changes.names() == old(self).changes.names(),
                texts_grow(old(self).changes.texts(), self.changes.texts()),
                old(self).last_pos.0 <= self.last_pos.0,
                self.block_indent == old(self).block_indent,
                mok == mod_ok(old(self).codemap, old(self).last_pos.0 as int, *m, s),
                old(self).codemap.has_owner(s.lo as int),
                old(self).codemap.has_owner(m.inner.lo as int),
                old(self).codemap.owner_of(s.lo as int) == old(self).codemap.owner_of(
                    m.inner.lo as int,
                ),
                mok ==> self.last_pos.0 == items_end(
                    old(self).codemap,
                    old(self).last_pos.0 as int,
                    m.items@,
                    k as int,
                ),
                mok ==> self.changes.texts() == items_outs(
                    old(self).codemap,
                    old(self).changes.file_spans@,
                    old(self).changes.texts(),
                    old(self).last_pos.0 as int,
                    old(self).block_indent as nat,
                    old(self).config.tab_spaces as nat,
                    m.items@,
                    k as int,
                ),
            decreases n - k,
        {
            let ghost tk = self.changes.texts();
            proof {
                assert(decreases_to!(m.items => m.items@[k as int]));
                if mok {
                    lemma_items_ok_at(
                        old(self).codemap,
                        old(self).last_pos.0 as int,
                        m.items@,
                        k as int,
                        m.items@.len() as int,
                    );
                }
            }
            let ri = self.visit_item(&m.items[k]);
            proof {
                lemma_grow_trans(old(self).changes.texts(), tk, self.changes.texts());
            }
            match ri {
                Ok(()) => {},
                Err(e) => {
                    return Err(e);
                },
            }
            k = k + 1;
        }
        Ok(())
    }
}

/// Two span-addressed appends that land in the same buffer compose into one
/// append of the concatenation.
pub proof fn lemma_put_put_same(
    spans: Seq<(u32, u32)>,
    texts: Seq<Seq<char>>,
    p: int,
    q: int,
    x: Seq<char>,
    y: Seq<char>,
)
    requires
        texts.len() == spans.len(),
        crate::changes::span_table_has(spans, p),
        crate::changes::span_table_has(spans, q),
        crate::changes::span_table_idx(spans, p) == crate::changes::span_table_idx(spans, q),
    ensures
        ({
            let i = crate::changes::span_table_idx(spans, p);
            put(spans, put(spans, texts, p, x), q, y) == texts.update(i, texts[i] + x + y)
        }),
{
    let i = crate::changes::span_table_idx(spans, p);
    assert(0 <= i < spans.len());
    assert((texts[i] + x) + y =~= texts[i] + x + y);
    assert(put(spans, put(spans, texts, p, x), q, y) =~~= texts.update(i, texts[i] + x + y));
}

/// A span-addressed append on an already-updated buffer extends the same
/// entry when both positions share the file.
pub proof fn lemma_put_on_updated(
    spans: Seq<(u32, u32)>,
    texts: Seq<Seq<char>>,
    i: int,
    x: Seq<char>,
    q: int,
    y: Seq<char>,
)
    requires
        texts.len() == spans.len(),
        0 <= i < spans.len(),
        crate::changes::span_table_has(spans, q),
        crate::changes::span_table_idx(spans, q) == i,
    ensures
        put(spans, texts.update(i, x), q, y) == texts.update(i, x + y),
{
    assert(put(spans, texts.update(i, x), q, y) =~~= texts.update(i, x + y));
}

/// What one visit step does to the buffers, concretely: when the cursor and
/// an expression's span lie in the same file's range, the emission appends to
/// that file's buffer exactly the verbatim gap followed by the rendering —
/// the gap flushed once, nothing else touched. And when the rendering equals
/// the node's own source text (nothing needs to change), the appended text is
/// exactly the source from the cursor to the node's end: every byte once,
/// none dropped, none duplicated — the coverage and convergence claims tied
/// to the emission the visit contracts pin.
pub proof fn lemma_emission_accounts_once(ch: ChangeSet, cm: CodeMap, pos: int, e: Expr)
    requires
        ch.wf(),
        ch.matches_codemap(cm),
        0 <= pos <= e.span.lo <= e.span.hi,
        ch.has_pos(pos),
        ch.has_pos(e.span.lo as int),
        ch.pos_idx(pos) == ch.pos_idx(e.span.lo as int),
        e.span.hi <= ch.file_spans@[ch.pos_idx(pos)].1,
    ensures
        ({
            let i = ch.pos_idx(pos);
            expr_out(cm, ch.file_spans@, ch.texts(), pos, e) == ch.texts().update(
                i,
                ch.texts()[i] + cm.flat_slice(pos, e.span.lo as int) + expr_text(e),
            )
        }),
        expr_text(e) == cm.flat_slice(e.span.lo as int, e.span.hi as int) ==> ({
            let i = ch.pos_idx(pos);
            expr_out(cm, ch.file_spans@, ch.texts(), pos, e) == ch.texts().update(
                i,
                ch.texts()[i] + cm.flat_slice(pos, e.span.hi as int),
            )
        }),
{
    let i = ch.pos_idx(pos);
    assert(0 <= i < ch.file_spans@.len());
    // The flushed gap's snippet is the flat-space slice: the whole region
    // sits inside file i.
    let gspan = Span { lo: pos as u32, hi: e.span.lo as u32 };
    assert(ch.file_spans@[i].0 <= pos && e.span.lo <= ch.file_spans@[i].1);
    assert(crate::codemap::span_in_file(cm.files@[i], gspan));
    assert(snippet_text(cm, gspan) == cm.flat_slice(pos, e.span.lo as int)) by {
        assert(crate::codemap::span_wf(gspan));
    }
    lemma_put_put_same(
        ch.file_spans@,
        ch.texts(),
        pos,
        e.span.lo as int,
        snippet_text(cm, gspan),
        expr_text(e),
    );
    if expr_text(e) == cm.flat_slice(e.span.lo as int, e.span.hi as int) {
        crate::codemap::lemma_flat_slice_concat(cm, pos, e.span.lo as int, e.span.hi as int);
        assert(ch.texts()[i] + cm.flat_slice(pos, e.span.lo as int) + expr_text(e)
            =~= ch.texts()[i] + cm.flat_slice(pos, e.span.hi as int));
    }
}

/// Convergence at the block level, tied to the emission the block visit's
/// contract pins: over a single file, for a block holding one trailing
/// expression, when the inner and closing gaps are already in the
/// collapsed-and-indented form and the expression's rendering equals its own
/// source text — nothing needs to change — the block emission appends to the
/// owning buffer exactly the source from the cursor to the block's end:
/// every byte once, none dropped, none duplicated, byte-identical output.
#[verifier::rlimit(100)]
#[verifier::spinoff_prover]
pub proof fn lemma_block_emission_converges(
    ch: ChangeSet,
    cm: CodeMap,
    pos: int,
    indent: nat,
    tab: nat,
    b: Block,
    e: Expr,
)
    requires
        ch.wf(),
        ch.matches_codemap(cm),
        b.stmts@.len() == 0,
        b.expr == Some(e),
        0 <= pos <= b.span.lo,
        b.span.lo + 2 <= b.span.hi,
        b.span.lo + 1 <= e.span.lo,
        e.span.lo <= e.span.hi,
        e.span.hi <= b.span.hi - 1,
        ch.has_pos(pos),
        b.span.hi <= ch.file_spans@[ch.pos_idx(pos)].1,
        cm.flat_char(b.span.lo as int) == '{',
        cm.flat_char(b.span.hi - 1) == '}',
        missing_with_indent_text(
            cm.flat_slice(b.span.lo + 1, e.span.lo as int),
            false,
            bump(indent, tab),
        ) == cm.flat_slice(b.span.lo + 1, e.span.lo as int),
        expr_text(e) == cm.flat_slice(e.span.lo as int, e.span.hi as int),
        missing_with_indent_text(cm.flat_slice(e.span.hi as int, b.span.hi - 1), false, indent)
            == cm.flat_slice(e.span.hi as int, b.span.hi - 1),
    ensures
        ({
            let i = ch.pos_idx(pos);
            block_out(cm, ch.file_spans@, ch.texts(), pos, indent, tab, b) == ch.texts().update(
                i,
                ch.texts()[i] + cm.flat_slice(pos, b.span.hi as int),
            )
        }),
{
    let spans = ch.file_spans@;
    let texts = ch.texts();
    let i = ch.pos_idx(pos);
    assert(0 <= i < spans.len());
    assert(texts.len() == spans.len());
    // Every position from the cursor to the block's end sits in range i.
    assert forall|p: int| pos <= p < b.span.hi implies ch.has_pos(p) && #[trigger] ch.pos_idx(p)
        == i by {
        assert((spans[i]).0 <= p < spans[i].1);
        assert(crate::changes::span_table_has(spans, p));
        ch.lemma_pos_unique(p, ch.pos_idx(p), i);
    }
    // Snippets inside the file are flat-space slices.
    assert forall|a: int, c: int|
        pos <= a <= c <= b.span.hi implies #[trigger] snippet_text(
        cm,
        Span { lo: a as u32, hi: c as u32 },
    ) == cm.flat_slice(a, c) by {
        let sp = Span { lo: a as u32, hi: c as u32 };
        assert(crate::codemap::span_in_file(cm.files@[i], sp));
        assert(crate::codemap::span_wf(sp));
    }
    // Unfold the emission step by step, all appends landing in entry i.
    let g0 = cm.flat_slice(pos, b.span.lo as int);
    let g1 = cm.flat_slice(b.span.lo + 1, e.span.lo as int);
    let et = cm.flat_slice(e.span.lo as int, e.span.hi as int);
    let g2 = cm.flat_slice(e.span.hi as int, b.span.hi - 1);
    assert(ch.has_pos(b.span.lo as int) && ch.pos_idx(b.span.lo as int) == i);
    assert(ch.has_pos(b.span.lo + 1) && ch.pos_idx(b.span.lo + 1) == i);
    assert(ch.has_pos(e.span.lo as int) && ch.pos_idx(e.span.lo as int) == i);
    assert(ch.has_pos(e.span.hi as int) && ch.pos_idx(e.span.hi as int) == i);
    reveal_strlit("{");
    reveal_strlit("}");
    assert("{"@ =~= seq!['{']);
    assert("}"@ =~= seq!['}']);
    assert(put(spans, texts, pos, g0) == texts.update(i, texts[i] + g0)) by {
        assert(put(spans, texts, pos, g0) =~~= texts.update(i, texts[i] + g0));
    }
    lemma_put_on_updated(spans, texts, i, texts[i] + g0, b.span.lo as int, "{"@);
    lemma_put_on_updated(spans, texts, i, texts[i] + g0 + "{"@, b.span.lo + 1, g1);
    lemma_put_on_updated(spans, texts, i, texts[i] + g0 + "{"@ + g1, e.span.lo as int, Seq::<
        char,
    >::empty());
    assert(cm.flat_slice(e.span.lo as int, e.span.lo as int) =~= Seq::<char>::empty());
    lemma_put_on_updated(
        spans,
        texts,
        i,
        texts[i] + g0 + "{"@ + g1 + Seq::<char>::empty(),
        e.span.lo as int,
        et,
    );
    assert(texts[i] + g0 + "{"@ + g1 + Seq::<char>::empty() =~= texts[i] + g0 + "{"@ + g1);
    lemma_put_on_updated(
        spans,
        texts,
        i,
        texts[i] + g0 + "{"@ + g1 + Seq::<char>::empty() + et,
        e.span.hi as int,
        g2,
    );
    lemma_put_on_updated(
        spans,
        texts,
        i,
        texts[i] + g0 + "{"@ + g1 + Seq::<char>::empty() + et + g2,
        b.span.lo as int,
        "}"@,
    );
    // The stitched pieces are exactly the source from the cursor to the end.
    assert(cm.flat_slice(b.span.lo as int, b.span.lo + 1) =~= seq!['{']);
    assert(cm.flat_slice(b.span.hi - 1, b.span.hi as int) =~= seq!['}']);
    crate::codemap::lemma_flat_slice_concat(cm, pos, b.span.lo as int, b.span.lo + 1);
    crate::codemap::lemma_flat_slice_concat(cm, pos, b.span.lo + 1, e.span.lo as int);
    crate::codemap::lemma_flat_slice_concat(cm, pos, e.span.lo as int, e.span.hi as int);
    crate::codemap::lemma_flat_slice_concat(cm, pos, e.span.hi as int, b.span.hi - 1);
    crate::codemap::lemma_flat_slice_concat(cm, pos, b.span.hi - 1, b.span.hi as int);
    assert(texts[i] + g0 + "{"@ + g1 + Seq::<char>::empty() + et + g2 + "}"@ =~= texts[i]
        + cm.flat_slice(pos, b.span.hi as int));
    assert(block_out(cm, spans, texts, pos, indent, tab, b) == texts.update(
        i,
        texts[i] + cm.flat_slice(pos, b.span.hi as int),
    ));
}

/// The text a traversal emits over a chain of node spans: before each node
/// the gap from the cursor to the node's start is flushed verbatim, then the
/// node's rendering is written, and the cursor advances to the node's end.
pub open spec fn emit_chain(
    cm: CodeMap,
    pos: int,
    spans: Seq<Span>,
    renders: Seq<Seq<char>>,
) -> Seq<char>
    decreases spans.len(),
{
    if spans.len() == 0 {
        Seq::<char>::empty()
    } else {
        cm.flat_slice(pos, spans[0].lo as int) + renders[0] + emit_chain(
            cm,
            spans[0].hi as int,
            spans.drop_first(),
            renders.drop_first(),
        )
    }
}

/// Is the chain of spans ordered and ahead of the cursor?
pub open spec fn spans_chained(pos: int, spans: Seq<Span>) -> bool {
    &&& forall|k: int| 0 <= k < spans.len() ==> span_wf(#[trigger] spans[k])
    &&& forall|k: int| 0 <= k < spans.len() - 1 ==> (#[trigger] spans[k]).hi <= spans[k + 1].lo
    &&& (spans.len() > 0 ==> pos <= spans[0].lo)
}

/// A chained cursor never lies past the last span's end.
pub proof fn lemma_spans_mono(pos: int, spans: Seq<Span>)
    requires
        spans_chained(pos, spans),
        spans.len() > 0,
    ensures
        pos <= spans[spans.len() - 1].hi,
    decreases spans.len(),
{
    if spans.len() == 1 {
    } else {
        let tspans = spans.drop_first();
        assert(spans_chained(spans[0].hi as int, tspans)) by {
            assert forall|k: int| 0 <= k < tspans.len() implies span_wf(#[trigger] tspans[k]) by {
                assert(tspans[k] == spans[k + 1]);
            }
            assert forall|k: int| 0 <= k < tspans.len() - 1 implies (#[trigger] tspans[k]).hi
                <= tspans[k + 1].lo by {
                assert(tspans[k] == spans[k + 1]);
                assert(tspans[k + 1] == spans[k + 2]);
            }
            assert(tspans[0] == spans[1]);
        }
        lemma_spans_mono(spans[0].hi as int, tspans);
        assert(tspans[tspans.len() - 1] == spans[spans.len() - 1]);
    }
}

/// Coverage: for adjacent visited spans `[a, b)` then `[c, d)` with `b <= c`,
/// the gap `[b, c)` is flushed exactly once, before `[c, d)` is written — the
/// emitted text accounts for every source position from `a` to `d` exactly
/// once, none skipped and none duplicated.
pub proof fn lemma_gap_flushed_once(cm: CodeMap, a: int, b: int, c: int, d: int)
    requires
        a <= b <= c <= d,
    ensures
        cm.flat_slice(a, b) + cm.flat_slice(b, c) + cm.flat_slice(c, d) == cm.flat_slice(a, d),
{
    crate::codemap::lemma_flat_slice_concat(cm, a, b, c);
    crate::codemap::lemma_flat_slice_concat(cm, a, c, d);
}

/// Verbatim idempotence: when every node's rendering equals its own source
/// text — nothing needs to change — the gap-flush and node-render paths
/// converge, and the emitted text is byte-identical to the original source
/// from the cursor to the last node's end.
#[verifier::rlimit(100)]
#[verifier::spinoff_prover]
pub proof fn lemma_verbatim_idempotent(
    cm: CodeMap,
    pos: int,
    spans: Seq<Span>,
    renders: Seq<Seq<char>>,
)
    requires
        spans.len() == renders.len(),
        spans.len() > 0,
        spans_chained(pos, spans),
        forall|k: int|
            0 <= k < spans.len() ==> (#[trigger] renders[k]) == cm.flat_slice(
                spans[k].lo as int,
                spans[k].hi as int,
            ),
    ensures
        emit_chain(cm, pos, spans, renders) == cm.flat_slice(
            pos,
            spans[spans.len() - 1].hi as int,
        ),
    decreases spans.len(),
{
    let s0 = spans[0];
    if spans.len() == 1 {
        crate::codemap::lemma_flat_slice_concat(cm, pos, s0.lo as int, s0.hi as int);
        assert(emit_chain(cm, s0.hi as int, spans.drop_first(), renders.drop_first())
            =~= Seq::<char>::empty());
        assert(cm.flat_slice(pos, s0.lo as int) + renders[0] + Seq::<char>::empty() =~= cm.flat_slice(
            pos,
            s0.lo as int,
        ) + renders[0]);
    } else {
        let tspans = spans.drop_first();
        let trenders = renders.drop_first();
        assert(spans_chained(s0.hi as int, tspans)) by {
            assert forall|k: int| 0 <= k < tspans.len() implies span_wf(#[trigger] tspans[k]) by {
                assert(tspans[k] == spans[k + 1]);
            }
            assert forall|k: int| 0 <= k < tspans.len() - 1 implies (#[trigger] tspans[k]).hi
                <= tspans[k + 1].lo by {
                assert(tspans[k] == spans[k + 1]);
                assert(tspans[k + 1] == spans[k + 2]);
            }
            assert(tspans[0] == spans[1]);
        }
        assert forall|k: int| 0 <= k < tspans.len() implies (#[trigger] trenders[k])
            == cm.flat_slice(tspans[k].lo as int, tspans[k].hi as int) by {
            assert(tspans[k] == spans[k + 1]);
            assert(trenders[k] == renders[k + 1]);
        }
        lemma_verbatim_idempotent(cm, s0.hi as int, tspans, trenders);
        lemma_spans_mono(s0.hi as int, tspans);
        assert(tspans[tspans.len() - 1] == spans[spans.len() - 1]);
        crate::codemap::lemma_flat_slice_concat(cm, pos, s0.lo as int, s0.hi as int);
        crate::codemap::lemma_flat_slice_concat(
            cm,
            pos,
            s0.hi as int,
            spans[spans.len() - 1].hi as int,
        );
        assert(cm.flat_slice(pos, s0.lo as int) + renders[0] + emit_chain(
            cm,
            s0.hi as int,
            tspans,
            trenders,
        ) =~= (cm.flat_slice(pos, s0.lo as int) + renders[0]) + emit_chain(
            cm,
            s0.hi as int,
            tspans,
            trenders,
        ));
    }
}

/// Skip-marker fidelity: a suppressed item leaves the write cursor at its
/// first attribute, so the next verbatim flush past the item reproduces its
/// source — the leading attribute list included — byte for byte, as a prefix
/// of the flushed text.
pub proof fn lemma_skip_fidelity(cm: CodeMap, attr_lo: int, item_hi: int, end: int)
    requires
        attr_lo <= item_hi <= end,
    ensures
        cm.flat_slice(attr_lo, item_hi).is_prefix_of(cm.flat_slice(attr_lo, end)),
        cm.flat_slice(attr_lo, end).subrange(0, item_hi - attr_lo) == cm.flat_slice(
            attr_lo,
            item_hi,
        ),
{
    assert(cm.flat_slice(attr_lo, end).subrange(0, item_hi - attr_lo) =~= cm.flat_slice(
        attr_lo,
        item_hi,
    ));
}

} // verus!
