//! Per-construct rendering rules and text utilities the visitor consumes:
//! indent strings, whitespace trimming, gap rendering, and the one-line
//! renderings of expressions, function signatures and list imports. Each
//! executable rule is specified exactly by a spec-level mirror.
//!
//! The renderings here are deliberately single-line: wrapping within a width
//! budget is a per-construct layout concern left to dedicated rules, so the
//! budgets are accepted and threaded but do not yet change the output.

use crate::ast::{Attribute, Expr, ExprKind, FnDecl, Param, Visibility};
use crate::codemap::{snippet_text, CodeMap, Span};
use crate::render::count_char;
use vstd::prelude::*;
use vstd::string::StrSliceExecFns;
use vstd::string::StringExecFns;

verus! {

/// `n` spaces.
pub open spec fn spaces(n: nat) -> Seq<char>
    decreases n,
{
    if n == 0 {
        Seq::<char>::empty()
    } else {
        spaces((n - 1) as nat) + seq![' ']
    }
}

/// An indent string of `n` spaces.
pub fn make_indent(n: usize) -> (r: String)
    ensures
        r@ == spaces(n as nat),
{
    let mut out = String::new();
    let mut i: usize = 0;
    while i < n
        invariant
            i <= n,
            out@ == spaces(i as nat),
        decreases n - i,
    {
        crate::render::push_char(&mut out, ' ');
        i = i + 1;
    }
    out
}

/// Is `c` horizontal or vertical whitespace?
pub open spec fn is_ws(c: char) -> bool {
    c == ' ' || c == '\t' || c == '\n' || c == '\r'
}

pub fn is_ws_char(c: char) -> (r: bool)
    ensures
        r == is_ws(c),
{
    c == ' ' || c == '\t' || c == '\n' || c == '\r'
}

/// `s` without leading whitespace.
pub open spec fn trim_front(s: Seq<char>) -> Seq<char>
    decreases s.len(),
{
    if s.len() > 0 && is_ws(s[0]) {
        trim_front(s.drop_first())
    } else {
        s
    }
}

/// `s` without trailing whitespace.
pub open spec fn trim_back(s: Seq<char>) -> Seq<char>
    decreases s.len(),
{
    if s.len() > 0 && is_ws(s[s.len() - 1]) {
        trim_back(s.drop_last())
    } else {
        s
    }
}

/// `s` without leading and trailing whitespace.
pub open spec fn trim_ws(s: Seq<char>) -> Seq<char> {
    trim_back(trim_front(s))
}

/// When the first `a` characters are whitespace and the one after them (if
/// any) is not, trimming the front keeps exactly the tail from `a`.
pub proof fn lemma_trim_front(s: Seq<char>, a: int)
    requires
        0 <= a <= s.len(),
        forall|j: int| 0 <= j < a ==> is_ws(#[trigger] s[j]),
        a < s.len() ==> !is_ws(s[a]),
    ensures
        trim_front(s) == s.subrange(a, s.len() as int),
    decreases a,
{
    if a == 0 {
        assert(trim_front(s) =~= s.subrange(0, s.len() as int));
    } else {
        lemma_trim_front(s.drop_first(), a - 1);
        assert(s.drop_first().subrange(a - 1, s.drop_first().len() as int) =~= s.subrange(
            a,
            s.len() as int,
        ));
    }
}

/// When the characters from `b` on are whitespace and the one before `b` (if
/// any) is not, trimming the back keeps exactly the head up to `b`.
pub proof fn lemma_trim_back(s: Seq<char>, b: int)
    requires
        0 <= b <= s.len(),
        forall|j: int| b <= j < s.len() ==> is_ws(#[trigger] s[j]),
        b > 0 ==> !is_ws(s[b - 1]),
    ensures
        trim_back(s) == s.subrange(0, b),
    decreases s.len() - b,
{
    if b == s.len() {
        if s.len() > 0 && is_ws(s[s.len() - 1]) {
            assert(false);
        }
        assert(trim_back(s) =~= s.subrange(0, b));
    } else {
        lemma_trim_back(s.drop_last(), b);
        assert(s.drop_last().subrange(0, b) =~= s.subrange(0, b));
    }
}

/// `s` with both ends trimmed.
pub fn trim_str(s: &str) -> (r: String)
    ensures
        r@ == trim_ws(s@),
{
    let n: usize = s.unicode_len();
    let mut a: usize = 0;
    while a < n && is_ws_char(s.get_char(a))
        invariant
            n == s@.len(),
            a <= n,
            forall|j: int| 0 <= j < a ==> is_ws(#[trigger] s@[j]),
        decreases n - a,
    {
        a = a + 1;
    }
    proof {
        lemma_trim_front(s@, a as int);
    }
    if a == n {
        proof {
            assert(trim_front(s@) =~= Seq::<char>::empty());
            assert(trim_ws(s@) =~= Seq::<char>::empty());
        }
        return String::new();
    }
    let mut b: usize = n;
    while b > a && is_ws_char(s.get_char(b - 1))
        invariant
            n == s@.len(),
            a <= b <= n,
            a < n,
            !is_ws(s@[a as int]),
            forall|j: int| b <= j < n ==> is_ws(#[trigger] s@[j]),
        decreases b,
    {
        b = b - 1;
    }
    let sub: &str = s.substring_char(a, b);
    let out = String::from_str(sub);
    proof {
        // b > a here: position a is not whitespace, so the back scan stopped
        // at or after a + 1.
        let front = s@.subrange(a as int, n as int);
        lemma_trim_back(front, b - a);
        assert(front.subrange(0, b - a) =~= s@.subrange(a as int, b as int));
    }
    out
}

/// Does `s` open a line comment?
pub open spec fn starts_slashes(s: Seq<char>) -> bool {
    s.len() >= 2 && s[0] == '/' && s[1] == '/'
}

pub fn starts_slashes_str(s: &str) -> (r: bool)
    ensures
        r == starts_slashes(s@),
{
    let n: usize = s.unicode_len();
    n >= 2 && s.get_char(0) == '/' && s.get_char(1) == '/'
}

/// Counting a character distributes over concatenation.
pub proof fn lemma_count_char_concat(a: Seq<char>, b: Seq<char>, c: char)
    ensures
        count_char(a + b, c) == count_char(a, c) + count_char(b, c),
    decreases a.len(),
{
    if a.len() == 0 {
        assert(a + b =~= b);
    } else {
        lemma_count_char_concat(a.drop_first(), b, c);
        assert((a + b).drop_first() =~= a.drop_first() + b);
    }
}

/// How many line breaks `s` holds.
pub fn count_newlines(s: &str) -> (r: usize)
    ensures
        r == count_char(s@, '\n'),
{
    let n: usize = s.unicode_len();
    let mut i: usize = 0;
    let mut count: usize = 0;
    while i < n
        invariant
            n == s@.len(),
            i <= n,
            count == count_char(s@.subrange(0, i as int), '\n'),
            count <= i,
        decreases n - i,
    {
        let c: char = s.get_char(i);
        proof {
            let pre = s@.subrange(0, i as int);
            lemma_count_char_concat(pre, seq![c], '\n');
            assert(s@.subrange(0, i + 1) =~= pre + seq![c]);
            assert(seq![c].drop_first() =~= Seq::<char>::empty());
            assert(count_char(Seq::<char>::empty(), '\n') == 0);
            assert(seq![c].len() == 1);
        }
        if c == '\n' {
            count = count + 1;
        }
        i = i + 1;
    }
    proof {
        assert(s@.subrange(0, n as int) =~= s@);
    }
    count
}

/// The one-line rendering of an expression: operands joined around the
/// operator with single spaces.
pub open spec fn expr_text(e: Expr) -> Seq<char>
    decreases e,
{
    match e.kind {
        ExprKind::Path(s) => s@,
        ExprKind::Binary(op, l, r) => expr_text(*l) + seq![' '] + op@ + seq![' '] + expr_text(*r),
    }
}

/// Render an expression within a width budget at an offset. The kinds
/// modelled here always render on one line, so the budget does not yet
/// change the output.
pub fn rewrite_expr(e: &Expr, width: usize, offset: usize) -> (r: String)
    ensures
        r@ == expr_text(*e),
    decreases *e,
{
    match &e.kind {
        ExprKind::Path(s) => s.clone(),
        ExprKind::Binary(op, l, r) => {
            let mut out = rewrite_expr(l, width, offset);
            out.append(" ");
            out.append(op.as_str());
            out.append(" ");
            let rhs = rewrite_expr(r, width, offset);
            out.append(rhs.as_str());
            proof {
                reveal_strlit(" ");
                assert(" "@ =~= seq![' ']);
                assert(out@ =~= expr_text(*e));
            }
            out
        },
    }
}

/// The rendering of a visibility qualifier.
pub open spec fn vis_text(v: Visibility) -> Seq<char> {
    if v == Visibility::Public {
        "pub "@
    } else {
        Seq::<char>::empty()
    }
}

/// The first `k` parameters, joined with comma-space, each as `name: type`.
pub open spec fn params_text(ps: Seq<Param>, k: int) -> Seq<char>
    decreases k,
{
    if k <= 0 {
        Seq::<char>::empty()
    } else {
        params_text(ps, k - 1) + (if k - 1 > 0 {
            ", "@
        } else {
            Seq::<char>::empty()
        }) + ps[k - 1].name@ + ": "@ + ps[k - 1].ty@
    }
}

/// The argument list: the explicit self parameter first when present, then
/// the formals.
pub open spec fn arg_list_text(eself: Option<String>, ps: Seq<Param>) -> Seq<char> {
    match eself {
        Some(s) => if ps.len() > 0 {
            s@ + ", "@ + params_text(ps, ps.len() as int)
        } else {
            s@
        },
        None => params_text(ps, ps.len() as int),
    }
}

/// The return-type clause, or nothing.
pub open spec fn ret_text(ret: Option<String>) -> Seq<char> {
    match ret {
        Some(t) => " -> "@ + t@,
        None => Seq::<char>::empty(),
    }
}

/// The signature without its trailing separator:
/// `[pub ]fn name(args)[ -> ret]`.
pub open spec fn fn_sig_core(
    vis: Visibility,
    ident: Seq<char>,
    eself: Option<String>,
    fd: FnDecl,
) -> Seq<char> {
    vis_text(vis) + "fn "@ + ident + "("@ + arg_list_text(eself, fd.params@) + ")"@ + ret_text(
        fd.ret,
    )
}

/// The signature of a function definition, ending in the space before its
/// body's opening brace.
pub open spec fn fn_sig_text(
    vis: Visibility,
    ident: Seq<char>,
    eself: Option<String>,
    fd: FnDecl,
) -> Seq<char> {
    fn_sig_core(vis, ident, eself, fd) + " "@
}

/// The signature of a required method, ending in its semicolon.
pub open spec fn required_fn_text(
    vis: Visibility,
    ident: Seq<char>,
    eself: Option<String>,
    fd: FnDecl,
) -> Seq<char> {
    fn_sig_core(vis, ident, eself, fd) + ";"@
}

/// Render the signature core shared by definitions and required methods.
fn rewrite_fn_core(ident: &str, eself: &Option<String>, fd: &FnDecl, vis: Visibility) -> (r:
    String)
    ensures
        r@ == fn_sig_core(vis, ident@, *eself, *fd),
{
    let mut out = String::new();
    match vis {
        Visibility::Public => {
            out.append("pub ");
        },
        Visibility::Inherited => {
            proof {
                assert(out@ =~= vis_text(vis));
            }
        },
    }
    out.append("fn ");
    out.append(ident);
    out.append("(");
    proof {
        assert(out@ =~= vis_text(vis) + "fn "@ + ident@ + "("@);
    }
    let ghost prefix = out@;
    match eself {
        Some(s) => {
            out.append(s.as_str());
            if fd.params.len() > 0 {
                out.append(", ");
            }
        },
        None => {},
    }
    let ghost with_self = out@;
    let n: usize = fd.params.len();
    let mut k: usize = 0;
    while k < n
        invariant
            n == fd.params@.len(),
            k <= n,
            out@ == with_self + params_text(fd.params@, k as int),
        decreases n - k,
    {
        if k > 0 {
            out.append(", ");
        }
        out.append(fd.params[k].name.as_str());
        out.append(": ");
        out.append(fd.params[k].ty.as_str());
        proof {
            assert(out@ =~= with_self + params_text(fd.params@, k + 1));
        }
        k = k + 1;
    }
    proof {
        assert(with_self =~= prefix + match *eself {
            Some(s) => if fd.params@.len() > 0 {
                s@ + ", "@
            } else {
                s@
            },
            None => Seq::<char>::empty(),
        });
        assert(out@ =~= vis_text(vis) + "fn "@ + ident@ + "("@ + arg_list_text(
            *eself,
            fd.params@,
        ));
    }
    out.append(")");
    let ghost with_args = out@;
    match &fd.ret {
        Some(t) => {
            out.append(" -> ");
            out.append(t.as_str());
            proof {
                assert(out@ =~= with_args + " -> "@ + t@);
            }
        },
        None => {},
    }
    proof {
        assert(out@ =~= fn_sig_core(vis, ident@, *eself, *fd));
    }
    out
}

/// Render the formatted signature of a function definition, bounded by the
/// enclosing indent and the caller's width budget. The one-line rendering
/// does not yet consume the budget.
pub fn rewrite_fn(
    indent: usize,
    ident: &str,
    eself: &Option<String>,
    fd: &FnDecl,
    vis: Visibility,
) -> (r: String)
    ensures
        r@ == fn_sig_text(vis, ident@, *eself, *fd),
{
    let mut out = rewrite_fn_core(ident, eself, fd, vis);
    out.append(" ");
    out
}

/// Render the signature of a required trait method, with no body.
pub fn rewrite_required_fn(indent: usize, ident: &str, eself: &Option<String>, fd: &FnDecl) -> (r:
    String)
    ensures
        r@ == required_fn_text(Visibility::Inherited, ident@, *eself, *fd),
{
    let mut out = rewrite_fn_core(ident, eself, fd, Visibility::Inherited);
    out.append(";");
    out
}

/// The first `k` entries of an import list, joined with comma-space.
pub open spec fn entries_text(es: Seq<String>, k: int) -> Seq<char>
    decreases k,
{
    if k <= 0 {
        Seq::<char>::empty()
    } else {
        entries_text(es, k - 1) + (if k - 1 > 0 {
            ", "@
        } else {
            Seq::<char>::empty()
        }) + es[k - 1]@
    }
}

/// The rendering of a list-form import:
/// `[pub ]use path::{a, b, ...};`.
pub open spec fn use_list_text(vis: Visibility, path: Seq<char>, es: Seq<String>) -> Seq<char> {
    vis_text(vis) + "use "@ + path + "::{"@ + entries_text(es, es.len() as int) + "};"@
}

/// Render a list-form import. Two budgets are supplied, one for a single-line
/// layout and a softer one for a wrapped layout; the rendering here is always
/// single-line, so only the first shape is produced.
pub fn rewrite_use_list(
    block_indent: usize,
    one_line_budget: usize,
    multi_line_budget: usize,
    path: &str,
    path_list: &Vec<String>,
    vis: Visibility,
) -> (r: String)
    ensures
        r@ == use_list_text(vis, path@, path_list@),
{
    let mut out = String::new();
    match vis {
        Visibility::Public => {
            out.append("pub ");
        },
        Visibility::Inherited => {
            proof {
                assert(out@ =~= vis_text(vis));
            }
        },
    }
    out.append("use ");
    out.append(path);
    out.append("::{");
    let ghost prefix = out@;
    let n: usize = path_list.len();
    let mut k: usize = 0;
    while k < n
        invariant
            n == path_list@.len(),
            k <= n,
            out@ == prefix + entries_text(path_list@, k as int),
        decreases n - k,
    {
        if k > 0 {
            out.append(", ");
        }
        out.append(path_list[k].as_str());
        proof {
            assert(out@ =~= prefix + entries_text(path_list@, k + 1));
        }
        k = k + 1;
    }
    out.append("};");
    proof {
        assert(out@ =~= use_list_text(vis, path@, path_list@));
    }
    out
}

/// A line break followed by the current indent.
pub open spec fn newline_indent(indent: nat) -> Seq<char> {
    seq!['\n'] + spaces(indent)
}

/// The rendering of the gap between the write cursor and the next node: kept
/// comments re-indented onto their own line, surrounding blank runs collapsed
/// to a single indented line break; nothing at all for an empty gap at the
/// very start of the input.
pub open spec fn missing_with_indent_text(gap: Seq<char>, at_start: bool, indent: nat) -> Seq<
    char,
> {
    let kept = trim_ws(gap);
    let brk = newline_indent(indent);
    if kept.len() == 0 {
        if at_start {
            Seq::<char>::empty()
        } else {
            brk
        }
    } else {
        (if at_start {
            Seq::<char>::empty()
        } else {
            brk
        }) + kept + brk
    }
}

/// Render a gap under the collapse-and-indent rule.
pub fn missing_with_indent_str(gap: &str, at_start: bool, indent: usize) -> (r: String)
    ensures
        r@ == missing_with_indent_text(gap@, at_start, indent as nat),
{
    let kept = trim_str(gap);
    let ind = make_indent(indent);
    let mut out = String::new();
    if kept.as_str().unicode_len() == 0 {
        if !at_start {
            out.append("\n");
            out.append(ind.as_str());
        }
        proof {
            reveal_strlit("\n");
            assert("\n"@ =~= seq!['\n']);
            assert(out@ =~= missing_with_indent_text(gap@, at_start, indent as nat));
        }
        out
    } else {
        if !at_start {
            out.append("\n");
            out.append(ind.as_str());
        }
        out.append(kept.as_str());
        out.append("\n");
        out.append(ind.as_str());
        proof {
            reveal_strlit("\n");
            assert("\n"@ =~= seq!['\n']);
            assert(out@ =~= missing_with_indent_text(gap@, at_start, indent as nat));
        }
        out
    }
}

/// The rendering of the first `k` attributes of an item's list: each
/// attribute's source text verbatim, with inter-attribute gaps compacted —
/// a trimmed comment is kept on its own indented line; a blank line between
/// doc-style attributes survives only when the original gap held more than
/// one line break; otherwise the gap collapses to one indented line break.
pub open spec fn rewrite_attrs_text(cm: CodeMap, attrs: Seq<Attribute>, indent: nat, k: int) -> Seq<
    char,
>
    decreases k,
{
    if k <= 0 {
        Seq::<char>::empty()
    } else {
        let prev = rewrite_attrs_text(cm, attrs, indent, k - 1);
        let a_str = snippet_text(cm, attrs[k - 1].span);
        let piece = if k - 1 == 0 {
            a_str
        } else {
            let comment = snippet_text(
                cm,
                Span { lo: attrs[k - 2].span.hi, hi: attrs[k - 1].span.lo },
            );
            let multi = starts_slashes(a_str) && count_char(comment, '\n') > 1;
            let ctrim = trim_ws(comment);
            (if ctrim.len() > 0 {
                spaces(indent) + ctrim + seq!['\n']
            } else if multi {
                seq!['\n']
            } else {
                Seq::<char>::empty()
            }) + spaces(indent) + a_str
        };
        prev + piece + (if k - 1 < attrs.len() - 1 {
            seq!['\n']
        } else {
            Seq::<char>::empty()
        })
    }
}

} // verus!
