use fmtcore::ast::{
    Attribute, Block, Expr, ExprKind, FnDecl, ImplBody, ImplItem, ImplItemKind, Item, ItemKind,
    MetaItem, ModBody, Param, Stmt, StmtKind, TraitBody, TraitItem, TraitItemKind, Visibility,
};
use fmtcore::changes::ChangeSet;
use fmtcore::codemap::{BytePos, CodeMap, SourceFile, Span};
use fmtcore::config::{Config, NewlineStyle};
use fmtcore::render::system_newlines;
use fmtcore::rewrite::{make_indent, rewrite_expr, rewrite_required_fn, rewrite_use_list, trim_str};
use fmtcore::visitor::FmtVisitor;
use fmtcore::FmtError;

fn one_file_map(name: &str, src: &str) -> CodeMap {
    CodeMap {
        files: vec![SourceFile {
            name: name.to_string(),
            src: src.to_string(),
            start_pos: 0,
            end_pos: src.len() as u32,
        }],
    }
}

fn two_file_map() -> CodeMap {
    // File A owns [0, 10), file B owns [10, 25).
    CodeMap {
        files: vec![
            SourceFile {
                name: "a.rs".to_string(),
                src: "aaaaaaaaaa".to_string(),
                start_pos: 0,
                end_pos: 10,
            },
            SourceFile {
                name: "b.rs".to_string(),
                src: "bbbbbbbbbbbbbbb".to_string(),
                start_pos: 10,
                end_pos: 25,
            },
        ],
    }
}

#[test]
fn resolve_splits_at_file_boundary() {
    let cm = two_file_map();
    let cs = ChangeSet::from_codemap(&cm);
    let pieces = cs.filespans_for_span(BytePos(5), BytePos(20));
    assert_eq!(pieces, vec![(5, 10), (10, 20)]);
}

#[test]
fn resolve_zero_length_span_is_empty() {
    let cm = two_file_map();
    let cs = ChangeSet::from_codemap(&cm);
    let pieces = cs.filespans_for_span(BytePos(7), BytePos(7));
    assert!(pieces.is_empty());
}

#[test]
fn resolve_empty_index_is_empty() {
    let cm = CodeMap { files: vec![] };
    let cs = ChangeSet::from_codemap(&cm);
    let pieces = cs.filespans_for_span(BytePos(0), BytePos(100));
    assert!(pieces.is_empty());
}

#[test]
fn resolve_single_file_whole_span() {
    let cm = one_file_map("m.rs", "0123456789");
    let cs = ChangeSet::from_codemap(&cm);
    let pieces = cs.filespans_for_span(BytePos(2), BytePos(8));
    assert_eq!(pieces, vec![(2, 8)]);
}

#[test]
fn push_str_unknown_file_is_reported() {
    let cm = one_file_map("m.rs", "abc");
    let mut cs = ChangeSet::from_codemap(&cm);
    assert_eq!(cs.push_str("other.rs", "x"), Err(FmtError::UnknownFile));
    assert_eq!(cs.push_str("m.rs", "x"), Ok(()));
}

#[test]
fn cur_offset_counts_from_last_line_break() {
    let cm = one_file_map("m.rs", &"x".repeat(30));
    let mut cs = ChangeSet::from_codemap(&cm);
    cs.push_str("m.rs", "Hello\nWorld! How goes it?").unwrap();
    assert_eq!(cs.cur_offset("m.rs"), Ok(19));
    assert_eq!(cs.cur_offset("missing.rs"), Err(FmtError::UnknownFile));
}

#[test]
fn cur_offset_without_line_break_is_length() {
    let cm = one_file_map("m.rs", &"x".repeat(20));
    let mut cs = ChangeSet::from_codemap(&cm);
    cs.push_str("m.rs", "Hello, World!").unwrap();
    assert_eq!(cs.cur_offset("m.rs"), Ok(13));
}

#[test]
fn push_str_span_targets_owning_file() {
    let cm = two_file_map();
    let mut cs = ChangeSet::from_codemap(&cm);
    cs.push_str_span(Span { lo: 12, hi: 14 }, "into-b").unwrap();
    let text = cs.rendered_file("b.rs", NewlineStyle::Unix).unwrap();
    assert_eq!(text, "into-b");
    let text_a = cs.rendered_file("a.rs", NewlineStyle::Unix).unwrap();
    assert_eq!(text_a, "");
    assert_eq!(
        cs.push_str_span(Span { lo: 400, hi: 401 }, "x"),
        Err(FmtError::UnknownFile)
    );
}

#[test]
fn append_newlines_appends_to_every_buffer() {
    let cm = two_file_map();
    let mut cs = ChangeSet::from_codemap(&cm);
    cs.push_str("a.rs", "alpha").unwrap();
    cs.append_newlines();
    assert_eq!(cs.rendered_file("a.rs", NewlineStyle::Unix).unwrap(), "alpha\n");
    assert_eq!(cs.rendered_file("b.rs", NewlineStyle::Unix).unwrap(), "\n");
}

#[test]
fn file_iterator_yields_snapshot_in_order() {
    let cm = two_file_map();
    let mut cs = ChangeSet::from_codemap(&cm);
    cs.push_str("b.rs", "brave").unwrap();
    let mut it = cs.text();
    let (n1, t1) = it.next().unwrap();
    assert_eq!((n1.as_str(), t1.as_str()), ("a.rs", ""));
    let (n2, t2) = it.next().unwrap();
    assert_eq!((n2.as_str(), t2.as_str()), ("b.rs", "brave"));
    assert!(it.next().is_none());
    assert!(it.next().is_none());
}

#[test]
fn display_text_lists_files() {
    let cm = one_file_map("m.rs", "abc");
    let mut cs = ChangeSet::from_codemap(&cm);
    cs.push_str("m.rs", "abc").unwrap();
    assert_eq!(cs.display_text(), "m.rs:\nabc\n\n");
}

#[test]
fn unix_rendering_is_identity() {
    assert_eq!(system_newlines("a\nb\r\nc", NewlineStyle::Unix), "a\nb\r\nc");
}

#[test]
fn windows_rendering_normalizes_line_breaks() {
    assert_eq!(system_newlines("a\nb", NewlineStyle::Windows), "a\r\nb");
    assert_eq!(system_newlines("a\r\nb", NewlineStyle::Windows), "a\r\nb");
    assert_eq!(system_newlines("a\r\r\nb", NewlineStyle::Windows), "a\r\nb");
    assert_eq!(system_newlines("\r", NewlineStyle::Windows), "");
    assert_eq!(system_newlines("", NewlineStyle::Windows), "");
}

#[test]
fn snippet_of_unresolvable_span_is_empty() {
    let cm = two_file_map();
    let v = FmtVisitor::from_codemap(&cm);
    // Crosses the file boundary: no single file holds it.
    assert_eq!(v.snippet(Span { lo: 5, hi: 20 }), "");
    // Inside out.
    assert_eq!(v.snippet(Span { lo: 9, hi: 3 }), "");
    // Well inside one file.
    let cm2 = one_file_map("m.rs", "0123456789");
    let v2 = FmtVisitor::from_codemap(&cm2);
    assert_eq!(v2.snippet(Span { lo: 2, hi: 6 }), "2345");
}

#[test]
fn span_lookups_resolve_names() {
    let cm = two_file_map();
    assert_eq!(
        cm.span_to_filename(Span { lo: 12, hi: 14 }).unwrap(),
        "b.rs"
    );
    assert_eq!(cm.span_to_filename(Span { lo: 3, hi: 4 }).unwrap(), "a.rs");
    assert!(cm.span_to_filename(Span { lo: 30, hi: 31 }).is_none());
}

fn add_function_source() -> (&'static str, Item) {
    // fn add(a:i32,b:i32)->i32{a+b}
    // 0         1         2
    // 0123456789012345678901234567 8
    let src = "fn add(a:i32,b:i32)->i32{a+b}";
    let expr = Expr {
        span: Span { lo: 25, hi: 28 },
        kind: ExprKind::Binary(
            "+".to_string(),
            Box::new(Expr {
                span: Span { lo: 25, hi: 26 },
                kind: ExprKind::Path("a".to_string()),
            }),
            Box::new(Expr {
                span: Span { lo: 27, hi: 28 },
                kind: ExprKind::Path("b".to_string()),
            }),
        ),
    };
    let block = Block {
        span: Span { lo: 24, hi: 29 },
        stmts: vec![],
        expr: Some(expr),
    };
    let decl = FnDecl {
        params: vec![
            Param { name: "a".to_string(), ty: "i32".to_string() },
            Param { name: "b".to_string(), ty: "i32".to_string() },
        ],
        ret: Some("i32".to_string()),
    };
    let item = Item {
        span: Span { lo: 0, hi: 29 },
        ident: "add".to_string(),
        vis: Visibility::Inherited,
        attrs: vec![],
        kind: ItemKind::Fn(decl, block),
    };
    (src, item)
}

#[test]
fn formats_add_function() {
    let (src, item) = add_function_source();
    let cm = one_file_map("main.rs", src);
    let mut v = FmtVisitor::from_codemap(&cm);
    v.config = Config::new(80, 80, 4, NewlineStyle::Unix);
    v.visit_item(&item).unwrap();
    let out = v.changes.rendered_file("main.rs", NewlineStyle::Unix).unwrap();
    assert_eq!(out, "fn add(a: i32, b: i32) -> i32 {\n    a + b\n}");
}

#[test]
fn skip_marker_reproduces_item_byte_for_byte() {
    let src = "#[rustfmt_skip]\nfn  weird( x:i32 ) ->i32{ x }";
    let cm = one_file_map("main.rs", src);
    let mut v = FmtVisitor::from_codemap(&cm);
    let item = Item {
        span: Span { lo: 16, hi: src.len() as u32 },
        ident: "weird".to_string(),
        vis: Visibility::Inherited,
        attrs: vec![Attribute {
            span: Span { lo: 0, hi: 15 },
            meta: MetaItem::Word("rustfmt_skip".to_string()),
        }],
        kind: ItemKind::Other,
    };
    v.visit_item(&item).unwrap();
    // The suppressed item stays behind the cursor; the next flush copies it
    // verbatim, attributes included.
    assert_eq!(v.last_pos, BytePos(0));
    v.format_missing(BytePos(src.len() as u32)).unwrap();
    let out = v.changes.rendered_file("main.rs", NewlineStyle::Unix).unwrap();
    assert_eq!(out, src);
}

#[test]
fn attrs_without_marker_are_rendered() {
    let src = "#[a]\n\n\n#[b]\nfn f(){}";
    let cm = one_file_map("main.rs", src);
    let mut v = FmtVisitor::from_codemap(&cm);
    let attrs = vec![
        Attribute { span: Span { lo: 0, hi: 4 }, meta: MetaItem::Other },
        Attribute { span: Span { lo: 7, hi: 11 }, meta: MetaItem::Other },
    ];
    let skipped = v.visit_attrs(&attrs).unwrap();
    assert!(!skipped);
    assert_eq!(v.last_pos, BytePos(11));
    let out = v.changes.rendered_file("main.rs", NewlineStyle::Unix).unwrap();
    // The blank run between plain attributes collapses to one line break.
    assert_eq!(out, "#[a]\n#[b]");
}

#[test]
fn doc_comment_blank_line_is_preserved() {
    let src = "/// a\n\n/// b\nfn f(){}";
    let cm = one_file_map("main.rs", src);
    let mut v = FmtVisitor::from_codemap(&cm);
    let attrs = vec![
        Attribute { span: Span { lo: 0, hi: 5 }, meta: MetaItem::Other },
        Attribute { span: Span { lo: 7, hi: 12 }, meta: MetaItem::Other },
    ];
    let skipped = v.visit_attrs(&attrs).unwrap();
    assert!(!skipped);
    let out = v.changes.rendered_file("main.rs", NewlineStyle::Unix).unwrap();
    // Two line breaks sat between the doc comments, so one blank line stays.
    assert_eq!(out, "/// a\n\n/// b");
}

#[test]
fn use_list_renders_on_one_line() {
    let out = rewrite_use_list(
        0,
        80,
        60,
        "std::collections",
        &vec!["HashMap".to_string(), "HashSet".to_string()],
        Visibility::Public,
    );
    assert_eq!(out, "pub use std::collections::{HashMap, HashSet};");
}

#[test]
fn required_method_renders_with_semicolon() {
    let decl = FnDecl {
        params: vec![Param { name: "x".to_string(), ty: "u8".to_string() }],
        ret: Some("u8".to_string()),
    };
    let out = rewrite_required_fn(4, "f", &None, &decl);
    assert_eq!(out, "fn f(x: u8) -> u8;");
}

#[test]
fn expression_rendering_spaces_operands() {
    let e = Expr {
        span: Span { lo: 0, hi: 3 },
        kind: ExprKind::Binary(
            "*".to_string(),
            Box::new(Expr { span: Span { lo: 0, hi: 1 }, kind: ExprKind::Path("x".to_string()) }),
            Box::new(Expr { span: Span { lo: 2, hi: 3 }, kind: ExprKind::Path("y".to_string()) }),
        ),
    };
    assert_eq!(rewrite_expr(&e, 80, 0), "x * y");
}

#[test]
fn text_utilities_behave() {
    assert_eq!(make_indent(4), "    ");
    assert_eq!(make_indent(0), "");
    assert_eq!(trim_str("  \n x y \t "), "x y");
    assert_eq!(trim_str(" \t\n "), "");
}

#[test]
fn statements_are_visited_in_order() {
    // { x;y }
    let src = "{ x;y }";
    let cm = one_file_map("main.rs", src);
    let mut v = FmtVisitor::from_codemap(&cm);
    let b = Block {
        span: Span { lo: 0, hi: 7 },
        stmts: vec![
            Stmt {
                span: Span { lo: 2, hi: 4 },
                kind: StmtKind::Semi(Expr {
                    span: Span { lo: 2, hi: 3 },
                    kind: ExprKind::Path("x".to_string()),
                }),
            },
            Stmt {
                span: Span { lo: 4, hi: 5 },
                kind: StmtKind::Expr(Expr {
                    span: Span { lo: 4, hi: 5 },
                    kind: ExprKind::Path("y".to_string()),
                }),
            },
        ],
        expr: None,
    };
    v.visit_block(&b).unwrap();
    assert_eq!(v.last_pos, BytePos(7));
    let out = v.changes.rendered_file("main.rs", NewlineStyle::Unix).unwrap();
    // Each statement is flushed onto its own indented line; the trailing `;`
    // and spacing of the gap before `y` travel with the gap flush.
    assert_eq!(out, "{\n    x\n    ;\n    y\n}");
}

#[test]
fn desync_span_is_reported_not_swallowed() {
    let src = "abc";
    let cm = one_file_map("main.rs", src);
    let mut v = FmtVisitor::from_codemap(&cm);
    v.last_pos = BytePos(2);
    let e = Expr { span: Span { lo: 0, hi: 1 }, kind: ExprKind::Path("a".to_string()) };
    assert_eq!(v.visit_expr(&e), Err(FmtError::UnknownFile));
}

#[test]
fn adjacent_spans_cover_every_byte_once() {
    // Two adjacent visited spans: the gap between them is flushed exactly
    // once, and every original byte appears exactly once in the buffer.
    let src = "ab XY cd";
    let cm = one_file_map("main.rs", src);
    let mut v = FmtVisitor::from_codemap(&cm);
    let e1 = Expr { span: Span { lo: 3, hi: 4 }, kind: ExprKind::Path("X".to_string()) };
    let e2 = Expr { span: Span { lo: 4, hi: 5 }, kind: ExprKind::Path("Y".to_string()) };
    v.visit_expr(&e1).unwrap();
    v.visit_expr(&e2).unwrap();
    v.format_missing(BytePos(src.len() as u32)).unwrap();
    let out = v.changes.rendered_file("main.rs", NewlineStyle::Unix).unwrap();
    assert_eq!(out, src);
}

#[test]
fn formatting_formatted_output_is_identity() {
    // Format once, then format the result again with no suppression markers:
    // the second pass is byte-identical to its input.
    let (src, item) = add_function_source();
    let cm = one_file_map("main.rs", src);
    let mut v = FmtVisitor::from_codemap(&cm);
    v.config = Config::new(80, 80, 4, NewlineStyle::Unix);
    v.visit_item(&item).unwrap();
    let pass1 = v.changes.rendered_file("main.rs", NewlineStyle::Unix).unwrap();
    assert_eq!(pass1, "fn add(a: i32, b: i32) -> i32 {\n    a + b\n}");

    // The same function, parsed from the formatted text.
    let item2 = Item {
        span: Span { lo: 0, hi: pass1.len() as u32 },
        ident: "add".to_string(),
        vis: Visibility::Inherited,
        attrs: vec![],
        kind: ItemKind::Fn(
            FnDecl {
                params: vec![
                    Param { name: "a".to_string(), ty: "i32".to_string() },
                    Param { name: "b".to_string(), ty: "i32".to_string() },
                ],
                ret: Some("i32".to_string()),
            },
            Block {
                span: Span { lo: 30, hi: pass1.len() as u32 },
                stmts: vec![],
                expr: Some(Expr {
                    span: Span { lo: 36, hi: 41 },
                    kind: ExprKind::Binary(
                        "+".to_string(),
                        Box::new(Expr {
                            span: Span { lo: 36, hi: 37 },
                            kind: ExprKind::Path("a".to_string()),
                        }),
                        Box::new(Expr {
                            span: Span { lo: 40, hi: 41 },
                            kind: ExprKind::Path("b".to_string()),
                        }),
                    ),
                }),
            },
        ),
    };
    let cm2 = one_file_map("main.rs", &pass1);
    let mut v2 = FmtVisitor::from_codemap(&cm2);
    v2.config = Config::new(80, 80, 4, NewlineStyle::Unix);
    v2.visit_item(&item2).unwrap();
    let pass2 = v2.changes.rendered_file("main.rs", NewlineStyle::Unix).unwrap();
    assert_eq!(pass2, pass1);
}

#[test]
fn empty_block_renders_braces() {
    let src = "{ }";
    let cm = one_file_map("main.rs", src);
    let mut v = FmtVisitor::from_codemap(&cm);
    let b = Block { span: Span { lo: 0, hi: 3 }, stmts: vec![], expr: None };
    v.visit_block(&b).unwrap();
    let out = v.changes.rendered_file("main.rs", NewlineStyle::Unix).unwrap();
    assert_eq!(out, "{\n}");
    assert_eq!(v.last_pos, BytePos(3));
    assert_eq!(v.block_indent, 0);
}

#[test]
fn get_mut_exposes_the_named_buffer() {
    let cm = one_file_map("m.rs", "abc");
    let mut cs = ChangeSet::from_codemap(&cm);
    cs.get_mut("m.rs").unwrap().push_str("direct");
    assert!(cs.get_mut("other.rs").is_none());
    assert_eq!(cs.rendered_file("m.rs", NewlineStyle::Unix).unwrap(), "direct");
}

#[test]
fn skip_marker_suppresses_inline_module() {
    // The suppression marker is honored on modules like on any other item:
    // the module reaches the output byte-for-byte via the next gap flush.
    let src = "#[rustfmt_skip]\nmod  m { fn  f(){} }";
    let cm = one_file_map("main.rs", src);
    let mut v = FmtVisitor::from_codemap(&cm);
    let item = Item {
        span: Span { lo: 16, hi: src.len() as u32 },
        ident: "m".to_string(),
        vis: Visibility::Inherited,
        attrs: vec![Attribute {
            span: Span { lo: 0, hi: 15 },
            meta: MetaItem::Word("rustfmt_skip".to_string()),
        }],
        kind: ItemKind::Mod(ModBody { inner: Span { lo: 23, hi: src.len() as u32 - 1 }, items: vec![] }),
    };
    v.visit_item(&item).unwrap();
    assert_eq!(v.last_pos, BytePos(0));
    v.format_missing(BytePos(src.len() as u32)).unwrap();
    let out = v.changes.rendered_file("main.rs", NewlineStyle::Unix).unwrap();
    assert_eq!(out, src);
}

#[test]
fn trait_required_method_is_rendered_indented() {
    //         1111111111222222 2
    // 1234567890123456789012345 6
    let src = "trait T { fn f(x:u8)->u8; }";
    let cm = one_file_map("main.rs", src);
    let mut v = FmtVisitor::from_codemap(&cm);
    let item = Item {
        span: Span { lo: 0, hi: src.len() as u32 },
        ident: "T".to_string(),
        vis: Visibility::Inherited,
        attrs: vec![],
        kind: ItemKind::Trait(TraitBody {
            items: vec![TraitItem {
                span: Span { lo: 10, hi: 25 },
                ident: "f".to_string(),
                attrs: vec![],
                kind: TraitItemKind::Required(FnDecl {
                    params: vec![Param { name: "x".to_string(), ty: "u8".to_string() }],
                    ret: Some("u8".to_string()),
                }),
            }],
        }),
    };
    v.visit_item(&item).unwrap();
    assert_eq!(v.block_indent, 0);
    v.format_missing(BytePos(src.len() as u32)).unwrap();
    let out = v.changes.rendered_file("main.rs", NewlineStyle::Unix).unwrap();
    assert_eq!(out, "trait T {\n    fn f(x: u8) -> u8; }");
}

#[test]
fn impl_method_goes_through_the_function_path() {
    let src = "impl S { fn g(&self){x} }";
    let cm = one_file_map("main.rs", src);
    let mut v = FmtVisitor::from_codemap(&cm);
    let item = Item {
        span: Span { lo: 0, hi: src.len() as u32 },
        ident: "S".to_string(),
        vis: Visibility::Inherited,
        attrs: vec![],
        kind: ItemKind::Impl(ImplBody {
            items: vec![ImplItem {
                span: Span { lo: 9, hi: 23 },
                ident: "g".to_string(),
                attrs: vec![],
                kind: ImplItemKind::Method(
                    Some("&self".to_string()),
                    FnDecl { params: vec![], ret: None },
                    Block {
                        span: Span { lo: 20, hi: 23 },
                        stmts: vec![],
                        expr: Some(Expr {
                            span: Span { lo: 21, hi: 22 },
                            kind: ExprKind::Path("x".to_string()),
                        }),
                    },
                ),
            }],
        }),
    };
    v.visit_item(&item).unwrap();
    assert_eq!(v.block_indent, 0);
    v.format_missing(BytePos(src.len() as u32)).unwrap();
    let out = v.changes.rendered_file("main.rs", NewlineStyle::Unix).unwrap();
    assert_eq!(out, "impl S {\n    fn g(&self) {\n        x\n    } }");
}
