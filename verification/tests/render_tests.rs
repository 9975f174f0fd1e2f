use builder::events::{parse_events, MdEvent};
use builder::escape::{escape_href, escape_html};
use builder::highlight::RenderError;
use builder::render::{assemble_pieces, code_slice, render_markdown, render_plan, Piece};
use builder::text::u64_to_dec;

#[test]
fn escapes_the_five_entities() {
    assert_eq!(escape_html("a<b&c>\"'"), "a&lt;b&amp;c&gt;&quot;&#39;");
}

#[test]
fn escapes_href_bytes() {
    assert_eq!(escape_href("http://e.com/a b"), "http://e.com/a%20b");
    assert_eq!(escape_href("x&y"), "x&amp;y");
    assert_eq!(escape_href("it's"), "it&#x27;s");
    assert_eq!(escape_href("caf\u{e9}"), "caf%C3%A9");
}

#[test]
fn formats_decimals() {
    assert_eq!(u64_to_dec(0), "0");
    assert_eq!(u64_to_dec(3), "3");
    assert_eq!(u64_to_dec(305), "305");
}

#[test]
fn renders_a_paragraph() {
    assert_eq!(render_markdown("hello").unwrap(), "<p>hello</p>");
}

#[test]
fn collapses_all_heading_levels() {
    assert_eq!(render_markdown("# title").unwrap(), "<h3>title</h3>");
    assert_eq!(render_markdown("###### title").unwrap(), "<h3>title</h3>");
}

#[test]
fn escapes_inline_text() {
    assert_eq!(render_markdown("a \\<b\\>").unwrap(), "<p>a &lt;b&gt;</p>");
}

#[test]
fn renders_inline_code_escaped() {
    assert_eq!(render_markdown("`x<y`").unwrap(), "<p><code>x&lt;y</code></p>");
}

#[test]
fn renders_emphasis_and_strong() {
    assert_eq!(
        render_markdown("*a* and **b**").unwrap(),
        "<p><em>a</em> and <strong>b</strong></p>"
    );
}

#[test]
fn renders_links_with_escaped_destination() {
    assert_eq!(
        render_markdown("[t](http://e.com/p's)").unwrap(),
        "<p><a href=\"http://e.com/p&#x27;s\">t</a></p>"
    );
}

#[test]
fn renders_unordered_list() {
    assert_eq!(
        render_markdown("- a\n- b").unwrap(),
        "<ul><li>a</li><li>b</li></ul>"
    );
}

#[test]
fn ordered_list_from_one_has_no_start() {
    let html = render_markdown("1. a\n2. b").unwrap();
    assert_eq!(html, "<ol><li>a</li><li>b</li></ol>");
}

#[test]
fn ordered_list_from_three_names_its_start() {
    let html = render_markdown("3. a\n4. b").unwrap();
    assert_eq!(html, "<ol start=\"3\">\n<li>a</li><li>b</li></ol>");
}

#[test]
fn recovers_code_block_bytes_exactly() {
    let src = "```rust\nfn a(){}\n```";
    let events = parse_events(src);
    let plan = render_plan(&events);
    let mut found = false;
    let mut fills: Vec<String> = Vec::new();
    for piece in plan.iter() {
        if let Piece::Highlight { lang, start, end } = piece {
            found = true;
            assert_eq!(lang, "rust");
            let code = code_slice(src, *start, *end);
            // the range covers exactly the fence's content: no fence
            // markers, and only the newline that is inside the fence
            assert_eq!(code, "fn a(){}\n");
            fills.push(code.to_string());
        }
    }
    assert!(found);
    // a stub highlighter that echoes its input: the assembled output is
    // exactly the recovered source text
    let out = assemble_pieces(&plan, &fills);
    assert_eq!(out, "fn a(){}\n");
}

#[test]
fn code_block_with_surrounding_text_echoes_exactly() {
    let src = "before\n\n```rust\nlet x = 1;\nlet y = 2;\n```\n\nafter";
    let events = parse_events(src);
    let plan = render_plan(&events);
    let mut fills: Vec<String> = Vec::new();
    for piece in plan.iter() {
        if let Piece::Highlight { start, end, .. } = piece {
            fills.push(code_slice(src, *start, *end).to_string());
        }
    }
    assert_eq!(fills.len(), 1);
    assert_eq!(fills[0], "let x = 1;\nlet y = 2;\n");
    let out = assemble_pieces(&plan, &fills);
    assert_eq!(out, "<p>before</p>let x = 1;\nlet y = 2;\n<p>after</p>");
}

#[test]
fn empty_code_block_yields_empty_range() {
    let src = "```rust\n```";
    let events = parse_events(src);
    let plan = render_plan(&events);
    let mut fills: Vec<String> = Vec::new();
    for piece in plan.iter() {
        if let Piece::Highlight { start, end, .. } = piece {
            assert!(start <= end);
            fills.push(code_slice(src, *start, *end).to_string());
        }
    }
    assert_eq!(fills, vec![String::new()]);
}

#[test]
fn unknown_language_fails_naming_the_tag() {
    let err = render_markdown("```qqqzzzqq\nx\n```").unwrap_err();
    match err {
        RenderError::UnknownLanguage { ref lang } => assert_eq!(lang, "qqqzzzqq"),
        _ => panic!("expected an unknown-language failure"),
    }
    assert_eq!(err.message(), "language \"qqqzzzqq\" not found");
}

#[test]
fn known_language_highlights() {
    let html = render_markdown("```rust\nfn a(){}\n```").unwrap();
    assert!(html.contains("<pre"));
    assert!(html.contains("</pre>"));
}

#[test]
fn fence_info_first_token_is_the_language() {
    let events = parse_events("```rust extra tokens\nx\n```");
    let plan = render_plan(&events);
    let mut langs: Vec<String> = Vec::new();
    for piece in plan.iter() {
        if let Piece::Highlight { lang, .. } = piece {
            langs.push(lang.clone());
        }
    }
    assert_eq!(langs, vec!["rust".to_string()]);
}

#[test]
fn raw_html_passes_through() {
    let html = render_markdown("a <span class=\"x\">b</span>").unwrap();
    assert_eq!(html, "<p>a <span class=\"x\">b</span></p>");
}

#[test]
fn parse_events_sees_code_blocks() {
    let events = parse_events("```rust\nfn a(){}\n```");
    assert!(events
        .iter()
        .any(|e| matches!(e, MdEvent::CodeBlockStart { .. })));
}

#[test]
fn highlighting_is_deterministic() {
    let a = render_markdown("```rust\nfn a(){}\n```").unwrap();
    let b = render_markdown("```rust\nfn a(){}\n```").unwrap();
    assert_eq!(a, b);
}
