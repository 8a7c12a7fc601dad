use mdanchors::{inject_anchors, preprocess_markdown, slugify};

#[test]
fn test_slugify() {
    assert_eq!(slugify("Hello World"), "hello-world");
    assert_eq!(slugify("API Reference"), "api-reference");
    assert_eq!(slugify("What's New?"), "whats-new");
}

#[test]
fn test_inject_anchors_basic() {
    let md = "# Hello\n\nWorld";
    let result = inject_anchors(md).unwrap();
    assert!(result.markdown.contains("tf-doc-start"));
    assert!(result.markdown.contains("#label(\"hello\")"));
}

#[test]
fn test_preprocess_basic() {
    let md = "# Hello\n\nParagraph here.";
    let result = preprocess_markdown(md, false).unwrap();

    assert!(result.markdown.contains("tf-doc-start"));
    assert!(result.markdown.contains("#label(\"hello\")"));
    assert!(!result.anchors.is_empty());
}

#[test]
fn test_preprocess_with_frontmatter() {
    let md = "---\ntitle: Test\n---\n\n# Hello";
    let result = preprocess_markdown(md, false).unwrap();

    assert!(result.markdown.starts_with("---\ntitle: Test\n---"));
    assert!(result.markdown.contains("#label(\"hello\")"));
}

#[test]
fn test_duplicate_headings() {
    let md = "# Intro\n\n# Intro\n\n# Intro";
    let result = preprocess_markdown(md, false).unwrap();

    assert!(result.markdown.contains("#label(\"intro\")"));
    assert!(result.markdown.contains("#label(\"intro-1\")"));
    assert!(result.markdown.contains("#label(\"intro-2\")"));
}

#[test]
fn test_citation_conversion() {
    // Simple citation - WITH bibliography
    let md = "According to Einstein [@einstein1905], ...";
    let result = preprocess_markdown(md, true).unwrap();
    assert!(result.markdown.contains("#cite(<einstein1905>)"));
    assert!(!result.markdown.contains("[@einstein1905]"));

    // Multiple citations - WITH bibliography
    let md2 = "Multiple sources [@knuth1984; @lamport1986] show...";
    let result2 = preprocess_markdown(md2, true).unwrap();
    assert!(result2.markdown.contains("#cite(<knuth1984>) #cite(<lamport1986>)"));

    // Citation with page number - WITH bibliography
    let md3 = "See [@einstein1905, p. 42] for details.";
    let result3 = preprocess_markdown(md3, true).unwrap();
    assert!(result3.markdown.contains("#cite(<einstein1905>, supplement: [p. 42])"));
}

#[test]
fn test_citation_no_conversion_without_bibliography() {
    // Without bibliography, citations should remain as plain text to prevent crashes
    let md = "According to Einstein [@einstein1905], multiple sources [@knuth1984; @lamport1986] show...";
    let result = preprocess_markdown(md, false).unwrap();

    // Citations should NOT be converted
    assert!(!result.markdown.contains("#cite("));
    // Original citations should be preserved
    assert!(result.markdown.contains("[@einstein1905]"));
    assert!(result.markdown.contains("[@knuth1984; @lamport1986]"));
}

#[test]
fn test_doc_start_anchor_first() {
    let md = "# Hello\n\nWorld";
    let result = preprocess_markdown(md, false).unwrap();
    assert_eq!(result.anchors[0].id, "tf-doc-start");
    assert_eq!(result.anchors[0].offset, 0);
}

#[test]
fn test_no_two_insertions_share_an_offset() {
    let md = "# A\n\npara\n\n---\n\n```rust\nlet x = 1;\n```\n\n- item one\n- item two\n";
    let result = inject_anchors(md).unwrap();
    // every anchor identifier appears, and identifiers are unique
    let mut ids: Vec<&str> = result.anchors.iter().map(|a| a.id.as_str()).collect();
    let n = ids.len();
    ids.sort();
    ids.dedup();
    assert_eq!(ids.len(), n);
}

#[test]
fn test_image_stem_filtered_then_capped() {
    // the stem is filtered to identifier-safe characters first, then
    // capped at twenty, so dropped characters do not shorten the cap
    let md = "text\n![alt](images/my+photo+of+cats+and+dogs.png)\n";
    let result = inject_anchors(md).unwrap();
    assert!(result.markdown.contains("#label(\"tf-img-myphotoofcatsanddogs-1\")"));
}

#[test]
fn test_try_add_anchor_offset_set_semantics() {
    let md = "abc\ndef";
    let mut ctx = mdanchors::InjectionContext::new(md);
    // the document-start marker owns offset 0
    assert!(!ctx.try_add_anchor(md, 0, 0, String::from("tf-x")));
    // a later offset is free, a smaller unclaimed one still is too
    assert!(ctx.try_add_anchor(md, 7, 4, String::from("tf-a")));
    assert!(ctx.try_add_anchor(md, 4, 4, String::from("tf-b")));
    // an offset already claimed is refused, whatever came after it
    assert!(!ctx.try_add_anchor(md, 4, 4, String::from("tf-c")));
    assert_eq!(ctx.anchors.len(), 3);
}

#[test]
fn test_heading_explicit_id() {
    let md = "# Title {#custom-id}";
    let result = inject_anchors(md).unwrap();
    assert!(result.markdown.contains("#label(\"custom-id\")"));
}

#[test]
fn test_code_fence_language_id() {
    let md = "para\n\n```rust\nlet x = 1;\n```\n";
    let result = inject_anchors(md).unwrap();
    assert!(result.markdown.contains("#label(\"tf-code-rust1\")"));
}

#[test]
fn test_horizontal_rule_id() {
    let md = "para\n\n---\n\nafter\n";
    let result = inject_anchors(md).unwrap();
    assert!(result.markdown.contains("#label(\"tf-hr-1\")"));
}

#[test]
fn test_frontmatter_prefix_is_byte_identical() {
    let md = "---\ntitle: Test\n---\n\n# Hello";
    let result = preprocess_markdown(md, false).unwrap();
    let prefix = "---\ntitle: Test\n---\n";
    assert_eq!(&result.markdown[..prefix.len()], prefix);
    for a in &result.anchors {
        assert!(a.offset >= prefix.len());
    }
}

#[test]
fn test_round_trip_line_column_with_frontmatter() {
    let md = "---\ntitle: T\n---\n\n# Hello\n\nWorld";
    let result = preprocess_markdown(md, false).unwrap();
    for a in &result.anchors {
        let (line, column) = mdanchors::offset_to_line_column(&result.markdown, a.offset);
        assert_eq!((line, column), (a.line, a.column));
    }
}
