use mdanchors::{
    attach_pdf_positions, anchors_to_lookup, ensure_blank_lines_before_tables,
    offset_to_line_column, pdf_positions_from_query, split_frontmatter, AnchorMeta, PdfPosition,
};

#[test]
fn test_split_frontmatter_basic() {
    let md = "---\ntitle: Test\n---\n\n# Hello";
    let (fm, content) = split_frontmatter(md);
    assert!(fm.starts_with("---"));
    assert!(fm.ends_with("---\n"));
    assert!(content.starts_with("\n# Hello"));
}

#[test]
fn test_split_frontmatter_none() {
    let md = "# Hello\n\nWorld";
    let (fm, content) = split_frontmatter(md);
    assert_eq!(fm, "");
    assert_eq!(content, md);
}

#[test]
fn test_table_blank_line() {
    let md = "Some text\n| A | B |\n|---|---|";
    let result = ensure_blank_lines_before_tables(md);
    assert!(result.contains("Some text\n\n| A | B |"));
}

#[test]
fn test_table_at_document_start_untouched() {
    let md = "| A | B |\n|---|---|\n| 1 | 2 |";
    let result = ensure_blank_lines_before_tables(md);
    assert_eq!(result, md);
}

#[test]
fn test_offset_to_line_column() {
    let src = "ab\ncd\n\nxyz";
    assert_eq!(offset_to_line_column(src, 0), (0, 0));
    assert_eq!(offset_to_line_column(src, 4), (1, 1));
    assert_eq!(offset_to_line_column(src, 7), (3, 0));
}

#[test]
fn test_query_positions_location_object() {
    let json = br#"[{"label":"tf-doc-start","location":{"page":2,"position":{"x":10.5,"y":"20.25"}}}]"#;
    let m = pdf_positions_from_query(json).unwrap();
    assert_eq!(m.len(), 1);
    assert_eq!(m[0].0, "tf-doc-start");
    assert_eq!(m[0].1.page, 2);
    assert_eq!(m[0].1.x, "10.5");
    assert_eq!(m[0].1.y, "20.25");
}

#[test]
fn test_query_positions_rect_fallback() {
    let json = br#"[{"value":{"label":"tf-hr-1"},"rect":[3.5,7,9,9]}]"#;
    let m = pdf_positions_from_query(json).unwrap();
    assert_eq!(m.len(), 1);
    assert_eq!(m[0].0, "tf-hr-1");
    assert_eq!(m[0].1.page, 1);
    assert_eq!(m[0].1.x, "3.5");
    assert_eq!(m[0].1.y, "7");
}

#[test]
fn test_query_signed_page_and_word_coordinates() {
    let json =
        br#"[{"label":"tf-doc-start","location":{"page":"+2","position":{"x":"inf","y":"NaN"}}}]"#;
    let m = pdf_positions_from_query(json).unwrap();
    assert_eq!(m.len(), 1);
    assert_eq!(m[0].1.page, 2);
    assert_eq!(m[0].1.x, "inf");
    assert_eq!(m[0].1.y, "NaN");
}

#[test]
fn test_query_skips_foreign_labels() {
    let json = br#"[{"label":"intro","location":{"page":1,"position":{"x":1,"y":2}}}]"#;
    let m = pdf_positions_from_query(json).unwrap();
    assert_eq!(m.len(), 0);
}

#[test]
fn test_query_malformed_json() {
    let json = b"not json at all";
    assert!(pdf_positions_from_query(json).is_err());
}

#[test]
fn test_attach_pdf_positions_join_totality() {
    let anchors = vec![
        AnchorMeta { id: String::from("tf-doc-start"), offset: 0, line: 0, column: 0 },
        AnchorMeta { id: String::from("hello"), offset: 5, line: 2, column: 0 },
    ];
    let positions = vec![
        (
            String::from("tf-doc-start"),
            PdfPosition { page: 1, x: String::from("0"), y: String::from("0") },
        ),
    ];
    let payload = attach_pdf_positions(&anchors, &positions);
    assert_eq!(payload.anchors.len(), 2);
    assert_eq!(payload.anchors[0].id, "tf-doc-start");
    assert!(payload.anchors[0].pdf.is_some());
    assert_eq!(payload.anchors[0].editor.offset, 0);
    assert_eq!(payload.anchors[1].id, "hello");
    assert!(payload.anchors[1].pdf.is_none());
    assert_eq!(payload.anchors[1].editor.line, 2);
}

#[test]
fn test_anchors_to_lookup() {
    let anchors = vec![
        AnchorMeta { id: String::from("tf-doc-start"), offset: 0, line: 0, column: 0 },
        AnchorMeta { id: String::from("intro"), offset: 7, line: 1, column: 3 },
    ];
    let lookup = anchors_to_lookup(&anchors);
    assert_eq!(lookup.len(), 2);
    assert_eq!(lookup[1].0, "intro");
    assert_eq!(lookup[1].1.offset, 7);
    assert_eq!(lookup[1].1.line, 1);
    assert_eq!(lookup[1].1.column, 3);
}

#[test]
fn test_empty_citation_group_kept() {
    let md = "text [@] more [@ ; @ ] and [@, p. 1]";
    let result = mdanchors::preprocess_markdown(md, true).unwrap();
    assert!(result.markdown.contains("[@]"));
    assert!(result.markdown.contains("[@ ; @ ]"));
    assert!(result.markdown.contains("[@, p. 1]"));
    assert!(!result.markdown.contains("#cite("));
}
