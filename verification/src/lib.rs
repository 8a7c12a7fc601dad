//! A markdown-to-typesetting preprocessor with bidirectional position
//! mapping: it rewrites markdown by injecting invisible anchor markers
//! tied to source offsets, and later joins those anchors with positions
//! reported by the render engine into a source map.

pub mod anchors;
pub mod bytestr;
pub mod citations;
pub mod events;
pub mod lines;
pub mod normalize;
pub mod preprocess;
pub mod slug;
pub mod source_map;
pub mod types;

pub use anchors::{inject_anchors, InjectionContext, PreprocessError, build_anchor_markup};
pub use citations::convert_citations;
pub use normalize::{ensure_blank_lines_before_tables, split_frontmatter};
pub use preprocess::preprocess_markdown;
pub use slug::slugify;
pub use source_map::{attach_pdf_positions, pdf_positions_from_query, QueryError};
pub use types::{
    offset_to_line_column, anchors_to_lookup, AnchorEntry, AnchorMeta, CleanupResponse,
    EditorPosition, PdfPosition, PreprocessorOutput, SourceMapPayload,
};
