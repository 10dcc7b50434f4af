//! The settings groups of the unified configuration that hold no floating
//! point values: processing, chunking and visualization.

use vstd::prelude::*;
use serde_json::Value;
use crate::data::FormatType;

verus! {

/// Core processing settings.
#[derive(Debug, Clone)]
pub struct ProcessingConfig {
    /// The output format.
    pub format_type: FormatType,
    /// The most bytes per chunk.
    pub max_char_buffer: usize,
    /// How many chunks go to the model at once.
    pub batch_length: usize,
    /// The most concurrent workers.
    pub max_workers: usize,
    /// Context added to the prompt.
    pub additional_context: Option<String>,
    /// Whether debugging output is on.
    pub debug: bool,
    /// How many extraction passes are made.
    pub extraction_passes: usize,
    /// Whether output is wrapped in code fences.
    pub fence_output: Option<bool>,
    /// Whether schema constraints are used.
    pub use_schema_constraints: bool,
    /// Further parameters, each name once.
    pub custom_params: Vec<(String, Value)>,
}

impl Default for ProcessingConfig {
    fn default() -> (c: Self)
        ensures
            c.format_type == FormatType::Json,
            c.max_char_buffer == 8000,
            c.batch_length == 4,
            c.max_workers == 6,
            c.additional_context is None,
            !c.debug,
            c.extraction_passes == 1,
            c.fence_output is None,
            c.use_schema_constraints,
            c.custom_params@.len() == 0,
    {
        ProcessingConfig {
            format_type: FormatType::Json,
            max_char_buffer: 8000,
            batch_length: 4,
            max_workers: 6,
            additional_context: None,
            debug: false,
            extraction_passes: 1,
            fence_output: None,
            use_schema_constraints: true,
            custom_params: Vec::new(),
        }
    }
}

/// The chunking strategies of the unified configuration.
#[derive(Debug, Clone, Copy, PartialEq, Eq, Structural)]
pub enum ChunkingStrategy {
    /// By tokens.
    Token,
    /// By meaning.
    Semantic,
    /// By sentences.
    Sentence,
    /// By paragraphs.
    Paragraph,
    /// By size.
    Fixed,
}

/// Chunking settings of the unified configuration.
#[derive(Debug, Clone)]
pub struct ChunkingConfig {
    /// The strategy.
    pub strategy: ChunkingStrategy,
    /// The size aimed at, in bytes.
    pub target_size: usize,
    /// The largest size, in bytes.
    pub max_size: usize,
    /// Bytes shared by neighbouring chunks.
    pub overlap: usize,
    /// The smallest size, in bytes.
    pub min_size: usize,
    /// Whether sentences are kept whole.
    pub preserve_sentences: bool,
    /// Whether paragraphs are kept whole.
    pub preserve_paragraphs: bool,
}

impl Default for ChunkingConfig {
    fn default() -> (c: Self)
        ensures
            c.strategy == ChunkingStrategy::Token,
            c.target_size == 8000,
            c.max_size == 10000,
            c.overlap == 200,
            c.min_size == 500,
            c.preserve_sentences,
            c.preserve_paragraphs,
    {
        ChunkingConfig {
            strategy: ChunkingStrategy::Token,
            target_size: 8000,
            max_size: 10000,
            overlap: 200,
            min_size: 500,
            preserve_sentences: true,
            preserve_paragraphs: true,
        }
    }
}

/// The export formats of the unified configuration.
#[derive(Debug, Clone, Copy, PartialEq, Eq, Structural)]
pub enum ExportFormat {
    /// Plain text.
    Text,
    /// HTML.
    Html,
    /// Markdown.
    Markdown,
    /// JSON.
    Json,
    /// CSV.
    Csv,
}

/// Visualization settings of the unified configuration.
#[derive(Debug, Clone)]
pub struct VisualizationConfig {
    /// The format used unless another is asked for.
    pub default_format: ExportFormat,
    /// Whether positions are shown.
    pub show_char_intervals: bool,
    /// Whether the text is included.
    pub include_text: bool,
    /// Whether extractions are highlighted.
    pub highlight_extractions: bool,
    /// Whether statistics are included.
    pub include_statistics: bool,
    /// Extra CSS for HTML.
    pub custom_css: Option<String>,
    /// The title used unless another is given.
    pub default_title: Option<String>,
}

impl Default for VisualizationConfig {
    fn default() -> (c: Self)
        ensures
            c.default_format == ExportFormat::Text,
            !c.show_char_intervals,
            c.include_text,
            c.highlight_extractions,
            c.include_statistics,
            c.custom_css is None,
            c.default_title is None,
    {
        VisualizationConfig {
            default_format: ExportFormat::Text,
            show_char_intervals: false,
            include_text: true,
            highlight_extractions: true,
            include_statistics: true,
            custom_css: None,
            default_title: None,
        }
    }
}

} // verus!
