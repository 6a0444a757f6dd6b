mod document;
mod laws;
mod llm;
mod splitter;

pub use llm::TokenUsage;
pub use llm::GenerateResult;
pub use llm::assemble_generate_result;

pub use laws::lemma_concat_all_append;
pub use laws::lemma_concat_all_singleton;
pub use laws::lemma_lines_reconstruct;
pub use laws::lemma_chunks_rec_reconstruct;
pub use laws::lemma_split_reconstructs;
pub use laws::lemma_chunk_sizes;
pub use laws::lemma_split_deterministic;
pub use laws::lemma_meta_preserved;
pub use laws::lemma_meta_from_sources;
pub use laws::lemma_chunks_ordered;
pub use laws::chunk_offset;

pub use splitter::line_len;
pub use splitter::lines_of;
pub use splitter::strings_view;
pub use splitter::split_units;
pub use splitter::concat_all;
pub use splitter::chunks_rec;
pub use splitter::chunks_of;
pub use splitter::split_content;
pub use splitter::assemble_chunks;
pub use splitter::chunk_document;
pub use splitter::split_documents_spec;
pub use splitter::docs_view;
pub use splitter::SplitError;
pub use splitter::DocumentSplitter;
pub use splitter::MarkdownSplitter;
pub use splitter::DEFAULT_CHUNK_SIZE;
pub use splitter::lemma_line_len_bounds;
pub use document::Document;
pub use document::DocumentMeta;
pub use document::DocumentView;
