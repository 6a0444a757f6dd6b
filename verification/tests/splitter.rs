use llmchain::Document;
use llmchain::DocumentMeta;
use llmchain::DocumentSplitter;
use llmchain::MarkdownSplitter;
use llmchain::SplitError;
use llmchain::assemble_chunks;
use llmchain::split_units;

fn doc(content: &str, path: &str) -> Document {
    Document::create(content.to_string(), path.to_string())
}

fn char_len(s: &str) -> usize {
    s.chars().count()
}

#[test]
fn test_split_units_lines() {
    let units = split_units("a\n\nbc");
    assert_eq!(units, vec!["a\n".to_string(), "\n".to_string(), "bc".to_string()]);
}

#[test]
fn test_split_units_trailing_newline() {
    let units = split_units("one\ntwo\n");
    assert_eq!(units, vec!["one\n".to_string(), "two\n".to_string()]);
    assert_eq!(split_units(""), Vec::<String>::new());
}

#[test]
fn test_assemble_chunks_greedy() {
    let units = vec!["a\n".to_string(), "b\n".to_string(), "cc\n".to_string()];
    let chunks = assemble_chunks(&units, 4);
    assert_eq!(chunks, vec!["a\nb\n".to_string(), "cc\n".to_string()]);
}

#[test]
fn test_assemble_chunks_oversized_unit_alone() {
    let units = vec!["ab\n".to_string(), "defgh\n".to_string(), "c\n".to_string()];
    let chunks = assemble_chunks(&units, 4);
    assert_eq!(
        chunks,
        vec!["ab\n".to_string(), "defgh\n".to_string(), "c\n".to_string()]
    );
}

#[test]
fn test_markdown_splitter_default() {
    let content = "# Title\n\nIntro paragraph.\n## Section\nBody text.\n";
    let docs = vec![doc(content, "markdown/copy.md")];
    let splitter = MarkdownSplitter::create();
    assert_eq!(splitter.splitter_chunk_size, 400);
    let chunks = splitter.split_documents(&docs).unwrap();
    // The whole file fits in one default-sized chunk: the sequence of
    // chunks covers it exactly once.
    assert_eq!(chunks.len(), 1);
    assert_eq!(chunks[0].content, content);
    assert_eq!(chunks[0].meta.path, "markdown/copy.md");
}

#[test]
fn test_markdown_splitter_100() {
    // Fourteen lines of 80 characters (81 with the newline): no two fit
    // together in a 100-character chunk, so each line is one chunk.
    let line = "x".repeat(80);
    let mut content = String::new();
    for _ in 0..14 {
        content.push_str(&line);
        content.push('\n');
    }
    let docs = vec![doc(&content, "markdown/copy.md")];
    let splitter = MarkdownSplitter::create().with_chunk_size(100);
    assert_eq!(splitter.splitter_chunk_size, 100);
    let chunks = splitter.split_documents(&docs).unwrap();
    assert_eq!(chunks.len(), 14);
    for chunk in &chunks {
        assert!(char_len(&chunk.content) <= 100);
        assert_eq!(chunk.meta.path, "markdown/copy.md");
    }
    let joined: String = chunks.iter().map(|d| d.content.as_str()).collect();
    assert_eq!(joined, content);
}

#[test]
fn test_split_concat_reconstructs() {
    let content = "alpha\n\nbeta gamma\ndelta\nepsilon zeta eta theta\nno trailing newline";
    let docs = vec![doc(content, "a.md")];
    let splitter = MarkdownSplitter::create().with_chunk_size(10);
    let chunks = splitter.split_documents(&docs).unwrap();
    assert!(chunks.len() > 1);
    let joined: String = chunks.iter().map(|d| d.content.as_str()).collect();
    assert_eq!(joined, content);
}

#[test]
fn test_chunk_size_bound_with_oversized_unit() {
    let long_line = "y".repeat(120);
    let content = format!("short\n{}\nalso short\n", long_line);
    let docs = vec![doc(&content, "b.md")];
    let splitter = MarkdownSplitter::create().with_chunk_size(100);
    let chunks = splitter.split_documents(&docs).unwrap();
    let mut oversized = 0;
    for chunk in &chunks {
        if char_len(&chunk.content) > 100 {
            // An oversized chunk is a single whole line unit.
            oversized += 1;
            assert_eq!(chunk.content, format!("{}\n", long_line));
        }
    }
    assert_eq!(oversized, 1);
}

#[test]
fn test_split_deterministic() {
    let content = "one\ntwo\nthree\nfour\nfive\nsix\n";
    let docs = vec![doc(content, "c.md")];
    let splitter = MarkdownSplitter::create().with_chunk_size(9);
    let first = splitter.split_documents(&docs).unwrap();
    let second = splitter.split_documents(&docs).unwrap();
    assert_eq!(first.len(), second.len());
    for (a, b) in first.iter().zip(second.iter()) {
        assert_eq!(a.content, b.content);
        assert_eq!(a.meta.path, b.meta.path);
    }
}

#[test]
fn test_meta_path_preserved() {
    let docs = vec![
        doc("first document\nwith two lines\n", "one.md"),
        doc("second document\n", "two.md"),
    ];
    let splitter = MarkdownSplitter::create().with_chunk_size(15);
    let chunks = splitter.split_documents(&docs).unwrap();
    assert!(chunks.len() >= 3);
    // Chunks come out in input order: every chunk of the first document
    // precedes every chunk of the second.
    let boundary = chunks.iter().position(|d| d.meta.path == "two.md").unwrap();
    for (i, chunk) in chunks.iter().enumerate() {
        if i < boundary {
            assert_eq!(chunk.meta.path, "one.md");
        } else {
            assert_eq!(chunk.meta.path, "two.md");
        }
    }
}

#[test]
fn test_chunks_ordered() {
    let content = "aa\nbb\ncc\ndd\nee\nff\ngg\n";
    let docs = vec![doc(content, "d.md")];
    let splitter = MarkdownSplitter::create().with_chunk_size(6);
    let chunks = splitter.split_documents(&docs).unwrap();
    assert!(chunks.len() > 1);
    // Each chunk is the slice of the source at its offset, and offsets
    // grow strictly: chunk i's text stands before chunk i+1's.
    let mut offset = 0;
    for chunk in &chunks {
        let len = chunk.content.len();
        assert!(len > 0);
        assert_eq!(&content[offset..offset + len], chunk.content);
        offset += len;
    }
    assert_eq!(offset, content.len());
}

#[test]
fn test_invalid_chunk_size() {
    let docs = vec![doc("anything\n", "e.md")];
    let splitter = MarkdownSplitter::create().with_chunk_size(0);
    let result = splitter.split_documents(&docs);
    match result {
        Err(e) => assert_eq!(e, SplitError::InvalidChunkSize),
        Ok(_) => panic!("a zero chunk size must be rejected"),
    }
}

#[test]
fn test_empty_document_yields_no_chunks() {
    let docs = vec![doc("", "empty.md")];
    let splitter = MarkdownSplitter::create();
    let chunks = splitter.split_documents(&docs).unwrap();
    assert_eq!(chunks.len(), 0);
}

#[test]
fn test_unicode_chunk_size_counts_characters() {
    // Two-byte characters: the bound is counted in characters, not bytes.
    let content = "\u{e9}\u{e9}\n\u{df}\u{df}";
    let docs = vec![doc(content, "u.md")];
    let splitter = MarkdownSplitter::create().with_chunk_size(3);
    let chunks = splitter.split_documents(&docs).unwrap();
    assert_eq!(chunks.len(), 2);
    assert_eq!(chunks[0].content, "\u{e9}\u{e9}\n");
    assert_eq!(chunks[1].content, "\u{df}\u{df}");
}

#[test]
fn test_document_create() {
    let d = Document::create("text".to_string(), "p.md".to_string());
    assert_eq!(d.content, "text");
    assert_eq!(d.meta.path, "p.md");
    let m = DocumentMeta::create("q.md".to_string());
    assert_eq!(m.path, "q.md");
    let copy = d.clone();
    assert_eq!(copy.content, "text");
    assert_eq!(copy.meta.path, "p.md");
}
