use vstd::prelude::*;
use vstd::string::StrSliceExecFns;
use vstd::string::StringExecFns;
use crate::document::Document;
use crate::document::DocumentView;

verus! {

/// Number of characters in the first line unit of `s`: everything up to and
/// including the first newline, or all of `s` when no newline occurs.
pub open spec fn line_len(s: Seq<char>) -> nat
    decreases s.len(),
{
    if s.len() == 0 {
        0
    } else if s[0] == '\n' {
        1
    } else {
        1 + line_len(s.drop_first())
    }
}

pub proof fn lemma_line_len_bounds(s: Seq<char>)
    ensures
        s.len() > 0 ==> 1 <= line_len(s) <= s.len(),
    decreases s.len(),
{
    if s.len() > 0 {
        if s[0] == '\n' {
            assert(line_len(s) == 1);
        } else {
            lemma_line_len_bounds(s.drop_first());
            assert(line_len(s) == 1 + line_len(s.drop_first()));
        }
    }
}

/// The partition of `s` into line units: each unit ends with a newline,
/// except possibly the last one, and holds no newline anywhere else.
pub open spec fn lines_of(s: Seq<char>) -> Seq<Seq<char>>
    decreases s.len(),
    via lines_of_decreases
{
    if s.len() == 0 {
        Seq::empty()
    } else {
        seq![s.subrange(0, line_len(s) as int)]
            + lines_of(s.subrange(line_len(s) as int, s.len() as int))
    }
}

#[via_fn]
proof fn lines_of_decreases(s: Seq<char>) {
    lemma_line_len_bounds(s);
}

/// The view of a sequence of owned strings, as sequences of characters.
pub open spec fn strings_view(v: Seq<String>) -> Seq<Seq<char>> {
    v.map_values(|s: String| s@)
}

/// `line_len` finds exactly the first newline: if position `k` holds the
/// first newline of `s`, the first unit spans positions `0 ..= k`.
proof fn lemma_line_len_first_newline(s: Seq<char>, k: int)
    requires
        0 <= k < s.len(),
        s[k] == '\n',
        forall|j: int| 0 <= j < k ==> s[j] != '\n',
    ensures
        line_len(s) == k + 1,
    decreases k,
{
    if k > 0 {
        lemma_line_len_first_newline(s.drop_first(), k - 1);
    }
}

/// When `s` holds no newline at all, it is a single unit.
proof fn lemma_line_len_no_newline(s: Seq<char>)
    requires
        forall|j: int| 0 <= j < s.len() ==> s[j] != '\n',
    ensures
        line_len(s) == s.len(),
    decreases s.len(),
{
    if s.len() > 0 {
        lemma_line_len_no_newline(s.drop_first());
    }
}

/// Splitting off a complete first line: if position `k` holds the first
/// newline of `s`, the partition starts with `s[0 ..= k]` and continues
/// with the partition of the rest.
proof fn lemma_lines_of_step(s: Seq<char>, k: int)
    requires
        0 <= k < s.len(),
        s[k] == '\n',
        forall|j: int| 0 <= j < k ==> s[j] != '\n',
    ensures
        lines_of(s) == seq![s.subrange(0, k + 1)] + lines_of(s.subrange(k + 1, s.len() as int)),
{
    lemma_line_len_first_newline(s, k);
}

/// A nonempty `s` without any newline is one single unit.
proof fn lemma_lines_of_no_newline(s: Seq<char>)
    requires
        s.len() > 0,
        forall|j: int| 0 <= j < s.len() ==> s[j] != '\n',
    ensures
        lines_of(s) == seq![s],
{
    lemma_line_len_no_newline(s);
    assert(s.subrange(0, s.len() as int) =~= s);
    assert(s.subrange(s.len() as int, s.len() as int) =~= Seq::<char>::empty());
    assert(lines_of(Seq::<char>::empty()) =~= Seq::<Seq<char>>::empty());
    assert(lines_of(s) =~= seq![s]);
}

/// Concatenation of a sequence of character sequences, in order.
pub open spec fn concat_all(parts: Seq<Seq<char>>) -> Seq<char>
    decreases parts.len(),
{
    if parts.len() == 0 {
        Seq::empty()
    } else {
        parts[0] + concat_all(parts.drop_first())
    }
}

/// Greedy accumulation of `units` into chunks, with `acc` the chunk being
/// filled. A unit joins the open chunk while the combined length stays
/// within `chunk_size`; otherwise the open chunk is emitted and the unit
/// starts the next one. A unit longer than `chunk_size` therefore always
/// stands as a chunk of its own.
pub open spec fn chunks_rec(units: Seq<Seq<char>>, chunk_size: nat, acc: Seq<char>) -> Seq<
    Seq<char>,
>
    decreases units.len(),
{
    if units.len() == 0 {
        if acc.len() == 0 {
            Seq::empty()
        } else {
            seq![acc]
        }
    } else {
        let u = units[0];
        if acc.len() == 0 {
            chunks_rec(units.drop_first(), chunk_size, u)
        } else if acc.len() + u.len() <= chunk_size {
            chunks_rec(units.drop_first(), chunk_size, acc + u)
        } else {
            seq![acc] + chunks_rec(units.drop_first(), chunk_size, u)
        }
    }
}

/// The chunks that greedy accumulation produces from `units`.
pub open spec fn chunks_of(units: Seq<Seq<char>>, chunk_size: nat) -> Seq<Seq<char>> {
    chunks_rec(units, chunk_size, Seq::empty())
}

/// The chunk contents produced from one document's content: its line
/// units, greedily packed.
pub open spec fn split_content(content: Seq<char>, chunk_size: nat) -> Seq<Seq<char>> {
    chunks_of(lines_of(content), chunk_size)
}

/// Pack `units` greedily into chunks of at most `chunk_size` characters,
/// keeping every unit whole and in order.
pub fn assemble_chunks(units: &Vec<String>, chunk_size: usize) -> (chunks: Vec<String>)
    requires
        chunk_size > 0,
    ensures
        strings_view(chunks@) == chunks_of(strings_view(units@), chunk_size as nat),
{
    let ghost all_units: Seq<Seq<char>> = strings_view(units@);
    let mut chunks: Vec<String> = Vec::new();
    let mut acc = String::new();
    let mut acc_len: usize = 0;
    let mut i: usize = 0;
    proof {
        assert(all_units.subrange(0, all_units.len() as int) =~= all_units);
        assert(strings_view(chunks@) =~= Seq::<Seq<char>>::empty());
        assert(strings_view(chunks@) + chunks_rec(all_units, chunk_size as nat, acc@)
            =~= chunks_rec(all_units, chunk_size as nat, acc@));
    }
    while i < units.len()
        invariant
            chunk_size > 0,
            i <= units.len(),
            all_units == strings_view(units@),
            acc_len == acc@.len(),
            chunks_of(all_units, chunk_size as nat) == strings_view(chunks@)
                + chunks_rec(
                all_units.subrange(i as int, all_units.len() as int),
                chunk_size as nat,
                acc@,
            ),
        decreases units.len() - i,
    {
        let u = &units[i];
        let u_len = u.unicode_len();
        proof {
            let rest = all_units.subrange(i as int, all_units.len() as int);
            assert(rest[0] == u@);
            assert(rest.drop_first()
                =~= all_units.subrange(i + 1, all_units.len() as int));
        }
        if acc_len == 0 {
            acc = String::from_str(u.as_str());
            acc_len = u_len;
        } else if u_len <= chunk_size && acc_len <= chunk_size - u_len {
            acc.append(u.as_str());
            acc_len = acc_len + u_len;
        } else {
            proof {
                assert(strings_view(chunks@.push(acc)) =~= strings_view(chunks@) + seq![acc@]);
                assert(strings_view(chunks@) + (seq![acc@] + chunks_rec(
                    all_units.subrange(i + 1, all_units.len() as int),
                    chunk_size as nat,
                    u@,
                )) =~= (strings_view(chunks@) + seq![acc@]) + chunks_rec(
                    all_units.subrange(i + 1, all_units.len() as int),
                    chunk_size as nat,
                    u@,
                ));
            }
            chunks.push(acc);
            acc = String::from_str(u.as_str());
            acc_len = u_len;
        }
        i = i + 1;
    }
    proof {
        assert(all_units.subrange(all_units.len() as int, all_units.len() as int)
            =~= Seq::<Seq<char>>::empty());
    }
    if acc_len > 0 {
        proof {
            assert(strings_view(chunks@.push(acc)) =~= strings_view(chunks@) + seq![acc@]);
        }
        chunks.push(acc);
    } else {
        proof {
            assert(strings_view(chunks@) + Seq::<Seq<char>>::empty() =~= strings_view(chunks@));
        }
    }
    chunks
}

/// Partition `content` into line units. Each returned unit ends with a
/// newline except possibly the last, and holds no other newline; their
/// concatenation in order is exactly `content`.
pub fn split_units(content: &str) -> (units: Vec<String>)
    ensures
        strings_view(units@) == lines_of(content@),
{
    let n = content.unicode_len();
    let mut units: Vec<String> = Vec::new();
    let mut start: usize = 0;
    let mut i: usize = 0;
    proof {
        assert(content@.subrange(0, n as int) =~= content@);
        assert(strings_view(units@) =~= Seq::<Seq<char>>::empty());
        assert(strings_view(units@) + lines_of(content@) =~= lines_of(content@));
    }
    while i < n
        invariant
            n == content@.len(),
            start <= i <= n,
            forall|j: int| start <= j < i ==> content@[j] != '\n',
            lines_of(content@) == strings_view(units@)
                + lines_of(content@.subrange(start as int, n as int)),
        decreases n - i,
    {
        let c = content.get_char(i);
        if c == '\n' {
            let unit = content.substring_char(start, i + 1).to_owned();
            proof {
                let tail = content@.subrange(start as int, n as int);
                lemma_lines_of_step(tail, i - start);
                assert(tail.subrange(0, i - start + 1)
                    =~= content@.subrange(start as int, i + 1));
                assert(tail.subrange(i - start + 1, tail.len() as int)
                    =~= content@.subrange(i + 1, n as int));
                assert(strings_view(units@.push(unit))
                    =~= strings_view(units@) + seq![unit@]);
                assert(strings_view(units@) + (seq![unit@]
                    + lines_of(content@.subrange(i + 1, n as int)))
                    =~= (strings_view(units@) + seq![unit@])
                        + lines_of(content@.subrange(i + 1, n as int)));
            }
            units.push(unit);
            start = i + 1;
        }
        i = i + 1;
    }
    if start < n {
        let unit = content.substring_char(start, n).to_owned();
        proof {
            let tail = content@.subrange(start as int, n as int);
            lemma_lines_of_no_newline(tail);
            assert(strings_view(units@.push(unit))
                =~= strings_view(units@) + seq![unit@]);
        }
        units.push(unit);
    } else {
        proof {
            assert(content@.subrange(start as int, n as int)
                =~= Seq::<char>::empty());
            assert(strings_view(units@) + lines_of(Seq::<char>::empty())
                =~= strings_view(units@));
        }
    }
    units
}

/// The chunk documents derived from one source document: the packed
/// chunk contents, each carrying the source document's path.
pub open spec fn chunk_document(d: DocumentView, chunk_size: nat) -> Seq<DocumentView> {
    split_content(d.content, chunk_size).map_values(
        |c: Seq<char>| DocumentView { content: c, path: d.path },
    )
}

/// The chunk documents derived from a sequence of source documents, in
/// order: each document's chunks, one document after the other.
pub open spec fn split_documents_spec(docs: Seq<DocumentView>, chunk_size: nat) -> Seq<
    DocumentView,
>
    decreases docs.len(),
{
    if docs.len() == 0 {
        Seq::empty()
    } else {
        chunk_document(docs[0], chunk_size) + split_documents_spec(docs.drop_first(), chunk_size)
    }
}

/// The view of a sequence of documents.
pub open spec fn docs_view(docs: Seq<Document>) -> Seq<DocumentView> {
    docs.map_values(|d: Document| d@)
}

/// Failure of a splitter: its configuration does not admit splitting.
#[derive(Clone, Copy, Debug, PartialEq, Eq, Structural)]
pub enum SplitError {
    /// The configured chunk size is not a positive number of characters.
    InvalidChunkSize,
}

/// A strategy that turns documents into smaller chunk documents. Callers
/// depend on this interface alone, so another splitting strategy can be
/// substituted without changing them.
pub trait DocumentSplitter: Sized {
    /// Whether this splitter's configuration admits splitting at all.
    spec fn config_ok(&self) -> bool;

    /// The chunk documents this splitter produces for the given input.
    spec fn split_spec(&self, docs: Seq<DocumentView>) -> Seq<DocumentView>;

    /// Split every input document into chunk documents, in order, or
    /// report the configuration error that stops splitting.
    fn split_documents(&self, docs: &Vec<Document>) -> (r: Result<Vec<Document>, SplitError>)
        ensures
            self.config_ok() ==> (r matches Ok(out) && docs_view(out@) == self.split_spec(
                docs_view(docs@),
            )),
            !self.config_ok() ==> (r matches Err(e) && e == SplitError::InvalidChunkSize),
    ;
}

/// Number of characters a chunk may hold when no other size is chosen.
pub const DEFAULT_CHUNK_SIZE: usize = 400;

/// Fixed-size splitter for markdown text: the units it keeps whole are
/// lines, and chunks are filled greedily up to the configured number of
/// characters.
pub struct MarkdownSplitter {
    /// The configured bound on a chunk's length, in characters.
    pub splitter_chunk_size: usize,
}

impl MarkdownSplitter {
    /// A splitter with the default chunk size.
    pub fn create() -> (r: Self)
        ensures
            r.splitter_chunk_size == DEFAULT_CHUNK_SIZE,
    {
        MarkdownSplitter { splitter_chunk_size: DEFAULT_CHUNK_SIZE }
    }

    /// The same splitter, reconfigured to the given chunk size. A size of
    /// zero is reported as an error at the first split.
    pub fn with_chunk_size(self, chunk_size: usize) -> (r: Self)
        ensures
            r.splitter_chunk_size == chunk_size,
    {
        MarkdownSplitter { splitter_chunk_size: chunk_size }
    }
}

impl DocumentSplitter for MarkdownSplitter {
    open spec fn config_ok(&self) -> bool {
        self.splitter_chunk_size > 0
    }

    open spec fn split_spec(&self, docs: Seq<DocumentView>) -> Seq<DocumentView> {
        split_documents_spec(docs, self.splitter_chunk_size as nat)
    }

    fn split_documents(&self, docs: &Vec<Document>) -> (r: Result<Vec<Document>, SplitError>) {
        if self.splitter_chunk_size == 0 {
            return Err(SplitError::InvalidChunkSize);
        }
        let ghost c: nat = self.splitter_chunk_size as nat;
        let ghost all_docs: Seq<DocumentView> = docs_view(docs@);
        let mut out: Vec<Document> = Vec::new();
        let mut i: usize = 0;
        proof {
            assert(all_docs.subrange(0, all_docs.len() as int) =~= all_docs);
            assert(docs_view(out@) =~= Seq::<DocumentView>::empty());
            assert(docs_view(out@) + split_documents_spec(all_docs, c)
                =~= split_documents_spec(all_docs, c));
        }
        while i < docs.len()
            invariant
                self.splitter_chunk_size > 0,
                c == self.splitter_chunk_size as nat,
                i <= docs.len(),
                all_docs == docs_view(docs@),
                split_documents_spec(all_docs, c) == docs_view(out@) + split_documents_spec(
                    all_docs.subrange(i as int, all_docs.len() as int),
                    c,
                ),
            decreases docs.len() - i,
        {
            let doc = &docs[i];
            let units = split_units(doc.content.as_str());
            let chunks = assemble_chunks(&units, self.splitter_chunk_size);
            proof {
                let rest = all_docs.subrange(i as int, all_docs.len() as int);
                assert(rest[0] == doc@);
                assert(rest.drop_first()
                    =~= all_docs.subrange(i + 1, all_docs.len() as int));
                assert(strings_view(chunks@) == split_content(doc@.content, c));
            }
            let ghost before: Seq<DocumentView> = docs_view(out@);
            let mut k: usize = 0;
            proof {
                assert(chunk_document(doc@, c).subrange(0, 0) =~= Seq::<DocumentView>::empty());
                assert(before + chunk_document(doc@, c).subrange(0, 0) =~= before);
            }
            while k < chunks.len()
                invariant
                    k <= chunks.len(),
                    strings_view(chunks@) == split_content(doc@.content, c),
                    docs_view(out@) == before + chunk_document(doc@, c).subrange(0, k as int),
                decreases chunks.len() - k,
            {
                let chunk = Document {
                    content: String::from_str(chunks[k].as_str()),
                    meta: doc.meta.clone(),
                };
                proof {
                    assert(chunk_document(doc@, c)[k as int] == chunk@);
                    assert(docs_view(out@.push(chunk)) =~= docs_view(out@) + seq![chunk@]);
                    assert(chunk_document(doc@, c).subrange(0, k + 1)
                        =~= chunk_document(doc@, c).subrange(0, k as int) + seq![chunk@]);
                }
                out.push(chunk);
                k = k + 1;
            }
            proof {
                assert(chunk_document(doc@, c).subrange(0, chunks@.len() as int)
                    =~= chunk_document(doc@, c));
                assert(before + (chunk_document(doc@, c) + split_documents_spec(
                    all_docs.subrange(i + 1, all_docs.len() as int),
                    c,
                )) =~= (before + chunk_document(doc@, c)) + split_documents_spec(
                    all_docs.subrange(i + 1, all_docs.len() as int),
                    c,
                ));
            }
            i = i + 1;
        }
        proof {
            assert(all_docs.subrange(all_docs.len() as int, all_docs.len() as int)
                =~= Seq::<DocumentView>::empty());
            assert(docs_view(out@) + Seq::<DocumentView>::empty() =~= docs_view(out@));
        }
        Ok(out)
    }
}

} // verus!
