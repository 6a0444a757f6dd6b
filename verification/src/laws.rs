use vstd::prelude::*;
use crate::document::DocumentView;
use crate::splitter::line_len;
use crate::splitter::lines_of;
use crate::splitter::concat_all;
use crate::splitter::chunks_rec;
use crate::splitter::split_content;
use crate::splitter::chunk_document;
use crate::splitter::split_documents_spec;
use crate::splitter::lemma_line_len_bounds;

verus! {

/// Concatenation distributes over appending sequences of parts.
pub proof fn lemma_concat_all_append(a: Seq<Seq<char>>, b: Seq<Seq<char>>)
    ensures
        concat_all(a + b) == concat_all(a) + concat_all(b),
    decreases a.len(),
{
    if a.len() == 0 {
        assert(a + b =~= b);
        assert(concat_all(a) =~= Seq::<char>::empty());
        assert(concat_all(a) + concat_all(b) =~= concat_all(b));
    } else {
        lemma_concat_all_append(a.drop_first(), b);
        assert((a + b).drop_first() =~= a.drop_first() + b);
        assert((a + b)[0] == a[0]);
        assert(a[0] + (concat_all(a.drop_first()) + concat_all(b))
            =~= (a[0] + concat_all(a.drop_first())) + concat_all(b));
    }
}

/// Concatenating a single part gives that part back.
pub proof fn lemma_concat_all_singleton(x: Seq<char>)
    ensures
        concat_all(seq![x]) == x,
{
    assert(seq![x].drop_first() =~= Seq::<Seq<char>>::empty());
    assert(concat_all(Seq::<Seq<char>>::empty()) =~= Seq::<char>::empty());
    assert(concat_all(seq![x]) =~= x);
}

/// The line units of a text concatenate back to that text.
pub proof fn lemma_lines_reconstruct(s: Seq<char>)
    ensures
        concat_all(lines_of(s)) == s,
    decreases s.len(),
{
    if s.len() == 0 {
        assert(concat_all(lines_of(s)) =~= s);
    } else {
        lemma_line_len_bounds(s);
        let n = line_len(s) as int;
        let first = s.subrange(0, n);
        let rest = s.subrange(n, s.len() as int);
        lemma_lines_reconstruct(rest);
        lemma_concat_all_append(seq![first], lines_of(rest));
        lemma_concat_all_singleton(first);
        assert(first + rest =~= s);
    }
}

/// Greedy accumulation loses nothing: the chunks it emits concatenate to
/// the open chunk followed by all remaining units.
pub proof fn lemma_chunks_rec_reconstruct(units: Seq<Seq<char>>, chunk_size: nat, acc: Seq<char>)
    ensures
        concat_all(chunks_rec(units, chunk_size, acc)) == acc + concat_all(units),
    decreases units.len(),
{
    if units.len() == 0 {
        if acc.len() == 0 {
            assert(acc =~= Seq::<char>::empty());
            assert(acc + concat_all(units) =~= Seq::<char>::empty());
        } else {
            lemma_concat_all_singleton(acc);
            assert(acc + concat_all(units) =~= acc);
        }
    } else {
        let u = units[0];
        let units2 = units.drop_first();
        if acc.len() == 0 {
            lemma_chunks_rec_reconstruct(units2, chunk_size, u);
            assert(acc =~= Seq::<char>::empty());
            assert(acc + (u + concat_all(units2)) =~= u + concat_all(units2));
        } else if acc.len() + u.len() <= chunk_size {
            lemma_chunks_rec_reconstruct(units2, chunk_size, acc + u);
            assert((acc + u) + concat_all(units2) =~= acc + (u + concat_all(units2)));
        } else {
            lemma_chunks_rec_reconstruct(units2, chunk_size, u);
            lemma_concat_all_append(seq![acc], chunks_rec(units2, chunk_size, u));
            lemma_concat_all_singleton(acc);
        }
    }
}

/// Law: for every text and positive chunk size, the contents of the
/// produced chunks, concatenated in order, are exactly the original text.
pub proof fn lemma_split_reconstructs(content: Seq<char>, chunk_size: nat)
    requires
        chunk_size > 0,
    ensures
        concat_all(split_content(content, chunk_size)) == content,
{
    lemma_chunks_rec_reconstruct(lines_of(content), chunk_size, Seq::empty());
    lemma_lines_reconstruct(content);
    assert(Seq::<char>::empty() + content =~= content);
}

/// Every chunk that greedy accumulation emits is within the size bound,
/// or is a single whole unit, or is the open chunk it started from.
proof fn lemma_chunks_rec_sizes(units: Seq<Seq<char>>, chunk_size: nat, acc: Seq<char>)
    ensures
        forall|i: int|
            0 <= i < chunks_rec(units, chunk_size, acc).len()
                ==> #[trigger] chunks_rec(units, chunk_size, acc)[i].len() <= chunk_size
                || units.contains(chunks_rec(units, chunk_size, acc)[i])
                || chunks_rec(units, chunk_size, acc)[i] == acc,
    decreases units.len(),
{
    let r = chunks_rec(units, chunk_size, acc);
    if units.len() == 0 {
    } else {
        let u = units[0];
        let units2 = units.drop_first();
        assert forall|x: Seq<char>| units2.contains(x) implies units.contains(x) by {
            let k = choose|k: int| 0 <= k < units2.len() && units2[k] == x;
            assert(units[k + 1] == x);
        }
        assert(units.contains(u)) by {
            assert(units[0] == u);
        }
        if acc.len() == 0 {
            lemma_chunks_rec_sizes(units2, chunk_size, u);
            let r2 = chunks_rec(units2, chunk_size, u);
            assert forall|i: int|
                0 <= i < r.len() implies #[trigger] r[i].len() <= chunk_size || units.contains(
                r[i],
            ) || r[i] == acc by {
                assert(r[i] == r2[i]);
            }
        } else if acc.len() + u.len() <= chunk_size {
            lemma_chunks_rec_sizes(units2, chunk_size, acc + u);
            let r2 = chunks_rec(units2, chunk_size, acc + u);
            assert forall|i: int|
                0 <= i < r.len() implies #[trigger] r[i].len() <= chunk_size || units.contains(
                r[i],
            ) || r[i] == acc by {
                assert(r[i] == r2[i]);
            }
        } else {
            lemma_chunks_rec_sizes(units2, chunk_size, u);
            let r2 = chunks_rec(units2, chunk_size, u);
            assert forall|i: int|
                0 <= i < r.len() implies #[trigger] r[i].len() <= chunk_size || units.contains(
                r[i],
            ) || r[i] == acc by {
                if i == 0 {
                    assert(r[0] == acc);
                } else {
                    assert(r[i] == r2[i - 1]);
                }
            }
        }
    }
}

/// Law: every produced chunk stays within the chunk size, except a chunk
/// that is a single line unit longer than the chunk size.
pub proof fn lemma_chunk_sizes(content: Seq<char>, chunk_size: nat)
    ensures
        forall|i: int|
            0 <= i < split_content(content, chunk_size).len()
                ==> #[trigger] split_content(content, chunk_size)[i].len() <= chunk_size
                || lines_of(content).contains(split_content(content, chunk_size)[i]),
{
    lemma_chunks_rec_sizes(lines_of(content), chunk_size, Seq::empty());
    let r = split_content(content, chunk_size);
    assert forall|i: int|
        0 <= i < r.len() implies #[trigger] r[i].len() <= chunk_size || lines_of(
        content,
    ).contains(r[i]) by {
        assert(r[i].len() <= chunk_size || lines_of(content).contains(r[i]) || r[i]
            == Seq::<char>::empty());
    }
}

/// Law: splitting is deterministic. The splitting relation is a function
/// of the documents and the chunk size alone, so any two outcomes it
/// allows for the same input are the same sequence of chunk documents.
pub proof fn lemma_split_deterministic(
    docs: Seq<DocumentView>,
    chunk_size: nat,
    r1: Seq<DocumentView>,
    r2: Seq<DocumentView>,
)
    requires
        r1 == split_documents_spec(docs, chunk_size),
        r2 == split_documents_spec(docs, chunk_size),
    ensures
        r1 == r2,
{
}

/// Law: metadata is inherited unchanged: every chunk document derived
/// from a source document carries the source document's path.
pub proof fn lemma_meta_preserved(d: DocumentView, chunk_size: nat)
    ensures
        forall|i: int|
            0 <= i < chunk_document(d, chunk_size).len()
                ==> #[trigger] chunk_document(d, chunk_size)[i].path == d.path,
{
    let chs = chunk_document(d, chunk_size);
    assert forall|i: int| 0 <= i < chs.len() implies #[trigger] chs[i].path == d.path by {
        assert(chs[i] == DocumentView {
            content: split_content(d.content, chunk_size)[i],
            path: d.path,
        });
    }
}

/// Law: across a whole input sequence, every produced chunk document
/// carries the path of one of the source documents.
pub proof fn lemma_meta_from_sources(docs: Seq<DocumentView>, chunk_size: nat)
    ensures
        forall|i: int|
            0 <= i < split_documents_spec(docs, chunk_size).len()
                ==> exists|j: int|
                0 <= j < docs.len() && #[trigger] split_documents_spec(docs, chunk_size)[i].path
                    == docs[j].path,
    decreases docs.len(),
{
    let r = split_documents_spec(docs, chunk_size);
    if docs.len() > 0 {
        let first = chunk_document(docs[0], chunk_size);
        let rest = split_documents_spec(docs.drop_first(), chunk_size);
        lemma_meta_preserved(docs[0], chunk_size);
        lemma_meta_from_sources(docs.drop_first(), chunk_size);
        assert forall|i: int|
            0 <= i < r.len() implies exists|j: int|
            0 <= j < docs.len() && #[trigger] r[i].path == docs[j].path by {
            if i < first.len() {
                assert(r[i] == first[i]);
                assert(r[i].path == docs[0].path);
            } else {
                assert(r[i] == rest[i - first.len()]);
                let j2 = choose|j2: int|
                    0 <= j2 < docs.drop_first().len() && rest[i - first.len()].path
                        == docs.drop_first()[j2].path;
                assert(docs.drop_first()[j2] == docs[j2 + 1]);
                assert(r[i].path == docs[j2 + 1].path);
            }
        }
    }
}

/// A chunk's starting position in the source text: the total length of
/// the chunks that come before it.
pub open spec fn chunk_offset(chunks: Seq<Seq<char>>, i: int) -> nat
    recommends
        0 <= i <= chunks.len(),
{
    concat_all(chunks.subrange(0, i)).len()
}

/// The source text decomposes around any one chunk.
proof fn lemma_concat_all_decompose(chunks: Seq<Seq<char>>, i: int)
    requires
        0 <= i < chunks.len(),
    ensures
        concat_all(chunks) == concat_all(chunks.subrange(0, i)) + chunks[i] + concat_all(
            chunks.subrange(i + 1, chunks.len() as int),
        ),
{
    let a = chunks.subrange(0, i);
    let b = seq![chunks[i]];
    let c = chunks.subrange(i + 1, chunks.len() as int);
    assert(chunks =~= (a + b) + c);
    lemma_concat_all_append(a + b, c);
    lemma_concat_all_append(a, b);
    lemma_concat_all_singleton(chunks[i]);
}

/// Every chunk that greedy accumulation emits is nonempty.
proof fn lemma_chunks_rec_nonempty(units: Seq<Seq<char>>, chunk_size: nat, acc: Seq<char>)
    ensures
        forall|i: int|
            0 <= i < chunks_rec(units, chunk_size, acc).len()
                ==> #[trigger] chunks_rec(units, chunk_size, acc)[i].len() > 0,
    decreases units.len(),
{
    let r = chunks_rec(units, chunk_size, acc);
    if units.len() == 0 {
    } else {
        let u = units[0];
        let units2 = units.drop_first();
        if acc.len() == 0 {
            lemma_chunks_rec_nonempty(units2, chunk_size, u);
            let r2 = chunks_rec(units2, chunk_size, u);
            assert forall|i: int| 0 <= i < r.len() implies #[trigger] r[i].len() > 0 by {
                assert(r[i] == r2[i]);
            }
        } else if acc.len() + u.len() <= chunk_size {
            lemma_chunks_rec_nonempty(units2, chunk_size, acc + u);
            let r2 = chunks_rec(units2, chunk_size, acc + u);
            assert forall|i: int| 0 <= i < r.len() implies #[trigger] r[i].len() > 0 by {
                assert(r[i] == r2[i]);
            }
        } else {
            lemma_chunks_rec_nonempty(units2, chunk_size, u);
            let r2 = chunks_rec(units2, chunk_size, u);
            assert forall|i: int| 0 <= i < r.len() implies #[trigger] r[i].len() > 0 by {
                if i > 0 {
                    assert(r[i] == r2[i - 1]);
                }
            }
        }
    }
}

/// Law: chunks keep the source order. Chunk `i` occupies the characters
/// of the source text that stand immediately before those of chunk
/// `i + 1`: each chunk is the slice of the source between its offset and
/// the next chunk's offset, and offsets grow strictly.
pub proof fn lemma_chunks_ordered(content: Seq<char>, chunk_size: nat, i: int)
    requires
        chunk_size > 0,
        0 <= i < split_content(content, chunk_size).len(),
    ensures
        chunk_offset(split_content(content, chunk_size), i) + split_content(
            content,
            chunk_size,
        )[i].len() == chunk_offset(split_content(content, chunk_size), i + 1),
        chunk_offset(split_content(content, chunk_size), i + 1) <= content.len(),
        split_content(content, chunk_size)[i] == content.subrange(
            chunk_offset(split_content(content, chunk_size), i) as int,
            chunk_offset(split_content(content, chunk_size), i + 1) as int,
        ),
        chunk_offset(split_content(content, chunk_size), i) < chunk_offset(
            split_content(content, chunk_size),
            i + 1,
        ),
{
    let chs = split_content(content, chunk_size);
    lemma_split_reconstructs(content, chunk_size);
    lemma_concat_all_decompose(chs, i);
    assert(chs.subrange(0, i + 1) =~= chs.subrange(0, i) + seq![chs[i]]);
    lemma_concat_all_append(chs.subrange(0, i), seq![chs[i]]);
    lemma_concat_all_singleton(chs[i]);
    let off = chunk_offset(chs, i) as int;
    let off2 = chunk_offset(chs, i + 1) as int;
    assert(chs[i] =~= content.subrange(off, off2));
    lemma_chunks_rec_nonempty(lines_of(content), chunk_size, Seq::empty());
    assert(chs[i].len() > 0);
}

} // verus!
