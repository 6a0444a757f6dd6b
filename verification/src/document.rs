use vstd::prelude::*;
use vstd::string::StringExecFns;

verus! {

/// Metadata attached to a document: the identifier of the source it was
/// loaded from.
pub struct DocumentMeta {
    pub path: String,
}

/// A unit of text together with its metadata. Documents are produced by a
/// loader or derived from another document by a splitter; each one is an
/// independent value.
pub struct Document {
    pub content: String,
    pub meta: DocumentMeta,
}

/// Mathematical view of a document: its content and its source path, each
/// as a sequence of characters.
pub ghost struct DocumentView {
    pub content: Seq<char>,
    pub path: Seq<char>,
}

impl View for DocumentMeta {
    type V = Seq<char>;

    open spec fn view(&self) -> Seq<char> {
        self.path@
    }
}

impl View for Document {
    type V = DocumentView;

    open spec fn view(&self) -> DocumentView {
        DocumentView { content: self.content@, path: self.meta.path@ }
    }
}

impl DocumentMeta {
    pub fn create(path: String) -> (r: Self)
        ensures
            r@ == path@,
    {
        DocumentMeta { path }
    }
}

impl Clone for DocumentMeta {
    fn clone(&self) -> (r: Self)
        ensures
            r@ == self@,
    {
        DocumentMeta { path: String::from_str(self.path.as_str()) }
    }
}

impl Document {
    pub fn create(content: String, path: String) -> (r: Self)
        ensures
            r@.content == content@,
            r@.path == path@,
    {
        Document { content, meta: DocumentMeta { path } }
    }
}

impl Clone for Document {
    fn clone(&self) -> (r: Self)
        ensures
            r@ == self@,
    {
        Document { content: String::from_str(self.content.as_str()), meta: self.meta.clone() }
    }
}

} // verus!
