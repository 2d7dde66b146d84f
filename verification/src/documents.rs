//! The documents that a client has open, and the fence around those it was refused.

use vstd::prelude::*;

use crate::edits::TextRoom;
use crate::limits::{ResourceLimits, MAX_OPEN_DOCUMENTS, MAX_OPEN_DOCUMENT_URI_BYTES};
use crate::strings::{byte_len, byte_length};
use crate::strmap::{lemma_deep_insert, lemma_deep_remove, StrMap, StrSet};
use crate::sums::{lemma_sum_bounds, lemma_sum_insert, lemma_sum_remove, map_sum};
use crate::uris::optional_text;

verus! {

pub const MAX_REJECTED_OPEN_FENCE_URIS: usize = 64;

pub const MAX_REJECTED_OPEN_FENCE_URI_BYTES: usize = 16 * 1024;

/// A document that a client has open. A document whose text was refused has a rejection
/// in place of its text.
#[derive(Debug)]
pub struct OpenDocument {
    pub text: Option<String>,
    pub version: i32,
    pub rejection: Option<String>,
    /// The source generation at which this incarnation of the document was opened.
    pub identity_generation: u64,
}

/// What an open document stands for.
pub struct DocumentView {
    pub text: Option<Seq<char>>,
    pub version: i32,
    pub rejection: Option<Seq<char>>,
    pub identity_generation: u64,
}

impl View for OpenDocument {
    type V = DocumentView;

    open spec fn view(&self) -> DocumentView {
        DocumentView {
            text: optional_text(self.text),
            version: self.version,
            rejection: optional_text(self.rejection),
            identity_generation: self.identity_generation,
        }
    }
}

/// The bytes of a document's text.
pub open spec fn text_bytes(document: DocumentView) -> int {
    match document.text {
        Some(text) => byte_len(text) as int,
        None => 0,
    }
}

/// The bytes of the texts of all documents.
pub open spec fn total_text_bytes(documents: Map<Seq<char>, DocumentView>) -> int {
    map_sum(documents, |uri: Seq<char>, document: DocumentView| text_bytes(document))
}

/// The documents that a client has open, by their URIs.
pub struct OpenDocuments {
    pub documents: StrMap<OpenDocument>,
    pub open_text_bytes: usize,
}

impl View for OpenDocuments {
    type V = Map<Seq<char>, DocumentView>;

    open spec fn view(&self) -> Map<Seq<char>, DocumentView> {
        self.documents.deep()
    }
}

/// There is no more of anything than a workspace keeps, and every document has either
/// a text or a rejection.
pub open spec fn documents_bounded(documents: Map<Seq<char>, DocumentView>) -> bool {
    &&& documents.dom().finite()
    &&& documents.dom().len() <= MAX_OPEN_DOCUMENTS
    &&& forall|uri: Seq<char>| #[trigger]
        documents.contains_key(uri) ==> byte_len(uri) <= MAX_OPEN_DOCUMENT_URI_BYTES
            && document_whole(documents[uri])
}

/// An open document has a text or a rejection.
pub open spec fn document_whole(document: DocumentView) -> bool {
    document.text is Some || document.rejection is Some
}

impl OpenDocuments {
    /// The count of text bytes is that of the texts, and the bounds hold.
    pub open spec fn wf(&self) -> bool {
        &&& documents_bounded(self@)
        &&& self.open_text_bytes == total_text_bytes(self@)
    }

    /// No documents.
    pub fn new() -> (r: Self)
        ensures
            r.wf(),
            r@ == Map::<Seq<char>, DocumentView>::empty(),
    {
        let r = OpenDocuments { documents: StrMap::new(), open_text_bytes: 0 };
        proof {
            assert(r@ =~= Map::<Seq<char>, DocumentView>::empty());
            assert(r@.dom() =~= Set::<Seq<char>>::empty());
        }
        r
    }

    /// The number of documents.
    pub fn len(&self) -> (n: usize)
        ensures
            n == self@.dom().len(),
            self@.dom().finite(),
    {
        let n = self.documents.len();
        proof {
            assert(self@.dom() =~= self.documents@.dom());
        }
        n
    }

    /// Whether the document is open.
    pub fn contains(&self, uri: &str) -> (r: bool)
        ensures
            r == self@.contains_key(uri@),
    {
        self.documents.contains_key(uri)
    }

    /// The document of a URI.
    pub fn get(&self, uri: &str) -> (r: Option<&OpenDocument>)
        ensures
            match r {
                Some(document) => self@.contains_key(uri@) && self@[uri@] == document@,
                None => !self@.contains_key(uri@),
            },
    {
        self.documents.get(uri)
    }

    /// The version of an open document.
    pub fn document_version(&self, uri: &str) -> (r: Option<i32>)
        ensures
            r == (if self@.contains_key(uri@) {
                Some(self@[uri@].version)
            } else {
                None
            }),
    {
        match self.get(uri) {
            Some(document) => Some(document.version),
            None => None,
        }
    }

    /// The bytes that the text of a document takes, 0 where it has none.
    pub fn text_bytes_of(&self, uri: &str) -> (r: usize)
        requires
            self.wf(),
        ensures
            r == (if self@.contains_key(uri@) {
                text_bytes(self@[uri@])
            } else {
                0
            }),
            r <= self.open_text_bytes,
    {
        proof {
            lemma_sum_bounds(
                self@,
                |uri: Seq<char>, document: DocumentView| text_bytes(document),
            );
        }
        match self.get(uri) {
            Some(document) => {
                proof {
                    let w = |uri: Seq<char>, document: DocumentView| text_bytes(document);
                    assert(w(uri@, self@[uri@]) <= map_sum(self@, w));
                }
                match &document.text {
                    Some(text) => byte_length(text.as_str()),
                    None => 0,
                }
            },
            None => 0,
        }
    }

    /// What the other documents leave for the text of one.
    pub fn room_for(&self, uri: &str, limits: &ResourceLimits) -> (r: TextRoom)
        requires
            self.wf(),
        ensures
            r.limits == *limits,
            r.open_text_bytes == self.open_text_bytes,
            r.previous_bytes == (if self@.contains_key(uri@) {
                text_bytes(self@[uri@])
            } else {
                0
            }),
            r.previous_bytes <= r.open_text_bytes,
    {
        TextRoom {
            limits: *limits,
            open_text_bytes: self.open_text_bytes,
            previous_bytes: self.text_bytes_of(uri),
        }
    }

    /// The bytes of all texts once that of one document takes `incoming_len`.
    pub fn open_bytes_after(&self, uri: &str, incoming_len: usize) -> (r: usize)
        requires
            self.wf(),
        ensures
            ({
                let previous = if self@.contains_key(uri@) {
                    text_bytes(self@[uri@])
                } else {
                    0
                };
                let after = total_text_bytes(self@) - previous + incoming_len;
                r == (if after > usize::MAX {
                    usize::MAX as int
                } else {
                    after
                })
            }),
    {
        let previous: usize = self.text_bytes_of(uri);
        (self.open_text_bytes - previous).saturating_add(incoming_len)
    }

    /// Whether the document may be kept: its URI is short enough, and it is open
    /// already or there is room for one more.
    pub open spec fn admits(&self, uri: Seq<char>) -> bool {
        &&& byte_len(uri) <= MAX_OPEN_DOCUMENT_URI_BYTES
        &&& self@.contains_key(uri) || self@.dom().len() < MAX_OPEN_DOCUMENTS
    }

    /// Whether the document may be kept.
    pub fn can_admit(&self, uri: &str) -> (r: bool)
        ensures
            r == self.admits(uri@),
    {
        byte_length(uri) <= MAX_OPEN_DOCUMENT_URI_BYTES && (self.contains(uri) || self.len()
            < MAX_OPEN_DOCUMENTS)
    }

    /// Keeps a document in the place of what was open under its URI.
    pub fn put(&mut self, uri: String, document: OpenDocument)
        requires
            old(self).wf(),
            old(self).admits(uri@),
            document_whole(document@),
            total_text_bytes(old(self)@.insert(uri@, document@)) <= usize::MAX,
        ensures
            final(self).wf(),
            final(self)@ == old(self)@.insert(uri@, document@),
    {
        let ghost w = |uri: Seq<char>, document: DocumentView| text_bytes(document);
        let ghost before = self@;
        let ghost k = uri@;
        let ghost v = document@;
        let previous: usize = self.text_bytes_of(uri.as_str());
        let added: usize = match &document.text {
            Some(text) => byte_length(text.as_str()),
            None => 0,
        };
        proof {
            lemma_sum_insert(before, w, k, v);
            lemma_deep_insert(self.documents@, k, document);
            assert(before.insert(k, v).dom() =~= before.dom().insert(k));
        }
        let _previous = self.documents.insert(uri, document);
        self.open_text_bytes = self.open_text_bytes - previous + added;
    }

    /// Forgets a document.
    pub fn take(&mut self, uri: &str) -> (r: Option<OpenDocument>)
        requires
            old(self).wf(),
        ensures
            final(self).wf(),
            final(self)@ == old(self)@.remove(uri@),
            match r {
                Some(document) => old(self)@.contains_key(uri@) && old(self)@[uri@] == document@,
                None => !old(self)@.contains_key(uri@),
            },
    {
        let ghost w = |uri: Seq<char>, document: DocumentView| text_bytes(document);
        let ghost before = self@;
        let previous: usize = self.text_bytes_of(uri);
        proof {
            lemma_sum_remove(before, w, uri@);
            lemma_deep_remove(self.documents@, uri@);
            assert(before.remove(uri@).dom() =~= before.dom().remove(uri@));
        }
        let taken = self.documents.remove(uri);
        self.open_text_bytes = self.open_text_bytes - previous;
        taken
    }

    /// Sets the version of a document.
    pub fn set_version(&mut self, uri: &str, version: i32)
        requires
            old(self).wf(),
        ensures
            final(self).wf(),
            final(self)@ == (if old(self)@.contains_key(uri@) {
                old(self)@.insert(uri@, DocumentView { version, ..old(self)@[uri@] })
            } else {
                old(self)@
            }),
    {
        let ghost w = |uri: Seq<char>, document: DocumentView| text_bytes(document);
        let ghost before = self@;
        let ghost held = self.documents@;
        match self.documents.remove(uri) {
            Some(mut document) => {
                document.version = version;
                proof {
                    lemma_deep_insert(held.remove(uri@), uri@, document);
                    lemma_deep_remove(held, uri@);
                    lemma_sum_insert(before, w, uri@, document@);
                    assert(before.remove(uri@).insert(uri@, document@) =~= before.insert(
                        uri@,
                        document@,
                    ));
                    assert(before.insert(uri@, document@).dom() =~= before.dom());
                    assert(text_bytes(document@) == text_bytes(before[uri@]));
                }
                let _none = self.documents.insert(uri.to_owned(), document);
            },
            None => {
                proof {
                    lemma_deep_remove(held, uri@);
                    assert(before.remove(uri@) =~= before);
                }
            },
        }
    }
}

/// The URIs whose opening was refused for want of room, until they are closed. While
/// there is one, the editor has text that the workspace does not know.
pub struct OpenFence {
    pub uris: StrSet,
    /// Set for good once a refusal could not be kept in mind.
    pub permanent: bool,
}

impl OpenFence {
    /// The fence is not larger than it may be.
    pub open spec fn wf(&self) -> bool {
        &&& self.uris@.finite()
        &&& self.uris@.len() <= MAX_REJECTED_OPEN_FENCE_URIS
        &&& forall|uri: Seq<char>| #[trigger]
            self.uris@.contains(uri) ==> byte_len(uri) <= MAX_REJECTED_OPEN_FENCE_URI_BYTES
    }

    /// Something that the editor has open is not known.
    pub open spec fn active(&self) -> bool {
        self.permanent || self.uris@.len() > 0
    }

    /// A refusal that can be kept in mind.
    pub open spec fn holds(&self, uri: Seq<char>) -> bool {
        &&& byte_len(uri) <= MAX_REJECTED_OPEN_FENCE_URI_BYTES
        &&& self.uris@.contains(uri) || self.uris@.len() < MAX_REJECTED_OPEN_FENCE_URIS
    }

    /// No refusals.
    pub fn new() -> (r: Self)
        ensures
            r.wf(),
            !r.active(),
            !r.permanent,
            r.uris@ == Set::<Seq<char>>::empty(),
    {
        let r = OpenFence { uris: StrSet::new(), permanent: false };
        proof {
            assert(r.uris@.len() == 0);
        }
        r
    }

    /// Keeps a refusal in mind. One for which there is no room closes the fence for good.
    pub fn fence_rejected_open_document(&mut self, uri: &str)
        requires
            old(self).wf(),
        ensures
            final(self).wf(),
            final(self).active(),
            old(self).holds(uri@) ==> final(self).uris@ == old(self).uris@.insert(uri@)
                && final(self).permanent == old(self).permanent,
            !old(self).holds(uri@) ==> final(self).uris@ == old(self).uris@
                && final(self).permanent,
    {
        if byte_length(uri) <= MAX_REJECTED_OPEN_FENCE_URI_BYTES && (self.uris.contains(uri)
            || self.uris.len() < MAX_REJECTED_OPEN_FENCE_URIS) {
            let _added = self.uris.insert(uri.to_owned());
        } else {
            self.permanent = true;
        }
    }

    /// Forgets a refusal; true where there was one. A fence that is closed for good
    /// stays closed.
    pub fn clear_rejected_open_fence(&mut self, uri: &str) -> (r: bool)
        requires
            old(self).wf(),
        ensures
            final(self).wf(),
            r == old(self).uris@.contains(uri@),
            final(self).uris@ == old(self).uris@.remove(uri@),
            final(self).permanent == old(self).permanent,
    {
        if byte_length(uri) <= MAX_REJECTED_OPEN_FENCE_URI_BYTES {
            self.uris.remove(uri)
        } else {
            proof {
                assert(self.uris@.remove(uri@) =~= self.uris@);
            }
            false
        }
    }

    /// Whether something that the editor has open is not known.
    pub fn analysis_admission_fenced(&self) -> (r: bool)
        ensures
            r == self.active(),
    {
        self.permanent || self.uris.len() > 0
    }
}

/// Closing one URI releases the fence of that URI alone: where another was refused too,
/// the fence stays.
pub proof fn law_closing_one_uri_keeps_the_fence_of_another(
    fence: Set<Seq<char>>,
    closed: Seq<char>,
    other: Seq<char>,
)
    requires
        fence.finite(),
        fence.contains(other),
        closed != other,
    ensures
        fence.remove(closed).len() > 0,
{
    assert(fence.remove(closed).contains(other));
    if fence.remove(closed).len() == 0 {
        assert(fence.remove(closed) =~= Set::<Seq<char>>::empty());
    }
}

} // verus!
