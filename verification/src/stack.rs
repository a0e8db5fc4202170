//! Stack identifiers, the documents of a stack (which all belong to it),
//! and the checks the engine runs on them.

use vstd::prelude::*;

use crate::dedup::{masked, retain_by_mask};

verus! {

/// The id of a stack: a UUID, held as its 128-bit value.
#[derive(Clone, Copy, Debug, PartialEq, Eq, Structural, Hash)]
pub struct StackId(pub u128);

/// The id of a document: a UUID, held as its 128-bit value.
#[derive(Clone, Copy, Debug, PartialEq, Eq, Structural, Hash)]
pub struct DocumentId(pub u128);

/// `77cf9280-bb93-4158-b660-8732927e0dcc`.
pub const EXPLORATION_STACK: u128 = 0x77cf9280bb934158b6608732927e0dcc_u128;
/// `1ce442c8-8a96-433e-91db-c0bee37e5a83`.
pub const BREAKING_NEWS_STACK: u128 = 0x1ce442c88a96433e91dbc0bee37e5a83_u128;
/// `311dc7eb-5fc7-4aa4-8232-e119f7e80e76`.
pub const PERSONALIZED_NEWS_STACK: u128 = 0x311dc7eb5fc74aa48232e119f7e80e76_u128;
/// `d0f699d8-60d2-4008-b3a1-df1cffc4b8a3`.
pub const TRUSTED_NEWS_STACK: u128 = 0xd0f699d860d24008b3a1df1cffc4b8a3_u128;

/// The name of the stack with id `id`, for the stacks the engine knows.
pub open spec fn stack_name(id: u128) -> Option<Seq<char>> {
    if id == EXPLORATION_STACK {
        Some("Exploration"@)
    } else if id == BREAKING_NEWS_STACK {
        Some("BreakingNews"@)
    } else if id == PERSONALIZED_NEWS_STACK {
        Some("PersonalizedNews"@)
    } else if id == TRUSTED_NEWS_STACK {
        Some("TrustedNews"@)
    } else {
        None
    }
}

impl StackId {
    /// The nil id, which marks documents that belong to no stack.
    pub fn nil() -> (r: StackId)
        ensures
            r.0 == 0,
    {
        StackId(0)
    }

    /// Whether this is the nil id.
    pub fn is_nil(&self) -> (r: bool)
        ensures
            r == (self.0 == 0),
    {
        self.0 == 0
    }

    /// The id of the exploration stack.
    pub fn exploration() -> (r: StackId)
        ensures
            r.0 == EXPLORATION_STACK,
    {
        StackId(EXPLORATION_STACK)
    }

    /// The id of the breaking news stack.
    pub fn breaking_news() -> (r: StackId)
        ensures
            r.0 == BREAKING_NEWS_STACK,
    {
        StackId(BREAKING_NEWS_STACK)
    }

    /// The id of the personalized news stack.
    pub fn personalized_news() -> (r: StackId)
        ensures
            r.0 == PERSONALIZED_NEWS_STACK,
    {
        StackId(PERSONALIZED_NEWS_STACK)
    }

    /// The id of the trusted news stack.
    pub fn trusted_news() -> (r: StackId)
        ensures
            r.0 == TRUSTED_NEWS_STACK,
    {
        StackId(TRUSTED_NEWS_STACK)
    }

    /// The name of the stack, for the stacks the engine knows.
    pub fn name(&self) -> (r: Option<&'static str>)
        ensures
            match r {
                Some(n) => stack_name(self.0) == Some(n@),
                None => stack_name(self.0).is_none(),
            },
    {
        if self.0 == EXPLORATION_STACK {
            Some("Exploration")
        } else if self.0 == BREAKING_NEWS_STACK {
            Some("BreakingNews")
        } else if self.0 == PERSONALIZED_NEWS_STACK {
            Some("PersonalizedNews")
        } else if self.0 == TRUSTED_NEWS_STACK {
            Some("TrustedNews")
        } else {
            None
        }
    }
}

impl Default for StackId {
    /// The default id is the nil id.
    fn default() -> (r: StackId)
        ensures
            r.0 == 0,
    {
        StackId(0)
    }
}

/// A document as far as the stack checks read it: its id and the stack it
/// was taken from.
#[derive(Clone, Copy, Debug, PartialEq, Eq, Structural)]
pub struct StackDocument {
    pub id: DocumentId,
    pub stack_id: StackId,
}

/// The errors of the stack checks.
#[derive(Clone, Copy, Debug, PartialEq, Eq, Structural)]
pub enum StackError {
    /// A document belongs to another stack than the one it was handed to.
    InvalidDocument { document_id: DocumentId, document_stack_id: StackId, stack_id: StackId },
}

/// Checks that every document belongs to the stack `stack_id`; the error
/// names the first one that does not.
pub fn validate_documents_stack_id(documents: &[StackDocument], stack_id: StackId) -> (r: Result<(), StackError>)
    ensures
        r is Ok <==> forall|i: int| 0 <= i < documents@.len() ==> (#[trigger] documents@[i]).stack_id == stack_id,
        r is Err ==> exists|i: int| 0 <= i < documents@.len() && (forall|k: int| 0 <= k < i ==> (#[trigger] documents@[k]).stack_id == stack_id) && documents@[i].stack_id != stack_id && r == Err::<(), StackError>(StackError::InvalidDocument {
            document_id: documents@[i].id,
            document_stack_id: documents@[i].stack_id,
            stack_id,
        }),
{
    let mut i: usize = 0;
    while i < documents.len()
        invariant
            i <= documents@.len(),
            forall|k: int| 0 <= k < i ==> (#[trigger] documents@[k]).stack_id == stack_id,
        decreases documents@.len() - i,
    {
        let doc = documents[i];
        if doc.stack_id.0 != stack_id.0 {
            return Err(StackError::InvalidDocument {
                document_id: doc.id,
                document_stack_id: doc.stack_id,
                stack_id,
            });
        }
        i = i + 1;
    }
    Ok(())
}

/// Keeps the last `keep` documents of a stack and hands back the ones before
/// them, if there are any.
pub fn retain_top<D>(documents: &mut Vec<D>, keep: usize) -> (r: Option<Vec<D>>)
    ensures
        old(documents)@.len() <= keep ==> r is None && final(documents)@ == old(documents)@,
        old(documents)@.len() > keep ==> r is Some
            && r.unwrap()@ == old(documents)@.subrange(0, old(documents)@.len() - keep)
            && final(documents)@ == old(documents)@.subrange(old(documents)@.len() - keep, old(documents)@.len() as int),
{
    let len = documents.len();
    if len <= keep {
        return None;
    }
    let mut removed = documents.split_off(len - keep);
    std::mem::swap(documents, &mut removed);
    Some(removed)
}

/// Every document belongs to the stack `stack_id`.
pub open spec fn all_belong<D>(documents: Seq<(StackDocument, D)>, stack_id: StackId) -> bool {
    forall|i: int| 0 <= i < documents.len() ==> (#[trigger] documents[i]).0.stack_id == stack_id
}

/// The flags of a filter that decides the first `flags.len()` documents and
/// keeps the rest.
pub open spec fn padded_flags(flags: Seq<bool>, len: nat) -> Seq<bool> {
    Seq::new(len, |i: int| if i < flags.len() { flags[i] } else { true })
}

proof fn lemma_masked_belong<D>(documents: Seq<(StackDocument, D)>, keep: Seq<bool>, stack_id: StackId)
    requires
        all_belong(documents, stack_id),
    ensures
        all_belong(masked(documents, keep), stack_id),
    decreases documents.len(),
{
    if documents.len() > 0 && keep.len() > 0 {
        lemma_masked_belong(documents.drop_last(), keep.drop_last(), stack_id);
        assert(documents.last() == documents[documents.len() - 1]);
    }
}

/// The documents of a stack, all of which belong to it, each with the id
/// and stack that the checks read. The last document is the first to be
/// shown.
pub struct StackDocuments<D> {
    stack_id: StackId,
    documents: Vec<(StackDocument, D)>,
}

impl<D> StackDocuments<D> {
    /// The stack the documents belong to.
    pub closed spec fn stack(&self) -> StackId {
        self.stack_id
    }

    /// The documents, in order.
    pub closed spec fn documents(&self) -> Seq<(StackDocument, D)> {
        self.documents@
    }

    /// A stack only holds its own documents.
    pub closed spec fn wf(&self) -> bool {
        all_belong(self.documents@, self.stack_id)
    }

    /// Makes a stack of the given documents, or names the first that belongs
    /// to another stack.
    pub fn new(stack_id: StackId, documents: Vec<(StackDocument, D)>) -> (r: Result<StackDocuments<D>, StackError>)
        ensures
            r is Ok <==> all_belong(documents@, stack_id),
            r matches Ok(s) ==> s.wf() && s.stack() == stack_id && s.documents() == documents@,
            r matches Err(e) ==> exists|i: int| 0 <= i < documents@.len()
                && (forall|k: int| 0 <= k < i ==> (#[trigger] documents@[k]).0.stack_id == stack_id)
                && documents@[i].0.stack_id != stack_id
                && e == (StackError::InvalidDocument {
                    document_id: documents@[i].0.id,
                    document_stack_id: documents@[i].0.stack_id,
                    stack_id,
                }),
    {
        match first_foreign(&documents, stack_id) {
            Some(e) => Err(e),
            None => Ok(StackDocuments { stack_id, documents }),
        }
    }

    /// The stack the documents belong to.
    pub fn id(&self) -> (r: StackId)
        ensures
            r == self.stack(),
    {
        self.stack_id
    }

    /// The number of documents.
    pub fn len(&self) -> (r: usize)
        ensures
            r == self.documents().len(),
    {
        self.documents.len()
    }

    /// Whether the stack holds no document.
    pub fn is_empty(&self) -> (r: bool)
        ensures
            r <==> self.documents().len() == 0,
    {
        self.documents.len() == 0
    }

    /// Read access to the documents, in order.
    pub fn as_slice(&self) -> (r: &[(StackDocument, D)])
        ensures
            r@ == self.documents(),
    {
        self.documents.as_slice()
    }

    /// Adds the new documents after the current ones and keeps those whose
    /// flag is set, where a document beyond the flags is kept (the filter of
    /// documents too similar to a disliked interest). Where a new document
    /// belongs to another stack, the first such is named and the stack is
    /// left unchanged.
    pub fn update(&mut self, new_documents: Vec<(StackDocument, D)>, keep: &Vec<bool>) -> (r: Result<(), StackError>)
        requires
            old(self).wf(),
            old(self).documents().len() + new_documents@.len() <= usize::MAX,
        ensures
            final(self).wf(),
            final(self).stack() == old(self).stack(),
            r is Ok <==> all_belong(new_documents@, old(self).stack()),
            r is Err ==> final(self).documents() == old(self).documents(),
            r matches Err(e) ==> exists|i: int| 0 <= i < new_documents@.len()
                && (forall|k: int| 0 <= k < i ==> (#[trigger] new_documents@[k]).0.stack_id == old(self).stack())
                && new_documents@[i].0.stack_id != old(self).stack()
                && e == (StackError::InvalidDocument {
                    document_id: new_documents@[i].0.id,
                    document_stack_id: new_documents@[i].0.stack_id,
                    stack_id: old(self).stack(),
                }),
            r is Ok ==> final(self).documents() == masked(
                old(self).documents() + new_documents@,
                padded_flags(keep@, old(self).documents().len() + new_documents@.len()),
            ),
    {
        if let Some(e) = first_foreign(&new_documents, self.stack_id) {
            return Err(e);
        }
        let mut merged: Vec<(StackDocument, D)> = Vec::new();
        std::mem::swap(&mut merged, &mut self.documents);
        let ghost old_docs = merged@;
        let ghost added = new_documents@;
        let mut new_documents = new_documents;
        merged.append(&mut new_documents);
        let n = merged.len();
        let mut flags: Vec<bool> = Vec::new();
        let mut i: usize = 0;
        while i < n
            invariant
                i <= n,
                flags@ == padded_flags(keep@, n as nat).subrange(0, i as int),
            decreases n - i,
        {
            let flag = if i < keep.len() { keep[i] } else { true };
            flags.push(flag);
            proof {
                assert(flags@ =~= padded_flags(keep@, n as nat).subrange(0, i + 1));
            }
            i = i + 1;
        }
        proof {
            assert(flags@ =~= padded_flags(keep@, n as nat));
            assert(all_belong(merged@, self.stack_id)) by {
                assert forall|k: int| 0 <= k < merged@.len() implies (#[trigger] merged@[k]).0.stack_id == self.stack_id by {
                    if k < old_docs.len() {
                        assert(merged@[k] == old_docs[k]);
                    } else {
                        assert(merged@[k] == added[k - old_docs.len()]);
                    }
                }
            }
            lemma_masked_belong(merged@, flags@, self.stack_id);
        }
        self.documents = retain_by_mask(merged, &flags);
        Ok(())
    }

    /// Turns the order of the documents around, as the engine does after
    /// ranking them.
    pub fn reverse(&mut self)
        requires
            old(self).wf(),
        ensures
            final(self).wf(),
            final(self).stack() == old(self).stack(),
            final(self).documents() == old(self).documents().reverse(),
    {
        let mut rest: Vec<(StackDocument, D)> = Vec::new();
        std::mem::swap(&mut rest, &mut self.documents);
        let ghost all = rest@;
        let mut reversed: Vec<(StackDocument, D)> = Vec::new();
        while rest.len() > 0
            invariant
                all == rest@ + reversed@.reverse(),
                all_belong(all, self.stack_id),
            decreases rest.len(),
        {
            let ghost before = reversed@;
            let d = rest.pop().unwrap();
            reversed.push(d);
            proof {
                assert(reversed@.reverse() =~= seq![d] + before.reverse());
                assert(all =~= rest@ + reversed@.reverse());
            }
        }
        proof {
            assert(reversed@.reverse() =~= all);
            assert(reversed@ =~= all.reverse());
            assert forall|k: int| 0 <= k < reversed@.len() implies (#[trigger] reversed@[k]).0.stack_id == self.stack_id by {
                assert(reversed@[k] == all[all.len() - 1 - k]);
            }
        }
        self.documents = reversed;
    }

    /// Removes the documents whose flag is not set (those from an excluded
    /// source), keeping the rest in order.
    pub fn retain_flagged(&mut self, keep: &Vec<bool>)
        requires
            old(self).wf(),
            keep@.len() == old(self).documents().len(),
        ensures
            final(self).wf(),
            final(self).stack() == old(self).stack(),
            final(self).documents() == masked(old(self).documents(), keep@),
    {
        let mut docs: Vec<(StackDocument, D)> = Vec::new();
        std::mem::swap(&mut docs, &mut self.documents);
        proof {
            lemma_masked_belong(docs@, keep@, self.stack_id);
        }
        self.documents = retain_by_mask(docs, keep);
    }

    /// Keeps the last `keep` documents and hands back the ones before them,
    /// if there are any.
    pub fn retain_top(&mut self, keep: usize) -> (r: Option<Vec<(StackDocument, D)>>)
        requires
            old(self).wf(),
        ensures
            final(self).wf(),
            final(self).stack() == old(self).stack(),
            old(self).documents().len() <= keep ==> r is None && final(self).documents() == old(self).documents(),
            old(self).documents().len() > keep ==> r is Some
                && r.unwrap()@ == old(self).documents().subrange(0, old(self).documents().len() - keep)
                && final(self).documents() == old(self).documents().subrange(old(self).documents().len() - keep, old(self).documents().len() as int),
    {
        let mut docs: Vec<(StackDocument, D)> = Vec::new();
        std::mem::swap(&mut docs, &mut self.documents);
        let ghost all = docs@;
        let r = retain_top(&mut docs, keep);
        proof {
            assert forall|k: int| 0 <= k < docs@.len() implies (#[trigger] docs@[k]).0.stack_id == self.stack_id by {
                if all.len() > keep {
                    assert(docs@[k] == all[all.len() - keep + k]);
                } else {
                    assert(docs@[k] == all[k]);
                }
            }
        }
        self.documents = docs;
        r
    }

    /// Takes all documents out of the stack, in order, leaving it empty.
    pub fn drain_documents(&mut self) -> (r: Vec<(StackDocument, D)>)
        requires
            old(self).wf(),
        ensures
            final(self).wf(),
            final(self).stack() == old(self).stack(),
            r@ == old(self).documents(),
            final(self).documents().len() == 0,
    {
        let mut docs: Vec<(StackDocument, D)> = Vec::new();
        std::mem::swap(&mut docs, &mut self.documents);
        docs
    }
}

/// The first document that belongs to another stack than `stack_id`, as the
/// error that names it.
fn first_foreign<D>(documents: &Vec<(StackDocument, D)>, stack_id: StackId) -> (r: Option<StackError>)
    ensures
        r is None <==> all_belong(documents@, stack_id),
        r matches Some(e) ==> exists|i: int| 0 <= i < documents@.len()
            && (forall|k: int| 0 <= k < i ==> (#[trigger] documents@[k]).0.stack_id == stack_id)
            && documents@[i].0.stack_id != stack_id
            && e == (StackError::InvalidDocument {
                document_id: documents@[i].0.id,
                document_stack_id: documents@[i].0.stack_id,
                stack_id,
            }),
{
    let mut i: usize = 0;
    while i < documents.len()
        invariant
            i <= documents@.len(),
            forall|k: int| 0 <= k < i ==> (#[trigger] documents@[k]).0.stack_id == stack_id,
        decreases documents@.len() - i,
    {
        let doc = documents[i].0;
        if doc.stack_id.0 != stack_id.0 {
            return Some(StackError::InvalidDocument {
                document_id: doc.id,
                document_stack_id: doc.stack_id,
                stack_id,
            });
        }
        i = i + 1;
    }
    None
}

} // verus!
