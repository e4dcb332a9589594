use vstd::prelude::*;
use crate::checksum::{checksum_of_chars, md5_hex};
use crate::compose::{compose_delta, compose_fits};
use crate::delta::{base_len, doc_text, target_len, Delta, OTError, OpV};
use crate::transform::{transform_delta, transform_fits};

verus! {

/// Whether `d` applies to the document `c`; see `fits_document`.
pub fn fits_document_exec(c: &Delta, d: &Delta) -> (r: bool)
    requires
        c.wf(),
        d.wf(),
    ensures
        r == fits_document(c@, d@),
{
    d.base_len() <= c.target_len() && c.compose_fits(d)
}

/// A numbered edit of a document's log, with the checksum of the text it results in.
pub struct Revision {
    pub base_revision: u64,
    pub delta: Delta,
    pub md5: String,
}

impl Revision {
    /// A copy of the revision.
    pub fn copy(&self) -> (r: Revision)
        ensures
            r.base_revision == self.base_revision,
            r.delta@ == self.delta@,
            r.md5@ == self.md5@,
    {
        Revision { base_revision: self.base_revision, delta: self.delta.copy(), md5: self.md5.clone() }
    }
}

/// Failures of the reconciliation protocol.
#[derive(Debug, PartialEq, Eq)]
pub enum SessionError {
    /// A delta does not fit the length of the document it meets.
    LengthMismatch,
    /// The text after a revision does not have the revision's checksum.
    IntegrityError,
    /// The session failed an integrity check and must be reopened from the log.
    Unusable,
    /// No pending revision is there to acknowledge.
    NotFound,
    /// The session was closed with this many local revisions never acknowledged.
    UnsyncedEditsDiscarded(usize),
}

/// Whether `d` applies to the document `c`: it needs no more than `c` holds, and the
/// result's length fits in a `usize`.
pub open spec fn fits_document(c: Seq<OpV>, d: Seq<OpV>) -> bool {
    base_len(d) <= target_len(c) && compose_fits(c, d)
}

/// The deltas of a sequence of revisions.
pub open spec fn deltas_of(revs: Seq<Revision>) -> Seq<Seq<OpV>> {
    revs.map_values(|r: Revision| r.delta@)
}

/// An incoming delta rebased over pending local deltas, oldest first: the incoming one
/// transformed against each (the local side having priority), and each local one
/// transformed against the incoming one as it stood when they met.
pub open spec fn rebase(inc: Seq<OpV>, pend: Seq<Seq<OpV>>) -> (Seq<OpV>, Seq<Seq<OpV>>)
    decreases pend.len(),
{
    if pend.len() == 0 {
        (inc, Seq::empty())
    } else {
        let rest = rebase(transform_delta(inc, pend[0], false), pend.drop_first());
        (rest.0, seq![transform_delta(pend[0], inc, true)] + rest.1)
    }
}

/// Whether every transformation of `rebase(inc, pend)` meets deltas whose lengths fit
/// (see `transform_fits`).
pub open spec fn rebase_fits(inc: Seq<OpV>, pend: Seq<Seq<OpV>>) -> bool
    decreases pend.len(),
{
    if pend.len() == 0 {
        true
    } else {
        &&& transform_fits(inc, pend[0])
        &&& rebase_fits(transform_delta(inc, pend[0], false), pend.drop_first())
    }
}

/// The document that replaying `ds` onto the empty document gives, or `None` when a
/// delta does not fit the length of the document before it.
pub open spec fn replay(ds: Seq<Seq<OpV>>) -> Option<Seq<OpV>>
    decreases ds.len(),
{
    if ds.len() == 0 {
        Some(Seq::empty())
    } else {
        match replay(ds.drop_last()) {
            Some(c) => if fits_document(c, ds.last()) {
                Some(compose_delta(c, ds.last()))
            } else {
                None
            },
            None => None,
        }
    }
}

/// Every revision of `log` replays, and the text after each has its checksum.
pub open spec fn log_consistent(log: Seq<Revision>) -> bool {
    forall|i: int|
        0 <= i < log.len() ==> {
            let c = #[trigger] replay(deltas_of(log).subrange(0, i + 1));
            c is Some && md5_hex(doc_text(c->Some_0)) == log[i].md5@
        }
}

/// The state of one open document: its content and the local revisions that the
/// server has not acknowledged yet.
pub struct DocumentSession {
    document_id: String,
    content: Delta,
    committed_revision: u64,
    pending_local: Vec<Revision>,
    discarded: bool,
}

impl DocumentSession {
    pub closed spec fn spec_content(&self) -> Seq<OpV> {
        self.content@
    }

    pub closed spec fn spec_pending(&self) -> Seq<Revision> {
        self.pending_local@
    }

    pub closed spec fn spec_committed(&self) -> u64 {
        self.committed_revision
    }

    pub closed spec fn spec_discarded(&self) -> bool {
        self.discarded
    }

    pub closed spec fn spec_document_id(&self) -> Seq<char> {
        self.document_id@
    }

    /// The session's invariant: a well-formed document delta made of inserts only, and
    /// well-formed pending deltas.
    pub closed spec fn wf(&self) -> bool {
        &&& self.content.wf()
        &&& base_len(self.content@) == 0
        &&& forall|i: int|
            0 <= i < self.pending_local@.len() ==> (#[trigger] self.pending_local@[i]).delta.wf()
    }

    /// Opens a document by replaying its log onto the empty document, checking the
    /// checksum after each revision.
    pub fn open(document_id: String, log: &Vec<Revision>) -> (r: Result<DocumentSession, SessionError>)
        requires
            log@.len() < u64::MAX,
            forall|i: int| 0 <= i < log@.len() ==> (#[trigger] log@[i]).delta.wf(),
        ensures
            (r is Ok) <==> log_consistent(log@),
            r is Ok ==> ({
                let s = r->Ok_0;
                &&& s.wf()
                &&& replay(deltas_of(log@)) == Some(s.spec_content())
                &&& s.spec_committed() == log@.len()
                &&& s.spec_pending().len() == 0
                &&& !s.spec_discarded()
                &&& s.spec_document_id() == document_id@
            }),
            r is Err ==> r == Err::<DocumentSession, SessionError>(SessionError::LengthMismatch)
                || r == Err::<DocumentSession, SessionError>(SessionError::IntegrityError),
    {
        let ghost ds = deltas_of(log@);
        let mut content = Delta::new();
        let mut i: usize = 0;
        proof {
            assert(ds.subrange(0, 0) =~= Seq::<Seq<OpV>>::empty());
        }
        while i < log.len()
            invariant
                i <= log@.len(),
                ds == deltas_of(log@),
                forall|j: int| 0 <= j < log@.len() ==> (#[trigger] log@[j]).delta.wf(),
                content.wf(),
                base_len(content@) == 0,
                replay(ds.subrange(0, i as int)) == Some(content@),
                forall|j: int|
                    0 <= j < i ==> {
                        let c = #[trigger] replay(ds.subrange(0, j + 1));
                        c is Some && md5_hex(doc_text(c->Some_0)) == log@[j].md5@
                    },
            decreases log@.len() - i,
        {
            let rev = &log[i];
            let ghost pre = ds.subrange(0, i as int + 1);
            assert(pre.drop_last() =~= ds.subrange(0, i as int));
            assert(pre.last() == rev.delta@);
            if !fits_document_exec(&content, &rev.delta) {
                proof {
                    assert(replay(pre) is None);
                }
                return Err(SessionError::LengthMismatch);
            }
            match content.compose(&rev.delta) {
                Ok(next) => {
                    let sum = checksum_of_chars(&next.text());
                    if !(sum == rev.md5) {
                        return Err(SessionError::IntegrityError);
                    }
                    content = next;
                },
                Err(_) => {
                    proof {
                        assert(replay(pre) is None);
                    }
                    return Err(SessionError::LengthMismatch);
                },
            }
            i = i + 1;
        }
        assert(ds.subrange(0, i as int) =~= ds);
        Ok(
            DocumentSession {
                document_id,
                content,
                committed_revision: i as u64,
                pending_local: Vec::new(),
                discarded: false,
            },
        )
    }

    /// Applies a local edit: composes it onto the content, records it as a pending
    /// revision numbered after the committed and pending ones, and returns that revision
    /// for sending.
    pub fn apply_local_delta(&mut self, delta: Delta) -> (r: Result<Revision, SessionError>)
        requires
            old(self).wf(),
            delta.wf(),
            old(self).spec_committed() + old(self).spec_pending().len() < u64::MAX,
        ensures
            final(self).wf(),
            old(self).spec_discarded() ==> r == Err::<Revision, SessionError>(SessionError::Unusable),
            !old(self).spec_discarded() && !fits_document(old(self).spec_content(), delta@) ==> r == Err::<
                Revision,
                SessionError,
            >(SessionError::LengthMismatch),
            r is Err ==> *final(self) == *old(self),
            (r is Ok) <==> (!old(self).spec_discarded() && fits_document(old(self).spec_content(), delta@)),
            r is Ok ==> ({
                let rev = r->Ok_0;
                &&& rev.base_revision == old(self).spec_committed()
                    + old(self).spec_pending().len()
                &&& rev.delta@ == delta@
                &&& final(self).spec_content() == compose_delta(old(self).spec_content(), delta@)
                &&& rev.md5@ == md5_hex(doc_text(final(self).spec_content()))
                &&& final(self).spec_pending().len() == old(self).spec_pending().len() + 1
                &&& final(self).spec_pending().drop_last() == old(self).spec_pending()
                &&& final(self).spec_pending().last().base_revision == rev.base_revision
                &&& final(self).spec_pending().last().delta@ == delta@
                &&& final(self).spec_pending().last().md5@ == rev.md5@
                &&& deltas_of(final(self).spec_pending()) == deltas_of(old(self).spec_pending()).push(delta@)
                &&& final(self).spec_committed() == old(self).spec_committed()
                &&& final(self).spec_document_id() == old(self).spec_document_id()
                &&& !final(self).spec_discarded()
            }),
    {
        if self.discarded {
            return Err(SessionError::Unusable);
        }
        if !fits_document_exec(&self.content, &delta) {
            return Err(SessionError::LengthMismatch);
        }
        let next = match self.content.compose(&delta) {
            Ok(d) => d,
            Err(_) => {
                return Err(SessionError::LengthMismatch);
            },
        };
        let md5 = checksum_of_chars(&next.text());
        let rev = Revision {
            base_revision: self.committed_revision + self.pending_local.len() as u64,
            delta,
            md5,
        };
        let ghost old_pending = self.spec_pending();
        self.pending_local.push(rev.copy());
        self.content = next;
        assert(self.spec_pending().drop_last() =~= old_pending);
        assert(deltas_of(self.spec_pending()) =~= deltas_of(old_pending).push(rev.delta@));
        Ok(rev)
    }

    /// Rebases an incoming remote delta over the pending local revisions: the delta that
    /// applies to the current content, and the pending revisions rewritten to follow it.
    pub fn rebase_incoming(&self, incoming: &Delta) -> (r: Result<(Delta, Vec<Revision>), SessionError>)
        requires
            self.wf(),
            incoming.wf(),
        ensures
            r is Ok ==> ({
                let (d, p) = r->Ok_0;
                let e = rebase(incoming@, deltas_of(self.spec_pending()));
                &&& d.wf()
                &&& d@ == e.0
                &&& deltas_of(p@) == e.1
                &&& p@.len() == self.spec_pending().len()
                &&& forall|i: int| 0 <= i < p@.len() ==> {
                    &&& (#[trigger] p@[i]).delta.wf()
                    &&& p@[i].base_revision == self.spec_pending()[i].base_revision
                    &&& p@[i].md5@ == self.spec_pending()[i].md5@
                }
            }),
            r is Err ==> r == Err::<(Delta, Vec<Revision>), SessionError>(SessionError::LengthMismatch),
            (r is Ok) <==> rebase_fits(incoming@, deltas_of(self.spec_pending())),
    {
        let ghost ps = deltas_of(self.spec_pending());
        let mut inc = incoming.copy();
        let mut out: Vec<Revision> = Vec::new();
        let mut i: usize = 0;
        let n = self.pending_local.len();
        proof {
            assert(ps.subrange(0, n as int) =~= ps);
            assert(deltas_of(out@) =~= Seq::<Seq<OpV>>::empty());
        }
        while i < n
            invariant
                self.wf(),
                n == self.spec_pending().len(),
                ps == deltas_of(self.spec_pending()),
                i <= n,
                inc.wf(),
                out@.len() == i,
                ({
                    let tail = rebase(inc@, ps.subrange(i as int, n as int));
                    rebase(incoming@, ps) == (tail.0, deltas_of(out@) + tail.1)
                }),
                rebase_fits(incoming@, ps) == rebase_fits(inc@, ps.subrange(i as int, n as int)),
                forall|j: int| 0 <= j < i ==> {
                    &&& (#[trigger] out@[j]).delta.wf()
                    &&& out@[j].base_revision == self.spec_pending()[j].base_revision
                    &&& out@[j].md5@ == self.spec_pending()[j].md5@
                },
            decreases n - i,
        {
            let local = &self.pending_local[i];
            assert(local.delta.wf());
            proof {
                let t = ps.subrange(i as int, n as int);
                assert(t[0] == local.delta@);
                assert(t.drop_first() =~= ps.subrange(i as int + 1, n as int));
            }
            if !inc.transform_fits(&local.delta) {
                return Err(SessionError::LengthMismatch);
            }
            let inc2 = match inc.transform(&local.delta, false) {
                Ok(d) => d,
                Err(_) => {
                    return Err(SessionError::LengthMismatch);
                },
            };
            let loc2 = match local.delta.transform(&inc, true) {
                Ok(d) => d,
                Err(_) => {
                    return Err(SessionError::LengthMismatch);
                },
            };
            proof {
                let t = ps.subrange(i as int, n as int);
                assert(t[0] == local.delta@);
                assert(t.drop_first() =~= ps.subrange(i as int + 1, n as int));
            }
            let ghost old_out = out@;
            let ghost old_inc = inc@;
            out.push(Revision { base_revision: local.base_revision, delta: loc2, md5: local.md5.clone() });
            inc = inc2;
            proof {
                let tail = rebase(inc@, ps.subrange(i as int + 1, n as int));
                assert(deltas_of(out@) =~= deltas_of(old_out).push(out@[i as int].delta@));
                assert(deltas_of(old_out) + (seq![out@[i as int].delta@] + tail.1) =~= deltas_of(out@) + tail.1);
            }
            i = i + 1;
        }
        proof {
            assert(ps.subrange(n as int, n as int) =~= Seq::<Seq<OpV>>::empty());
            assert(deltas_of(out@) + Seq::<Seq<OpV>>::empty() =~= deltas_of(out@));
        }
        Ok((inc, out))
    }

    /// Completes a remote revision once the checksum of the new content is computed:
    /// takes the new content and pending revisions when `computed` equals `recorded`, and
    /// otherwise marks the session unusable.
    pub fn commit_remote(
        &mut self,
        content: Delta,
        pending: Vec<Revision>,
        computed: &String,
        recorded: &String,
    ) -> (r: Result<(), SessionError>)
        requires
            old(self).wf(),
            content.wf(),
            base_len(content@) == 0,
            forall|i: int| 0 <= i < pending@.len() ==> (#[trigger] pending@[i]).delta.wf(),
            old(self).spec_committed() < u64::MAX,
        ensures
            final(self).wf(),
            (r is Ok) <==> computed@ == recorded@,
            r is Ok ==> ({
                &&& final(self).spec_content() == content@
                &&& final(self).spec_pending() == pending@
                &&& final(self).spec_committed() == old(self).spec_committed() + 1
                &&& final(self).spec_discarded() == old(self).spec_discarded()
                &&& final(self).spec_document_id() == old(self).spec_document_id()
            }),
            r is Err ==> ({
                &&& r == Err::<(), SessionError>(SessionError::IntegrityError)
                &&& final(self).spec_discarded()
                &&& final(self).spec_content() == old(self).spec_content()
                &&& final(self).spec_pending() == old(self).spec_pending()
                &&& final(self).spec_committed() == old(self).spec_committed()
                &&& final(self).spec_document_id() == old(self).spec_document_id()
            }),
    {
        if !(*computed == *recorded) {
            self.discarded = true;
            return Err(SessionError::IntegrityError);
        }
        self.content = content;
        self.pending_local = pending;
        self.committed_revision = self.committed_revision + 1;
        Ok(())
    }

    /// Applies a revision from the server: rebases it over the pending local revisions,
    /// composes it onto the content, and checks the resulting text against the revision's
    /// checksum. A mismatch leaves the session unusable.
    pub fn apply_remote_revision(&mut self, rev: Revision) -> (r: Result<(), SessionError>)
        requires
            old(self).wf(),
            rev.delta.wf(),
            old(self).spec_committed() < u64::MAX,
        ensures
            final(self).wf(),
            (r == Err::<(), SessionError>(SessionError::Unusable)) <==> old(self).spec_discarded(),
            r == Err::<(), SessionError>(SessionError::Unusable) || r == Err::<(), SessionError>(
                SessionError::LengthMismatch,
            ) ==> *final(self) == *old(self),
            r is Ok ==> ({
                let e = rebase(rev.delta@, deltas_of(old(self).spec_pending()));
                &&& !old(self).spec_discarded()
                &&& fits_document(old(self).spec_content(), e.0)
                &&& final(self).spec_content() == compose_delta(old(self).spec_content(), e.0)
                &&& md5_hex(doc_text(final(self).spec_content())) == rev.md5@
                &&& deltas_of(final(self).spec_pending()) == e.1
                &&& final(self).spec_committed() == old(self).spec_committed() + 1
                &&& !final(self).spec_discarded()
            }),
            r == Err::<(), SessionError>(SessionError::IntegrityError) ==> ({
                let e = rebase(rev.delta@, deltas_of(old(self).spec_pending()));
                &&& md5_hex(doc_text(compose_delta(old(self).spec_content(), e.0))) != rev.md5@
                &&& final(self).spec_discarded()
                &&& final(self).spec_content() == old(self).spec_content()
                &&& final(self).spec_pending() == old(self).spec_pending()
                &&& final(self).spec_committed() == old(self).spec_committed()
            }),
            r is Ok || r == Err::<(), SessionError>(SessionError::Unusable) || r == Err::<
                (),
                SessionError,
            >(SessionError::LengthMismatch) || r == Err::<(), SessionError>(
                SessionError::IntegrityError,
            ),
            (r is Ok) <==> ({
                let ps = deltas_of(old(self).spec_pending());
                let e = rebase(rev.delta@, ps);
                &&& !old(self).spec_discarded()
                &&& rebase_fits(rev.delta@, ps)
                &&& fits_document(old(self).spec_content(), e.0)
                &&& md5_hex(doc_text(compose_delta(old(self).spec_content(), e.0))) == rev.md5@
            }),
            r == Err::<(), SessionError>(SessionError::LengthMismatch) <==> ({
                let ps = deltas_of(old(self).spec_pending());
                &&& !old(self).spec_discarded()
                &&& !(rebase_fits(rev.delta@, ps) && fits_document(
                    old(self).spec_content(),
                    rebase(rev.delta@, ps).0,
                ))
            }),
    {
        if self.discarded {
            return Err(SessionError::Unusable);
        }
        let (inc, pending) = match self.rebase_incoming(&rev.delta) {
            Ok(x) => x,
            Err(_) => {
                return Err(SessionError::LengthMismatch);
            },
        };
        if !fits_document_exec(&self.content, &inc) {
            return Err(SessionError::LengthMismatch);
        }
        let next = match self.content.compose(&inc) {
            Ok(d) => d,
            Err(_) => {
                return Err(SessionError::LengthMismatch);
            },
        };
        let computed = checksum_of_chars(&next.text());
        self.commit_remote(next, pending, &computed, &rev.md5)
    }

    /// Takes the server's acknowledgment of the oldest pending revision: it leaves the
    /// pending ones and the committed revision number advances.
    pub fn acknowledge(&mut self) -> (r: Result<Revision, SessionError>)
        requires
            old(self).wf(),
            old(self).spec_committed() < u64::MAX,
        ensures
            final(self).wf(),
            (r is Ok) <==> old(self).spec_pending().len() > 0,
            r is Err ==> r == Err::<Revision, SessionError>(SessionError::NotFound) && *final(self)
                == *old(self),
            r is Ok ==> ({
                &&& r->Ok_0 == old(self).spec_pending()[0]
                &&& final(self).spec_pending() == old(self).spec_pending().drop_first()
                &&& final(self).spec_committed() == old(self).spec_committed() + 1
                &&& final(self).spec_content() == old(self).spec_content()
                &&& final(self).spec_discarded() == old(self).spec_discarded()
            }),
    {
        if self.pending_local.len() == 0 {
            return Err(SessionError::NotFound);
        }
        let rev = self.pending_local.remove(0);
        assert(self.spec_pending() =~= old(self).spec_pending().drop_first());
        self.committed_revision = self.committed_revision + 1;
        Ok(rev)
    }

    /// Closes the session. Local revisions that the server never acknowledged are lost
    /// with it, and their number is reported.
    pub fn close(self) -> (r: Result<(), SessionError>)
        ensures
            (r is Ok) <==> self.spec_pending().len() == 0,
            r is Err ==> r == Err::<(), SessionError>(
                SessionError::UnsyncedEditsDiscarded(self.spec_pending().len() as usize),
            ),
    {
        let n = self.pending_local.len();
        if n == 0 {
            Ok(())
        } else {
            Err(SessionError::UnsyncedEditsDiscarded(n))
        }
    }

    /// The document's identifier.
    pub fn document_id(&self) -> (r: &String)
        ensures
            r@ == self.spec_document_id(),
    {
        &self.document_id
    }

    /// The document's content, as a delta of inserts.
    pub fn content(&self) -> (r: &Delta)
        ensures
            r@ == self.spec_content(),
    {
        &self.content
    }

    /// The number of the last revision the server committed.
    pub fn committed_revision(&self) -> (r: u64)
        ensures
            r == self.spec_committed(),
    {
        self.committed_revision
    }

    /// The local revisions the server has not acknowledged, oldest first.
    pub fn pending_local(&self) -> (r: &Vec<Revision>)
        ensures
            r@ == self.spec_pending(),
    {
        &self.pending_local
    }

    /// Whether an integrity check failed, so that the session must be reopened.
    pub fn is_discarded(&self) -> (r: bool)
        ensures
            r == self.spec_discarded(),
    {
        self.discarded
    }

    /// Whether no local revision awaits acknowledgment.
    pub fn is_idle(&self) -> (r: bool)
        ensures
            r == (self.spec_pending().len() == 0),
    {
        self.pending_local.len() == 0
    }

    /// The current text of the document.
    pub fn snapshot(&self) -> (r: Vec<char>)
        ensures
            r@ == doc_text(self.spec_content()),
    {
        self.content.text()
    }
}

} // verus!
