//! The indexing coordinator: decides, for each freshly scanned session,
//! whether it is new, grown, or unchanged, and applies the decision to
//! the store.
//!
//! Growth is detected by comparing message counts: a stored session
//! whose count differs from the fresh scan is replaced whole; one whose
//! count matches is skipped untouched. Scanning the logs themselves is
//! the adapters' work, outside the engine.

use vstd::prelude::*;
use crate::model::SessionData;
use crate::store::{has_session_id, lemma_sidx_of, sidx, to_i64_sat, Database};
use crate::StoreError;

verus! {

/// What indexing did with one session.
#[derive(Debug, Clone, Copy, PartialEq, Eq, Structural)]
pub enum IndexAction {
    Inserted,
    Updated,
    Skipped,
}

/// The counts reported for one agent's indexing run.
#[derive(Debug, Clone)]
pub struct IndexResult {
    pub agent: String,
    pub sessions_found: usize,
    pub sessions_new: usize,
    pub sessions_updated: usize,
}

/// The decision the coordinator takes for a scanned session: insert an
/// unseen id, update a stored session whose message count changed, and
/// skip one whose count still matches.
pub open spec fn index_decision(db: Database, s: SessionData) -> IndexAction {
    if !has_session_id(db.sessions_view(), s.id@) {
        IndexAction::Inserted
    } else {
        let j = sidx(db.sessions_view(), s.id@);
        if db.sessions_view()[j].message_count != s.messages@.len() as int {
            IndexAction::Updated
        } else {
            IndexAction::Skipped
        }
    }
}

/// Indexes one scanned session: inserts it when unseen, replaces it
/// when its message count changed, and otherwise leaves the store
/// exactly as it was.
pub fn index_session(db: &mut Database, s: &SessionData) -> (r: Result<IndexAction, StoreError>)
    requires
        old(db).wf(),
    ensures
        final(db).wf(),
        match r {
            Ok(a) => {
                &&& a == index_decision(*old(db), *s)
                &&& a == IndexAction::Skipped ==> *final(db) == *old(db)
                &&& a == IndexAction::Inserted ==> final(db).sessions_view().len() == old(
                    db,
                ).sessions_view().len() + 1 && final(db).sessions_view().last().id == s.id@
                    && final(db).sessions_view().last().message_count == to_i64_sat(
                    s.messages@.len() as int,
                )
                &&& a == IndexAction::Updated ==> final(db).sessions_view().len() == old(
                    db,
                ).sessions_view().len() && has_session_id(final(db).sessions_view(), s.id@)
            },
            Err(_) => false,
        },
{
    let exists_already = match db.session_exists(s.id.as_str()) {
        Ok(b) => b,
        Err(_) => false,
    };
    if !exists_already {
        let rr = db.insert_session(s);
        proof {
            assert(rr is Ok);
        }
        Ok(IndexAction::Inserted)
    } else {
        let stored = match db.session_message_count(s.id.as_str()) {
            Ok(c) => c,
            Err(_) => 0,
        };
        proof {
            let sv = db.sessions_view();
            let j0 = choose|j0: int|
                0 <= j0 < sv.len() && sv[j0].id == s.id@ && sv[j0].message_count == stored;
            lemma_sidx_of(sv, s.id@, j0);
        }
        let fresh = usize_to_i64_checked(s.messages.len());
        match fresh {
            Some(n) if n == stored => {
                proof {
                    assert(index_decision(*db, *s) == IndexAction::Skipped);
                }
                Ok(IndexAction::Skipped)
            },
            _ => {
                proof {
                    let sv = db.sessions_view();
                    let j = sidx(sv, s.id@);
                    assert(sv[j].message_count == stored);
                    assert(sv[j].message_count != s.messages@.len() as int);
                }
                let rr = db.update_session(s);
                proof {
                    assert(rr is Ok);
                }
                Ok(IndexAction::Updated)
            },
        }
    }
}

/// The message count as a signed number, when it fits.
fn usize_to_i64_checked(x: usize) -> (r: Option<i64>)
    ensures
        match r {
            Some(n) => n as int == x as int,
            None => x as int > i64::MAX,
        },
{
    if x as u64 > i64::MAX as u64 {
        None
    } else {
        Some(x as i64)
    }
}

/// Indexing an unchanged session a second time skips it: right after a
/// session is stored with its derived message count, the decision for
/// the same scan is to leave the store untouched.
pub proof fn lemma_reindex_idempotent(db: Database, s: SessionData, j: int)
    requires
        db.wf(),
        0 <= j < db.sessions_view().len(),
        db.sessions_view()[j].id == s.id@,
        db.sessions_view()[j].message_count == to_i64_sat(s.messages@.len() as int),
        s.messages@.len() <= i64::MAX,
    ensures
        index_decision(db, s) == IndexAction::Skipped,
{
    lemma_sidx_of(db.sessions_view(), s.id@, j);
}

} // verus!
