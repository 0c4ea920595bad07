use std::collections::HashMap;
use vstd::prelude::*;
use crate::monitor::{Outcome, Violation};

verus! {

broadcast use vstd::std_specs::hash::group_hash_axioms;

/// The tag an allocation carries once it has been revoked; `register` never
/// hands it out.
pub const REVOKED_TAG: u64 = 0;

/// One allocation handed to foreign code, with the tag that is current for it.
#[derive(Debug, Clone, Copy, PartialEq, Eq, Structural)]
pub struct TagRecord {
    pub base: usize,
    pub size: usize,
    pub active_tag: u64,
}

/// A check of `tag` against allocation `base` passes: the base is untracked,
/// or its current tag is live and equal to `tag`.
pub open spec fn check_passes(m: Map<usize, TagRecord>, base: usize, tag: u64) -> bool {
    !m.contains_key(base) || (m[base].active_tag != REVOKED_TAG && m[base].active_tag == tag)
}

/// The records after the tag of `base`, if tracked, is replaced by the sentinel.
pub open spec fn tag_revoked(m: Map<usize, TagRecord>, base: usize) -> Map<usize, TagRecord> {
    if m.contains_key(base) {
        m.insert(base, TagRecord { active_tag: REVOKED_TAG, ..m[base] })
    } else {
        m
    }
}

/// Every record is keyed by its own base, and its tag is the sentinel or a
/// tag that was handed out for that base.
pub open spec fn tags_wf(m: Map<usize, TagRecord>, issued: Set<(usize, u64)>) -> bool {
    forall|b: usize| #[trigger] m.contains_key(b) ==> {
        &&& m[b].base == b
        &&& (m[b].active_tag == REVOKED_TAG || issued.contains((b, m[b].active_tag)))
    }
}

/// Allocations shared with foreign code, each guarded by a single tag that
/// is rotated on every registration.
pub struct TagMap {
    records: HashMap<usize, TagRecord>,
    next_tag: u64,
    issued: Ghost<Set<(usize, u64)>>,
}

impl TagMap {
    /// The records, keyed by base address.
    pub closed spec fn records(&self) -> Map<usize, TagRecord> {
        self.records@
    }

    /// Every (base, tag) pair `register` has returned.
    pub closed spec fn issued(&self) -> Set<(usize, u64)> {
        self.issued@
    }

    /// The tag the next registration returns.
    pub closed spec fn next(&self) -> u64 {
        self.next_tag
    }

    /// The records and the handed-out tags agree; the next tag is not the
    /// sentinel.
    pub closed spec fn wf(&self) -> bool {
        &&& self.next_tag != REVOKED_TAG
        &&& tags_wf(self.records@, self.issued@)
    }

    /// The records of a well-formed map agree with the handed-out tags.
    pub proof fn lemma_records_wf(&self)
        requires
            self.wf(),
        ensures
            tags_wf(self.records(), self.issued()),
    {
    }

    /// No allocation is tracked and no tag has been handed out.
    pub fn new() -> (m: TagMap)
        ensures
            m.wf(),
            m.records() == Map::<usize, TagRecord>::empty(),
            m.issued() == Set::<(usize, u64)>::empty(),
            m.next() == 1,
    {
        TagMap { records: HashMap::new(), next_tag: 1, issued: Ghost(Set::empty()) }
    }

    /// Tracks the allocation at `base` of `size` bytes under a fresh tag,
    /// which replaces any tag it had, and returns that tag.
    pub fn register(&mut self, base: usize, size: usize) -> (tag: u64)
        requires
            old(self).wf(),
        ensures
            final(self).wf(),
            tag != REVOKED_TAG,
            tag == old(self).next(),
            final(self).next() == if tag == u64::MAX { 1 } else { (tag + 1) as u64 },
            final(self).records() == old(self).records().insert(base, TagRecord { base, size, active_tag: tag }),
            final(self).issued() == old(self).issued().insert((base, tag)),
    {
        let tag = self.next_tag;
        self.next_tag = if self.next_tag == u64::MAX {
            1
        } else {
            self.next_tag + 1
        };
        self.records.insert(base, TagRecord { base, size, active_tag: tag });
        self.issued = Ghost(self.issued@.insert((base, tag)));
        proof {
            let m = self.records@;
            let iss = self.issued@;
            assert forall|b: usize| #[trigger] m.contains_key(b) implies {
                &&& m[b].base == b
                &&& (m[b].active_tag == REVOKED_TAG || iss.contains((b, m[b].active_tag)))
            } by {
                if b != base {
                    assert(old(self).records@.contains_key(b));
                }
            }
        }
        tag
    }

    /// Checks that `tag` is the current tag of the allocation at `base`. A
    /// revoked allocation fails whatever tag is presented; an untracked base
    /// passes without a check.
    pub fn check(&self, base: usize, tag: u64) -> (r: Result<Outcome, Violation>)
        requires
            self.wf(),
        ensures
            !self.records().contains_key(base) ==> r == Ok::<Outcome, Violation>(Outcome::Untracked),
            self.records().contains_key(base) ==> if check_passes(self.records(), base, tag) {
                r == Ok::<Outcome, Violation>(Outcome::Enforced)
            } else {
                r == Err::<Outcome, Violation>(Violation::TagMismatch {
                    base,
                    recorded: self.records()[base].active_tag,
                    presented: tag,
                })
            },
    {
        match self.records.get(&base) {
            None => Ok(Outcome::Untracked),
            Some(rec) => {
                if rec.active_tag != REVOKED_TAG && rec.active_tag == tag {
                    Ok(Outcome::Enforced)
                } else {
                    Err(Violation::TagMismatch { base, recorded: rec.active_tag, presented: tag })
                }
            },
        }
    }

    /// Replaces the tag of the allocation at `base`, if tracked, by the
    /// sentinel, so that every tag handed out for it fails from now on.
    pub fn revoke(&mut self, base: usize)
        requires
            old(self).wf(),
        ensures
            final(self).wf(),
            final(self).records() == tag_revoked(old(self).records(), base),
            tag_revoked(final(self).records(), base) == final(self).records(),
            final(self).issued() == old(self).issued(),
            final(self).next() == old(self).next(),
    {
        proof {
            lemma_tag_revoke_idempotent(self.records@, base);
        }
        match self.records.get(&base) {
            None => {},
            Some(rec) => {
                let updated = TagRecord { active_tag: REVOKED_TAG, ..*rec };
                self.records.insert(base, updated);
            },
        }
        proof {
            let m = self.records@;
            assert forall|b: usize| #[trigger] m.contains_key(b) implies {
                &&& m[b].base == b
                &&& (m[b].active_tag == REVOKED_TAG || self.issued@.contains((b, m[b].active_tag)))
            } by {
                assert(old(self).records@.contains_key(b));
            }
        }
    }

    /// The record of the allocation at `base`, if tracked.
    pub fn record(&self, base: usize) -> (r: Option<TagRecord>)
        requires
            self.wf(),
        ensures
            r == (if self.records().contains_key(base) { Some(self.records()[base]) } else { None::<TagRecord> }),
    {
        match self.records.get(&base) {
            Some(rec) => Some(*rec),
            None => None,
        }
    }
}

/// Tag uniqueness: on a tracked allocation, a check with a tag that was never
/// handed out for it fails.
pub proof fn lemma_unissued_tag_fails(m: Map<usize, TagRecord>, issued: Set<(usize, u64)>, base: usize, tag: u64)
    requires
        tags_wf(m, issued),
        m.contains_key(base),
        !issued.contains((base, tag)),
    ensures
        !check_passes(m, base, tag),
{
}

/// Revoking a tag twice leaves the records as revoking it once.
pub proof fn lemma_tag_revoke_idempotent(m: Map<usize, TagRecord>, base: usize)
    ensures
        tag_revoked(tag_revoked(m, base), base) == tag_revoked(m, base),
{
    assert(tag_revoked(tag_revoked(m, base), base) =~= tag_revoked(m, base));
}

} // verus!
