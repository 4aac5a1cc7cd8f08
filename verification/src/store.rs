//! The memory store: an ordered corpus of records with store-assigned ids.
//!
//! Records are kept in the order in which they were created, so ids grow
//! along the corpus and a corpus position identifies a memory for the
//! duration of one call.

use vstd::prelude::*;
use crate::fixed::SCALE;
use crate::memory::{
    clone_embedding, views, Embedding, Episode, Fact, FactView, MemoryKind, MemoryKindView,
    MemoryRecord, MemoryView,
};

verus! {

/// A failure of the store.
#[derive(Clone, Copy, Debug, PartialEq, Eq, Structural)]
pub enum StoreError {
    /// Every id the store can assign has been used.
    IdsExhausted,
}

impl StoreError {
    /// The description of the failure.
    pub open spec fn text(&self) -> Seq<char> {
        match self {
            StoreError::IdsExhausted => "no memory ids left"@,
        }
    }

    /// A description of the failure.
    pub fn message(&self) -> (r: String)
        ensures
            r@ == self.text(),
    {
        match self {
            StoreError::IdsExhausted => "no memory ids left".to_owned(),
        }
    }
}

/// Counts over the corpus.
#[derive(Clone, Copy, Debug, PartialEq, Eq, Structural)]
pub struct MemoryStats {
    pub total_memories: usize,
    pub total_facts: usize,
    pub total_episodes: usize,
    pub with_embedding: usize,
}

/// The corpus and the next id to assign.
pub struct MemoryStore {
    records: Vec<MemoryRecord>,
    next_id: i64,
}

/// A corpus is well formed when every record is, ids are positive and below
/// the next id to assign, and ids grow strictly along the corpus.
pub open spec fn corpus_wf(corpus: Seq<MemoryView>, next_id: int) -> bool {
    &&& 1 <= next_id <= i64::MAX
    &&& forall|i: int|
        0 <= i < corpus.len() ==> (#[trigger] corpus[i]).wf() && 1 <= corpus[i].id < next_id
    &&& forall|i: int, j: int|
        0 <= i < j < corpus.len() ==> (#[trigger] corpus[i]).id < (#[trigger] corpus[j]).id
}

/// A memory as it is when first stored at `now`: full strength, never accessed.
pub open spec fn fresh(id: int, kind: MemoryKindView, embedding: Option<Seq<i16>>, now: int)
    -> MemoryView {
    MemoryView {
        id,
        kind,
        strength: SCALE as nat,
        embedding,
        created_at: now,
        last_accessed_at: now,
        access_count: 0,
    }
}

/// A memory brought in with its history; strength is capped at one, a
/// negative access count counts as zero, and a last access before the
/// creation counts as the creation.
pub open spec fn imported(
    id: int,
    kind: MemoryKindView,
    strength: int,
    embedding: Option<Seq<i16>>,
    created_at: int,
    last_accessed_at: int,
    access_count: int,
) -> MemoryView {
    MemoryView {
        id,
        kind,
        strength: (if strength > SCALE {
            SCALE as int
        } else {
            strength
        }) as nat,
        embedding,
        created_at,
        last_accessed_at: if last_accessed_at < created_at {
            created_at
        } else {
            last_accessed_at
        },
        access_count: if access_count < 0 {
            0
        } else {
            access_count
        },
    }
}

/// A memory after a touch: the given strength, accessed at `now`, one more
/// access. A memory is never accessed before it was created: a touch at an
/// earlier instant counts as a touch at the creation.
pub open spec fn touched(m: MemoryView, strength: int, now: int) -> MemoryView {
    MemoryView {
        strength: strength as nat,
        last_accessed_at: if now < m.created_at {
            m.created_at
        } else {
            now
        },
        access_count: if m.access_count < i64::MAX {
            m.access_count + 1
        } else {
            m.access_count
        },
        ..m
    }
}

/// A touch fixes the strength and the last access, counts one more access
/// and leaves the rest alone. The last access is `now` for every memory
/// that was not created after `now`, and the memory stays well formed.
pub proof fn lemma_touched(m: MemoryView, strength: int, now: int)
    requires
        0 <= strength,
    ensures
        touched(m, strength, now).strength == strength,
        m.created_at <= now ==> touched(m, strength, now).last_accessed_at == now,
        touched(m, strength, now).created_at <= touched(m, strength, now).last_accessed_at,
        touched(m, strength, now).access_count >= m.access_count,
        m.access_count < i64::MAX ==> touched(m, strength, now).access_count == m.access_count + 1,
        touched(m, strength, now).id == m.id,
        touched(m, strength, now).kind == m.kind,
        touched(m, strength, now).embedding == m.embedding,
        touched(m, strength, now).created_at == m.created_at,
        m.access_count >= 0 && strength <= SCALE ==> touched(m, strength, now).wf(),
{
}

/// The corpus after the memory with the given id, if any, is touched.
pub open spec fn touch_in(corpus: Seq<MemoryView>, id: int, strength: int, now: int) -> Seq<
    MemoryView,
> {
    Seq::new(
        corpus.len(),
        |i: int|
            if corpus[i].id == id {
                touched(corpus[i], strength, now)
            } else {
                corpus[i]
            },
    )
}

/// The corpus after the strength of the memory with the given id, if any, is rewritten.
pub open spec fn with_strength(corpus: Seq<MemoryView>, id: int, strength: int) -> Seq<
    MemoryView,
> {
    Seq::new(
        corpus.len(),
        |i: int|
            if corpus[i].id == id {
                MemoryView { strength: strength as nat, ..corpus[i] }
            } else {
                corpus[i]
            },
    )
}

/// The corpus after the memory with the given id, if any, is given an embedding.
pub open spec fn with_embedding(corpus: Seq<MemoryView>, id: int, embedding: Seq<i16>) -> Seq<
    MemoryView,
> {
    Seq::new(
        corpus.len(),
        |i: int|
            if corpus[i].id == id {
                MemoryView { embedding: Some(embedding), ..corpus[i] }
            } else {
                corpus[i]
            },
    )
}

/// A memory whose strength has been brought up to date at `now`: if the
/// strength differs from the stored one it is stored, and the memory's last
/// access moves on to `now`, the instant for which the new strength is
/// current. A memory whose strength is already current is left as it is.
pub open spec fn brought_up_to_date(m: MemoryView, strength: int, now: int) -> MemoryView {
    if strength != m.strength {
        MemoryView {
            strength: strength as nat,
            last_accessed_at: if now > m.last_accessed_at {
                now
            } else {
                m.last_accessed_at
            },
            ..m
        }
    } else {
        m
    }
}

/// The corpus with the strength of each memory brought up to date at `now`,
/// by position.
pub open spec fn restrengthened(corpus: Seq<MemoryView>, strengths: Seq<u64>, now: int) -> Seq<
    MemoryView,
> {
    Seq::new(corpus.len(), |i: int| brought_up_to_date(corpus[i], strengths[i] as int, now))
}

/// Whether some memory of the corpus has the given id.
pub open spec fn has_id(corpus: Seq<MemoryView>, id: int) -> bool {
    exists|i: int| 0 <= i < corpus.len() && (#[trigger] corpus[i]).id == id
}

/// The records of `corpus` whose mark is not set, in order.
pub open spec fn unmarked(corpus: Seq<MemoryView>, marks: Seq<bool>) -> Seq<MemoryView>
    decreases corpus.len(),
{
    if corpus.len() == 0 || marks.len() != corpus.len() {
        Seq::empty()
    } else {
        let rest = unmarked(corpus.drop_last(), marks.drop_last());
        if marks.last() {
            rest
        } else {
            rest.push(corpus.last())
        }
    }
}

/// Selects every memory but the one with the given id.
pub open spec fn not_id(id: int) -> spec_fn(MemoryView) -> bool {
    |m: MemoryView| m.id != id
}

/// Selects every memory but the facts about the given subject.
pub open spec fn not_about(subject: Seq<char>) -> spec_fn(MemoryView) -> bool {
    |m: MemoryView|
        match m.kind {
            MemoryKindView::Fact(f) => f.subject != subject,
            MemoryKindView::Episode(_) => true,
        }
}

/// Selects the memories created no more than `secs` seconds before `now`.
pub open spec fn younger_than(secs: int, now: int) -> spec_fn(MemoryView) -> bool {
    |m: MemoryView| m.created_at >= now - secs
}

/// Selects the memories that have no embedding.
pub open spec fn lacks_embedding() -> spec_fn(MemoryView) -> bool {
    |m: MemoryView| m.embedding is None
}

/// Selects the facts.
pub open spec fn is_fact() -> spec_fn(MemoryView) -> bool {
    |m: MemoryView| m.kind is Fact
}

/// Selects the memories that have an embedding.
pub open spec fn has_embedding() -> spec_fn(MemoryView) -> bool {
    |m: MemoryView| m.embedding is Some
}

/// Dropping the marked records is filtering, when the marks are the
/// complement of a predicate.
pub proof fn lemma_unmarked_is_filter(
    corpus: Seq<MemoryView>,
    marks: Seq<bool>,
    keep: spec_fn(MemoryView) -> bool,
)
    requires
        marks.len() == corpus.len(),
        forall|i: int| 0 <= i < corpus.len() ==> #[trigger] marks[i] == !keep(corpus[i]),
    ensures
        unmarked(corpus, marks) == corpus.filter(keep),
    decreases corpus.len(),
{
    reveal(Seq::filter);
    if corpus.len() > 0 {
        assert forall|i: int| 0 <= i < corpus.drop_last().len() implies #[trigger] marks.drop_last()[i]
            == !keep(corpus.drop_last()[i]) by {
            assert(marks.drop_last()[i] == marks[i]);
        }
        lemma_unmarked_is_filter(corpus.drop_last(), marks.drop_last(), keep);
        assert(marks.last() == marks[marks.len() - 1]);
    } else {
        assert(unmarked(corpus, marks) =~= corpus.filter(keep));
    }
}

/// What is left after dropping marked records is part of the corpus, in the
/// same order: a well-formed corpus stays well formed.
pub proof fn lemma_unmarked_wf(corpus: Seq<MemoryView>, marks: Seq<bool>, next_id: int)
    requires
        corpus_wf(corpus, next_id),
        marks.len() == corpus.len(),
    ensures
        corpus_wf(unmarked(corpus, marks), next_id),
        unmarked(corpus, marks).len() <= corpus.len(),
        forall|k: int|
            0 <= k < unmarked(corpus, marks).len() ==> exists|i: int|
                k <= i < corpus.len() && corpus[i] == #[trigger] unmarked(corpus, marks)[k],
    decreases corpus.len(),
{
    if corpus.len() > 0 {
        let front = corpus.drop_last();
        let rest = unmarked(front, marks.drop_last());
        assert(corpus_wf(front, next_id)) by {
            assert forall|i: int| 0 <= i < front.len() implies (#[trigger] front[i]).wf() && 1
                <= front[i].id < next_id by {
                assert(front[i] == corpus[i]);
            }
            assert forall|i: int, j: int| 0 <= i < j < front.len() implies (#[trigger] front[i]).id
                < (#[trigger] front[j]).id by {
                assert(front[i] == corpus[i]);
                assert(front[j] == corpus[j]);
            }
        }
        lemma_unmarked_wf(front, marks.drop_last(), next_id);
        let out = unmarked(corpus, marks);
        assert forall|k: int| 0 <= k < out.len() implies exists|i: int|
            k <= i < corpus.len() && corpus[i] == #[trigger] out[k] by {
            if k < rest.len() {
                assert(out[k] == rest[k]);
                let i = choose|i: int| k <= i < front.len() && front[i] == rest[k];
                assert(corpus[i] == out[k]);
            } else {
                assert(corpus[corpus.len() - 1] == out[k]);
            }
        }
        assert forall|i: int, j: int| 0 <= i < j < out.len() implies (#[trigger] out[i]).id < (
        #[trigger] out[j]).id by {
            if j < rest.len() {
                assert(out[i] == rest[i] && out[j] == rest[j]);
            } else {
                assert(out[i] == rest[i]);
                let a = choose|a: int| i <= a < front.len() && front[a] == rest[i];
                assert(corpus[a].id < corpus[corpus.len() - 1].id);
            }
        }
        assert forall|i: int| 0 <= i < out.len() implies (#[trigger] out[i]).wf() && 1
            <= out[i].id < next_id by {
            let a = choose|a: int| i <= a < corpus.len() && corpus[a] == out[i];
            assert(corpus[a].wf());
        }
    }
}

impl View for MemoryStore {
    type V = Seq<MemoryView>;

    closed spec fn view(&self) -> Seq<MemoryView> {
        views(self.records@)
    }
}

impl MemoryStore {
    /// The id that the next stored memory will receive.
    pub closed spec fn next_id(&self) -> int {
        self.next_id as int
    }

    /// The store's invariant.
    pub open spec fn wf(&self) -> bool {
        corpus_wf(self@, self.next_id())
    }

    /// Creates an empty store.
    pub fn open_in_memory() -> (store: Self)
        ensures
            store.wf(),
            store@ == Seq::<MemoryView>::empty(),
            store.next_id() == 1,
    {
        let store = MemoryStore { records: Vec::new(), next_id: 1 };
        proof {
            assert(store@ =~= Seq::<MemoryView>::empty());
        }
        store
    }

    /// Rebuilds a store from records kept elsewhere and the next id to
    /// assign. Returns nothing unless they form a well-formed corpus: every
    /// strength at most one, no negative access count, no last access before
    /// the creation, and ids positive, strictly increasing and below
    /// `next_id`.
    pub fn from_records(records: Vec<MemoryRecord>, next_id: i64) -> (store: Option<Self>)
        ensures
            store is Some <==> corpus_wf(views(records@), next_id as int),
            match store {
                Some(s) => s.wf() && s@ == views(records@) && s.next_id() == next_id,
                None => true,
            },
    {
        let ghost corpus = views(records@);
        if next_id < 1 {
            return None;
        }
        let mut last: i64 = 0;
        let mut i: usize = 0;
        while i < records.len()
            invariant
                i <= records@.len(),
                corpus == views(records@),
                1 <= next_id,
                0 <= last < next_id,
                i == 0 ==> last == 0,
                i > 0 ==> last == corpus[i - 1].id,
                forall|k: int|
                    0 <= k < i ==> (#[trigger] corpus[k]).wf() && 1 <= corpus[k].id < next_id,
                forall|a: int, b: int|
                    0 <= a < b < i ==> (#[trigger] corpus[a]).id < (#[trigger] corpus[b]).id,
            decreases records@.len() - i,
        {
            proof {
                assert(corpus[i as int] == records@[i as int]@);
            }
            let m = &records[i];
            if m.strength > SCALE || m.access_count < 0 || m.last_accessed_at < m.created_at || m.id
                <= last || m.id >= next_id {
                proof {
                    if corpus_wf(corpus, next_id as int) {
                        assert(corpus[i as int].wf());
                        if i > 0 {
                            assert(corpus[i - 1].id < corpus[i as int].id);
                        }
                    }
                }
                return None;
            }
            proof {
                assert forall|a: int, b: int| 0 <= a < b < i + 1 implies (#[trigger] corpus[a]).id
                    < (#[trigger] corpus[b]).id by {
                    if b == i && a < i - 1 {
                        assert(corpus[a].id < corpus[i - 1].id);
                    }
                }
            }
            last = m.id;
            i = i + 1;
        }
        Some(MemoryStore { records, next_id })
    }

    /// The number of memories in the corpus.
    pub fn len(&self) -> (n: usize)
        ensures
            n == self@.len(),
    {
        self.records.len()
    }

    /// The corpus, in id order.
    pub fn memories(&self) -> (records: &Vec<MemoryRecord>)
        ensures
            views(records@) == self@,
    {
        &self.records
    }

    fn position_of(&self, id: i64) -> (found: Option<usize>)
        requires
            self.wf(),
        ensures
            match found {
                Some(i) => i < self@.len() && self@[i as int].id == id,
                None => !has_id(self@, id as int),
            },
    {
        let mut i: usize = 0;
        while i < self.records.len()
            invariant
                i <= self.records.len(),
                forall|k: int| 0 <= k < i ==> (#[trigger] self@[k]).id != id,
            decreases self.records.len() - i,
        {
            proof {
                assert(self@[i as int] == self.records@[i as int]@);
            }
            if self.records[i].id == id {
                return Some(i);
            }
            i = i + 1;
        }
        None
    }

    fn insert(&mut self, record: MemoryRecord) -> (r: Result<i64, StoreError>)
        requires
            old(self).wf(),
            record@.wf(),
        ensures
            final(self).wf(),
            match r {
                Ok(id) => {
                    &&& id == old(self).next_id()
                    &&& id < i64::MAX
                    &&& final(self).next_id() == id + 1
                    &&& final(self)@ == old(self)@.push(MemoryView { id: id as int, ..record@ })
                },
                Err(e) => {
                    &&& e == StoreError::IdsExhausted
                    &&& old(self).next_id() == i64::MAX
                    &&& final(self)@ == old(self)@
                    &&& final(self).next_id() == old(self).next_id()
                },
            },
    {
        if self.next_id == i64::MAX {
            return Err(StoreError::IdsExhausted);
        }
        let id = self.next_id;
        let mut record = record;
        record.id = id;
        let ghost before = self@;
        self.next_id = id + 1;
        self.records.push(record);
        proof {
            assert(self@ =~= before.push(record@));
            assert forall|i: int, j: int| 0 <= i < j < self@.len() implies (#[trigger] self@[i]).id
                < (#[trigger] self@[j]).id by {
                if j == before.len() {
                    assert(self@[i] == before[i]);
                } else {
                    assert(self@[i] == before[i] && self@[j] == before[j]);
                }
            }
            assert forall|i: int| 0 <= i < self@.len() implies (#[trigger] self@[i]).wf() && 1
                <= self@[i].id < self.next_id() by {
                if i < before.len() {
                    assert(self@[i] == before[i]);
                }
            }
        }
        Ok(id)
    }

    /// Stores a new fact at full strength, created and last accessed at `now`.
    ///
    /// Fails only when the store has no id left to assign.
    pub fn remember_fact(
        &mut self,
        subject: &str,
        relation: &str,
        object: &str,
        embedding: Option<&Embedding>,
        now: i64,
    ) -> (r: Result<i64, StoreError>)
        requires
            old(self).wf(),
        ensures
            final(self).wf(),
            r is Ok <==> old(self).next_id() < i64::MAX,
            match r {
                Ok(id) => {
                    &&& id == old(self).next_id()
                    &&& final(self).next_id() == id + 1
                    &&& final(self)@ == old(self)@.push(
                        fresh(
                            id as int,
                            MemoryKindView::Fact(
                                FactView { subject: subject@, relation: relation@, object: object@ },
                            ),
                            option_view(embedding),
                            now as int,
                        ),
                    )
                },
                Err(e) => {
                    &&& e == StoreError::IdsExhausted
                    &&& final(self)@ == old(self)@
                    &&& final(self).next_id() == old(self).next_id()
                },
            },
    {
        let kind = MemoryKind::Fact(
            Fact {
                subject: subject.to_owned(),
                relation: relation.to_owned(),
                object: object.to_owned(),
            },
        );
        let record = MemoryRecord {
            id: 0,
            kind,
            strength: SCALE,
            embedding: copy_option(embedding),
            created_at: now,
            last_accessed_at: now,
            access_count: 0,
        };
        self.insert(record)
    }

    /// Stores a new episode at full strength, created and last accessed at `now`.
    ///
    /// Fails only when the store has no id left to assign.
    pub fn remember_episode(&mut self, text: &str, embedding: Option<&Embedding>, now: i64) -> (r:
        Result<i64, StoreError>)
        requires
            old(self).wf(),
        ensures
            final(self).wf(),
            r is Ok <==> old(self).next_id() < i64::MAX,
            match r {
                Ok(id) => {
                    &&& id == old(self).next_id()
                    &&& final(self).next_id() == id + 1
                    &&& final(self)@ == old(self)@.push(
                        fresh(
                            id as int,
                            MemoryKindView::Episode(text@),
                            option_view(embedding),
                            now as int,
                        ),
                    )
                },
                Err(e) => {
                    &&& e == StoreError::IdsExhausted
                    &&& final(self)@ == old(self)@
                    &&& final(self).next_id() == old(self).next_id()
                },
            },
    {
        let record = MemoryRecord {
            id: 0,
            kind: MemoryKind::Episode(Episode { text: text.to_owned() }),
            strength: SCALE,
            embedding: copy_option(embedding),
            created_at: now,
            last_accessed_at: now,
            access_count: 0,
        };
        self.insert(record)
    }

    /// Stores a copy of `record` under a new id, keeping its history.
    ///
    /// Strength above one is capped, a negative access count is taken as
    /// zero, and a last access before the creation is taken as the creation.
    /// Fails only when the store has no id left to assign.
    pub fn import_record(&mut self, record: &MemoryRecord) -> (r: Result<i64, StoreError>)
        requires
            old(self).wf(),
        ensures
            final(self).wf(),
            r is Ok <==> old(self).next_id() < i64::MAX,
            match r {
                Ok(id) => {
                    &&& id == old(self).next_id()
                    &&& final(self).next_id() == id + 1
                    &&& final(self)@ == old(self)@.push(
                        imported(
                            id as int,
                            record@.kind,
                            record@.strength as int,
                            record@.embedding,
                            record@.created_at,
                            record@.last_accessed_at,
                            record@.access_count,
                        ),
                    )
                },
                Err(e) => {
                    &&& e == StoreError::IdsExhausted
                    &&& final(self)@ == old(self)@
                    &&& final(self).next_id() == old(self).next_id()
                },
            },
    {
        let mut copy = record.clone();
        if copy.strength > SCALE {
            copy.strength = SCALE;
        }
        if copy.access_count < 0 {
            copy.access_count = 0;
        }
        if copy.last_accessed_at < copy.created_at {
            copy.last_accessed_at = copy.created_at;
        }
        self.insert(copy)
    }

    /// A copy of the memory with the given id, if the corpus holds one.
    pub fn get_memory(&self, id: i64) -> (found: Option<MemoryRecord>)
        requires
            self.wf(),
        ensures
            match found {
                Some(m) => m@.id == id && self@.contains(m@),
                None => !has_id(self@, id as int),
            },
    {
        match self.position_of(id) {
            Some(i) => {
                let m = self.records[i].clone();
                proof {
                    assert(self@[i as int] == self.records@[i as int]@);
                }
                Some(m)
            },
            None => None,
        }
    }

    /// A copy of every memory, in id order.
    pub fn all_memories(&self) -> (copies: Vec<MemoryRecord>)
        ensures
            views(copies@) == self@,
    {
        let mut copies: Vec<MemoryRecord> = Vec::new();
        let mut i: usize = 0;
        while i < self.records.len()
            invariant
                i <= self.records.len(),
                copies@.len() == i,
                self@.len() == self.records@.len(),
                views(copies@) == self@.take(i as int),
            decreases self.records.len() - i,
        {
            let m = self.records[i].clone();
            proof {
                assert(self@[i as int] == self.records@[i as int]@);
                let next = views(copies@.push(m));
                assert forall|k: int| 0 <= k < next.len() implies next[k] == self@.take(i + 1)[k] by {
                    if k < i {
                        assert(next[k] == views(copies@)[k]);
                        assert(self@.take(i as int)[k] == self@[k]);
                    }
                }
                assert(next =~= self@.take(i + 1));
            }
            copies.push(m);
            i = i + 1;
        }
        proof {
            assert(self@.take(i as int) =~= self@);
        }
        copies
    }

    /// The text of every memory, by corpus position.
    pub fn texts(&self) -> (texts: Vec<String>)
        ensures
            texts@.len() == self@.len(),
            forall|i: int| 0 <= i < texts@.len() ==> (#[trigger] texts@[i])@ == self@[i].kind.text(),
    {
        let mut texts: Vec<String> = Vec::new();
        let mut i: usize = 0;
        while i < self.records.len()
            invariant
                i <= self.records.len(),
                texts@.len() == i,
                forall|k: int| 0 <= k < i ==> (#[trigger] texts@[k])@ == self@[k].kind.text(),
            decreases self.records.len() - i,
        {
            proof {
                assert(self@[i as int] == self.records@[i as int]@);
            }
            texts.push(self.records[i].text_for_embedding());
            i = i + 1;
        }
        texts
    }

    /// Records a recall of the memory with the given id: its strength becomes
    /// `strength`, its last access `now` (or its creation, if `now` is before
    /// it), and its access count grows by one. All three change together.
    /// Returns whether the corpus holds the memory.
    pub fn touch_memory_with_strength(&mut self, id: i64, strength: u64, now: i64) -> (found: bool)
        requires
            old(self).wf(),
            strength <= SCALE,
        ensures
            final(self).wf(),
            final(self).next_id() == old(self).next_id(),
            found == has_id(old(self)@, id as int),
            final(self)@ == touch_in(old(self)@, id as int, strength as int, now as int),
    {
        let ghost before = self@;
        match self.position_of(id) {
            Some(i) => {
                proof {
                    assert(self@[i as int] == self.records@[i as int]@);
                }
                let count = self.records[i].access_count;
                let created = self.records[i].created_at;
                self.records[i].strength = strength;
                self.records[i].last_accessed_at = if now < created {
                    created
                } else {
                    now
                };
                if count < i64::MAX {
                    self.records[i].access_count = count + 1;
                }
                proof {
                    let after = touch_in(before, id as int, strength as int, now as int);
                    assert forall|k: int| 0 <= k < before.len() implies #[trigger] self@[k]
                        == after[k] by {
                        assert(self@[k] == self.records@[k]@);
                        if k != i {
                            assert(before[k].id != before[i as int].id);
                        }
                    }
                    assert(self@ =~= after);
                    assert forall|a: int, b: int| 0 <= a < b < self@.len() implies (
                    #[trigger] self@[a]).id < (#[trigger] self@[b]).id by {
                        assert(before[a].id < before[b].id);
                    }
                    assert forall|k: int| 0 <= k < self@.len() implies (#[trigger] self@[k]).wf()
                        && 1 <= self@[k].id < self.next_id() by {
                        assert(before[k].wf());
                    }
                }
                true
            },
            None => {
                proof {
                    assert(self@ =~= touch_in(before, id as int, strength as int, now as int));
                }
                false
            },
        }
    }

    /// Rewrites the strength of the memory with the given id. Returns whether
    /// the corpus holds the memory.
    pub fn update_strength(&mut self, id: i64, strength: u64) -> (found: bool)
        requires
            old(self).wf(),
            strength <= SCALE,
        ensures
            final(self).wf(),
            final(self).next_id() == old(self).next_id(),
            found == has_id(old(self)@, id as int),
            final(self)@ == with_strength(old(self)@, id as int, strength as int),
    {
        let ghost before = self@;
        match self.position_of(id) {
            Some(i) => {
                self.records[i].strength = strength;
                proof {
                    let after = with_strength(before, id as int, strength as int);
                    assert forall|k: int| 0 <= k < before.len() implies #[trigger] self@[k]
                        == after[k] by {
                        assert(self@[k] == self.records@[k]@);
                        if k != i {
                            assert(before[k].id != before[i as int].id);
                        }
                    }
                    assert(self@ =~= after);
                    assert forall|a: int, b: int| 0 <= a < b < self@.len() implies (
                    #[trigger] self@[a]).id < (#[trigger] self@[b]).id by {
                        assert(before[a].id < before[b].id);
                    }
                    assert forall|k: int| 0 <= k < self@.len() implies (#[trigger] self@[k]).wf()
                        && 1 <= self@[k].id < self.next_id() by {
                        assert(before[k].wf());
                    }
                }
                true
            },
            None => {
                proof {
                    assert(self@ =~= with_strength(before, id as int, strength as int));
                }
                false
            },
        }
    }

    /// Gives the memory with the given id an embedding, replacing any it had.
    /// Returns whether the corpus holds the memory.
    pub fn update_embedding(&mut self, id: i64, embedding: &Embedding) -> (found: bool)
        requires
            old(self).wf(),
        ensures
            final(self).wf(),
            final(self).next_id() == old(self).next_id(),
            found == has_id(old(self)@, id as int),
            final(self)@ == with_embedding(old(self)@, id as int, embedding@),
    {
        let ghost before = self@;
        match self.position_of(id) {
            Some(i) => {
                self.records[i].embedding = Some(clone_embedding(embedding));
                proof {
                    let after = with_embedding(before, id as int, embedding@);
                    assert forall|k: int| 0 <= k < before.len() implies #[trigger] self@[k]
                        == after[k] by {
                        assert(self@[k] == self.records@[k]@);
                        if k != i {
                            assert(before[k].id != before[i as int].id);
                        }
                    }
                    assert(self@ =~= after);
                    assert forall|a: int, b: int| 0 <= a < b < self@.len() implies (
                    #[trigger] self@[a]).id < (#[trigger] self@[b]).id by {
                        assert(before[a].id < before[b].id);
                    }
                    assert forall|k: int| 0 <= k < self@.len() implies (#[trigger] self@[k]).wf()
                        && 1 <= self@[k].id < self.next_id() by {
                        assert(before[k].wf());
                    }
                }
                true
            },
            None => {
                proof {
                    assert(self@ =~= with_embedding(before, id as int, embedding@));
                }
                false
            },
        }
    }

    /// Brings the strength of every memory up to date at `now`, by corpus
    /// position: a strength that differs from the stored one is stored, and
    /// the memory's last access moves on to `now`.
    pub(crate) fn set_strengths(&mut self, strengths: &Vec<u64>, now: i64)
        requires
            old(self).wf(),
            strengths@.len() == old(self)@.len(),
            forall|i: int| 0 <= i < strengths@.len() ==> #[trigger] strengths@[i] <= SCALE,
        ensures
            final(self).wf(),
            final(self).next_id() == old(self).next_id(),
            final(self)@ == restrengthened(old(self)@, strengths@, now as int),
    {
        let ghost before = self@;
        let mut i: usize = 0;
        while i < self.records.len()
            invariant
                i <= self.records.len(),
                self.records@.len() == before.len(),
                strengths@.len() == before.len(),
                self.next_id() == old(self).next_id(),
                forall|k: int|
                    0 <= k < i ==> #[trigger] self@[k] == restrengthened(
                        before,
                        strengths@,
                        now as int,
                    )[k],
                forall|k: int| i <= k < before.len() ==> #[trigger] self@[k] == before[k],
            decreases self.records.len() - i,
        {
            let ghost prev = self@;
            if strengths[i] != self.records[i].strength {
                self.records[i].strength = strengths[i];
                if now > self.records[i].last_accessed_at {
                    self.records[i].last_accessed_at = now;
                }
            }
            proof {
                assert forall|k: int| 0 <= k < before.len() && k != i implies #[trigger] self@[k]
                    == prev[k] by {
                    assert(self@[k] == self.records@[k]@);
                }
                assert(self@[i as int] == self.records@[i as int]@);
                assert(prev[i as int] == before[i as int]);
            }
            i = i + 1;
        }
        proof {
            let after = restrengthened(before, strengths@, now as int);
            assert(self@ =~= after);
            assert forall|a: int, b: int| 0 <= a < b < after.len() implies (#[trigger] after[a]).id
                < (#[trigger] after[b]).id by {
                assert(before[a].id < before[b].id);
            }
            assert forall|k: int| 0 <= k < after.len() implies (#[trigger] after[k]).wf() && 1
                <= after[k].id < self.next_id() by {
                assert(before[k].wf());
                assert(strengths@[k] <= SCALE);
            }
        }
    }

    /// Deletes the records whose mark is set and returns how many there were.
    pub(crate) fn remove_marked(&mut self, marks: &Vec<bool>) -> (removed: usize)
        requires
            old(self).wf(),
            marks@.len() == old(self)@.len(),
        ensures
            final(self).wf(),
            final(self).next_id() == old(self).next_id(),
            final(self)@ == unmarked(old(self)@, marks@),
            removed == old(self)@.len() - final(self)@.len(),
    {
        let ghost before = self@;
        let n = marks.len();
        let mut kept: Vec<MemoryRecord> = Vec::new();
        let mut rest: Vec<MemoryRecord> = Vec::new();
        core::mem::swap(&mut self.records, &mut rest);
        // `rest` is emptied from the back, so the survivors are collected in
        // reverse and put back in order afterwards.
        let mut k: usize = n;
        proof {
            assert(views(rest@) =~= before);
        }
        while k > 0
            invariant
                k <= n,
                n == marks@.len(),
                n == before.len(),
                rest@.len() == k,
                views(rest@) == before.take(k as int),
                kept@.len() <= n - k,
                views(kept@).reverse() == unmarked(before.skip(k as int), marks@.skip(k as int)),
            decreases k,
        {
            let popped = rest.pop();
            k = k - 1;
            match popped {
                Some(m) => {
                    proof {
                        assert(m@ == before[k as int]) by {
                            assert(before.take(k + 1)[k as int] == before[k as int]);
                        }
                        assert(views(rest@) =~= before.take(k as int));
                        lemma_unmarked_front(before.skip(k as int), marks@.skip(k as int));
                        assert(before.skip(k as int).drop_first() =~= before.skip(k + 1));
                        assert(marks@.skip(k as int).drop_first() =~= marks@.skip(k + 1));
                    }
                    if !marks[k] {
                        proof {
                            assert(views(kept@.push(m)).reverse() =~= seq![m@] + views(
                                kept@,
                            ).reverse());
                        }
                        kept.push(m);
                    }
                },
                None => {},
            }
        }
        let removed = n - kept.len();
        let mut ordered: Vec<MemoryRecord> = Vec::new();
        let ghost stack = kept@;
        let mut j: usize = kept.len();
        proof {
            assert(before.skip(0) =~= before);
            assert(marks@.skip(0) =~= marks@);
            assert(views(ordered@) =~= views(stack).reverse().take(0));
        }
        while j > 0
            invariant
                j <= stack.len(),
                ordered@.len() == stack.len() - j,
                kept@ == stack.take(j as int),
                views(ordered@) == views(stack).reverse().take(stack.len() - j),
            decreases j,
        {
            let popped = kept.pop();
            j = j - 1;
            match popped {
                Some(m) => {
                    proof {
                        assert(m == stack[j as int]);
                        assert(kept@ =~= stack.take(j as int));
                        let next = views(ordered@.push(m));
                        let goal = views(stack).reverse().take(stack.len() - j);
                        let prev = views(stack).reverse().take(stack.len() - j - 1);
                        assert forall|x: int| 0 <= x < next.len() implies next[x] == goal[x] by {
                            if x < ordered@.len() {
                                assert(next[x] == views(ordered@)[x]);
                                assert(prev[x] == views(stack).reverse()[x]);
                            } else {
                                assert(views(stack).reverse()[x] == views(stack)[stack.len() - 1
                                    - x]);
                            }
                        }
                        assert(next =~= goal);
                    }
                    ordered.push(m);
                },
                None => {},
            }
        }
        proof {
            assert(views(stack).reverse().take(stack.len() as int) =~= views(stack).reverse());
            lemma_unmarked_wf(before, marks@, self.next_id());
        }
        self.records = ordered;
        removed
    }

    /// Deletes the memory with the given id. Returns how many memories were deleted.
    pub fn forget_by_id(&mut self, id: i64) -> (removed: usize)
        requires
            old(self).wf(),
        ensures
            final(self).wf(),
            final(self).next_id() == old(self).next_id(),
            final(self)@ == old(self)@.filter(not_id(id as int)),
            removed == old(self)@.len() - final(self)@.len(),
            removed == if has_id(old(self)@, id as int) { 1usize } else { 0usize },
    {
        let ghost before = self@;
        match self.position_of(id) {
            Some(i) => {
                let mut marks: Vec<bool> = Vec::new();
                let mut k: usize = 0;
                while k < self.records.len()
                    invariant
                        k <= self.records.len(),
                        marks@.len() == k,
                        forall|x: int| 0 <= x < k ==> #[trigger] marks@[x] == (x == i),
                    decreases self.records.len() - k,
                {
                    marks.push(k == i);
                    k = k + 1;
                }
                proof {
                    assert forall|x: int| 0 <= x < before.len() implies #[trigger] marks@[x]
                        == !not_id(id as int)(before[x]) by {
                        if x != i {
                            assert(before[x].id != before[i as int].id);
                        }
                    }
                    lemma_unmarked_is_filter(before, marks@, not_id(id as int));
                    lemma_single_mark(before, marks@, i as int);
                }
                self.remove_marked(&marks)
            },
            None => {
                proof {
                    lemma_filter_all(before, not_id(id as int));
                }
                0
            },
        }
    }

    /// Deletes every fact about exactly the given subject. Returns how many
    /// memories were deleted.
    pub fn forget_by_subject(&mut self, subject: &str) -> (removed: usize)
        requires
            old(self).wf(),
        ensures
            final(self).wf(),
            final(self).next_id() == old(self).next_id(),
            final(self)@ == old(self)@.filter(not_about(subject@)),
            removed == old(self)@.len() - final(self)@.len(),
    {
        let ghost before = self@;
        let wanted: String = subject.to_owned();
        let mut marks: Vec<bool> = Vec::new();
        let mut k: usize = 0;
        while k < self.records.len()
            invariant
                k <= self.records.len(),
                wanted@ == subject@,
                marks@.len() == k,
                forall|x: int|
                    0 <= x < k ==> #[trigger] marks@[x] == !not_about(subject@)(self@[x]),
            decreases self.records.len() - k,
        {
            proof {
                assert(self@[k as int] == self.records@[k as int]@);
            }
            let hit = match &self.records[k].kind {
                MemoryKind::Fact(f) => f.subject == wanted,
                MemoryKind::Episode(_) => false,
            };
            marks.push(hit);
            k = k + 1;
        }
        proof {
            lemma_unmarked_is_filter(before, marks@, not_about(subject@));
        }
        self.remove_marked(&marks)
    }

    /// Deletes every memory created more than `secs` seconds before `now`.
    /// Returns how many memories were deleted.
    pub fn forget_older_than(&mut self, secs: i64, now: i64) -> (removed: usize)
        requires
            old(self).wf(),
        ensures
            final(self).wf(),
            final(self).next_id() == old(self).next_id(),
            final(self)@ == old(self)@.filter(younger_than(secs as int, now as int)),
            removed == old(self)@.len() - final(self)@.len(),
    {
        let ghost before = self@;
        let cutoff: i128 = now as i128 - secs as i128;
        let mut marks: Vec<bool> = Vec::new();
        let mut k: usize = 0;
        while k < self.records.len()
            invariant
                k <= self.records.len(),
                cutoff == now - secs,
                marks@.len() == k,
                forall|x: int|
                    0 <= x < k ==> #[trigger] marks@[x] == !younger_than(secs as int, now as int)(self@[x]),
            decreases self.records.len() - k,
        {
            proof {
                assert(self@[k as int] == self.records@[k as int]@);
            }
            marks.push((self.records[k].created_at as i128) < cutoff);
            k = k + 1;
        }
        proof {
            lemma_unmarked_is_filter(before, marks@, younger_than(secs as int, now as int));
        }
        self.remove_marked(&marks)
    }

    /// A copy of every memory that has no embedding, in id order.
    pub fn memories_missing_embeddings(&self) -> (missing: Vec<MemoryRecord>)
        ensures
            views(missing@) == self@.filter(lacks_embedding()),
    {
        let mut missing: Vec<MemoryRecord> = Vec::new();
        let mut i: usize = 0;
        proof {
            reveal(Seq::filter);
            assert(self@.take(0).filter(lacks_embedding()) =~= Seq::<MemoryView>::empty());
        }
        while i < self.records.len()
            invariant
                i <= self.records.len(),
                views(missing@) == self@.take(i as int).filter(lacks_embedding()),
            decreases self.records.len() - i,
        {
            proof {
                reveal(Seq::filter);
                assert(self@[i as int] == self.records@[i as int]@);
                assert(self@.take(i + 1).drop_last() =~= self@.take(i as int));
            }
            if self.records[i].embedding.is_none() {
                let m = self.records[i].clone();
                proof {
                    assert(views(missing@.push(m)) =~= views(missing@).push(m@));
                }
                missing.push(m);
            }
            i = i + 1;
        }
        proof {
            assert(self@.take(i as int) =~= self@);
        }
        missing
    }

    /// Counts the memories of each kind and those that have an embedding.
    pub fn stats(&self) -> (stats: MemoryStats)
        ensures
            stats.total_memories == self@.len(),
            stats.total_facts == self@.filter(is_fact()).len(),
            stats.total_episodes == self@.len() - self@.filter(is_fact()).len(),
            stats.with_embedding == self@.filter(has_embedding()).len(),
    {
        let mut facts: usize = 0;
        let mut embedded: usize = 0;
        let mut i: usize = 0;
        proof {
            reveal(Seq::filter);
            assert(self@.take(0).filter(is_fact()) =~= Seq::<MemoryView>::empty());
            assert(self@.take(0).filter(has_embedding()) =~= Seq::<MemoryView>::empty());
        }
        while i < self.records.len()
            invariant
                i <= self.records.len(),
                facts == self@.take(i as int).filter(is_fact()).len(),
                embedded == self@.take(i as int).filter(has_embedding()).len(),
                facts <= i,
                embedded <= i,
            decreases self.records.len() - i,
        {
            proof {
                reveal(Seq::filter);
                assert(self@[i as int] == self.records@[i as int]@);
                assert(self@.take(i + 1).drop_last() =~= self@.take(i as int));
            }
            match &self.records[i].kind {
                MemoryKind::Fact(_) => {
                    facts = facts + 1;
                },
                MemoryKind::Episode(_) => {},
            }
            if self.records[i].embedding.is_some() {
                embedded = embedded + 1;
            }
            i = i + 1;
        }
        proof {
            assert(self@.take(i as int) =~= self@);
        }
        MemoryStats {
            total_memories: self.records.len(),
            total_facts: facts,
            total_episodes: self.records.len() - facts,
            with_embedding: embedded,
        }
    }
}

/// The value of an optional embedding.
pub open spec fn option_view(embedding: Option<&Embedding>) -> Option<Seq<i16>> {
    match embedding {
        Some(e) => Some(e@),
        None => None,
    }
}

fn copy_option(embedding: Option<&Embedding>) -> (r: Option<Embedding>)
    ensures
        match r {
            Some(e) => option_view(embedding) == Some(e@),
            None => option_view(embedding) is None,
        },
{
    match embedding {
        Some(e) => Some(clone_embedding(e)),
        None => None,
    }
}

/// Dropping marked records can be computed from the front as well as from the back.
pub proof fn lemma_unmarked_front(corpus: Seq<MemoryView>, marks: Seq<bool>)
    requires
        corpus.len() > 0,
        marks.len() == corpus.len(),
    ensures
        unmarked(corpus, marks) == if marks[0] {
            unmarked(corpus.drop_first(), marks.drop_first())
        } else {
            seq![corpus[0]] + unmarked(corpus.drop_first(), marks.drop_first())
        },
    decreases corpus.len(),
{
    if corpus.len() == 1 {
        assert(corpus.drop_last() =~= Seq::<MemoryView>::empty());
        assert(corpus.drop_first() =~= Seq::<MemoryView>::empty());
        assert(unmarked(corpus.drop_last(), marks.drop_last()) =~= Seq::<MemoryView>::empty());
        assert(unmarked(corpus.drop_first(), marks.drop_first()) =~= Seq::<MemoryView>::empty());
        assert(unmarked(corpus, marks) =~= if marks[0] {
            Seq::<MemoryView>::empty()
        } else {
            seq![corpus[0]]
        });
    } else {
        let c1 = corpus.drop_last();
        let m1 = marks.drop_last();
        lemma_unmarked_front(c1, m1);
        assert(c1.drop_first() =~= corpus.drop_first().drop_last());
        assert(m1.drop_first() =~= marks.drop_first().drop_last());
        assert(corpus.drop_first().last() == corpus.last());
        assert(marks.drop_first().last() == marks.last());
        assert(c1[0] == corpus[0] && m1[0] == marks[0]);
        let tail = unmarked(corpus.drop_first(), marks.drop_first());
        let tail1 = unmarked(c1.drop_first(), m1.drop_first());
        if marks.last() {
            assert(tail == tail1);
        } else {
            assert(tail == tail1.push(corpus.last()));
            if !marks[0] {
                assert((seq![corpus[0]] + tail1).push(corpus.last()) =~= seq![corpus[0]] + tail);
            }
        }
    }
}

/// Dropping a single marked record shortens the corpus by one.
pub proof fn lemma_single_mark(corpus: Seq<MemoryView>, marks: Seq<bool>, at: int)
    requires
        0 <= at < corpus.len(),
        marks.len() == corpus.len(),
        forall|x: int| 0 <= x < marks.len() ==> #[trigger] marks[x] == (x == at),
    ensures
        unmarked(corpus, marks).len() == corpus.len() - 1,
    decreases corpus.len(),
{
    let front = corpus.drop_last();
    let m1 = marks.drop_last();
    assert(marks.last() == marks[marks.len() - 1]);
    if at == corpus.len() - 1 {
        assert forall|x: int| 0 <= x < m1.len() implies !#[trigger] m1[x] by {
            assert(m1[x] == marks[x]);
        }
        lemma_no_mark(front, m1);
    } else {
        assert forall|x: int| 0 <= x < m1.len() implies #[trigger] m1[x] == (x == at) by {
            assert(m1[x] == marks[x]);
        }
        lemma_single_mark(front, m1, at);
    }
}

/// Without marks nothing is dropped.
pub proof fn lemma_no_mark(corpus: Seq<MemoryView>, marks: Seq<bool>)
    requires
        marks.len() == corpus.len(),
        forall|x: int| 0 <= x < marks.len() ==> !#[trigger] marks[x],
    ensures
        unmarked(corpus, marks) == corpus,
    decreases corpus.len(),
{
    if corpus.len() > 0 {
        let m1 = marks.drop_last();
        assert forall|x: int| 0 <= x < m1.len() implies !#[trigger] m1[x] by {
            assert(m1[x] == marks[x]);
        }
        lemma_no_mark(corpus.drop_last(), m1);
        assert(marks.last() == marks[marks.len() - 1]);
        assert(corpus.drop_last().push(corpus.last()) =~= corpus);
    } else {
        assert(unmarked(corpus, marks) =~= corpus);
    }
}

/// A filter that every record passes changes nothing.
pub proof fn lemma_filter_all(corpus: Seq<MemoryView>, keep: spec_fn(MemoryView) -> bool)
    requires
        forall|i: int| 0 <= i < corpus.len() ==> keep(#[trigger] corpus[i]),
    ensures
        corpus.filter(keep) == corpus,
    decreases corpus.len(),
{
    reveal(Seq::filter);
    if corpus.len() > 0 {
        let front = corpus.drop_last();
        assert forall|i: int| 0 <= i < front.len() implies keep(#[trigger] front[i]) by {
            assert(front[i] == corpus[i]);
        }
        lemma_filter_all(front, keep);
        assert(keep(corpus[corpus.len() - 1]));
        assert(front.push(corpus.last()) =~= corpus);
    }
}

} // verus!
