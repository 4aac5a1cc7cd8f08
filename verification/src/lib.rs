//! An agent memory engine: facts and episodes that strengthen when recalled,
//! fade with disuse, and are ranked by a hybrid lexical and semantic pipeline.
//!
//! All quantities are exact integers. Strengths, weights and scores are
//! fixed-point numbers in units of one billionth, timestamps are whole
//! seconds, and embedding components are 16-bit integers.

pub mod activation;
pub mod decay;
pub mod embed;
pub mod fixed;
pub mod fusion;
pub mod memory;
pub mod policy;
pub mod ranking;
pub mod recall;
pub mod scoring;
pub mod store;
pub mod strength;
pub mod text;
pub mod wide;

use vstd::prelude::*;

pub use crate::decay::{run_decay, DecayResult};
pub use crate::embed::{EmbedError, Embedder};
pub use crate::memory::{Embedding, Episode, Fact, MemoryKind, MemoryRecord};
pub use crate::policy::Policy;
pub use crate::recall::{recall, recall_at, RecallError, RecallResult};
pub use crate::store::{MemoryStats, MemoryStore, StoreError};

use crate::decay::{floor_of, outdated, swept};
use crate::memory::{as_slices, texts_of, views, FactView, MemoryKindView, MemoryView};
use crate::recall::{
    distinct_memories, lemma_ranking_ignores_ids, recall_outcome, recall_ranking, result_views,
    same_content,
};
use crate::store::{
    corpus_wf, fresh, has_embedding, imported, is_fact, lacks_embedding, not_about, not_id,
    with_embedding, younger_than,
};

verus! {

/// A snapshot of the corpus.
#[derive(Debug)]
pub struct ExportData {
    pub memories: Vec<MemoryRecord>,
}

impl View for ExportData {
    type V = Seq<MemoryView>;

    open spec fn view(&self) -> Seq<MemoryView> {
        views(self.memories@)
    }
}

/// Why an operation of the engine failed.
#[derive(Debug)]
pub enum ConchError {
    /// The store failed.
    Db(StoreError),
    /// The embedding provider failed.
    Embed(EmbedError),
}

impl ConchError {
    /// The description of the failure: what failed, then the details.
    pub open spec fn text(&self) -> Seq<char> {
        match self {
            ConchError::Db(e) => "database error: "@ + e.text(),
            ConchError::Embed(e) => "embedding error: "@ + e.text(),
        }
    }

    /// A description of the failure.
    pub fn message(&self) -> (r: String)
        ensures
            r@ == self.text(),
    {
        match self {
            ConchError::Db(e) => {
                let mut s = "database error: ".to_owned();
                s.push_str(e.message().as_str());
                s
            },
            ConchError::Embed(e) => {
                let mut s = "embedding error: ".to_owned();
                s.push_str(e.message().as_str());
                s
            },
        }
    }
}

/// The engine: a store together with the provider that embeds what goes into it.
pub struct ConchDB {
    store: MemoryStore,
    embedder: Box<dyn Embedder>,
    policy: Policy,
}

/// The number that a string of decimal digits denotes, most significant
/// digit first; the empty string denotes zero.
pub open spec fn decimal_value(digits: Seq<char>) -> int
    decreases digits.len(),
{
    if digits.len() == 0 {
        0
    } else {
        decimal_value(digits.drop_last()) * 10 + (digits.last() as int - '0' as int)
    }
}

/// Every character is one of `0` to `9`.
pub open spec fn all_digits(s: Seq<char>) -> bool {
    forall|i: int| 0 <= i < s.len() ==> '0' <= #[trigger] s[i] <= '9'
}

/// The id that a string names: a non-empty string of decimal digits whose
/// value is at most the largest id. Anything else names no id.
pub open spec fn parse_id(s: Seq<char>) -> Option<int> {
    if s.len() > 0 && all_digits(s) && decimal_value(s) <= i64::MAX {
        Some(decimal_value(s))
    } else {
        None
    }
}

/// The value of a string of digits only grows as digits are appended.
pub proof fn lemma_decimal_value_grows(s: Seq<char>, k: int)
    requires
        all_digits(s),
        0 <= k <= s.len(),
    ensures
        0 <= decimal_value(s.take(k)) <= decimal_value(s),
    decreases s.len() - k,
{
    if k < s.len() {
        lemma_decimal_value_grows(s, k + 1);
        assert(s.take(k + 1).drop_last() =~= s.take(k));
        assert(s.take(k + 1).last() == s[k]);
        lemma_decimal_value_nonnegative(s.take(k));
    } else {
        assert(s.take(k) =~= s);
        lemma_decimal_value_nonnegative(s);
    }
}

/// The value of a string of digits is not negative.
pub proof fn lemma_decimal_value_nonnegative(s: Seq<char>)
    requires
        all_digits(s),
    ensures
        0 <= decimal_value(s),
    decreases s.len(),
{
    if s.len() > 0 {
        assert forall|i: int| 0 <= i < s.drop_last().len() implies '0' <= #[trigger] s.drop_last()[i]
            <= '9' by {
            assert(s.drop_last()[i] == s[i]);
        }
        lemma_decimal_value_nonnegative(s.drop_last());
        assert('0' <= s[s.len() - 1] <= '9');
    }
}

/// Reads an id from its decimal form.
pub fn parse_memory_id(s: &str) -> (id: Option<i64>)
    ensures
        match id {
            Some(v) => parse_id(s@) == Some(v as int),
            None => parse_id(s@) is None,
        },
{
    let n = s.unicode_len();
    if n == 0 {
        return None;
    }
    let mut value: i64 = 0;
    let mut i: usize = 0;
    proof {
        assert(s@.take(0) =~= Seq::<char>::empty());
    }
    while i < n
        invariant
            i <= n,
            n == s@.len(),
            all_digits(s@.take(i as int)),
            value == decimal_value(s@.take(i as int)),
            0 <= value,
        decreases n - i,
    {
        let c = s.get_char(i);
        proof {
            assert(s@.take(i + 1).drop_last() =~= s@.take(i as int));
            assert(s@.take(i + 1).last() == c);
        }
        if c < '0' || c > '9' {
            proof {
                assert(!all_digits(s@)) by {
                    assert(s@[i as int] == c);
                }
            }
            return None;
        }
        let digit: i64 = (c as u32 - '0' as u32) as i64;
        proof {
            assert forall|k: int| 0 <= k < i + 1 implies '0' <= #[trigger] s@.take(i + 1)[k]
                <= '9' by {
                if k < i {
                    assert(s@.take(i as int)[k] == s@[k]);
                }
            }
        }
        if value > (i64::MAX - digit) / 10 {
            proof {
                // The digits read so far already exceed the largest id.
                let prefix = s@.take(i + 1);
                assert(decimal_value(prefix) == value * 10 + digit);
                if all_digits(s@) {
                    lemma_decimal_value_grows(s@, i + 1);
                }
            }
            return None;
        }
        value = value * 10 + digit;
        i = i + 1;
    }
    proof {
        assert(s@.take(n as int) =~= s@);
    }
    Some(value)
}

/// The records of a snapshot as they are stored on import, with ids from
/// `first_id` upwards.
pub open spec fn imported_all(data: Seq<MemoryView>, first_id: int) -> Seq<MemoryView> {
    Seq::new(
        data.len(),
        |i: int|
            imported(
                first_id + i,
                data[i].kind,
                data[i].strength as int,
                data[i].embedding,
                data[i].created_at,
                data[i].last_accessed_at,
                data[i].access_count,
            ),
    )
}

/// The values of a list of embeddings.
pub open spec fn embedding_views(embeddings: Seq<Embedding>) -> Seq<Seq<i16>> {
    embeddings.map_values(|e: Embedding| e@)
}

/// The corpus after the first `upto` of the given memories have received
/// the embedding at the same position of `embeddings`.
pub open spec fn embedded(
    corpus: Seq<MemoryView>,
    missing: Seq<MemoryView>,
    embeddings: Seq<Seq<i16>>,
    upto: int,
) -> Seq<MemoryView>
    decreases upto,
{
    if upto <= 0 {
        corpus
    } else {
        with_embedding(
            embedded(corpus, missing, embeddings, upto - 1),
            missing[upto - 1].id,
            embeddings[upto - 1],
        )
    }
}

/// How many of the memories can be paired with an embedding.
pub open spec fn paired(missing: int, embeddings: int) -> int {
    if missing < embeddings {
        missing
    } else {
        embeddings
    }
}

/// Stores the embeddings computed for a list of memories, pairing them by
/// position; what is left over on either side is ignored.
pub fn assign_embeddings(
    store: &mut MemoryStore,
    missing: &Vec<MemoryRecord>,
    embeddings: &Vec<Embedding>,
)
    requires
        old(store).wf(),
    ensures
        final(store).wf(),
        final(store).next_id() == old(store).next_id(),
        final(store)@ == embedded(
            old(store)@,
            views(missing@),
            embedding_views(embeddings@),
            paired(missing@.len() as int, embeddings@.len() as int),
        ),
{
    let count = if missing.len() < embeddings.len() {
        missing.len()
    } else {
        embeddings.len()
    };
    let mut i: usize = 0;
    while i < count
        invariant
            i <= count,
            count <= missing@.len(),
            count <= embeddings@.len(),
            store.wf(),
            store.next_id() == old(store).next_id(),
            store@ == embedded(
                old(store)@,
                views(missing@),
                embedding_views(embeddings@),
                i as int,
            ),
        decreases count - i,
    {
        proof {
            assert(views(missing@)[i as int] == missing@[i as int]@);
            assert(embedding_views(embeddings@)[i as int] == embeddings@[i as int]@);
        }
        store.update_embedding(missing[i].id, &embeddings[i]);
        i = i + 1;
    }
}

fn fact_text(subject: &str, relation: &str, object: &str) -> (text: String)
    ensures
        text@ == MemoryKindView::Fact(
            FactView { subject: subject@, relation: relation@, object: object@ },
        ).text(),
{
    let mut s = subject.to_owned();
    s.push_str(" ");
    s.push_str(relation);
    s.push_str(" ");
    s.push_str(object);
    proof {
        reveal_strlit(" ");
        assert(" "@ =~= seq![' ']);
    }
    s
}

impl View for ConchDB {
    type V = Seq<MemoryView>;

    closed spec fn view(&self) -> Seq<MemoryView> {
        self.store@
    }
}

impl ConchDB {
    /// The engine's invariant: its store is well formed and its policy usable.
    pub closed spec fn wf(&self) -> bool {
        self.store.wf() && self.policy.wf()
    }

    /// The policy the engine was built with.
    pub closed spec fn policy(&self) -> Policy {
        self.policy
    }

    /// The id that the next stored memory will receive.
    pub closed spec fn next_id(&self) -> int {
        self.store.next_id()
    }

    /// Creates an engine with an empty store, the given embedding provider
    /// and the documented policy.
    pub fn open_in_memory_with(embedder: Box<dyn Embedder>) -> (r: Result<Self, ConchError>)
        ensures
            r is Ok,
            r->Ok_0.wf(),
            r->Ok_0@ == Seq::<MemoryView>::empty(),
            r->Ok_0.next_id() == 1,
            r->Ok_0.policy() == Policy::standard(),
    {
        Ok(ConchDB { store: MemoryStore::open_in_memory(), embedder, policy: Policy::default() })
    }

    /// Creates an engine over an existing store, with the documented policy.
    pub fn with_store(store: MemoryStore, embedder: Box<dyn Embedder>) -> (db: Self)
        requires
            store.wf(),
        ensures
            db.wf(),
            db@ == store@,
            db.next_id() == store.next_id(),
            db.policy() == Policy::standard(),
    {
        ConchDB { store, embedder, policy: Policy::default() }
    }

    /// The same engine under another policy. An unusable policy is not
    /// taken: the engine then keeps the policy it has.
    pub fn with_policy(self, policy: Policy) -> (db: Self)
        requires
            self.wf(),
        ensures
            db.wf(),
            db@ == self@,
            db.next_id() == self.next_id(),
            db.policy() == if policy.wf() {
                policy
            } else {
                self.policy()
            },
    {
        if policy.is_valid() {
            ConchDB { store: self.store, embedder: self.embedder, policy }
        } else {
            self
        }
    }

    /// The policy the engine was built with.
    pub fn current_policy(&self) -> (policy: Policy)
        ensures
            policy == self.policy(),
    {
        self.policy
    }

    /// The store behind the engine.
    pub fn store(&self) -> (store: &MemoryStore)
        ensures
            store@ == self@,
            self.wf() ==> store.wf(),
            store.next_id() == self.next_id(),
    {
        &self.store
    }

    /// Embeds and stores a fact, and returns it as stored.
    ///
    /// The text embedded is `subject relation object`. If the provider
    /// fails, nothing is stored. Otherwise the fact is stored at full
    /// strength with the embedding, created and last accessed at `now`,
    /// unless the store has no id left.
    pub fn remember_fact(
        &mut self,
        subject: &str,
        relation: &str,
        object: &str,
        now: i64,
    ) -> (r: Result<MemoryRecord, ConchError>)
        requires
            old(self).wf(),
        ensures
            final(self).wf(),
            final(self).policy() == old(self).policy(),
            match r {
                Ok(m) => {
                    &&& final(self)@ == old(self)@.push(m@)
                    &&& final(self).next_id() == old(self).next_id() + 1
                    &&& exists|e: Seq<i16>|
                        m@ == fresh(
                            old(self).next_id(),
                            MemoryKindView::Fact(
                                FactView { subject: subject@, relation: relation@, object: object@ },
                            ),
                            Some(e),
                            now as int,
                        )
                },
                Err(ConchError::Embed(_)) => {
                    &&& final(self)@ == old(self)@
                    &&& final(self).next_id() == old(self).next_id()
                },
                Err(ConchError::Db(e)) => {
                    &&& e == StoreError::IdsExhausted
                    &&& old(self).next_id() == i64::MAX
                    &&& final(self)@ == old(self)@
                    &&& final(self).next_id() == old(self).next_id()
                },
            },
    {
        let text = fact_text(subject, relation, object);
        let embedding = match self.embedder.embed_one(text.as_str()) {
            Ok(e) => e,
            Err(e) => {
                return Err(ConchError::Embed(e));
            },
        };
        match self.store.remember_fact(subject, relation, object, Some(&embedding), now) {
            Ok(_) => {
                let memories = self.store.memories();
                proof {
                    assert(views(memories@).len() == memories@.len());
                }
                let stored = memories[memories.len() - 1].clone();
                proof {
                    assert(stored@ == self.store@[self.store@.len() - 1]);
                    assert(stored@ == fresh(
                        old(self).next_id(),
                        MemoryKindView::Fact(
                            FactView { subject: subject@, relation: relation@, object: object@ },
                        ),
                        Some(embedding@),
                        now as int,
                    ));
                }
                Ok(stored)
            },
            Err(e) => Err(ConchError::Db(e)),
        }
    }

    /// Embeds and stores an episode, and returns it as stored.
    ///
    /// If the provider fails, nothing is stored. Otherwise the episode is
    /// stored at full strength with the embedding, created and last accessed
    /// at `now`, unless the store has no id left.
    pub fn remember_episode(&mut self, text: &str, now: i64) -> (r: Result<
        MemoryRecord,
        ConchError,
    >)
        requires
            old(self).wf(),
        ensures
            final(self).wf(),
            final(self).policy() == old(self).policy(),
            match r {
                Ok(m) => {
                    &&& final(self)@ == old(self)@.push(m@)
                    &&& final(self).next_id() == old(self).next_id() + 1
                    &&& exists|e: Seq<i16>|
                        m@ == fresh(
                            old(self).next_id(),
                            MemoryKindView::Episode(text@),
                            Some(e),
                            now as int,
                        )
                },
                Err(ConchError::Embed(_)) => {
                    &&& final(self)@ == old(self)@
                    &&& final(self).next_id() == old(self).next_id()
                },
                Err(ConchError::Db(e)) => {
                    &&& e == StoreError::IdsExhausted
                    &&& old(self).next_id() == i64::MAX
                    &&& final(self)@ == old(self)@
                    &&& final(self).next_id() == old(self).next_id()
                },
            },
    {
        let embedding = match self.embedder.embed_one(text) {
            Ok(e) => e,
            Err(e) => {
                return Err(ConchError::Embed(e));
            },
        };
        match self.store.remember_episode(text, Some(&embedding), now) {
            Ok(_) => {
                let memories = self.store.memories();
                proof {
                    assert(views(memories@).len() == memories@.len());
                }
                let stored = memories[memories.len() - 1].clone();
                proof {
                    assert(stored@ == self.store@[self.store@.len() - 1]);
                    assert(stored@ == fresh(
                        old(self).next_id(),
                        MemoryKindView::Episode(text@),
                        Some(embedding@),
                        now as int,
                    ));
                }
                Ok(stored)
            },
            Err(e) => Err(ConchError::Db(e)),
        }
    }

    /// Recalls the memories most relevant to a query and reinforces them.
    ///
    /// `lexical` is the lexical ranking of the corpus for `query`, as corpus
    /// positions, best first; `now` is the instant of the call. See
    /// [`recall`](crate::recall::recall).
    pub fn recall(&mut self, query: &str, lexical: &Vec<usize>, limit: usize, now: i64) -> (r:
        Result<Vec<RecallResult>, ConchError>)
        requires
            old(self).wf(),
        ensures
            final(self).wf(),
            final(self).policy() == old(self).policy(),
            final(self).next_id() == old(self).next_id(),
            old(self)@.len() == 0 ==> r is Ok,
            (limit == 0 || old(self)@.len() == 0) ==> final(self)@ == old(self)@,
            match r {
                Ok(results) => {
                    &&& results@.len() <= limit
                    &&& results@.len() <= old(self)@.len()
                    &&& distinct_memories(result_views(results@))
                    &&& exists|q: Seq<i16>|
                        recall_outcome(
                            old(self).policy(),
                            old(self)@,
                            lexical@,
                            q,
                            limit as int,
                            now as int,
                            result_views(results@),
                            final(self)@,
                        )
                },
                Err(e) => e is Embed && final(self)@ == old(self)@,
            },
    {
        match recall(&self.policy, &mut self.store, query, &*self.embedder, lexical, limit, now) {
            Ok(results) => {
                proof {
                    let q = choose|q: Seq<i16>|
                        recall_outcome(
                            old(self).policy,
                            old(self)@,
                            lexical@,
                            q,
                            limit as int,
                            now as int,
                            result_views(results@),
                            self.store@,
                        );
                    assert(recall_outcome(
                        old(self).policy(),
                        old(self)@,
                        lexical@,
                        q,
                        limit as int,
                        now as int,
                        result_views(results@),
                        self@,
                    ));
                }
                Ok(results)
            },
            Err(RecallError::Db(e)) => Err(ConchError::Db(e)),
            Err(RecallError::Embedding(msg)) => Err(ConchError::Embed(EmbedError::Other(msg))),
        }
    }

    /// Deletes every fact about exactly the given subject.
    pub fn forget_by_subject(&mut self, subject: &str) -> (r: Result<usize, ConchError>)
        requires
            old(self).wf(),
        ensures
            final(self).wf(),
            final(self).policy() == old(self).policy(),
            final(self).next_id() == old(self).next_id(),
            r is Ok,
            final(self)@ == old(self)@.filter(not_about(subject@)),
            r->Ok_0 == old(self)@.len() - final(self)@.len(),
    {
        Ok(self.store.forget_by_subject(subject))
    }

    /// Deletes the memory whose id `id` names in decimal. A string that
    /// names no id deletes nothing.
    pub fn forget_by_id(&mut self, id: &str) -> (r: Result<usize, ConchError>)
        requires
            old(self).wf(),
        ensures
            final(self).wf(),
            final(self).policy() == old(self).policy(),
            final(self).next_id() == old(self).next_id(),
            r is Ok,
            final(self)@ == match parse_id(id@) {
                Some(v) => old(self)@.filter(not_id(v)),
                None => old(self)@,
            },
            r->Ok_0 == old(self)@.len() - final(self)@.len(),
            r->Ok_0 <= 1,
    {
        match parse_memory_id(id) {
            Some(v) => Ok(self.store.forget_by_id(v)),
            None => Ok(0),
        }
    }

    /// Deletes every memory created more than `secs` seconds before `now`.
    pub fn forget_older_than(&mut self, secs: i64, now: i64) -> (r: Result<usize, ConchError>)
        requires
            old(self).wf(),
        ensures
            final(self).wf(),
            final(self).policy() == old(self).policy(),
            final(self).next_id() == old(self).next_id(),
            r is Ok,
            r->Ok_0 == old(self)@.len() - final(self)@.len(),
            final(self)@ == old(self)@.filter(younger_than(secs as int, now as int)),
    {
        Ok(self.store.forget_older_than(secs, now))
    }

    /// Runs a decay sweep at the instant `now`, with the policy's floor.
    ///
    /// The sweep is idempotent at a fixed instant: what it leaves is what a
    /// second sweep at `now` would leave, and that second sweep would rewrite
    /// nothing and prune nothing.
    pub fn decay(&mut self, now: i64) -> (r: Result<DecayResult, ConchError>)
        requires
            old(self).wf(),
        ensures
            final(self).wf(),
            final(self).policy() == old(self).policy(),
            final(self).next_id() == old(self).next_id(),
            r is Ok,
            r->Ok_0.scanned == old(self)@.len(),
            r->Ok_0.pruned == old(self)@.len() - final(self)@.len(),
            final(self)@ == swept(
                old(self).policy(),
                old(self)@,
                old(self).policy().prune_floor as int,
                now as int,
            ),
            r->Ok_0.rewritten == old(self)@.filter(
                outdated(old(self).policy(), old(self).policy().prune_floor as int, now as int),
            ).len(),
            final(self)@ == swept(
                old(self).policy(),
                final(self)@,
                old(self).policy().prune_floor as int,
                now as int,
            ),
            final(self)@.filter(
                outdated(old(self).policy(), old(self).policy().prune_floor as int, now as int),
            ).len() == 0,
    {
        let result = run_decay(&self.policy, &mut self.store, None, now);
        proof {
            let policy = old(self).policy();
            let floor = policy.prune_floor as int;
            assert(floor == floor_of(policy, None));
            assert(self@ == swept(policy, old(self)@, floor, now as int));
            assert(result.rewritten == old(self)@.filter(outdated(policy, floor, now as int)).len());
            assert(self@ == swept(policy, self@, floor, now as int));
            assert(self@.filter(outdated(policy, floor, now as int)).len() == 0);
        }
        Ok(result)
    }

    /// Counts the memories of each kind and those that have an embedding.
    pub fn stats(&self) -> (r: Result<MemoryStats, ConchError>)
        ensures
            r is Ok,
            r->Ok_0.total_memories == self@.len(),
            r->Ok_0.total_facts == self@.filter(is_fact()).len(),
            r->Ok_0.total_episodes == self@.len() - self@.filter(is_fact()).len(),
            r->Ok_0.with_embedding == self@.filter(has_embedding()).len(),
    {
        Ok(self.store.stats())
    }

    /// Embeds every memory that has no embedding yet, in one batch, and
    /// returns how many there were.
    ///
    /// When no memory lacks an embedding the provider is not consulted and
    /// the call succeeds with zero. Otherwise the provider is handed the
    /// texts of those memories, in id order, once. If it fails, nothing
    /// changes; the vectors it returns are paired with the memories by
    /// position.
    pub fn embed_all(&mut self) -> (r: Result<usize, ConchError>)
        requires
            old(self).wf(),
        ensures
            final(self).wf(),
            final(self).policy() == old(self).policy(),
            final(self).next_id() == old(self).next_id(),
            old(self)@.filter(lacks_embedding()).len() == 0 ==> r is Ok && final(self)@ == old(
                self,
            )@,
            match r {
                Ok(n) => {
                    &&& n == old(self)@.filter(lacks_embedding()).len()
                    &&& exists|embeddings: Seq<Seq<i16>>|
                        final(self)@ == embedded(
                            old(self)@,
                            old(self)@.filter(lacks_embedding()),
                            embeddings,
                            paired(n as int, embeddings.len() as int),
                        )
                },
                Err(e) => e is Embed && final(self)@ == old(self)@,
            },
    {
        let missing = self.store.memories_missing_embeddings();
        if missing.len() == 0 {
            proof {
                let none = Seq::<Seq<i16>>::empty();
                assert(self@ == embedded(
                    old(self)@,
                    old(self)@.filter(lacks_embedding()),
                    none,
                    paired(0, none.len() as int),
                ));
            }
            return Ok(0);
        }
        let texts = texts_of(&missing);
        let text_refs = as_slices(&texts);
        let embeddings = match self.embedder.embed(text_refs.as_slice()) {
            Ok(v) => v,
            Err(e) => {
                return Err(ConchError::Embed(e));
            },
        };
        assign_embeddings(&mut self.store, &missing, &embeddings);
        proof {
            let witness = embedding_views(embeddings@);
            assert(self@ == embedded(
                old(self)@,
                old(self)@.filter(lacks_embedding()),
                witness,
                paired(missing@.len() as int, witness.len() as int),
            ));
        }
        Ok(missing.len())
    }

    /// A snapshot of every memory, in id order.
    pub fn export(&self) -> (r: Result<ExportData, ConchError>)
        ensures
            r is Ok,
            r->Ok_0@ == self@,
    {
        Ok(ExportData { memories: self.store.all_memories() })
    }

    /// Stores every memory of a snapshot under a new id, in order, keeping
    /// strengths, embeddings, timestamps and access counts.
    ///
    /// Succeeds exactly when the store has enough ids left. When it runs out
    /// part-way, the memories imported so far stay.
    pub fn import(&mut self, data: &ExportData) -> (r: Result<usize, ConchError>)
        requires
            old(self).wf(),
        ensures
            final(self).wf(),
            final(self).policy() == old(self).policy(),
            r is Ok <==> old(self).next_id() + data@.len() <= i64::MAX,
            match r {
                Ok(n) => {
                    &&& n == data@.len()
                    &&& final(self)@ == old(self)@ + imported_all(data@, old(self).next_id())
                    &&& final(self).next_id() == old(self).next_id() + n
                },
                Err(e) => {
                    &&& e == ConchError::Db(StoreError::IdsExhausted)
                    &&& final(self).next_id() == i64::MAX
                    &&& final(self)@ == old(self)@ + imported_all(
                        data@.take(i64::MAX - old(self).next_id()),
                        old(self).next_id(),
                    )
                },
            },
    {
        let ghost first = self.next_id();
        let mut count: usize = 0;
        proof {
            assert(self@ =~= old(self)@ + imported_all(data@.take(0), first));
        }
        while count < data.memories.len()
            invariant
                count <= data.memories@.len(),
                self.wf(),
                self.policy() == old(self).policy(),
                first == old(self).next_id(),
                self.next_id() == first + count,
                self@ == old(self)@ + imported_all(data@.take(count as int), first),
            decreases data.memories@.len() - count,
        {
            proof {
                assert(data@[count as int] == data.memories@[count as int]@);
            }
            let ghost prev = self@;
            match self.store.import_record(&data.memories[count]) {
                Ok(_) => {
                    proof {
                        let before = imported_all(data@.take(count as int), first);
                        let after = imported_all(data@.take(count + 1), first);
                        assert(after =~= before.push(after[count as int]));
                        assert(self@ =~= old(self)@ + after);
                    }
                },
                Err(e) => {
                    return Err(ConchError::Db(e));
                },
            }
            count = count + 1;
        }
        proof {
            assert(data@.take(count as int) =~= data@);
        }
        Ok(count)
    }
}

/// Export followed by import preserves everything but the ids: a snapshot of
/// a well-formed corpus, imported into any store, adds the same memories in
/// the same order with the same kind, content, strength, embedding,
/// timestamps and access count, numbered from the store's next id.
pub proof fn lemma_import_preserves_content(corpus: Seq<MemoryView>, next_id: int, first_id: int)
    requires
        corpus_wf(corpus, next_id),
    ensures
        imported_all(corpus, first_id).len() == corpus.len(),
        forall|i: int|
            0 <= i < corpus.len() ==> #[trigger] imported_all(corpus, first_id)[i] == (MemoryView {
                id: first_id + i,
                ..corpus[i]
            }),
        same_content(imported_all(corpus, first_id), corpus),
{
    assert forall|i: int| 0 <= i < corpus.len() implies #[trigger] imported_all(
        corpus,
        first_id,
    )[i] == (MemoryView { id: first_id + i, ..corpus[i] }) by {
        assert(corpus[i].wf());
    }
}

/// A corpus that went through export and import into an empty store answers
/// every query as the corpus it was exported from does: the same positions,
/// in the same order, with the same scores.
pub proof fn lemma_round_trip_preserves_ranking(
    policy: Policy,
    corpus: Seq<MemoryView>,
    next_id: int,
    lexical: Seq<usize>,
    query: Seq<i16>,
    limit: int,
    now: int,
)
    requires
        corpus_wf(corpus, next_id),
    ensures
        recall_ranking(
            policy,
            Seq::<MemoryView>::empty() + imported_all(corpus, 1),
            lexical,
            query,
            limit,
            now,
        ) == recall_ranking(policy, corpus, lexical, query, limit, now),
{
    lemma_import_preserves_content(corpus, next_id, 1);
    let copy = Seq::<MemoryView>::empty() + imported_all(corpus, 1);
    assert(copy =~= imported_all(corpus, 1));
    lemma_ranking_ignores_ids(policy, copy, corpus, lexical, query, limit, now);
}

/// The memories that lack an embedding form a well-formed corpus of their
/// own: each of them is a memory of the corpus without an embedding, and
/// their ids are distinct.
pub proof fn lemma_missing_wf(corpus: Seq<MemoryView>, next_id: int)
    requires
        corpus_wf(corpus, next_id),
    ensures
        corpus_wf(corpus.filter(lacks_embedding()), next_id),
        forall|k: int|
            0 <= k < corpus.filter(lacks_embedding()).len() ==> {
                let m = #[trigger] corpus.filter(lacks_embedding())[k];
                m.embedding is None && corpus.contains(m)
            },
{
    broadcast use vstd::seq_lib::group_filter_ensures;

    let keep = lacks_embedding();
    let missing = corpus.filter(keep);
    let marks = Seq::new(corpus.len(), |i: int| !keep(corpus[i]));
    crate::store::lemma_unmarked_is_filter(corpus, marks, keep);
    crate::store::lemma_unmarked_wf(corpus, marks, next_id);
    assert forall|k: int| 0 <= k < missing.len() implies {
        let m = #[trigger] missing[k];
        m.embedding is None && corpus.contains(m)
    } by {
        corpus.lemma_filter_pred(keep, k);
        assert(missing.contains(missing[k]));
        corpus.lemma_filter_contains_rev(keep, missing[k]);
    }
}

/// What storing the first `upto` embeddings does: the memory that stands at
/// place `k` among those lacking an embedding receives the vector at place
/// `k`, and nothing else changes.
pub proof fn lemma_embedded_by_place(
    corpus: Seq<MemoryView>,
    next_id: int,
    embeddings: Seq<Seq<i16>>,
    upto: int,
)
    requires
        corpus_wf(corpus, next_id),
        0 <= upto <= corpus.filter(lacks_embedding()).len(),
        upto <= embeddings.len(),
    ensures
        ({
            let missing = corpus.filter(lacks_embedding());
            let after = embedded(corpus, missing, embeddings, upto);
            &&& after.len() == corpus.len()
            &&& forall|p: int|
                0 <= p < corpus.len() ==> #[trigger] after[p] == (MemoryView {
                    embedding: after[p].embedding,
                    ..corpus[p]
                })
            &&& forall|p: int, k: int|
                0 <= p < corpus.len() && 0 <= k < upto && (#[trigger] corpus[p]).id == (
                #[trigger] missing[k]).id ==> after[p].embedding == Some(embeddings[k])
            &&& forall|p: int|
                0 <= p < corpus.len() && (forall|k: int|
                    0 <= k < upto ==> corpus[p].id != (#[trigger] missing[k]).id)
                    ==> #[trigger] after[p] == corpus[p]
        }),
    decreases upto,
{
    let missing = corpus.filter(lacks_embedding());
    let after = embedded(corpus, missing, embeddings, upto);
    if upto > 0 {
        lemma_embedded_by_place(corpus, next_id, embeddings, upto - 1);
        lemma_missing_wf(corpus, next_id);
        let before = embedded(corpus, missing, embeddings, upto - 1);
        let id = missing[upto - 1].id;
        let vector = embeddings[upto - 1];
        assert(after == with_embedding(before, id, vector));
        assert forall|p: int| 0 <= p < corpus.len() implies #[trigger] after[p] == (MemoryView {
            embedding: after[p].embedding,
            ..corpus[p]
        }) by {
            assert(before[p] == (MemoryView { embedding: before[p].embedding, ..corpus[p] }));
        }
        assert forall|p: int, k: int|
            0 <= p < corpus.len() && 0 <= k < upto && (#[trigger] corpus[p]).id == (
            #[trigger] missing[k]).id implies after[p].embedding == Some(embeddings[k]) by {
            assert(before[p] == (MemoryView { embedding: before[p].embedding, ..corpus[p] }));
            if k < upto - 1 {
                assert(missing[k].id < missing[upto - 1].id);
            }
        }
        assert forall|p: int|
            0 <= p < corpus.len() && (forall|k: int|
                0 <= k < upto ==> corpus[p].id != (#[trigger] missing[k]).id) implies #[trigger] after[p]
            == corpus[p] by {
            assert(before[p] == (MemoryView { embedding: before[p].embedding, ..corpus[p] }));
            assert(corpus[p].id != missing[upto - 1].id);
            assert forall|k: int| 0 <= k < upto - 1 implies corpus[p].id != (
            #[trigger] missing[k]).id by {}
        }
    }
}

/// When the provider answers with a vector for every text, no memory lacks
/// an embedding afterwards, the memories that had one keep it, and nothing
/// but embeddings changes. A second pass then finds nothing to embed.
pub proof fn lemma_embedded_fills_all(
    corpus: Seq<MemoryView>,
    next_id: int,
    embeddings: Seq<Seq<i16>>,
)
    requires
        corpus_wf(corpus, next_id),
        embeddings.len() >= corpus.filter(lacks_embedding()).len(),
    ensures
        ({
            let missing = corpus.filter(lacks_embedding());
            let after = embedded(corpus, missing, embeddings, missing.len() as int);
            &&& after.len() == corpus.len()
            &&& after.filter(lacks_embedding()).len() == 0
            &&& forall|p: int|
                0 <= p < corpus.len() ==> #[trigger] after[p] == (MemoryView {
                    embedding: after[p].embedding,
                    ..corpus[p]
                })
            &&& forall|p: int|
                0 <= p < corpus.len() && (#[trigger] corpus[p]).embedding is Some
                    ==> after[p] == corpus[p]
        }),
{
    let missing = corpus.filter(lacks_embedding());
    let n = missing.len() as int;
    let after = embedded(corpus, missing, embeddings, n);
    lemma_embedded_by_place(corpus, next_id, embeddings, n);
    lemma_missing_wf(corpus, next_id);
    assert forall|p: int| 0 <= p < corpus.len() implies (#[trigger] after[p]).embedding is Some
        && (corpus[p].embedding is Some ==> after[p] == corpus[p]) by {
        if corpus[p].embedding is None {
            corpus.lemma_filter_contains(lacks_embedding(), p);
            let k = choose|k: int| 0 <= k < missing.len() && missing[k] == corpus[p];
            assert(corpus[p].id == missing[k].id);
        } else {
            assert forall|k: int| 0 <= k < n implies corpus[p].id != (#[trigger] missing[k]).id by {
                let m = missing[k];
                assert(m.embedding is None && corpus.contains(m));
                let q = choose|q: int| 0 <= q < corpus.len() && corpus[q] == m;
                if q < p {
                    assert(corpus[q].id < corpus[p].id);
                } else if p < q {
                    assert(corpus[p].id < corpus[q].id);
                }
            }
        }
    }
    assert forall|p: int| 0 <= p < after.len() implies !lacks_embedding()(#[trigger] after[p]) by {}
    after.lemma_all_neg_filter_empty(lacks_embedding());
}

} // verus!
