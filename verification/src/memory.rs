//! The memory model: facts, episodes and the metadata that drives decay and
//! reinforcement.

use vstd::prelude::*;
use crate::fixed::SCALE;

verus! {

/// An embedding vector with integer components.
pub type Embedding = Vec<i16>;

/// One atomic subject-relation-object triple.
#[derive(Debug)]
pub struct Fact {
    pub subject: String,
    pub relation: String,
    pub object: String,
}

/// A free-form narrative.
#[derive(Debug)]
pub struct Episode {
    pub text: String,
}

/// What a memory holds. The set of kinds is closed.
#[derive(Debug)]
pub enum MemoryKind {
    Fact(Fact),
    Episode(Episode),
}

/// A stored memory with its strength and access metadata.
///
/// `strength` is a fixed-point number in units of `1 / SCALE`; timestamps are
/// seconds since the Unix epoch. The stored strength is current for the
/// instant `last_accessed_at`: a recall sets both, and so does a decay sweep
/// that rewrites the strength.
#[derive(Debug)]
pub struct MemoryRecord {
    pub id: i64,
    pub kind: MemoryKind,
    pub strength: u64,
    pub embedding: Option<Embedding>,
    pub created_at: i64,
    pub last_accessed_at: i64,
    pub access_count: i64,
}

/// The mathematical value of a [`Fact`].
pub struct FactView {
    pub subject: Seq<char>,
    pub relation: Seq<char>,
    pub object: Seq<char>,
}

/// The mathematical value of a [`MemoryKind`].
pub enum MemoryKindView {
    Fact(FactView),
    Episode(Seq<char>),
}

/// The mathematical value of a [`MemoryRecord`].
pub struct MemoryView {
    pub id: int,
    pub kind: MemoryKindView,
    pub strength: nat,
    pub embedding: Option<Seq<i16>>,
    pub created_at: int,
    pub last_accessed_at: int,
    pub access_count: int,
}

impl View for Fact {
    type V = FactView;

    open spec fn view(&self) -> FactView {
        FactView { subject: self.subject@, relation: self.relation@, object: self.object@ }
    }
}

impl View for Episode {
    type V = Seq<char>;

    open spec fn view(&self) -> Seq<char> {
        self.text@
    }
}

impl View for MemoryKind {
    type V = MemoryKindView;

    open spec fn view(&self) -> MemoryKindView {
        match self {
            MemoryKind::Fact(f) => MemoryKindView::Fact(f@),
            MemoryKind::Episode(e) => MemoryKindView::Episode(e@),
        }
    }
}

impl View for MemoryRecord {
    type V = MemoryView;

    open spec fn view(&self) -> MemoryView {
        MemoryView {
            id: self.id as int,
            kind: self.kind@,
            strength: self.strength as nat,
            embedding: match self.embedding {
                Some(e) => Some(e@),
                None => None,
            },
            created_at: self.created_at as int,
            last_accessed_at: self.last_accessed_at as int,
            access_count: self.access_count as int,
        }
    }
}

impl MemoryKindView {
    /// The text a memory is indexed and embedded under: the three parts of a
    /// fact joined by single spaces, or the raw text of an episode.
    pub open spec fn text(self) -> Seq<char> {
        match self {
            MemoryKindView::Fact(f) => f.subject + seq![' '] + f.relation + seq![' '] + f.object,
            MemoryKindView::Episode(t) => t,
        }
    }

    pub open spec fn is_fact(self) -> bool {
        self is Fact
    }
}

impl MemoryView {
    /// Strength lies in [0, 1], the access count is not negative, and the
    /// memory was not last accessed before it was created.
    pub open spec fn wf(self) -> bool {
        &&& self.strength <= SCALE
        &&& self.access_count >= 0
        &&& self.created_at <= self.last_accessed_at
    }
}

/// The views of a sequence of records, in order.
pub open spec fn views(records: Seq<MemoryRecord>) -> Seq<MemoryView> {
    records.map_values(|m: MemoryRecord| m@)
}

impl Clone for Fact {
    fn clone(&self) -> (r: Self)
        ensures
            r@ == self@,
    {
        Fact {
            subject: self.subject.clone(),
            relation: self.relation.clone(),
            object: self.object.clone(),
        }
    }
}

impl Clone for Episode {
    fn clone(&self) -> (r: Self)
        ensures
            r@ == self@,
    {
        Episode { text: self.text.clone() }
    }
}

impl Clone for MemoryKind {
    fn clone(&self) -> (r: Self)
        ensures
            r@ == self@,
    {
        match self {
            MemoryKind::Fact(f) => MemoryKind::Fact(f.clone()),
            MemoryKind::Episode(e) => MemoryKind::Episode(e.clone()),
        }
    }
}

/// Copies an embedding component by component.
pub fn clone_embedding(e: &Embedding) -> (r: Embedding)
    ensures
        r@ == e@,
{
    let r = e.clone();
    assert(r@ =~= e@);
    r
}

impl Clone for MemoryRecord {
    fn clone(&self) -> (r: Self)
        ensures
            r@ == self@,
    {
        let embedding = match &self.embedding {
            Some(e) => Some(clone_embedding(e)),
            None => None,
        };
        MemoryRecord {
            id: self.id,
            kind: self.kind.clone(),
            strength: self.strength,
            embedding,
            created_at: self.created_at,
            last_accessed_at: self.last_accessed_at,
            access_count: self.access_count,
        }
    }
}

impl MemoryKind {
    /// The text this memory is indexed and embedded under.
    pub fn text(&self) -> (r: String)
        ensures
            r@ == self@.text(),
    {
        match self {
            MemoryKind::Fact(f) => {
                let mut s = f.subject.clone();
                s.push_str(" ");
                s.push_str(f.relation.as_str());
                s.push_str(" ");
                s.push_str(f.object.as_str());
                proof {
                    reveal_strlit(" ");
                    assert(" "@ =~= seq![' ']);
                }
                s
            },
            MemoryKind::Episode(e) => e.text.clone(),
        }
    }
}

impl MemoryRecord {
    /// The text this memory is indexed and embedded under.
    pub fn text_for_embedding(&self) -> (r: String)
        ensures
            r@ == self@.kind.text(),
    {
        self.kind.text()
    }
}

/// The text of each memory, in order: what a batch of memories is indexed
/// and embedded under.
pub fn texts_of(memories: &Vec<MemoryRecord>) -> (texts: Vec<String>)
    ensures
        texts@.len() == memories@.len(),
        forall|i: int| 0 <= i < texts@.len() ==> (#[trigger] texts@[i])@ == memories@[i]@.kind.text(),
{
    let mut texts: Vec<String> = Vec::new();
    let mut i: usize = 0;
    while i < memories.len()
        invariant
            i <= memories@.len(),
            texts@.len() == i,
            forall|k: int| 0 <= k < i ==> (#[trigger] texts@[k])@ == memories@[k]@.kind.text(),
        decreases memories@.len() - i,
    {
        texts.push(memories[i].text_for_embedding());
        i = i + 1;
    }
    texts
}

/// The same texts as string slices, in order.
pub fn as_slices<'a>(texts: &'a Vec<String>) -> (slices: Vec<&'a str>)
    ensures
        slices@.len() == texts@.len(),
        forall|i: int| 0 <= i < slices@.len() ==> (#[trigger] slices@[i])@ == texts@[i]@,
{
    let mut slices: Vec<&'a str> = Vec::new();
    let mut i: usize = 0;
    while i < texts.len()
        invariant
            i <= texts@.len(),
            slices@.len() == i,
            forall|k: int| 0 <= k < i ==> (#[trigger] slices@[k])@ == texts@[k]@,
        decreases texts@.len() - i,
    {
        slices.push(texts[i].as_str());
        i = i + 1;
    }
    slices
}

} // verus!
