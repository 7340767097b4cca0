//! The memory store: an inverted-index keyword store with capacity
//! eviction, integer-math ranked search, and a pipe-delimited persistence
//! format that survives a round trip losslessly.
//!
//! Entries are kept in ascending id order; the index maps each keyword of
//! any stored entry to the ascending list of ids of the entries holding
//! it. Both directions of that correspondence are part of the store's
//! well-formedness and are maintained by every operation.

use vstd::prelude::*;
use vstd::multiset::Multiset;
use crate::keywords::{extract_kws, extract_keywords};
use crate::codec::{trim_stable, free_of};

verus! {

/// What kind of memory an entry is; mirrors the feedback categories.
#[derive(Debug, Clone, Copy, PartialEq, Eq, Structural)]
pub enum MemoryKind {
    /// Ideas and insights from agents.
    Spark,
    /// Links between concepts.
    Connection,
    /// Useful references.
    Resource,
    /// Agent state snapshots.
    Feeling,
    /// General notes.
    Observation,
}

impl MemoryKind {
    /// The tag written into a persisted record.
    pub open spec fn spec_tag(self) -> Seq<char> {
        match self {
            MemoryKind::Spark => "spark"@,
            MemoryKind::Connection => "connection"@,
            MemoryKind::Resource => "resource"@,
            MemoryKind::Feeling => "feeling"@,
            MemoryKind::Observation => "observation"@,
        }
    }

    /// The kind a tag names, if any.
    pub open spec fn spec_from_tag(s: Seq<char>) -> Option<MemoryKind> {
        if s == "spark"@ {
            Some(MemoryKind::Spark)
        } else if s == "connection"@ {
            Some(MemoryKind::Connection)
        } else if s == "resource"@ {
            Some(MemoryKind::Resource)
        } else if s == "feeling"@ {
            Some(MemoryKind::Feeling)
        } else if s == "observation"@ {
            Some(MemoryKind::Observation)
        } else {
            None
        }
    }

    /// Converts to the string tag used in serialization.
    pub fn as_str(&self) -> (r: &'static str)
        ensures
            r@ == self.spec_tag(),
    {
        match self {
            MemoryKind::Spark => "spark",
            MemoryKind::Connection => "connection",
            MemoryKind::Resource => "resource",
            MemoryKind::Feeling => "feeling",
            MemoryKind::Observation => "observation",
        }
    }

    /// Parses a string tag.
    pub fn from_str(s: &str) -> (r: Option<MemoryKind>)
        ensures
            r == Self::spec_from_tag(s@),
    {
        if crate::text::str_eq_str(s, "spark") {
            Some(MemoryKind::Spark)
        } else if crate::text::str_eq_str(s, "connection") {
            Some(MemoryKind::Connection)
        } else if crate::text::str_eq_str(s, "resource") {
            Some(MemoryKind::Resource)
        } else if crate::text::str_eq_str(s, "feeling") {
            Some(MemoryKind::Feeling)
        } else if crate::text::str_eq_str(s, "observation") {
            Some(MemoryKind::Observation)
        } else {
            None
        }
    }

    /// Round trip: the tag of a kind always parses back to that kind.
    pub proof fn lemma_tag_round_trip(self)
        ensures
            Self::spec_from_tag(self.spec_tag()) == Some(self),
    {
        reveal_strlit("spark");
        reveal_strlit("connection");
        reveal_strlit("resource");
        reveal_strlit("feeling");
        reveal_strlit("observation");
        assert("spark"@.len() == 5);
        assert("connection"@.len() == 10);
        assert("resource"@.len() == 8);
        assert("feeling"@.len() == 7);
        assert("observation"@.len() == 11);
        assert("resource"@[0] == 'r' && "feeling"@[0] == 'f');
    }
}

/// A single memory entry. Immutable once stored, except for the access
/// count bumped by `get`.
#[derive(Debug, Clone)]
pub struct MemoryEntry {
    /// Unique identifier.
    pub id: u64,
    /// Main text content.
    pub content: String,
    /// What kind of memory.
    pub kind: MemoryKind,
    /// Which agent or surface stored this.
    pub source: String,
    /// Keywords extracted at store time, duplicates preserved.
    pub keywords: Vec<String>,
    /// Tick when stored.
    pub timestamp: u64,
    /// How often this entry has been recalled through `get`.
    pub access_count: u64,
}

/// The mathematical value of an entry: its fields with every string read
/// as its character sequence.
pub struct EntryModel {
    pub id: u64,
    pub content: Seq<char>,
    pub kind: MemoryKind,
    pub source: Seq<char>,
    pub keywords: Seq<Seq<char>>,
    pub timestamp: u64,
    pub access_count: u64,
}

impl View for MemoryEntry {
    type V = EntryModel;

    open spec fn view(&self) -> EntryModel {
        EntryModel {
            id: self.id,
            content: self.content@,
            kind: self.kind,
            source: self.source@,
            keywords: self.keywords.deep_view(),
            timestamp: self.timestamp,
            access_count: self.access_count,
        }
    }
}

impl DeepView for MemoryEntry {
    type V = EntryModel;

    open spec fn deep_view(&self) -> EntryModel {
        self.view()
    }
}

impl MemoryEntry {
    /// A copy with the same model.
    pub fn duplicate(&self) -> (r: MemoryEntry)
        ensures
            r@ == self@,
    {
        MemoryEntry {
            id: self.id,
            content: self.content.clone(),
            kind: self.kind,
            source: self.source.clone(),
            keywords: crate::message::dup_strings(&self.keywords),
            timestamp: self.timestamp,
            access_count: self.access_count,
        }
    }
}

/// One posting list of the inverted index: a keyword and the ascending
/// ids of the entries that hold it.
#[derive(Debug, Clone)]
pub struct Posting {
    pub keyword: String,
    pub ids: Vec<u64>,
}

/// The mathematical value of a posting.
pub struct PostingModel {
    pub keyword: Seq<char>,
    pub ids: Seq<u64>,
}

impl View for Posting {
    type V = PostingModel;

    open spec fn view(&self) -> PostingModel {
        PostingModel { keyword: self.keyword@, ids: self.ids@ }
    }
}

impl DeepView for Posting {
    type V = PostingModel;

    open spec fn deep_view(&self) -> PostingModel {
        self.view()
    }
}

/// The trim map, as a named function value, so that every use below
/// speaks of one and the same function.
pub open spec fn trim_fn() -> spec_fn(Seq<char>) -> Seq<char> {
    |w: Seq<char>| crate::codec::trim_seq(w)
}

/// The non-emptiness test, as a named function value.
pub open spec fn nonempty_pred() -> spec_fn(Seq<char>) -> bool {
    |w: Seq<char>| w.len() > 0
}

/// Statistics about the memory store.
#[derive(Debug, Clone)]
pub struct MemoryStats {
    /// Total number of entries.
    pub entry_count: usize,
    /// Number of distinct keywords in the index.
    pub index_size: usize,
    /// The most frequent keywords with their document frequencies.
    pub top_keywords: Vec<(String, usize)>,
    /// A rough estimate of the memory used, in bytes.
    pub estimated_bytes: usize,
}

/// A keyword fit for the index and the persisted format: non-empty, free
/// of commas and line feeds, and left alone by trimming.
pub open spec fn kw_ok(w: Seq<char>) -> bool {
    w.len() > 0 && trim_stable(w) && free_of(w, ',') && free_of(w, '\n')
}

/// The core memory store.
pub struct MemoryStore {
    /// All entries, in ascending id order.
    entries: Vec<MemoryEntry>,
    /// Inverted index: keyword to ascending set of entry ids.
    index: Vec<Posting>,
    /// Next id to assign; ids are never reused, even across eviction.
    next_id: u64,
    /// Maximum number of entries kept.
    max_entries: usize,
}

impl MemoryStore {
    /// The entries as a mathematical sequence, ascending by id.
    pub closed spec fn entries_model(self) -> Seq<EntryModel> {
        self.entries.deep_view()
    }

    pub closed spec fn spec_next_id(self) -> u64 {
        self.next_id
    }

    pub closed spec fn spec_max_entries(self) -> usize {
        self.max_entries
    }

    /// Whether some entry carries the given id.
    pub open spec fn spec_has_id(em: Seq<EntryModel>, id: u64) -> bool {
        exists|i: int| 0 <= i < em.len() && em[i].id == id
    }

    /// The position of the entry with the given id.
    pub open spec fn idx_of(em: Seq<EntryModel>, id: u64) -> int {
        choose|i: int| 0 <= i < em.len() && em[i].id == id
    }

    /// The entry with the given id.
    pub open spec fn entry_of(em: Seq<EntryModel>, id: u64) -> EntryModel {
        em[Self::idx_of(em, id)]
    }

    pub open spec fn entries_sorted(em: Seq<EntryModel>) -> bool {
        forall|i: int, j: int| 0 <= i < j < em.len() ==> em[i].id < em[j].id
    }

    pub open spec fn entry_kws_ok(e: EntryModel) -> bool {
        forall|k: int| 0 <= k < e.keywords.len() ==> kw_ok(#[trigger] e.keywords[k])
    }

    /// The inverted index as a mathematical sequence of postings.
    pub closed spec fn index_model(self) -> Seq<PostingModel> {
        self.index.deep_view()
    }

    /// Whether some posting for keyword `w` holds `id`.
    pub open spec fn kw_covered(im: Seq<PostingModel>, w: Seq<char>, id: u64) -> bool {
        exists|a: int| 0 <= a < im.len() && (#[trigger] im[a]).keyword == w && im[a].ids.contains(id)
    }

    /// Whether some entry carries `id` and holds the keyword `w`.
    pub open spec fn id_justified(em: Seq<EntryModel>, id: u64, w: Seq<char>) -> bool {
        exists|i: int| 0 <= i < em.len() && (#[trigger] em[i]).id == id && em[i].keywords.contains(w)
    }

    /// Every posting membership is justified by an entry that holds the
    /// keyword.
    pub open spec fn spec_index_sound(em: Seq<EntryModel>, im: Seq<PostingModel>) -> bool {
        forall|w: Seq<char>, v: u64| #[trigger] Self::kw_covered(im, w, v) ==> Self::id_justified(em, v, w)
    }

    /// Every keyword of every entry is covered by a posting holding the
    /// entry's id.
    pub open spec fn spec_index_complete(em: Seq<EntryModel>, im: Seq<PostingModel>) -> bool {
        forall|i: int, k: int|
            0 <= i < em.len() && 0 <= k < em[i].keywords.len() ==> Self::kw_covered(
                im,
                #[trigger] em[i].keywords[k],
                em[i].id,
            )
    }

    /// Postings have distinct keywords, ascending id lists, and none is
    /// empty.
    pub open spec fn spec_index_shape(im: Seq<PostingModel>) -> bool {
        &&& forall|a: int, b: int| 0 <= a < b < im.len() ==> im[a].keyword != im[b].keyword
        &&& forall|a: int| 0 <= a < im.len() ==> (#[trigger] im[a].ids).len() > 0
        &&& forall|a: int, i: int, j: int|
            0 <= a < im.len() && 0 <= i < j < im[a].ids.len() ==> #[trigger] im[a].ids[i]
                < #[trigger] im[a].ids[j]
    }

    /// The store's full invariant.
    pub open spec fn wf(self) -> bool {
        let em = self.entries_model();
        &&& Self::entries_sorted(em)
        &&& forall|i: int| 0 <= i < em.len() ==> (#[trigger] em[i].id) < self.spec_next_id()
        &&& em.len() <= self.spec_max_entries()
        &&& em.len() > 0 ==> self.spec_next_id() == em.last().id + 1
        &&& self.spec_next_id() >= 1
        &&& forall|i: int| 0 <= i < em.len() ==> Self::entry_kws_ok(#[trigger] em[i])
        &&& Self::spec_index_sound(em, self.index_model())
        &&& Self::spec_index_complete(em, self.index_model())
        &&& Self::spec_index_shape(self.index_model())
    }

    /// Creates a new store with the given capacity.
    pub fn new(max_entries: usize) -> (s: MemoryStore)
        ensures
            s.wf(),
            s.entries_model().len() == 0,
            s.spec_next_id() == 1,
            s.spec_max_entries() == max_entries,
    {
        let s = MemoryStore { entries: Vec::new(), index: Vec::new(), next_id: 1, max_entries };
        proof {
            assert(s.entries_model().len() == 0);
            assert(s.index_model().len() == 0);
        }
        s
    }

    /// How many entries the store holds.
    pub fn entry_count(&self) -> (n: usize)
        ensures
            n == self.entries_model().len(),
    {
        self.entries.len()
    }

    /// The capacity the store was made with.
    pub fn capacity(&self) -> (n: usize)
        ensures
            n == self.spec_max_entries(),
    {
        self.max_entries
    }

    /// The model of a freshly stored entry.
    pub open spec fn new_entry_model(id: u64, content: Seq<char>, kind: MemoryKind, source: Seq<
        char,
    >, timestamp: u64) -> EntryModel {
        EntryModel {
            id,
            content,
            kind,
            source,
            keywords: extract_kws(content),
            timestamp,
            access_count: 0,
        }
    }

    /// Entries after appending one and evicting oldest-first down to the
    /// capacity.
    pub open spec fn spec_evict(em: Seq<EntryModel>, max: nat) -> Seq<EntryModel> {
        if em.len() > max {
            em.skip(em.len() - max)
        } else {
            em
        }
    }

    /// Looks a keyword up in the index.
    fn find_posting(index: &Vec<Posting>, kw: &String) -> (r: Option<usize>)
        ensures
            match r {
                Some(a) => a < index.deep_view().len() && index.deep_view()[a as int].keyword
                    == kw@,
                None => forall|a: int|
                    0 <= a < index.deep_view().len() ==> index.deep_view()[a].keyword != kw@,
            },
    {
        let mut a: usize = 0;
        while a < index.len()
            invariant
                a <= index.deep_view().len(),
                forall|b: int| 0 <= b < a ==> index.deep_view()[b].keyword != kw@,
            decreases index.deep_view().len() - a,
        {
            if index[a].keyword == *kw {
                return Some(a);
            }
            a = a + 1;
        }
        None
    }

    /// Finds the position of an id in an ascending id list.
    fn find_id(ids: &Vec<u64>, id: u64) -> (r: Option<usize>)
        ensures
            match r {
                Some(j) => j < ids@.len() && ids@[j as int] == id,
                None => !ids@.contains(id),
            },
    {
        let mut j: usize = 0;
        while j < ids.len()
            invariant
                j <= ids@.len(),
                forall|m: int| 0 <= m < j ==> ids@[m] != id,
            decreases ids@.len() - j,
        {
            if ids[j] == id {
                return Some(j);
            }
            j = j + 1;
        }
        proof {
            if ids@.contains(id) {
                let w = choose|m: int| 0 <= m < ids@.len() && ids@[m] == id;
                assert(ids@[w] != id);
            }
        }
        None
    }

    /// Adds `id` under `kw` in the index, keeping the index invariants;
    /// `id` must be at least as large as every id already present, and the
    /// addition is skipped when the pair is already there.
    fn index_add(&mut self, kw: &String, id: u64)
        requires
            Self::spec_index_shape(old(self).index_model()),
            forall|a: int, j: int|
                0 <= a < old(self).index_model().len() && 0 <= j < old(self).index_model()[a].ids.len() ==> #[trigger] old(self).index_model()[a].ids[j] <= id,
        ensures
            final(self).entries == old(self).entries,
            final(self).next_id == old(self).next_id,
            final(self).max_entries == old(self).max_entries,
            Self::spec_index_shape(final(self).index_model()),
            forall|a: int, j: int|
                0 <= a < final(self).index_model().len() && 0 <= j < final(self).index_model()[a].ids.len() ==> #[trigger] final(self).index_model()[a].ids[j] <= id,
            forall|w: Seq<char>, v: u64|
                #[trigger] Self::kw_covered(old(self).index_model(), w, v) ==> Self::kw_covered(
                    final(self).index_model(),
                    w,
                    v,
                ),
            Self::kw_covered(final(self).index_model(), kw@, id),
            forall|w: Seq<char>, v: u64|
                #[trigger] Self::kw_covered(final(self).index_model(), w, v) ==> Self::kw_covered(
                    old(self).index_model(),
                    w,
                    v,
                ) || (w == kw@ && v == id),
    {
        let ghost im0 = self.index_model();
        match Self::find_posting(&self.index, kw) {
            Some(a) => {
                let ghost p0 = im0[a as int];
                let last_pos: usize = self.index[a].ids.len() - 1;
                if self.index[a].ids[last_pos] == id {
                    // the pair is already present: the posting is sorted and
                    // bounded by the id being added, so it sits at the end
                    proof {
                        assert(im0[a as int].ids[last_pos as int] == id);
                        assert(im0[a as int].ids.contains(id));
                        lemma_kw_covered_intro(im0, a as int, kw@, id);
                    }
                } else {
                    self.index[a].ids.push(id);
                    proof {
                        let im1 = self.index_model();
                        assert(im1 =~= im0.update(
                            a as int,
                            PostingModel { keyword: p0.keyword, ids: p0.ids.push(id) },
                        ));
                        assert(im1[a as int].ids =~= p0.ids.push(id));
                        assert(im1[a as int].ids[p0.ids.len() as int] == id);
                        assert(im1[a as int].ids.contains(id));
                        lemma_kw_covered_intro(im1, a as int, kw@, id);
                        // shape: the appended id is strictly above the rest
                        assert forall|b: int, i2: int, j2: int|
                            0 <= b < im1.len() && 0 <= i2 < j2 < im1[b].ids.len() implies #[trigger]
                        im1[b].ids[i2] < #[trigger] im1[b].ids[j2] by {
                            if b == a as int && j2 == p0.ids.len() {
                                assert(im1[b].ids[i2] == p0.ids[i2]);
                                assert(p0.ids[i2] <= id);
                                if p0.ids[i2] == id {
                                    if i2 < last_pos as int {
                                        assert(p0.ids[i2] < p0.ids[last_pos as int]);
                                    }
                                    assert(false);
                                }
                            } else if b == a as int {
                                assert(im1[b].ids[i2] == p0.ids[i2] && im1[b].ids[j2]
                                    == p0.ids[j2]);
                                assert(p0.ids[i2] < p0.ids[j2]);
                            } else {
                                assert(im1[b] == im0[b]);
                                assert(im0[b].ids[i2] < im0[b].ids[j2]);
                            }
                        }
                        assert forall|b: int, c: int| 0 <= b < c < im1.len() implies im1[b].keyword
                            != im1[c].keyword by {
                            assert(im1[b].keyword == im0[b].keyword && im1[c].keyword
                                == im0[c].keyword);
                        }
                        assert forall|b: int| 0 <= b < im1.len() implies (#[trigger] im1[b].ids).len()
                            > 0 by {
                            if b != a as int {
                                assert(im1[b] == im0[b]);
                            }
                        }
                        // memberships are preserved both ways
                        assert forall|w: Seq<char>, v: u64|
                            #[trigger] Self::kw_covered(im0, w, v) implies Self::kw_covered(
                            im1,
                            w,
                            v,
                        ) by {
                            let b = lemma_kw_covered_elim(im0, w, v);
                            if b == a as int {
                                let m = choose|m: int|
                                    0 <= m < p0.ids.len() && p0.ids[m] == v;
                                assert(im1[b].ids[m] == v);
                                assert(im1[b].ids.contains(v));
                            } else {
                                assert(im1[b] == im0[b]);
                            }
                            lemma_kw_covered_intro(im1, b, w, v);
                        }
                        assert forall|w: Seq<char>, v: u64|
                            #[trigger] Self::kw_covered(im1, w, v) implies Self::kw_covered(
                            im0,
                            w,
                            v,
                        ) || (w == kw@ && v == id) by {
                            let b = lemma_kw_covered_elim(im1, w, v);
                            if b == a as int {
                                let m = choose|m: int|
                                    0 <= m < im1[b].ids.len() && im1[b].ids[m] == v;
                                if m < p0.ids.len() {
                                    assert(p0.ids[m] == v);
                                    assert(im0[b].ids.contains(v));
                                    lemma_kw_covered_intro(im0, b, w, v);
                                } else {
                                    assert(v == id && w == kw@);
                                }
                            } else {
                                assert(im1[b] == im0[b]);
                                assert(im0[b].ids.contains(v));
                                lemma_kw_covered_intro(im0, b, w, v);
                            }
                        }
                    }
                }
            },
            None => {
                let p = Posting { keyword: kw.clone(), ids: Vec::new() };
                self.index.push(p);
                let last: usize = self.index.len() - 1;
                self.index[last].ids.push(id);
                proof {
                    let im1 = self.index_model();
                    assert(im1 =~= im0.push(PostingModel { keyword: kw@, ids: seq![id] }));
                    assert(im1[last as int].ids[0] == id);
                    assert(im1[last as int].ids.contains(id));
                    lemma_kw_covered_intro(im1, last as int, kw@, id);
                    assert forall|b: int, i2: int, j2: int|
                        0 <= b < im1.len() && 0 <= i2 < j2 < im1[b].ids.len() implies #[trigger]
                    im1[b].ids[i2] < #[trigger] im1[b].ids[j2] by {
                        assert(b < im0.len());
                        assert(im1[b] == im0[b]);
                        assert(im0[b].ids[i2] < im0[b].ids[j2]);
                    }
                    assert forall|b: int, c: int| 0 <= b < c < im1.len() implies im1[b].keyword
                        != im1[c].keyword by {
                        if c < im0.len() {
                            assert(im1[b] == im0[b] && im1[c] == im0[c]);
                        } else {
                            assert(im1[b] == im0[b]);
                            assert(im1[c].keyword == kw@);
                            assert(im0[b].keyword != kw@);
                        }
                    }
                    assert forall|b: int| 0 <= b < im1.len() implies (#[trigger] im1[b].ids).len()
                        > 0 by {
                        if b < im0.len() {
                            assert(im1[b] == im0[b]);
                        }
                    }
                    assert forall|w: Seq<char>, v: u64|
                        #[trigger] Self::kw_covered(im0, w, v) implies Self::kw_covered(
                        im1,
                        w,
                        v,
                    ) by {
                        let b = lemma_kw_covered_elim(im0, w, v);
                        assert(im1[b] == im0[b]);
                        lemma_kw_covered_intro(im1, b, w, v);
                    }
                    assert forall|w: Seq<char>, v: u64|
                        #[trigger] Self::kw_covered(im1, w, v) implies Self::kw_covered(
                        im0,
                        w,
                        v,
                    ) || (w == kw@ && v == id) by {
                        let b = lemma_kw_covered_elim(im1, w, v);
                        if b < im0.len() {
                            assert(im1[b] == im0[b]);
                            lemma_kw_covered_intro(im0, b, w, v);
                        } else {
                            let m = choose|m: int|
                                0 <= m < im1[b].ids.len() && im1[b].ids[m] == v;
                            assert(v == id && w == kw@);
                        }
                    }
                }
            },
        }
    }

    /// The invariant without the capacity bound: used while eviction is
    /// in progress.
    pub open spec fn wf_core(self) -> bool {
        let em = self.entries_model();
        &&& Self::entries_sorted(em)
        &&& forall|i: int| 0 <= i < em.len() ==> (#[trigger] em[i].id) < self.spec_next_id()
        &&& em.len() > 0 ==> self.spec_next_id() == em.last().id + 1
        &&& self.spec_next_id() >= 1
        &&& forall|i: int| 0 <= i < em.len() ==> Self::entry_kws_ok(#[trigger] em[i])
        &&& Self::spec_index_sound(em, self.index_model())
        &&& Self::spec_index_complete(em, self.index_model())
        &&& Self::spec_index_shape(self.index_model())
    }

    /// Stores a new memory entry and returns its id. Keywords are
    /// extracted from the content once, here; the capacity is enforced by
    /// evicting the oldest entries.
    pub fn store(&mut self, content: &str, kind: MemoryKind, source: &str) -> (id: u64)
        requires
            old(self).wf(),
            old(self).spec_next_id() < u64::MAX,
        ensures
            final(self).wf(),
            id == old(self).spec_next_id(),
            final(self).spec_next_id() == id + 1,
            final(self).spec_max_entries() == old(self).spec_max_entries(),
            final(self).entries_model() == Self::spec_evict(
                old(self).entries_model().push(
                    Self::new_entry_model(id, content@, kind, source@, 0),
                ),
                old(self).spec_max_entries() as nat,
            ),
    {
        let ghost em0 = self.entries_model();
        let id = self.next_id;
        self.next_id = self.next_id + 1;
        let kws = extract_keywords(content);
        proof {
            crate::keywords::lemma_extract_kws_word_chars(content@);
        }
        let entry = MemoryEntry {
            id,
            content: content.to_owned(),
            kind,
            source: source.to_owned(),
            keywords: kws,
            timestamp: 0,
            access_count: 0,
        };
        let ghost e = entry@;
        self.entries.push(entry);
        let ghost grown = self.entries_model();
        proof {
            assert(grown =~= em0.push(e));
            assert(e == Self::new_entry_model(id, content@, kind, source@, 0));
            assert(Self::entry_kws_ok(e)) by {
                assert forall|k: int| 0 <= k < e.keywords.len() implies kw_ok(
                    #[trigger] e.keywords[k],
                ) by {
                    assert(crate::keywords::all_word_chars(extract_kws(content@)[k]));
                    crate::keywords::lemma_extracted_kw_safe(e.keywords[k]);
                    lemma_extracted_kw_nonempty(content@, k);
                }
            }
            // the untouched index is sound for the grown entry list, and
            // complete for the old entries
            let im = self.index_model();
            assert forall|w: Seq<char>, v: u64|
                #[trigger] Self::kw_covered(im, w, v) implies Self::id_justified(grown, v, w) by {
                let i0 = lemma_id_justified_elim(em0, v, w);
                assert(grown[i0] == em0[i0]);
                lemma_id_justified_intro(grown, i0, v, w);
            }
            assert forall|a: int, j: int|
                0 <= a < im.len() && 0 <= j < im[a].ids.len() implies #[trigger] im[a].ids[j]
                <= id by {
                assert(im[a].ids.contains(im[a].ids[j]));
                lemma_kw_covered_intro(im, a, im[a].keyword, im[a].ids[j]);
                let i0 = lemma_id_justified_elim(em0, im[a].ids[j], im[a].keyword);
                assert(em0[i0].id < id);
            }
            assert forall|i: int, k2: int|
                0 <= i < em0.len() && 0 <= k2 < em0[i].keywords.len() implies Self::kw_covered(
                im,
                #[trigger] grown[i].keywords[k2],
                grown[i].id,
            ) by {
                assert(grown[i] == em0[i]);
                assert(Self::kw_covered(im, em0[i].keywords[k2], em0[i].id));
            }
        }
        // Index every keyword of the new entry.
        let n_kws: usize = self.entries[self.entries.len() - 1].keywords.len();
        let mut k: usize = 0;
        let ghost li = (grown.len() - 1) as int;
        while k < n_kws
            invariant
                self.entries_model() == grown,
                grown.len() >= 1,
                li == grown.len() - 1,
                grown[li] == e,
                e == Self::new_entry_model(id, content@, kind, source@, 0),
                n_kws == e.keywords.len(),
                k <= n_kws,
                self.next_id == id + 1,
                self.max_entries == old(self).max_entries,
                id == old(self).spec_next_id(),
                Self::entries_sorted(em0),
                grown =~= em0.push(e),
                forall|i: int| 0 <= i < em0.len() ==> (#[trigger] em0[i].id) < id,
                Self::spec_index_shape(self.index_model()),
                forall|a: int, j: int|
                    0 <= a < self.index_model().len() && 0 <= j < self.index_model()[a].ids.len()
                        ==> #[trigger] self.index_model()[a].ids[j] <= id,
                Self::spec_index_sound(grown, self.index_model()),
                forall|i: int, k2: int|
                    0 <= i < em0.len() && 0 <= k2 < em0[i].keywords.len() ==> Self::kw_covered(
                        self.index_model(),
                        #[trigger] grown[i].keywords[k2],
                        grown[i].id,
                    ),
                forall|k2: int|
                    0 <= k2 < k ==> Self::kw_covered(
                        self.index_model(),
                        #[trigger] e.keywords[k2],
                        id,
                    ),
            decreases n_kws - k,
        {
            let kw = self.entries[self.entries.len() - 1].keywords[k].clone();
            let ghost im_before = self.index_model();
            proof {
                assert(kw@ == e.keywords[k as int]) by {
                    assert(self.entries@[li].deep_view() == e);
                    assert(e.keywords[k as int] == self.entries@[li].keywords.deep_view()[
                        k as int]);
                    assert(self.entries@[li].keywords.deep_view()[k as int]
                        == self.entries@[li].keywords@[k as int]@);
                }
            }
            self.index_add(&kw, id);
            proof {
                let im1 = self.index_model();
                assert forall|w: Seq<char>, v: u64|
                    #[trigger] Self::kw_covered(im1, w, v) implies Self::id_justified(
                    grown,
                    v,
                    w,
                ) by {
                    if Self::kw_covered(im_before, w, v) {
                        assert(Self::id_justified(grown, v, w));
                    } else {
                        assert(w == kw@ && v == id);
                        assert(grown[li].id == id);
                        assert(grown[li].keywords[k as int] == kw@);
                        assert(grown[li].keywords.contains(kw@));
                        lemma_id_justified_intro(grown, li, id, kw@);
                    }
                }
                assert forall|i: int, k2: int|
                    0 <= i < em0.len() && 0 <= k2 < em0[i].keywords.len() implies Self::kw_covered(
                    im1,
                    #[trigger] grown[i].keywords[k2],
                    grown[i].id,
                ) by {
                    assert(Self::kw_covered(im_before, grown[i].keywords[k2], grown[i].id));
                }
                assert forall|k2: int| 0 <= k2 < k + 1 implies Self::kw_covered(
                    im1,
                    #[trigger] e.keywords[k2],
                    id,
                ) by {
                    if k2 < k {
                        assert(Self::kw_covered(im_before, e.keywords[k2], id));
                    } else {
                        assert(e.keywords[k2] == kw@);
                    }
                }
            }
            k = k + 1;
        }
        proof {
            assert(Self::spec_index_complete(grown, self.index_model())) by {
                assert forall|i: int, k2: int|
                    0 <= i < grown.len() && 0 <= k2 < grown[i].keywords.len() implies Self::kw_covered(
                    self.index_model(),
                    #[trigger] grown[i].keywords[k2],
                    grown[i].id,
                ) by {
                    if i == li {
                        assert(grown[i].keywords[k2] == e.keywords[k2]);
                        assert(Self::kw_covered(self.index_model(), e.keywords[k2], id));
                    } else {
                        assert(grown[i] == em0[i]);
                    }
                }
            }
            assert(Self::entries_sorted(grown)) by {
                assert forall|i: int, j: int| 0 <= i < j < grown.len() implies grown[i].id
                    < grown[j].id by {
                    if j == li {
                        assert(grown[i].id == em0[i].id);
                    }
                }
            }
            assert(forall|i: int| 0 <= i < grown.len() ==> (#[trigger] grown[i].id) < self.next_id);
            assert(forall|i: int|
                0 <= i < grown.len() ==> Self::entry_kws_ok(#[trigger] grown[i])) by {
                assert(forall|i: int|
                    0 <= i < em0.len() ==> Self::entry_kws_ok(#[trigger] em0[i]));
                assert(forall|i: int| 0 <= i < em0.len() ==> grown[i] == em0[i]);
            }
            assert(self.wf_core());
            assert(grown.len() <= self.max_entries + 1);
        }
        // Evict oldest entries while over capacity.
        while self.entries.len() > self.max_entries
            invariant
                self.wf_core(),
                self.next_id == id + 1,
                self.max_entries == old(self).max_entries,
                self.entries_model().len() <= grown.len(),
                grown.len() <= self.max_entries + 1,
                self.entries_model() == grown || self.entries_model() == Self::spec_evict(
                    grown,
                    self.max_entries as nat,
                ),
                self.entries_model().len() > self.max_entries ==> self.entries_model() == grown,
            decreases self.entries_model().len(),
        {
            self.remove_oldest();
            proof {
                assert(self.entries_model() =~= Self::spec_evict(grown, self.max_entries as nat));
            }
        }
        proof {
            if self.entries_model() == grown {
                assert(self.entries_model() =~= Self::spec_evict(grown, self.max_entries as nat));
            }
        }
        id
    }

    /// Finds the position of the entry with the given id.
    fn position_of(&self, id: u64) -> (r: Option<usize>)
        ensures
            match r {
                Some(i) => i < self.entries_model().len() && self.entries_model()[i as int].id
                    == id,
                None => !Self::spec_has_id(self.entries_model(), id),
            },
    {
        let mut i: usize = 0;
        while i < self.entries.len()
            invariant
                i <= self.entries_model().len(),
                forall|m: int| 0 <= m < i ==> self.entries_model()[m].id != id,
            decreases self.entries_model().len() - i,
        {
            if self.entries[i].id == id {
                proof {
                    assert(self.entries@[i as int].deep_view() == self.entries_model()[i as int]);
                }
                return Some(i);
            }
            proof {
                assert(self.entries@[i as int].deep_view() == self.entries_model()[i as int]);
            }
            i = i + 1;
        }
        proof {
            if Self::spec_has_id(self.entries_model(), id) {
                let w = choose|m: int|
                    0 <= m < self.entries_model().len() && self.entries_model()[m].id == id;
                assert(self.entries_model()[w].id != id);
            }
        }
        None
    }

    /// Replaces the entry at `i` with one of the same id and keywords,
    /// keeping the whole invariant.
    proof fn lemma_wf_entry_update(self, other: MemoryStore, i: int, e2: EntryModel)
        requires
            self.wf(),
            0 <= i < self.entries_model().len(),
            e2.id == self.entries_model()[i].id,
            e2.keywords == self.entries_model()[i].keywords,
            other.entries_model() == self.entries_model().update(i, e2),
            other.index_model() == self.index_model(),
            other.spec_next_id() == self.spec_next_id(),
            other.spec_max_entries() == self.spec_max_entries(),
        ensures
            other.wf(),
    {
        let em0 = self.entries_model();
        let em1 = other.entries_model();
        let im = self.index_model();
        assert(em1.len() == em0.len());
        assert forall|p: int, q: int| 0 <= p < q < em1.len() implies em1[p].id < em1[q].id by {
            assert(em0[p].id < em0[q].id);
            assert(em1[p].id == em0[p].id && em1[q].id == em0[q].id);
        }
        assert forall|p: int| 0 <= p < em1.len() implies (#[trigger] em1[p].id)
            < other.spec_next_id() by {
            assert(em1[p].id == em0[p].id);
        }
        if em1.len() > 0 {
            assert(em1.last().id == em0.last().id);
        }
        assert forall|p: int| 0 <= p < em1.len() implies Self::entry_kws_ok(#[trigger] em1[p]) by {
            assert(Self::entry_kws_ok(em0[p]));
            assert(em1[p].keywords == em0[p].keywords);
        }
        assert forall|w: Seq<char>, v: u64|
            #[trigger] Self::kw_covered(im, w, v) implies Self::id_justified(em1, v, w) by {
            let i0 = lemma_id_justified_elim(em0, v, w);
            assert(em1[i0].id == em0[i0].id && em1[i0].keywords == em0[i0].keywords);
            lemma_id_justified_intro(em1, i0, v, w);
        }
        assert forall|p: int, k2: int|
            0 <= p < em1.len() && 0 <= k2 < em1[p].keywords.len() implies Self::kw_covered(
            im,
            #[trigger] em1[p].keywords[k2],
            em1[p].id,
        ) by {
            assert(em1[p].keywords == em0[p].keywords && em1[p].id == em0[p].id);
            assert(Self::kw_covered(im, em0[p].keywords[k2], em0[p].id));
        }
    }

    /// Stores a new entry with an explicit timestamp.
    pub fn store_with_timestamp(
        &mut self,
        content: &str,
        kind: MemoryKind,
        source: &str,
        timestamp: u64,
    ) -> (id: u64)
        requires
            old(self).wf(),
            old(self).spec_next_id() < u64::MAX,
        ensures
            final(self).wf(),
            id == old(self).spec_next_id(),
            final(self).spec_next_id() == id + 1,
            final(self).spec_max_entries() == old(self).spec_max_entries(),
            final(self).entries_model() == Self::spec_evict(
                old(self).entries_model().push(
                    Self::new_entry_model(id, content@, kind, source@, timestamp),
                ),
                old(self).spec_max_entries() as nat,
            ),
    {
        let ghost em0 = self.entries_model();
        let id = self.store(content, kind, source);
        let ghost em1 = self.entries_model();
        let ghost e0 = Self::new_entry_model(id, content@, kind, source@, 0);
        let ghost e1 = Self::new_entry_model(id, content@, kind, source@, timestamp);
        let n = self.entries.len();
        if n > 0 && self.entries[n - 1].id == id {
            let mut en = self.entries[n - 1].duplicate();
            en.timestamp = timestamp;
            let ghost pre = *self;
            self.entries.set(n - 1, en);
            proof {
                let li = (em1.len() - 1) as int;
                assert(em1[li] == e0) by {
                    assert(em0.push(e0).last() == e0);
                    assert(em1 == Self::spec_evict(em0.push(e0), pre.spec_max_entries() as nat));
                    if em0.push(e0).len() > pre.spec_max_entries() {
                        assert(em1.last() == em0.push(e0).last());
                    }
                }
                assert(en@ == EntryModel { timestamp, ..e0 });
                assert(en@ == e1);
                assert(self.entries_model() =~= em1.update(li, e1));
                pre.lemma_wf_entry_update(*self, li, e1);
                assert(self.entries_model() =~= Self::spec_evict(
                    em0.push(e1),
                    old(self).spec_max_entries() as nat,
                ));
            }
        } else {
            proof {
                // the entry was evicted on arrival: the capacity is zero
                assert(self.entries.len() == 0) by {
                    if self.entries.len() > 0 {
                        assert(em1.last().id == id) by {
                            assert(em0.push(e0).last() == e0);
                            if em0.push(e0).len() > self.spec_max_entries() {
                                assert(em1.last() == em0.push(e0).last());
                            }
                        }
                        assert(self.entries@[self.entries@.len() - 1].deep_view() == em1.last());
                    }
                }
                assert(em1.len() == 0);
                assert(Self::spec_evict(em0.push(e1), old(self).spec_max_entries() as nat).len()
                    == 0);
                assert(self.entries_model() =~= Self::spec_evict(
                    em0.push(e1),
                    old(self).spec_max_entries() as nat,
                ));
            }
        }
        id
    }

    /// Recalls an entry by id, strengthening the memory: its access count
    /// rises by one (it is left alone only at the counter's maximum).
    pub fn get(&mut self, id: u64) -> (r: Option<&MemoryEntry>)
        requires
            old(self).wf(),
        ensures
            final(self).wf(),
            final(self).spec_next_id() == old(self).spec_next_id(),
            final(self).spec_max_entries() == old(self).spec_max_entries(),
            match r {
                Some(e) => {
                    let em = old(self).entries_model();
                    let i = Self::idx_of(em, id);
                    &&& Self::spec_has_id(em, id)
                    &&& e@ == EntryModel {
                        access_count: if em[i].access_count < u64::MAX {
                            (em[i].access_count + 1) as u64
                        } else {
                            em[i].access_count
                        },
                        ..em[i]
                    }
                    &&& final(self).entries_model() == em.update(i, e@)
                },
                None => {
                    &&& !Self::spec_has_id(old(self).entries_model(), id)
                    &&& final(self).entries_model() == old(self).entries_model()
                },
            },
    {
        let ghost em = self.entries_model();
        match self.position_of(id) {
            Some(i) => {
                let mut en = self.entries[i].duplicate();
                if en.access_count < u64::MAX {
                    en.access_count = en.access_count + 1;
                }
                let ghost pre = *self;
                let ghost e2 = en@;
                self.entries.set(i, en);
                proof {
                    assert(Self::spec_has_id(em, id)) by {
                        assert(em[i as int].id == id);
                    }
                    let ix = Self::idx_of(em, id);
                    assert(em[ix].id == id);
                    assert(ix == i as int) by {
                        if ix != i as int {
                            if ix < i as int {
                                assert(em[ix].id < em[i as int].id);
                            } else {
                                assert(em[i as int].id < em[ix].id);
                            }
                        }
                    }
                    assert(self.entries_model() =~= em.update(i as int, e2));
                    pre.lemma_wf_entry_update(*self, i as int, e2);
                }
                Some(&self.entries[i])
            },
            None => None,
        }
    }

    /// Reads an entry by id without touching its access count.
    pub fn peek(&self, id: u64) -> (r: Option<&MemoryEntry>)
        requires
            self.wf(),
        ensures
            match r {
                Some(e) => Self::spec_has_id(self.entries_model(), id) && e@
                    == self.entries_model()[Self::idx_of(self.entries_model(), id)],
                None => !Self::spec_has_id(self.entries_model(), id),
            },
    {
        let ghost em = self.entries_model();
        match self.position_of(id) {
            Some(i) => {
                proof {
                    assert(Self::spec_has_id(em, id)) by {
                        assert(em[i as int].id == id);
                    }
                    let ix = Self::idx_of(em, id);
                    assert(em[ix].id == id);
                    assert(ix == i as int) by {
                        if ix < i as int {
                            assert(em[ix].id < em[i as int].id);
                        }
                        if ix > i as int {
                            assert(em[i as int].id < em[ix].id);
                        }
                    }
                    assert(self.entries@[i as int].deep_view() == em[i as int]);
                }
                Some(&self.entries[i])
            },
            None => None,
        }
    }

    /// The `count` most recent entries, newest first.
    pub fn recent(&self, count: usize) -> (r: Vec<&MemoryEntry>)
        ensures
            r@.len() == if count as nat <= self.entries_model().len() {
                count as nat
            } else {
                self.entries_model().len()
            },
            forall|p: int|
                0 <= p < r@.len() ==> (#[trigger] r@[p])@ == self.entries_model()[
                    self.entries_model().len() - 1 - p],
    {
        let n = self.entries.len();
        let take = if count <= n {
            count
        } else {
            n
        };
        let mut r: Vec<&MemoryEntry> = Vec::new();
        let mut p: usize = 0;
        while p < take
            invariant
                take <= n,
                n == self.entries_model().len(),
                p <= take,
                r@.len() == p,
                forall|q: int|
                    0 <= q < p ==> (#[trigger] r@[q])@ == self.entries_model()[n - 1 - q],
            decreases take - p,
        {
            r.push(&self.entries[n - 1 - p]);
            proof {
                assert(self.entries@[n - 1 - p].deep_view() == self.entries_model()[n - 1 - p]);
            }
            p = p + 1;
        }
        r
    }

    /// How often keyword `w` occurs in a keyword list.
    pub open spec fn cnt_kw(ws: Seq<Seq<char>>, w: Seq<char>) -> nat
        decreases ws.len(),
    {
        if ws.len() == 0 {
            0
        } else {
            (if ws[0] == w {
                1 as nat
            } else {
                0 as nat
            }) + Self::cnt_kw(ws.drop_first(), w)
        }
    }

    /// How many entries hold keyword `w`: the document frequency.
    pub open spec fn doc_freq(em: Seq<EntryModel>, w: Seq<char>) -> nat
        decreases em.len(),
    {
        if em.len() == 0 {
            0
        } else {
            (if em[0].keywords.contains(w) {
                1 as nat
            } else {
                0 as nat
            }) + Self::doc_freq(em.drop_first(), w)
        }
    }

    /// Addition saturating at the largest `u64`.
    pub open spec fn sat_add64(a: nat, b: nat) -> nat {
        if a + b > u64::MAX {
            u64::MAX as nat
        } else {
            a + b
        }
    }

    /// Multiplication saturating at the largest `u64`.
    pub open spec fn sat_mul64(a: nat, b: nat) -> nat {
        if a * b > u64::MAX {
            u64::MAX as nat
        } else {
            a * b
        }
    }

    /// The score one query term contributes to one entry: term frequency
    /// times the integer approximation of inverse document frequency,
    /// boosted by the capped access count; zero when the term is absent.
    pub open spec fn term_score(em: Seq<EntryModel>, e: EntryModel, w: Seq<char>) -> nat {
        let tf = Self::cnt_kw(e.keywords, w);
        if tf == 0 {
            0
        } else {
            let idf = em.len() / Self::doc_freq(em, w);
            let boost = 1 + (if e.access_count > 5 {
                5 as nat
            } else {
                e.access_count as nat
            });
            Self::sat_mul64(Self::sat_mul64(tf, idf), boost)
        }
    }

    /// The saturating sum of the first `t` query terms' scores.
    pub open spec fn score_upto(em: Seq<EntryModel>, e: EntryModel, qs: Seq<Seq<char>>, t: int)
        -> nat
        decreases t,
    {
        if t <= 0 {
            0
        } else {
            Self::sat_add64(
                Self::score_upto(em, e, qs, t - 1),
                Self::term_score(em, e, qs[t - 1]),
            )
        }
    }

    /// An entry's total score for a query, clamped into `u32`.
    pub open spec fn entry_score(em: Seq<EntryModel>, e: EntryModel, qs: Seq<Seq<char>>) -> u32 {
        let s = Self::score_upto(em, e, qs, qs.len() as int);
        if s > u32::MAX {
            u32::MAX
        } else {
            s as u32
        }
    }

    /// Whether the entry holds at least one query term.
    pub open spec fn is_candidate(e: EntryModel, qs: Seq<Seq<char>>) -> bool {
        exists|t: int| 0 <= t < qs.len() && Self::cnt_kw(e.keywords, #[trigger] qs[t]) > 0
    }

    /// The scored candidates of a prefix of the entry list, in entry
    /// order.
    pub open spec fn spec_hits(
        pre: Seq<EntryModel>,
        em: Seq<EntryModel>,
        qs: Seq<Seq<char>>,
    ) -> Seq<(u64, u32)>
        decreases pre.len(),
    {
        if pre.len() == 0 {
            Seq::empty()
        } else {
            (if Self::is_candidate(pre[0], qs) {
                seq![(pre[0].id, Self::entry_score(em, pre[0], qs))]
            } else {
                Seq::empty()
            }) + Self::spec_hits(pre.drop_first(), em, qs)
        }
    }

    /// The ranking order on result pairs, as a named function value.
    pub open spec fn rank_ord() -> spec_fn((u64, u32), (u64, u32)) -> bool {
        |x: (u64, u32), y: (u64, u32)| ranks_before(x, y)
    }

    /// The search results for a query, as a function of the entries: the
    /// scored candidates, ranked by score descending and ascending id on
    /// ties.
    pub open spec fn sorted_hits(em: Seq<EntryModel>, qs: Seq<Seq<char>>) -> Seq<(u64, u32)> {
        Self::spec_hits(em, em, qs).sort_by(Self::rank_ord())
    }

    /// A result list ranked by score descending, ties by ascending id.
    pub open spec fn ranked(r: Seq<(u64, u32)>) -> bool {
        forall|p: int, q: int|
            0 <= p < q < r.len() ==> (#[trigger] r[p]).1 > (#[trigger] r[q]).1 || (r[p].1 == r[q].1
                && r[p].0 <= r[q].0)
    }

    /// Counts the occurrences of `w` in a keyword list.
    fn count_kw(ws: &Vec<String>, w: &String) -> (n: u64)
        ensures
            n == Self::cnt_kw(ws.deep_view(), w@),
    {
        let n_ws: usize = ws.len();
        let mut n: u64 = 0;
        let mut i: usize = 0;
        proof {
            lemma_cnt_kw_prefix(ws.deep_view(), w@, 0);
        }
        while i < n_ws
            invariant
                n_ws == ws@.len(),
                i <= ws@.len(),
                n == Self::cnt_kw(ws.deep_view().take(i as int), w@),
                n <= i,
        decreases ws@.len() - i,
        {
            if ws[i] == *w {
                n = n + 1;
            }
            proof {
                assert(ws.deep_view()[i as int] == ws@[i as int]@);
                lemma_cnt_kw_step(ws.deep_view(), w@, i as int);
            }
            i = i + 1;
        }
        proof {
            assert(ws.deep_view().take(ws@.len() as int) =~= ws.deep_view());
        }
        n
    }

    /// Counts the entries holding keyword `w`.
    fn count_docs(&self, w: &String) -> (n: u64)
        ensures
            n == Self::doc_freq(self.entries_model(), w@),
    {
        let ghost m = self.entries_model();
        let n_e: usize = self.entries.len();
        let mut n: u64 = 0;
        let mut i: usize = 0;
        while i < n_e
            invariant
                m == self.entries_model(),
                n_e == m.len(),
                i <= m.len(),
                n == Self::doc_freq(m.take(i as int), w@),
                n <= i,
            decreases m.len() - i,
        {
            let has = Self::count_kw(&self.entries[i].keywords, w) > 0;
            proof {
                assert(self.entries@[i as int].deep_view() == m[i as int]);
                lemma_cnt_kw_contains(m[i as int].keywords, w@);
                lemma_doc_freq_step(m, w@, i as int);
            }
            if has {
                n = n + 1;
            }
            i = i + 1;
        }
        proof {
            assert(m.take(m.len() as int) =~= m);
        }
        n
    }

    /// Searches for entries matching the query: every entry holding at
    /// least one query term is returned with its score, ranked by score
    /// descending and ascending id on ties.
    pub fn search(&self, query: &str) -> (r: Vec<(u64, u32)>)
        requires
            self.wf(),
        ensures
            r@ == Self::sorted_hits(self.entries_model(), extract_kws(query@)),
            r@.to_multiset() == Self::spec_hits(
                self.entries_model(),
                self.entries_model(),
                extract_kws(query@),
            ).to_multiset(),
            Self::ranked(r@),
    {
        let qv = extract_keywords(query);
        let ghost qs = extract_kws(query@);
        let ghost em = self.entries_model();
        if qv.len() == 0 {
            proof {
                broadcast use vstd::seq_lib::group_to_multiset_ensures;

                lemma_spec_hits_no_candidates(em, em, qs);
                assert(Seq::<(u64, u32)>::empty().to_multiset() =~= Self::spec_hits(
                    em,
                    em,
                    qs,
                ).to_multiset());
                lemma_rank_total_ordering();
                Self::spec_hits(em, em, qs).lemma_sort_by_ensures(Self::rank_ord());
                assert(Self::sorted_hits(em, qs).to_multiset().len() == 0);
                assert(Self::sorted_hits(em, qs).len() == 0);
                assert(Seq::<(u64, u32)>::empty() =~= Self::sorted_hits(em, qs));
            }
            return Vec::new();
        }
        let mut scored: Vec<(u64, u32)> = Vec::new();
        let mut i: usize = 0;
        proof {
            assert(em.take(0) =~= Seq::<EntryModel>::empty());
            assert(scored@ =~= Self::spec_hits(em.take(0), em, qs));
        }
        while i < self.entries.len()
            invariant
                self.wf(),
                em == self.entries_model(),
                qs == qv.deep_view(),
                i <= em.len(),
                scored@ == Self::spec_hits(em.take(i as int), em, qs),
            decreases em.len() - i,
        {
            let ghost e = em[i as int];
            proof {
                assert(self.entries@[i as int].deep_view() == e);
            }
            let mut acc: u64 = 0;
            let mut any: bool = false;
            let mut t: usize = 0;
            while t < qv.len()
                invariant
                    self.wf(),
                    em == self.entries_model(),
                    qs == qv.deep_view(),
                    i < em.len(),
                    e == em[i as int],
                    self.entries@[i as int].deep_view() == e,
                    t <= qs.len(),
                    acc == Self::score_upto(em, e, qs, t as int),
                    any == exists|t2: int|
                        0 <= t2 < t && Self::cnt_kw(e.keywords, #[trigger] qs[t2]) > 0,
                decreases qs.len() - t,
            {
                let ghost w = qs[t as int];
                proof {
                    assert(qv.deep_view()[t as int] == qv@[t as int]@);
                }
                let tf = Self::count_kw(&self.entries[i].keywords, &qv[t]);
                if tf > 0 {
                    any = true;
                    proof {
                        lemma_cnt_kw_contains(e.keywords, w);
                        lemma_doc_freq_pos(em, w, i as int);
                    }
                    let df = self.count_docs(&qv[t]);
                    let total: u64 = self.entries.len() as u64;
                    let idf: u64 = total / df;
                    let ac = self.entries[i].access_count;
                    let boost: u64 = 1 + (if ac > 5 {
                        5
                    } else {
                        ac
                    });
                    let t1 = match tf.checked_mul(idf) {
                        Some(v) => v,
                        None => u64::MAX,
                    };
                    let t2 = match t1.checked_mul(boost) {
                        Some(v) => v,
                        None => u64::MAX,
                    };
                    let t3 = match acc.checked_add(t2) {
                        Some(v) => v,
                        None => u64::MAX,
                    };
                    proof {
                        assert(Self::term_score(em, e, w) == Self::sat_mul64(
                            Self::sat_mul64(tf as nat, idf as nat),
                            boost as nat,
                        ));
                        assert(t2 == Self::term_score(em, e, w));
                        assert(t3 == Self::sat_add64(acc as nat, t2 as nat));
                    }
                    acc = t3;
                } else {
                    proof {
                        assert(Self::term_score(em, e, w) == 0);
                        assert(Self::sat_add64(acc as nat, 0) == acc as nat);
                    }
                }
                t = t + 1;
            }
            if any {
                let score: u32 = if acc > u32::MAX as u64 {
                    u32::MAX
                } else {
                    acc as u32
                };
                let id = self.entries[i].id;
                proof {
                    assert(Self::is_candidate(e, qs));
                    assert(score == Self::entry_score(em, e, qs));
                    assert(id == e.id);
                }
                scored.push((id, score));
                proof {
                    lemma_spec_hits_step(em, em, qs, i as int);
                    assert(scored@ =~= Self::spec_hits(em.take(i + 1), em, qs));
                }
            } else {
                proof {
                    assert(!Self::is_candidate(e, qs)) by {
                        if Self::is_candidate(e, qs) {
                            let t2 = choose|t2: int|
                                0 <= t2 < qs.len() && Self::cnt_kw(e.keywords, #[trigger] qs[t2])
                                    > 0;
                            assert(exists|t3: int|
                                0 <= t3 < qs.len() && Self::cnt_kw(e.keywords, #[trigger] qs[t3])
                                    > 0);
                        }
                    }
                    lemma_spec_hits_step(em, em, qs, i as int);
                    assert(scored@ =~= Self::spec_hits(em.take(i + 1), em, qs));
                }
            }
            i = i + 1;
        }
        proof {
            assert(em.take(em.len() as int) =~= em);
        }
        let out = sort_ranked(scored);
        proof {
            lemma_rank_total_ordering();
            Self::spec_hits(em, em, qs).lemma_sort_by_ensures(Self::rank_ord());
            assert(vstd::relations::sorted_by(out@, Self::rank_ord())) by {
                assert forall|p: int, q: int| 0 <= p < q < out@.len() implies #[trigger] Self::rank_ord()(
                    out@[p],
                    out@[q],
                ) by {
                    assert(ranks_before(out@[p], out@[q]));
                }
            }
            assert(vstd::relations::sorted_by(Self::sorted_hits(em, qs), Self::rank_ord()));
            vstd::seq_lib::lemma_sorted_unique(out@, Self::sorted_hits(em, qs), Self::rank_ord());
            assert(out@ =~= Self::sorted_hits(em, qs));
        }
        out
    }

    /// One persisted record:
    /// `id|kind|source|timestamp|access_count|content|kw1,kw2,...`, with
    /// source and content escaped.
    pub open spec fn ser_entry(e: EntryModel) -> Seq<char> {
        crate::text::dec_digits(e.id as nat) + seq!['|'] + e.kind.spec_tag() + seq!['|']
            + crate::codec::escape_seq(e.source) + seq!['|'] + crate::text::dec_digits(
            e.timestamp as nat,
        ) + seq!['|'] + crate::text::dec_digits(e.access_count as nat) + seq!['|']
            + crate::codec::escape_seq(e.content) + seq!['|'] + crate::codec::join_char(
            e.keywords,
            ',',
        )
    }

    /// The persisted store: one record per entry, each ended by a line
    /// feed.
    pub open spec fn ser_store(em: Seq<EntryModel>) -> Seq<char>
        decreases em.len(),
    {
        if em.len() == 0 {
            Seq::empty()
        } else {
            Self::ser_entry(em[0]) + seq!['\n'] + Self::ser_store(em.drop_first())
        }
    }

    /// Joins keywords with commas.
    fn join_keywords(ws: &Vec<String>) -> (r: String)
        ensures
            r@ == crate::codec::join_char(ws.deep_view(), ','),
    {
        let mut r = String::new();
        if ws.len() == 0 {
            proof {
                assert(crate::codec::join_char(ws.deep_view(), ',').len() == 0);
                assert(r@ =~= crate::codec::join_char(ws.deep_view(), ','));
            }
            return r;
        }
        let mut i: usize = 0;
        while i < ws.len()
            invariant
                1 <= ws@.len(),
                i <= ws@.len(),
                i >= 1 ==> r@ == crate::codec::join_char(ws.deep_view().take(i as int), ','),
                i == 0 ==> r@.len() == 0,
            decreases ws@.len() - i,
        {
            if i > 0 {
                crate::text::push_char(&mut r, ',');
            }
            r.append(ws[i].as_str());
            proof {
                assert(ws.deep_view()[i as int] == ws@[i as int]@);
                if i == 0 {
                    assert(ws.deep_view().take(1) =~= seq![ws.deep_view()[0]]);
                    assert(crate::codec::join_char(ws.deep_view().take(1), ',')
                        == ws.deep_view()[0]);
                    assert(r@ =~= ws.deep_view()[0]);
                } else {
                    lemma_join_step(ws.deep_view(), i as int);
                    assert(r@ =~= crate::codec::join_char(ws.deep_view().take(i as int), ',')
                        + seq![','] + ws.deep_view()[i as int]);
                }
            }
            i = i + 1;
        }
        proof {
            assert(ws.deep_view().take(ws@.len() as int) =~= ws.deep_view());
        }
        r
    }

    /// Serializes the entire store to pipe-delimited text, one entry per
    /// line in ascending id order.
    pub fn serialize(&self) -> (r: String)
        ensures
            r@ == Self::ser_store(self.entries_model()),
    {
        let ghost em = self.entries_model();
        let mut r = String::new();
        let mut i: usize = 0;
        proof {
            assert(em.take(0).len() == 0);
            assert(Self::ser_store(em.take(0)).len() == 0);
            assert(r@ =~= Self::ser_store(em.take(0)));
        }
        while i < self.entries.len()
            invariant
                em == self.entries_model(),
                i <= em.len(),
                r@ == Self::ser_store(em.take(i as int)),
            decreases em.len() - i,
        {
            let ghost e = em[i as int];
            proof {
                assert(self.entries@[i as int].deep_view() == e);
            }
            let en = &self.entries[i];
            let ghost pre = r@;
            let ids = crate::text::u64_to_string(en.id);
            r.append(ids.as_str());
            r.append("|");
            r.append(en.kind.as_str());
            r.append("|");
            let esc_src = crate::codec::escape_str(en.source.as_str());
            r.append(esc_src.as_str());
            r.append("|");
            let tss = crate::text::u64_to_string(en.timestamp);
            r.append(tss.as_str());
            r.append("|");
            let acs = crate::text::u64_to_string(en.access_count);
            r.append(acs.as_str());
            r.append("|");
            let esc_content = crate::codec::escape_str(en.content.as_str());
            r.append(esc_content.as_str());
            r.append("|");
            let kws = Self::join_keywords(&en.keywords);
            r.append(kws.as_str());
            r.append("\n");
            proof {
                reveal_strlit("|");
                reveal_strlit("\n");
                assert("|"@ =~= seq!['|']);
                assert("\n"@ =~= seq!['\n']);
                assert(r@ =~= pre + Self::ser_entry(e) + seq!['\n']);
                lemma_ser_store_step(em, i as int);
                assert(r@ =~= Self::ser_store(em.take(i + 1)));
            }
            i = i + 1;
        }
        proof {
            assert(em.take(em.len() as int) =~= em);
        }
        r
    }

    /// The keyword-list field of a record: comma-separated, trimmed,
    /// empties dropped.
    pub open spec fn parse_kws(s: Seq<char>) -> Seq<Seq<char>> {
        crate::codec::split_char(s, ',').map_values(trim_fn()).filter(nonempty_pred())
    }

    /// A numeric field parsed leniently: malformed numbers read as zero.
    pub open spec fn parse_u64_or_zero(s: Seq<char>) -> u64 {
        if s.len() > 0 && crate::text::all_digits(s) && crate::text::dec_val(s) <= u64::MAX {
            crate::text::dec_val(s) as u64
        } else {
            0
        }
    }

    /// One line of persisted text read back as an entry; `None` for blank
    /// or malformed lines, which a load skips. A line is malformed when it
    /// has fewer than seven fields, a bad id, or a bad kind; ids at the
    /// counter maximum are also refused, since no successor id would
    /// remain.
    pub open spec fn spec_parse_line(line: Seq<char>) -> Option<EntryModel> {
        let t = crate::codec::trim_seq(line);
        if t.len() == 0 {
            None
        } else {
            let parts = crate::codec::splitn_char(t, '|', 7);
            if parts.len() < 7 {
                None
            } else if !(parts[0].len() > 0 && crate::text::all_digits(parts[0])
                && crate::text::dec_val(parts[0]) < u64::MAX) {
                None
            } else {
                match MemoryKind::spec_from_tag(parts[1]) {
                    None => None,
                    Some(kind) => Some(
                        EntryModel {
                            id: crate::text::dec_val(parts[0]) as u64,
                            content: crate::codec::unescape_seq(parts[5]),
                            kind,
                            source: crate::codec::unescape_seq(parts[2]),
                            keywords: Self::parse_kws(parts[6]),
                            timestamp: Self::parse_u64_or_zero(parts[3]),
                            access_count: Self::parse_u64_or_zero(parts[4]),
                        },
                    ),
                }
            }
        }
    }

    /// How many entries carry an id below `id`.
    pub open spec fn num_smaller(em: Seq<EntryModel>, id: u64) -> nat
        decreases em.len(),
    {
        if em.len() == 0 {
            0
        } else {
            (if em[0].id < id {
                1 as nat
            } else {
                0 as nat
            }) + Self::num_smaller(em.drop_first(), id)
        }
    }

    /// An entry placed into an id-sorted list: it replaces the entry with
    /// its id, or goes to its sorted position.
    pub open spec fn insert_sorted(em: Seq<EntryModel>, e: EntryModel) -> Seq<EntryModel> {
        if Self::spec_has_id(em, e.id) {
            em.update(Self::idx_of(em, e.id), e)
        } else {
            let p = Self::num_smaller(em, e.id) as int;
            em.take(p) + seq![e] + em.skip(p)
        }
    }

    /// One load step: a parsed line lands in the accumulated entries,
    /// later lines winning on id collisions; unreadable lines change
    /// nothing.
    pub open spec fn load_step(acc: Seq<EntryModel>, line: Seq<char>) -> Seq<EntryModel> {
        match Self::spec_parse_line(line) {
            Some(e) => Self::insert_sorted(acc, e),
            None => acc,
        }
    }

    /// The entries read from a sequence of lines.
    pub open spec fn load_from(acc: Seq<EntryModel>, lines: Seq<Seq<char>>) -> Seq<EntryModel>
        decreases lines.len(),
    {
        if lines.len() == 0 {
            acc
        } else {
            Self::load_from(Self::load_step(acc, lines[0]), lines.drop_first())
        }
    }

    /// Reads the keyword field of a record.
    fn parse_keywords(field: &Vec<char>) -> (r: Vec<String>)
        requires
            crate::codec::free_of(field@, '\n'),
        ensures
            r.deep_view() == Self::parse_kws(field@),
            forall|k: int| 0 <= k < r.deep_view().len() ==> kw_ok(#[trigger] r.deep_view()[k]),
    {
        let pieces = crate::codec::split_all(field, ',');
        let ghost pm = pieces@.map_values(|p: Vec<char>| p@);
        let mut r: Vec<String> = Vec::new();
        let mut p: usize = 0;
        proof {
            reveal(Seq::filter);
            assert(pm.take(0).map_values(trim_fn()) =~= Seq::<Seq<char>>::empty());
            assert(r.deep_view() =~= pm.take(0).map_values(trim_fn()).filter(nonempty_pred()));
            crate::codec::lemma_split_pieces(field@, ',', '\n');
        }
        while p < pieces.len()
            invariant
                pm == pieces@.map_values(|p2: Vec<char>| p2@),
                pm == crate::codec::split_char(field@, ','),
                p <= pm.len(),
                r.deep_view() == pm.take(p as int).map_values(trim_fn()).filter(nonempty_pred()),
                forall|k: int| 0 <= k < r.deep_view().len() ==> kw_ok(#[trigger] r.deep_view()[k]),
                forall|q: int| 0 <= q < pm.len() ==> crate::codec::free_of(#[trigger] pm[q], ','),
                forall|q: int|
                    0 <= q < pm.len() ==> crate::codec::free_of(#[trigger] pm[q], '\n'),
            decreases pm.len() - p,
        {
            let trimmed = crate::codec::trim_chars(&pieces[p]);
            let ghost before = r.deep_view();
            let ghost piece = pm[p as int];
            proof {
                assert(pieces@[p as int]@ == piece);
            }
            if trimmed.len() > 0 {
                let s = crate::text::chars_to_string(&trimmed);
                r.push(s);
                proof {
                    crate::codec::lemma_trim_result_stable(piece);
                    crate::codec::lemma_trim_free(piece, ',');
                    crate::codec::lemma_trim_free(piece, '\n');
                    assert(kw_ok(trimmed@));
                }
            }
            proof {
                reveal(Seq::filter);
                let pred = nonempty_pred();
                let mapped = pm.take(p as int).map_values(trim_fn());
                let one = seq![crate::codec::trim_seq(piece)];
                assert(pm.take(p + 1).map_values(trim_fn()) =~= mapped + one);
                Seq::filter_distributes_over_add(mapped, one, pred);
                assert(one.drop_last() =~= Seq::<Seq<char>>::empty());
                assert(Seq::<Seq<char>>::empty().filter(pred) =~= Seq::<Seq<char>>::empty());
                if crate::codec::trim_seq(piece).len() > 0 {
                    assert(one.filter(pred) =~= one);
                    assert(r.deep_view() =~= before + one);
                } else {
                    assert(one.filter(pred) =~= Seq::<Seq<char>>::empty());
                    assert(r.deep_view() =~= before + one.filter(pred));
                }
            }
            p = p + 1;
        }
        proof {
            assert(pm.take(pm.len() as int) =~= pm);
        }
        r
    }

    /// Reads one line of persisted text.
    fn parse_line(piece: &Vec<char>) -> (r: Option<MemoryEntry>)
        requires
            crate::codec::free_of(piece@, '\n'),
        ensures
            match r {
                Some(en) => Self::spec_parse_line(piece@) == Some(en@) && Self::entry_kws_ok(en@)
                    && en@.id < u64::MAX,
                None => Self::spec_parse_line(piece@) is None,
            },
    {
        let t = crate::codec::trim_chars(piece);
        if t.len() == 0 {
            return None;
        }
        let parts = crate::codec::split_limit(&t, '|', 7);
        if parts.len() < 7 {
            return None;
        }
        let ghost ps = crate::codec::splitn_char(t@, '|', 7 as nat);
        proof {
            assert(parts@.map_values(|p: Vec<char>| p@) == ps);
            assert(parts@[0]@ == ps[0]);
            assert(parts@[1]@ == ps[1]);
            assert(parts@[2]@ == ps[2]);
            assert(parts@[3]@ == ps[3]);
            assert(parts@[4]@ == ps[4]);
            assert(parts@[5]@ == ps[5]);
            assert(parts@[6]@ == ps[6]);
        }
        let idv = match crate::text::parse_u64(&parts[0]) {
            Some(v) => v,
            None => {
                return None;
            },
        };
        if idv == u64::MAX {
            return None;
        }
        let kind_s = crate::text::chars_to_string(&parts[1]);
        let kind = match MemoryKind::from_str(kind_s.as_str()) {
            Some(k) => k,
            None => {
                return None;
            },
        };
        let source = crate::codec::unescape_chars(&parts[2]);
        let timestamp = match crate::text::parse_u64(&parts[3]) {
            Some(v) => v,
            None => 0,
        };
        let access_count = match crate::text::parse_u64(&parts[4]) {
            Some(v) => v,
            None => 0,
        };
        let content = crate::codec::unescape_chars(&parts[5]);
        proof {
            crate::codec::lemma_trim_free(piece@, '\n');
            crate::codec::lemma_splitn_pieces_free(t@, '|', 7 as nat, '\n');
            assert(crate::codec::free_of(ps[6], '\n'));
        }
        let keywords = Self::parse_keywords(&parts[6]);
        let en = MemoryEntry { id: idv, content, kind, source, keywords, timestamp, access_count };
        proof {
            assert(en@.keywords == Self::parse_kws(ps[6]));
            assert(Self::entry_kws_ok(en@));
            assert(Self::spec_parse_line(piece@) == Some(en@));
        }
        Some(en)
    }

    /// Replaces the whole store with the entries read from `data`,
    /// skipping unreadable lines, rebuilding the index, resetting the id
    /// counter just past the largest surviving id, and evicting
    /// oldest-first down to the capacity.
    pub fn deserialize(&mut self, data: &str)
        ensures
            final(self).wf(),
            final(self).spec_max_entries() == old(self).spec_max_entries(),
            final(self).entries_model() == Self::spec_evict(
                Self::load_from(
                    Seq::empty(),
                    crate::codec::split_char(data@, '\n'),
                ),
                old(self).spec_max_entries() as nat,
            ),
            final(self).spec_next_id() == if final(self).entries_model().len() > 0 {
                (final(self).entries_model().last().id + 1) as u64
            } else {
                1
            },
    {
        let chars = crate::text::str_to_chars(data);
        let pieces = crate::codec::split_all(&chars, '\n');
        let ghost lines = pieces@.map_values(|p: Vec<char>| p@);
        let mut acc: Vec<MemoryEntry> = Vec::new();
        let mut p: usize = 0;
        proof {
            assert(lines.take(0).len() == 0);
            assert(acc.deep_view() =~= Self::load_from(Seq::empty(), lines.take(0)));
            crate::codec::lemma_split_pieces(chars@, '\n', '\n');
        }
        while p < pieces.len()
            invariant
                lines == pieces@.map_values(|p2: Vec<char>| p2@),
                lines == crate::codec::split_char(data@, '\n'),
                p <= lines.len(),
                acc.deep_view() == Self::load_from(Seq::empty(), lines.take(p as int)),
                Self::entries_sorted(acc.deep_view()),
                forall|i: int|
                    0 <= i < acc.deep_view().len() ==> Self::entry_kws_ok(
                        #[trigger] acc.deep_view()[i],
                    ),
                forall|i: int|
                    0 <= i < acc.deep_view().len() ==> (#[trigger] acc.deep_view()[i]).id
                        < u64::MAX,
                forall|q: int|
                    0 <= q < lines.len() ==> crate::codec::free_of(#[trigger] lines[q], '\n'),
            decreases lines.len() - p,
        {
            let ghost accm = acc.deep_view();
            let ghost line = lines[p as int];
            proof {
                assert(pieces@[p as int]@ == line);
                lemma_load_take_step(lines, p as int);
            }
            match Self::parse_line(&pieces[p]) {
                None => {
                    proof {
                        assert(Self::load_step(accm, line) == accm);
                    }
                },
                Some(en) => {
                    let ghost e = en@;
                    let mut pos: usize = 0;
                    while pos < acc.len() && acc[pos].id < en.id
                        invariant
                            accm == acc.deep_view(),
                            pos <= accm.len(),
                            forall|m: int| 0 <= m < pos ==> (#[trigger] accm[m]).id < e.id,
                            e == en@,
                        decreases accm.len() - pos,
                    {
                        proof {
                            assert(acc@[pos as int].deep_view() == accm[pos as int]);
                        }
                        pos = pos + 1;
                    }
                    proof {
                        if pos < accm.len() {
                            assert(acc@[pos as int].deep_view() == accm[pos as int]);
                            assert(accm[pos as int].id >= e.id);
                        }
                        lemma_num_smaller_window(accm, e.id, pos as int);
                    }
                    if pos < acc.len() && acc[pos].id == en.id {
                        acc.set(pos, en);
                        proof {
                            assert(Self::spec_has_id(accm, e.id)) by {
                                assert(accm[pos as int].id == e.id);
                            }
                            let ix = Self::idx_of(accm, e.id);
                            assert(accm[ix].id == e.id);
                            assert(ix == pos as int) by {
                                if ix < pos as int {
                                    assert(accm[ix].id < e.id);
                                }
                                if ix > pos as int {
                                    assert(accm[pos as int].id < accm[ix].id);
                                }
                            }
                            assert(acc.deep_view() =~= Self::insert_sorted(accm, e));
                            let am = acc.deep_view();
                            assert forall|i: int, j: int|
                                0 <= i < j < am.len() implies am[i].id < am[j].id by {
                                assert(am[i].id == accm[i].id && am[j].id == accm[j].id);
                            }
                        }
                    } else {
                        proof {
                            assert(!Self::spec_has_id(accm, e.id)) by {
                                if Self::spec_has_id(accm, e.id) {
                                    let w = choose|m: int|
                                        0 <= m < accm.len() && accm[m].id == e.id;
                                    if w < pos as int {
                                        assert(accm[w].id < e.id);
                                    }
                                    if w > pos as int {
                                        assert(accm[pos as int].id < accm[w].id);
                                        assert(accm[pos as int].id >= e.id);
                                    }
                                    if w == pos as int {
                                        assert(pos < accm.len());
                                        assert(accm[pos as int].id == e.id);
                                        assert(false);
                                    }
                                }
                            }
                        }
                        acc.insert(pos, en);
                        proof {
                            assert(acc.deep_view() =~= accm.take(pos as int) + seq![e]
                                + accm.skip(pos as int));
                            assert(acc.deep_view() =~= Self::insert_sorted(accm, e));
                            let am = acc.deep_view();
                            assert forall|i: int, j: int|
                                0 <= i < j < am.len() implies am[i].id < am[j].id by {
                                let i0: int = if i < pos as int {
                                    i
                                } else {
                                    i - 1
                                };
                                let j0: int = if j < pos as int {
                                    j
                                } else {
                                    j - 1
                                };
                                if i < pos as int {
                                    assert(am[i] == accm[i]);
                                } else if i == pos as int {
                                    assert(am[i] == e);
                                } else {
                                    assert(am[i] == accm[i - 1]);
                                }
                                if j < pos as int {
                                    assert(am[j] == accm[j]);
                                } else if j == pos as int {
                                    assert(am[j] == e);
                                } else {
                                    assert(am[j] == accm[j - 1]);
                                }
                                if j == pos as int {
                                    assert(am[i].id == accm[i].id && accm[i].id < e.id);
                                } else if i == pos as int {
                                    assert(accm[j - 1].id >= e.id);
                                    assert(accm[j - 1].id != e.id);
                                } else if i < pos as int && j > pos as int {
                                    assert(accm[i].id < e.id);
                                    assert(accm[j - 1].id >= e.id && accm[j - 1].id != e.id);
                                }
                            }
                        }
                    }
                    proof {
                        let am = acc.deep_view();
                        assert forall|i: int| 0 <= i < am.len() implies Self::entry_kws_ok(
                            #[trigger] am[i],
                        ) && am[i].id < u64::MAX by {
                            if Self::spec_has_id(accm, e.id) {
                                if i != pos as int {
                                    assert(am[i] == accm[i]);
                                }
                            } else {
                                if i < pos as int {
                                    assert(am[i] == accm[i]);
                                } else if i > pos as int {
                                    assert(am[i] == accm[i - 1]);
                                }
                            }
                        }
                    }
                },
            }
            p = p + 1;
        }
        proof {
            assert(lines.take(lines.len() as int) =~= lines);
        }
        let ghost lm = acc.deep_view();
        // Enforce the capacity: evict oldest-first.
        while acc.len() > self.max_entries
            invariant
                acc.deep_view().len() <= lm.len(),
                acc.deep_view() == lm.skip(lm.len() - acc.deep_view().len()),
                acc.deep_view().len() > self.max_entries ==> lm.len() - acc.deep_view().len()
                    < lm.len() - self.max_entries,
                acc.deep_view().len() >= self.max_entries || acc.deep_view() == lm,
                Self::entries_sorted(lm),
                forall|i: int| 0 <= i < lm.len() ==> Self::entry_kws_ok(#[trigger] lm[i]),
                forall|i: int| 0 <= i < lm.len() ==> (#[trigger] lm[i]).id < u64::MAX,
            decreases acc.deep_view().len(),
        {
            let ghost before = acc.deep_view();
            acc.remove(0);
            proof {
                let d0 = lm.len() - before.len();
                assert(before == lm.skip(d0));
                assert forall|q: int|
                    0 <= q < acc.deep_view().len() implies acc.deep_view()[q] == lm.skip(
                    d0 + 1,
                )[q] by {
                    assert(acc.deep_view()[q] == before.remove(0)[q]);
                    assert(before.remove(0)[q] == before[q + 1]);
                    assert(before[q + 1] == lm.skip(d0)[q + 1]);
                    assert(lm.skip(d0)[q + 1] == lm[d0 + q + 1]);
                    assert(lm.skip(d0 + 1)[q] == lm[d0 + 1 + q]);
                }
                assert(acc.deep_view() =~= lm.skip(d0 + 1));
            }
        }
        proof {
            if acc.deep_view() != lm {
                assert(acc.deep_view().len() == self.max_entries);
                assert(acc.deep_view() =~= Self::spec_evict(lm, self.max_entries as nat));
            } else {
                assert(lm.len() <= self.max_entries);
                assert(acc.deep_view() =~= Self::spec_evict(lm, self.max_entries as nat));
            }
        }
        let ghost em = acc.deep_view();
        proof {
            let d = lm.len() - em.len();
            assert forall|i: int, j: int| 0 <= i < j < em.len() implies em[i].id < em[j].id by {
                assert(em[i] == lm[d + i] && em[j] == lm[d + j]);
            }
            assert forall|i: int| 0 <= i < em.len() implies Self::entry_kws_ok(#[trigger] em[i])
                && (#[trigger] em[i]).id < u64::MAX by {
                assert(em[i] == lm[d + i]);
            }
        }
        let next: u64 = if acc.len() == 0 {
            1
        } else {
            let last_id = acc[acc.len() - 1].id;
            proof {
                assert(acc@[acc@.len() - 1].deep_view() == em.last());
            }
            last_id + 1
        };
        self.entries = acc;
        self.next_id = next;
        self.index = Vec::new();
        proof {
            assert(self.entries_model() == em);
            assert(self.index_model().len() == 0);
            assert forall|w: Seq<char>, v: u64|
                #[trigger] Self::kw_covered(self.index_model(), w, v) implies false by {
                let a = lemma_kw_covered_elim(self.index_model(), w, v);
            }
        }
        // Rebuild the inverted index, oldest entry first.
        let n = self.entries.len();
        let mut i: usize = 0;
        while i < n
            invariant
                n == em.len(),
                em == self.entries_model(),
                i <= n,
                self.next_id == next,
                self.max_entries == old(self).max_entries,
                Self::entries_sorted(em),
                Self::spec_index_shape(self.index_model()),
                // every posting membership comes from an already indexed
                // entry
                forall|w: Seq<char>, v: u64|
                    #[trigger] Self::kw_covered(self.index_model(), w, v) ==> Self::id_justified(
                        em.take(i as int),
                        v,
                        w,
                    ),
                forall|i2: int, k2: int|
                    0 <= i2 < i && 0 <= k2 < em[i2].keywords.len() ==> Self::kw_covered(
                        self.index_model(),
                        #[trigger] em[i2].keywords[k2],
                        em[i2].id,
                    ),
            decreases n - i,
        {
            let ghost e = em[i as int];
            let n_kws: usize = self.entries[i].keywords.len();
            proof {
                assert(self.entries@[i as int].deep_view() == e);
            }
            let mut k: usize = 0;
            while k < n_kws
                invariant
                    n == em.len(),
                    em == self.entries_model(),
                    i < n,
                    e == em[i as int],
                    self.entries@[i as int].deep_view() == e,
                    n_kws == e.keywords.len(),
                    k <= n_kws,
                    self.next_id == next,
                    self.max_entries == old(self).max_entries,
                    Self::entries_sorted(em),
                    Self::spec_index_shape(self.index_model()),
                    forall|w: Seq<char>, v: u64|
                        #[trigger] Self::kw_covered(self.index_model(), w, v)
                            ==> Self::id_justified(em.take(i + 1), v, w),
                    forall|i2: int, k2: int|
                        0 <= i2 < i && 0 <= k2 < em[i2].keywords.len() ==> Self::kw_covered(
                            self.index_model(),
                            #[trigger] em[i2].keywords[k2],
                            em[i2].id,
                        ),
                    forall|k2: int|
                        0 <= k2 < k ==> Self::kw_covered(
                            self.index_model(),
                            #[trigger] e.keywords[k2],
                            e.id,
                        ),
                decreases n_kws - k,
            {
                let kw = self.entries[i].keywords[k].clone();
                let ghost im_before = self.index_model();
                proof {
                    assert(kw@ == e.keywords[k as int]) by {
                        assert(e.keywords[k as int] == self.entries@[i as int].keywords.deep_view()[
                            k as int]);
                        assert(self.entries@[i as int].keywords.deep_view()[k as int]
                            == self.entries@[i as int].keywords@[k as int]@);
                    }
                    assert forall|a: int, j: int|
                        0 <= a < im_before.len() && 0 <= j < im_before[a].ids.len() implies #[trigger]
                    im_before[a].ids[j] <= e.id by {
                        assert(im_before[a].ids.contains(im_before[a].ids[j]));
                        lemma_kw_covered_intro(
                            im_before,
                            a,
                            im_before[a].keyword,
                            im_before[a].ids[j],
                        );
                        let i0 = lemma_id_justified_elim(
                            em.take(i + 1),
                            im_before[a].ids[j],
                            im_before[a].keyword,
                        );
                        assert(em.take(i + 1)[i0] == em[i0]);
                        if i0 < i as int {
                            assert(em[i0].id < em[i as int].id);
                        }
                    }
                }
                self.index_add(&kw, self.entries[i].id);
                proof {
                    let im1 = self.index_model();
                    assert forall|w: Seq<char>, v: u64|
                        #[trigger] Self::kw_covered(im1, w, v) implies Self::id_justified(
                        em.take(i + 1),
                        v,
                        w,
                    ) by {
                        if Self::kw_covered(im_before, w, v) {
                        } else {
                            assert(w == kw@ && v == e.id);
                            assert(em.take(i + 1)[i as int] == e);
                            assert(e.keywords[k as int] == kw@);
                            assert(e.keywords.contains(kw@));
                            lemma_id_justified_intro(em.take(i + 1), i as int, e.id, kw@);
                        }
                    }
                    assert forall|i2: int, k2: int|
                        0 <= i2 < i && 0 <= k2 < em[i2].keywords.len() implies Self::kw_covered(
                        im1,
                        #[trigger] em[i2].keywords[k2],
                        em[i2].id,
                    ) by {
                        assert(Self::kw_covered(im_before, em[i2].keywords[k2], em[i2].id));
                    }
                    assert forall|k2: int| 0 <= k2 < k + 1 implies Self::kw_covered(
                        im1,
                        #[trigger] e.keywords[k2],
                        e.id,
                    ) by {
                        if k2 < k {
                            assert(Self::kw_covered(im_before, e.keywords[k2], e.id));
                        } else {
                            assert(e.keywords[k2] == kw@);
                        }
                    }
                }
                k = k + 1;
            }
            proof {
                assert forall|w: Seq<char>, v: u64|
                    #[trigger] Self::kw_covered(self.index_model(), w, v) implies Self::id_justified(
                    em.take(i + 1),
                    v,
                    w,
                ) by {}
            }
            i = i + 1;
        }
        proof {
            assert(em.take(em.len() as int) =~= em);
            assert forall|w: Seq<char>, v: u64|
                #[trigger] Self::kw_covered(self.index_model(), w, v) implies Self::id_justified(
                em,
                v,
                w,
            ) by {
                let i0 = lemma_id_justified_elim(em.take(em.len() as int), v, w);
                lemma_id_justified_intro(em, i0, v, w);
            }
            assert forall|i2: int, k2: int|
                0 <= i2 < em.len() && 0 <= k2 < em[i2].keywords.len() implies Self::kw_covered(
                self.index_model(),
                #[trigger] em[i2].keywords[k2],
                em[i2].id,
            ) by {}
            assert forall|i2: int| 0 <= i2 < em.len() implies (#[trigger] em[i2].id)
                < self.next_id by {
                assert(em[i2].id <= em.last().id);
            }
            assert(self.wf());
        }
    }

    /// Entry text fit for one line: what `store` guarantees of every
    /// entry it keeps.
    pub open spec fn entry_line_ok(e: EntryModel) -> bool {
        Self::entry_kws_ok(e) && e.id < u64::MAX
    }

    /// The record of an entry holds no line feed, its first six fields no
    /// pipe, and trimming leaves the whole line alone.
    proof fn lemma_ser_entry_props(e: EntryModel)
        requires
            Self::entry_line_ok(e),
        ensures
            crate::codec::free_of(Self::ser_entry(e), '\n'),
            crate::codec::trim_seq(Self::ser_entry(e)) == Self::ser_entry(e),
            Self::spec_parse_line(Self::ser_entry(e)) == Some(e),
    {
        let line = Self::ser_entry(e);
        let f0 = crate::text::dec_digits(e.id as nat);
        let f1 = e.kind.spec_tag();
        let f2 = crate::codec::escape_seq(e.source);
        let f3 = crate::text::dec_digits(e.timestamp as nat);
        let f4 = crate::text::dec_digits(e.access_count as nat);
        let f5 = crate::codec::escape_seq(e.content);
        let f6 = crate::codec::join_char(e.keywords, ',');
        crate::text::lemma_dec_val_of_digits(e.id as nat);
        crate::text::lemma_dec_val_of_digits(e.timestamp as nat);
        crate::text::lemma_dec_val_of_digits(e.access_count as nat);
        lemma_digits_plain(f0);
        lemma_digits_plain(f3);
        lemma_digits_plain(f4);
        lemma_tag_plain(e.kind);
        crate::codec::lemma_escape_field_safe(e.source);
        crate::codec::lemma_escape_field_safe(e.content);
        assert forall|k: int| 0 <= k < e.keywords.len() implies crate::codec::free_of(
            #[trigger] e.keywords[k],
            ',',
        ) && crate::codec::free_of(e.keywords[k], '\n') && e.keywords[k].len() > 0
            && crate::codec::trim_stable(e.keywords[k]) by {
            assert(kw_ok(e.keywords[k]));
        }
        lemma_join_plain(e.keywords);
        // the whole line never holds a line feed
        let parts = seq![f0, f1, f2, f3, f4, f5, f6];
        assert(crate::codec::join_char(parts, '|') =~= line) by {
            lemma_join7(parts);
        }
        assert forall|i: int| 0 <= i < line.len() implies line[i] != '\n' by {
            lemma_join_char_pos(parts, '|', i);
        }
        // trimming leaves the line alone
        assert(line.len() > 0);
        assert(line[0] == f0[0]);
        assert(!crate::text::space_char(line[0]));
        assert(!crate::text::space_char(line.last())) by {
            if e.keywords.len() == 0 {
                assert(f6.len() == 0);
                assert(line.last() == '|');
            } else {
                lemma_join_last(e.keywords);
                assert(f6.len() > 0);
                assert(line.last() == f6.last());
            }
        }
        crate::codec::lemma_trim_stable(line);
        // the line splits back into its fields
        assert forall|p: int| 0 <= p < parts.len() - 1 implies crate::codec::free_of(
            #[trigger] parts[p],
            '|',
        ) by {}
        crate::codec::lemma_splitn_join(parts, '|', 7 as nat);
        // and each field reads back
        e.kind.lemma_tag_round_trip();
        crate::codec::lemma_unescape_escape(e.source);
        crate::codec::lemma_unescape_escape(e.content);
        assert(Self::parse_kws(f6) == e.keywords) by {
            if e.keywords.len() == 0 {
                reveal(Seq::filter);
                assert(f6.len() == 0);
                crate::codec::lemma_first_idx(f6, ',');
                assert(crate::codec::split_char(f6, ',') =~= seq![f6]);
                assert(crate::codec::trim_seq(f6) =~= f6);
                assert(crate::codec::split_char(f6, ',').map_values(trim_fn()) =~= seq![f6]);
                assert(seq![f6].drop_last() =~= Seq::<Seq<char>>::empty());
                assert(Seq::<Seq<char>>::empty().filter(nonempty_pred())
                    =~= Seq::<Seq<char>>::empty());
                assert(seq![f6].filter(nonempty_pred()) =~= Seq::<Seq<char>>::empty());
                assert(Self::parse_kws(f6) =~= e.keywords);
            } else {
                crate::codec::lemma_split_join(e.keywords, ',');
                assert(crate::codec::split_char(f6, ',').map_values(trim_fn())
                    =~= e.keywords) by {
                    assert forall|k: int|
                        0 <= k < e.keywords.len() implies crate::codec::split_char(
                        f6,
                        ',',
                    ).map_values(trim_fn())[k] == e.keywords[k] by {
                        crate::codec::lemma_trim_stable(e.keywords[k]);
                    }
                }
                lemma_filter_all_nonempty(e.keywords);
            }
        }
        assert(Self::parse_u64_or_zero(f3) == e.timestamp);
        assert(Self::parse_u64_or_zero(f4) == e.access_count);
        let got = Self::spec_parse_line(line);
        assert(got == Some(e)) by {
            let t = crate::codec::trim_seq(line);
            assert(t == line);
            let sp = crate::codec::splitn_char(t, '|', 7 as nat);
            assert(sp == parts);
            assert(sp[0] == f0 && sp[1] == f1 && sp[2] == f2 && sp[3] == f3 && sp[4] == f4
                && sp[5] == f5 && sp[6] == f6);
            assert(crate::text::dec_val(sp[0]) == e.id);
            assert(MemoryKind::spec_from_tag(sp[1]) == Some(e.kind));
        }
    }

    /// Loading the serialized text of sorted, well-formed entries onto an
    /// accumulator of strictly smaller ids appends them all.
    proof fn lemma_load_ser(acc: Seq<EntryModel>, em: Seq<EntryModel>)
        requires
            Self::entries_sorted(acc),
            Self::entries_sorted(em),
            forall|i: int, j: int|
                0 <= i < acc.len() && 0 <= j < em.len() ==> (#[trigger] acc[i]).id
                    < (#[trigger] em[j]).id,
            forall|j: int| 0 <= j < em.len() ==> Self::entry_line_ok(#[trigger] em[j]),
        ensures
            Self::load_from(acc, crate::codec::split_char(Self::ser_store(em), '\n')) == acc + em,
        decreases em.len(),
    {
        if em.len() == 0 {
            let s = Self::ser_store(em);
            assert(s.len() == 0);
            crate::codec::lemma_first_idx(s, '\n');
            assert(crate::codec::split_char(s, '\n') =~= seq![s]);
            assert(crate::codec::trim_seq(s) =~= s);
            assert(Self::spec_parse_line(s) is None);
            assert(seq![s][0] == s);
            assert(seq![s].drop_first() =~= Seq::<Seq<char>>::empty());
            assert(Self::load_step(acc, s) == acc);
            assert(Self::load_from(acc, Seq::<Seq<char>>::empty()) == acc);
            assert(Self::load_from(acc, seq![s]) == acc);
            assert(acc + em =~= acc);
        } else {
            let e0 = em[0];
            let rest = em.drop_first();
            let line0 = Self::ser_entry(e0);
            Self::lemma_ser_entry_props(e0);
            let s = Self::ser_store(em);
            assert(s == line0 + seq!['\n'] + Self::ser_store(rest));
            crate::codec::lemma_first_idx_concat(line0, '\n', Self::ser_store(rest));
            crate::codec::lemma_first_idx(s, '\n');
            assert(crate::codec::split_char(s, '\n') == seq![s.take(line0.len() as int)]
                + crate::codec::split_char(s.skip(line0.len() as int + 1), '\n'));
            assert(s.take(line0.len() as int) =~= line0);
            assert(s.skip(line0.len() as int + 1) =~= Self::ser_store(rest));
            let lines = crate::codec::split_char(s, '\n');
            assert(lines[0] == line0);
            assert(lines.drop_first() =~= crate::codec::split_char(Self::ser_store(rest), '\n'));
            // the first step appends the first entry
            assert(Self::load_step(acc, line0) == acc.push(e0)) by {
                assert(Self::spec_parse_line(line0) == Some(e0));
                assert(!Self::spec_has_id(acc, e0.id)) by {
                    if Self::spec_has_id(acc, e0.id) {
                        let w = choose|i: int| 0 <= i < acc.len() && acc[i].id == e0.id;
                        assert(acc[w].id < em[0].id);
                    }
                }
                assert forall|m: int| 0 <= m < acc.len() implies (#[trigger] acc[m]).id
                    < e0.id by {}
                lemma_num_smaller_window(acc, e0.id, acc.len() as int);
                assert(acc.take(acc.len() as int) =~= acc);
                assert(acc.skip(acc.len() as int) =~= Seq::<EntryModel>::empty());
                assert(acc.take(acc.len() as int) + seq![e0] + acc.skip(acc.len() as int)
                    =~= acc.push(e0));
            }
            assert forall|i: int, j: int|
                0 <= i < acc.push(e0).len() && 0 <= j < rest.len() implies (#[trigger] acc.push(
                e0,
            )[i]).id < (#[trigger] rest[j]).id by {
                assert(rest[j] == em[j + 1]);
                if i < acc.len() {
                    assert(acc.push(e0)[i] == acc[i]);
                } else {
                    assert(acc.push(e0)[i] == e0);
                    assert(em[0].id < em[j + 1].id);
                }
            }
            assert forall|i: int, j: int|
                0 <= i < j < rest.len() implies (#[trigger] rest[i]).id
                < (#[trigger] rest[j]).id by {
                assert(rest[i] == em[i + 1] && rest[j] == em[j + 1]);
            }
            assert forall|j: int| 0 <= j < rest.len() implies Self::entry_line_ok(
                #[trigger] rest[j],
            ) by {
                assert(rest[j] == em[j + 1]);
            }
            Self::lemma_load_ser(acc.push(e0), rest);
            assert(Self::load_from(acc, lines) == Self::load_from(
                Self::load_step(acc, line0),
                lines.drop_first(),
            ));
            assert(acc.push(e0) + rest =~= acc + em);
        }
    }

    /// The persistence round trip: a store reloaded from its own
    /// serialized text holds exactly the same entries; and since search
    /// is a function of the entries alone, every later search answers
    /// alike. The id counter is reproduced whenever any entry remains.
    pub proof fn lemma_round_trip(s: MemoryStore)
        requires
            s.wf(),
        ensures
            Self::spec_evict(
                Self::load_from(
                    Seq::empty(),
                    crate::codec::split_char(Self::ser_store(s.entries_model()), '\n'),
                ),
                s.spec_max_entries() as nat,
            ) == s.entries_model(),
            s.entries_model().len() > 0 ==> (s.entries_model().last().id + 1) as u64
                == s.spec_next_id(),
    {
        let em = s.entries_model();
        assert forall|j: int| 0 <= j < em.len() implies Self::entry_line_ok(#[trigger] em[j]) by {
            assert(em[j].id < s.spec_next_id());
        }
        Self::lemma_load_ser(Seq::empty(), em);
        assert(Seq::empty() + em =~= em);
    }

    /// Monotonic ids: across any two consecutive stores, the first
    /// returned id is strictly below the second, whatever was evicted in
    /// between; ids are never reused.
    pub proof fn lemma_monotonic_ids(s0: MemoryStore, s1: MemoryStore, id0: u64, id1: u64)
        requires
            id0 == s0.spec_next_id(),
            s1.spec_next_id() == id0 + 1,
            id1 == s1.spec_next_id(),
        ensures
            id0 < id1,
    {
    }

    /// Capacity: a store never holds more than its capacity, and what
    /// survives a store is exactly the newest suffix, by id, of the old
    /// entries followed by the new one.
    pub proof fn lemma_capacity(em: Seq<EntryModel>, e: EntryModel, max: nat)
        requires
            em.len() <= max,
        ensures
            Self::spec_evict(em.push(e), max).len() <= max,
            Self::spec_evict(em.push(e), max) == em.push(e).skip(
                if em.len() + 1 > max {
                    em.len() + 1 - max
                } else {
                    0
                },
            ),
    {
        let g = em.push(e);
        if g.len() <= max {
            assert(g.skip(0) =~= g);
        }
    }

    /// Index consistency: in every well-formed store, each posting
    /// membership is justified by an entry holding the keyword, every
    /// keyword occurrence of every entry is covered by a posting with the
    /// entry's id, and no posting is empty.
    pub proof fn lemma_index_consistent(s: MemoryStore)
        requires
            s.wf(),
        ensures
            Self::spec_index_sound(s.entries_model(), s.index_model()),
            Self::spec_index_complete(s.entries_model(), s.index_model()),
            Self::spec_index_shape(s.index_model()),
    {
    }

    /// The entry at a position, oldest first.
    pub fn entry_at(&self, i: usize) -> (r: &MemoryEntry)
        requires
            i < self.entries_model().len(),
        ensures
            r@ == self.entries_model()[i as int],
    {
        proof {
            assert(self.entries@[i as int].deep_view() == self.entries_model()[i as int]);
        }
        &self.entries[i]
    }

    /// The number of entries holding the given keyword.
    pub fn doc_frequency(&self, w: &String) -> (n: u64)
        ensures
            n == Self::doc_freq(self.entries_model(), w@),
    {
        self.count_docs(w)
    }

    /// Whether the entry at a position holds the given keyword.
    pub fn entry_has_keyword(&self, i: usize, w: &String) -> (r: bool)
        requires
            i < self.entries_model().len(),
        ensures
            r == self.entries_model()[i as int].keywords.contains(w@),
    {
        proof {
            assert(self.entries@[i as int].deep_view() == self.entries_model()[i as int]);
        }
        let n = Self::count_kw(&self.entries[i].keywords, w);
        proof {
            lemma_cnt_kw_contains(self.entries_model()[i as int].keywords, w@);
        }
        n > 0
    }

    /// The keyword and document frequency of each posting, in first-use
    /// order.
    pub open spec fn kw_counts(im: Seq<PostingModel>) -> Seq<(Seq<char>, nat)> {
        im.map_values(|p: PostingModel| (p.keyword, p.ids.len()))
    }

    /// Stable insertion into a count-descending list: the newcomer goes
    /// after every element counting at least as much.
    pub open spec fn insert_by_count(s: Seq<(Seq<char>, nat)>, x: (Seq<char>, nat)) -> Seq<
        (Seq<char>, nat),
    >
        decreases s.len(),
    {
        if s.len() == 0 {
            seq![x]
        } else if s.last().1 >= x.1 {
            s.push(x)
        } else {
            Self::insert_by_count(s.drop_last(), x).push(s.last())
        }
    }

    /// The postings' keyword and frequency pairs, stably sorted by
    /// frequency descending; equal frequencies keep first-use order.
    pub open spec fn sorted_kw_counts(im: Seq<PostingModel>) -> Seq<(Seq<char>, nat)>
        decreases im.len(),
    {
        if im.len() == 0 {
            Seq::empty()
        } else {
            Self::insert_by_count(
                Self::sorted_kw_counts(im.drop_last()),
                (im.last().keyword, im.last().ids.len()),
            )
        }
    }

    /// Every keyword of the index with its document frequency, ranked by
    /// frequency descending, ties in first-use order.
    pub fn keyword_frequencies(&self) -> (r: Vec<(String, usize)>)
        ensures
            r@.len() == Self::sorted_kw_counts(self.index_model()).len(),
            forall|q: int|
                0 <= q < r@.len() ==> (#[trigger] r@[q]).0@ == Self::sorted_kw_counts(
                    self.index_model(),
                )[q].0 && r@[q].1 as nat == Self::sorted_kw_counts(self.index_model())[q].1,
    {
        let ghost im = self.index_model();
        let n = self.index.len();
        let mut r: Vec<(String, usize)> = Vec::new();
        let mut a: usize = 0;
        proof {
            assert(im.take(0).len() == 0);
            assert(Self::sorted_kw_counts(im.take(0)).len() == 0);
        }
        while a < n
            invariant
                im == self.index_model(),
                n == im.len(),
                a <= n,
                r@.len() == Self::sorted_kw_counts(im.take(a as int)).len(),
                forall|q: int|
                    0 <= q < r@.len() ==> (#[trigger] r@[q]).0@ == Self::sorted_kw_counts(
                        im.take(a as int),
                    )[q].0 && r@[q].1 as nat == Self::sorted_kw_counts(im.take(a as int))[q].1,
            decreases n - a,
        {
            let kw = self.index[a].keyword.clone();
            let cnt = self.index[a].ids.len();
            let ghost x = (im[a as int].keyword, im[a as int].ids.len());
            proof {
                assert(self.index@[a as int].deep_view() == im[a as int]);
                assert(kw@ == x.0 && cnt as nat == x.1);
            }
            // find the stable insertion position, scanning from the end
            let mut p: usize = r.len();
            while p > 0 && r[p - 1].1 < cnt
                invariant
                    p <= r@.len(),
                    forall|j: int| p <= j < r@.len() ==> (#[trigger] r@[j]).1 < cnt,
                decreases p,
            {
                p = p - 1;
            }
            let ghost before = r@;
            let ghost spec_before = Self::sorted_kw_counts(im.take(a as int));
            r.insert(p, (kw, cnt));
            proof {
                assert(im.take(a + 1).drop_last() =~= im.take(a as int));
                assert(im.take(a + 1).last() == im[a as int]);
                assert(Self::sorted_kw_counts(im.take(a + 1)) == Self::insert_by_count(
                    spec_before,
                    x,
                ));
                assert forall|j: int|
                    p <= j < spec_before.len() implies (#[trigger] spec_before[j]).1 < x.1 by {
                    assert(before[j].1 < cnt);
                }
                if p > 0 {
                    assert(spec_before[p - 1].1 >= x.1) by {
                        assert(before[p - 1].1 >= cnt);
                    }
                }
                lemma_insert_by_count_pos(spec_before, x, p as int);
                assert(r@ =~= before.insert(p as int, (kw, cnt)));
                assert forall|q: int|
                    0 <= q < r@.len() implies (#[trigger] r@[q]).0@ == Self::sorted_kw_counts(
                    im.take(a + 1),
                )[q].0 && r@[q].1 as nat == Self::sorted_kw_counts(im.take(a + 1))[q].1 by {
                    let s1 = Self::sorted_kw_counts(im.take(a + 1));
                    assert(s1 == spec_before.take(p as int) + seq![x] + spec_before.skip(p as int));
                    if q < p as int {
                        assert(r@[q] == before[q]);
                        assert(s1[q] == spec_before[q]);
                    } else if q == p as int {
                        assert(r@[q] == (kw, cnt));
                        assert(s1[q] == x);
                    } else {
                        assert(r@[q] == before[q - 1]);
                        assert(s1[q] == spec_before[q - 1]);
                    }
                }
            }
            a = a + 1;
        }
        proof {
            assert(im.take(n as int) =~= im);
        }
        r
    }

    /// Addition saturating at the largest `usize`.
    pub open spec fn sat_add_us(a: nat, b: nat) -> nat {
        if a + b > usize::MAX {
            usize::MAX as nat
        } else {
            a + b
        }
    }

    /// The estimated bytes of a keyword list, folded onto `acc`.
    pub open spec fn est_kws(ws: Seq<Seq<char>>, acc: nat) -> nat
        decreases ws.len(),
    {
        if ws.len() == 0 {
            acc
        } else {
            Self::est_kws(
                ws.drop_first(),
                Self::sat_add_us(
                    acc,
                    Self::sat_add_us(crate::keywords::utf8_len_clamped(ws[0]), 24),
                ),
            )
        }
    }

    /// The estimated bytes of the entries, folded onto `acc`: a small
    /// fixed overhead plus the text and keyword bytes of each.
    pub open spec fn est_entries(em: Seq<EntryModel>, acc: nat) -> nat
        decreases em.len(),
    {
        if em.len() == 0 {
            acc
        } else {
            Self::est_entries(
                em.drop_first(),
                Self::sat_add_us(
                    Self::est_kws(
                        em[0].keywords,
                        Self::sat_add_us(
                            Self::sat_add_us(
                                Self::sat_add_us(acc, 8),
                                crate::keywords::utf8_len_clamped(em[0].content),
                            ),
                            crate::keywords::utf8_len_clamped(em[0].source),
                        ),
                    ),
                    64,
                ),
            )
        }
    }

    /// The estimated bytes of the index, folded onto `acc`.
    pub open spec fn est_index(im: Seq<PostingModel>, acc: nat) -> nat
        decreases im.len(),
    {
        if im.len() == 0 {
            acc
        } else {
            Self::est_index(
                im.drop_first(),
                Self::sat_add_us(
                    Self::sat_add_us(
                        Self::sat_add_us(
                            acc,
                            crate::keywords::utf8_len_clamped(im[0].keyword),
                        ),
                        24,
                    ),
                    Self::sat_add_us(
                        if im[0].ids.len() * 8 > usize::MAX {
                            usize::MAX as nat
                        } else {
                            im[0].ids.len() * 8
                        },
                        48,
                    ),
                ),
            )
        }
    }

    /// The whole rough size estimate.
    pub open spec fn spec_estimated_bytes(em: Seq<EntryModel>, im: Seq<PostingModel>) -> nat {
        Self::est_index(im, Self::est_entries(em, 0))
    }

    /// Statistics about the store: entry and index sizes, the ten most
    /// frequent keywords, and a rough size estimate.
    pub fn stats(&self) -> (r: MemoryStats)
        ensures
            r.entry_count == self.entries_model().len(),
            r.index_size == self.index_model().len(),
            r.top_keywords@.len() == (if Self::sorted_kw_counts(self.index_model()).len() > 10 {
                10 as nat
            } else {
                Self::sorted_kw_counts(self.index_model()).len()
            }),
            forall|q: int|
                0 <= q < r.top_keywords@.len() ==> (#[trigger] r.top_keywords@[q]).0@
                    == Self::sorted_kw_counts(self.index_model())[q].0 && r.top_keywords@[q].1 as nat
                    == Self::sorted_kw_counts(self.index_model())[q].1,
            r.estimated_bytes as nat == Self::spec_estimated_bytes(
                self.entries_model(),
                self.index_model(),
            ),
    {
        let ghost em = self.entries_model();
        let ghost im = self.index_model();
        let ranked = self.keyword_frequencies();
        let keep = if ranked.len() > 10 {
            10
        } else {
            ranked.len()
        };
        let mut top: Vec<(String, usize)> = Vec::new();
        let mut q: usize = 0;
        while q < keep
            invariant
                keep <= ranked@.len(),
                ranked@.len() == Self::sorted_kw_counts(im).len(),
                im == self.index_model(),
                forall|j: int|
                    0 <= j < ranked@.len() ==> (#[trigger] ranked@[j]).0@
                        == Self::sorted_kw_counts(im)[j].0 && ranked@[j].1 as nat
                        == Self::sorted_kw_counts(im)[j].1,
                q <= keep,
                top@.len() == q,
                forall|j: int|
                    0 <= j < q ==> (#[trigger] top@[j]).0@ == Self::sorted_kw_counts(im)[j].0
                        && top@[j].1 as nat == Self::sorted_kw_counts(im)[j].1,
            decreases keep - q,
        {
            let pair = (ranked[q].0.clone(), ranked[q].1);
            proof {
                assert(pair.0@ == ranked@[q as int].0@);
            }
            top.push(pair);
            q = q + 1;
        }
        // entry bytes
        let mut acc: usize = 0;
        let n = self.entries.len();
        let mut i: usize = 0;
        proof {
            assert(em.skip(0) =~= em);
        }
        while i < n
            invariant
                em == self.entries_model(),
                im == self.index_model(),
                n == em.len(),
                i <= n,
                Self::est_entries(em, 0) == Self::est_entries(em.skip(i as int), acc as nat),
            decreases n - i,
        {
            let ghost rest = em.skip(i as int);
            proof {
                assert(self.entries@[i as int].deep_view() == em[i as int]);
                assert(rest[0] == em[i as int]);
                assert(rest.drop_first() =~= em.skip(i + 1));
            }
            acc = sat_add_exec(acc, 8);
            let cchars = crate::text::str_to_chars(self.entries[i].content.as_str());
            acc = sat_add_exec(acc, crate::keywords::utf8_byte_len(&cchars));
            let schars = crate::text::str_to_chars(self.entries[i].source.as_str());
            acc = sat_add_exec(acc, crate::keywords::utf8_byte_len(&schars));
            let nk = self.entries[i].keywords.len();
            let mut k: usize = 0;
            let ghost kws = em[i as int].keywords;
            proof {
                assert(kws.skip(0) =~= kws);
            }
            while k < nk
                invariant
                    em == self.entries_model(),
                    i < em.len(),
                    self.entries@[i as int].deep_view() == em[i as int],
                    kws == em[i as int].keywords,
                    nk == kws.len(),
                    k <= nk,
                    Self::est_entries(em, 0) == Self::est_entries(
                        em.skip(i + 1),
                        Self::sat_add_us(Self::est_kws(kws.skip(k as int), acc as nat), 64),
                    ),
                decreases nk - k,
            {
                let ghost krest = kws.skip(k as int);
                proof {
                    assert(em[i as int].keywords[k as int] == self.entries@[
                        i as int].keywords.deep_view()[k as int]);
                    assert(self.entries@[i as int].keywords.deep_view()[k as int]
                        == self.entries@[i as int].keywords@[k as int]@);
                    assert(krest[0] == kws[k as int]);
                    assert(krest.drop_first() =~= kws.skip(k + 1));
                }
                let kchars = crate::text::str_to_chars(self.entries[i].keywords[k].as_str());
                let klen = crate::keywords::utf8_byte_len(&kchars);
                acc = sat_add_exec(acc, sat_add_exec(klen, 24));
                k = k + 1;
            }
            proof {
                assert(kws.skip(nk as int).len() == 0);
                assert(Self::est_kws(kws.skip(nk as int), acc as nat) == acc as nat);
            }
            acc = sat_add_exec(acc, 64);
            i = i + 1;
        }
        proof {
            assert(em.skip(n as int).len() == 0);
            assert(Self::est_entries(em.skip(n as int), acc as nat) == acc as nat);
        }
        // index bytes
        let ni = self.index.len();
        let mut a: usize = 0;
        proof {
            assert(im.skip(0) =~= im);
        }
        while a < ni
            invariant
                im == self.index_model(),
                ni == im.len(),
                a <= ni,
                Self::est_index(im, Self::est_entries(em, 0)) == Self::est_index(
                    im.skip(a as int),
                    acc as nat,
                ),
                em == self.entries_model(),
            decreases ni - a,
        {
            let ghost rest = im.skip(a as int);
            proof {
                assert(self.index@[a as int].deep_view() == im[a as int]);
                assert(rest[0] == im[a as int]);
                assert(rest.drop_first() =~= im.skip(a + 1));
            }
            let kchars = crate::text::str_to_chars(self.index[a].keyword.as_str());
            acc = sat_add_exec(acc, crate::keywords::utf8_byte_len(&kchars));
            acc = sat_add_exec(acc, 24);
            let plen = self.index[a].ids.len();
            let pbytes = match plen.checked_mul(8) {
                Some(v) => v,
                None => usize::MAX,
            };
            acc = sat_add_exec(acc, sat_add_exec(pbytes, 48));
            a = a + 1;
        }
        proof {
            assert(im.skip(ni as int).len() == 0);
            assert(Self::est_index(im.skip(ni as int), acc as nat) == acc as nat);
            assert(Self::spec_estimated_bytes(em, im) == acc as nat);
        }
        MemoryStats {
            entry_count: self.entries.len(),
            index_size: self.index.len(),
            top_keywords: top,
            estimated_bytes: acc,
        }
    }

    /// Removes the entry with the smallest id, pruning the index.
    fn remove_oldest(&mut self)
        requires
            old(self).wf_core(),
            old(self).entries_model().len() > 0,
        ensures
            final(self).wf_core(),
            final(self).entries_model() == old(self).entries_model().skip(1),
            final(self).next_id == old(self).next_id,
            final(self).max_entries == old(self).max_entries,
    {
        let ghost em0 = self.entries_model();
        let id: u64 = self.entries[0].id;
        let n_kws: usize = self.entries[0].keywords.len();
        let ghost victim = em0[0];
        let mut k: usize = 0;
        proof {
            assert(victim.id == id && victim.keywords.len() == n_kws) by {
                assert(self.entries@[0].deep_view() == victim);
            }
            // a posting holding the oldest id is for one of its keywords
            assert forall|w: Seq<char>|
                #[trigger] Self::kw_covered(self.index_model(), w, id) implies exists|k2: int|
                0 <= k2 < victim.keywords.len() && victim.keywords[k2] == w by {
                let i0 = lemma_id_justified_elim(em0, id, w);
                assert(i0 == 0) by {
                    if i0 >= 1 {
                        assert(em0[0].id < em0[i0].id);
                    }
                }
                let k2 = choose|m: int|
                    0 <= m < victim.keywords.len() && victim.keywords[m] == w;
                assert(0 <= k2 < victim.keywords.len() && victim.keywords[k2] == w);
            }
        }
        while k < n_kws
            invariant
                self.entries_model() == em0,
                em0.len() > 0,
                victim == em0[0],
                n_kws == victim.keywords.len(),
                id == victim.id,
                k <= n_kws,
                self.next_id == old(self).next_id,
                self.max_entries == old(self).max_entries,
                Self::entries_sorted(em0),
                Self::spec_index_shape(self.index_model()),
                Self::spec_index_sound(em0, self.index_model()),
                // completeness for every entry but the victim
                forall|i: int, k2: int|
                    1 <= i < em0.len() && 0 <= k2 < em0[i].keywords.len() ==> Self::kw_covered(
                        self.index_model(),
                        #[trigger] em0[i].keywords[k2],
                        em0[i].id,
                    ),
                // a posting still holding the victim's id is for one of its
                // remaining keywords
                forall|w: Seq<char>|
                    #[trigger] Self::kw_covered(self.index_model(), w, id) ==> exists|k2: int|
                        k <= k2 < victim.keywords.len() && victim.keywords[k2] == w,
            decreases n_kws - k,
        {
            let kw = self.entries[0].keywords[k].clone();
            let ghost im0 = self.index_model();
            proof {
                assert(kw@ == victim.keywords[k as int]) by {
                    assert(self.entries@[0].deep_view() == victim);
                    assert(victim.keywords[k as int] == self.entries@[0].keywords.deep_view()[
                        k as int]);
                    assert(self.entries@[0].keywords.deep_view()[k as int]
                        == self.entries@[0].keywords@[k as int]@);
                }
            }
            match Self::find_posting(&self.index, &kw) {
                None => {
                    proof {
                        assert forall|w: Seq<char>|
                            #[trigger] Self::kw_covered(im0, w, id) implies exists|k2: int|
                            k + 1 <= k2 < victim.keywords.len() && victim.keywords[k2] == w by {
                            if w == kw@ {
                                let a = lemma_kw_covered_elim(im0, w, id);
                                assert(im0[a].keyword != kw@);
                                assert(false);
                            }
                            let k2 = choose|k2: int|
                                k <= k2 < victim.keywords.len() && victim.keywords[k2] == w;
                            assert(k2 != k);
                            assert(k + 1 <= k2 < victim.keywords.len() && victim.keywords[k2]
                                == w);
                        }
                    }
                },
                Some(a) => {
                    let ghost p0 = im0[a as int];
                    match Self::find_id(&self.index[a].ids, id) {
                        None => {
                            proof {
                                assert forall|w: Seq<char>|
                                    #[trigger] Self::kw_covered(im0, w, id) implies exists|k2: int|
                                    k + 1 <= k2 < victim.keywords.len() && victim.keywords[k2]
                                        == w by {
                                    if w == kw@ {
                                        let b = lemma_kw_covered_elim(im0, w, id);
                                        assert(b == a as int) by {
                                            if b != a as int {
                                                assert(im0[a as int].keyword != im0[b].keyword);
                                            }
                                        }
                                        assert(false);
                                    }
                                    let k2 = choose|k2: int|
                                        k <= k2 < victim.keywords.len() && victim.keywords[k2]
                                            == w;
                                    assert(k2 != k);
                                    assert(k + 1 <= k2 < victim.keywords.len()
                                        && victim.keywords[k2] == w);
                                }
                            }
                        },
                        Some(j) => {
                            self.index[a].ids.remove(j);
                            if self.index[a].ids.len() == 0 {
                                self.index.remove(a);
                                proof {
                                    let im1 = self.index_model();
                                    assert(im1 =~= im0.remove(a as int));
                                    lemma_evict_step_prune(
                                        em0,
                                        im0,
                                        im1,
                                        a as int,
                                        victim,
                                        k as int,
                                        id,
                                        kw@,
                                        j as int,
                                        true,
                                    );
                                }
                            } else {
                                proof {
                                    let im1 = self.index_model();
                                    assert(im1 =~= im0.update(
                                        a as int,
                                        PostingModel {
                                            keyword: p0.keyword,
                                            ids: p0.ids.remove(j as int),
                                        },
                                    ));
                                    lemma_evict_step_prune(
                                        em0,
                                        im0,
                                        im1,
                                        a as int,
                                        victim,
                                        k as int,
                                        id,
                                        kw@,
                                        j as int,
                                        false,
                                    );
                                }
                            }
                        },
                    }
                },
            }
            k = k + 1;
        }
        self.entries.remove(0);
        proof {
            let em1 = self.entries_model();
            let im = self.index_model();
            assert(em1 =~= em0.skip(1));
            assert forall|i: int, j: int| 0 <= i < j < em1.len() implies em1[i].id < em1[j].id by {
                assert(em1[i] == em0[i + 1] && em1[j] == em0[j + 1]);
            }
            if em1.len() > 0 {
                assert(em1.last() == em0.last());
            }
            assert(forall|i: int| 0 <= i < em1.len() ==> em1[i] == em0[i + 1]);
            assert forall|w: Seq<char>, v: u64|
                #[trigger] Self::kw_covered(im, w, v) implies Self::id_justified(em1, v, w) by {
                let i0 = lemma_id_justified_elim(em0, v, w);
                assert(i0 >= 1) by {
                    if i0 == 0 {
                        assert(v == id);
                        let k2 = choose|k2: int|
                            n_kws <= k2 < victim.keywords.len() && victim.keywords[k2] == w;
                        assert(false);
                    }
                }
                assert(em1[i0 - 1] == em0[i0]);
                lemma_id_justified_intro(em1, i0 - 1, v, w);
            }
            assert forall|i: int, k2: int|
                0 <= i < em1.len() && 0 <= k2 < em1[i].keywords.len() implies Self::kw_covered(
                im,
                #[trigger] em1[i].keywords[k2],
                em1[i].id,
            ) by {
                assert(em1[i] == em0[i + 1]);
                assert(Self::kw_covered(im, em0[i + 1].keywords[k2], em0[i + 1].id));
            }
        }
    }
}


/// Extending the counted prefix by one keyword.
proof fn lemma_cnt_kw_step(ws: Seq<Seq<char>>, w: Seq<char>, i: int)
    requires
        0 <= i < ws.len(),
    ensures
        MemoryStore::cnt_kw(ws.take(i + 1), w) == MemoryStore::cnt_kw(ws.take(i), w) + (if ws[i]
            == w {
            1 as nat
        } else {
            0 as nat
        }),
    decreases i,
{
    if i == 0 {
        assert(ws.take(1).drop_first() =~= ws.take(0));
        assert(ws.take(1)[0] == ws[0]);
    } else {
        lemma_cnt_kw_step(ws.drop_first(), w, i - 1);
        assert(ws.take(i + 1)[0] == ws[0]);
        assert(ws.take(i + 1).drop_first() =~= ws.drop_first().take(i));
        assert(ws.take(i)[0] == ws[0]);
        assert(ws.take(i).drop_first() =~= ws.drop_first().take(i - 1));
        assert(ws.drop_first()[i - 1] == ws[i]);
    }
}

proof fn lemma_cnt_kw_prefix(ws: Seq<Seq<char>>, w: Seq<char>, i: int)
    requires
        0 <= i <= ws.len(),
    ensures
        MemoryStore::cnt_kw(ws.take(i), w) <= i,
    decreases i,
{
    if i > 0 {
        lemma_cnt_kw_prefix(ws, w, i - 1);
        lemma_cnt_kw_step(ws, w, i - 1);
    } else {
        assert(ws.take(0).len() == 0);
    }
}

/// A keyword list holds `w` exactly when its count is positive.
proof fn lemma_cnt_kw_contains(ws: Seq<Seq<char>>, w: Seq<char>)
    ensures
        (MemoryStore::cnt_kw(ws, w) > 0) == ws.contains(w),
    decreases ws.len(),
{
    if ws.len() > 0 {
        lemma_cnt_kw_contains(ws.drop_first(), w);
        if ws[0] == w {
            assert(ws.contains(w));
        } else {
            if ws.drop_first().contains(w) {
                let m = choose|m: int|
                    0 <= m < ws.drop_first().len() && ws.drop_first()[m] == w;
                assert(ws[m + 1] == w);
            }
            if ws.contains(w) {
                let m = choose|m: int| 0 <= m < ws.len() && ws[m] == w;
                assert(m >= 1);
                assert(ws.drop_first()[m - 1] == w);
            }
        }
    }
}

/// Extending the counted prefix by one entry.
proof fn lemma_doc_freq_step(em: Seq<EntryModel>, w: Seq<char>, i: int)
    requires
        0 <= i < em.len(),
    ensures
        MemoryStore::doc_freq(em.take(i + 1), w) == MemoryStore::doc_freq(em.take(i), w) + (
        if em[i].keywords.contains(w) {
            1 as nat
        } else {
            0 as nat
        }),
    decreases i,
{
    if i == 0 {
        assert(em.take(1).drop_first() =~= em.take(0));
        assert(em.take(1)[0] == em[0]);
    } else {
        lemma_doc_freq_step(em.drop_first(), w, i - 1);
        assert(em.take(i + 1)[0] == em[0]);
        assert(em.take(i + 1).drop_first() =~= em.drop_first().take(i));
        assert(em.take(i)[0] == em[0]);
        assert(em.take(i).drop_first() =~= em.drop_first().take(i - 1));
        assert(em.drop_first()[i - 1] == em[i]);
    }
}

/// When entry `i` holds the keyword, the document frequency is positive
/// and cannot exceed the number of entries.
proof fn lemma_doc_freq_pos(em: Seq<EntryModel>, w: Seq<char>, i: int)
    requires
        0 <= i < em.len(),
        em[i].keywords.contains(w),
    ensures
        MemoryStore::doc_freq(em, w) >= 1,
        MemoryStore::doc_freq(em, w) <= em.len(),
    decreases em.len(),
{
    lemma_doc_freq_bound(em, w);
    if i == 0 {
    } else {
        lemma_doc_freq_pos(em.drop_first(), w, i - 1);
        assert(em.drop_first()[i - 1] == em[i]);
    }
}

proof fn lemma_doc_freq_bound(em: Seq<EntryModel>, w: Seq<char>)
    ensures
        MemoryStore::doc_freq(em, w) <= em.len(),
    decreases em.len(),
{
    if em.len() > 0 {
        lemma_doc_freq_bound(em.drop_first(), w);
    }
}

/// With no query terms there are no hits.
proof fn lemma_spec_hits_no_candidates(pre: Seq<EntryModel>, em: Seq<EntryModel>, qs: Seq<Seq<char>>)
    requires
        qs.len() == 0,
    ensures
        MemoryStore::spec_hits(pre, em, qs).len() == 0,
    decreases pre.len(),
{
    if pre.len() > 0 {
        lemma_spec_hits_no_candidates(pre.drop_first(), em, qs);
        assert(!MemoryStore::is_candidate(pre[0], qs));
    }
}

/// Extending the scored prefix by one entry.
proof fn lemma_spec_hits_step(pre: Seq<EntryModel>, em: Seq<EntryModel>, qs: Seq<Seq<char>>, i: int)
    requires
        0 <= i < pre.len(),
    ensures
        MemoryStore::spec_hits(pre.take(i + 1), em, qs) == MemoryStore::spec_hits(
            pre.take(i),
            em,
            qs,
        ) + (if MemoryStore::is_candidate(pre[i], qs) {
            seq![(pre[i].id, MemoryStore::entry_score(em, pre[i], qs))]
        } else {
            Seq::<(u64, u32)>::empty()
        }),
    decreases i,
{
    if i == 0 {
        assert(pre.take(1).drop_first() =~= pre.take(0));
        assert(pre.take(1)[0] == pre[0]);
        assert(MemoryStore::spec_hits(pre.take(0), em, qs) =~= Seq::<(u64, u32)>::empty());
        assert(MemoryStore::spec_hits(pre.take(1), em, qs) =~= MemoryStore::spec_hits(
            pre.take(0),
            em,
            qs,
        ) + (if MemoryStore::is_candidate(pre[0], qs) {
            seq![(pre[0].id, MemoryStore::entry_score(em, pre[0], qs))]
        } else {
            Seq::<(u64, u32)>::empty()
        }));
    } else {
        lemma_spec_hits_step(pre.drop_first(), em, qs, i - 1);
        assert(pre.take(i + 1)[0] == pre[0]);
        assert(pre.take(i + 1).drop_first() =~= pre.drop_first().take(i));
        assert(pre.take(i)[0] == pre[0]);
        assert(pre.take(i).drop_first() =~= pre.drop_first().take(i - 1));
        assert(pre.drop_first()[i - 1] == pre[i]);
        assert(MemoryStore::spec_hits(pre.take(i + 1), em, qs) =~= MemoryStore::spec_hits(
            pre.take(i),
            em,
            qs,
        ) + (if MemoryStore::is_candidate(pre[i], qs) {
            seq![(pre[i].id, MemoryStore::entry_score(em, pre[i], qs))]
        } else {
            Seq::<(u64, u32)>::empty()
        }));
    }
}

/// Whether `x` ranks at least as high as `y`: higher score first, lower
/// id on equal scores.
pub open spec fn ranks_before(x: (u64, u32), y: (u64, u32)) -> bool {
    x.1 > y.1 || (x.1 == y.1 && x.0 <= y.0)
}

fn ranks_before_exec(x: (u64, u32), y: (u64, u32)) -> (r: bool)
    ensures
        r == ranks_before(x, y),
{
    x.1 > y.1 || (x.1 == y.1 && x.0 <= y.0)
}

/// Sorts results by score descending, ascending id on ties, by repeated
/// selection of the best remaining pair.
fn sort_ranked(v: Vec<(u64, u32)>) -> (r: Vec<(u64, u32)>)
    ensures
        r@.to_multiset() == v@.to_multiset(),
        MemoryStore::ranked(r@),
{
    broadcast use vstd::seq_lib::group_to_multiset_ensures;

    let mut rest = v;
    let mut out: Vec<(u64, u32)> = Vec::new();
    proof {
        assert(out@.to_multiset().add(rest@.to_multiset()) =~= v@.to_multiset());
    }
    while rest.len() > 0
        invariant
            out@.to_multiset().add(rest@.to_multiset()) == v@.to_multiset(),
            MemoryStore::ranked(out@),
            forall|p: int, q: int|
                0 <= p < out@.len() && 0 <= q < rest@.len() ==> ranks_before(
                    #[trigger] out@[p],
                    #[trigger] rest@[q],
                ),
        decreases rest@.len(),
    {
        let mut best: usize = 0;
        let mut q: usize = 1;
        while q < rest.len()
            invariant
                rest@.len() > 0,
                best < q <= rest@.len() || (best == 0 && q <= rest@.len()),
                best < rest@.len(),
                forall|m: int| 0 <= m < q ==> ranks_before(#[trigger] rest@[best as int], rest@[m]),
            decreases rest@.len() - q,
        {
            if ranks_before_exec(rest[q], rest[best]) && !ranks_before_exec(rest[best], rest[q]) {
                best = q;
            }
            q = q + 1;
        }
        let ghost rest0 = rest@;
        let picked = rest.remove(best);
        let ghost out0 = out@;
        out.push(picked);
        proof {
            assert(rest0[best as int] == picked);
            assert(rest@ == rest0.remove(best as int));
            assert(out@ == out0.push(picked));
            vstd::seq_lib::to_multiset_build::<(u64, u32)>(out0, picked);
            vstd::seq_lib::to_multiset_remove::<(u64, u32)>(rest0, best as int);
            assert(out0.push(picked).to_multiset() =~= out0.to_multiset().insert(picked));
            assert(rest0.remove(best as int).to_multiset() =~= rest0.to_multiset().remove(
                rest0[best as int],
            ));
            vstd::seq_lib::to_multiset_contains::<(u64, u32)>(rest0, picked);
            assert(rest0.to_multiset().count(picked) > 0) by {
                assert(rest0.contains(picked));
            }
            assert(out@.to_multiset().add(rest@.to_multiset()) =~= v@.to_multiset());
            // the picked pair ranks before everything left
            assert forall|m: int| 0 <= m < rest@.len() implies ranks_before(
                picked,
                #[trigger] rest@[m],
            ) by {
                let m0: int = if m < best as int {
                    m
                } else {
                    m + 1
                };
                assert(rest@[m] == rest0[m0]);
                assert(ranks_before(rest0[best as int], rest0[m0]));
            }
            assert forall|p: int, q2: int|
                0 <= p < q2 < out@.len() implies (#[trigger] out@[p]).1 > (#[trigger] out@[q2]).1
                || (out@[p].1 == out@[q2].1 && out@[p].0 <= out@[q2].0) by {
                if q2 < out0.len() {
                    assert(out@[p] == out0[p] && out@[q2] == out0[q2]);
                } else {
                    assert(out@[q2] == picked);
                    assert(out@[p] == out0[p]);
                    assert(ranks_before(out0[p], rest0[best as int]));
                }
            }
        }
    }
    proof {
        assert(rest@.to_multiset() =~= Multiset::<(u64, u32)>::empty());
        assert(out@.to_multiset().add(Multiset::<(u64, u32)>::empty()) =~= out@.to_multiset());
    }
    out
}

/// Extending a comma join by one more keyword.
proof fn lemma_join_step(ws: Seq<Seq<char>>, i: int)
    requires
        1 <= i < ws.len(),
    ensures
        crate::codec::join_char(ws.take(i + 1), ',') == crate::codec::join_char(ws.take(i), ',')
            + seq![','] + ws[i],
    decreases i,
{
    if i == 1 {
        assert(ws.take(2)[0] == ws[0]);
        assert(ws.take(2).drop_first() =~= seq![ws[1]]);
        assert(crate::codec::join_char(seq![ws[1]], ',') == ws[1]);
        assert(ws.take(1) =~= seq![ws[0]]);
        assert(crate::codec::join_char(ws.take(1), ',') == ws[0]);
        assert(crate::codec::join_char(ws.take(2), ',') =~= ws[0] + seq![','] + ws[1]);
    } else {
        lemma_join_step(ws.drop_first(), i - 1);
        assert(ws.take(i + 1)[0] == ws[0]);
        assert(ws.take(i + 1).drop_first() =~= ws.drop_first().take(i));
        assert(ws.take(i)[0] == ws[0]);
        assert(ws.take(i).drop_first() =~= ws.drop_first().take(i - 1));
        assert(ws.drop_first()[i - 1] == ws[i]);
        assert(ws.drop_first().take(i).len() >= 2);
        assert(crate::codec::join_char(ws.take(i + 1), ',') =~= ws[0] + seq![',']
            + crate::codec::join_char(ws.drop_first().take(i), ','));
        assert(crate::codec::join_char(ws.take(i), ',') =~= ws[0] + seq![',']
            + crate::codec::join_char(ws.drop_first().take(i - 1), ','));
        assert(ws[0] + seq![','] + (crate::codec::join_char(ws.drop_first().take(i - 1), ',')
            + seq![','] + ws[i]) =~= (ws[0] + seq![','] + crate::codec::join_char(
            ws.drop_first().take(i - 1),
            ',',
        )) + seq![','] + ws[i]);
    }
}

/// Extending the serialized prefix by one entry.
proof fn lemma_ser_store_step(em: Seq<EntryModel>, i: int)
    requires
        0 <= i < em.len(),
    ensures
        MemoryStore::ser_store(em.take(i + 1)) == MemoryStore::ser_store(em.take(i))
            + MemoryStore::ser_entry(em[i]) + seq!['\n'],
    decreases i,
{
    if i == 0 {
        assert(em.take(1)[0] == em[0]);
        assert(em.take(1).drop_first() =~= em.take(0));
        assert(MemoryStore::ser_store(em.take(0)).len() == 0);
        assert(MemoryStore::ser_store(em.take(1)) =~= MemoryStore::ser_store(em.take(0))
            + MemoryStore::ser_entry(em[0]) + seq!['\n']);
    } else {
        lemma_ser_store_step(em.drop_first(), i - 1);
        assert(em.take(i + 1)[0] == em[0]);
        assert(em.take(i + 1).drop_first() =~= em.drop_first().take(i));
        assert(em.take(i)[0] == em[0]);
        assert(em.take(i).drop_first() =~= em.drop_first().take(i - 1));
        assert(em.drop_first()[i - 1] == em[i]);
        assert(MemoryStore::ser_store(em.take(i + 1)) =~= MemoryStore::ser_entry(em[0])
            + seq!['\n'] + MemoryStore::ser_store(em.drop_first().take(i)));
        assert(MemoryStore::ser_store(em.take(i)) =~= MemoryStore::ser_entry(em[0]) + seq!['\n']
            + MemoryStore::ser_store(em.drop_first().take(i - 1)));
        assert(MemoryStore::ser_entry(em[0]) + seq!['\n'] + (MemoryStore::ser_store(
            em.drop_first().take(i - 1),
        ) + MemoryStore::ser_entry(em[i]) + seq!['\n']) =~= (MemoryStore::ser_entry(em[0])
            + seq!['\n'] + MemoryStore::ser_store(em.drop_first().take(i - 1)))
            + MemoryStore::ser_entry(em[i]) + seq!['\n']);
    }
}

/// One more line folded into a load.
proof fn lemma_load_take_step(lines: Seq<Seq<char>>, p: int)
    requires
        0 <= p < lines.len(),
    ensures
        MemoryStore::load_from(Seq::empty(), lines.take(p + 1)) == MemoryStore::load_step(
            MemoryStore::load_from(Seq::empty(), lines.take(p)),
            lines[p],
        ),
{
    lemma_load_snoc(Seq::empty(), lines.take(p), lines[p]);
    assert(lines.take(p + 1) =~= lines.take(p).push(lines[p]));
}

proof fn lemma_load_snoc(acc: Seq<EntryModel>, ls: Seq<Seq<char>>, l: Seq<char>)
    ensures
        MemoryStore::load_from(acc, ls.push(l)) == MemoryStore::load_step(
            MemoryStore::load_from(acc, ls),
            l,
        ),
    decreases ls.len(),
{
    if ls.len() == 0 {
        assert(ls.push(l)[0] == l);
        assert(ls.push(l).drop_first() =~= Seq::<Seq<char>>::empty());
        assert(MemoryStore::load_from(MemoryStore::load_step(acc, l), Seq::empty())
            == MemoryStore::load_step(acc, l));
    } else {
        lemma_load_snoc(MemoryStore::load_step(acc, ls[0]), ls.drop_first(), l);
        assert(ls.push(l)[0] == ls[0]);
        assert(ls.push(l).drop_first() =~= ls.drop_first().push(l));
    }
}

/// A scan that stops at the first id not below `id` has counted exactly
/// the smaller ids, in a sorted list.
proof fn lemma_num_smaller_window(em: Seq<EntryModel>, id: u64, p: int)
    requires
        MemoryStore::entries_sorted(em),
        0 <= p <= em.len(),
        forall|m: int| 0 <= m < p ==> (#[trigger] em[m]).id < id,
        p < em.len() ==> em[p].id >= id,
    ensures
        MemoryStore::num_smaller(em, id) == p,
    decreases em.len(),
{
    if em.len() == 0 {
    } else if p == 0 {
        assert(em[0].id >= id);
        lemma_num_smaller_none(em, id);
    } else {
        assert(em[0].id < id);
        assert forall|m: int| 0 <= m < p - 1 implies (#[trigger] em.drop_first()[m]).id < id by {
            assert(em.drop_first()[m] == em[m + 1]);
        }
        if p - 1 < em.drop_first().len() {
            assert(em.drop_first()[p - 1] == em[p]);
        }
        lemma_num_smaller_window(em.drop_first(), id, p - 1);
    }
}

proof fn lemma_num_smaller_none(em: Seq<EntryModel>, id: u64)
    requires
        MemoryStore::entries_sorted(em),
        em.len() > 0 ==> em[0].id >= id,
    ensures
        MemoryStore::num_smaller(em, id) == 0,
    decreases em.len(),
{
    if em.len() > 0 {
        assert forall|i: int, j: int|
            0 <= i < j < em.drop_first().len() implies (#[trigger] em.drop_first()[i]).id
            < (#[trigger] em.drop_first()[j]).id by {
            assert(em.drop_first()[i] == em[i + 1] && em.drop_first()[j] == em[j + 1]);
        }
        if em.len() > 1 {
            assert(em.drop_first()[0] == em[1]);
            assert(em[0].id < em[1].id);
        }
        lemma_num_smaller_none(em.drop_first(), id);
    }
}

/// Decimal digits hold neither separators nor white space.
proof fn lemma_digits_plain(s: Seq<char>)
    requires
        crate::text::all_digits(s),
    ensures
        crate::codec::free_of(s, '|'),
        crate::codec::free_of(s, '\n'),
        forall|i: int| 0 <= i < s.len() ==> !crate::text::space_char(#[trigger] s[i]),
{
    assert forall|i: int|
        0 <= i < s.len() implies s[i] != '|' && s[i] != '\n' && !crate::text::space_char(
        #[trigger] s[i],
    ) by {
        assert(crate::text::is_digit(s[i]));
        assert(48 <= s[i] as u32 <= 57);
        assert('|' as u32 == 124 && '\n' as u32 == 10);
    }
}

/// Kind tags hold neither separators nor white space.
proof fn lemma_tag_plain(k: MemoryKind)
    ensures
        crate::codec::free_of(k.spec_tag(), '|'),
        crate::codec::free_of(k.spec_tag(), '\n'),
{
    reveal_strlit("spark");
    reveal_strlit("connection");
    reveal_strlit("resource");
    reveal_strlit("feeling");
    reveal_strlit("observation");
}

/// A comma join of keywords fit for the index holds no line feed.
proof fn lemma_join_plain(ws: Seq<Seq<char>>)
    requires
        forall|k: int| 0 <= k < ws.len() ==> crate::codec::free_of(#[trigger] ws[k], '\n'),
    ensures
        crate::codec::free_of(crate::codec::join_char(ws, ','), '\n'),
    decreases ws.len(),
{
    if ws.len() == 0 {
    } else if ws.len() == 1 {
        assert(crate::codec::join_char(ws, ',') == ws[0]);
    } else {
        assert forall|k: int|
            0 <= k < ws.drop_first().len() implies crate::codec::free_of(
            #[trigger] ws.drop_first()[k],
            '\n',
        ) by {
            assert(ws.drop_first()[k] == ws[k + 1]);
        }
        lemma_join_plain(ws.drop_first());
        let j = crate::codec::join_char(ws, ',');
        let t = crate::codec::join_char(ws.drop_first(), ',');
        assert(j == ws[0] + seq![','] + t);
        assert forall|i: int| 0 <= i < j.len() implies j[i] != '\n' by {
            if i < ws[0].len() {
                assert(j[i] == ws[0][i]);
            } else if i == ws[0].len() {
                assert(j[i] == ',');
            } else {
                assert(j[i] == t[i - ws[0].len() - 1]);
            }
        }
    }
}

/// The last character of a non-empty keyword join is the last character
/// of the last keyword.
proof fn lemma_join_last(ws: Seq<Seq<char>>)
    requires
        ws.len() > 0,
        forall|k: int| 0 <= k < ws.len() ==> (#[trigger] ws[k]).len() > 0,
    ensures
        crate::codec::join_char(ws, ',').len() > 0,
        crate::codec::join_char(ws, ',').last() == ws.last().last(),
    decreases ws.len(),
{
    if ws.len() == 1 {
        assert(crate::codec::join_char(ws, ',') == ws[0]);
    } else {
        assert forall|k: int| 0 <= k < ws.drop_first().len() implies (#[trigger] ws.drop_first()[
        k]).len() > 0 by {
            assert(ws.drop_first()[k] == ws[k + 1]);
        }
        lemma_join_last(ws.drop_first());
        let j = crate::codec::join_char(ws, ',');
        let t = crate::codec::join_char(ws.drop_first(), ',');
        assert(j == ws[0] + seq![','] + t);
        assert(j.last() == t.last());
        assert(ws.drop_first().last() == ws.last());
    }
}

/// A seven-field pipe join, written out.
proof fn lemma_join7(parts: Seq<Seq<char>>)
    requires
        parts.len() == 7,
    ensures
        crate::codec::join_char(parts, '|') == parts[0] + seq!['|'] + parts[1] + seq!['|']
            + parts[2] + seq!['|'] + parts[3] + seq!['|'] + parts[4] + seq!['|'] + parts[5]
            + seq!['|'] + parts[6],
{
    let p1 = parts.drop_first();
    let p2 = p1.drop_first();
    let p3 = p2.drop_first();
    let p4 = p3.drop_first();
    let p5 = p4.drop_first();
    let p6 = p5.drop_first();
    assert(p6.len() == 1);
    assert(crate::codec::join_char(p6, '|') == p6[0]);
    assert(crate::codec::join_char(p5, '|') == p5[0] + seq!['|'] + crate::codec::join_char(
        p6,
        '|',
    ));
    assert(crate::codec::join_char(p4, '|') == p4[0] + seq!['|'] + crate::codec::join_char(
        p5,
        '|',
    ));
    assert(crate::codec::join_char(p3, '|') == p3[0] + seq!['|'] + crate::codec::join_char(
        p4,
        '|',
    ));
    assert(crate::codec::join_char(p2, '|') == p2[0] + seq!['|'] + crate::codec::join_char(
        p3,
        '|',
    ));
    assert(crate::codec::join_char(p1, '|') == p1[0] + seq!['|'] + crate::codec::join_char(
        p2,
        '|',
    ));
    assert(crate::codec::join_char(parts, '|') == parts[0] + seq!['|'] + crate::codec::join_char(
        p1,
        '|',
    ));
    assert(p1[0] == parts[1] && p2[0] == parts[2] && p3[0] == parts[3] && p4[0] == parts[4] && p5[0]
        == parts[5] && p6[0] == parts[6]);
    assert(parts[0] + seq!['|'] + (parts[1] + seq!['|'] + (parts[2] + seq!['|'] + (parts[3]
        + seq!['|'] + (parts[4] + seq!['|'] + (parts[5] + seq!['|'] + parts[6]))))) =~= parts[0]
        + seq!['|'] + parts[1] + seq!['|'] + parts[2] + seq!['|'] + parts[3] + seq!['|'] + parts[4]
        + seq!['|'] + parts[5] + seq!['|'] + parts[6]);
}

/// Every position of a join comes from a part or is the separator.
proof fn lemma_join_char_pos(parts: Seq<Seq<char>>, c: char, i: int)
    requires
        0 <= i < crate::codec::join_char(parts, c).len(),
    ensures
        crate::codec::join_char(parts, c)[i] == c || exists|p: int, q: int|
            0 <= p < parts.len() && 0 <= q < parts[p].len() && crate::codec::join_char(parts, c)[i]
                == #[trigger] parts[p][q],
    decreases parts.len(),
{
    let j = crate::codec::join_char(parts, c);
    if parts.len() == 1 {
        assert(j[i] == parts[0][i]);
    } else if parts.len() > 1 {
        let t = crate::codec::join_char(parts.drop_first(), c);
        assert(j == parts[0] + seq![c] + t);
        if i < parts[0].len() {
            assert(j[i] == parts[0][i]);
        } else if i == parts[0].len() {
            assert(j[i] == c);
        } else {
            lemma_join_char_pos(parts.drop_first(), c, i - parts[0].len() - 1);
            assert(j[i] == t[i - parts[0].len() - 1]);
            if t[i - parts[0].len() - 1] != c {
                let (p, q) = choose|p: int, q: int|
                    0 <= p < parts.drop_first().len() && 0 <= q < parts.drop_first()[p].len() && t[
                        i - parts[0].len() - 1] == #[trigger] parts.drop_first()[p][q];
                assert(parts.drop_first()[p] == parts[p + 1]);
                assert(j[i] == parts[p + 1][q]);
            }
        }
    }
}

/// Filtering keeps everything when every element passes.
proof fn lemma_filter_all_nonempty(ws: Seq<Seq<char>>)
    requires
        forall|k: int| 0 <= k < ws.len() ==> (#[trigger] ws[k]).len() > 0,
    ensures
        ws.filter(nonempty_pred()) == ws,
    decreases ws.len(),
{
    reveal(Seq::filter);
    if ws.len() > 0 {
        assert forall|k: int| 0 <= k < ws.drop_last().len() implies (#[trigger] ws.drop_last()[
        k]).len() > 0 by {
            assert(ws.drop_last()[k] == ws[k]);
        }
        lemma_filter_all_nonempty(ws.drop_last());
        assert(nonempty_pred()(ws.last()));
        assert(ws.filter(nonempty_pred()) =~= ws);
    }
}

/// The ranking order is a total ordering: a pair is determined by its id
/// and score, and ties on score fall back to the id.
proof fn lemma_rank_total_ordering()
    ensures
        vstd::relations::total_ordering(MemoryStore::rank_ord()),
{
    let leq = MemoryStore::rank_ord();
    assert forall|x: (u64, u32)| #[trigger] leq(x, x) by {}
    assert forall|x: (u64, u32), y: (u64, u32)| #[trigger] leq(x, y) && #[trigger] leq(y, x)
        implies x == y by {}
    assert forall|x: (u64, u32), y: (u64, u32), z: (u64, u32)|
        #[trigger] leq(x, y) && #[trigger] leq(y, z) implies leq(x, z) by {}
    assert forall|x: (u64, u32), y: (u64, u32)| #[trigger] leq(x, y) || #[trigger] leq(y, x) by {}
}

/// Saturating add on machine words.
fn sat_add_exec(a: usize, b: usize) -> (r: usize)
    ensures
        r as nat == MemoryStore::sat_add_us(a as nat, b as nat),
{
    match a.checked_add(b) {
        Some(v) => v,
        None => usize::MAX,
    }
}

/// Where a stable count-descending insertion lands: right before the
/// trailing run of strictly smaller counts.
proof fn lemma_insert_by_count_pos(s: Seq<(Seq<char>, nat)>, x: (Seq<char>, nat), p: int)
    requires
        0 <= p <= s.len(),
        forall|j: int| p <= j < s.len() ==> (#[trigger] s[j]).1 < x.1,
        p > 0 ==> s[p - 1].1 >= x.1,
    ensures
        MemoryStore::insert_by_count(s, x) == s.take(p) + seq![x] + s.skip(p),
    decreases s.len(),
{
    if s.len() == 0 {
        assert(MemoryStore::insert_by_count(s, x) =~= s.take(0) + seq![x] + s.skip(0));
    } else if s.last().1 >= x.1 {
        assert(p == s.len()) by {
            if p < s.len() {
                assert(s[s.len() - 1].1 < x.1);
            }
        }
        assert(MemoryStore::insert_by_count(s, x) =~= s.take(p) + seq![x] + s.skip(p));
    } else {
        assert(p <= s.len() - 1) by {
            if p == s.len() {
                assert(s[p - 1].1 >= x.1);
            }
        }
        assert forall|j: int| p <= j < s.drop_last().len() implies (#[trigger] s.drop_last()[
        j]).1 < x.1 by {
            assert(s.drop_last()[j] == s[j]);
        }
        if p > 0 {
            assert(s.drop_last()[p - 1] == s[p - 1]);
        }
        lemma_insert_by_count_pos(s.drop_last(), x, p);
        assert(MemoryStore::insert_by_count(s, x) =~= (s.drop_last().take(p) + seq![x]
            + s.drop_last().skip(p)).push(s.last()));
        assert((s.drop_last().take(p) + seq![x] + s.drop_last().skip(p)).push(s.last()) =~= s.take(
            p,
        ) + seq![x] + s.skip(p));
    }
}

/// A posting membership observed at a concrete position.
proof fn lemma_kw_covered_intro(im: Seq<PostingModel>, a: int, w: Seq<char>, id: u64)
    requires
        0 <= a < im.len(),
        im[a].keyword == w,
        im[a].ids.contains(id),
    ensures
        MemoryStore::kw_covered(im, w, id),
{
}

/// The posting behind a membership fact.
proof fn lemma_kw_covered_elim(im: Seq<PostingModel>, w: Seq<char>, id: u64) -> (a: int)
    requires
        MemoryStore::kw_covered(im, w, id),
    ensures
        0 <= a < im.len(),
        im[a].keyword == w,
        im[a].ids.contains(id),
{
    choose|a: int| 0 <= a < im.len() && (#[trigger] im[a]).keyword == w && im[a].ids.contains(id)
}

/// An entry justification observed at a concrete position.
proof fn lemma_id_justified_intro(em: Seq<EntryModel>, i: int, id: u64, w: Seq<char>)
    requires
        0 <= i < em.len(),
        em[i].id == id,
        em[i].keywords.contains(w),
    ensures
        MemoryStore::id_justified(em, id, w),
{
}

/// The entry behind a justification fact.
proof fn lemma_id_justified_elim(em: Seq<EntryModel>, id: u64, w: Seq<char>) -> (i: int)
    requires
        MemoryStore::id_justified(em, id, w),
    ensures
        0 <= i < em.len(),
        em[i].id == id,
        em[i].keywords.contains(w),
{
    choose|i: int| 0 <= i < em.len() && (#[trigger] em[i]).id == id && em[i].keywords.contains(w)
}

/// A keyword extracted from text is never empty.
proof fn lemma_extracted_kw_nonempty(s: Seq<char>, k: int)
    requires
        0 <= k < extract_kws(s).len(),
    ensures
        extract_kws(s)[k].len() > 0,
{
    lemma_kws_nonempty(crate::keywords::split_ws(s));
}

proof fn lemma_kws_nonempty(ws: Seq<Seq<char>>)
    ensures
        forall|k: int|
            0 <= k < crate::keywords::kws_of_words(ws).len()
                ==> #[trigger] crate::keywords::kws_of_words(ws)[k].len() > 0,
    decreases ws.len(),
{
    if ws.len() > 0 {
        lemma_kws_nonempty(ws.drop_first());
        let head = crate::keywords::token_kws(ws[0]);
        let tail = crate::keywords::kws_of_words(ws.drop_first());
        assert forall|k: int|
            0 <= k < crate::keywords::kws_of_words(ws).len() implies #[trigger] crate::keywords::kws_of_words(
            ws,
        )[k].len() > 0 by {
            if k < head.len() {
                let cw = ws[0].filter(crate::keywords::word_pred());
                if crate::keywords::utf8_len(cw) >= crate::keywords::MIN_WORD_LEN as nat {
                    assert(crate::keywords::utf8_len(cw) > 0);
                    assert(cw.len() > 0);
                }
                assert(crate::keywords::kws_of_words(ws)[k] == head[k]);
            } else {
                assert(crate::keywords::kws_of_words(ws)[k] == tail[k - head.len()]);
            }
        }
    }
}

/// One eviction step removed the oldest entry's id from the posting at
/// `a`, and dropped the posting when it became empty. The index
/// invariants and the loop facts carry to the next keyword position.
#[verifier::rlimit(80)]
proof fn lemma_evict_step_prune(
    em0: Seq<EntryModel>,
    im0: Seq<PostingModel>,
    im1: Seq<PostingModel>,
    a: int,
    victim: EntryModel,
    k: int,
    id: u64,
    kw: Seq<char>,
    j: int,
    dropped: bool,
)
    requires
        0 <= a < im0.len(),
        0 <= j < im0[a].ids.len(),
        im0[a].ids[j] == id,
        im0[a].keyword == kw,
        dropped ==> im0[a].ids.remove(j).len() == 0 && im1 == im0.remove(a),
        !dropped ==> im0[a].ids.remove(j).len() > 0 && im1 == im0.update(
            a,
            PostingModel { keyword: kw, ids: im0[a].ids.remove(j) },
        ),
        MemoryStore::spec_index_shape(im0),
        MemoryStore::spec_index_sound(em0, im0),
        em0.len() > 0,
        victim == em0[0],
        0 <= k < victim.keywords.len(),
        victim.keywords[k] == kw,
        MemoryStore::entries_sorted(em0),
        victim.id == id,
        forall|i: int, k2: int|
            1 <= i < em0.len() && 0 <= k2 < em0[i].keywords.len() ==> MemoryStore::kw_covered(
                im0,
                #[trigger] em0[i].keywords[k2],
                em0[i].id,
            ),
        forall|w: Seq<char>|
            #[trigger] MemoryStore::kw_covered(im0, w, id) ==> exists|k2: int|
                k <= k2 < victim.keywords.len() && victim.keywords[k2] == w,
    ensures
        MemoryStore::spec_index_shape(im1),
        MemoryStore::spec_index_sound(em0, im1),
        forall|i: int, k2: int|
            1 <= i < em0.len() && 0 <= k2 < em0[i].keywords.len() ==> MemoryStore::kw_covered(
                im1,
                #[trigger] em0[i].keywords[k2],
                em0[i].id,
            ),
        forall|w: Seq<char>|
            #[trigger] MemoryStore::kw_covered(im1, w, id) ==> exists|k2: int|
                k + 1 <= k2 < victim.keywords.len() && victim.keywords[k2] == w,
{
    let rest = im0[a].ids.remove(j);
    assert(rest =~= im0[a].ids.subrange(0, j) + im0[a].ids.skip(j + 1));
    // the removed id occurs nowhere in the shrunk list
    assert forall|m: int| 0 <= m < rest.len() implies rest[m] != id by {
        if m < j {
            assert(rest[m] == im0[a].ids[m]);
            assert(im0[a].ids[m] < im0[a].ids[j]);
        } else {
            assert(rest[m] == im0[a].ids[m + 1]);
            assert(im0[a].ids[j] < im0[a].ids[m + 1]);
        }
    }
    // positions of im1 map to positions of im0
    assert forall|b: int| 0 <= b < im1.len() implies exists|b0: int|
        0 <= b0 < im0.len() && (#[trigger] im1[b]).keyword == im0[b0].keyword && (forall|v: u64|
            im1[b].ids.contains(v) ==> #[trigger] im0[b0].ids.contains(v)) && (im1[b].ids.contains(
            id,
        ) ==> im0[b0].ids.contains(id) && b0 != a) by {
        if dropped {
            let b0 = if b < a {
                b
            } else {
                b + 1
            };
            assert(im1[b] == im0[b0]);
            assert(b0 != a);
            assert(0 <= b0 < im0.len() && im1[b].keyword == im0[b0].keyword && (forall|v: u64|
                im1[b].ids.contains(v) ==> #[trigger] im0[b0].ids.contains(v)) && (im1[
                b].ids.contains(id) ==> im0[b0].ids.contains(id) && b0 != a));
        } else {
            if b == a {
                assert(im1[b].keyword == im0[a].keyword);
                assert forall|v: u64| im1[b].ids.contains(v) implies #[trigger] im0[a].ids.contains(
                    v,
                ) by {
                    let m = choose|m: int| 0 <= m < rest.len() && rest[m] == v;
                    let m0: int = if m < j {
                        m
                    } else {
                        m + 1
                    };
                    assert(im0[a].ids[m0] == v);
                }
                assert(!im1[b].ids.contains(id)) by {
                    if im1[b].ids.contains(id) {
                        let m = choose|m: int| 0 <= m < rest.len() && rest[m] == id;
                        assert(rest[m] != id);
                    }
                }
                assert(0 <= a < im0.len() && im1[b].keyword == im0[a].keyword && (forall|v: u64|
                    im1[b].ids.contains(v) ==> #[trigger] im0[a].ids.contains(v)) && (im1[
                    b].ids.contains(id) ==> im0[a].ids.contains(id) && a != a));
            } else {
                assert(im1[b] == im0[b]);
                assert(0 <= b < im0.len() && im1[b].keyword == im0[b].keyword && (forall|v: u64|
                    im1[b].ids.contains(v) ==> #[trigger] im0[b].ids.contains(v)) && (im1[
                    b].ids.contains(id) ==> im0[b].ids.contains(id) && b != a));
            }
        }
    }
    // shape
    assert forall|b: int, i2: int, j2: int|
        0 <= b < im1.len() && 0 <= i2 < j2 < im1[b].ids.len() implies #[trigger] im1[b].ids[i2]
        < #[trigger] im1[b].ids[j2] by {
        if dropped {
            let b0 = if b < a {
                b
            } else {
                b + 1
            };
            assert(im1[b] == im0[b0]);
            assert(im0[b0].ids[i2] < im0[b0].ids[j2]);
        } else if b == a {
            let x1: int = if i2 < j {
                i2
            } else {
                i2 + 1
            };
            let y1: int = if j2 < j {
                j2
            } else {
                j2 + 1
            };
            assert(im1[b].ids[i2] == im0[a].ids[x1] && im1[b].ids[j2] == im0[a].ids[y1]);
            assert(im0[a].ids[x1] < im0[a].ids[y1]);
        } else {
            assert(im1[b] == im0[b]);
            assert(im0[b].ids[i2] < im0[b].ids[j2]);
        }
    }
    assert forall|b: int, c: int| 0 <= b < c < im1.len() implies im1[b].keyword
        != im1[c].keyword by {
        if dropped {
            let b0 = if b < a {
                b
            } else {
                b + 1
            };
            let c0 = if c < a {
                c
            } else {
                c + 1
            };
            assert(im1[b] == im0[b0] && im1[c] == im0[c0]);
        } else {
            assert(im1[b].keyword == im0[b].keyword && im1[c].keyword == im0[c].keyword);
        }
    }
    assert forall|b: int| 0 <= b < im1.len() implies (#[trigger] im1[b].ids).len() > 0 by {
        if dropped {
            let b0 = if b < a {
                b
            } else {
                b + 1
            };
            assert(im1[b] == im0[b0]);
        } else if b != a {
            assert(im1[b] == im0[b]);
        }
    }
    // soundness
    assert forall|w: Seq<char>, v: u64|
        #[trigger] MemoryStore::kw_covered(im1, w, v) implies MemoryStore::id_justified(
        em0,
        v,
        w,
    ) by {
        let b = lemma_kw_covered_elim(im1, w, v);
        let b0 = choose|b0: int|
            0 <= b0 < im0.len() && im1[b].keyword == im0[b0].keyword && (forall|v2: u64|
                im1[b].ids.contains(v2) ==> #[trigger] im0[b0].ids.contains(v2)) && (im1[
                b].ids.contains(id) ==> im0[b0].ids.contains(id) && b0 != a);
        assert(im0[b0].ids.contains(v));
        lemma_kw_covered_intro(im0, b0, w, v);
    }
    // completeness for the surviving entries
    assert forall|i: int, k2: int|
        1 <= i < em0.len() && 0 <= k2 < em0[i].keywords.len() implies MemoryStore::kw_covered(
        im1,
        #[trigger] em0[i].keywords[k2],
        em0[i].id,
    ) by {
        let b0 = lemma_kw_covered_elim(im0, em0[i].keywords[k2], em0[i].id);
        assert(em0[i].id != id) by {
            assert(em0[0].id < em0[i].id);
        }
        if dropped {
            assert(b0 != a) by {
                if b0 == a {
                    assert(im0[a].ids.len() == 1 && j == 0);
                    let w = choose|m: int|
                        0 <= m < im0[a].ids.len() && im0[a].ids[m] == em0[i].id;
                    assert(w == 0);
                }
            }
            let b1: int = if b0 < a {
                b0
            } else {
                b0 - 1
            };
            assert(im1[b1] == im0[b0]);
            lemma_kw_covered_intro(im1, b1, em0[i].keywords[k2], em0[i].id);
        } else {
            if b0 == a {
                let w = choose|m: int| 0 <= m < im0[a].ids.len() && im0[a].ids[m] == em0[i].id;
                assert(w != j);
                let w1: int = if w < j {
                    w
                } else {
                    w - 1
                };
                assert(im1[a].ids[w1] == em0[i].id);
                assert(im1[a].ids.contains(em0[i].id));
                lemma_kw_covered_intro(im1, a, em0[i].keywords[k2], em0[i].id);
            } else {
                assert(im1[b0] == im0[b0]);
                lemma_kw_covered_intro(im1, b0, em0[i].keywords[k2], em0[i].id);
            }
        }
    }
    // the victim's id survives only under its remaining keywords
    assert forall|w: Seq<char>|
        #[trigger] MemoryStore::kw_covered(im1, w, id) implies exists|k2: int|
        k + 1 <= k2 < victim.keywords.len() && victim.keywords[k2] == w by {
        let b = lemma_kw_covered_elim(im1, w, id);
        let b0 = choose|b0: int|
            0 <= b0 < im0.len() && im1[b].keyword == im0[b0].keyword && (forall|v2: u64|
                im1[b].ids.contains(v2) ==> #[trigger] im0[b0].ids.contains(v2)) && (im1[
                b].ids.contains(id) ==> im0[b0].ids.contains(id) && b0 != a);
        assert(im0[b0].ids.contains(id) && b0 != a);
        lemma_kw_covered_intro(im0, b0, w, id);
        let k2 = choose|k2: int|
            k <= k2 < victim.keywords.len() && victim.keywords[k2] == w;
        assert(k2 != k) by {
            if k2 == k {
                assert(w == kw);
                assert(im0[b0].keyword == kw && im0[a].keyword == kw);
            }
        }
        assert(k + 1 <= k2 < victim.keywords.len() && victim.keywords[k2] == w);
    }
}

} // verus!
