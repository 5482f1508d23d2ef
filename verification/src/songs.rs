//! The song store: songs and their ordered slides.
//!
//! A song owns a dense, 1-based sequence of slides derived from its lyric
//! text (see [`crate::lyrics`]).  Every edit replaces the whole slide
//! sequence; slides are never patched in place.  The store also offers the
//! transfer-bundle operations used for backup and restore, which match
//! songs by exact title.

use crate::lyrics::{split_stanzas, stanza_seq};
use crate::StoreError;
use vstd::prelude::*;

verus! {

/// One slide of a song: a stanza of its lyric text.
pub struct Slide {
    /// Stable identifier, unique within the store's lifetime.
    pub id: i64,
    /// 1-based position among the song's slides, dense and contiguous.
    pub order: i64,
    /// The stanza body.
    pub text: String,
}

/// A song's own row: identity and descriptive fields, without the slides.
pub struct Song {
    /// Stable identifier; the store never reuses one.
    pub id: i64,
    /// Song title; bundle import matches on it exactly.
    pub title: String,
    /// Musical key, possibly empty.
    pub tone: String,
    /// Catalog category.
    pub category: String,
}

/// A song together with its slides, as held by the store.
pub struct SongEntry {
    pub song: Song,
    pub slides: Vec<Slide>,
}

/// The transfer object for backup and restore: one song's descriptive
/// fields and its slide bodies in order, decoupled from internal ids.
pub struct SongBundle {
    pub title: String,
    pub tone: String,
    pub category: String,
    pub letras: Vec<String>,
}

/// Mathematical value of a [`Slide`].
pub struct SlideModel {
    pub id: int,
    pub order: int,
    pub text: Seq<char>,
}

/// Mathematical value of a [`Song`].
pub struct SongModel {
    pub id: int,
    pub title: Seq<char>,
    pub tone: Seq<char>,
    pub category: Seq<char>,
}

/// Mathematical value of a [`SongEntry`].
pub struct EntryModel {
    pub song: SongModel,
    pub slides: Seq<SlideModel>,
}

/// Mathematical value of a [`SongBundle`].
pub struct BundleModel {
    pub title: Seq<char>,
    pub tone: Seq<char>,
    pub category: Seq<char>,
    pub letras: Seq<Seq<char>>,
}

/// Mathematical value of the whole store.
pub struct StoreModel {
    pub entries: Seq<EntryModel>,
    pub next_song_id: int,
    pub next_slide_id: int,
}

impl View for Slide {
    type V = SlideModel;

    open spec fn view(&self) -> SlideModel {
        SlideModel { id: self.id as int, order: self.order as int, text: self.text@ }
    }
}

impl DeepView for Slide {
    type V = SlideModel;

    open spec fn deep_view(&self) -> SlideModel {
        self@
    }
}

impl View for Song {
    type V = SongModel;

    open spec fn view(&self) -> SongModel {
        SongModel {
            id: self.id as int,
            title: self.title@,
            tone: self.tone@,
            category: self.category@,
        }
    }
}

impl DeepView for Song {
    type V = SongModel;

    open spec fn deep_view(&self) -> SongModel {
        self@
    }
}

impl View for SongEntry {
    type V = EntryModel;

    open spec fn view(&self) -> EntryModel {
        EntryModel { song: self.song@, slides: self.slides.deep_view() }
    }
}

impl DeepView for SongEntry {
    type V = EntryModel;

    open spec fn deep_view(&self) -> EntryModel {
        self@
    }
}

impl View for SongBundle {
    type V = BundleModel;

    open spec fn view(&self) -> BundleModel {
        BundleModel {
            title: self.title@,
            tone: self.tone@,
            category: self.category@,
            letras: self.letras.deep_view(),
        }
    }
}

impl DeepView for SongBundle {
    type V = BundleModel;

    open spec fn deep_view(&self) -> BundleModel {
        self@
    }
}

/// The song store.  One process-lifetime instance owns all songs.
pub struct SongStore {
    entries: Vec<SongEntry>,
    next_song_id: i64,
    next_slide_id: i64,
}

impl View for SongStore {
    type V = StoreModel;

    closed spec fn view(&self) -> StoreModel {
        StoreModel {
            entries: self.entries.deep_view(),
            next_song_id: self.next_song_id as int,
            next_slide_id: self.next_slide_id as int,
        }
    }
}

/// Well-formedness of one entry: slide orders are the dense sequence
/// `1..=len`, and all identifiers were allocated below the store counters.
pub open spec fn entry_inv(e: EntryModel, next_song_id: int, next_slide_id: int) -> bool {
    &&& 1 <= e.song.id < next_song_id
    &&& forall|k: int| 0 <= k < e.slides.len() ==> (#[trigger] e.slides[k]).order == k + 1
    &&& forall|k: int| 0 <= k < e.slides.len() ==> 1 <= (#[trigger] e.slides[k]).id < next_slide_id
}

/// Well-formedness of the store: counters in range, every entry
/// well-formed, song identifiers unique.
pub open spec fn store_inv(m: StoreModel) -> bool {
    &&& 1 <= m.next_song_id <= i64::MAX
    &&& 1 <= m.next_slide_id <= i64::MAX
    &&& forall|i: int|
        0 <= i < m.entries.len() ==> entry_inv(
            #[trigger] m.entries[i],
            m.next_song_id,
            m.next_slide_id,
        )
    &&& forall|i: int, j: int|
        0 <= i < j < m.entries.len() ==> m.entries[i].song.id != m.entries[j].song.id
}

/// Whether some entry carries the song identifier `id`.
pub open spec fn has_entry(entries: Seq<EntryModel>, id: int) -> bool {
    exists|i: int| 0 <= i < entries.len() && entries[i].song.id == id
}

/// The index of the entry carrying `id` (unique under [`store_inv`]).
pub open spec fn entry_index(entries: Seq<EntryModel>, id: int) -> int {
    choose|i: int| 0 <= i < entries.len() && entries[i].song.id == id
}

/// The slides stored for song `id`: empty when the song does not exist.
pub open spec fn slides_of(m: StoreModel, id: int) -> Seq<SlideModel> {
    if has_entry(m.entries, id) {
        m.entries[entry_index(m.entries, id)].slides
    } else {
        Seq::empty()
    }
}

/// The slide sequence built from `texts` with identifiers starting at
/// `first_id` and orders `1..=len`.
pub open spec fn numbered_slides(texts: Seq<Seq<char>>, first_id: int) -> Seq<SlideModel> {
    Seq::new(texts.len(), |k: int| SlideModel { id: first_id + k, order: k + 1, text: texts[k] })
}

/// Whether a new song with `n_slides` slides still fits the id space.
pub open spec fn can_add_song(m: StoreModel, n_slides: nat) -> bool {
    m.next_song_id < i64::MAX && m.next_slide_id + n_slides <= i64::MAX
}

/// Whether `n_slides` more slides still fit the id space.
pub open spec fn can_add_slides(m: StoreModel, n_slides: nat) -> bool {
    m.next_slide_id + n_slides <= i64::MAX
}

/// The store after appending a new song built from the given fields and
/// slide bodies.
pub open spec fn create_song_spec(
    m: StoreModel,
    title: Seq<char>,
    tone: Seq<char>,
    category: Seq<char>,
    texts: Seq<Seq<char>>,
) -> StoreModel {
    StoreModel {
        entries: m.entries.push(
            EntryModel {
                song: SongModel { id: m.next_song_id, title, tone, category },
                slides: numbered_slides(texts, m.next_slide_id),
            },
        ),
        next_song_id: m.next_song_id + 1,
        next_slide_id: m.next_slide_id + texts.len(),
    }
}

/// The store after an edit of song `id`: new title, slides fully replaced
/// by the given bodies; key and category kept.  Unchanged when `id` is
/// absent.
pub open spec fn update_song_spec(
    m: StoreModel,
    id: int,
    title: Seq<char>,
    texts: Seq<Seq<char>>,
) -> StoreModel {
    if has_entry(m.entries, id) {
        let i = entry_index(m.entries, id);
        let e = m.entries[i];
        StoreModel {
            entries: m.entries.update(
                i,
                EntryModel {
                    song: SongModel {
                        id: e.song.id,
                        title,
                        tone: e.song.tone,
                        category: e.song.category,
                    },
                    slides: numbered_slides(texts, m.next_slide_id),
                },
            ),
            next_song_id: m.next_song_id,
            next_slide_id: m.next_slide_id + texts.len(),
        }
    } else {
        m
    }
}

/// The store after removing song `id` together with all of its slides.
pub open spec fn delete_song_spec(m: StoreModel, id: int) -> StoreModel {
    if has_entry(m.entries, id) {
        StoreModel {
            entries: m.entries.remove(entry_index(m.entries, id)),
            next_song_id: m.next_song_id,
            next_slide_id: m.next_slide_id,
        }
    } else {
        m
    }
}

impl SongStore {
    /// The store's internal invariant.
    pub open spec fn wf(&self) -> bool {
        store_inv(self@)
    }

    /// An empty store with fresh id counters.
    pub fn new() -> (r: SongStore)
        ensures
            r.wf(),
            r@.entries == Seq::<EntryModel>::empty(),
            r@.next_song_id == 1,
            r@.next_slide_id == 1,
    {
        let store = SongStore { entries: Vec::new(), next_song_id: 1, next_slide_id: 1 };
        proof {
            assert(store.entries.deep_view() =~= Seq::<EntryModel>::empty());
        }
        store
    }

    /// Inserts a new song: empty key, fixed category, slides split from
    /// the lyric text.  Returns the new song's identifier.
    pub fn create_song(&mut self, title: &str, lyric_text: &str) -> (r: Result<i64, StoreError>)
        requires
            old(self).wf(),
        ensures
            final(self).wf(),
            r is Ok <==> can_add_song(old(self)@, stanza_seq(lyric_text@).len()),
            r is Ok ==> r->Ok_0 == old(self)@.next_song_id && final(self)@ == create_song_spec(
                old(self)@,
                title@,
                Seq::<char>::empty(),
                "Custom"@,
                stanza_seq(lyric_text@),
            ),
            r is Err ==> *final(self) == *old(self) && r == Err::<i64, StoreError>(
                StoreError::IdsExhausted,
            ),
    {
        let stanzas = split_stanzas(lyric_text);
        let n = stanzas.len();
        if !(self.next_song_id < i64::MAX) {
            return Err(StoreError::IdsExhausted);
        }
        if n as u64 > (i64::MAX - self.next_slide_id) as u64 {
            return Err(StoreError::IdsExhausted);
        }
        let ghost m0 = self@;
        let song_id = self.next_song_id;
        let slides = make_slides(&stanzas, self.next_slide_id);
        let entry = SongEntry {
            song: Song {
                id: song_id,
                title: title.to_owned(),
                tone: String::new(),
                category: String::from_str("Custom"),
            },
            slides,
        };
        self.entries.push(entry);
        self.next_song_id = self.next_song_id + 1;
        self.next_slide_id = self.next_slide_id + (n as i64);
        proof {
            let spec_m = create_song_spec(
                m0,
                title@,
                Seq::<char>::empty(),
                "Custom"@,
                stanza_seq(lyric_text@),
            );
            assert(self@.entries =~~= spec_m.entries);
            assert(self@ =~~= spec_m);
            assert forall|i: int| 0 <= i < self@.entries.len() implies entry_inv(
                #[trigger] self@.entries[i],
                self@.next_song_id,
                self@.next_slide_id,
            ) by {
                if i < m0.entries.len() {
                    assert(entry_inv(m0.entries[i], m0.next_song_id, m0.next_slide_id));
                }
            }
        }
        Ok(song_id)
    }

    /// The slides of song `song_id`, in order; empty when the song does
    /// not exist.
    pub fn get_slides(&self, song_id: i64) -> (r: Vec<Slide>)
        requires
            self.wf(),
        ensures
            r.deep_view() == slides_of(self@, song_id as int),
    {
        let n = self.entries.len();
        let mut i: usize = 0;
        while i < n
            invariant
                self.wf(),
                n == self@.entries.len(),
                i <= n,
                forall|k: int| 0 <= k < i ==> self@.entries[k].song.id != song_id as int,
            decreases n - i,
        {
            if self.entries[i].song.id == song_id {
                proof {
                    assert(self@.entries[i as int].song.id == song_id as int);
                    assert(has_entry(self@.entries, song_id as int)) by {
                        assert(0 <= (i as int) < self@.entries.len() && self@.entries[
                            i as int
                        ].song.id == song_id as int);
                    }
                    let j = entry_index(self@.entries, song_id as int);
                    assert(0 <= j < self@.entries.len() && self@.entries[j].song.id
                        == song_id as int);
                    assert(j == i) by {
                        if j < i as int {
                            assert(self@.entries[j].song.id != self@.entries[i as int].song.id);
                        } else if j > i as int {
                            assert(self@.entries[i as int].song.id != self@.entries[j].song.id);
                        }
                    }
                }
                return clone_slides(&self.entries[i].slides);
            }
            i += 1;
        }
        proof {
            assert(!has_entry(self@.entries, song_id as int));
        }
        let r: Vec<Slide> = Vec::new();
        proof {
            assert(r.deep_view() =~= Seq::<SlideModel>::empty());
        }
        r
    }
}

impl SongStore {
    /// The position of song `song_id` among the entries, if present.
    fn index_of_song(&self, song_id: i64) -> (r: Option<usize>)
        requires
            self.wf(),
        ensures
            r is Some <==> has_entry(self@.entries, song_id as int),
            r is Some ==> (r->Some_0 as int) == entry_index(self@.entries, song_id as int)
                && (r->Some_0 as int) < self@.entries.len(),
    {
        let n = self.entries.len();
        let mut i: usize = 0;
        while i < n
            invariant
                self.wf(),
                n == self@.entries.len(),
                i <= n,
                forall|k: int| 0 <= k < i ==> self@.entries[k].song.id != song_id as int,
            decreases n - i,
        {
            if self.entries[i].song.id == song_id {
                proof {
                    assert(has_entry(self@.entries, song_id as int)) by {
                        assert(0 <= (i as int) < self@.entries.len() && self@.entries[
                            i as int
                        ].song.id == song_id as int);
                    }
                    let j = entry_index(self@.entries, song_id as int);
                    assert(0 <= j < self@.entries.len() && self@.entries[j].song.id
                        == song_id as int);
                    assert(j == i) by {
                        if j < i as int {
                            assert(self@.entries[j].song.id != self@.entries[i as int].song.id);
                        } else if j > i as int {
                            assert(self@.entries[i as int].song.id != self@.entries[j].song.id);
                        }
                    }
                }
                return Some(i);
            }
            i += 1;
        }
        proof {
            assert(!has_entry(self@.entries, song_id as int));
        }
        None
    }

    /// Edits song `song_id`: the title is replaced and the slide sequence
    /// is rebuilt from the new lyric text, fully replacing the old slides.
    /// Key and category are kept.  A missing song leaves the store
    /// unchanged.
    pub fn update_song(&mut self, song_id: i64, title: &str, lyric_text: &str) -> (r: Result<
        (),
        StoreError,
    >)
        requires
            old(self).wf(),
        ensures
            final(self).wf(),
            has_entry(old(self)@.entries, song_id as int) ==> {
                &&& (r is Ok <==> can_add_slides(old(self)@, stanza_seq(lyric_text@).len()))
                &&& (r is Ok ==> final(self)@ == update_song_spec(
                    old(self)@,
                    song_id as int,
                    title@,
                    stanza_seq(lyric_text@),
                ))
                &&& (r is Err ==> *final(self) == *old(self) && r == Err::<(), StoreError>(
                    StoreError::IdsExhausted,
                ))
            },
            !has_entry(old(self)@.entries, song_id as int) ==> r is Ok && *final(self) == *old(
                self,
            ),
    {
        let stanzas = split_stanzas(lyric_text);
        let n_st = stanzas.len();
        match self.index_of_song(song_id) {
            None => Ok(()),
            Some(i) => {
                if n_st as u64 > (i64::MAX - self.next_slide_id) as u64 {
                    return Err(StoreError::IdsExhausted);
                }
                let ghost m0 = self@;
                let old_entry = self.entries.remove(i);
                let slides = make_slides(&stanzas, self.next_slide_id);
                let entry = SongEntry {
                    song: Song {
                        id: old_entry.song.id,
                        title: title.to_owned(),
                        tone: old_entry.song.tone,
                        category: old_entry.song.category,
                    },
                    slides,
                };
                self.entries.insert(i, entry);
                self.next_slide_id = self.next_slide_id + (n_st as i64);
                proof {
                    let ii = i as int;
                    let spec_m = update_song_spec(
                        m0,
                        song_id as int,
                        title@,
                        stanza_seq(lyric_text@),
                    );
                    assert(old_entry@ == m0.entries[ii]);
                    assert(self@.entries =~~= m0.entries.update(ii, entry@)) by {
                        assert forall|t: int| 0 <= t < self@.entries.len() implies self@.entries[t]
                            == m0.entries.update(ii, entry@)[t] by {
                            assert(self@.entries[t] == self.entries@[t].deep_view());
                        }
                    }
                    assert(self@ =~~= spec_m);
                    assert forall|t: int| 0 <= t < self@.entries.len() implies entry_inv(
                        #[trigger] self@.entries[t],
                        self@.next_song_id,
                        self@.next_slide_id,
                    ) by {
                        assert(entry_inv(m0.entries[t], m0.next_song_id, m0.next_slide_id));
                    }
                    assert forall|t: int, u: int|
                        0 <= t < u < self@.entries.len() implies self@.entries[t].song.id
                        != self@.entries[u].song.id by {
                        assert(m0.entries[t].song.id != m0.entries[u].song.id);
                    }
                }
                Ok(())
            },
        }
    }

    /// Removes song `song_id` together with all of its slides.  A missing
    /// song leaves the store unchanged.
    pub fn delete_song(&mut self, song_id: i64)
        requires
            old(self).wf(),
        ensures
            final(self).wf(),
            final(self)@ == delete_song_spec(old(self)@, song_id as int),
    {
        match self.index_of_song(song_id) {
            None => {},
            Some(i) => {
                let ghost m0 = self@;
                let _removed = self.entries.remove(i);
                proof {
                    let ii = i as int;
                    assert(self@.entries =~~= m0.entries.remove(ii)) by {
                        assert forall|t: int| 0 <= t < self@.entries.len() implies self@.entries[t]
                            == m0.entries.remove(ii)[t] by {
                            assert(self@.entries[t] == self.entries@[t].deep_view());
                        }
                    }
                    assert(self@ =~~= delete_song_spec(m0, song_id as int));
                    assert forall|t: int| 0 <= t < self@.entries.len() implies entry_inv(
                        #[trigger] self@.entries[t],
                        self@.next_song_id,
                        self@.next_slide_id,
                    ) by {
                        if t < ii {
                            assert(entry_inv(m0.entries[t], m0.next_song_id, m0.next_slide_id));
                        } else {
                            assert(entry_inv(m0.entries[t + 1], m0.next_song_id, m0.next_slide_id));
                        }
                    }
                    assert forall|t: int, u: int|
                        0 <= t < u < self@.entries.len() implies self@.entries[t].song.id
                        != self@.entries[u].song.id by {
                        let t0 = if t < ii {
                            t
                        } else {
                            t + 1
                        };
                        let u0 = if u < ii {
                            u
                        } else {
                            u + 1
                        };
                        assert(m0.entries[t0].song.id != m0.entries[u0].song.id);
                    }
                }
            },
        }
    }
}

/// The transfer bundle describing one stored entry: its descriptive
/// fields and its slide bodies in order.
pub open spec fn bundle_of(e: EntryModel) -> BundleModel {
    BundleModel {
        title: e.song.title,
        tone: e.song.tone,
        category: e.song.category,
        letras: e.slides.map_values(|s: SlideModel| s.text),
    }
}

/// The index of the first entry whose title is `title`, or -1.
pub open spec fn title_index_of(entries: Seq<EntryModel>, title: Seq<char>) -> int
    decreases entries.len(),
{
    if entries.len() == 0 {
        -1
    } else if entries[0].song.title == title {
        0
    } else {
        let r = title_index_of(entries.drop_first(), title);
        if r < 0 {
            -1
        } else {
            r + 1
        }
    }
}

/// `title_index_of` finds exactly the first entry with the given title.
pub proof fn lemma_title_index_of(entries: Seq<EntryModel>, title: Seq<char>)
    ensures
        ({
            let r = title_index_of(entries, title);
            &&& (r == -1 ==> forall|i: int|
                0 <= i < entries.len() ==> (#[trigger] entries[i]).song.title != title)
            &&& (r >= 0 ==> 0 <= r < entries.len() && entries[r].song.title == title && (forall|
                i: int,
            |
                0 <= i < r ==> (#[trigger] entries[i]).song.title != title))
        }),
    decreases entries.len(),
{
    let r = title_index_of(entries, title);
    if entries.len() == 0 {
    } else if entries[0].song.title == title {
    } else {
        let rest = entries.drop_first();
        lemma_title_index_of(rest, title);
        let rr = title_index_of(rest, title);
        assert(forall|i: int| 0 <= i < rest.len() ==> #[trigger] rest[i] == entries[i + 1]);
        if rr < 0 {
            assert(r == -1);
            assert forall|i: int| 0 <= i < entries.len() implies (#[trigger] entries[i]).song.title
                != title by {
                if i > 0 {
                    assert(rest[i - 1] == entries[i]);
                    assert(rest[i - 1].song.title != title);
                }
            }
        } else {
            assert(r == rr + 1);
            assert(entries[r] == rest[rr]);
            assert forall|i: int| 0 <= i < r implies (#[trigger] entries[i]).song.title != title by {
                if i > 0 {
                    assert(rest[i - 1] == entries[i]);
                    assert(rest[i - 1].song.title != title);
                }
            }
        }
    }
}

/// The store after taking in one transfer bundle: when some entry has the
/// bundle's title, that entry's slides are replaced (identity and
/// descriptive fields kept); otherwise a new song is appended with the
/// bundle's fields.  Either way the slide bodies are taken as given.
pub open spec fn import_one_spec(m: StoreModel, b: BundleModel) -> StoreModel {
    let i = title_index_of(m.entries, b.title);
    if i >= 0 {
        let e = m.entries[i];
        StoreModel {
            entries: m.entries.update(
                i,
                EntryModel { song: e.song, slides: numbered_slides(b.letras, m.next_slide_id) },
            ),
            next_song_id: m.next_song_id,
            next_slide_id: m.next_slide_id + b.letras.len(),
        }
    } else {
        create_song_spec(m, b.title, b.tone, b.category, b.letras)
    }
}

/// Whether one bundle still fits the id space.
pub open spec fn can_import_one(m: StoreModel, b: BundleModel) -> bool {
    if title_index_of(m.entries, b.title) >= 0 {
        can_add_slides(m, b.letras.len())
    } else {
        can_add_song(m, b.letras.len())
    }
}

/// The store after taking in the first `k` bundles in order.
pub open spec fn import_prefix_spec(m: StoreModel, bs: Seq<BundleModel>, k: int) -> StoreModel
    recommends
        0 <= k <= bs.len(),
    decreases k,
{
    if k <= 0 {
        m
    } else {
        import_one_spec(import_prefix_spec(m, bs, k - 1), bs[k - 1])
    }
}

/// Whether the first `k` bundles all fit the id space, step by step.
pub open spec fn can_import(m: StoreModel, bs: Seq<BundleModel>, k: int) -> bool {
    forall|j: int| 0 <= j < k ==> can_import_one(import_prefix_spec(m, bs, j), bs[j])
}

impl SongStore {
    /// The position of the first entry titled `title`, if any.
    fn index_of_title(&self, title: &String) -> (r: Option<usize>)
        ensures
            r is Some ==> (r->Some_0 as int) == title_index_of(self@.entries, title@) && (
            r->Some_0 as int) < self@.entries.len(),
            r is None ==> title_index_of(self@.entries, title@) == -1,
    {
        let n = self.entries.len();
        let mut i: usize = 0;
        while i < n
            invariant
                n == self@.entries.len(),
                i <= n,
                forall|k: int| 0 <= k < i ==> (#[trigger] self@.entries[k]).song.title != title@,
            decreases n - i,
        {
            if self.entries[i].song.title == *title {
                proof {
                    assert(self@.entries[i as int].song.title == title@);
                    lemma_title_index_of(self@.entries, title@);
                    let r0 = title_index_of(self@.entries, title@);
                    assert(r0 != -1);
                    assert(r0 == i as int) by {
                        if r0 < i as int {
                            assert(self@.entries[r0].song.title != title@);
                        }
                        if r0 > i as int {
                            assert(self@.entries[i as int].song.title != title@);
                        }
                    }
                }
                return Some(i);
            }
            i += 1;
        }
        proof {
            lemma_title_index_of(self@.entries, title@);
            let r0 = title_index_of(self@.entries, title@);
            if r0 >= 0 {
                assert(self@.entries[r0].song.title != title@);
            }
        }
        None
    }

    /// Builds the transfer bundles for every song, in storage order.
    pub fn export_songs(&self) -> (r: Vec<SongBundle>)
        requires
            self.wf(),
        ensures
            r.deep_view() == self@.entries.map_values(|e: EntryModel| bundle_of(e)),
    {
        let n = self.entries.len();
        let mut r: Vec<SongBundle> = Vec::new();
        let mut k: usize = 0;
        while k < n
            invariant
                self.wf(),
                n == self@.entries.len(),
                k <= n,
                r@.len() == k,
                r.deep_view() == self@.entries.map_values(|e: EntryModel| bundle_of(e)).take(
                    k as int,
                ),
            decreases n - k,
        {
            let ghost prev = r.deep_view();
            let e = &self.entries[k];
            let bundle = SongBundle {
                title: e.song.title.clone(),
                tone: e.song.tone.clone(),
                category: e.song.category.clone(),
                letras: slide_texts(&e.slides),
            };
            r.push(bundle);
            proof {
                let full = self@.entries.map_values(|e0: EntryModel| bundle_of(e0));
                assert(bundle@ == full[k as int]) by {
                    assert(bundle@.letras =~= bundle_of(self@.entries[k as int]).letras);
                }
                assert forall|t: int| 0 <= t < k + 1 implies r.deep_view()[t] == full.take(
                    k as int + 1,
                )[t] by {
                    if t < k as int {
                        assert(r.deep_view()[t] == prev[t]);
                    } else {
                        assert(r.deep_view()[t] == bundle@);
                    }
                }
                assert(r.deep_view() =~= full.take(k as int + 1));
            }
            k += 1;
        }
        proof {
            let full = self@.entries.map_values(|e0: EntryModel| bundle_of(e0));
            assert(full.take(n as int) =~= full);
        }
        r
    }

    /// Takes in a batch of transfer bundles, in order.  A bundle whose
    /// title matches an existing song replaces that song's slides under
    /// the same identifier; a new title becomes a new song.  Returns the
    /// number of bundles taken in.
    #[verifier::rlimit(60)]
    pub fn import_songs(&mut self, bundles: &Vec<SongBundle>) -> (r: Result<usize, StoreError>)
        requires
            old(self).wf(),
        ensures
            final(self).wf(),
            r is Ok <==> can_import(old(self)@, bundles.deep_view(), bundles@.len() as int),
            r is Ok ==> r->Ok_0 == bundles@.len() && final(self)@ == import_prefix_spec(
                old(self)@,
                bundles.deep_view(),
                bundles@.len() as int,
            ),
            r is Err ==> r == Err::<usize, StoreError>(StoreError::IdsExhausted) && (exists|k: int|
                0 <= k < bundles@.len() && final(self)@ == import_prefix_spec(
                    old(self)@,
                    bundles.deep_view(),
                    k,
                ) && !can_import_one(
                    import_prefix_spec(old(self)@, bundles.deep_view(), k),
                    bundles.deep_view()[k],
                )),
    {
        let ghost m_init = self@;
        let ghost bs = bundles.deep_view();
        let n = bundles.len();
        let mut k: usize = 0;
        while k < n
            invariant
                self.wf(),
                n == bundles@.len(),
                bs == bundles.deep_view(),
                m_init == old(self)@,
                k <= n,
                self@ == import_prefix_spec(m_init, bs, k as int),
                can_import(m_init, bs, k as int),
            decreases n - k,
        {
            let ghost m_k = self@;
            let b = &bundles[k];
            proof {
                assert(b@ == bs[k as int]);
            }
            let nl = b.letras.len();
            match self.index_of_title(&b.title) {
                Some(i) => {
                    if nl as u64 > (i64::MAX - self.next_slide_id) as u64 {
                        proof {
                            assert(!can_import_one(m_k, bs[k as int]));
                            assert(!can_import(m_init, bs, n as int));
                        }
                        return Err(StoreError::IdsExhausted);
                    }
                    let old_entry = self.entries.remove(i);
                    let slides = make_slides(&b.letras, self.next_slide_id);
                    let entry = SongEntry { song: old_entry.song, slides };
                    self.entries.insert(i, entry);
                    self.next_slide_id = self.next_slide_id + (nl as i64);
                    proof {
                        let ii = i as int;
                        assert(old_entry@ == m_k.entries[ii]);
                        assert(entry@.song == m_k.entries[ii].song);
                        assert(self@.entries =~~= m_k.entries.update(ii, entry@)) by {
                            assert forall|t: int|
                                0 <= t < self@.entries.len() implies self@.entries[t]
                                == m_k.entries.update(ii, entry@)[t] by {
                                assert(self@.entries[t] == self.entries@[t].deep_view());
                            }
                        }
                        assert(self@ =~~= import_one_spec(m_k, bs[k as int]));
                        assert forall|t: int| 0 <= t < self@.entries.len() implies entry_inv(
                            #[trigger] self@.entries[t],
                            self@.next_song_id,
                            self@.next_slide_id,
                        ) by {
                            assert(entry_inv(m_k.entries[t], m_k.next_song_id, m_k.next_slide_id));
                        }
                        assert forall|t: int, u: int|
                            0 <= t < u < self@.entries.len() implies self@.entries[t].song.id
                            != self@.entries[u].song.id by {
                            assert(m_k.entries[t].song.id != m_k.entries[u].song.id);
                        }
                        assert(self@ == import_prefix_spec(m_init, bs, k as int + 1));
                        assert(can_import(m_init, bs, k as int + 1)) by {
                            assert(forall|j: int|
                                0 <= j < k as int ==> can_import_one(
                                    import_prefix_spec(m_init, bs, j),
                                    bs[j],
                                ));
                            assert(can_import_one(m_k, bs[k as int]));
                        }
                    }
                },
                None => {
                    if !(self.next_song_id < i64::MAX) || nl as u64 > (i64::MAX
                        - self.next_slide_id) as u64 {
                        proof {
                            assert(!can_import_one(m_k, bs[k as int]));
                            assert(!can_import(m_init, bs, n as int));
                        }
                        return Err(StoreError::IdsExhausted);
                    }
                    let slides = make_slides(&b.letras, self.next_slide_id);
                    let entry = SongEntry {
                        song: Song {
                            id: self.next_song_id,
                            title: b.title.clone(),
                            tone: b.tone.clone(),
                            category: b.category.clone(),
                        },
                        slides,
                    };
                    self.entries.push(entry);
                    self.next_song_id = self.next_song_id + 1;
                    self.next_slide_id = self.next_slide_id + (nl as i64);
                    proof {
                        assert(self@.entries =~~= m_k.entries.push(entry@)) by {
                            assert forall|t: int|
                                0 <= t < self@.entries.len() implies self@.entries[t]
                                == m_k.entries.push(entry@)[t] by {
                                assert(self@.entries[t] == self.entries@[t].deep_view());
                            }
                        }
                        assert(self@ =~~= import_one_spec(m_k, bs[k as int]));
                        assert forall|t: int| 0 <= t < self@.entries.len() implies entry_inv(
                            #[trigger] self@.entries[t],
                            self@.next_song_id,
                            self@.next_slide_id,
                        ) by {
                            if t < m_k.entries.len() {
                                assert(entry_inv(
                                    m_k.entries[t],
                                    m_k.next_song_id,
                                    m_k.next_slide_id,
                                ));
                            }
                        }
                        assert(self@ == import_prefix_spec(m_init, bs, k as int + 1));
                        assert(can_import(m_init, bs, k as int + 1)) by {
                            assert(forall|j: int|
                                0 <= j < k as int ==> can_import_one(
                                    import_prefix_spec(m_init, bs, j),
                                    bs[j],
                                ));
                            assert(can_import_one(m_k, bs[k as int]));
                        }
                    }
                },
            }
            k += 1;
        }
        Ok(n)
    }
}

/// The largest slide identifier among the first `k` slides, 0 when none.
pub open spec fn max_slide_id_in(slides: Seq<SlideModel>, k: int) -> int
    decreases k,
{
    if k <= 0 {
        0
    } else {
        let m = max_slide_id_in(slides, k - 1);
        if slides[k - 1].id > m {
            slides[k - 1].id
        } else {
            m
        }
    }
}

/// The largest slide identifier among the first `k` entries, 0 when none.
pub open spec fn max_slide_id(entries: Seq<EntryModel>, k: int) -> int
    decreases k,
{
    if k <= 0 {
        0
    } else {
        let m = max_slide_id(entries, k - 1);
        let e = max_slide_id_in(entries[k - 1].slides, entries[k - 1].slides.len() as int);
        if e > m {
            e
        } else {
            m
        }
    }
}

/// Whether stored rows can be taken back as a song store: song
/// identifiers in range and strictly increasing (rows ordered by
/// identifier), slide identifiers in range, slide counts within the
/// order range.
pub open spec fn restore_rows_ok(entries: Seq<EntryModel>) -> bool {
    &&& forall|i: int| 0 <= i < entries.len() ==> 1 <= (#[trigger] entries[i]).song.id < i64::MAX
    &&& forall|i: int|
        0 <= i && i + 1 < entries.len() ==> (#[trigger] entries[i]).song.id < entries[
            i + 1
        ].song.id
    &&& forall|i: int| 0 <= i < entries.len() ==> (#[trigger] entries[i]).slides.len() <= i64::MAX
    &&& forall|i: int, k: int|
        0 <= i < entries.len() && 0 <= k < entries[i].slides.len() ==> 1 <= (
        #[trigger] entries[i].slides[k]).id < i64::MAX
}

/// The entry as the loader stores it: identifiers, fields and slide
/// bodies kept, the order values reassigned densely in the given slide
/// order.
pub open spec fn renumbered_entry(e: EntryModel) -> EntryModel {
    EntryModel {
        song: e.song,
        slides: Seq::new(
            e.slides.len(),
            |k: int| SlideModel { id: e.slides[k].id, order: k + 1, text: e.slides[k].text },
        ),
    }
}

proof fn lemma_max_slide_id_in(slides: Seq<SlideModel>, k: int)
    requires
        0 <= k <= slides.len(),
    ensures
        0 <= max_slide_id_in(slides, k),
        forall|t: int| 0 <= t < k ==> (#[trigger] slides[t]).id <= max_slide_id_in(slides, k),
        max_slide_id_in(slides, k) == 0 || (exists|t: int|
            0 <= t < k && (#[trigger] slides[t]).id == max_slide_id_in(slides, k)),
    decreases k,
{
    if k > 0 {
        lemma_max_slide_id_in(slides, k - 1);
    }
}

proof fn lemma_max_slide_id(entries: Seq<EntryModel>, k: int)
    requires
        0 <= k <= entries.len(),
    ensures
        0 <= max_slide_id(entries, k),
        forall|i: int, t: int|
            0 <= i < k && 0 <= t < entries[i].slides.len() ==> (#[trigger] entries[i].slides[t]).id
                <= max_slide_id(entries, k),
        max_slide_id(entries, k) == 0 || (exists|i: int, t: int|
            0 <= i < k && 0 <= t < entries[i].slides.len() && (#[trigger] entries[i].slides[t]).id
                == max_slide_id(entries, k)),
    decreases k,
{
    if k > 0 {
        lemma_max_slide_id(entries, k - 1);
        lemma_max_slide_id_in(entries[k - 1].slides, entries[k - 1].slides.len() as int);
    }
}

impl SongStore {
    /// Rebuilds a store from stored rows, keeping every identifier.
    /// Rows must come ordered by song identifier, as a primary-key scan
    /// delivers them; duplicate titles are kept side by side.  Slide
    /// order values are reassigned densely in the given slide order.
    /// Rows whose identifiers are out of range or out of order are
    /// rejected as a whole.
    #[verifier::rlimit(100)]
    pub fn restore(rows: &Vec<SongEntry>) -> (r: Result<SongStore, StoreError>)
        ensures
            r is Ok <==> restore_rows_ok(rows.deep_view()),
            r is Ok ==> ({
                let st = r->Ok_0;
                &&& st.wf()
                &&& st@.entries == rows.deep_view().map_values(
                    |e: EntryModel| renumbered_entry(e),
                )
                &&& st@.next_song_id == (if rows.deep_view().len() == 0 {
                    1int
                } else {
                    rows.deep_view().last().song.id + 1
                })
                &&& st@.next_slide_id == max_slide_id(
                    rows.deep_view(),
                    rows.deep_view().len() as int,
                ) + 1
            }),
            r is Err ==> r == Err::<SongStore, StoreError>(StoreError::InvalidRows),
    {
        let ghost dv = rows.deep_view();
        let n = rows.len();
        let mut smax: i64 = 0;
        let mut i: usize = 0;
        while i < n
            invariant
                dv == rows.deep_view(),
                n == dv.len(),
                i <= n,
                0 <= smax < i64::MAX,
                smax as int == max_slide_id(dv, i as int),
                forall|t: int| 0 <= t < i ==> 1 <= (#[trigger] dv[t]).song.id < i64::MAX,
                forall|t: int|
                    0 <= t < i && t + 1 < n ==> (#[trigger] dv[t]).song.id < dv[t + 1].song.id,
                forall|t: int| 0 <= t < i ==> (#[trigger] dv[t]).slides.len() <= i64::MAX,
                forall|t: int, u: int|
                    0 <= t < i && 0 <= u < dv[t].slides.len() ==> 1 <= (
                    #[trigger] dv[t].slides[u]).id < i64::MAX,
            decreases n - i,
        {
            let e = &rows[i];
            if !(e.song.id >= 1 && e.song.id < i64::MAX) {
                proof {
                    assert(!(1 <= dv[i as int].song.id < i64::MAX));
                }
                return Err(StoreError::InvalidRows);
            }
            if i + 1 < n && !(e.song.id < rows[i + 1].song.id) {
                proof {
                    assert(!(dv[i as int].song.id < dv[i as int + 1].song.id));
                }
                return Err(StoreError::InvalidRows);
            }
            if (e.slides.len() as u64) > (i64::MAX as u64) {
                proof {
                    assert(dv[i as int].slides.len() > i64::MAX);
                }
                return Err(StoreError::InvalidRows);
            }
            let m = e.slides.len();
            let mut emax: i64 = 0;
            let mut k: usize = 0;
            while k < m
                invariant
                    dv == rows.deep_view(),
                    i < n == dv.len(),
                    m == dv[i as int].slides.len(),
                    k <= m,
                    0 <= emax < i64::MAX,
                    emax as int == max_slide_id_in(dv[i as int].slides, k as int),
                    forall|u: int|
                        0 <= u < k ==> 1 <= (#[trigger] dv[i as int].slides[u]).id < i64::MAX,
                decreases m - k,
            {
                let sid = rows[i].slides[k].id;
                if !(sid >= 1 && sid < i64::MAX) {
                    proof {
                        assert(!(1 <= dv[i as int].slides[k as int].id < i64::MAX));
                    }
                    return Err(StoreError::InvalidRows);
                }
                if sid > emax {
                    emax = sid;
                }
                k += 1;
            }
            if emax > smax {
                smax = emax;
            }
            i += 1;
        }
        proof {
            assert(restore_rows_ok(dv));
        }
        // every identifier checked: build the store, renumbering orders
        let ghost target = dv.map_values(|e: EntryModel| renumbered_entry(e));
        let mut new_entries: Vec<SongEntry> = Vec::new();
        let mut i: usize = 0;
        while i < n
            invariant
                dv == rows.deep_view(),
                n == dv.len(),
                restore_rows_ok(dv),
                target == dv.map_values(|e: EntryModel| renumbered_entry(e)),
                i <= n,
                new_entries@.len() == i,
                new_entries.deep_view() == target.take(i as int),
            decreases n - i,
        {
            let e = &rows[i];
            let m = e.slides.len();
            proof {
                assert(dv[i as int].slides.len() <= i64::MAX);
            }
            let mut slides: Vec<Slide> = Vec::new();
            let mut k: usize = 0;
            while k < m
                invariant
                    dv == rows.deep_view(),
                    i < n == dv.len(),
                    restore_rows_ok(dv),
                    m == dv[i as int].slides.len(),
                    m <= i64::MAX,
                    k <= m,
                    slides@.len() == k,
                    slides.deep_view() == renumbered_entry(dv[i as int]).slides.take(k as int),
                decreases m - k,
            {
                let ghost prev = slides.deep_view();
                let s = &rows[i].slides[k];
                slides.push(Slide { id: s.id, order: (k as i64) + 1, text: s.text.clone() });
                proof {
                    let full = renumbered_entry(dv[i as int]).slides;
                    assert forall|t: int| 0 <= t < k + 1 implies slides.deep_view()[t] == full.take(
                        k as int + 1,
                    )[t] by {
                        if t < k as int {
                            assert(slides.deep_view()[t] == prev[t]);
                        } else {
                            assert(slides.deep_view()[t] == slides@[t]@);
                        }
                    }
                    assert(slides.deep_view() =~= full.take(k as int + 1));
                }
                k += 1;
            }
            let entry = SongEntry {
                song: Song {
                    id: e.song.id,
                    title: e.song.title.clone(),
                    tone: e.song.tone.clone(),
                    category: e.song.category.clone(),
                },
                slides,
            };
            let ghost prev_entries = new_entries.deep_view();
            new_entries.push(entry);
            proof {
                assert(entry@.slides =~= renumbered_entry(dv[i as int]).slides) by {
                    assert(entry@.slides == renumbered_entry(dv[i as int]).slides.take(m as int));
                    assert(renumbered_entry(dv[i as int]).slides.take(m as int)
                        =~= renumbered_entry(dv[i as int]).slides);
                }
                assert(entry@ == renumbered_entry(dv[i as int]));
                assert forall|t: int| 0 <= t < i + 1 implies new_entries.deep_view()[t]
                    == target.take(i as int + 1)[t] by {
                    if t < i as int {
                        assert(new_entries.deep_view()[t] == prev_entries[t]);
                    } else {
                        assert(new_entries.deep_view()[t] == entry@);
                    }
                }
                assert(new_entries.deep_view() =~= target.take(i as int + 1));
            }
            i += 1;
        }
        let next_song: i64 = if n == 0 {
            1
        } else {
            proof {
                assert(1 <= dv[n as int - 1].song.id < i64::MAX);
            }
            rows[n - 1].song.id + 1
        };
        let next_slide: i64 = smax + 1;
        let st = SongStore { entries: new_entries, next_song_id: next_song, next_slide_id: next_slide };
        proof {
            assert(st@.entries =~~= target) by {
                assert(target.take(n as int) =~= target);
            }
            let ids = Seq::new(dv.len(), |t: int| dv[t].song.id);
            assert forall|t: int| 0 <= t && t + 1 < ids.len() implies (#[trigger] ids[t]) < ids[t
                + 1] by {
                assert(dv[t].song.id < dv[t + 1].song.id);
            }
            crate::lemma_increasing_pairwise(ids);
            lemma_max_slide_id(dv, n as int);
            assert forall|t: int| 0 <= t < st@.entries.len() implies entry_inv(
                #[trigger] st@.entries[t],
                st@.next_song_id,
                st@.next_slide_id,
            ) by {
                assert(st@.entries[t] == renumbered_entry(dv[t]));
                assert(1 <= dv[t].song.id < i64::MAX);
                if t < n as int - 1 {
                    assert(ids[t] < ids[n as int - 1]);
                }
                assert forall|u: int| 0 <= u < st@.entries[t].slides.len() implies 1 <= (
                #[trigger] st@.entries[t].slides[u]).id < st@.next_slide_id by {
                    assert(st@.entries[t].slides[u].id == dv[t].slides[u].id);
                    assert(1 <= dv[t].slides[u].id < i64::MAX);
                    assert(dv[t].slides[u].id <= max_slide_id(dv, n as int));
                }
            }
            assert forall|t: int, u: int|
                0 <= t < u < st@.entries.len() implies st@.entries[t].song.id != st@.entries[
                u
            ].song.id by {
                assert(st@.entries[t] == renumbered_entry(dv[t]));
                assert(st@.entries[u] == renumbered_entry(dv[u]));
                assert(ids[t] < ids[u]);
            }
            assert(store_inv(st@));
        }
        Ok(st)
    }
}

/// Law: creating a song from a lyric text with `N` stanzas stores exactly
/// `N` slides for the new song, carrying the stanza bodies in text order
/// under the dense order values `1..=N`.
pub proof fn lemma_create_song_slides(
    m: StoreModel,
    title: Seq<char>,
    tone: Seq<char>,
    category: Seq<char>,
    lyrics: Seq<char>,
)
    requires
        store_inv(m),
    ensures
        ({
            let texts = stanza_seq(lyrics);
            let m2 = create_song_spec(m, title, tone, category, texts);
            let slides = slides_of(m2, m.next_song_id);
            &&& slides.len() == texts.len()
            &&& forall|k: int| 0 <= k < texts.len() ==> (#[trigger] slides[k]).order == k + 1
            &&& forall|k: int| 0 <= k < texts.len() ==> (#[trigger] slides[k]).text == texts[k]
        }),
{
    let texts = stanza_seq(lyrics);
    let m2 = create_song_spec(m, title, tone, category, texts);
    let id = m.next_song_id;
    let last = m.entries.len() as int;
    assert(m2.entries[last].song.id == id);
    assert(has_entry(m2.entries, id)) by {
        assert(0 <= last < m2.entries.len() && m2.entries[last].song.id == id);
    }
    let j = entry_index(m2.entries, id);
    assert(0 <= j < m2.entries.len() && m2.entries[j].song.id == id);
    assert(j == last) by {
        if j < last {
            assert(m2.entries[j] == m.entries[j]);
            assert(entry_inv(m.entries[j], m.next_song_id, m.next_slide_id));
        }
    }
    assert(slides_of(m2, id) == numbered_slides(texts, m.next_slide_id));
}

/// Law: editing a song replaces its slide set with exactly the stanzas of
/// the new lyric text; no slide of the prior version remains, and the
/// slides of every other song are untouched.
pub proof fn lemma_update_song_slides(m: StoreModel, id: int, title: Seq<char>, lyrics: Seq<char>)
    requires
        store_inv(m),
        has_entry(m.entries, id),
    ensures
        ({
            let texts = stanza_seq(lyrics);
            let m2 = update_song_spec(m, id, title, texts);
            let slides = slides_of(m2, id);
            &&& slides == numbered_slides(texts, m.next_slide_id)
            &&& slides.len() == texts.len()
            &&& forall|k: int| 0 <= k < texts.len() ==> (#[trigger] slides[k]).order == k + 1
            &&& forall|k: int| 0 <= k < texts.len() ==> (#[trigger] slides[k]).text == texts[k]
            &&& forall|other: int| other != id ==> slides_of(m2, other) == slides_of(m, other)
        }),
{
    let texts = stanza_seq(lyrics);
    let m2 = update_song_spec(m, id, title, texts);
    let i = entry_index(m.entries, id);
    assert(0 <= i < m.entries.len() && m.entries[i].song.id == id);
    assert(forall|t: int|
        0 <= t < m2.entries.len() ==> (#[trigger] m2.entries[t]).song.id
            == m.entries[t].song.id);
    assert(has_entry(m2.entries, id)) by {
        assert(m2.entries[i].song.id == id);
    }
    let j = entry_index(m2.entries, id);
    assert(0 <= j < m2.entries.len() && m2.entries[j].song.id == id);
    assert(j == i) by {
        if j != i {
            assert(m.entries[j].song.id == id);
            if j < i {
                assert(m.entries[j].song.id != m.entries[i].song.id);
            } else {
                assert(m.entries[i].song.id != m.entries[j].song.id);
            }
        }
    }
    assert(slides_of(m2, id) == numbered_slides(texts, m.next_slide_id));
    assert forall|other: int| other != id implies slides_of(m2, other) == slides_of(
        m,
        other,
    ) by {
        if has_entry(m.entries, other) {
            let t = entry_index(m.entries, other);
            assert(0 <= t < m.entries.len() && m.entries[t].song.id == other);
            assert(has_entry(m2.entries, other)) by {
                assert(m2.entries[t].song.id == other);
            }
            let t2 = entry_index(m2.entries, other);
            assert(m2.entries[t2].song.id == other);
            assert(m.entries[t2].song.id == other);
            assert(t2 == t) by {
                if t2 < t {
                    assert(m.entries[t2].song.id != m.entries[t].song.id);
                } else if t2 > t {
                    assert(m.entries[t].song.id != m.entries[t2].song.id);
                }
            }
            assert(t != i);
            assert(m2.entries[t] == m.entries[t]);
        } else {
            assert(!has_entry(m2.entries, other)) by {
                if has_entry(m2.entries, other) {
                    let t2 = entry_index(m2.entries, other);
                    assert(m2.entries[t2].song.id == other);
                    assert(m.entries[t2].song.id == other);
                    assert(has_entry(m.entries, other)) by {
                        assert(0 <= t2 < m.entries.len() && m.entries[t2].song.id == other);
                    }
                }
            }
        }
    }
}

/// Law: deleting a song removes the song and all of its slides; no slide
/// of the deleted song remains, and every other song keeps its slides.
pub proof fn lemma_delete_song_removes_slides(m: StoreModel, id: int)
    requires
        store_inv(m),
    ensures
        ({
            let m2 = delete_song_spec(m, id);
            &&& !has_entry(m2.entries, id)
            &&& slides_of(m2, id) == Seq::<SlideModel>::empty()
            &&& forall|other: int| other != id ==> slides_of(m2, other) == slides_of(m, other)
        }),
{
    let m2 = delete_song_spec(m, id);
    if !has_entry(m.entries, id) {
        assert(m2 == m);
        assert(!has_entry(m2.entries, id));
    } else {
        let i = entry_index(m.entries, id);
        assert(0 <= i < m.entries.len() && m.entries[i].song.id == id);
        assert forall|t: int| 0 <= t < i implies (#[trigger] m2.entries[t]) == m.entries[t] by {}
        assert forall|t: int| i <= t < m2.entries.len() implies (#[trigger] m2.entries[t])
            == m.entries[t + 1] by {}
        assert(!has_entry(m2.entries, id)) by {
            if has_entry(m2.entries, id) {
                let t = entry_index(m2.entries, id);
                assert(0 <= t < m2.entries.len() && m2.entries[t].song.id == id);
                if t < i {
                    assert(m.entries[t].song.id != m.entries[i].song.id);
                } else {
                    assert(m.entries[i].song.id != m.entries[t + 1].song.id);
                }
            }
        }
        assert forall|other: int| other != id implies slides_of(m2, other) == slides_of(
            m,
            other,
        ) by {
            if has_entry(m.entries, other) {
                let t = entry_index(m.entries, other);
                assert(0 <= t < m.entries.len() && m.entries[t].song.id == other);
                assert(t != i);
                let t2 = if t < i {
                    t
                } else {
                    t - 1
                };
                assert(m2.entries[t2] == m.entries[t]);
                assert(has_entry(m2.entries, other)) by {
                    assert(0 <= t2 < m2.entries.len() && m2.entries[t2].song.id == other);
                }
                let u = entry_index(m2.entries, other);
                assert(0 <= u < m2.entries.len() && m2.entries[u].song.id == other);
                let u0 = if u < i {
                    u
                } else {
                    u + 1
                };
                assert(m.entries[u0].song.id == other);
                assert(u0 == t) by {
                    if u0 < t {
                        assert(m.entries[u0].song.id != m.entries[t].song.id);
                    } else if u0 > t {
                        assert(m.entries[t].song.id != m.entries[u0].song.id);
                    }
                }
                assert(m2.entries[u] == m.entries[u0]);
            } else {
                assert(!has_entry(m2.entries, other)) by {
                    if has_entry(m2.entries, other) {
                        let u = entry_index(m2.entries, other);
                        assert(0 <= u < m2.entries.len() && m2.entries[u].song.id == other);
                        let u0 = if u < i {
                            u
                        } else {
                            u + 1
                        };
                        assert(m.entries[u0].song.id == other);
                        assert(has_entry(m.entries, other)) by {
                            assert(0 <= u0 < m.entries.len() && m.entries[u0].song.id == other);
                        }
                    }
                }
            }
        }
    }
}

/// Law: importing a bundle whose title matches a stored song replaces
/// that song's slides in place, keeping its identifier and creating no
/// duplicate; a bundle with a new title becomes a new song at the end of
/// the store.
pub proof fn lemma_import_bundle_by_title(m: StoreModel, b: BundleModel)
    requires
        store_inv(m),
    ensures
        ({
            let m2 = import_one_spec(m, b);
            let i = title_index_of(m.entries, b.title);
            &&& (i >= 0 ==> {
                &&& m2.entries.len() == m.entries.len()
                &&& m2.entries[i].song == m.entries[i].song
                &&& m2.entries[i].slides == numbered_slides(b.letras, m.next_slide_id)
                &&& forall|t: int|
                    0 <= t < m.entries.len() && t != i ==> #[trigger] m2.entries[t]
                        == m.entries[t]
            })
            &&& (i < 0 ==> {
                &&& m2.entries.len() == m.entries.len() + 1
                &&& m2.entries.last().song.title == b.title
                &&& m2.entries.last().song.id == m.next_song_id
                &&& m2.entries.last().slides == numbered_slides(b.letras, m.next_slide_id)
                &&& forall|t: int|
                    0 <= t < m.entries.len() ==> #[trigger] m2.entries[t] == m.entries[t]
            })
        }),
{
    lemma_title_index_of(m.entries, b.title);
}

/// The slide bodies of one song, in order.
fn slide_texts(slides: &Vec<Slide>) -> (r: Vec<String>)
    ensures
        r.deep_view() == slides.deep_view().map_values(|s: SlideModel| s.text),
{
    let n = slides.len();
    let mut r: Vec<String> = Vec::new();
    let mut k: usize = 0;
    while k < n
        invariant
            n == slides@.len(),
            k <= n,
            r@.len() == k,
            r.deep_view() == slides.deep_view().map_values(|s: SlideModel| s.text).take(k as int),
        decreases n - k,
    {
        let ghost prev = r.deep_view();
        r.push(slides[k].text.clone());
        proof {
            let full = slides.deep_view().map_values(|s: SlideModel| s.text);
            assert forall|t: int| 0 <= t < k + 1 implies r.deep_view()[t] == full.take(
                k as int + 1,
            )[t] by {
                if t < k as int {
                    assert(r.deep_view()[t] == prev[t]);
                } else {
                    assert(r.deep_view()[t] == slides@[t].text@);
                }
            }
            assert(r.deep_view() =~= full.take(k as int + 1));
        }
        k += 1;
    }
    proof {
        let full = slides.deep_view().map_values(|s: SlideModel| s.text);
        assert(full.take(n as int) =~= full);
    }
    r
}

/// Builds the slide rows for the given bodies, with identifiers starting
/// at `first_id` and orders `1..=len`.
fn make_slides(texts: &Vec<String>, first_id: i64) -> (r: Vec<Slide>)
    requires
        1 <= first_id,
        first_id + texts@.len() <= i64::MAX,
    ensures
        r.deep_view() == numbered_slides(texts.deep_view(), first_id as int),
{
    let n = texts.len();
    let mut r: Vec<Slide> = Vec::new();
    proof {
        assert(r.deep_view() =~= numbered_slides(texts.deep_view(), first_id as int).take(0));
    }
    let mut k: usize = 0;
    while k < n
        invariant
            1 <= first_id,
            first_id + texts@.len() <= i64::MAX,
            n == texts@.len(),
            k <= n,
            r@.len() == k,
            r.deep_view() == numbered_slides(texts.deep_view(), first_id as int).take(k as int),
        decreases n - k,
    {
        let ghost prevv = r@;
        let ghost prev = r.deep_view();
        let slide = Slide {
            id: first_id + (k as i64),
            order: (k as i64) + 1,
            text: texts[k].clone(),
        };
        r.push(slide);
        proof {
            let full = numbered_slides(texts.deep_view(), first_id as int);
            assert(slide@.text == texts.deep_view()[k as int]);
            assert(slide@ == full[k as int]);
            assert(r@ == prevv.push(slide));
            assert(r@.len() == k + 1);
            assert(prev.len() == k);
            assert forall|i: int| 0 <= i < k + 1 implies r.deep_view()[i] == full.take(
                k as int + 1,
            )[i] by {
                assert(r.deep_view()[i] == r@[i].deep_view());
                if i < k as int {
                    assert(r@[i] == prevv[i]);
                    assert(prev[i] == prevv[i].deep_view());
                    assert(prev[i] == full.take(k as int)[i]);
                } else {
                    assert(r@[i] == slide);
                }
            }
            assert(r.deep_view() =~= full.take(k as int + 1));
        }
        k += 1;
    }
    proof {
        assert(numbered_slides(texts.deep_view(), first_id as int).take(n as int)
            =~= numbered_slides(texts.deep_view(), first_id as int));
    }
    r
}

/// Lexicographic order on character sequences by code point, the order
/// used for song listings.
pub open spec fn lex_leq(a: Seq<char>, b: Seq<char>) -> bool
    decreases a.len(),
{
    if a.len() == 0 {
        true
    } else if b.len() == 0 {
        false
    } else if (a[0] as u32) < (b[0] as u32) {
        true
    } else if (a[0] as u32) > (b[0] as u32) {
        false
    } else {
        lex_leq(a.drop_first(), b.drop_first())
    }
}

/// `lex_leq` is total.
pub proof fn lemma_lex_total(a: Seq<char>, b: Seq<char>)
    ensures
        lex_leq(a, b) || lex_leq(b, a),
    decreases a.len(),
{
    if a.len() > 0 && b.len() > 0 && a[0] as u32 == b[0] as u32 {
        lemma_lex_total(a.drop_first(), b.drop_first());
    }
}

/// `lex_leq` is transitive.
pub proof fn lemma_lex_trans(a: Seq<char>, b: Seq<char>, c: Seq<char>)
    requires
        lex_leq(a, b),
        lex_leq(b, c),
    ensures
        lex_leq(a, c),
    decreases a.len(),
{
    if a.len() > 0 && b.len() > 0 && c.len() > 0 && a[0] as u32 == b[0] as u32 && b[0] as u32
        == c[0] as u32 {
        lemma_lex_trans(a.drop_first(), b.drop_first(), c.drop_first());
    }
}

/// Compares two strings in the [`lex_leq`] order.
fn title_le(a: &String, b: &String) -> (r: bool)
    ensures
        r == lex_leq(a@, b@),
{
    let na = a.as_str().unicode_len();
    let nb = b.as_str().unicode_len();
    let mut i: usize = 0;
    proof {
        assert(a@.skip(0) =~= a@);
        assert(b@.skip(0) =~= b@);
    }
    loop
        invariant
            na == a@.len(),
            nb == b@.len(),
            i <= na,
            i <= nb,
            lex_leq(a@, b@) == lex_leq(a@.skip(i as int), b@.skip(i as int)),
        decreases na - i,
    {
        if i >= na {
            proof {
                assert(a@.skip(i as int).len() == 0);
            }
            return true;
        }
        if i >= nb {
            proof {
                assert(b@.skip(i as int).len() == 0);
                assert(a@.skip(i as int).len() > 0);
            }
            return false;
        }
        let ca = a.as_str().get_char(i) as u32;
        let cb = b.as_str().get_char(i) as u32;
        proof {
            assert(a@.skip(i as int)[0] == a@[i as int]);
            assert(b@.skip(i as int)[0] == b@[i as int]);
            assert(a@.skip(i as int).drop_first() =~= a@.skip(i as int + 1));
            assert(b@.skip(i as int).drop_first() =~= b@.skip(i as int + 1));
        }
        if ca < cb {
            return true;
        }
        if ca > cb {
            return false;
        }
        i += 1;
    }
}

/// The songs of the store, without their slides, in storage order.
pub open spec fn songs_of(m: StoreModel) -> Seq<SongModel> {
    m.entries.map_values(|e: EntryModel| e.song)
}

/// Whether a song listing is in title order.
pub open spec fn sorted_by_title(s: Seq<SongModel>) -> bool {
    forall|i: int, j: int| 0 <= i < j < s.len() ==> lex_leq(s[i].title, s[j].title)
}

/// Copies a song row field by field.
fn clone_song(s: &Song) -> (r: Song)
    ensures
        r == *s,
{
    Song {
        id: s.id,
        title: s.title.clone(),
        tone: s.tone.clone(),
        category: s.category.clone(),
    }
}

/// Sorts a song listing by title.  The listing keeps exactly the same
/// songs; equal titles may appear in any relative order.
fn sort_songs(v: &mut Vec<Song>)
    ensures
        final(v)@.len() == old(v)@.len(),
        final(v).deep_view().to_multiset() == old(v).deep_view().to_multiset(),
        sorted_by_title(final(v).deep_view()),
{
    let ghost dv0 = v.deep_view();
    let n = v.len();
    let mut i: usize = 1;
    while i < n
        invariant
            n == v@.len(),
            1 <= i,
            n == 0 || i <= n,
            v.deep_view().to_multiset() == dv0.to_multiset(),
            forall|x: int, y: int|
                0 <= x < y < i && y < n ==> lex_leq(
                    v.deep_view()[x].title,
                    v.deep_view()[y].title,
                ),
        decreases n - i,
    {
        let ghost vsnap = v@;
        let ghost dsnap = v.deep_view();
        let mut p: usize = i;
        loop
            invariant
                p <= i < n,
                n == v@.len(),
                v@ == vsnap,
                v.deep_view() == dsnap,
                forall|y: int|
                    p <= y < i ==> lex_leq(dsnap[i as int].title, (#[trigger] dsnap[y]).title),
            ensures
                p <= i,
                v@ == vsnap,
                forall|y: int|
                    p <= y < i ==> lex_leq(dsnap[i as int].title, (#[trigger] dsnap[y]).title),
                p > 0 ==> lex_leq(dsnap[p as int - 1].title, dsnap[i as int].title),
            decreases p,
        {
            if p == 0 {
                break ;
            }
            let le = title_le(&v[p - 1].title, &v[i].title);
            if le {
                break ;
            }
            proof {
                lemma_lex_total(dsnap[p as int - 1].title, dsnap[i as int].title);
            }
            p -= 1;
        }
        let x = v.remove(i);
        v.insert(p, x);
        proof {
            assert(v@ =~= vsnap.remove(i as int).insert(p as int, vsnap[i as int]));
            let d = v.deep_view();
            assert(d =~= dsnap.remove(i as int).insert(p as int, dsnap[i as int])) by {
                assert forall|t: int| 0 <= t < d.len() implies d[t] == dsnap.remove(i as int)
                    .insert(p as int, dsnap[i as int])[t] by {
                    assert(d[t] == v@[t].deep_view());
                }
            }
            broadcast use vstd::seq_lib::group_to_multiset_ensures;

            assert(dsnap.remove(i as int).to_multiset() == dsnap.to_multiset().remove(
                dsnap[i as int],
            ));
            assert(dsnap.remove(i as int).insert(p as int, dsnap[i as int]).to_multiset()
                == dsnap.remove(i as int).to_multiset().insert(dsnap[i as int]));
            assert(d.to_multiset() == dsnap.to_multiset()) by {
                assert(dsnap.to_multiset().contains(dsnap[i as int])) by {
                    assert(dsnap.contains(dsnap[i as int]));
                }
                assert(dsnap.to_multiset().remove(dsnap[i as int]).insert(dsnap[i as int])
                    =~= dsnap.to_multiset());
            }
            // the prefix 0..=i is now sorted
            assert forall|x0: int, y0: int| 0 <= x0 < y0 < i + 1 implies lex_leq(
                d[x0].title,
                d[y0].title,
            ) by {
                let pi = p as int;
                let ii = i as int;
                let moved = dsnap[ii];
                assert(forall|t: int| 0 <= t < pi ==> d[t] == dsnap[t]);
                assert(d[pi] == moved);
                assert(forall|t: int| pi < t <= ii ==> d[t] == dsnap[t - 1]);
                if y0 < pi {
                    assert(lex_leq(dsnap[x0].title, dsnap[y0].title));
                } else if y0 == pi {
                    // x0 < p: dsnap[x0] <= dsnap[p-1] <= moved
                    assert(lex_leq(dsnap[pi - 1].title, moved.title));
                    if x0 < pi - 1 {
                        assert(lex_leq(dsnap[x0].title, dsnap[pi - 1].title));
                        lemma_lex_trans(dsnap[x0].title, dsnap[pi - 1].title, moved.title);
                    }
                } else {
                    // y0 in p+1 ..= i, so d[y0] == dsnap[y0 - 1]
                    if x0 < pi {
                        if x0 <= y0 - 2 {
                            assert(lex_leq(dsnap[x0].title, dsnap[y0 - 1].title));
                        } else {
                            assert(x0 == y0 - 1);
                            assert(d[x0] == dsnap[x0]);
                            assert(d[y0] == dsnap[x0]);
                            proof_lex_refl(dsnap[x0].title);
                        }
                    } else if x0 == pi {
                        assert(lex_leq(moved.title, dsnap[y0 - 1].title));
                    } else {
                        assert(lex_leq(dsnap[x0 - 1].title, dsnap[y0 - 1].title));
                    }
                }
            }
        }
        i += 1;
    }
    proof {
        if n == 0 {
            assert(sorted_by_title(v.deep_view()));
        }
    }
}

/// `lex_leq` is reflexive.
proof fn proof_lex_refl(a: Seq<char>)
    ensures
        lex_leq(a, a),
    decreases a.len(),
{
    if a.len() > 0 {
        proof_lex_refl(a.drop_first());
    }
}

impl SongStore {
    /// All songs, alphabetically by title.
    pub fn list_songs(&self) -> (r: Vec<Song>)
        requires
            self.wf(),
        ensures
            r@.len() == self@.entries.len(),
            r.deep_view().to_multiset() == songs_of(self@).to_multiset(),
            sorted_by_title(r.deep_view()),
    {
        let n = self.entries.len();
        let mut r: Vec<Song> = Vec::new();
        let mut k: usize = 0;
        while k < n
            invariant
                self.wf(),
                n == self@.entries.len(),
                k <= n,
                r@.len() == k,
                r.deep_view() == songs_of(self@).take(k as int),
            decreases n - k,
        {
            let ghost prev = r.deep_view();
            r.push(clone_song(&self.entries[k].song));
            proof {
                assert forall|t: int| 0 <= t < k + 1 implies r.deep_view()[t] == songs_of(
                    self@,
                ).take(k as int + 1)[t] by {
                    if t < k as int {
                        assert(r.deep_view()[t] == prev[t]);
                    } else {
                        assert(r.deep_view()[t] == self@.entries[t].song);
                    }
                }
                assert(r.deep_view() =~= songs_of(self@).take(k as int + 1));
            }
            k += 1;
        }
        proof {
            assert(songs_of(self@).take(n as int) =~= songs_of(self@));
        }
        sort_songs(&mut r);
        r
    }
}

/// Copies a slide row field by field.
fn clone_slide(s: &Slide) -> (r: Slide)
    ensures
        r == *s,
{
    Slide { id: s.id, order: s.order, text: s.text.clone() }
}

/// Copies a slide sequence element by element.
fn clone_slides(v: &Vec<Slide>) -> (r: Vec<Slide>)
    ensures
        r@ == v@,
{
    let n = v.len();
    let mut r: Vec<Slide> = Vec::new();
    let mut k: usize = 0;
    while k < n
        invariant
            n == v@.len(),
            k <= n,
            r@ == v@.take(k as int),
        decreases n - k,
    {
        r.push(clone_slide(&v[k]));
        proof {
            assert(r@ =~= v@.take(k as int + 1));
        }
        k += 1;
    }
    proof {
        assert(v@.take(n as int) =~= v@);
    }
    r
}

} // verus!
