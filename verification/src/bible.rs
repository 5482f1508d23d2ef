//! The bible store: versions, books and verses, read-only at runtime.
//!
//! The store is loaded once from the pre-seeded bible database and never
//! written.  A verse belongs to one version and is identified by book
//! name, chapter number and verse number; book listings are ordered by a
//! canonical book number, never alphabetically.

use vstd::prelude::*;

verus! {

/// One verse row as loaded from the bible database: the version it
/// belongs to, its book (name and canonical number), chapter, verse
/// number and text.
pub struct VerseRow {
    pub version: String,
    pub book: String,
    pub book_number: i64,
    pub chapter: i64,
    pub verse: i64,
    pub text: String,
}

/// One verse as handed to the caller.
pub struct Verse {
    pub book: String,
    pub chapter: i64,
    pub verse: i64,
    pub text: String,
}

/// One book of a version: its name, canonical number and highest chapter.
pub struct BookInfo {
    pub name: String,
    pub book_number: i64,
    pub chapters: i64,
}

/// Mathematical value of a [`VerseRow`].
pub struct VerseRowModel {
    pub version: Seq<char>,
    pub book: Seq<char>,
    pub book_number: int,
    pub chapter: int,
    pub verse: int,
    pub text: Seq<char>,
}

/// Mathematical value of a [`Verse`].
pub struct VerseModel {
    pub book: Seq<char>,
    pub chapter: int,
    pub verse: int,
    pub text: Seq<char>,
}

/// Mathematical value of a [`BookInfo`].
pub struct BookInfoModel {
    pub name: Seq<char>,
    pub book_number: int,
    pub chapters: int,
}

/// Mathematical value of the whole store.
pub struct BibleModel {
    pub versions: Seq<Seq<char>>,
    pub rows: Seq<VerseRowModel>,
}

impl View for VerseRow {
    type V = VerseRowModel;

    open spec fn view(&self) -> VerseRowModel {
        VerseRowModel {
            version: self.version@,
            book: self.book@,
            book_number: self.book_number as int,
            chapter: self.chapter as int,
            verse: self.verse as int,
            text: self.text@,
        }
    }
}

impl DeepView for VerseRow {
    type V = VerseRowModel;

    open spec fn deep_view(&self) -> VerseRowModel {
        self@
    }
}

impl View for Verse {
    type V = VerseModel;

    open spec fn view(&self) -> VerseModel {
        VerseModel {
            book: self.book@,
            chapter: self.chapter as int,
            verse: self.verse as int,
            text: self.text@,
        }
    }
}

impl DeepView for Verse {
    type V = VerseModel;

    open spec fn deep_view(&self) -> VerseModel {
        self@
    }
}

impl View for BookInfo {
    type V = BookInfoModel;

    open spec fn view(&self) -> BookInfoModel {
        BookInfoModel {
            name: self.name@,
            book_number: self.book_number as int,
            chapters: self.chapters as int,
        }
    }
}

impl DeepView for BookInfo {
    type V = BookInfoModel;

    open spec fn deep_view(&self) -> BookInfoModel {
        self@
    }
}

/// The verse record carried by a row.
pub open spec fn verse_of_row(r: VerseRowModel) -> VerseModel {
    VerseModel { book: r.book, chapter: r.chapter, verse: r.verse, text: r.text }
}

/// Whether a row belongs to the given version, book and chapter.
pub open spec fn chapter_matches(
    r: VerseRowModel,
    version: Seq<char>,
    book: Seq<char>,
    chapter: int,
) -> bool {
    r.version == version && r.book == book && r.chapter == chapter
}

/// Whether a row is the given verse of the given version, book and
/// chapter.
pub open spec fn verse_matches(
    r: VerseRowModel,
    version: Seq<char>,
    book: Seq<char>,
    chapter: int,
    verse: int,
) -> bool {
    chapter_matches(r, version, book, chapter) && r.verse == verse
}

/// The verses of one chapter among the first `k` rows, in storage order.
pub open spec fn chapter_list(
    rows: Seq<VerseRowModel>,
    version: Seq<char>,
    book: Seq<char>,
    chapter: int,
    k: int,
) -> Seq<VerseModel>
    decreases k,
{
    if k <= 0 {
        Seq::empty()
    } else {
        let prev = chapter_list(rows, version, book, chapter, k - 1);
        if chapter_matches(rows[k - 1], version, book, chapter) {
            prev.push(verse_of_row(rows[k - 1]))
        } else {
            prev
        }
    }
}

/// The index of the first row matching the given verse, or -1.
pub open spec fn verse_index_of(
    rows: Seq<VerseRowModel>,
    version: Seq<char>,
    book: Seq<char>,
    chapter: int,
    verse: int,
) -> int
    decreases rows.len(),
{
    if rows.len() == 0 {
        -1
    } else if verse_matches(rows[0], version, book, chapter, verse) {
        0
    } else {
        let r = verse_index_of(rows.drop_first(), version, book, chapter, verse);
        if r < 0 {
            -1
        } else {
            r + 1
        }
    }
}

/// `verse_index_of` finds exactly the first matching row.
pub proof fn lemma_verse_index_of(
    rows: Seq<VerseRowModel>,
    version: Seq<char>,
    book: Seq<char>,
    chapter: int,
    verse: int,
)
    ensures
        ({
            let r = verse_index_of(rows, version, book, chapter, verse);
            &&& (r == -1 ==> forall|i: int|
                0 <= i < rows.len() ==> !verse_matches(
                    #[trigger] rows[i],
                    version,
                    book,
                    chapter,
                    verse,
                ))
            &&& (r >= 0 ==> 0 <= r < rows.len() && verse_matches(
                rows[r],
                version,
                book,
                chapter,
                verse,
            ) && (forall|i: int|
                0 <= i < r ==> !verse_matches(#[trigger] rows[i], version, book, chapter, verse)))
        }),
    decreases rows.len(),
{
    let r = verse_index_of(rows, version, book, chapter, verse);
    if rows.len() == 0 {
    } else if verse_matches(rows[0], version, book, chapter, verse) {
    } else {
        let rest = rows.drop_first();
        lemma_verse_index_of(rest, version, book, chapter, verse);
        let rr = verse_index_of(rest, version, book, chapter, verse);
        assert(forall|i: int| 0 <= i < rest.len() ==> #[trigger] rest[i] == rows[i + 1]);
        if rr < 0 {
            assert forall|i: int| 0 <= i < rows.len() implies !verse_matches(
                #[trigger] rows[i],
                version,
                book,
                chapter,
                verse,
            ) by {
                if i > 0 {
                    assert(rest[i - 1] == rows[i]);
                }
            }
        } else {
            assert(rows[r] == rest[rr]);
            assert forall|i: int| 0 <= i < r implies !verse_matches(
                #[trigger] rows[i],
                version,
                book,
                chapter,
                verse,
            ) by {
                if i > 0 {
                    assert(rest[i - 1] == rows[i]);
                }
            }
        }
    }
}

/// The index of the book named `name` in a book listing, or -1.
pub open spec fn book_index_in(acc: Seq<BookInfoModel>, name: Seq<char>) -> int
    decreases acc.len(),
{
    if acc.len() == 0 {
        -1
    } else if acc[0].name == name {
        0
    } else {
        let r = book_index_in(acc.drop_first(), name);
        if r < 0 {
            -1
        } else {
            r + 1
        }
    }
}

/// `book_index_in` finds exactly the first entry with the given name.
pub proof fn lemma_book_index_in(acc: Seq<BookInfoModel>, name: Seq<char>)
    ensures
        ({
            let r = book_index_in(acc, name);
            &&& (r == -1 ==> forall|i: int|
                0 <= i < acc.len() ==> (#[trigger] acc[i]).name != name)
            &&& (r >= 0 ==> 0 <= r < acc.len() && acc[r].name == name && (forall|i: int|
                0 <= i < r ==> (#[trigger] acc[i]).name != name))
        }),
    decreases acc.len(),
{
    let r = book_index_in(acc, name);
    if acc.len() == 0 {
    } else if acc[0].name == name {
    } else {
        let rest = acc.drop_first();
        lemma_book_index_in(rest, name);
        let rr = book_index_in(rest, name);
        assert(forall|i: int| 0 <= i < rest.len() ==> #[trigger] rest[i] == acc[i + 1]);
        if rr < 0 {
            assert forall|i: int| 0 <= i < acc.len() implies (#[trigger] acc[i]).name != name by {
                if i > 0 {
                    assert(rest[i - 1] == acc[i]);
                }
            }
        } else {
            assert(acc[r] == rest[rr]);
            assert forall|i: int| 0 <= i < r implies (#[trigger] acc[i]).name != name by {
                if i > 0 {
                    assert(rest[i - 1] == acc[i]);
                }
            }
        }
    }
}

/// One step of the book grouping: a row of another version is ignored; a
/// row of a known book raises that book's highest chapter; a row of a new
/// book appends it with the row's canonical number and chapter.
pub open spec fn book_step(
    acc: Seq<BookInfoModel>,
    row: VerseRowModel,
    version: Seq<char>,
) -> Seq<BookInfoModel> {
    if row.version != version {
        acc
    } else {
        let i = book_index_in(acc, row.book);
        if i >= 0 {
            let e = acc[i];
            acc.update(
                i,
                BookInfoModel {
                    name: e.name,
                    book_number: e.book_number,
                    chapters: if row.chapter > e.chapters {
                        row.chapter
                    } else {
                        e.chapters
                    },
                },
            )
        } else {
            acc.push(
                BookInfoModel { name: row.book, book_number: row.book_number, chapters: row.chapter },
            )
        }
    }
}

/// The book grouping of the first `k` rows for one version.
pub open spec fn books_fold(rows: Seq<VerseRowModel>, version: Seq<char>, k: int) -> Seq<
    BookInfoModel,
>
    decreases k,
{
    if k <= 0 {
        Seq::empty()
    } else {
        book_step(books_fold(rows, version, k - 1), rows[k - 1], version)
    }
}

/// The books of one version: one entry per distinct book name among the
/// version's rows, first-seen order, each with the book's canonical
/// number and highest chapter.
pub open spec fn books_of(rows: Seq<VerseRowModel>, version: Seq<char>) -> Seq<BookInfoModel> {
    books_fold(rows, version, rows.len() as int)
}

/// The bible store: the version names and all verse rows, as loaded from
/// the seeded database.
pub struct BibleStore {
    versions: Vec<String>,
    rows: Vec<VerseRow>,
}

impl View for BibleStore {
    type V = BibleModel;

    closed spec fn view(&self) -> BibleModel {
        BibleModel { versions: self.versions.deep_view(), rows: self.rows.deep_view() }
    }
}

impl BibleStore {
    /// Wraps the loaded version names and verse rows.
    pub fn new(versions: Vec<String>, rows: Vec<VerseRow>) -> (r: BibleStore)
        ensures
            r@.versions == versions.deep_view(),
            r@.rows == rows.deep_view(),
    {
        BibleStore { versions, rows }
    }

    /// The names of the available bible versions, in storage order.
    pub fn list_versions(&self) -> (r: Vec<String>)
        ensures
            r.deep_view() == self@.versions,
    {
        let n = self.versions.len();
        let mut r: Vec<String> = Vec::new();
        let mut k: usize = 0;
        while k < n
            invariant
                n == self@.versions.len(),
                k <= n,
                r@.len() == k,
                r.deep_view() == self@.versions.take(k as int),
            decreases n - k,
        {
            let ghost prev = r.deep_view();
            r.push(self.versions[k].clone());
            proof {
                assert forall|t: int| 0 <= t < k + 1 implies r.deep_view()[t] == self@.versions.take(
                    k as int + 1,
                )[t] by {
                    if t < k as int {
                        assert(r.deep_view()[t] == prev[t]);
                    } else {
                        assert(r.deep_view()[t] == self.versions@[t]@);
                    }
                }
                assert(r.deep_view() =~= self@.versions.take(k as int + 1));
            }
            k += 1;
        }
        proof {
            assert(self@.versions.take(n as int) =~= self@.versions);
        }
        r
    }

    /// The verses of one chapter, ordered by verse number.
    pub fn list_chapter_verses(&self, version: &str, book: &str, chapter: i64) -> (r: Vec<Verse>)
        ensures
            r.deep_view().to_multiset() == chapter_list(
                self@.rows,
                version@,
                book@,
                chapter as int,
                self@.rows.len() as int,
            ).to_multiset(),
            forall|x: int, y: int|
                0 <= x < y < r.deep_view().len() ==> (#[trigger] r.deep_view()[x]).verse <= (
                #[trigger] r.deep_view()[y]).verse,
    {
        let version_s = version.to_owned();
        let book_s = book.to_owned();
        let n = self.rows.len();
        let mut acc: Vec<Verse> = Vec::new();
        let mut k: usize = 0;
        proof {
            assert(acc.deep_view() =~= chapter_list(self@.rows, version@, book@, chapter as int, 0));
        }
        while k < n
            invariant
                n == self@.rows.len(),
                version_s@ == version@,
                book_s@ == book@,
                k <= n,
                acc.deep_view() == chapter_list(
                    self@.rows,
                    version@,
                    book@,
                    chapter as int,
                    k as int,
                ),
            decreases n - k,
        {
            let ghost prev = acc.deep_view();
            let row = &self.rows[k];
            if row.version == version_s && row.book == book_s && row.chapter == chapter {
                acc.push(
                    Verse {
                        book: row.book.clone(),
                        chapter: row.chapter,
                        verse: row.verse,
                        text: row.text.clone(),
                    },
                );
                proof {
                    assert(chapter_matches(
                        self@.rows[k as int],
                        version@,
                        book@,
                        chapter as int,
                    ));
                    assert forall|t: int| 0 <= t < prev.len() + 1 implies acc.deep_view()[t]
                        == prev.push(verse_of_row(self@.rows[k as int]))[t] by {
                        if t < prev.len() {
                            assert(acc.deep_view()[t] == prev[t]);
                        } else {
                            assert(acc.deep_view()[t] == verse_of_row(self@.rows[k as int]));
                        }
                    }
                    assert(acc.deep_view() =~= prev.push(verse_of_row(self@.rows[k as int])));
                }
            } else {
                proof {
                    assert(!chapter_matches(
                        self@.rows[k as int],
                        version@,
                        book@,
                        chapter as int,
                    ));
                }
            }
            k += 1;
        }
        sort_verses(&mut acc);
        acc
    }

    /// The books of one version, each with its highest chapter, ordered
    /// by canonical book number.
    pub fn list_books(&self, version: &str) -> (r: Vec<BookInfo>)
        ensures
            r.deep_view().to_multiset() == books_of(self@.rows, version@).to_multiset(),
            forall|x: int, y: int|
                0 <= x < y < r.deep_view().len() ==> (#[trigger] r.deep_view()[x]).book_number <= (
                #[trigger] r.deep_view()[y]).book_number,
    {
        let version_s = version.to_owned();
        let n = self.rows.len();
        let mut acc: Vec<BookInfo> = Vec::new();
        let mut k: usize = 0;
        proof {
            assert(acc.deep_view() =~= books_fold(self@.rows, version@, 0));
        }
        while k < n
            invariant
                n == self@.rows.len(),
                version_s@ == version@,
                k <= n,
                acc.deep_view() == books_fold(self@.rows, version@, k as int),
            decreases n - k,
        {
            let ghost prev = acc.deep_view();
            let ghost row_m = self@.rows[k as int];
            let row = &self.rows[k];
            if row.version == version_s {
                match index_of_book(&acc, &row.book) {
                    Some(i) => {
                        proof {
                            assert(book_index_in(prev, row_m.book) == i as int);
                        }
                        if row.chapter > acc[i].chapters {
                            let e = acc.remove(i);
                            acc.insert(
                                i,
                                BookInfo {
                                    name: e.name,
                                    book_number: e.book_number,
                                    chapters: row.chapter,
                                },
                            );
                            proof {
                                assert forall|t: int| 0 <= t < acc.deep_view().len() implies
                                    acc.deep_view()[t] == book_step(prev, row_m, version@)[t] by {
                                    assert(acc.deep_view()[t] == acc@[t].deep_view());
                                }
                                assert(acc.deep_view() =~= book_step(prev, row_m, version@));
                            }
                        } else {
                            proof {
                                assert(book_step(prev, row_m, version@) =~= prev);
                            }
                        }
                    },
                    None => {
                        acc.push(
                            BookInfo {
                                name: row.book.clone(),
                                book_number: row.book_number,
                                chapters: row.chapter,
                            },
                        );
                        proof {
                            assert forall|t: int| 0 <= t < acc.deep_view().len() implies
                                acc.deep_view()[t] == book_step(prev, row_m, version@)[t] by {
                                if t < prev.len() {
                                    assert(acc.deep_view()[t] == prev[t]);
                                } else {
                                    assert(acc.deep_view()[t] == acc@[t].deep_view());
                                }
                            }
                            assert(acc.deep_view() =~= book_step(prev, row_m, version@));
                        }
                    },
                }
            } else {
                proof {
                    assert(book_step(prev, row_m, version@) == prev);
                }
            }
            k += 1;
        }
        sort_books(&mut acc);
        acc
    }

    /// The single verse identified by version, book, chapter and verse
    /// number, or nothing when no row matches.  A missing verse is not an
    /// error.
    pub fn get_verse(&self, version: &str, book: &str, chapter: i64, verse: i64) -> (r: Option<
        Verse,
    >)
        ensures
            r is Some <==> verse_index_of(self@.rows, version@, book@, chapter as int, verse as int)
                >= 0,
            r is Some ==> ({
                let i = verse_index_of(self@.rows, version@, book@, chapter as int, verse as int);
                r->Some_0@ == verse_of_row(self@.rows[i])
            }),
    {
        let version_s = version.to_owned();
        let book_s = book.to_owned();
        let n = self.rows.len();
        let mut i: usize = 0;
        while i < n
            invariant
                n == self@.rows.len(),
                version_s@ == version@,
                book_s@ == book@,
                i <= n,
                forall|k: int|
                    0 <= k < i ==> !verse_matches(
                        #[trigger] self@.rows[k],
                        version@,
                        book@,
                        chapter as int,
                        verse as int,
                    ),
            decreases n - i,
        {
            let row = &self.rows[i];
            if row.version == version_s && row.book == book_s && row.chapter == chapter
                && row.verse == verse {
                proof {
                    assert(verse_matches(
                        self@.rows[i as int],
                        version@,
                        book@,
                        chapter as int,
                        verse as int,
                    ));
                    lemma_verse_index_of(self@.rows, version@, book@, chapter as int, verse as int);
                    let r0 = verse_index_of(
                        self@.rows,
                        version@,
                        book@,
                        chapter as int,
                        verse as int,
                    );
                    assert(r0 == i as int) by {
                        if r0 < i as int {
                            assert(!verse_matches(
                                self@.rows[r0],
                                version@,
                                book@,
                                chapter as int,
                                verse as int,
                            ));
                        }
                        if r0 > i as int || r0 == -1 {
                            assert(!verse_matches(
                                self@.rows[i as int],
                                version@,
                                book@,
                                chapter as int,
                                verse as int,
                            ));
                        }
                    }
                }
                return Some(
                    Verse {
                        book: row.book.clone(),
                        chapter: row.chapter,
                        verse: row.verse,
                        text: row.text.clone(),
                    },
                );
            }
            i += 1;
        }
        proof {
            lemma_verse_index_of(self@.rows, version@, book@, chapter as int, verse as int);
            let r0 = verse_index_of(self@.rows, version@, book@, chapter as int, verse as int);
            if r0 >= 0 {
                assert(!verse_matches(
                    self@.rows[r0],
                    version@,
                    book@,
                    chapter as int,
                    verse as int,
                ));
            }
        }
        None
    }
}

/// The position of the first listing entry named `name`, if any.
fn index_of_book(acc: &Vec<BookInfo>, name: &String) -> (r: Option<usize>)
    ensures
        r is Some ==> (r->Some_0 as int) == book_index_in(acc.deep_view(), name@) && (
        r->Some_0 as int) < acc.deep_view().len(),
        r is None ==> book_index_in(acc.deep_view(), name@) == -1,
{
    let n = acc.len();
    let mut i: usize = 0;
    while i < n
        invariant
            n == acc@.len(),
            i <= n,
            forall|k: int| 0 <= k < i ==> (#[trigger] acc.deep_view()[k]).name != name@,
        decreases n - i,
    {
        if acc[i].name == *name {
            proof {
                assert(acc.deep_view()[i as int].name == name@);
                lemma_book_index_in(acc.deep_view(), name@);
                let r0 = book_index_in(acc.deep_view(), name@);
                assert(r0 == i as int) by {
                    if r0 < i as int {
                        assert(acc.deep_view()[r0].name != name@);
                    }
                    if r0 > i as int || r0 == -1 {
                        assert(acc.deep_view()[i as int].name != name@);
                    }
                }
            }
            return Some(i);
        }
        i += 1;
    }
    proof {
        lemma_book_index_in(acc.deep_view(), name@);
        let r0 = book_index_in(acc.deep_view(), name@);
        if r0 >= 0 {
            assert(acc.deep_view()[r0].name != name@);
        }
    }
    None
}

/// Sorts a chapter listing by verse number.  The listing keeps exactly
/// the same verses.
fn sort_verses(v: &mut Vec<Verse>)
    ensures
        final(v)@.len() == old(v)@.len(),
        final(v).deep_view().to_multiset() == old(v).deep_view().to_multiset(),
        forall|x: int, y: int|
            0 <= x < y < final(v)@.len() ==> (#[trigger] final(v).deep_view()[x]).verse <= (
            #[trigger] final(v).deep_view()[y]).verse,
{
    let ghost dv0 = v.deep_view();
    let n = v.len();
    let mut i: usize = 1;
    while i < n
        invariant
            n == v@.len(),
            1 <= i,
            n == 0 || i <= n,
            v.deep_view().to_multiset() == dv0.to_multiset(),
            forall|x: int, y: int|
                0 <= x < y < i && y < n ==> (#[trigger] v.deep_view()[x]).verse <= (
                #[trigger] v.deep_view()[y]).verse,
        decreases n - i,
    {
        let ghost dsnap = v.deep_view();
        let ghost vsnap = v@;
        let mut p: usize = i;
        loop
            invariant
                p <= i < n,
                n == v@.len(),
                v@ == vsnap,
                v.deep_view() == dsnap,
                forall|y: int|
                    p <= y < i ==> dsnap[i as int].verse <= (#[trigger] dsnap[y]).verse,
            ensures
                p <= i,
                v@ == vsnap,
                forall|y: int|
                    p <= y < i ==> dsnap[i as int].verse <= (#[trigger] dsnap[y]).verse,
                p > 0 ==> dsnap[p as int - 1].verse <= dsnap[i as int].verse,
            decreases p,
        {
            if p == 0 {
                break ;
            }
            if v[p - 1].verse <= v[i].verse {
                break ;
            }
            p -= 1;
        }
        let x = v.remove(i);
        v.insert(p, x);
        proof {
            let d = v.deep_view();
            assert(d =~= dsnap.remove(i as int).insert(p as int, dsnap[i as int])) by {
                assert forall|t: int| 0 <= t < d.len() implies d[t] == dsnap.remove(i as int)
                    .insert(p as int, dsnap[i as int])[t] by {
                    assert(d[t] == v@[t].deep_view());
                }
            }
            broadcast use vstd::seq_lib::group_to_multiset_ensures;

            assert(d.to_multiset() == dsnap.to_multiset()) by {
                assert(dsnap.to_multiset().contains(dsnap[i as int])) by {
                    assert(dsnap.contains(dsnap[i as int]));
                }
                assert(dsnap.to_multiset().remove(dsnap[i as int]).insert(dsnap[i as int])
                    =~= dsnap.to_multiset());
            }
            assert forall|x0: int, y0: int| 0 <= x0 < y0 < i + 1 implies (#[trigger] d[x0]).verse
                <= (#[trigger] d[y0]).verse by {
                let pi = p as int;
                let ii = i as int;
                assert(forall|t: int| 0 <= t < pi ==> d[t] == dsnap[t]);
                assert(d[pi] == dsnap[ii]);
                assert(forall|t: int| pi < t <= ii ==> d[t] == dsnap[t - 1]);
            }
        }
        i += 1;
    }
}

/// Sorts a book listing by canonical book number.  The listing keeps
/// exactly the same books.
fn sort_books(v: &mut Vec<BookInfo>)
    ensures
        final(v)@.len() == old(v)@.len(),
        final(v).deep_view().to_multiset() == old(v).deep_view().to_multiset(),
        forall|x: int, y: int|
            0 <= x < y < final(v)@.len() ==> (#[trigger] final(v).deep_view()[x]).book_number <= (
            #[trigger] final(v).deep_view()[y]).book_number,
{
    let ghost dv0 = v.deep_view();
    let n = v.len();
    let mut i: usize = 1;
    while i < n
        invariant
            n == v@.len(),
            1 <= i,
            n == 0 || i <= n,
            v.deep_view().to_multiset() == dv0.to_multiset(),
            forall|x: int, y: int|
                0 <= x < y < i && y < n ==> (#[trigger] v.deep_view()[x]).book_number <= (
                #[trigger] v.deep_view()[y]).book_number,
        decreases n - i,
    {
        let ghost dsnap = v.deep_view();
        let ghost vsnap = v@;
        let mut p: usize = i;
        loop
            invariant
                p <= i < n,
                n == v@.len(),
                v@ == vsnap,
                v.deep_view() == dsnap,
                forall|y: int|
                    p <= y < i ==> dsnap[i as int].book_number <= (#[trigger] dsnap[y]).book_number,
            ensures
                p <= i,
                v@ == vsnap,
                forall|y: int|
                    p <= y < i ==> dsnap[i as int].book_number <= (#[trigger] dsnap[y]).book_number,
                p > 0 ==> dsnap[p as int - 1].book_number <= dsnap[i as int].book_number,
            decreases p,
        {
            if p == 0 {
                break ;
            }
            if v[p - 1].book_number <= v[i].book_number {
                break ;
            }
            p -= 1;
        }
        let x = v.remove(i);
        v.insert(p, x);
        proof {
            let d = v.deep_view();
            assert(d =~= dsnap.remove(i as int).insert(p as int, dsnap[i as int])) by {
                assert forall|t: int| 0 <= t < d.len() implies d[t] == dsnap.remove(i as int)
                    .insert(p as int, dsnap[i as int])[t] by {
                    assert(d[t] == v@[t].deep_view());
                }
            }
            broadcast use vstd::seq_lib::group_to_multiset_ensures;

            assert(d.to_multiset() == dsnap.to_multiset()) by {
                assert(dsnap.to_multiset().contains(dsnap[i as int])) by {
                    assert(dsnap.contains(dsnap[i as int]));
                }
                assert(dsnap.to_multiset().remove(dsnap[i as int]).insert(dsnap[i as int])
                    =~= dsnap.to_multiset());
            }
            assert forall|x0: int, y0: int| 0 <= x0 < y0 < i + 1 implies (
            #[trigger] d[x0]).book_number <= (#[trigger] d[y0]).book_number by {
                let pi = p as int;
                let ii = i as int;
                assert(forall|t: int| 0 <= t < pi ==> d[t] == dsnap[t]);
                assert(d[pi] == dsnap[ii]);
                assert(forall|t: int| pi < t <= ii ==> d[t] == dsnap[t - 1]);
            }
        }
        i += 1;
    }
}

} // verus!
