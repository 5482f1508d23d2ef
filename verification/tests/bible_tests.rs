use easypresenter::bible::{BibleStore, VerseRow};

fn row(version: &str, book: &str, book_number: i64, chapter: i64, verse: i64, text: &str) -> VerseRow {
    VerseRow {
        version: String::from(version),
        book: String::from(book),
        book_number,
        chapter,
        verse,
        text: String::from(text),
    }
}

fn seeded() -> BibleStore {
    // deliberately not in canonical order, and with a second version mixed in
    let rows = vec![
        row("KJV", "Exodus", 2, 1, 1, "Now these are the names..."),
        row("KJV", "Genesis", 1, 1, 1, "In the beginning..."),
        row("KJV", "Genesis", 1, 1, 2, "And the earth was without form..."),
        row("KJV", "Genesis", 1, 2, 1, "Thus the heavens..."),
        row("RV", "Genesis", 1, 1, 1, "En el principio..."),
        row("KJV", "Exodus", 2, 3, 4, "God called unto him..."),
    ];
    let versions = vec![String::from("KJV"), String::from("RV")];
    BibleStore::new(versions, rows)
}

#[test]
fn list_versions_in_storage_order() {
    let store = seeded();
    assert_eq!(store.list_versions(), vec!["KJV", "RV"]);
}

#[test]
fn list_books_ordered_by_canonical_number() {
    let store = seeded();
    let books = store.list_books("KJV");
    let names: Vec<&str> = books.iter().map(|b| b.name.as_str()).collect();
    // Genesis first because of the canonical book number: both the
    // storage order (an Exodus row comes first) and the alphabetical
    // order ("Exodus" < "Genesis") would put Exodus first.
    assert_eq!(names, vec!["Genesis", "Exodus"]);
    assert_eq!(books[0].book_number, 1);
    assert_eq!(books[0].chapters, 2);
    assert_eq!(books[1].book_number, 2);
    assert_eq!(books[1].chapters, 3);
}

#[test]
fn list_books_ignores_other_versions() {
    let store = seeded();
    let books = store.list_books("RV");
    assert_eq!(books.len(), 1);
    assert_eq!(books[0].name, "Genesis");
    assert_eq!(books[0].chapters, 1);
}

#[test]
fn list_chapter_verses_ordered_by_verse() {
    let rows = vec![
        row("KJV", "Psalms", 19, 23, 3, "He restoreth my soul..."),
        row("KJV", "Psalms", 19, 23, 1, "The LORD is my shepherd..."),
        row("KJV", "Psalms", 19, 23, 2, "He maketh me to lie down..."),
        row("KJV", "Psalms", 19, 24, 1, "The earth is the LORD's..."),
    ];
    let store = BibleStore::new(vec![String::from("KJV")], rows);
    let verses = store.list_chapter_verses("KJV", "Psalms", 23);
    let numbers: Vec<i64> = verses.iter().map(|v| v.verse).collect();
    assert_eq!(numbers, vec![1, 2, 3]);
    assert_eq!(verses[0].text, "The LORD is my shepherd...");
    assert_eq!(verses[0].book, "Psalms");
    assert_eq!(verses[0].chapter, 23);
}

#[test]
fn list_chapter_verses_empty_when_nothing_matches() {
    let store = seeded();
    assert!(store.list_chapter_verses("KJV", "Leviticus", 1).is_empty());
    assert!(store.list_chapter_verses("NIV", "Genesis", 1).is_empty());
}

#[test]
fn get_verse_returns_the_matching_row() {
    let store = seeded();
    let v = store.get_verse("KJV", "Genesis", 1, 2).unwrap();
    assert_eq!(v.book, "Genesis");
    assert_eq!(v.chapter, 1);
    assert_eq!(v.verse, 2);
    assert_eq!(v.text, "And the earth was without form...");
}

#[test]
fn get_verse_absent_is_none_not_an_error() {
    let store = seeded();
    assert!(store.get_verse("KJV", "Genesis", 1, 99).is_none());
    assert!(store.get_verse("KJV", "Malachi", 1, 1).is_none());
    assert!(store.get_verse("NIV", "Genesis", 1, 1).is_none());
    let empty = BibleStore::new(Vec::new(), Vec::new());
    assert!(empty.get_verse("KJV", "Genesis", 1, 1).is_none());
}

#[test]
fn get_verse_scoped_by_version() {
    let store = seeded();
    let kjv = store.get_verse("KJV", "Genesis", 1, 1).unwrap();
    let rv = store.get_verse("RV", "Genesis", 1, 1).unwrap();
    assert_eq!(kjv.text, "In the beginning...");
    assert_eq!(rv.text, "En el principio...");
}
