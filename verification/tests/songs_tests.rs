use easypresenter::songs::{Slide, Song, SongBundle, SongEntry, SongStore};
use easypresenter::StoreError;

fn entry(id: i64, title: &str, slides: Vec<(i64, i64, &str)>) -> SongEntry {
    SongEntry {
        song: Song {
            id,
            title: String::from(title),
            tone: String::new(),
            category: String::from("Custom"),
        },
        slides: slides
            .into_iter()
            .map(|(sid, order, text)| Slide {
                id: sid,
                order,
                text: String::from(text),
            })
            .collect(),
    }
}

#[test]
fn create_song_splits_stanzas() {
    let mut store = SongStore::new();
    let id = store
        .create_song("Amazing Grace", "Verse one line.\n\nVerse two line.\n\n")
        .unwrap();
    assert_eq!(id, 1);
    let slides = store.get_slides(id);
    assert_eq!(slides.len(), 2);
    assert_eq!(slides[0].text, "Verse one line.");
    assert_eq!(slides[1].text, "Verse two line.");
    assert_eq!(slides[0].order, 1);
    assert_eq!(slides[1].order, 2);
}

#[test]
fn create_song_trims_and_drops_empty_stanzas() {
    let mut store = SongStore::new();
    let id = store
        .create_song("Test", "  \n\n one \n\n\n\ntwo  \n\n   ")
        .unwrap();
    let slides = store.get_slides(id);
    let texts: Vec<&str> = slides.iter().map(|s| s.text.as_str()).collect();
    assert_eq!(texts, vec!["one", "two"]);
    let orders: Vec<i64> = slides.iter().map(|s| s.order).collect();
    assert_eq!(orders, vec![1, 2]);
}

#[test]
fn create_song_empty_lyrics_gives_no_slides() {
    let mut store = SongStore::new();
    let id = store.create_song("Silent", "").unwrap();
    assert!(store.get_slides(id).is_empty());
}

#[test]
fn create_song_sets_tone_and_category() {
    let mut store = SongStore::new();
    let id = store.create_song("One", "line").unwrap();
    let songs = store.list_songs();
    assert_eq!(songs.len(), 1);
    assert_eq!(songs[0].id, id);
    assert_eq!(songs[0].title, "One");
    assert_eq!(songs[0].tone, "");
    assert_eq!(songs[0].category, "Custom");
}

#[test]
fn update_song_replaces_all_slides() {
    let mut store = SongStore::new();
    let id = store.create_song("Old title", "a\n\nb\n\nc").unwrap();
    assert_eq!(store.get_slides(id).len(), 3);
    store.update_song(id, "New title", "only one stanza").unwrap();
    let slides = store.get_slides(id);
    assert_eq!(slides.len(), 1);
    assert_eq!(slides[0].text, "only one stanza");
    assert_eq!(slides[0].order, 1);
    let songs = store.list_songs();
    assert_eq!(songs.len(), 1);
    assert_eq!(songs[0].title, "New title");
    assert_eq!(songs[0].id, id);
}

#[test]
fn update_missing_song_changes_nothing() {
    let mut store = SongStore::new();
    let id = store.create_song("Kept", "a\n\nb").unwrap();
    store.update_song(id + 7, "Other", "x").unwrap();
    assert_eq!(store.list_songs().len(), 1);
    assert_eq!(store.get_slides(id).len(), 2);
    assert!(store.get_slides(id + 7).is_empty());
}

#[test]
fn delete_song_removes_its_slides() {
    let mut store = SongStore::new();
    let id1 = store.create_song("First", "a\n\nb").unwrap();
    let id2 = store.create_song("Second", "c").unwrap();
    store.delete_song(id1);
    assert!(store.get_slides(id1).is_empty());
    let songs = store.list_songs();
    assert_eq!(songs.len(), 1);
    assert_eq!(songs[0].id, id2);
    assert_eq!(store.get_slides(id2).len(), 1);
}

#[test]
fn delete_missing_song_changes_nothing() {
    let mut store = SongStore::new();
    let id = store.create_song("Stays", "a").unwrap();
    store.delete_song(id + 1);
    assert_eq!(store.list_songs().len(), 1);
}

#[test]
fn list_songs_is_ordered_by_title() {
    let mut store = SongStore::new();
    store.create_song("Banana", "x").unwrap();
    store.create_song("apple", "x").unwrap();
    store.create_song("Apple", "x").unwrap();
    let titles: Vec<String> = store.list_songs().into_iter().map(|s| s.title).collect();
    assert_eq!(titles, vec!["Apple", "Banana", "apple"]);
}

#[test]
fn export_songs_carries_fields_and_slide_texts() {
    let mut store = SongStore::new();
    store.create_song("Hymn", "first\n\nsecond").unwrap();
    let bundles = store.export_songs();
    assert_eq!(bundles.len(), 1);
    assert_eq!(bundles[0].title, "Hymn");
    assert_eq!(bundles[0].tone, "");
    assert_eq!(bundles[0].category, "Custom");
    assert_eq!(bundles[0].letras, vec!["first", "second"]);
}

#[test]
fn import_matching_title_replaces_slides_in_place() {
    let mut store = SongStore::new();
    let id = store.create_song("Shared title", "old one\n\nold two").unwrap();
    let bundle = SongBundle {
        title: String::from("Shared title"),
        tone: String::from("G"),
        category: String::from("Imported"),
        letras: vec![String::from("new only")],
    };
    let count = store.import_songs(&vec![bundle]).unwrap();
    assert_eq!(count, 1);
    let songs = store.list_songs();
    assert_eq!(songs.len(), 1);
    assert_eq!(songs[0].id, id);
    // the matched song keeps its own descriptive fields
    assert_eq!(songs[0].tone, "");
    assert_eq!(songs[0].category, "Custom");
    let slides = store.get_slides(id);
    assert_eq!(slides.len(), 1);
    assert_eq!(slides[0].text, "new only");
    assert_eq!(slides[0].order, 1);
}

#[test]
fn import_new_title_creates_a_song() {
    let mut store = SongStore::new();
    store.create_song("Existing", "a").unwrap();
    let bundle = SongBundle {
        title: String::from("Brand new"),
        tone: String::from("D"),
        category: String::from("Imported"),
        letras: vec![String::from("one"), String::from("two")],
    };
    store.import_songs(&vec![bundle]).unwrap();
    let songs = store.list_songs();
    assert_eq!(songs.len(), 2);
    let new_song = songs.iter().find(|s| s.title == "Brand new").unwrap();
    assert_eq!(new_song.tone, "D");
    assert_eq!(new_song.category, "Imported");
    let slides = store.get_slides(new_song.id);
    assert_eq!(slides.len(), 2);
    assert_eq!(slides[0].text, "one");
    assert_eq!(slides[1].text, "two");
}

#[test]
fn import_keeps_slide_texts_as_given() {
    // import does not split or trim: each bundle line is one slide
    let mut store = SongStore::new();
    let bundle = SongBundle {
        title: String::from("Verbatim"),
        tone: String::new(),
        category: String::new(),
        letras: vec![String::from("  spaced  "), String::from("a\n\nb")],
    };
    store.import_songs(&vec![bundle]).unwrap();
    let songs = store.list_songs();
    let slides = store.get_slides(songs[0].id);
    assert_eq!(slides[0].text, "  spaced  ");
    assert_eq!(slides[1].text, "a\n\nb");
}

#[test]
fn export_import_round_trip() {
    let mut store = SongStore::new();
    store.create_song("Alpha", "one\n\ntwo").unwrap();
    store.create_song("Beta", "three").unwrap();
    let bundles = store.export_songs();
    let mut fresh = SongStore::new();
    let count = fresh.import_songs(&bundles).unwrap();
    assert_eq!(count, 2);
    let again = fresh.export_songs();
    assert_eq!(again.len(), bundles.len());
    for (a, b) in bundles.iter().zip(again.iter()) {
        assert_eq!(a.title, b.title);
        assert_eq!(a.tone, b.tone);
        assert_eq!(a.category, b.category);
        assert_eq!(a.letras, b.letras);
    }
}

#[test]
fn restore_preserves_ids_and_duplicate_titles() {
    let rows = vec![
        entry(3, "Same", vec![(10, 1, "one"), (11, 2, "two")]),
        entry(7, "Same", vec![(20, 1, "three")]),
    ];
    let mut store = SongStore::restore(&rows).unwrap();
    let songs = store.list_songs();
    // same-titled songs stay separate, under their stored identifiers
    assert_eq!(songs.len(), 2);
    let mut ids: Vec<i64> = songs.iter().map(|s| s.id).collect();
    ids.sort();
    assert_eq!(ids, vec![3, 7]);
    let slides = store.get_slides(3);
    assert_eq!(slides.len(), 2);
    assert_eq!(slides[0].id, 10);
    assert_eq!(slides[0].text, "one");
    assert_eq!(slides[1].text, "two");
    assert_eq!(store.get_slides(7)[0].id, 20);
    // fresh identifiers continue past the stored ones
    let new_id = store.create_song("New", "z").unwrap();
    assert_eq!(new_id, 8);
    assert_eq!(store.get_slides(new_id)[0].id, 21);
}

#[test]
fn restore_renumbers_slide_orders_densely() {
    let rows = vec![entry(1, "Gappy", vec![(5, 2, "a"), (6, 9, "b")])];
    let store = SongStore::restore(&rows).unwrap();
    let slides = store.get_slides(1);
    let orders: Vec<i64> = slides.iter().map(|s| s.order).collect();
    assert_eq!(orders, vec![1, 2]);
    let ids: Vec<i64> = slides.iter().map(|s| s.id).collect();
    assert_eq!(ids, vec![5, 6]);
}

#[test]
fn restore_rejects_invalid_rows() {
    // song identifiers out of order
    let rows = vec![entry(7, "B", vec![]), entry(3, "A", vec![])];
    assert!(matches!(
        SongStore::restore(&rows),
        Err(StoreError::InvalidRows)
    ));
    // duplicate song identifiers
    let rows = vec![entry(3, "A", vec![]), entry(3, "B", vec![])];
    assert!(matches!(
        SongStore::restore(&rows),
        Err(StoreError::InvalidRows)
    ));
    // song identifier out of range
    let rows = vec![entry(0, "Zero", vec![])];
    assert!(matches!(
        SongStore::restore(&rows),
        Err(StoreError::InvalidRows)
    ));
    // slide identifier out of range
    let rows = vec![entry(1, "BadSlide", vec![(0, 1, "x")])];
    assert!(matches!(
        SongStore::restore(&rows),
        Err(StoreError::InvalidRows)
    ));
}

#[test]
fn restore_of_empty_rows_matches_a_new_store() {
    let store = SongStore::restore(&Vec::new()).unwrap();
    assert!(store.list_songs().is_empty());
    let mut store = store;
    assert_eq!(store.create_song("First", "a").unwrap(), 1);
}

#[test]
fn store_error_messages() {
    assert_eq!(
        StoreError::IdsExhausted.message(),
        "identifier space exhausted"
    );
    assert_eq!(StoreError::InvalidRows.message(), "invalid stored rows");
}
