use easypresenter::media::{ImageRecord, MediaStore, PdfRecord, VideoRecord};
use easypresenter::StoreError;

fn image(id: i64, aspect: &str) -> ImageRecord {
    ImageRecord {
        id,
        name: format!("image {id}"),
        path: format!("/images/{id}.png"),
        aspect: String::from(aspect),
    }
}

fn video(id: i64, looped: bool) -> VideoRecord {
    VideoRecord {
        id,
        name: format!("video {id}"),
        path: format!("/videos/{id}.mp4"),
        looped,
    }
}

fn pdf(id: i64) -> PdfRecord {
    PdfRecord {
        id,
        name: format!("pdf {id}"),
        path: format!("/docs/{id}.pdf"),
    }
}

#[test]
fn add_image_defaults_to_contain() {
    let mut store = MediaStore::new();
    let id = store.add_image("sunset", "/pictures/sunset.jpg").unwrap();
    let images = store.list_images();
    assert_eq!(images.len(), 1);
    assert_eq!(images[0].id, id);
    assert_eq!(images[0].name, "sunset");
    assert_eq!(images[0].path, "/pictures/sunset.jpg");
    assert_eq!(images[0].aspect, "contain");
}

#[test]
fn list_images_newest_first() {
    let mut store = MediaStore::new();
    let a = store.add_image("a", "/a.png").unwrap();
    let b = store.add_image("b", "/b.png").unwrap();
    let c = store.add_image("c", "/c.png").unwrap();
    let ids: Vec<i64> = store.list_images().iter().map(|r| r.id).collect();
    assert_eq!(ids, vec![c, b, a]);
}

#[test]
fn set_image_aspect_updates_one_record() {
    let mut store = MediaStore::new();
    let a = store.add_image("a", "/a.png").unwrap();
    let b = store.add_image("b", "/b.png").unwrap();
    store.set_image_aspect(a, "cover");
    let images = store.list_images();
    let rec_a = images.iter().find(|r| r.id == a).unwrap();
    let rec_b = images.iter().find(|r| r.id == b).unwrap();
    assert_eq!(rec_a.aspect, "cover");
    assert_eq!(rec_b.aspect, "contain");
}

#[test]
fn set_image_aspect_missing_id_is_a_no_op() {
    let mut store = MediaStore::new();
    let a = store.add_image("a", "/a.png").unwrap();
    store.set_image_aspect(a + 5, "cover");
    assert_eq!(store.list_images()[0].aspect, "contain");
}

#[test]
fn delete_image_removes_only_that_record() {
    let mut store = MediaStore::new();
    let a = store.add_image("a", "/a.png").unwrap();
    let b = store.add_image("b", "/b.png").unwrap();
    store.delete_image(a);
    let ids: Vec<i64> = store.list_images().iter().map(|r| r.id).collect();
    assert_eq!(ids, vec![b]);
    store.delete_image(a); // already gone: no-op
    assert_eq!(store.list_images().len(), 1);
}

#[test]
fn add_video_defaults_to_no_loop() {
    let mut store = MediaStore::new();
    let id = store.add_video("intro", "/videos/intro.mp4").unwrap();
    let videos = store.list_videos();
    assert_eq!(videos.len(), 1);
    assert_eq!(videos[0].id, id);
    assert_eq!(videos[0].name, "intro");
    assert!(!videos[0].looped);
}

#[test]
fn set_video_loop_toggles_the_flag() {
    let mut store = MediaStore::new();
    let a = store.add_video("a", "/a.mp4").unwrap();
    let b = store.add_video("b", "/b.mp4").unwrap();
    store.set_video_loop(a, true);
    let videos = store.list_videos();
    assert!(videos.iter().find(|r| r.id == a).unwrap().looped);
    assert!(!videos.iter().find(|r| r.id == b).unwrap().looped);
    store.set_video_loop(a, false);
    assert!(!store.list_videos().iter().find(|r| r.id == a).unwrap().looped);
}

#[test]
fn list_videos_newest_first_and_delete() {
    let mut store = MediaStore::new();
    let a = store.add_video("a", "/a.mp4").unwrap();
    let b = store.add_video("b", "/b.mp4").unwrap();
    let ids: Vec<i64> = store.list_videos().iter().map(|r| r.id).collect();
    assert_eq!(ids, vec![b, a]);
    store.delete_video(b);
    let ids: Vec<i64> = store.list_videos().iter().map(|r| r.id).collect();
    assert_eq!(ids, vec![a]);
}

#[test]
fn pdf_catalog_add_list_delete() {
    let mut store = MediaStore::new();
    let a = store.add_pdf("notes", "/docs/notes.pdf").unwrap();
    let b = store.add_pdf("liturgy", "/docs/liturgy.pdf").unwrap();
    let pdfs = store.list_pdfs();
    let ids: Vec<i64> = pdfs.iter().map(|r| r.id).collect();
    assert_eq!(ids, vec![b, a]);
    assert_eq!(pdfs[1].name, "notes");
    assert_eq!(pdfs[1].path, "/docs/notes.pdf");
    store.delete_pdf(a);
    let ids: Vec<i64> = store.list_pdfs().iter().map(|r| r.id).collect();
    assert_eq!(ids, vec![b]);
    store.delete_pdf(a); // already gone: no-op
    assert_eq!(store.list_pdfs().len(), 1);
}

#[test]
fn restore_preserves_catalog_ids_and_states() {
    let images = vec![image(2, "cover"), image(9, "contain")];
    let videos = vec![video(4, true)];
    let pdfs = Vec::new();
    let mut store = MediaStore::restore(&images, &videos, &pdfs).unwrap();
    let ids: Vec<i64> = store.list_images().iter().map(|r| r.id).collect();
    assert_eq!(ids, vec![9, 2]);
    assert_eq!(store.list_images()[1].aspect, "cover");
    assert!(store.list_videos()[0].looped);
    assert!(store.list_pdfs().is_empty());
    // fresh identifiers continue past the stored ones in each catalog
    assert_eq!(store.add_image("n", "/p").unwrap(), 10);
    assert_eq!(store.add_video("n", "/p").unwrap(), 5);
    assert_eq!(store.add_pdf("n", "/p").unwrap(), 1);
}

#[test]
fn restore_rejects_unordered_catalog_ids() {
    // duplicate identifiers
    let images = vec![image(5, "contain"), image(5, "contain")];
    assert!(matches!(
        MediaStore::restore(&images, &Vec::new(), &Vec::new()),
        Err(StoreError::InvalidRows)
    ));
    // out of order
    let videos = vec![video(8, false), video(2, false)];
    assert!(matches!(
        MediaStore::restore(&Vec::new(), &videos, &Vec::new()),
        Err(StoreError::InvalidRows)
    ));
    // out of range
    let pdfs = vec![pdf(0)];
    assert!(matches!(
        MediaStore::restore(&Vec::new(), &Vec::new(), &pdfs),
        Err(StoreError::InvalidRows)
    ));
}

#[test]
fn catalogs_are_independent() {
    let mut store = MediaStore::new();
    let img = store.add_image("i", "/i.png").unwrap();
    let vid = store.add_video("v", "/v.mp4").unwrap();
    let pdf = store.add_pdf("p", "/p.pdf").unwrap();
    // each catalog numbers on its own
    assert_eq!((img, vid, pdf), (1, 1, 1));
    store.delete_video(vid);
    assert_eq!(store.list_images().len(), 1);
    assert_eq!(store.list_videos().len(), 0);
    assert_eq!(store.list_pdfs().len(), 1);
}
