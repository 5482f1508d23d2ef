//! The multimedia store: catalogs of image, video and PDF records.
//!
//! Each record names a display title and a file path reference (not
//! validated for existence).  The three catalogs are independent; every
//! listing is newest-first by identifier.  Images carry an aspect-fit
//! mode defaulting to `"contain"`; videos carry a loop flag defaulting to
//! off.

use crate::StoreError;
use vstd::prelude::*;

verus! {

/// One image record.
pub struct ImageRecord {
    pub id: i64,
    pub name: String,
    pub path: String,
    pub aspect: String,
}

/// One video record.
pub struct VideoRecord {
    pub id: i64,
    pub name: String,
    pub path: String,
    pub looped: bool,
}

/// One PDF document record.
pub struct PdfRecord {
    pub id: i64,
    pub name: String,
    pub path: String,
}

/// Mathematical value of an [`ImageRecord`].
pub struct ImageModel {
    pub id: int,
    pub name: Seq<char>,
    pub path: Seq<char>,
    pub aspect: Seq<char>,
}

/// Mathematical value of a [`VideoRecord`].
pub struct VideoModel {
    pub id: int,
    pub name: Seq<char>,
    pub path: Seq<char>,
    pub looped: bool,
}

/// Mathematical value of a [`PdfRecord`].
pub struct PdfModel {
    pub id: int,
    pub name: Seq<char>,
    pub path: Seq<char>,
}

/// Mathematical value of the whole store.
pub struct MediaModel {
    pub images: Seq<ImageModel>,
    pub videos: Seq<VideoModel>,
    pub pdfs: Seq<PdfModel>,
    pub next_image_id: int,
    pub next_video_id: int,
    pub next_pdf_id: int,
}

impl View for ImageRecord {
    type V = ImageModel;

    open spec fn view(&self) -> ImageModel {
        ImageModel {
            id: self.id as int,
            name: self.name@,
            path: self.path@,
            aspect: self.aspect@,
        }
    }
}

impl DeepView for ImageRecord {
    type V = ImageModel;

    open spec fn deep_view(&self) -> ImageModel {
        self@
    }
}

impl View for VideoRecord {
    type V = VideoModel;

    open spec fn view(&self) -> VideoModel {
        VideoModel {
            id: self.id as int,
            name: self.name@,
            path: self.path@,
            looped: self.looped,
        }
    }
}

impl DeepView for VideoRecord {
    type V = VideoModel;

    open spec fn deep_view(&self) -> VideoModel {
        self@
    }
}

impl View for PdfRecord {
    type V = PdfModel;

    open spec fn view(&self) -> PdfModel {
        PdfModel { id: self.id as int, name: self.name@, path: self.path@ }
    }
}

impl DeepView for PdfRecord {
    type V = PdfModel;

    open spec fn deep_view(&self) -> PdfModel {
        self@
    }
}

/// The multimedia store.  One process-lifetime instance owns the three
/// catalogs.
pub struct MediaStore {
    images: Vec<ImageRecord>,
    videos: Vec<VideoRecord>,
    pdfs: Vec<PdfRecord>,
    next_image_id: i64,
    next_video_id: i64,
    next_pdf_id: i64,
}

impl View for MediaStore {
    type V = MediaModel;

    closed spec fn view(&self) -> MediaModel {
        MediaModel {
            images: self.images.deep_view(),
            videos: self.videos.deep_view(),
            pdfs: self.pdfs.deep_view(),
            next_image_id: self.next_image_id as int,
            next_video_id: self.next_video_id as int,
            next_pdf_id: self.next_pdf_id as int,
        }
    }
}

/// Well-formedness: counters in range and, in each catalog, identifiers
/// strictly increasing in insertion order and below the counter.
pub open spec fn media_inv(m: MediaModel) -> bool {
    &&& 1 <= m.next_image_id <= i64::MAX
    &&& 1 <= m.next_video_id <= i64::MAX
    &&& 1 <= m.next_pdf_id <= i64::MAX
    &&& forall|i: int| 0 <= i < m.images.len() ==> 1 <= (#[trigger] m.images[i]).id < m.next_image_id
    &&& forall|i: int, j: int| 0 <= i < j < m.images.len() ==> m.images[i].id < m.images[j].id
    &&& forall|i: int| 0 <= i < m.videos.len() ==> 1 <= (#[trigger] m.videos[i]).id < m.next_video_id
    &&& forall|i: int, j: int| 0 <= i < j < m.videos.len() ==> m.videos[i].id < m.videos[j].id
    &&& forall|i: int| 0 <= i < m.pdfs.len() ==> 1 <= (#[trigger] m.pdfs[i]).id < m.next_pdf_id
    &&& forall|i: int, j: int| 0 <= i < j < m.pdfs.len() ==> m.pdfs[i].id < m.pdfs[j].id
}

/// Whether the image catalog holds identifier `id`.
pub open spec fn has_image(images: Seq<ImageModel>, id: int) -> bool {
    exists|i: int| 0 <= i < images.len() && images[i].id == id
}

/// The index of image `id` (unique under [`media_inv`]).
pub open spec fn image_index(images: Seq<ImageModel>, id: int) -> int {
    choose|i: int| 0 <= i < images.len() && images[i].id == id
}

/// Whether the video catalog holds identifier `id`.
pub open spec fn has_video(videos: Seq<VideoModel>, id: int) -> bool {
    exists|i: int| 0 <= i < videos.len() && videos[i].id == id
}

/// The index of video `id` (unique under [`media_inv`]).
pub open spec fn video_index(videos: Seq<VideoModel>, id: int) -> int {
    choose|i: int| 0 <= i < videos.len() && videos[i].id == id
}

/// Whether the PDF catalog holds identifier `id`.
pub open spec fn has_pdf(pdfs: Seq<PdfModel>, id: int) -> bool {
    exists|i: int| 0 <= i < pdfs.len() && pdfs[i].id == id
}

/// The index of PDF `id` (unique under [`media_inv`]).
pub open spec fn pdf_index(pdfs: Seq<PdfModel>, id: int) -> int {
    choose|i: int| 0 <= i < pdfs.len() && pdfs[i].id == id
}

/// Whether one image catalog's stored rows are valid: identifiers in
/// range and strictly increasing (rows ordered by identifier).
pub open spec fn image_rows_ok(images: Seq<ImageModel>) -> bool {
    &&& forall|i: int| 0 <= i < images.len() ==> 1 <= (#[trigger] images[i]).id < i64::MAX
    &&& forall|i: int|
        0 <= i && i + 1 < images.len() ==> (#[trigger] images[i]).id < images[i + 1].id
}

/// Whether one video catalog's stored rows are valid.
pub open spec fn video_rows_ok(videos: Seq<VideoModel>) -> bool {
    &&& forall|i: int| 0 <= i < videos.len() ==> 1 <= (#[trigger] videos[i]).id < i64::MAX
    &&& forall|i: int|
        0 <= i && i + 1 < videos.len() ==> (#[trigger] videos[i]).id < videos[i + 1].id
}

/// Whether one PDF catalog's stored rows are valid.
pub open spec fn pdf_rows_ok(pdfs: Seq<PdfModel>) -> bool {
    &&& forall|i: int| 0 <= i < pdfs.len() ==> 1 <= (#[trigger] pdfs[i]).id < i64::MAX
    &&& forall|i: int| 0 <= i && i + 1 < pdfs.len() ==> (#[trigger] pdfs[i]).id < pdfs[i + 1].id
}

/// Whether stored rows can be taken back as a multimedia store.
pub open spec fn media_rows_ok(
    images: Seq<ImageModel>,
    videos: Seq<VideoModel>,
    pdfs: Seq<PdfModel>,
) -> bool {
    image_rows_ok(images) && video_rows_ok(videos) && pdf_rows_ok(pdfs)
}

/// Validates and copies one image catalog's stored rows.
fn check_images(rows: &Vec<ImageRecord>) -> (r: Option<Vec<ImageRecord>>)
    ensures
        r is Some <==> image_rows_ok(rows.deep_view()),
        r is Some ==> r->Some_0.deep_view() == rows.deep_view(),
{
    let n = rows.len();
    let mut out: Vec<ImageRecord> = Vec::new();
    let mut i: usize = 0;
    while i < n
        invariant
            n == rows@.len(),
            i <= n,
            out@.len() == i,
            out.deep_view() == rows.deep_view().take(i as int),
            forall|t: int| 0 <= t < i ==> 1 <= (#[trigger] rows.deep_view()[t]).id < i64::MAX,
            forall|t: int|
                0 <= t < i && t + 1 < n ==> (#[trigger] rows.deep_view()[t]).id
                    < rows.deep_view()[t + 1].id,
        decreases n - i,
    {
        let e = &rows[i];
        if !(e.id >= 1 && e.id < i64::MAX) {
            proof {
                assert(!(1 <= rows.deep_view()[i as int].id < i64::MAX));
            }
            return None;
        }
        if i + 1 < n && !(e.id < rows[i + 1].id) {
            proof {
                assert(!(rows.deep_view()[i as int].id < rows.deep_view()[i as int + 1].id));
            }
            return None;
        }
        let ghost prev = out.deep_view();
        out.push(
            ImageRecord {
                id: e.id,
                name: e.name.clone(),
                path: e.path.clone(),
                aspect: e.aspect.clone(),
            },
        );
        proof {
            assert forall|t: int| 0 <= t < i + 1 implies out.deep_view()[t]
                == rows.deep_view().take(i as int + 1)[t] by {
                if t < i as int {
                    assert(out.deep_view()[t] == prev[t]);
                } else {
                    assert(out.deep_view()[t] == out@[t]@);
                }
            }
            assert(out.deep_view() =~= rows.deep_view().take(i as int + 1));
        }
        i += 1;
    }
    proof {
        assert(rows.deep_view().take(n as int) =~= rows.deep_view());
    }
    Some(out)
}

/// Validates and copies one video catalog's stored rows.
fn check_videos(rows: &Vec<VideoRecord>) -> (r: Option<Vec<VideoRecord>>)
    ensures
        r is Some <==> video_rows_ok(rows.deep_view()),
        r is Some ==> r->Some_0.deep_view() == rows.deep_view(),
{
    let n = rows.len();
    let mut out: Vec<VideoRecord> = Vec::new();
    let mut i: usize = 0;
    while i < n
        invariant
            n == rows@.len(),
            i <= n,
            out@.len() == i,
            out.deep_view() == rows.deep_view().take(i as int),
            forall|t: int| 0 <= t < i ==> 1 <= (#[trigger] rows.deep_view()[t]).id < i64::MAX,
            forall|t: int|
                0 <= t < i && t + 1 < n ==> (#[trigger] rows.deep_view()[t]).id
                    < rows.deep_view()[t + 1].id,
        decreases n - i,
    {
        let e = &rows[i];
        if !(e.id >= 1 && e.id < i64::MAX) {
            proof {
                assert(!(1 <= rows.deep_view()[i as int].id < i64::MAX));
            }
            return None;
        }
        if i + 1 < n && !(e.id < rows[i + 1].id) {
            proof {
                assert(!(rows.deep_view()[i as int].id < rows.deep_view()[i as int + 1].id));
            }
            return None;
        }
        let ghost prev = out.deep_view();
        out.push(
            VideoRecord { id: e.id, name: e.name.clone(), path: e.path.clone(), looped: e.looped },
        );
        proof {
            assert forall|t: int| 0 <= t < i + 1 implies out.deep_view()[t]
                == rows.deep_view().take(i as int + 1)[t] by {
                if t < i as int {
                    assert(out.deep_view()[t] == prev[t]);
                } else {
                    assert(out.deep_view()[t] == out@[t]@);
                }
            }
            assert(out.deep_view() =~= rows.deep_view().take(i as int + 1));
        }
        i += 1;
    }
    proof {
        assert(rows.deep_view().take(n as int) =~= rows.deep_view());
    }
    Some(out)
}

/// Validates and copies one PDF catalog's stored rows.
fn check_pdfs(rows: &Vec<PdfRecord>) -> (r: Option<Vec<PdfRecord>>)
    ensures
        r is Some <==> pdf_rows_ok(rows.deep_view()),
        r is Some ==> r->Some_0.deep_view() == rows.deep_view(),
{
    let n = rows.len();
    let mut out: Vec<PdfRecord> = Vec::new();
    let mut i: usize = 0;
    while i < n
        invariant
            n == rows@.len(),
            i <= n,
            out@.len() == i,
            out.deep_view() == rows.deep_view().take(i as int),
            forall|t: int| 0 <= t < i ==> 1 <= (#[trigger] rows.deep_view()[t]).id < i64::MAX,
            forall|t: int|
                0 <= t < i && t + 1 < n ==> (#[trigger] rows.deep_view()[t]).id
                    < rows.deep_view()[t + 1].id,
        decreases n - i,
    {
        let e = &rows[i];
        if !(e.id >= 1 && e.id < i64::MAX) {
            proof {
                assert(!(1 <= rows.deep_view()[i as int].id < i64::MAX));
            }
            return None;
        }
        if i + 1 < n && !(e.id < rows[i + 1].id) {
            proof {
                assert(!(rows.deep_view()[i as int].id < rows.deep_view()[i as int + 1].id));
            }
            return None;
        }
        let ghost prev = out.deep_view();
        out.push(PdfRecord { id: e.id, name: e.name.clone(), path: e.path.clone() });
        proof {
            assert forall|t: int| 0 <= t < i + 1 implies out.deep_view()[t]
                == rows.deep_view().take(i as int + 1)[t] by {
                if t < i as int {
                    assert(out.deep_view()[t] == prev[t]);
                } else {
                    assert(out.deep_view()[t] == out@[t]@);
                }
            }
            assert(out.deep_view() =~= rows.deep_view().take(i as int + 1));
        }
        i += 1;
    }
    proof {
        assert(rows.deep_view().take(n as int) =~= rows.deep_view());
    }
    Some(out)
}

impl MediaStore {
    /// The store's internal invariant.
    pub open spec fn wf(&self) -> bool {
        media_inv(self@)
    }

    /// Rebuilds a store from stored rows, keeping every identifier.
    /// Each catalog's rows must come ordered by identifier, as a
    /// primary-key scan delivers them; rows whose identifiers are out of
    /// range or out of order are rejected as a whole.
    pub fn restore(
        images: &Vec<ImageRecord>,
        videos: &Vec<VideoRecord>,
        pdfs: &Vec<PdfRecord>,
    ) -> (r: Result<MediaStore, StoreError>)
        ensures
            r is Ok <==> media_rows_ok(images.deep_view(), videos.deep_view(), pdfs.deep_view()),
            r is Ok ==> ({
                let st = r->Ok_0;
                &&& st.wf()
                &&& st@.images == images.deep_view()
                &&& st@.videos == videos.deep_view()
                &&& st@.pdfs == pdfs.deep_view()
                &&& st@.next_image_id == (if images.deep_view().len() == 0 {
                    1int
                } else {
                    images.deep_view().last().id + 1
                })
                &&& st@.next_video_id == (if videos.deep_view().len() == 0 {
                    1int
                } else {
                    videos.deep_view().last().id + 1
                })
                &&& st@.next_pdf_id == (if pdfs.deep_view().len() == 0 {
                    1int
                } else {
                    pdfs.deep_view().last().id + 1
                })
            }),
            r is Err ==> r == Err::<MediaStore, StoreError>(StoreError::InvalidRows),
    {
        let imgs = match check_images(images) {
            Some(v) => v,
            None => {
                return Err(StoreError::InvalidRows);
            },
        };
        let vids = match check_videos(videos) {
            Some(v) => v,
            None => {
                return Err(StoreError::InvalidRows);
            },
        };
        let docs = match check_pdfs(pdfs) {
            Some(v) => v,
            None => {
                return Err(StoreError::InvalidRows);
            },
        };
        let next_image_id: i64 = if images.len() == 0 {
            1
        } else {
            proof {
                assert(1 <= images.deep_view()[images@.len() - 1].id < i64::MAX);
            }
            images[images.len() - 1].id + 1
        };
        let next_video_id: i64 = if videos.len() == 0 {
            1
        } else {
            proof {
                assert(1 <= videos.deep_view()[videos@.len() - 1].id < i64::MAX);
            }
            videos[videos.len() - 1].id + 1
        };
        let next_pdf_id: i64 = if pdfs.len() == 0 {
            1
        } else {
            proof {
                assert(1 <= pdfs.deep_view()[pdfs@.len() - 1].id < i64::MAX);
            }
            pdfs[pdfs.len() - 1].id + 1
        };
        let st = MediaStore {
            images: imgs,
            videos: vids,
            pdfs: docs,
            next_image_id,
            next_video_id,
            next_pdf_id,
        };
        proof {
            let di = images.deep_view();
            let dv = videos.deep_view();
            let dp = pdfs.deep_view();
            let image_ids = Seq::new(di.len(), |t: int| di[t].id);
            let video_ids = Seq::new(dv.len(), |t: int| dv[t].id);
            let pdf_ids = Seq::new(dp.len(), |t: int| dp[t].id);
            assert forall|t: int| 0 <= t && t + 1 < image_ids.len() implies (
            #[trigger] image_ids[t]) < image_ids[t + 1] by {
                assert(di[t].id < di[t + 1].id);
            }
            assert forall|t: int| 0 <= t && t + 1 < video_ids.len() implies (
            #[trigger] video_ids[t]) < video_ids[t + 1] by {
                assert(dv[t].id < dv[t + 1].id);
            }
            assert forall|t: int| 0 <= t && t + 1 < pdf_ids.len() implies (
            #[trigger] pdf_ids[t]) < pdf_ids[t + 1] by {
                assert(dp[t].id < dp[t + 1].id);
            }
            crate::lemma_increasing_pairwise(image_ids);
            crate::lemma_increasing_pairwise(video_ids);
            crate::lemma_increasing_pairwise(pdf_ids);
            assert forall|t: int| 0 <= t < di.len() implies 1 <= (#[trigger] di[t]).id
                < st@.next_image_id by {
                if t < di.len() - 1 {
                    assert(image_ids[t] < image_ids[di.len() - 1]);
                }
            }
            assert forall|t: int| 0 <= t < dv.len() implies 1 <= (#[trigger] dv[t]).id
                < st@.next_video_id by {
                if t < dv.len() - 1 {
                    assert(video_ids[t] < video_ids[dv.len() - 1]);
                }
            }
            assert forall|t: int| 0 <= t < dp.len() implies 1 <= (#[trigger] dp[t]).id
                < st@.next_pdf_id by {
                if t < dp.len() - 1 {
                    assert(pdf_ids[t] < pdf_ids[dp.len() - 1]);
                }
            }
            assert forall|t: int, u: int| 0 <= t < u < di.len() implies di[t].id < di[u].id by {
                assert(image_ids[t] < image_ids[u]);
            }
            assert forall|t: int, u: int| 0 <= t < u < dv.len() implies dv[t].id < dv[u].id by {
                assert(video_ids[t] < video_ids[u]);
            }
            assert forall|t: int, u: int| 0 <= t < u < dp.len() implies dp[t].id < dp[u].id by {
                assert(pdf_ids[t] < pdf_ids[u]);
            }
            assert(media_inv(st@));
        }
        Ok(st)
    }

    /// An empty store with fresh id counters.
    pub fn new() -> (r: MediaStore)
        ensures
            r.wf(),
            r@.images == Seq::<ImageModel>::empty(),
            r@.videos == Seq::<VideoModel>::empty(),
            r@.pdfs == Seq::<PdfModel>::empty(),
            r@.next_image_id == 1,
            r@.next_video_id == 1,
            r@.next_pdf_id == 1,
    {
        let store = MediaStore {
            images: Vec::new(),
            videos: Vec::new(),
            pdfs: Vec::new(),
            next_image_id: 1,
            next_video_id: 1,
            next_pdf_id: 1,
        };
        proof {
            assert(store.images.deep_view() =~= Seq::<ImageModel>::empty());
            assert(store.videos.deep_view() =~= Seq::<VideoModel>::empty());
            assert(store.pdfs.deep_view() =~= Seq::<PdfModel>::empty());
        }
        store
    }

    /// Adds an image record with the default aspect mode and returns its
    /// identifier.
    pub fn add_image(&mut self, name: &str, path: &str) -> (r: Result<i64, StoreError>)
        requires
            old(self).wf(),
        ensures
            final(self).wf(),
            r is Ok <==> old(self)@.next_image_id < i64::MAX,
            r is Ok ==> r->Ok_0 == old(self)@.next_image_id && final(self)@ == (MediaModel {
                images: old(self)@.images.push(
                    ImageModel {
                        id: old(self)@.next_image_id,
                        name: name@,
                        path: path@,
                        aspect: "contain"@,
                    },
                ),
                next_image_id: old(self)@.next_image_id + 1,
                ..old(self)@
            }),
            r is Err ==> *final(self) == *old(self) && r == Err::<i64, StoreError>(
                StoreError::IdsExhausted,
            ),
    {
        if !(self.next_image_id < i64::MAX) {
            return Err(StoreError::IdsExhausted);
        }
        let ghost m0 = self@;
        let id = self.next_image_id;
        self.images.push(
            ImageRecord {
                id,
                name: name.to_owned(),
                path: path.to_owned(),
                aspect: String::from_str("contain"),
            },
        );
        self.next_image_id = self.next_image_id + 1;
        proof {
            assert(self@.images =~~= m0.images.push(
                ImageModel { id: id as int, name: name@, path: path@, aspect: "contain"@ },
            )) by {
                assert forall|t: int| 0 <= t < self@.images.len() implies self@.images[t]
                    == m0.images.push(
                    ImageModel { id: id as int, name: name@, path: path@, aspect: "contain"@ },
                )[t] by {
                    assert(self@.images[t] == self.images@[t].deep_view());
                }
            }
            assert forall|i: int| 0 <= i < self@.images.len() implies 1 <= (
            #[trigger] self@.images[i]).id < self@.next_image_id by {
                if i < m0.images.len() {
                    assert(1 <= m0.images[i].id < m0.next_image_id);
                }
            }
            assert forall|i: int, j: int| 0 <= i < j < self@.images.len() implies self@.images[
                i
            ].id < self@.images[j].id by {
                if j < m0.images.len() {
                    assert(m0.images[i].id < m0.images[j].id);
                } else {
                    assert(1 <= m0.images[i].id < m0.next_image_id);
                }
            }
        }
        Ok(id)
    }

    /// All image records, newest first.
    pub fn list_images(&self) -> (r: Vec<ImageRecord>)
        requires
            self.wf(),
        ensures
            r.deep_view() == self@.images.reverse(),
    {
        let n = self.images.len();
        let mut r: Vec<ImageRecord> = Vec::new();
        let mut k: usize = 0;
        while k < n
            invariant
                n == self@.images.len(),
                k <= n,
                r@.len() == k,
                forall|t: int| 0 <= t < k ==> #[trigger] r.deep_view()[t] == self@.images[n - 1 - t],
            decreases n - k,
        {
            let ghost prev = r.deep_view();
            let e = &self.images[n - 1 - k];
            r.push(
                ImageRecord {
                    id: e.id,
                    name: e.name.clone(),
                    path: e.path.clone(),
                    aspect: e.aspect.clone(),
                },
            );
            proof {
                assert forall|t: int| 0 <= t < k + 1 implies #[trigger] r.deep_view()[t]
                    == self@.images[n - 1 - t] by {
                    if t < k as int {
                        assert(r.deep_view()[t] == prev[t]);
                    } else {
                        assert(r.deep_view()[t] == self.images@[n - 1 - t].deep_view());
                    }
                }
            }
            k += 1;
        }
        proof {
            assert(r.deep_view() =~= self@.images.reverse());
        }
        r
    }

    /// Sets the aspect-fit mode of image `id`.  A missing image leaves
    /// the store unchanged.
    pub fn set_image_aspect(&mut self, id: i64, aspect: &str)
        requires
            old(self).wf(),
        ensures
            final(self).wf(),
            has_image(old(self)@.images, id as int) ==> ({
                let i = image_index(old(self)@.images, id as int);
                let e = old(self)@.images[i];
                final(self)@ == (MediaModel {
                    images: old(self)@.images.update(
                        i,
                        ImageModel { id: e.id, name: e.name, path: e.path, aspect: aspect@ },
                    ),
                    ..old(self)@
                })
            }),
            !has_image(old(self)@.images, id as int) ==> *final(self) == *old(self),
    {
        let n = self.images.len();
        let mut k: usize = 0;
        while k < n
            invariant
                old(self).wf(),
                *self == *old(self),
                n == self@.images.len(),
                k <= n,
                forall|t: int| 0 <= t < k ==> (#[trigger] self@.images[t]).id != id as int,
            decreases n - k,
        {
            if self.images[k].id == id {
                let ghost m0 = self@;
                proof {
                    assert(has_image(m0.images, id as int)) by {
                        assert(0 <= (k as int) < m0.images.len() && m0.images[k as int].id
                            == id as int);
                    }
                    let j = image_index(m0.images, id as int);
                    assert(0 <= j < m0.images.len() && m0.images[j].id == id as int);
                    assert(j == k as int) by {
                        if j < k as int {
                            assert(m0.images[j].id < m0.images[k as int].id);
                        } else if j > k as int {
                            assert(m0.images[k as int].id < m0.images[j].id);
                        }
                    }
                }
                let e = self.images.remove(k);
                self.images.insert(
                    k,
                    ImageRecord {
                        id: e.id,
                        name: e.name,
                        path: e.path,
                        aspect: aspect.to_owned(),
                    },
                );
                proof {
                    let i = k as int;
                    let e0 = m0.images[i];
                    assert(self@.images =~~= m0.images.update(
                        i,
                        ImageModel { id: e0.id, name: e0.name, path: e0.path, aspect: aspect@ },
                    )) by {
                        assert forall|t: int| 0 <= t < self@.images.len() implies self@.images[t]
                            == m0.images.update(
                            i,
                            ImageModel { id: e0.id, name: e0.name, path: e0.path, aspect: aspect@ },
                        )[t] by {
                            assert(self@.images[t] == self.images@[t].deep_view());
                        }
                    }
                    assert forall|t: int| 0 <= t < self@.images.len() implies 1 <= (
                    #[trigger] self@.images[t]).id < self@.next_image_id by {
                        assert(1 <= m0.images[t].id < m0.next_image_id);
                    }
                    assert forall|t: int, u: int|
                        0 <= t < u < self@.images.len() implies self@.images[t].id < self@.images[
                        u
                    ].id by {
                        assert(m0.images[t].id < m0.images[u].id);
                    }
                }
                return ;
            }
            k += 1;
        }
        proof {
            assert(!has_image(self@.images, id as int));
        }
    }

    /// Removes image `id`.  A missing image leaves the store unchanged.
    pub fn delete_image(&mut self, id: i64)
        requires
            old(self).wf(),
        ensures
            final(self).wf(),
            has_image(old(self)@.images, id as int) ==> final(self)@ == (MediaModel {
                images: old(self)@.images.remove(image_index(old(self)@.images, id as int)),
                ..old(self)@
            }),
            !has_image(old(self)@.images, id as int) ==> *final(self) == *old(self),
    {
        let n = self.images.len();
        let mut k: usize = 0;
        while k < n
            invariant
                old(self).wf(),
                *self == *old(self),
                n == self@.images.len(),
                k <= n,
                forall|t: int| 0 <= t < k ==> (#[trigger] self@.images[t]).id != id as int,
            decreases n - k,
        {
            if self.images[k].id == id {
                let ghost m0 = self@;
                proof {
                    assert(has_image(m0.images, id as int)) by {
                        assert(0 <= (k as int) < m0.images.len() && m0.images[k as int].id
                            == id as int);
                    }
                    let j = image_index(m0.images, id as int);
                    assert(0 <= j < m0.images.len() && m0.images[j].id == id as int);
                    assert(j == k as int) by {
                        if j < k as int {
                            assert(m0.images[j].id < m0.images[k as int].id);
                        } else if j > k as int {
                            assert(m0.images[k as int].id < m0.images[j].id);
                        }
                    }
                }
                let _removed = self.images.remove(k);
                proof {
                    let i = k as int;
                    assert(self@.images =~~= m0.images.remove(i)) by {
                        assert forall|t: int| 0 <= t < self@.images.len() implies self@.images[t]
                            == m0.images.remove(i)[t] by {
                            assert(self@.images[t] == self.images@[t].deep_view());
                        }
                    }
                    assert forall|t: int| 0 <= t < self@.images.len() implies 1 <= (
                    #[trigger] self@.images[t]).id < self@.next_image_id by {
                        if t < i {
                            assert(1 <= m0.images[t].id < m0.next_image_id);
                        } else {
                            assert(1 <= m0.images[t + 1].id < m0.next_image_id);
                        }
                    }
                    assert forall|t: int, u: int|
                        0 <= t < u < self@.images.len() implies self@.images[t].id < self@.images[
                        u
                    ].id by {
                        let t0 = if t < i {
                            t
                        } else {
                            t + 1
                        };
                        let u0 = if u < i {
                            u
                        } else {
                            u + 1
                        };
                        assert(m0.images[t0].id < m0.images[u0].id);
                    }
                }
                return ;
            }
            k += 1;
        }
        proof {
            assert(!has_image(self@.images, id as int));
        }
    }
    /// Adds a video record with the loop flag off and returns its
    /// identifier.
    pub fn add_video(&mut self, name: &str, path: &str) -> (r: Result<i64, StoreError>)
        requires
            old(self).wf(),
        ensures
            final(self).wf(),
            r is Ok <==> old(self)@.next_video_id < i64::MAX,
            r is Ok ==> r->Ok_0 == old(self)@.next_video_id && final(self)@ == (MediaModel {
                videos: old(self)@.videos.push(
                    VideoModel {
                        id: old(self)@.next_video_id,
                        name: name@,
                        path: path@,
                        looped: false,
                    },
                ),
                next_video_id: old(self)@.next_video_id + 1,
                ..old(self)@
            }),
            r is Err ==> *final(self) == *old(self) && r == Err::<i64, StoreError>(
                StoreError::IdsExhausted,
            ),
    {
        if !(self.next_video_id < i64::MAX) {
            return Err(StoreError::IdsExhausted);
        }
        let ghost m0 = self@;
        let id = self.next_video_id;
        self.videos.push(
            VideoRecord { id, name: name.to_owned(), path: path.to_owned(), looped: false },
        );
        self.next_video_id = self.next_video_id + 1;
        proof {
            assert(self@.videos =~~= m0.videos.push(
                VideoModel { id: id as int, name: name@, path: path@, looped: false },
            )) by {
                assert forall|t: int| 0 <= t < self@.videos.len() implies self@.videos[t]
                    == m0.videos.push(
                    VideoModel { id: id as int, name: name@, path: path@, looped: false },
                )[t] by {
                    assert(self@.videos[t] == self.videos@[t].deep_view());
                }
            }
            assert forall|i: int| 0 <= i < self@.videos.len() implies 1 <= (
            #[trigger] self@.videos[i]).id < self@.next_video_id by {
                if i < m0.videos.len() {
                    assert(1 <= m0.videos[i].id < m0.next_video_id);
                }
            }
            assert forall|i: int, j: int| 0 <= i < j < self@.videos.len() implies self@.videos[
                i
            ].id < self@.videos[j].id by {
                if j < m0.videos.len() {
                    assert(m0.videos[i].id < m0.videos[j].id);
                } else {
                    assert(1 <= m0.videos[i].id < m0.next_video_id);
                }
            }
        }
        Ok(id)
    }

    /// All video records, newest first.
    pub fn list_videos(&self) -> (r: Vec<VideoRecord>)
        requires
            self.wf(),
        ensures
            r.deep_view() == self@.videos.reverse(),
    {
        let n = self.videos.len();
        let mut r: Vec<VideoRecord> = Vec::new();
        let mut k: usize = 0;
        while k < n
            invariant
                n == self@.videos.len(),
                k <= n,
                r@.len() == k,
                forall|t: int| 0 <= t < k ==> #[trigger] r.deep_view()[t] == self@.videos[n - 1 - t],
            decreases n - k,
        {
            let ghost prev = r.deep_view();
            let e = &self.videos[n - 1 - k];
            r.push(
                VideoRecord {
                    id: e.id,
                    name: e.name.clone(),
                    path: e.path.clone(),
                    looped: e.looped,
                },
            );
            proof {
                assert forall|t: int| 0 <= t < k + 1 implies #[trigger] r.deep_view()[t]
                    == self@.videos[n - 1 - t] by {
                    if t < k as int {
                        assert(r.deep_view()[t] == prev[t]);
                    } else {
                        assert(r.deep_view()[t] == self.videos@[n - 1 - t].deep_view());
                    }
                }
            }
            k += 1;
        }
        proof {
            assert(r.deep_view() =~= self@.videos.reverse());
        }
        r
    }

    /// Sets the loop flag of video `id`.  A missing video leaves the
    /// store unchanged.
    pub fn set_video_loop(&mut self, id: i64, looped: bool)
        requires
            old(self).wf(),
        ensures
            final(self).wf(),
            has_video(old(self)@.videos, id as int) ==> ({
                let i = video_index(old(self)@.videos, id as int);
                let e = old(self)@.videos[i];
                final(self)@ == (MediaModel {
                    videos: old(self)@.videos.update(
                        i,
                        VideoModel { id: e.id, name: e.name, path: e.path, looped },
                    ),
                    ..old(self)@
                })
            }),
            !has_video(old(self)@.videos, id as int) ==> *final(self) == *old(self),
    {
        let n = self.videos.len();
        let mut k: usize = 0;
        while k < n
            invariant
                old(self).wf(),
                *self == *old(self),
                n == self@.videos.len(),
                k <= n,
                forall|t: int| 0 <= t < k ==> (#[trigger] self@.videos[t]).id != id as int,
            decreases n - k,
        {
            if self.videos[k].id == id {
                let ghost m0 = self@;
                proof {
                    assert(has_video(m0.videos, id as int)) by {
                        assert(0 <= (k as int) < m0.videos.len() && m0.videos[k as int].id
                            == id as int);
                    }
                    let j = video_index(m0.videos, id as int);
                    assert(0 <= j < m0.videos.len() && m0.videos[j].id == id as int);
                    assert(j == k as int) by {
                        if j < k as int {
                            assert(m0.videos[j].id < m0.videos[k as int].id);
                        } else if j > k as int {
                            assert(m0.videos[k as int].id < m0.videos[j].id);
                        }
                    }
                }
                let e = self.videos.remove(k);
                self.videos.insert(
                    k,
                    VideoRecord { id: e.id, name: e.name, path: e.path, looped },
                );
                proof {
                    let i = k as int;
                    let e0 = m0.videos[i];
                    assert(self@.videos =~~= m0.videos.update(
                        i,
                        VideoModel { id: e0.id, name: e0.name, path: e0.path, looped },
                    )) by {
                        assert forall|t: int| 0 <= t < self@.videos.len() implies self@.videos[t]
                            == m0.videos.update(
                            i,
                            VideoModel { id: e0.id, name: e0.name, path: e0.path, looped },
                        )[t] by {
                            assert(self@.videos[t] == self.videos@[t].deep_view());
                        }
                    }
                    assert forall|t: int| 0 <= t < self@.videos.len() implies 1 <= (
                    #[trigger] self@.videos[t]).id < self@.next_video_id by {
                        assert(1 <= m0.videos[t].id < m0.next_video_id);
                    }
                    assert forall|t: int, u: int|
                        0 <= t < u < self@.videos.len() implies self@.videos[t].id < self@.videos[
                        u
                    ].id by {
                        assert(m0.videos[t].id < m0.videos[u].id);
                    }
                }
                return ;
            }
            k += 1;
        }
        proof {
            assert(!has_video(self@.videos, id as int));
        }
    }

    /// Removes video `id`.  A missing video leaves the store unchanged.
    pub fn delete_video(&mut self, id: i64)
        requires
            old(self).wf(),
        ensures
            final(self).wf(),
            has_video(old(self)@.videos, id as int) ==> final(self)@ == (MediaModel {
                videos: old(self)@.videos.remove(video_index(old(self)@.videos, id as int)),
                ..old(self)@
            }),
            !has_video(old(self)@.videos, id as int) ==> *final(self) == *old(self),
    {
        let n = self.videos.len();
        let mut k: usize = 0;
        while k < n
            invariant
                old(self).wf(),
                *self == *old(self),
                n == self@.videos.len(),
                k <= n,
                forall|t: int| 0 <= t < k ==> (#[trigger] self@.videos[t]).id != id as int,
            decreases n - k,
        {
            if self.videos[k].id == id {
                let ghost m0 = self@;
                proof {
                    assert(has_video(m0.videos, id as int)) by {
                        assert(0 <= (k as int) < m0.videos.len() && m0.videos[k as int].id
                            == id as int);
                    }
                    let j = video_index(m0.videos, id as int);
                    assert(0 <= j < m0.videos.len() && m0.videos[j].id == id as int);
                    assert(j == k as int) by {
                        if j < k as int {
                            assert(m0.videos[j].id < m0.videos[k as int].id);
                        } else if j > k as int {
                            assert(m0.videos[k as int].id < m0.videos[j].id);
                        }
                    }
                }
                let _removed = self.videos.remove(k);
                proof {
                    let i = k as int;
                    assert(self@.videos =~~= m0.videos.remove(i)) by {
                        assert forall|t: int| 0 <= t < self@.videos.len() implies self@.videos[t]
                            == m0.videos.remove(i)[t] by {
                            assert(self@.videos[t] == self.videos@[t].deep_view());
                        }
                    }
                    assert forall|t: int| 0 <= t < self@.videos.len() implies 1 <= (
                    #[trigger] self@.videos[t]).id < self@.next_video_id by {
                        if t < i {
                            assert(1 <= m0.videos[t].id < m0.next_video_id);
                        } else {
                            assert(1 <= m0.videos[t + 1].id < m0.next_video_id);
                        }
                    }
                    assert forall|t: int, u: int|
                        0 <= t < u < self@.videos.len() implies self@.videos[t].id < self@.videos[
                        u
                    ].id by {
                        let t0 = if t < i {
                            t
                        } else {
                            t + 1
                        };
                        let u0 = if u < i {
                            u
                        } else {
                            u + 1
                        };
                        assert(m0.videos[t0].id < m0.videos[u0].id);
                    }
                }
                return ;
            }
            k += 1;
        }
        proof {
            assert(!has_video(self@.videos, id as int));
        }
    }

    /// Adds a PDF document record and returns its identifier.
    pub fn add_pdf(&mut self, name: &str, path: &str) -> (r: Result<i64, StoreError>)
        requires
            old(self).wf(),
        ensures
            final(self).wf(),
            r is Ok <==> old(self)@.next_pdf_id < i64::MAX,
            r is Ok ==> r->Ok_0 == old(self)@.next_pdf_id && final(self)@ == (MediaModel {
                pdfs: old(self)@.pdfs.push(
                    PdfModel { id: old(self)@.next_pdf_id, name: name@, path: path@ },
                ),
                next_pdf_id: old(self)@.next_pdf_id + 1,
                ..old(self)@
            }),
            r is Err ==> *final(self) == *old(self) && r == Err::<i64, StoreError>(
                StoreError::IdsExhausted,
            ),
    {
        if !(self.next_pdf_id < i64::MAX) {
            return Err(StoreError::IdsExhausted);
        }
        let ghost m0 = self@;
        let id = self.next_pdf_id;
        self.pdfs.push(PdfRecord { id, name: name.to_owned(), path: path.to_owned() });
        self.next_pdf_id = self.next_pdf_id + 1;
        proof {
            assert(self@.pdfs =~~= m0.pdfs.push(
                PdfModel { id: id as int, name: name@, path: path@ },
            )) by {
                assert forall|t: int| 0 <= t < self@.pdfs.len() implies self@.pdfs[t]
                    == m0.pdfs.push(PdfModel { id: id as int, name: name@, path: path@ })[t] by {
                    assert(self@.pdfs[t] == self.pdfs@[t].deep_view());
                }
            }
            assert forall|i: int| 0 <= i < self@.pdfs.len() implies 1 <= (
            #[trigger] self@.pdfs[i]).id < self@.next_pdf_id by {
                if i < m0.pdfs.len() {
                    assert(1 <= m0.pdfs[i].id < m0.next_pdf_id);
                }
            }
            assert forall|i: int, j: int| 0 <= i < j < self@.pdfs.len() implies self@.pdfs[i].id
                < self@.pdfs[j].id by {
                if j < m0.pdfs.len() {
                    assert(m0.pdfs[i].id < m0.pdfs[j].id);
                } else {
                    assert(1 <= m0.pdfs[i].id < m0.next_pdf_id);
                }
            }
        }
        Ok(id)
    }

    /// All PDF document records, newest first.
    pub fn list_pdfs(&self) -> (r: Vec<PdfRecord>)
        requires
            self.wf(),
        ensures
            r.deep_view() == self@.pdfs.reverse(),
    {
        let n = self.pdfs.len();
        let mut r: Vec<PdfRecord> = Vec::new();
        let mut k: usize = 0;
        while k < n
            invariant
                n == self@.pdfs.len(),
                k <= n,
                r@.len() == k,
                forall|t: int| 0 <= t < k ==> #[trigger] r.deep_view()[t] == self@.pdfs[n - 1 - t],
            decreases n - k,
        {
            let ghost prev = r.deep_view();
            let e = &self.pdfs[n - 1 - k];
            r.push(PdfRecord { id: e.id, name: e.name.clone(), path: e.path.clone() });
            proof {
                assert forall|t: int| 0 <= t < k + 1 implies #[trigger] r.deep_view()[t]
                    == self@.pdfs[n - 1 - t] by {
                    if t < k as int {
                        assert(r.deep_view()[t] == prev[t]);
                    } else {
                        assert(r.deep_view()[t] == self.pdfs@[n - 1 - t].deep_view());
                    }
                }
            }
            k += 1;
        }
        proof {
            assert(r.deep_view() =~= self@.pdfs.reverse());
        }
        r
    }

    /// Removes PDF `id`.  A missing record leaves the store unchanged.
    pub fn delete_pdf(&mut self, id: i64)
        requires
            old(self).wf(),
        ensures
            final(self).wf(),
            has_pdf(old(self)@.pdfs, id as int) ==> final(self)@ == (MediaModel {
                pdfs: old(self)@.pdfs.remove(pdf_index(old(self)@.pdfs, id as int)),
                ..old(self)@
            }),
            !has_pdf(old(self)@.pdfs, id as int) ==> *final(self) == *old(self),
    {
        let n = self.pdfs.len();
        let mut k: usize = 0;
        while k < n
            invariant
                old(self).wf(),
                *self == *old(self),
                n == self@.pdfs.len(),
                k <= n,
                forall|t: int| 0 <= t < k ==> (#[trigger] self@.pdfs[t]).id != id as int,
            decreases n - k,
        {
            if self.pdfs[k].id == id {
                let ghost m0 = self@;
                proof {
                    assert(has_pdf(m0.pdfs, id as int)) by {
                        assert(0 <= (k as int) < m0.pdfs.len() && m0.pdfs[k as int].id
                            == id as int);
                    }
                    let j = pdf_index(m0.pdfs, id as int);
                    assert(0 <= j < m0.pdfs.len() && m0.pdfs[j].id == id as int);
                    assert(j == k as int) by {
                        if j < k as int {
                            assert(m0.pdfs[j].id < m0.pdfs[k as int].id);
                        } else if j > k as int {
                            assert(m0.pdfs[k as int].id < m0.pdfs[j].id);
                        }
                    }
                }
                let _removed = self.pdfs.remove(k);
                proof {
                    let i = k as int;
                    assert(self@.pdfs =~~= m0.pdfs.remove(i)) by {
                        assert forall|t: int| 0 <= t < self@.pdfs.len() implies self@.pdfs[t]
                            == m0.pdfs.remove(i)[t] by {
                            assert(self@.pdfs[t] == self.pdfs@[t].deep_view());
                        }
                    }
                    assert forall|t: int| 0 <= t < self@.pdfs.len() implies 1 <= (
                    #[trigger] self@.pdfs[t]).id < self@.next_pdf_id by {
                        if t < i {
                            assert(1 <= m0.pdfs[t].id < m0.next_pdf_id);
                        } else {
                            assert(1 <= m0.pdfs[t + 1].id < m0.next_pdf_id);
                        }
                    }
                    assert forall|t: int, u: int|
                        0 <= t < u < self@.pdfs.len() implies self@.pdfs[t].id < self@.pdfs[
                        u
                    ].id by {
                        let t0 = if t < i {
                            t
                        } else {
                            t + 1
                        };
                        let u0 = if u < i {
                            u
                        } else {
                            u + 1
                        };
                        assert(m0.pdfs[t0].id < m0.pdfs[u0].id);
                    }
                }
                return ;
            }
            k += 1;
        }
        proof {
            assert(!has_pdf(self@.pdfs, id as int));
        }
    }
}

} // verus!
