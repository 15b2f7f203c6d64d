//! The library: every photo, face, person and decision, as one value.
//!
//! The rows live in ascending order of their ids. The program around the library
//! keeps them on disk; everything that is decided about them is decided here.

use vstd::prelude::*;

use crate::exif_meta::Position;
use crate::rows::{select, views};
use crate::text::opt_text;

verus! {

/// Thumbnail status: local file, queued for thumbnailing.
pub const STATUS_PENDING: i64 = 0;

/// Thumbnail status: thumbnail cached on disk.
pub const STATUS_READY: i64 = 1;

/// Thumbnail status: local file we couldn't decode.
pub const STATUS_FAILED: i64 = 2;

/// Thumbnail status: cloud-only original, not downloaded.
pub const STATUS_CLOUD: i64 = 3;

/// Thumbnail status: a cloud-only original that is being fetched now.
pub const STATUS_DOWNLOADING: i64 = 4;

/// `faces_scanned` while a worker is at it: between 0 (not scanned) and 1 (scanned).
pub const FACES_CLAIMED: i64 = 2;

/// What changes about a photo.
#[derive(Clone, Copy, PartialEq, Eq, Structural, Debug)]
pub struct PhotoMarks {
    pub status: i64,
    pub taken_ts: Option<i64>,
    pub seen: i64,
    pub faces_scanned: i64,
    pub favorite: bool,
    pub hidden: bool,
    /// Where the photo was taken.
    pub gps: Option<Position>,
    /// The position was looked for.
    pub geo_scanned: bool,
}

/// A photo of the library.
pub struct Photo {
    pub id: i64,
    pub path: String,
    pub mtime: i64,
    pub size: i64,
    pub cache_key: String,
    /// The digest of the original's bytes: empty for a file that cannot be read, none
    /// while it was not computed.
    pub content_hash: Option<String>,
    pub marks: PhotoMarks,
}

/// A photo, mathematically.
pub struct PhotoView {
    pub id: i64,
    pub path: Seq<char>,
    pub mtime: i64,
    pub size: i64,
    pub cache_key: Seq<char>,
    pub content_hash: Option<Seq<char>>,
    pub marks: PhotoMarks,
}

impl View for Photo {
    type V = PhotoView;

    open spec fn view(&self) -> PhotoView {
        PhotoView {
            id: self.id,
            path: self.path@,
            mtime: self.mtime,
            size: self.size,
            cache_key: self.cache_key@,
            content_hash: opt_text(self.content_hash),
            marks: self.marks,
        }
    }
}

impl PhotoView {
    /// The moment a photo sorts by: its capture date, else its file's modified-time.
    pub open spec fn ts(&self) -> i64 {
        match self.marks.taken_ts {
            Some(ts) => ts,
            None => self.mtime,
        }
    }
}

/// A box in a photo, in millionths of its width and height.
#[derive(Clone, Copy, PartialEq, Eq, Structural, Debug)]
pub struct FaceBox {
    pub x1: i32,
    pub y1: i32,
    pub x2: i32,
    pub y2: i32,
}

/// What is decided about a face.
#[derive(Clone, Copy, PartialEq, Eq, Structural, Debug)]
pub struct FaceMarks {
    /// The appearance cluster; none for a face that was taken out of People.
    pub cluster_id: Option<i64>,
    /// The person.
    pub identity_id: Option<i64>,
    /// Excluded from People for good.
    pub ignored: bool,
    /// The user vouched for the person.
    pub confirmed: bool,
}

/// A detected face.
pub struct Face {
    pub id: i64,
    pub photo_id: i64,
    pub bbox: FaceBox,
    pub score: i64,
    pub embedding: Vec<i32>,
    pub marks: FaceMarks,
}

/// A detected face, mathematically.
pub struct FaceView {
    pub id: i64,
    pub photo_id: i64,
    pub bbox: FaceBox,
    pub score: i64,
    pub embedding: Seq<i32>,
    pub marks: FaceMarks,
}

impl View for Face {
    type V = FaceView;

    open spec fn view(&self) -> FaceView {
        FaceView {
            id: self.id,
            photo_id: self.photo_id,
            bbox: self.bbox,
            score: self.score,
            embedding: self.embedding@,
            marks: self.marks,
        }
    }
}

/// The stable key of an identity's group: its id, negated, and so below zero. (What is
/// no identity's id goes to the smallest key.)
pub open spec fn identity_key(identity: i64) -> i64 {
    if identity >= 1 {
        (-identity) as i64
    } else {
        i64::MIN
    }
}

impl FaceMarks {
    /// The group a face is shown under: its person if it has one, else its appearance
    /// cluster.
    pub open spec fn group(&self) -> Option<i64> {
        match self.identity_id {
            Some(identity) => Some(identity_key(identity)),
            None => self.cluster_id,
        }
    }

    /// The person the user vouched for.
    pub open spec fn confirmed_identity(&self) -> Option<i64> {
        if self.confirmed {
            self.identity_id
        } else {
            None
        }
    }

    /// The group a face is shown under.
    pub fn display_group(&self) -> (g: Option<i64>)
        ensures
            g == self.group(),
    {
        match self.identity_id {
            Some(identity) => Some(key_of(identity)),
            None => self.cluster_id,
        }
    }
}

/// The stable key of an identity's group.
pub fn key_of(identity: i64) -> (key: i64)
    ensures
        key == identity_key(identity),
{
    if identity >= 1 {
        -identity
    } else {
        i64::MIN
    }
}

/// A durable person record.
pub struct Identity {
    pub id: i64,
    pub name: Option<String>,
}

/// A durable person record, mathematically.
pub struct IdentityView {
    pub id: i64,
    pub name: Option<Seq<char>>,
}

impl View for Identity {
    type V = IdentityView;

    open spec fn view(&self) -> IdentityView {
        IdentityView { id: self.id, name: opt_text(self.name) }
    }
}

/// Everything the library knows.
pub struct Library {
    pub photos: Vec<Photo>,
    pub roots: Vec<String>,
    pub faces: Vec<Face>,
    /// Names given to appearance clusters.
    pub cluster_names: Vec<(i64, String)>,
    pub identities: Vec<Identity>,
    /// Identities that are different people: `(smaller, larger)`.
    pub cannot_link: Vec<(i64, i64)>,
    /// Faces of one photo that are one person after all: `(smaller, larger)`.
    pub same_photo_ok: Vec<(i64, i64)>,
    /// Flags of the program: `(key, value)`.
    pub meta: Vec<(String, String)>,
}

/// Everything the library knows, mathematically.
#[verifier::ext_equal]
pub struct LibraryView {
    pub photos: Seq<PhotoView>,
    pub roots: Seq<Seq<char>>,
    pub faces: Seq<FaceView>,
    pub cluster_names: Seq<(i64, Seq<char>)>,
    pub identities: Seq<IdentityView>,
    pub cannot_link: Seq<(i64, i64)>,
    pub same_photo_ok: Seq<(i64, i64)>,
    pub meta: Seq<(Seq<char>, Seq<char>)>,
}

impl View for Library {
    type V = LibraryView;

    open spec fn view(&self) -> LibraryView {
        LibraryView {
            photos: views(self.photos@),
            roots: views(self.roots@),
            faces: views(self.faces@),
            cluster_names: views(self.cluster_names@),
            identities: views(self.identities@),
            cannot_link: self.cannot_link@,
            same_photo_ok: self.same_photo_ok@,
            meta: views(self.meta@),
        }
    }
}

/// Ids of photos start at one and ascend, and no path is registered twice.
pub open spec fn photos_wf(photos: Seq<PhotoView>) -> bool {
    &&& forall|i: int| 0 <= i < photos.len() ==> (#[trigger] photos[i]).id >= 1
    &&& forall|i: int, j: int|
        0 <= i < j < photos.len() ==> (#[trigger] photos[i]).id < (#[trigger] photos[j]).id
    &&& forall|i: int, j: int|
        0 <= i < j < photos.len() ==> (#[trigger] photos[i]).path != (#[trigger] photos[j]).path
}

/// A text comes before another in the order of their characters.
pub open spec fn text_before(a: Seq<char>, b: Seq<char>) -> bool
    decreases a.len(),
{
    b.len() > 0 && (a.len() == 0 || a[0] < b[0] || (a[0] == b[0] && text_before(
        a.drop_first(),
        b.drop_first(),
    )))
}

/// Roots are in order, and none is listed twice.
pub open spec fn roots_wf(roots: Seq<Seq<char>>) -> bool {
    forall|i: int, j: int|
        0 <= i < j < roots.len() ==> text_before(#[trigger] roots[i], #[trigger] roots[j])
}

/// Ids of faces start at one and ascend.
pub open spec fn faces_wf(faces: Seq<FaceView>) -> bool {
    &&& forall|i: int| 0 <= i < faces.len() ==> (#[trigger] faces[i]).id >= 1
    &&& forall|i: int, j: int|
        0 <= i < j < faces.len() ==> (#[trigger] faces[i]).id < (#[trigger] faces[j]).id
}

/// Ids of identities start at one and ascend.
pub open spec fn identities_wf(identities: Seq<IdentityView>) -> bool {
    &&& forall|i: int| 0 <= i < identities.len() ==> (#[trigger] identities[i]).id >= 1
    &&& forall|i: int, j: int|
        0 <= i < j < identities.len() ==> (#[trigger] identities[i]).id < (
        #[trigger] identities[j]).id
}

/// Pairs are in ascending order, and none is listed twice.
pub open spec fn pairs_wf(pairs: Seq<(i64, i64)>) -> bool {
    &&& forall|i: int| 0 <= i < pairs.len() ==> (#[trigger] pairs[i]).0 <= pairs[i].1
    &&& forall|i: int, j: int|
        0 <= i < j < pairs.len() ==> #[trigger] pairs[i] != #[trigger] pairs[j]
}

impl LibraryView {
    /// The rows are in order and nothing is recorded twice.
    pub open spec fn wf(&self) -> bool {
        &&& photos_wf(self.photos)
        &&& roots_wf(self.roots)
        &&& faces_wf(self.faces)
        &&& identities_wf(self.identities)
        &&& pairs_wf(self.cannot_link)
        &&& pairs_wf(self.same_photo_ok)
    }

    /// The largest identity id, zero if there is none.
    pub open spec fn last_identity(&self) -> i64 {
        if self.identities.len() == 0 {
            0
        } else {
            self.identities.last().id
        }
    }

    /// The largest face id, zero if there is none.
    pub open spec fn last_face(&self) -> i64 {
        if self.faces.len() == 0 {
            0
        } else {
            self.faces.last().id
        }
    }

    /// The largest photo id, zero if there is none.
    pub open spec fn last_photo(&self) -> i64 {
        if self.photos.len() == 0 {
            0
        } else {
            self.photos.last().id
        }
    }
}

/// Ids that ascend from one are at least as large as their positions, so a list of
/// them has no more than `i64::MAX` rows.
pub proof fn lemma_photo_count(photos: Seq<PhotoView>, n: nat)
    requires
        photos_wf(photos),
        n < photos.len(),
    ensures
        photos[n as int].id >= n + 1,
    decreases n,
{
    if n > 0 {
        lemma_photo_count(photos, (n - 1) as nat);
    }
}

pub proof fn lemma_face_count(faces: Seq<FaceView>, n: nat)
    requires
        faces_wf(faces),
        n < faces.len(),
    ensures
        faces[n as int].id >= n + 1,
    decreases n,
{
    if n > 0 {
        lemma_face_count(faces, (n - 1) as nat);
    }
}

/// A well-formed library's counts fit in an `i64`.
pub proof fn lemma_counts_fit(lib: LibraryView)
    requires
        lib.wf(),
    ensures
        lib.photos.len() <= i64::MAX,
        lib.faces.len() <= i64::MAX,
{
    if lib.photos.len() > 0 {
        lemma_photo_count(lib.photos, (lib.photos.len() - 1) as nat);
    }
    if lib.faces.len() > 0 {
        lemma_face_count(lib.faces, (lib.faces.len() - 1) as nat);
    }
}

impl Library {
    /// The rows are in order and nothing is recorded twice.
    pub open spec fn wf(&self) -> bool {
        self@.wf()
    }

    /// An empty library.
    pub fn new() -> (lib: Library)
        ensures
            lib.wf(),
            lib@ == (LibraryView {
                photos: Seq::empty(),
                roots: Seq::empty(),
                faces: Seq::empty(),
                cluster_names: Seq::empty(),
                identities: Seq::empty(),
                cannot_link: Seq::empty(),
                same_photo_ok: Seq::empty(),
                meta: Seq::empty(),
            }),
    {
        let lib = Library {
            photos: Vec::new(),
            roots: Vec::new(),
            faces: Vec::new(),
            cluster_names: Vec::new(),
            identities: Vec::new(),
            cannot_link: Vec::new(),
            same_photo_ok: Vec::new(),
            meta: Vec::new(),
        };
        assert(lib@.photos =~= Seq::empty());
        assert(lib@.roots =~= Seq::empty());
        assert(lib@.faces =~= Seq::empty());
        assert(lib@.cluster_names =~= Seq::empty());
        assert(lib@.identities =~= Seq::empty());
        assert(lib@.meta =~= Seq::empty());
        lib
    }
}

/// `marks` of each face replaced by what `mark` makes of the face.
pub open spec fn marked(mark: spec_fn(FaceView) -> FaceMarks) -> spec_fn(FaceView) -> FaceView {
    |f: FaceView| FaceView { marks: mark(f), ..f }
}

/// `marks` of each photo replaced by what `mark` makes of the photo.
pub open spec fn photo_marked(mark: spec_fn(PhotoView) -> PhotoMarks) -> spec_fn(
    PhotoView,
) -> PhotoView {
    |p: PhotoView| PhotoView { marks: mark(p), ..p }
}

impl LibraryView {
    /// The library with every face marked anew.
    pub open spec fn with_marks(self, mark: spec_fn(FaceView) -> FaceMarks) -> LibraryView {
        LibraryView { faces: self.faces.map_values(marked(mark)), ..self }
    }

    /// The library with every photo marked anew.
    pub open spec fn with_photo_marks(
        self,
        mark: spec_fn(PhotoView) -> PhotoMarks,
    ) -> LibraryView {
        LibraryView { photos: self.photos.map_values(photo_marked(mark)), ..self }
    }
}

/// Marking faces keeps a library well-formed.
pub proof fn lemma_marks_wf(lib: LibraryView, mark: spec_fn(FaceView) -> FaceMarks)
    requires
        lib.wf(),
    ensures
        lib.with_marks(mark).wf(),
{
    let after = lib.faces.map_values(marked(mark));
    assert forall|i: int| 0 <= i < after.len() implies (#[trigger] after[i]).id >= 1 by {
        assert(after[i].id == lib.faces[i].id);
    }
    assert forall|i: int, j: int| 0 <= i < j < after.len() implies (#[trigger] after[i]).id < (
    #[trigger] after[j]).id by {
        assert(after[i].id == lib.faces[i].id);
        assert(after[j].id == lib.faces[j].id);
    }
}

/// Marking photos keeps a library well-formed.
pub proof fn lemma_photo_marks_wf(lib: LibraryView, mark: spec_fn(PhotoView) -> PhotoMarks)
    requires
        lib.wf(),
    ensures
        lib.with_photo_marks(mark).wf(),
{
    let after = lib.photos.map_values(photo_marked(mark));
    assert forall|i: int| 0 <= i < after.len() implies (#[trigger] after[i]).id >= 1 by {
        assert(after[i].id == lib.photos[i].id);
    }
    assert forall|i: int, j: int| 0 <= i < j < after.len() implies (#[trigger] after[i]).id < (
    #[trigger] after[j]).id by {
        assert(after[i].id == lib.photos[i].id);
        assert(after[j].id == lib.photos[j].id);
    }
    assert forall|i: int, j: int| 0 <= i < j < after.len() implies (#[trigger] after[i]).path != (
    #[trigger] after[j]).path by {
        assert(after[i].path == lib.photos[i].path);
        assert(after[j].path == lib.photos[j].path);
    }
}

/// Mark every face anew.
pub fn mark_faces<F: Fn(&Face) -> FaceMarks>(
    lib: &mut Library,
    mark: F,
    Ghost(g): Ghost<spec_fn(FaceView) -> FaceMarks>,
)
    requires
        old(lib).wf(),
        forall|f: &Face| call_requires(mark, (f,)),
        forall|f: &Face, m: FaceMarks| call_ensures(mark, (f,), m) ==> m == g(f@),
    ensures
        final(lib)@ == old(lib)@.with_marks(g),
        final(lib).wf(),
{
    let n: usize = lib.faces.len();
    let ghost before = lib@;
    for i in 0..n
        invariant
            n == lib.faces@.len(),
            n == before.faces.len(),
            forall|f: &Face| call_requires(mark, (f,)),
            forall|f: &Face, m: FaceMarks| call_ensures(mark, (f,), m) ==> m == g(f@),
            forall|k: int| 0 <= k < i ==> (#[trigger] lib.faces@[k])@ == marked(g)(before.faces[k]),
            forall|k: int| i <= k < n ==> (#[trigger] lib.faces@[k])@ == before.faces[k],
            lib@.photos == before.photos,
            lib@.roots == before.roots,
            lib@.cluster_names == before.cluster_names,
            lib@.identities == before.identities,
            lib@.cannot_link == before.cannot_link,
            lib@.same_photo_ok == before.same_photo_ok,
            lib@.meta == before.meta,
    {
        assert(lib.faces@[i as int]@ == before.faces[i as int]);
        lib.faces[i].marks = mark(&lib.faces[i]);
    }
    assert(lib@.faces =~= before.faces.map_values(marked(g)));
    proof {
        lemma_marks_wf(before, g);
    }
}

/// Mark every photo anew.
pub fn mark_photos<F: Fn(&Photo) -> PhotoMarks>(
    lib: &mut Library,
    mark: F,
    Ghost(g): Ghost<spec_fn(PhotoView) -> PhotoMarks>,
)
    requires
        old(lib).wf(),
        forall|p: &Photo| call_requires(mark, (p,)),
        forall|p: &Photo, m: PhotoMarks| call_ensures(mark, (p,), m) ==> m == g(p@),
    ensures
        final(lib)@ == old(lib)@.with_photo_marks(g),
        final(lib).wf(),
{
    let n: usize = lib.photos.len();
    let ghost before = lib@;
    for i in 0..n
        invariant
            n == lib.photos@.len(),
            n == before.photos.len(),
            forall|p: &Photo| call_requires(mark, (p,)),
            forall|p: &Photo, m: PhotoMarks| call_ensures(mark, (p,), m) ==> m == g(p@),
            forall|k: int|
                0 <= k < i ==> (#[trigger] lib.photos@[k])@ == photo_marked(g)(before.photos[k]),
            forall|k: int| i <= k < n ==> (#[trigger] lib.photos@[k])@ == before.photos[k],
            lib@.faces == before.faces,
            lib@.roots == before.roots,
            lib@.cluster_names == before.cluster_names,
            lib@.identities == before.identities,
            lib@.cannot_link == before.cannot_link,
            lib@.same_photo_ok == before.same_photo_ok,
            lib@.meta == before.meta,
    {
        assert(lib.photos@[i as int]@ == before.photos[i as int]);
        lib.photos[i].marks = mark(&lib.photos[i]);
    }
    assert(lib@.photos =~= before.photos.map_values(photo_marked(g)));
    proof {
        lemma_photo_marks_wf(before, g);
    }
}

/// What is picked from the faces, in the order of the faces.
pub fn pick_faces<B, F: Fn(&Face) -> Option<B>>(
    lib: &Library,
    pick: F,
    Ghost(g): Ghost<spec_fn(FaceView) -> Option<B>>,
) -> (out: Vec<B>)
    requires
        forall|f: &Face| call_requires(pick, (f,)),
        forall|f: &Face, b: Option<B>| call_ensures(pick, (f,), b) ==> b == g(f@),
    ensures
        out@ == select(lib@.faces, g),
{
    let ghost rows = lib@.faces;
    let mut out: Vec<B> = Vec::new();
    for i in 0..lib.faces.len()
        invariant
            rows == lib@.faces,
            forall|f: &Face| call_requires(pick, (f,)),
            forall|f: &Face, b: Option<B>| call_ensures(pick, (f,), b) ==> b == g(f@),
            out@ == select(rows.take(i as int), g),
    {
        assert(rows.take(i + 1).drop_last() == rows.take(i as int));
        assert(rows[i as int] == lib.faces@[i as int]@);
        if let Some(b) = pick(&lib.faces[i]) {
            out.push(b);
        }
    }
    assert(rows.take(rows.len() as int) == rows);
    out
}

/// What is picked from the photos, in the order of the photos.
pub fn pick_photos<B, F: Fn(&Photo) -> Option<B>>(
    lib: &Library,
    pick: F,
    Ghost(g): Ghost<spec_fn(PhotoView) -> Option<B>>,
) -> (out: Vec<B>)
    requires
        forall|p: &Photo| call_requires(pick, (p,)),
        forall|p: &Photo, b: Option<B>| call_ensures(pick, (p,), b) ==> b == g(p@),
    ensures
        out@ == select(lib@.photos, g),
{
    let ghost rows = lib@.photos;
    let mut out: Vec<B> = Vec::new();
    for i in 0..lib.photos.len()
        invariant
            rows == lib@.photos,
            forall|p: &Photo| call_requires(pick, (p,)),
            forall|p: &Photo, b: Option<B>| call_ensures(pick, (p,), b) ==> b == g(p@),
            out@ == select(rows.take(i as int), g),
    {
        assert(rows.take(i + 1).drop_last() == rows.take(i as int));
        assert(rows[i as int] == lib.photos@[i as int]@);
        if let Some(b) = pick(&lib.photos[i]) {
            out.push(b);
        }
    }
    assert(rows.take(rows.len() as int) == rows);
    out
}

} // verus!
