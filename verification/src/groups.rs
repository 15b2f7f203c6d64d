//! Display groups: the tiles of the People screen.
//!
//! A face with an identity is shown under the identity's stable (negative) key, an
//! unassigned face under its (positive) appearance cluster.

use vstd::prelude::*;

use crate::confirmations::{by_score, copy_vec, unnamed_ids};
use crate::identities::{minted, new_identity};
use crate::library::{
    identity_key, key_of, lemma_counts_fit, mark_faces, pick_faces, pick_photos, Face, FaceBox,
    FaceMarks, FaceView, Library, LibraryView, Photo, PhotoView,
};
use crate::names::{
    find_identity, identity_name, is_named, name_of, restore_identity_name, with_identity_name,
};
use crate::order::{
    arrange, arranged, is_order, lemma_order_of, limit_to, limited, order_of, sort_order,
};
use crate::rows::{
    distinct, holds, lemma_distinct, lemma_next_row, lemma_select_contains, lemma_select_from,
    lemma_select_len, select, tally, views, without_repeats,
};
use crate::text::{opt_text, trim, trimmed};

verus! {

/// The identity a group stands for, if it is a person's.
pub open spec fn group_identity(group: i64) -> Option<i64> {
    if group == i64::MIN {
        Some(i64::MAX)
    } else if group < 0 {
        Some((-group) as i64)
    } else {
        None
    }
}

/// The identity of a group: a negative key is a person's, a positive one no one's.
pub fn identity_of_group(group: i64) -> (id: Option<i64>)
    ensures
        id == group_identity(group),
{
    if group == i64::MIN {
        Some(i64::MAX)
    } else if group < 0 {
        Some(-group)
    } else {
        None
    }
}

/// The name a group is shown with.
pub open spec fn name_of_group(lib: LibraryView, group: i64) -> Option<Seq<char>> {
    match group_identity(group) {
        Some(id) => name_of(lib.identities, id),
        None => None,
    }
}

/// The name a group is shown with: its person's. An appearance group has none.
pub fn group_name(lib: &Library, group: i64) -> (name: Option<String>)
    ensures
        opt_text(name) == name_of_group(lib@, group),
{
    match identity_of_group(group) {
        Some(id) => identity_name(lib, id),
        None => None,
    }
}

/// Binds the faces of a group to an identity.
pub open spec fn bind_group(group: i64, identity: i64) -> spec_fn(FaceView) -> FaceMarks {
    |f: FaceView|
        if f.marks.group() == Some(group) {
            FaceMarks { identity_id: Some(identity), ..f.marks }
        } else {
            f.marks
        }
}

/// The identity a group has, or would be given.
pub open spec fn identity_for(lib: LibraryView, group: i64) -> i64 {
    match group_identity(group) {
        Some(id) => id,
        None => (lib.last_identity() + 1) as i64,
    }
}

/// The library after a group was given an identity.
pub open spec fn group_ensured(lib: LibraryView, group: i64) -> LibraryView {
    if group < 0 {
        lib
    } else {
        minted(lib).with_marks(bind_group(group, identity_for(lib, group)))
    }
}

/// Get (or create) the identity of a group. A person's group keeps its own; an
/// appearance group is promoted: an identity is minted and its faces are bound to it,
/// tentatively.
pub fn ensure_identity_for_group(lib: &mut Library, group: i64) -> (id: i64)
    requires
        old(lib).wf(),
        group >= 0 ==> old(lib)@.last_identity() < i64::MAX,
    ensures
        final(lib)@ == group_ensured(old(lib)@, group),
        final(lib).wf(),
        id == identity_for(old(lib)@, group),
{
    match identity_of_group(group) {
        Some(id) => id,
        None => {
            let id: i64 = new_identity(lib);
            merge_group_into_identity(lib, id, group);
            id
        },
    }
}

/// Put every face of a group under an identity.
pub fn merge_group_into_identity(lib: &mut Library, identity: i64, from: i64)
    requires
        old(lib).wf(),
    ensures
        final(lib)@ == old(lib)@.with_marks(bind_group(from, identity)),
        final(lib).wf(),
{
    let mark = |f: &Face| -> (m: FaceMarks)
        ensures
            m == bind_group(from, identity)(f@),
        {
            if f.marks.display_group() == Some(from) {
                FaceMarks { identity_id: Some(identity), ..f.marks }
            } else {
                f.marks
            }
        };
    mark_faces(lib, mark, Ghost(bind_group(from, identity)));
}

/// Confirms every face of an identity.
pub open spec fn confirm_identity(identity: i64) -> spec_fn(FaceView) -> FaceMarks {
    |f: FaceView|
        if f.marks.identity_id == Some(identity) {
            FaceMarks { confirmed: true, ..f.marks }
        } else {
            f.marks
        }
}

/// Vouch for every face under an identity.
pub fn confirm_identity_faces(lib: &mut Library, identity: i64)
    requires
        old(lib).wf(),
    ensures
        final(lib)@ == old(lib)@.with_marks(confirm_identity(identity)),
        final(lib).wf(),
{
    let mark = |f: &Face| -> (m: FaceMarks)
        ensures
            m == confirm_identity(identity)(f@),
        {
            if f.marks.identity_id == Some(identity) {
                FaceMarks { confirmed: true, ..f.marks }
            } else {
                f.marks
            }
        };
    mark_faces(lib, mark, Ghost(confirm_identity(identity)));
}

/// Confirms the faces of a group that are unclaimed or the identity's own.
pub open spec fn confirm_group(group: i64, identity: Option<i64>) -> spec_fn(
    FaceView,
) -> FaceMarks {
    |f: FaceView|
        if f.marks.group() == Some(group) && (f.marks.identity_id is None || f.marks.identity_id
            == identity) {
            FaceMarks { confirmed: true, ..f.marks }
        } else {
            f.marks
        }
}

/// Vouch for a group's faces under the identity they are being assigned to: unclaimed
/// faces and that identity's own.
pub fn confirm_group_faces(lib: &mut Library, group: i64, identity: Option<i64>)
    requires
        old(lib).wf(),
    ensures
        final(lib)@ == old(lib)@.with_marks(confirm_group(group, identity)),
        final(lib).wf(),
{
    let mark = |f: &Face| -> (m: FaceMarks)
        ensures
            m == confirm_group(group, identity)(f@),
        {
            if f.marks.display_group() == Some(group) && (f.marks.identity_id.is_none()
                || f.marks.identity_id == identity) {
                FaceMarks { confirmed: true, ..f.marks }
            } else {
                f.marks
            }
        };
    mark_faces(lib, mark, Ghost(confirm_group(group, identity)));
}

/// Rebinds the faces of a group confirmed under an unnamed identity.
pub open spec fn adopt_group(lib: LibraryView, group: i64, identity: i64) -> spec_fn(
    FaceView,
) -> FaceMarks {
    |f: FaceView|
        if f.marks.group() == Some(group) && f.marks.confirmed && f.marks.identity_id is Some
            && f.marks.identity_id != Some(identity) && (find_identity(
            lib.identities,
            f.marks.identity_id->0,
        ) matches Some(i) && i.name is None) {
            FaceMarks { identity_id: Some(identity), ..f.marks }
        } else {
            f.marks
        }
}

/// Rebind a group's faces confirmed under an *unnamed* identity: the competitor was
/// minted by an earlier rejection, and an explicit assignment outranks it.
pub fn adopt_unnamed_group(lib: &mut Library, group: i64, identity: i64)
    requires
        old(lib).wf(),
    ensures
        final(lib)@ == old(lib)@.with_marks(adopt_group(old(lib)@, group, identity)),
        final(lib).wf(),
{
    let before: Ghost<LibraryView> = Ghost(lib@);
    let unnamed = unnamed_ids(lib);
    let mark = |f: &Face| -> (m: FaceMarks)
        ensures
            m == adopt_group(before@, group, identity)(f@),
        {
            let free = match f.marks.identity_id {
                Some(id) => id != identity && holds(&unnamed, id),
                None => false,
            };
            if f.marks.display_group() == Some(group) && f.marks.confirmed && free {
                FaceMarks { identity_id: Some(identity), ..f.marks }
            } else {
                f.marks
            }
        };
    mark_faces(lib, mark, Ghost(adopt_group(before@, group, identity)));
}

/// The group is a named person other than `identity`.
pub open spec fn other_named(lib: LibraryView, group: i64, identity: Option<i64>) -> bool {
    match group_identity(group) {
        Some(id) => identity != Some(id) && name_of(lib.identities, id) is Some,
        None => false,
    }
}

/// True if the group is a named person other than `identity`. An unnamed competitor
/// does not count.
pub fn group_is_other_named_person(lib: &Library, group: i64, identity: Option<i64>) -> (r: bool)
    ensures
        r == other_named(lib@, group, identity),
{
    match identity_of_group(group) {
        Some(id) => identity != Some(id) && is_named(lib, id),
        None => false,
    }
}

/// Tests for a face of the group.
pub open spec fn in_group(group: i64) -> spec_fn(FaceView) -> bool {
    |f: FaceView| f.marks.group() == Some(group)
}

/// Tests for a face of the appearance group that nobody vouched for.
pub open spec fn free_in(group: i64) -> spec_fn(FaceView) -> bool {
    |f: FaceView|
        f.marks.cluster_id == Some(group) && f.marks.identity_id is None && !f.marks.confirmed
}

/// Puts the free faces of an appearance group under an identity.
pub open spec fn assign_free(group: i64, identity: i64) -> spec_fn(FaceView) -> FaceMarks {
    |f: FaceView|
        if free_in(group)(f) {
            FaceMarks { identity_id: Some(identity), ..f.marks }
        } else {
            f.marks
        }
}

/// How many faces of an appearance group nobody vouched for.
pub fn free_size(lib: &Library, group: i64) -> (n: usize)
    ensures
        n == tally(lib@.faces, free_in(group)),
        n <= lib@.faces.len(),
{
    let ghost all = lib@.faces;
    let mut n: usize = 0;
    for i in 0..lib.faces.len()
        invariant
            all == lib@.faces,
            n == tally(all.take(i as int), free_in(group)),
            n <= i,
    {
        assert(all.take(i + 1).drop_last() == all.take(i as int));
        assert(all[i as int] == lib.faces@[i as int]@);
        let m = &lib.faces[i].marks;
        if m.cluster_id == Some(group) && m.identity_id.is_none() && !m.confirmed {
            n = n + 1;
        }
    }
    assert(all.take(all.len() as int) == all);
    n
}

/// Assign the free faces of an appearance group to an identity, tentatively: only the
/// identity is written, and never on a face the user vouched for. Returns how many faces
/// were assigned.
pub fn assign_cluster_to_identity(lib: &mut Library, cluster_id: i64, identity: i64) -> (n: usize)
    requires
        old(lib).wf(),
    ensures
        final(lib)@ == old(lib)@.with_marks(assign_free(cluster_id, identity)),
        final(lib).wf(),
        n == tally(old(lib)@.faces, free_in(cluster_id)),
{
    let n: usize = free_size(lib, cluster_id);
    let mark = |f: &Face| -> (m: FaceMarks)
        ensures
            m == assign_free(cluster_id, identity)(f@),
        {
            let mut m = f.marks;
            if m.cluster_id == Some(cluster_id) && m.identity_id.is_none() && !m.confirmed {
                m.identity_id = Some(identity);
            }
            m
        };
    mark_faces(lib, mark, Ghost(assign_free(cluster_id, identity)));
    n
}

/// How many faces a group holds.
pub fn group_size(lib: &Library, group: i64) -> (n: usize)
    ensures
        n == tally(lib@.faces, in_group(group)),
        n <= lib@.faces.len(),
{
    let ghost all = lib@.faces;
    let mut n: usize = 0;
    for i in 0..lib.faces.len()
        invariant
            all == lib@.faces,
            n == tally(all.take(i as int), in_group(group)),
            n <= i,
    {
        assert(all.take(i + 1).drop_last() == all.take(i as int));
        assert(all[i as int] == lib.faces@[i as int]@);
        if lib.faces[i].marks.display_group() == Some(group) {
            n = n + 1;
        }
    }
    assert(all.take(all.len() as int) == all);
    n
}

/// The group's key after it was named; see [`name_group`].
pub open spec fn named_key(lib: LibraryView, group: i64, name: Seq<char>) -> i64 {
    if name.len() == 0 {
        group
    } else {
        identity_key(identity_for(lib, group))
    }
}

/// The library after a group was named; an empty name clears it.
pub open spec fn group_renamed(lib: LibraryView, group: i64, name: Seq<char>) -> LibraryView {
    if name.len() == 0 {
        match group_identity(group) {
            Some(id) => with_identity_name(lib, id, None),
            None => lib,
        }
    } else {
        let id = identity_for(lib, group);
        with_identity_name(group_ensured(lib, group), id, Some(name)).with_marks(
            confirm_identity(id),
        )
    }
}

/// Name (or rename) a group and vouch for its faces. An empty name clears a person's
/// name and does nothing to an appearance group. Returns the key to keep following:
/// naming an appearance group promotes it to a person's.
pub fn name_group(lib: &mut Library, group: i64, name: &str) -> (key: i64)
    requires
        old(lib).wf(),
        group >= 0 ==> old(lib)@.last_identity() < i64::MAX,
    ensures
        final(lib)@ == group_renamed(old(lib)@, group, trimmed(name@)),
        final(lib).wf(),
        key == named_key(old(lib)@, group, trimmed(name@)),
{
    let name = trim(name);
    if name.as_str().is_empty() {
        if let Some(id) = identity_of_group(group) {
            restore_identity_name(lib, id, &None);
        }
        return group;
    }
    let id: i64 = ensure_identity_for_group(lib, group);
    let given: Option<String> = Some(name);
    restore_identity_name(lib, id, &given);
    confirm_identity_faces(lib, id);
    key_of(id)
}

/// Picks a face of the group: its score and id.
pub open spec fn scored_in(group: i64) -> spec_fn(FaceView) -> Option<(i64, i64)> {
    |f: FaceView|
        if f.marks.group() == Some(group) {
            Some((f.score, f.id))
        } else {
            None
        }
}

/// The face ids of a group, highest detector score first.
pub open spec fn ranked_faces(faces: Seq<FaceView>, group: i64) -> Seq<i64> {
    let all = select(faces, scored_in(group));
    arranged(all, all.map_values(by_score())).map_values(|e: (i64, i64)| e.1)
}

/// Every face id in a group, best (highest score) first.
pub fn cluster_face_ids(lib: &Library, cluster_id: i64) -> (out: Vec<i64>)
    ensures
        out@ == ranked_faces(lib@.faces, cluster_id),
{
    let pick = |f: &Face| -> (b: Option<(i64, i64)>)
        ensures
            b == scored_in(cluster_id)(f@),
        {
            if f.marks.display_group() == Some(cluster_id) {
                Some((f.score, f.id))
            } else {
                None
            }
        };
    let all = pick_faces(lib, pick, Ghost(scored_in(cluster_id)));
    let mut keys: Vec<(i128, i128, i128)> = Vec::with_capacity(all.len());
    for i in 0..all.len()
        invariant
            keys@ == all@.map_values(by_score()).take(i as int),
    {
        keys.push((all[i].0 as i128, 0, 0));
        assert(keys@ =~= all@.map_values(by_score()).take(i + 1));
    }
    assert(keys@ =~= all@.map_values(by_score()));
    let sorted = arrange(&all, &keys);
    let mut out: Vec<i64> = Vec::with_capacity(sorted.len());
    let ghost goal = ranked_faces(lib@.faces, cluster_id);
    for i in 0..sorted.len()
        invariant
            goal == sorted@.map_values(|e: (i64, i64)| e.1),
            out@ == goal.take(i as int),
    {
        out.push(sorted[i].1);
        assert(out@ =~= goal.take(i + 1));
    }
    assert(out@ =~= goal);
    out
}

/// The highest-confidence face ids for a group: the example faces shown on a card.
pub fn top_face_ids(lib: &Library, cluster_id: i64, limit: i64) -> (out: Vec<i64>)
    ensures
        out@ == limited(ranked_faces(lib@.faces, cluster_id), limit as int),
{
    let mut out = cluster_face_ids(lib, cluster_id);
    limit_to(&mut out, limit);
    out
}

/// One person's group: its key, face count, a cover face (highest-confidence
/// detection), and a name if it's been named.
pub struct ClusterRow {
    pub cluster_id: i64,
    pub count: i64,
    pub cover_face_id: i64,
    pub name: Option<String>,
}

/// A group on the People screen, mathematically.
pub struct ClusterRowView {
    pub cluster_id: i64,
    pub count: i64,
    pub cover_face_id: i64,
    pub name: Option<Seq<char>>,
}

impl View for ClusterRow {
    type V = ClusterRowView;

    open spec fn view(&self) -> ClusterRowView {
        ClusterRowView {
            cluster_id: self.cluster_id,
            count: self.count,
            cover_face_id: self.cover_face_id,
            name: opt_text(self.name),
        }
    }
}

/// Picks a face's group.
pub open spec fn group_of_face() -> spec_fn(FaceView) -> Option<i64> {
    |f: FaceView| f.marks.group()
}

/// A group's row.
pub open spec fn overview_row(lib: LibraryView) -> spec_fn(i64) -> ClusterRowView {
    |g: i64|
        ClusterRowView {
            cluster_id: g,
            count: tally(lib.faces, in_group(g)) as i64,
            cover_face_id: ranked_faces(lib.faces, g)[0],
            name: name_of_group(lib, g),
        }
}

/// How groups are ranked: biggest first, then by key.
pub open spec fn by_size(faces: Seq<FaceView>) -> spec_fn(i64) -> (i128, i128, i128) {
    |g: i64| (tally(faces, in_group(g)) as i128, g as i128, 0)
}

/// The groups of a library, biggest first.
pub open spec fn ranked_groups(faces: Seq<FaceView>) -> Seq<i64> {
    let all = distinct(select(faces, group_of_face()));
    arranged(all, all.map_values(by_size(faces)))
}

/// Every group, in the order its first face appears.
fn all_groups(lib: &Library) -> (out: Vec<i64>)
    ensures
        out@ == distinct(select(lib@.faces, group_of_face())),
{
    let pick = |f: &Face| -> (b: Option<i64>)
        ensures
            b == group_of_face()(f@),
        { f.marks.display_group() };
    without_repeats(&pick_faces(lib, pick, Ghost(group_of_face())))
}

proof fn lemma_ranked_nonempty(faces: Seq<FaceView>, group: i64)
    requires
        distinct(select(faces, group_of_face())).contains(group),
        faces.len() <= usize::MAX,
    ensures
        ranked_faces(faces, group).len() > 0,
{
    let all = select(faces, group_of_face());
    lemma_distinct(all);
    assert(distinct(all).contains(group) <==> all.contains(group));
    let p = choose|p: int| 0 <= p < all.len() && all[p] == group;
    lemma_select_from(faces, group_of_face(), p);
    let i = choose|i: int| 0 <= i < faces.len() && group_of_face()(#[trigger] faces[i]) == Some(all[p]);
    assert(scored_in(group)(faces[i]) is Some);
    lemma_select_contains(faces, scored_in(group), i);
    lemma_select_len(faces, scored_in(group));
    let scored = select(faces, scored_in(group));
    lemma_order_of(scored.map_values(by_score()));
}

/// Every group, biggest first, with a cover face each.
pub fn clusters_overview(lib: &Library) -> (out: Vec<ClusterRow>)
    requires
        lib.wf(),
    ensures
        views(out@) == ranked_groups(lib@.faces).map_values(overview_row(lib@)),
{
    let all = all_groups(lib);
    let mut keys: Vec<(i128, i128, i128)> = Vec::with_capacity(all.len());
    for i in 0..all.len()
        invariant
            keys@ == all@.map_values(by_size(lib@.faces)).take(i as int),
    {
        keys.push((group_size(lib, all[i]) as i128, all[i] as i128, 0));
        assert(keys@ =~= all@.map_values(by_size(lib@.faces)).take(i + 1));
    }
    assert(keys@ =~= all@.map_values(by_size(lib@.faces)));
    let groups = arrange(&all, &keys);
    let ghost goal = ranked_groups(lib@.faces).map_values(overview_row(lib@));
    proof {
        lemma_counts_fit(lib@);
        lemma_order_of(keys@);
    }
    let mut out: Vec<ClusterRow> = Vec::with_capacity(groups.len());
    for i in 0..groups.len()
        invariant
            groups@ == ranked_groups(lib@.faces),
            groups@ == arranged(all@, keys@),
            is_order(keys@, order_of(keys@)),
            keys@.len() == all@.len(),
            all@ == distinct(select(lib@.faces, group_of_face())),
            lib@.faces.len() <= i64::MAX,
            goal == groups@.map_values(overview_row(lib@)),
            views(out@) == goal.take(i as int),
    {
        let g: i64 = groups[i];
        proof {
            let at = order_of(keys@)[i as int];
            assert(at < keys@.len());
            assert(all@[at as int] == g);
            assert(lib.faces.len() <= usize::MAX);
            lemma_ranked_nonempty(lib@.faces, g);
        }
        let ranked = cluster_face_ids(lib, g);
        let count: usize = group_size(lib, g);
        let ghost was = out@;
        out.push(
            ClusterRow {
                cluster_id: g,
                count: count as i64,
                cover_face_id: ranked[0],
                name: group_name(lib, g),
            },
        );
        assert(out@.drop_last() =~= was);
        proof {
            lemma_next_row(was, out@, goal, i as int);
        }
    }
    assert(views(out@) =~= goal);
    out
}

/// Picks a face's group and photo.
pub open spec fn group_photo() -> spec_fn(FaceView) -> Option<(i64, i64)> {
    |f: FaceView|
        match f.marks.group() {
            Some(g) => Some((g, f.photo_id)),
            None => None,
        }
}

/// `(group, photo_id)` for every grouped face, for co-occurrence vetoes: a candidate
/// group photographed alongside the person cannot *be* the person.
pub fn cluster_photo_pairs(lib: &Library) -> (out: Vec<(i64, i64)>)
    ensures
        out@ == select(lib@.faces, group_photo()),
{
    let pick = |f: &Face| -> (b: Option<(i64, i64)>)
        ensures
            b == group_photo()(f@),
        {
            match f.marks.display_group() {
                Some(g) => Some((g, f.photo_id)),
                None => None,
            }
        };
    pick_faces(lib, pick, Ghost(group_photo()))
}

/// Picks a grouped face: its id, group and embedding.
pub open spec fn group_embedding() -> spec_fn(FaceView) -> Option<(i64, i64, Seq<i32>)> {
    |f: FaceView|
        match f.marks.group() {
            Some(g) => Some((f.id, g, f.embedding)),
            None => None,
        }
}

/// `(face_id, group, embedding)` for every grouped face: the input to face-to-face
/// evidence and to anchored matching.
pub fn face_cluster_embeddings(lib: &Library) -> (out: Vec<(i64, i64, Vec<i32>)>)
    ensures
        views(out@) == select(lib@.faces, group_embedding()),
{
    let ghost all = lib@.faces;
    let mut out: Vec<(i64, i64, Vec<i32>)> = Vec::new();
    assert(views(out@) =~= select(all.take(0), group_embedding()));
    for i in 0..lib.faces.len()
        invariant
            all == lib@.faces,
            views(out@) == select(all.take(i as int), group_embedding()),
    {
        assert(all.take(i + 1).drop_last() == all.take(i as int));
        let face = &lib.faces[i];
        assert(all[i as int] == face@);
        if let Some(g) = face.marks.display_group() {
            out.push((face.id, g, copy_vec(&face.embedding)));
        }
        assert(views(out@) =~= select(all.take(i + 1), group_embedding()));
    }
    assert(all.take(all.len() as int) == all);
    out
}

/// One grid cell's worth of data: a stable id, its thumbnail status, and the timestamp
/// it sorts/labels by (capture date if known, else file mtime).
#[derive(Clone, Copy, PartialEq, Eq, Structural, Debug)]
pub struct PhotoRow {
    pub id: i64,
    pub status: i64,
    pub ts: i64,
}

/// A photo's row.
pub open spec fn photo_row(p: PhotoView) -> PhotoRow {
    PhotoRow { id: p.id, status: p.marks.status, ts: p.ts() }
}

/// A photo's row.
pub fn row_of(p: &Photo) -> (r: PhotoRow)
    ensures
        r == photo_row(p@),
{
    let ts: i64 = match p.marks.taken_ts {
        Some(ts) => ts,
        None => p.mtime,
    };
    PhotoRow { id: p.id, status: p.marks.status, ts }
}

/// How rows are ranked on the timeline: newest first, then the larger id.
pub open spec fn newest_first() -> spec_fn(PhotoRow) -> (i128, i128, i128) {
    |r: PhotoRow| (r.ts as i128, (-(r.id as int)) as i128, 0)
}

/// Rows in timeline order.
pub open spec fn timeline(rows: Seq<PhotoRow>) -> Seq<PhotoRow> {
    arranged(rows, rows.map_values(newest_first()))
}

/// Rows in timeline order.
pub fn to_timeline(rows: &Vec<PhotoRow>) -> (out: Vec<PhotoRow>)
    ensures
        out@ == timeline(rows@),
        out@.len() == rows@.len(),
{
    let mut keys: Vec<(i128, i128, i128)> = Vec::with_capacity(rows.len());
    for i in 0..rows.len()
        invariant
            keys@ == rows@.map_values(newest_first()).take(i as int),
    {
        keys.push((rows[i].ts as i128, -(rows[i].id as i128), 0));
        assert(keys@ =~= rows@.map_values(newest_first()).take(i + 1));
    }
    assert(keys@ =~= rows@.map_values(newest_first()));
    arrange(rows, &keys)
}

/// Picks the photo of a face of the group.
pub open spec fn photo_in(group: i64) -> spec_fn(FaceView) -> Option<i64> {
    |f: FaceView|
        if f.marks.group() == Some(group) {
            Some(f.photo_id)
        } else {
            None
        }
}

/// Picks the rows of photos whose ids are listed.
pub open spec fn row_among(ids: Seq<i64>) -> spec_fn(PhotoView) -> Option<PhotoRow> {
    |p: PhotoView|
        if ids.contains(p.id) {
            Some(photo_row(p))
        } else {
            None
        }
}

/// The photo ids of a group's faces, without repetitions.
fn photos_of_group(lib: &Library, group: i64) -> (out: Vec<i64>)
    ensures
        out@ == distinct(select(lib@.faces, photo_in(group))),
{
    let pick = |f: &Face| -> (b: Option<i64>)
        ensures
            b == photo_in(group)(f@),
        {
            if f.marks.display_group() == Some(group) {
                Some(f.photo_id)
            } else {
                None
            }
        };
    without_repeats(&pick_faces(lib, pick, Ghost(photo_in(group))))
}

/// Every photo containing this person, newest first: the same ordering as the timeline.
/// One row per photo (a photo with two of their faces still appears once).
pub fn person_photos(lib: &Library, cluster_id: i64) -> (out: Vec<PhotoRow>)
    ensures
        out@ == timeline(
            select(
                lib@.photos,
                row_among(distinct(select(lib@.faces, photo_in(cluster_id)))),
            ),
        ),
{
    let ids = photos_of_group(lib, cluster_id);
    let pick = |p: &Photo| -> (b: Option<PhotoRow>)
        ensures
            b == row_among(ids@)(p@),
        {
            if holds(&ids, p.id) {
                Some(row_of(p))
            } else {
                None
            }
        };
    let rows = pick_photos(lib, pick, Ghost(row_among(ids@)));
    to_timeline(&rows)
}

/// The photo with an id.
pub open spec fn find_photo(photos: Seq<PhotoView>, id: i64) -> Option<PhotoView>
    decreases photos.len(),
{
    if photos.len() == 0 {
        None
    } else if photos.last().id == id {
        Some(photos.last())
    } else {
        find_photo(photos.drop_last(), id)
    }
}

/// Where a photo stands in the list; the list's length if it does not exist.
pub fn photo_position(lib: &Library, id: i64) -> (at: usize)
    ensures
        at <= lib.photos@.len(),
        at < lib.photos@.len() ==> find_photo(lib@.photos, id) == Some(lib.photos@[at as int]@)
            && lib.photos@[at as int].id == id,
        at == lib.photos@.len() ==> find_photo(lib@.photos, id) is None,
{
    let ghost all = lib@.photos;
    let n: usize = lib.photos.len();
    let mut i: usize = n;
    assert(all.take(n as int) == all);
    while i > 0
        invariant
            all == lib@.photos,
            n == lib.photos@.len(),
            i <= n,
            find_photo(all, id) == find_photo(all.take(i as int), id),
        decreases i,
    {
        i = i - 1;
        assert(all.take(i + 1).drop_last() == all.take(i as int));
        assert(all.take(i + 1).last() == lib.photos@[i as int]@);
        if lib.photos[i].id == id {
            return i;
        }
    }
    n
}

/// One face of a person, dated by its photo.
pub struct PersonFace {
    pub face_id: i64,
    pub photo_id: i64,
    pub ts: i64,
    pub score: i64,
    pub embedding: Vec<i32>,
}

/// One face of a person, mathematically.
pub struct PersonFaceView {
    pub face_id: i64,
    pub photo_id: i64,
    pub ts: i64,
    pub score: i64,
    pub embedding: Seq<i32>,
}

impl View for PersonFace {
    type V = PersonFaceView;

    open spec fn view(&self) -> PersonFaceView {
        PersonFaceView {
            face_id: self.face_id,
            photo_id: self.photo_id,
            ts: self.ts,
            score: self.score,
            embedding: self.embedding@,
        }
    }
}

/// Picks the dated faces of a group; a face without its photo is left out.
pub open spec fn dated(photos: Seq<PhotoView>, group: i64) -> spec_fn(FaceView) -> Option<
    PersonFaceView,
> {
    |f: FaceView|
        match find_photo(photos, f.photo_id) {
            Some(p) => if f.marks.group() == Some(group) {
                Some(
                    PersonFaceView {
                        face_id: f.id,
                        photo_id: f.photo_id,
                        ts: p.ts(),
                        score: f.score,
                        embedding: f.embedding,
                    },
                )
            } else {
                None
            },
            None => None,
        }
}

/// How a person's faces are ranked: oldest first, then by id.
pub open spec fn oldest_first() -> spec_fn(PersonFaceView) -> (i128, i128, i128) {
    |f: PersonFaceView| (0, f.ts as i128, f.face_id as i128)
}

/// The faces of a group, oldest first.
pub open spec fn chronicle(lib: LibraryView, group: i64) -> Seq<PersonFaceView> {
    let all = select(lib.faces, dated(lib.photos, group));
    arranged(all, all.map_values(oldest_first()))
}

/// Every face in a person's group, oldest first, so the look grouping is stable and
/// reads chronologically.
pub fn person_faces(lib: &Library, cluster_id: i64) -> (out: Vec<PersonFace>)
    ensures
        views(out@) == chronicle(lib@, cluster_id),
{
    let ghost faces = lib@.faces;
    let ghost pick = dated(lib@.photos, cluster_id);
    let mut all: Vec<PersonFace> = Vec::new();
    let mut keys: Vec<(i128, i128, i128)> = Vec::new();
    assert(views(all@) =~= select(faces.take(0), pick));
    assert(keys@ =~= views(all@).map_values(oldest_first()));
    for i in 0..lib.faces.len()
        invariant
            faces == lib@.faces,
            pick == dated(lib@.photos, cluster_id),
            views(all@) == select(faces.take(i as int), pick),
            keys@ == views(all@).map_values(oldest_first()),
    {
        assert(faces.take(i + 1).drop_last() == faces.take(i as int));
        let face = &lib.faces[i];
        assert(faces[i as int] == face@);
        if face.marks.display_group() == Some(cluster_id) {
            let at: usize = photo_position(lib, face.photo_id);
            if at < lib.photos.len() {
                let ts: i64 = row_of(&lib.photos[at]).ts;
                all.push(
                    PersonFace {
                        face_id: face.id,
                        photo_id: face.photo_id,
                        ts,
                        score: face.score,
                        embedding: copy_vec(&face.embedding),
                    },
                );
                keys.push((0, ts as i128, face.id as i128));
            }
        }
        assert(views(all@) =~= select(faces.take(i + 1), pick));
        assert(keys@ =~= views(all@).map_values(oldest_first()));
    }
    assert(faces.take(faces.len() as int) == faces);
    let order = sort_order(&keys);
    let mut out: Vec<PersonFace> = Vec::with_capacity(order.len());
    let ghost goal = chronicle(lib@, cluster_id);
    for k in 0..order.len()
        invariant
            is_order(keys@, order@),
            order@ == order_of(keys@),
            keys@ == views(all@).map_values(oldest_first()),
            goal == arranged(views(all@), keys@),
            views(out@) == goal.take(k as int),
    {
        assert(order@[k as int] < keys@.len());
        let f = &all[order[k]];
        let ghost was = out@;
        out.push(
            PersonFace {
                face_id: f.face_id,
                photo_id: f.photo_id,
                ts: f.ts,
                score: f.score,
                embedding: copy_vec(&f.embedding),
            },
        );
        assert(goal[k as int] == views(all@)[order@[k as int] as int]);
        assert(out@.drop_last() =~= was);
        proof {
            lemma_next_row(was, out@, goal, k as int);
        }
    }
    assert(views(out@) =~= goal);
    out
}

/// A face within one photo, for the in-photo overlay: its id, bounding box, and the
/// person it currently belongs to.
pub struct PhotoFace {
    pub face_id: i64,
    pub cluster_id: Option<i64>,
    pub name: Option<String>,
    pub bbox: FaceBox,
}

/// A face within one photo, mathematically.
pub struct PhotoFaceView {
    pub face_id: i64,
    pub cluster_id: Option<i64>,
    pub name: Option<Seq<char>>,
    pub bbox: FaceBox,
}

impl View for PhotoFace {
    type V = PhotoFaceView;

    open spec fn view(&self) -> PhotoFaceView {
        PhotoFaceView {
            face_id: self.face_id,
            cluster_id: self.cluster_id,
            name: opt_text(self.name),
            bbox: self.bbox,
        }
    }
}

/// A face's overlay entry.
pub open spec fn overlay(lib: LibraryView) -> spec_fn(FaceView) -> PhotoFaceView {
    |f: FaceView|
        PhotoFaceView {
            face_id: f.id,
            cluster_id: f.marks.group(),
            name: match f.marks.group() {
                Some(g) => name_of_group(lib, g),
                None => None,
            },
            bbox: f.bbox,
        }
}

/// Picks the faces of a photo that are not ignored.
pub open spec fn shown_in(photo_id: i64) -> spec_fn(FaceView) -> Option<FaceView> {
    |f: FaceView|
        if f.photo_id == photo_id && !f.marks.ignored {
            Some(f)
        } else {
            None
        }
}

/// How the faces of a photo are ranked: highest detector score first.
pub open spec fn most_certain() -> spec_fn(FaceView) -> (i128, i128, i128) {
    |f: FaceView| (f.score as i128, 0, 0)
}

/// The overlay of a photo, most certain face first.
pub open spec fn photo_overlay(lib: LibraryView, photo_id: i64) -> Seq<PhotoFaceView> {
    let all = select(lib.faces, shown_in(photo_id));
    arranged(all, all.map_values(most_certain())).map_values(overlay(lib))
}

/// The faces detected in one photo, with the person each belongs to, highest score
/// first. Ignored faces are omitted.
pub fn faces_in_photo(lib: &Library, photo_id: i64) -> (out: Vec<PhotoFace>)
    ensures
        views(out@) == photo_overlay(lib@, photo_id),
{
    let ghost faces = lib@.faces;
    let ghost want = select(faces, shown_in(photo_id));
    let mut at: Vec<usize> = Vec::new();
    let mut keys: Vec<(i128, i128, i128)> = Vec::new();
    for i in 0..lib.faces.len()
        invariant
            faces == lib@.faces,
            at@.len() == select(faces.take(i as int), shown_in(photo_id)).len(),
            forall|k: int|
                0 <= k < at@.len() ==> (#[trigger] at@[k]) < faces.len() && faces[at@[k] as int]
                    == select(faces.take(i as int), shown_in(photo_id))[k],
            keys@ == select(faces.take(i as int), shown_in(photo_id)).map_values(most_certain()),
    {
        assert(faces.take(i + 1).drop_last() == faces.take(i as int));
        let face = &lib.faces[i];
        assert(faces[i as int] == face@);
        if face.photo_id == photo_id && !face.marks.ignored {
            at.push(i);
            keys.push((face.score as i128, 0, 0));
            assert(keys@ =~= select(faces.take(i + 1), shown_in(photo_id)).map_values(
                most_certain(),
            ));
        }
    }
    assert(faces.take(faces.len() as int) == faces);
    let order = sort_order(&keys);
    let mut out: Vec<PhotoFace> = Vec::with_capacity(order.len());
    let ghost goal = photo_overlay(lib@, photo_id);
    for k in 0..order.len()
        invariant
            faces == lib@.faces,
            want == select(faces, shown_in(photo_id)),
            at@.len() == want.len(),
            forall|k: int|
                0 <= k < at@.len() ==> (#[trigger] at@[k]) < faces.len() && faces[at@[k] as int]
                    == want[k],
            keys@ == want.map_values(most_certain()),
            is_order(keys@, order@),
            order@ == order_of(keys@),
            goal == arranged(want, keys@).map_values(overlay(lib@)),
            views(out@) == goal.take(k as int),
    {
        assert(order@[k as int] < keys@.len());
        let j: usize = order[k];
        assert(at@[j as int] < faces.len());
        let face = &lib.faces[at[j]];
        assert(faces[at@[j as int] as int] == face@);
        let group = face.marks.display_group();
        let name = match group {
            Some(g) => group_name(lib, g),
            None => None,
        };
        let ghost was = out@;
        out.push(PhotoFace { face_id: face.id, cluster_id: group, name, bbox: face.bbox });
        assert(goal[k as int] == overlay(lib@)(want[j as int]));
        assert(out@.drop_last() =~= was);
        proof {
            lemma_next_row(was, out@, goal, k as int);
        }
    }
    assert(views(out@) =~= goal);
    out
}

/// Picks the faces of a group in the listed photos.
pub open spec fn grouped_in(group: i64, photos: Seq<i64>) -> spec_fn(FaceView) -> Option<i64> {
    |f: FaceView|
        if f.marks.group() == Some(group) && photos.contains(f.photo_id) {
            Some(f.id)
        } else {
            None
        }
}

/// The face ids belonging to the group within any of the photos: resolves a multi-
/// selection (one cell per photo) to the actual faces to act on.
pub fn face_ids_in_photos_for_cluster(lib: &Library, photo_ids: &Vec<i64>, cluster_id: i64) -> (out:
    Vec<i64>)
    ensures
        out@ == select(lib@.faces, grouped_in(cluster_id, photo_ids@)),
{
    let pick = |f: &Face| -> (b: Option<i64>)
        ensures
            b == grouped_in(cluster_id, photo_ids@)(f@),
        {
            if f.marks.display_group() == Some(cluster_id) && holds(photo_ids, f.photo_id) {
                Some(f.id)
            } else {
                None
            }
        };
    pick_faces(lib, pick, Ghost(grouped_in(cluster_id, photo_ids@)))
}

} // verus!
