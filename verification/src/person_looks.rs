//! A person's looks: appearance groups of their own faces.
//!
//! A look filters the person's photos (baby / kid / adult), or, where it matches a
//! *different* named person better, offers to move a misplaced batch out.

use vstd::prelude::*;

use crate::cluster::{contains_pair, pair};
use crate::confirmations::{anchor, confirmed_anchor_embeddings, copy_vec};
use crate::groups::{
    chronicle, dated, group_identity, identity_of_group, oldest_first, person_faces, PersonFace,
    PersonFaceView,
};
use crate::library::{identity_key, key_of, lemma_counts_fit, Library, LibraryView};
use crate::looks::{group_looks, groups_within, led, lemma_first_fit, lemma_led_within, nested};
use crate::names::{named, named_identities};
use crate::order::{
    arrange, arrange_owned, arranged, lemma_arranged_views, lemma_order_of, limit_to, limited,
};
use crate::recognition::{
    anchor_core, biggest, core_of, find_biggest, gather, lemma_led_some, members, ANCHOR_FACES,
    MIN_ANCHOR,
};
use crate::rows::{
    distinct, kept, lemma_distinct, lemma_select_len, reversed, select, views, without_repeats,
};
use crate::similarity::{cos, dot, mean_normalized, mean_unit, rows, unit_rows};
use crate::text::opt_text;

verus! {

/// Leader threshold for the fine grouping.
pub const LOOK_TAU: i128 = 500_000_000_000;

/// A genuine look needs at least this many photos.
pub const LOOK_ABS_MIN: i64 = 10;

/// Genuine looks shown, biggest first (flagged ones are never capped).
pub const MAX_LOOKS: i64 = 8;

/// A look must match another anchor at least this well to be flagged…
pub const LOOK_FLAG_ABS: i128 = 500_000_000_000;

/// …and beat its match to *this* person by this much.
pub const LOOK_FLAG_MARGIN: i128 = 80_000_000_000;

/// How many exemplars of another person a look is held against.
pub const OTHER_FACES: i64 = 48;

/// Fewer faces than this make no strip.
pub const LOOK_MIN_FACES: usize = 16;

/// One "look" of a person on their page.
pub struct PersonLook {
    /// Representative face (highest detector score in the look).
    pub cover_face_id: i64,
    /// Distinct photos in this look (drives the count and the grid filter).
    pub photos: i64,
    pub from_ts: i64,
    pub to_ts: i64,
    pub photo_ids: Vec<i64>,
    /// Set when the look matches a different named person better than this one: their
    /// name, and the group to move the batch into.
    pub likely_other_name: Option<String>,
    pub likely_other_cluster: Option<i64>,
}

/// A look, mathematically.
pub struct PersonLookView {
    pub cover_face_id: i64,
    pub photos: i64,
    pub from_ts: i64,
    pub to_ts: i64,
    pub photo_ids: Seq<i64>,
    pub likely_other_name: Option<Seq<char>>,
    pub likely_other_cluster: Option<i64>,
}

impl View for PersonLook {
    type V = PersonLookView;

    open spec fn view(&self) -> PersonLookView {
        PersonLookView {
            cover_face_id: self.cover_face_id,
            photos: self.photos,
            from_ts: self.from_ts,
            to_ts: self.to_ts,
            photo_ids: self.photo_ids@,
            likely_other_name: opt_text(self.likely_other_name),
            likely_other_cluster: self.likely_other_cluster,
        }
    }
}

/// Another person a look may be flagged as.
pub struct Other {
    pub name: String,
    pub group: i64,
    pub anchor: Vec<i32>,
}

/// Another person, mathematically.
pub struct OtherView {
    pub name: Seq<char>,
    pub group: i64,
    pub anchor: Seq<i32>,
}

impl View for Other {
    type V = OtherView;

    open spec fn view(&self) -> OtherView {
        OtherView { name: self.name@, group: self.group, anchor: self.anchor@ }
    }
}

/// The embeddings of faces.
pub open spec fn embeddings(faces: Seq<PersonFaceView>) -> Seq<Seq<i32>> {
    faces.map_values(|f: PersonFaceView| f.embedding)
}

/// The faces of a look.
pub open spec fn look_faces(faces: Seq<PersonFaceView>, group: Seq<usize>) -> Seq<PersonFaceView> {
    group.map_values(|i: usize| faces[i as int])
}

/// The photo of a face.
pub open spec fn photo_of_face() -> spec_fn(PersonFaceView) -> i64 {
    |f: PersonFaceView| f.photo_id
}

/// Ids in ascending order.
pub open spec fn ascending() -> spec_fn(i64) -> (i128, i128, i128) {
    |id: i64| (0, id as i128, 0)
}

/// The photos of a look, each once, by id.
pub open spec fn look_photos(fs: Seq<PersonFaceView>) -> Seq<i64> {
    let ids = distinct(fs.map_values(photo_of_face()));
    arranged(ids, ids.map_values(ascending()))
}

/// The earliest date among the first `n` faces.
pub open spec fn earliest(fs: Seq<PersonFaceView>, n: nat) -> i64
    decreases n,
{
    if n <= 1 {
        fs[0].ts
    } else {
        let rest = earliest(fs, (n - 1) as nat);
        if fs[n - 1].ts < rest {
            fs[n - 1].ts
        } else {
            rest
        }
    }
}

/// The latest date among the first `n` faces.
pub open spec fn latest(fs: Seq<PersonFaceView>, n: nat) -> i64
    decreases n,
{
    if n <= 1 {
        fs[0].ts
    } else {
        let rest = latest(fs, (n - 1) as nat);
        if fs[n - 1].ts > rest {
            fs[n - 1].ts
        } else {
            rest
        }
    }
}

/// The first face with the highest score among the first `n`.
pub open spec fn cover(fs: Seq<PersonFaceView>, n: nat) -> int
    decreases n,
{
    if n <= 1 {
        0
    } else {
        let best = cover(fs, (n - 1) as nat);
        if fs[n - 1].score > fs[best].score {
            n - 1
        } else {
            best
        }
    }
}

/// The look clearly matches the other person, and better than its own.
pub open spec fn mistaken(centroid: Seq<i32>, own: Seq<i32>, other: Seq<i32>) -> bool {
    dot(centroid, other) >= LOOK_FLAG_ABS && dot(centroid, other) > dot(centroid, own)
        + LOOK_FLAG_MARGIN
}

/// The other person a look matches best, among the first `n` it clearly matches.
pub open spec fn flagged_as(
    others: Seq<OtherView>,
    centroid: Seq<i32>,
    own: Seq<i32>,
    n: nat,
) -> Option<int>
    decreases n,
{
    if n == 0 {
        None
    } else {
        let best = flagged_as(others, centroid, own, (n - 1) as nat);
        let s = dot(centroid, others[n - 1].anchor);
        if mistaken(centroid, own, others[n - 1].anchor) && (best is None || s > dot(
            centroid,
            others[best->0].anchor,
        )) {
            Some(n - 1)
        } else {
            best
        }
    }
}

/// Picks the other people a look may be flagged as: named, with enough confirmed faces,
/// and not declared different from this person.
pub open spec fn flaggable(lib: LibraryView, own: Option<i64>) -> spec_fn(
    (i64, Seq<char>),
) -> Option<OtherView> {
    |n: (i64, Seq<char>)|
        {
            let a = anchor(lib.faces, n.0, OTHER_FACES as int);
            if own == Some(n.0) || (own is Some && lib.cannot_link.contains(pair(own->0, n.0)))
                || a.len() < MIN_ANCHOR {
                None
            } else {
                Some(
                    OtherView {
                        name: n.1,
                        group: identity_key(n.0),
                        anchor: mean_unit(core_of(a)),
                    },
                )
            }
        }
}

/// Everyone a look of this person may be flagged as.
pub open spec fn others_of(lib: LibraryView, own: Option<i64>) -> Seq<OtherView> {
    select(select(lib.identities, named()), flaggable(lib, own))
}

/// The person's own reference: their anchor, or their dominant look.
pub open spec fn own_reference(lib: LibraryView, group: i64, dominant: Seq<i32>) -> Seq<i32> {
    match group_identity(group) {
        Some(id) => {
            let a = anchor(lib.faces, id, ANCHOR_FACES as int);
            if a.len() == 0 {
                dominant
            } else {
                mean_unit(core_of(a))
            }
        },
        None => dominant,
    }
}

/// The centroid of a look.
pub open spec fn centroid_of(faces: Seq<PersonFaceView>) -> spec_fn(Seq<usize>) -> Seq<i32> {
    |g: Seq<usize>| mean_unit(members(embeddings(faces), g))
}

/// A look, unless it is too small to be genuine and not flagged.
pub open spec fn look_of(
    faces: Seq<PersonFaceView>,
    others: Seq<OtherView>,
    own: Seq<i32>,
) -> spec_fn(Seq<usize>) -> Option<PersonLookView> {
    |g: Seq<usize>|
        {
            let fs = look_faces(faces, g);
            let flag = flagged_as(others, centroid_of(faces)(g), own, others.len());
            let ids = look_photos(fs);
            if flag is None && ids.len() < LOOK_ABS_MIN {
                None
            } else {
                Some(
                    PersonLookView {
                        cover_face_id: fs[cover(fs, fs.len())].face_id,
                        photos: ids.len() as i64,
                        from_ts: earliest(fs, fs.len()),
                        to_ts: latest(fs, fs.len()),
                        photo_ids: ids,
                        likely_other_name: match flag {
                            Some(k) => Some(others[k].name),
                            None => None,
                        },
                        likely_other_cluster: match flag {
                            Some(k) => Some(others[k].group),
                            None => None,
                        },
                    },
                )
            }
        }
}

/// Tests for a flagged look.
pub open spec fn is_flagged() -> spec_fn(PersonLookView) -> bool {
    |l: PersonLookView| l.likely_other_name is Some
}

/// Tests for a genuine look.
pub open spec fn is_genuine() -> spec_fn(PersonLookView) -> bool {
    |l: PersonLookView| l.likely_other_name is None
}

/// How looks are ranked: biggest first.
pub open spec fn by_look_photos() -> spec_fn(PersonLookView) -> (i128, i128, i128) {
    |l: PersonLookView| (l.photos as i128, 0, 0)
}

/// Looks, biggest first.
pub open spec fn biggest_first(looks: Seq<PersonLookView>) -> Seq<PersonLookView> {
    arranged(looks, looks.map_values(by_look_photos()))
}

/// The strip: genuine looks first, capped; flagged looks last. Nothing for fewer than
/// two.
pub open spec fn strip(looks: Seq<PersonLookView>) -> Seq<PersonLookView> {
    let all = limited(biggest_first(kept(looks, is_genuine())), MAX_LOOKS as int)
        + biggest_first(kept(looks, is_flagged()));
    if all.len() < 2 {
        Seq::empty()
    } else {
        all
    }
}

/// The looks of a group.
pub open spec fn looks_of(lib: LibraryView, group: i64) -> Seq<PersonLookView> {
    let faces = chronicle(lib, group);
    if faces.len() < LOOK_MIN_FACES {
        Seq::empty()
    } else {
        let groups = led(unit_rows(embeddings(faces)), LOOK_TAU as int, faces.len());
        let dominant = centroid_of(faces)(groups[biggest(groups, groups.len())]);
        let own = own_reference(lib, group, dominant);
        let others = others_of(lib, group_identity(group));
        strip(select(groups, look_of(faces, others, own)))
    }
}

/// Everyone a look of this person may be flagged as.
fn find_others(lib: &Library, own: Option<i64>) -> (out: Vec<Other>)
    ensures
        views(out@) == others_of(lib@, own),
{
    let people = named_identities(lib);
    let ghost names = views(people@);
    let ghost pick = flaggable(lib@, own);
    let mut out: Vec<Other> = Vec::new();
    assert(views(out@) =~= select(names.take(0), pick));
    for k in 0..people.len()
        invariant
            names == views(people@),
            pick == flaggable(lib@, own),
            views(out@) == select(names.take(k as int), pick),
    {
        assert(names.take(k + 1).drop_last() == names.take(k as int));
        assert(names[k as int] == people@[k as int]@);
        let id: i64 = people[k].0;
        let skip = match own {
            Some(o) => o == id || contains_pair(&lib.cannot_link, o, id),
            None => false,
        };
        if !skip {
            let a = confirmed_anchor_embeddings(lib, id, OTHER_FACES);
            assert(a@.len() == rows(a@).len());
            if a.len() >= MIN_ANCHOR {
                let trimmed = anchor_core(a);
                out.push(
                    Other {
                        name: people[k].1.clone(),
                        group: key_of(id),
                        anchor: mean_normalized(&trimmed),
                    },
                );
            }
        }
        assert(views(out@) =~= select(names.take(k + 1), pick));
    }
    assert(names.take(names.len() as int) == names);
    out
}

/// Whether the look clearly matches the other person, and better than its own.
fn is_mistaken(s: i128, own_sim: i128) -> (r: bool)
    ensures
        r == (s >= LOOK_FLAG_ABS && s > own_sim + LOOK_FLAG_MARGIN),
{
    if own_sim > i128::MAX - LOOK_FLAG_MARGIN {
        false
    } else {
        s >= LOOK_FLAG_ABS && s > own_sim + LOOK_FLAG_MARGIN
    }
}

/// The other person a look matches best.
fn find_flag(others: &Vec<Other>, centroid: &Vec<i32>, own: &Vec<i32>) -> (flag: Option<usize>)
    ensures
        match flagged_as(views(others@), centroid@, own@, others@.len()) {
            Some(k) => flag matches Some(f) && f == k && f < others@.len(),
            None => flag is None,
        },
{
    let ghost all = views(others@);
    let own_sim: i128 = cos(centroid.as_slice(), own.as_slice());
    let mut flag: Option<usize> = None;
    let mut best: i128 = 0;
    for n in 0..others.len()
        invariant
            all == views(others@),
            own_sim == dot(centroid@, own@),
            match flagged_as(all, centroid@, own@, n as nat) {
                Some(k) => flag matches Some(f) && f == k && f < n && best == dot(
                    centroid@,
                    all[k].anchor,
                ),
                None => flag is None,
            },
    {
        assert(all[n as int] == others@[n as int]@);
        let s: i128 = cos(centroid.as_slice(), others[n].anchor.as_slice());
        if is_mistaken(s, own_sim) && (flag.is_none() || s > best) {
            flag = Some(n);
            best = s;
        }
    }
    flag
}

/// The photos of a look, each once, by id.
fn find_photos(faces: &Vec<PersonFace>, group: &Vec<usize>) -> (out: Vec<i64>)
    requires
        forall|p: int| 0 <= p < group@.len() ==> #[trigger] group@[p] < faces@.len(),
    ensures
        out@ == look_photos(look_faces(views(faces@), group@)),
        out@.len() <= group@.len(),
{
    let ghost fs = look_faces(views(faces@), group@);
    let mut all: Vec<i64> = Vec::with_capacity(group.len());
    for p in 0..group.len()
        invariant
            forall|p: int| 0 <= p < group@.len() ==> #[trigger] group@[p] < faces@.len(),
            fs == look_faces(views(faces@), group@),
            all@ == fs.map_values(photo_of_face()).take(p as int),
    {
        assert(group@[p as int] < faces@.len());
        assert(fs[p as int] == faces@[group@[p as int] as int]@);
        all.push(faces[group[p]].photo_id);
        assert(all@ =~= fs.map_values(photo_of_face()).take(p + 1));
    }
    assert(all@ =~= fs.map_values(photo_of_face()));
    proof {
        lemma_distinct(all@);
    }
    let ids = without_repeats(&all);
    let mut keys: Vec<(i128, i128, i128)> = Vec::with_capacity(ids.len());
    for k in 0..ids.len()
        invariant
            keys@ == ids@.map_values(ascending()).take(k as int),
    {
        keys.push((0, ids[k] as i128, 0));
        assert(keys@ =~= ids@.map_values(ascending()).take(k + 1));
    }
    assert(keys@ =~= ids@.map_values(ascending()));
    arrange(&ids, &keys)
}

proof fn lemma_cover(fs: Seq<PersonFaceView>, n: nat)
    requires
        1 <= n <= fs.len(),
    ensures
        0 <= cover(fs, n) < n,
    decreases n,
{
    if n > 1 {
        lemma_cover(fs, (n - 1) as nat);
    }
}

/// A look, unless it is too small to be genuine and not flagged.
fn make_look(
    faces: &Vec<PersonFace>,
    group: &Vec<usize>,
    centroid: &Vec<i32>,
    others: &Vec<Other>,
    own: &Vec<i32>,
) -> (out: Option<PersonLook>)
    requires
        group@.len() > 0,
        group@.len() <= i64::MAX,
        forall|p: int| 0 <= p < group@.len() ==> #[trigger] group@[p] < faces@.len(),
        centroid@ == centroid_of(views(faces@))(group@),
    ensures
        match look_of(views(faces@), views(others@), own@)(group@) {
            Some(l) => out matches Some(r) && r@ == l,
            None => out is None,
        },
{
    let ghost fs = look_faces(views(faces@), group@);
    let ids = find_photos(faces, group);
    let flag = find_flag(others, centroid, own);
    if flag.is_none() && (ids.len() as i64) < LOOK_ABS_MIN {
        return None;
    }
    assert(group@[0] < faces@.len());
    assert(fs[0] == faces@[group@[0] as int]@);
    let mut from_ts: i64 = faces[group[0]].ts;
    let mut to_ts: i64 = faces[group[0]].ts;
    let mut at: usize = 0;
    for n in 1..group.len()
        invariant
            group@.len() > 0,
            forall|p: int| 0 <= p < group@.len() ==> #[trigger] group@[p] < faces@.len(),
            fs == look_faces(views(faces@), group@),
            from_ts == earliest(fs, n as nat),
            to_ts == latest(fs, n as nat),
            at == cover(fs, n as nat),
            at < n,
    {
        assert(group@[n as int] < faces@.len());
        assert(group@[at as int] < faces@.len());
        assert(fs[n as int] == faces@[group@[n as int] as int]@);
        assert(fs[at as int] == faces@[group@[at as int] as int]@);
        let f = &faces[group[n]];
        if f.ts < from_ts {
            from_ts = f.ts;
        }
        if f.ts > to_ts {
            to_ts = f.ts;
        }
        if f.score > faces[group[at]].score {
            at = n;
        }
    }
    assert(group@[at as int] < faces@.len());
    assert(fs[at as int] == faces@[group@[at as int] as int]@);
    let (name, cluster) = match flag {
        Some(k) => {
            assert(views(others@)[k as int] == others@[k as int]@);
            (Some(others[k].name.clone()), Some(others[k].group))
        },
        None => (None, None),
    };
    Some(
        PersonLook {
            cover_face_id: faces[group[at]].face_id,
            photos: ids.len() as i64,
            from_ts,
            to_ts,
            photo_ids: ids,
            likely_other_name: name,
            likely_other_cluster: cluster,
        },
    )
}

/// Looks, biggest first.
fn rank_looks(looks: Vec<PersonLook>) -> (out: Vec<PersonLook>)
    ensures
        views(out@) == biggest_first(views(looks@)),
{
    let ghost all = views(looks@);
    let mut keys: Vec<(i128, i128, i128)> = Vec::with_capacity(looks.len());
    for k in 0..looks.len()
        invariant
            all == views(looks@),
            keys@ == all.map_values(by_look_photos()).take(k as int),
    {
        assert(all[k as int] == looks@[k as int]@);
        keys.push((looks[k].photos as i128, 0, 0));
        assert(keys@ =~= all.map_values(by_look_photos()).take(k + 1));
    }
    assert(keys@ =~= all.map_values(by_look_photos()));
    let ghost held = looks@;
    let out = arrange_owned(looks, &keys);
    proof {
        assert(keys.len() <= usize::MAX);
        lemma_arranged_views(held, keys@);
    }
    out
}

/// Genuine looks and flagged looks, apart.
fn part(looks: Vec<PersonLook>) -> (out: (Vec<PersonLook>, Vec<PersonLook>))
    ensures
        views(out.0@) == kept(views(looks@), is_genuine()),
        views(out.1@) == kept(views(looks@), is_flagged()),
{
    let ghost given = views(looks@);
    let mut left = looks;
    let mut genuine_back: Vec<PersonLook> = Vec::new();
    let mut flagged_back: Vec<PersonLook> = Vec::new();
    assert(views(genuine_back@).reverse() =~= Seq::<PersonLookView>::empty());
    assert(views(flagged_back@).reverse() =~= Seq::<PersonLookView>::empty());
    while left.len() > 0
        invariant
            kept(given, is_genuine()) =~= kept(views(left@), is_genuine()) + views(
                genuine_back@,
            ).reverse(),
            kept(given, is_flagged()) =~= kept(views(left@), is_flagged()) + views(
                flagged_back@,
            ).reverse(),
        decreases left@.len(),
    {
        let ghost was = views(left@);
        let ghost gb = views(genuine_back@);
        let ghost fb = views(flagged_back@);
        if let Some(l) = left.pop() {
            assert(was.drop_last() =~= views(left@));
            assert(was.last() == l@);
            if l.likely_other_name.is_some() {
                flagged_back.push(l);
                assert(views(flagged_back@) =~= fb.push(was.last()));
                assert(views(flagged_back@).reverse() =~= seq![was.last()] + fb.reverse());
            } else {
                genuine_back.push(l);
                assert(views(genuine_back@) =~= gb.push(was.last()));
                assert(views(genuine_back@).reverse() =~= seq![was.last()] + gb.reverse());
            }
        }
    }
    let ghost genuine_seq = genuine_back@;
    let ghost flagged_seq = flagged_back@;
    let genuine = reversed(genuine_back);
    let flagged = reversed(flagged_back);
    assert(views(genuine@) =~= views(genuine_seq).reverse());
    assert(views(flagged@) =~= views(flagged_seq).reverse());
    assert(views(genuine@) =~= kept(given, is_genuine()));
    assert(views(flagged@) =~= kept(given, is_flagged()));
    (genuine, flagged)
}

/// The strip of a list of looks.
fn make_strip(looks: Vec<PersonLook>) -> (out: Vec<PersonLook>)
    ensures
        views(out@) == strip(views(looks@)),
{
    let ghost all = views(looks@);
    let (genuine, flagged) = part(looks);
    let mut out = rank_looks(genuine);
    let ghost whole = out@;
    limit_to(&mut out, MAX_LOOKS);
    assert(views(out@) =~= limited(views(whole), MAX_LOOKS as int));
    let ghost head = out@;
    let mut rest = rank_looks(flagged);
    let ghost back = rest@;
    out.append(&mut rest);
    assert(views(out@) =~= views(head) + views(back));
    if out.len() < 2 {
        let none: Vec<PersonLook> = Vec::new();
        assert(views(none@) =~= strip(all));
        return none;
    }
    out
}

/// Group a person's faces into "looks" for the person page: appearance groups to filter
/// by, and, where a look matches a different confirmed person better than this one, a
/// "move the batch" repair. Empty (no strip) unless there are at least two looks worth
/// showing.
pub fn person_looks(lib: &Library, group: i64) -> (out: Vec<PersonLook>)
    requires
        lib.wf(),
    ensures
        views(out@) == looks_of(lib@, group),
{
    let faces = person_faces(lib, group);
    let ghost fv = views(faces@);
    if faces.len() < LOOK_MIN_FACES {
        let none: Vec<PersonLook> = Vec::new();
        assert(views(none@) =~= looks_of(lib@, group));
        return none;
    }
    let mut embs: Vec<Vec<i32>> = Vec::with_capacity(faces.len());
    for k in 0..faces.len()
        invariant
            fv == views(faces@),
            rows(embs@) == embeddings(fv).take(k as int),
    {
        assert(fv[k as int] == faces@[k as int]@);
        let ghost was = rows(embs@);
        let one = copy_vec(&faces[k].embedding);
        embs.push(one);
        assert(rows(embs@) =~= was.push(fv[k as int].embedding));
        assert(rows(embs@) =~= embeddings(fv).take(k + 1));
    }
    assert(rows(embs@) =~= embeddings(fv));
    assert(embs@.len() == faces@.len()) by {
        assert(rows(embs@).len() == embs@.len());
    }
    let groups = group_looks(&embs, LOOK_TAU);
    let ghost m = unit_rows(embeddings(fv));
    let ghost gv = led(m, LOOK_TAU as int, fv.len());
    proof {
        assert(faces.len() <= usize::MAX);
        lemma_led_some(m, LOOK_TAU as int, fv.len());
        lemma_led_within(m, LOOK_TAU as int, fv.len());
        assert(lib.faces.len() <= usize::MAX);
        lemma_chronicle_len(lib@, group);
        lemma_counts_fit(lib@);
        lemma_group_lens(m, LOOK_TAU as int, fv.len());
        assert(nested(groups@) == gv);
        assert(nested(groups@).len() == groups@.len());
    }
    let mut centroids: Vec<Vec<i32>> = Vec::with_capacity(groups.len());
    for k in 0..groups.len()
        invariant
            gv == nested(groups@),
            rows(embs@) == embeddings(fv),
            embs@.len() == fv.len(),
            groups_within(gv, fv.len() as int),
            centroids@.len() == k,
            forall|j: int| 0 <= j < k ==> (#[trigger] centroids@[j])@ == centroid_of(fv)(gv[j]),
    {
        assert(gv[k as int] == groups@[k as int]@);
        assert forall|p: int| 0 <= p < groups@[k as int]@.len() implies
        #[trigger] groups@[k as int]@[p] < embs@.len() by {
            assert(gv[k as int][p] < fv.len());
        }
        let own = gather(&embs, &groups[k]);
        centroids.push(mean_normalized(&own));
    }
    let at = find_biggest(&groups);
    let own_identity = identity_of_group(group);
    let own: Vec<i32> = match own_identity {
        Some(id) => {
            let a = confirmed_anchor_embeddings(lib, id, ANCHOR_FACES);
            assert(a@.len() == rows(a@).len());
            if a.len() == 0 {
                copy_vec(&centroids[at])
            } else {
                let trimmed = anchor_core(a);
                mean_normalized(&trimmed)
            }
        },
        None => copy_vec(&centroids[at]),
    };
    let others = find_others(lib, own_identity);
    let ghost pick = look_of(fv, views(others@), own@);
    let mut looks: Vec<PersonLook> = Vec::new();
    assert(views(looks@) =~= select(gv.take(0), pick));
    for k in 0..groups.len()
        invariant
            fv == views(faces@),
            gv == nested(groups@),
            fv.len() <= i64::MAX,
            groups_within(gv, fv.len() as int),
            forall|j: int| 0 <= j < gv.len() ==> (#[trigger] gv[j]).len() <= fv.len(),
            centroids@.len() == groups@.len(),
            forall|j: int|
                0 <= j < centroids@.len() ==> (#[trigger] centroids@[j])@ == centroid_of(fv)(gv[j]),
            pick == look_of(fv, views(others@), own@),
            views(looks@) == select(gv.take(k as int), pick),
    {
        assert(gv.take(k + 1).drop_last() == gv.take(k as int));
        assert(gv[k as int] == groups@[k as int]@);
        assert forall|p: int| 0 <= p < groups@[k as int]@.len() implies
        #[trigger] groups@[k as int]@[p] < faces@.len() by {
            assert(gv[k as int][p] < fv.len());
        }
        assert(centroids@[k as int]@ == centroid_of(fv)(gv[k as int]));
        let look = make_look(&faces, &groups[k], &centroids[k], &others, &own);
        if let Some(l) = look {
            looks.push(l);
        }
        assert(views(looks@) =~= select(gv.take(k + 1), pick));
    }
    assert(gv.take(gv.len() as int) == gv);
    make_strip(looks)
}

proof fn lemma_chronicle_len(lib: LibraryView, group: i64)
    requires
        lib.faces.len() <= usize::MAX,
    ensures
        chronicle(lib, group).len() <= lib.faces.len(),
{
    let pick = dated(lib.photos, group);
    lemma_select_len(lib.faces, pick);
    lemma_order_of(select(lib.faces, pick).map_values(oldest_first()));
}

/// No group holds more faces than there are.
proof fn lemma_group_lens(m: Seq<Seq<i32>>, tau: int, n: nat)
    ensures
        forall|k: int| 0 <= k < led(m, tau, n).len() ==> (#[trigger] led(m, tau, n)[k]).len() <= n,
    decreases n,
{
    if n > 0 {
        lemma_group_lens(m, tau, (n - 1) as nat);
        let was = led(m, tau, (n - 1) as nat);
        let now = led(m, tau, n);
        lemma_first_fit(m, tau, was, n - 1, 0);
        assert forall|k: int| 0 <= k < now.len() implies (#[trigger] now[k]).len() <= n by {
            if k < was.len() {
                assert(was[k].len() <= n - 1);
            }
        }
    }
}

} // verus!
