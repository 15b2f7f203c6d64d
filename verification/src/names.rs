//! Names of persons and of appearance clusters.

use vstd::prelude::*;

use crate::identities::{
    cluster_identity, drop_cluster_name, ensure_identity_for_cluster, ensured,
    identity_of_cluster, names_other, plurality,
};
use crate::library::{
    identities_wf, identity_key, key_of, mark_faces, Face, FaceMarks, FaceView, Identity,
    IdentityView, Library, LibraryView,
};
use crate::rows::{kept, select, views};
use crate::text::{copy_opt, lowered, opt_text, same_lower, trim, trimmed};

verus! {

/// The record of an identity.
pub open spec fn find_identity(identities: Seq<IdentityView>, id: i64) -> Option<IdentityView>
    decreases identities.len(),
{
    if identities.len() == 0 {
        None
    } else if identities.last().id == id {
        Some(identities.last())
    } else {
        find_identity(identities.drop_last(), id)
    }
}

/// The name of an identity, if it exists and has one.
pub open spec fn name_of(identities: Seq<IdentityView>, id: i64) -> Option<Seq<char>> {
    match find_identity(identities, id) {
        Some(i) => i.name,
        None => None,
    }
}

/// Where an identity stands in the list; the list's length if it does not exist.
fn position_of(identities: &Vec<Identity>, id: i64) -> (at: usize)
    ensures
        at <= identities@.len(),
        at < identities@.len() ==> find_identity(views(identities@), id) == Some(
            identities@[at as int]@,
        ) && identities@[at as int].id == id,
        at == identities@.len() ==> find_identity(views(identities@), id) is None,
{
    let ghost rows = views(identities@);
    let n: usize = identities.len();
    let mut i: usize = n;
    assert(rows.take(n as int) == rows);
    while i > 0
        invariant
            rows == views(identities@),
            n == identities@.len(),
            i <= n,
            find_identity(rows, id) == find_identity(rows.take(i as int), id),
        decreases i,
    {
        i = i - 1;
        assert(rows.take(i + 1).drop_last() == rows.take(i as int));
        assert(rows.take(i + 1).last() == identities@[i as int]@);
        if identities[i].id == id {
            return i;
        }
    }
    n
}

/// Whether an identity exists and has a name.
pub fn is_named(lib: &Library, id: i64) -> (named: bool)
    ensures
        named == (name_of(lib@.identities, id) is Some),
{
    let at = position_of(&lib.identities, id);
    if at < lib.identities.len() {
        lib.identities[at].name.is_some()
    } else {
        false
    }
}

/// Whether an identity exists without a name.
pub fn is_unnamed(lib: &Library, id: i64) -> (unnamed: bool)
    ensures
        unnamed == (find_identity(lib@.identities, id) matches Some(i) && i.name is None),
{
    let at = position_of(&lib.identities, id);
    if at < lib.identities.len() {
        lib.identities[at].name.is_none()
    } else {
        false
    }
}

/// The name of an identity.
pub fn identity_name(lib: &Library, id: i64) -> (name: Option<String>)
    ensures
        opt_text(name) == name_of(lib@.identities, id),
{
    let at = position_of(&lib.identities, id);
    if at < lib.identities.len() {
        copy_opt(&lib.identities[at].name)
    } else {
        None
    }
}

/// Gives one identity a name, or takes it away.
pub open spec fn renamed(id: i64, name: Option<Seq<char>>) -> spec_fn(IdentityView) -> IdentityView {
    |i: IdentityView|
        if i.id == id {
            IdentityView { name, ..i }
        } else {
            i
        }
}

/// The library with one identity renamed.
pub open spec fn with_identity_name(
    lib: LibraryView,
    id: i64,
    name: Option<Seq<char>>,
) -> LibraryView {
    LibraryView { identities: lib.identities.map_values(renamed(id, name)), ..lib }
}

/// Put an identity's name back, or take it away.
pub fn restore_identity_name(lib: &mut Library, identity_id: i64, name: &Option<String>)
    requires
        old(lib).wf(),
    ensures
        final(lib)@ == with_identity_name(old(lib)@, identity_id, opt_text(*name)),
        final(lib).wf(),
{
    let ghost before = lib@;
    let ghost to = opt_text(*name);
    let n: usize = lib.identities.len();
    for i in 0..n
        invariant
            n == lib.identities@.len(),
            n == before.identities.len(),
            to == opt_text(*name),
            forall|k: int|
                0 <= k < i ==> (#[trigger] lib.identities@[k])@ == renamed(identity_id, to)(
                    before.identities[k],
                ),
            forall|k: int| i <= k < n ==> (#[trigger] lib.identities@[k])@ == before.identities[k],
            lib@.photos == before.photos,
            lib@.faces == before.faces,
            lib@.roots == before.roots,
            lib@.cluster_names == before.cluster_names,
            lib@.cannot_link == before.cannot_link,
            lib@.same_photo_ok == before.same_photo_ok,
            lib@.meta == before.meta,
    {
        assert(lib.identities@[i as int]@ == before.identities[i as int]);
        if lib.identities[i].id == identity_id {
            lib.identities[i].name = copy_opt(name);
        }
    }
    assert(lib@.identities =~= before.identities.map_values(renamed(identity_id, to)));
    proof {
        lemma_renamed_wf(before.identities, identity_id, to);
    }
}

proof fn lemma_renamed_wf(identities: Seq<IdentityView>, id: i64, name: Option<Seq<char>>)
    requires
        identities_wf(identities),
    ensures
        identities_wf(identities.map_values(renamed(id, name))),
{
    let after = identities.map_values(renamed(id, name));
    assert forall|i: int| 0 <= i < after.len() implies (#[trigger] after[i]).id >= 1 by {
        assert(after[i].id == identities[i].id);
    }
    assert forall|i: int, j: int| 0 <= i < j < after.len() implies (#[trigger] after[i]).id < (
    #[trigger] after[j]).id by {
        assert(after[i].id == identities[i].id);
        assert(after[j].id == identities[j].id);
    }
}

/// Picks the identities that have a name.
pub open spec fn named() -> spec_fn(IdentityView) -> Option<(i64, Seq<char>)> {
    |i: IdentityView|
        match i.name {
            Some(name) => Some((i.id, name)),
            None => None,
        }
}

/// `(identity_id, name)` for every identity that has been given a name.
pub fn named_identities(lib: &Library) -> (out: Vec<(i64, String)>)
    ensures
        views(out@) == select(lib@.identities, named()),
{
    let ghost rows = lib@.identities;
    let mut out: Vec<(i64, String)> = Vec::new();
    assert(views(out@) =~= select(rows.take(0), named()));
    for i in 0..lib.identities.len()
        invariant
            rows == lib@.identities,
            views(out@) == select(rows.take(i as int), named()),
    {
        assert(rows.take(i + 1).drop_last() == rows.take(i as int));
        assert(rows[i as int] == lib.identities@[i as int]@);
        if let Some(name) = &lib.identities[i].name {
            out.push((lib.identities[i].id, name.clone()));
        }
        assert(views(out@) =~= select(rows.take(i + 1), named()));
    }
    assert(rows.take(rows.len() as int) == rows);
    out
}

/// The cluster has a name.
pub open spec fn has_cluster_name(names: Seq<(i64, Seq<char>)>, cluster: i64) -> bool {
    exists|i: int| 0 <= i < names.len() && (#[trigger] names[i]).0 == cluster
}

/// Replaces the name of one cluster.
pub open spec fn recluster_name(cluster: i64, name: Seq<char>) -> spec_fn((i64, Seq<char>)) -> (
    i64,
    Seq<char>,
) {
    |n: (i64, Seq<char>)|
        if n.0 == cluster {
            (cluster, name)
        } else {
            n
        }
}

/// The cluster names with one name set: replaced where the cluster has one, else added.
pub open spec fn cluster_named(names: Seq<(i64, Seq<char>)>, cluster: i64, name: Seq<char>) -> Seq<
    (i64, Seq<char>),
> {
    if has_cluster_name(names, cluster) {
        names.map_values(recluster_name(cluster, name))
    } else {
        names.push((cluster, name))
    }
}

fn set_cluster_name(lib: &mut Library, cluster_id: i64, name: &String)
    requires
        old(lib).wf(),
    ensures
        final(lib)@ == (LibraryView {
            cluster_names: cluster_named(old(lib)@.cluster_names, cluster_id, name@),
            ..old(lib)@
        }),
        final(lib).wf(),
{
    let ghost before = lib@;
    let ghost rows = before.cluster_names;
    let n: usize = lib.cluster_names.len();
    let mut found = false;
    for i in 0..n
        invariant
            n == lib.cluster_names@.len(),
            rows == before.cluster_names,
            n == rows.len(),
            forall|k: int|
                0 <= k < i ==> (#[trigger] lib.cluster_names@[k])@ == recluster_name(
                    cluster_id,
                    name@,
                )(rows[k]),
            forall|k: int| i <= k < n ==> (#[trigger] lib.cluster_names@[k])@ == rows[k],
            found <==> exists|k: int| 0 <= k < i && (#[trigger] rows[k]).0 == cluster_id,
            lib@.photos == before.photos,
            lib@.faces == before.faces,
            lib@.roots == before.roots,
            lib@.identities == before.identities,
            lib@.cannot_link == before.cannot_link,
            lib@.same_photo_ok == before.same_photo_ok,
            lib@.meta == before.meta,
    {
        assert(lib.cluster_names@[i as int]@ == rows[i as int]);
        if lib.cluster_names[i].0 == cluster_id {
            lib.cluster_names[i].1 = name.clone();
            found = true;
            assert(rows[i as int].0 == cluster_id);
        }
    }
    assert(lib@.cluster_names =~= rows.map_values(recluster_name(cluster_id, name@)));
    if !found {
        lib.cluster_names.push((cluster_id, name.clone()));
        assert(lib@.cluster_names =~= rows.push((cluster_id, name@)));
    }
}

/// The names set one after another.
pub open spec fn all_named(names: Seq<(i64, Seq<char>)>) -> Seq<(i64, Seq<char>)>
    decreases names.len(),
{
    if names.len() == 0 {
        Seq::empty()
    } else {
        cluster_named(all_named(names.drop_last()), names.last().0, names.last().1)
    }
}

/// Replace all cluster names with `(cluster_id, name)` pairs. Where a cluster is listed
/// twice, the later name holds.
pub fn replace_cluster_names(lib: &mut Library, names: &Vec<(i64, String)>)
    requires
        old(lib).wf(),
    ensures
        final(lib)@ == (LibraryView { cluster_names: all_named(views(names@)), ..old(lib)@ }),
        final(lib).wf(),
{
    let ghost before = lib@;
    let ghost given = views(names@);
    lib.cluster_names = Vec::new();
    assert(lib@.cluster_names =~= all_named(given.take(0)));
    for i in 0..names.len()
        invariant
            given == views(names@),
            lib.wf(),
            lib@ == (LibraryView { cluster_names: all_named(given.take(i as int)), ..before }),
    {
        assert(given.take(i + 1).drop_last() == given.take(i as int));
        assert(given[i as int] == names@[i as int]@);
        set_cluster_name(lib, names[i].0, &names[i].1);
    }
    assert(given.take(given.len() as int) == given);
}

/// The first cluster whose name is `name`, but for case.
pub open spec fn named_like(names: Seq<(i64, Seq<char>)>, name: Seq<char>) -> Option<i64>
    decreases names.len(),
{
    if names.len() == 0 {
        None
    } else if lowered(names[0].1) == lowered(name) {
        Some(names[0].0)
    } else {
        named_like(names.drop_first(), name)
    }
}

/// The cluster of an existing person by name (case-insensitive), if one exists, so that
/// "move to a new person" joins the real person instead of minting a duplicate.
pub fn cluster_for_name(lib: &Library, name: &str) -> (found: Option<i64>)
    ensures
        found == named_like(lib@.cluster_names, trimmed(name@)),
{
    let wanted = trim(name);
    let ghost rows = lib@.cluster_names;
    assert(rows.skip(0) == rows);
    for i in 0..lib.cluster_names.len()
        invariant
            rows == lib@.cluster_names,
            wanted@ == trimmed(name@),
            named_like(rows, wanted@) == named_like(rows.skip(i as int), wanted@),
    {
        assert(rows.skip(i as int).drop_first() == rows.skip(i + 1));
        assert(rows.skip(i as int)[0] == lib.cluster_names@[i as int]@);
        if same_lower(lib.cluster_names[i].1.as_str(), wanted.as_str()) {
            return Some(lib.cluster_names[i].0);
        }
    }
    assert(rows.skip(rows.len() as int) =~= Seq::empty());
    None
}

/// The group of an existing person by name, if one exists (see [`cluster_for_name`]).
pub fn group_for_name(lib: &Library, name: &str) -> (found: Option<i64>)
    ensures
        found == person_named(lib@.identities, trimmed(name@)),
{
    let wanted = trim(name);
    let ghost rows = lib@.identities;
    assert(rows.skip(0) == rows);
    for i in 0..lib.identities.len()
        invariant
            rows == lib@.identities,
            wanted@ == trimmed(name@),
            person_named(rows, wanted@) == person_named(rows.skip(i as int), wanted@),
    {
        assert(rows.skip(i as int).drop_first() == rows.skip(i + 1));
        assert(rows.skip(i as int)[0] == lib.identities@[i as int]@);
        if let Some(n) = &lib.identities[i].name {
            if same_lower(n.as_str(), wanted.as_str()) {
                return Some(key_of(lib.identities[i].id));
            }
        }
    }
    assert(rows.skip(rows.len() as int) =~= Seq::empty());
    None
}

/// The group of the first identity whose name is `name`, but for case.
pub open spec fn person_named(identities: Seq<IdentityView>, name: Seq<char>) -> Option<i64>
    decreases identities.len(),
{
    if identities.len() == 0 {
        None
    } else if identities[0].name is Some && lowered(identities[0].name->0) == lowered(name) {
        Some(identity_key(identities[0].id))
    } else {
        person_named(identities.drop_first(), name)
    }
}

/// The group of the person with exactly this name, if one exists.
pub fn group_called(lib: &Library, name: &str) -> (found: Option<i64>)
    ensures
        found == person_called(lib@.identities, trimmed(name@)),
{
    let wanted = trim(name);
    let ghost rows = lib@.identities;
    assert(rows.skip(0) == rows);
    for i in 0..lib.identities.len()
        invariant
            rows == lib@.identities,
            wanted@ == trimmed(name@),
            person_called(rows, wanted@) == person_called(rows.skip(i as int), wanted@),
    {
        assert(rows.skip(i as int).drop_first() == rows.skip(i + 1));
        assert(rows.skip(i as int)[0] == lib.identities@[i as int]@);
        if let Some(n) = &lib.identities[i].name {
            if *n == wanted {
                return Some(key_of(lib.identities[i].id));
            }
        }
    }
    assert(rows.skip(rows.len() as int) =~= Seq::empty());
    None
}

/// The group of the first identity whose name is exactly `name`.
pub open spec fn person_called(identities: Seq<IdentityView>, name: Seq<char>) -> Option<i64>
    decreases identities.len(),
{
    if identities.len() == 0 {
        None
    } else if identities[0].name == Some(name) {
        Some(identity_key(identities[0].id))
    } else {
        person_called(identities.drop_first(), name)
    }
}

/// Confirms the faces of the cluster that carry the identity.
pub open spec fn confirm_bound(cluster: i64, identity: i64) -> spec_fn(FaceView) -> FaceMarks {
    |f: FaceView|
        if f.marks.cluster_id == Some(cluster) && f.marks.identity_id == Some(identity) {
            FaceMarks { confirmed: true, ..f.marks }
        } else {
            f.marks
        }
}

/// The library after a cluster was named; an empty name clears it.
pub open spec fn cluster_renamed(lib: LibraryView, cluster: i64, name: Seq<char>) -> LibraryView {
    if name.len() == 0 {
        let unnamed = LibraryView {
            cluster_names: kept(lib.cluster_names, names_other(cluster)),
            ..lib
        };
        match plurality(lib.faces, cluster) {
            Some(id) => with_identity_name(unnamed, id, None),
            None => unnamed,
        }
    } else {
        let id = cluster_identity(lib, cluster);
        let named = LibraryView {
            cluster_names: cluster_named(lib.cluster_names, cluster, name),
            ..lib
        };
        with_identity_name(ensured(named, cluster), id, Some(name)).with_marks(
            confirm_bound(cluster, id),
        )
    }
}

/// Name (or rename) a cluster. An empty name clears it. Naming also confirms an
/// identity: it binds every free face in the cluster to one durable identity, stores
/// the name on that identity, and vouches for the cluster's faces that carry it.
pub fn name_cluster(lib: &mut Library, cluster_id: i64, name: &str)
    requires
        old(lib).wf(),
        old(lib)@.last_identity() < i64::MAX,
    ensures
        final(lib)@ == cluster_renamed(old(lib)@, cluster_id, trimmed(name@)),
        final(lib).wf(),
{
    let name = trim(name);
    if name.as_str().is_empty() {
        let identity = identity_of_cluster(lib, cluster_id);
        drop_cluster_name(lib, cluster_id);
        if let Some(id) = identity {
            restore_identity_name(lib, id, &None);
        }
        return;
    }
    let ghost before = lib@;
    set_cluster_name(lib, cluster_id, &name);
    let id: i64 = ensure_identity_for_cluster(lib, cluster_id);
    let given: Option<String> = Some(name);
    restore_identity_name(lib, id, &given);
    let mark = |f: &Face| -> (m: FaceMarks)
        ensures
            m == confirm_bound(cluster_id, id)(f@),
        {
            if f.marks.cluster_id == Some(cluster_id) && f.marks.identity_id == Some(id) {
                FaceMarks { confirmed: true, ..f.marks }
            } else {
                f.marks
            }
        };
    mark_faces(lib, mark, Ghost(confirm_bound(cluster_id, id)));
}

} // verus!
