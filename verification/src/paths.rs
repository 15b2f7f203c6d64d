//! Paths: where cached pictures live, and what a path says about its file.
//!
//! A path is a text whose parts are separated by slashes.

use vstd::prelude::*;

use crate::capture::{all_digits, digits_value, integer_value, parse_integer};
use crate::rows::views;
use crate::text::{chars_of, decimal, digit, integer, integer_text, lowered, same_lower};

verus! {

/// The parts of a text between slashes; some may be empty.
pub open spec fn parts(s: Seq<char>) -> Seq<Seq<char>>
    decreases s.len(),
{
    if s.len() == 0 {
        seq![Seq::empty()]
    } else {
        let rest = parts(s.drop_last());
        if s.last() == '/' {
            rest.push(Seq::empty())
        } else {
            rest.drop_last().push(rest.last().push(s.last()))
        }
    }
}

pub proof fn lemma_parts_nonempty(s: Seq<char>)
    ensures
        parts(s).len() >= 1,
    decreases s.len(),
{
    if s.len() > 0 {
        lemma_parts_nonempty(s.drop_last());
    }
}

/// The parts of a text between slashes.
pub fn split_path(s: &str) -> (out: Vec<Vec<char>>)
    ensures
        views(out@) == parts(s@),
        out@.len() >= 1,
{
    let chars = chars_of(s);
    let mut out: Vec<Vec<char>> = Vec::new();
    let mut part: Vec<char> = Vec::new();
    let n: usize = chars.len();
    assert(chars@.take(0) =~= Seq::<char>::empty());
    assert(views(out@).push(part@) =~= seq![Seq::<char>::empty()]);
    for i in 0..n
        invariant
            n == chars@.len(),
            views(out@).push(part@) == parts(chars@.take(i as int)),
    {
        let ghost (held, now) = (views(out@), part@);
        assert(chars@.take(i + 1).drop_last() == chars@.take(i as int));
        assert(held.push(now).drop_last() =~= held);
        if chars[i] == '/' {
            out.push(part);
            part = Vec::new();
            assert(views(out@) =~= held.push(now));
            assert(part@ =~= Seq::empty());
        } else {
            part.push(chars[i]);
        }
    }
    assert(chars@.take(n as int) == chars@);
    let ghost held = views(out@);
    let ghost last = part@;
    out.push(part);
    assert(views(out@) =~= held.push(last));
    out
}

/// A part that names something: not empty, and not the directory itself.
pub open spec fn is_named_part(part: Seq<char>) -> bool {
    part.len() > 0 && part != seq!['.']
}

/// The last part that names something.
pub open spec fn last_named(parts: Seq<Seq<char>>) -> Option<Seq<char>>
    decreases parts.len(),
{
    if parts.len() == 0 {
        None
    } else if is_named_part(parts.last()) {
        Some(parts.last())
    } else {
        last_named(parts.drop_last())
    }
}

/// The name of the file at a path; none for a path that ends in `..` or names nothing.
pub open spec fn name_in(path: Seq<char>) -> Option<Seq<char>> {
    match last_named(parts(path)) {
        Some(part) => if part == seq!['.', '.'] {
            None
        } else {
            Some(part)
        },
        None => None,
    }
}

fn named_part(part: &Vec<char>) -> (r: bool)
    ensures
        r == is_named_part(part@),
{
    if part.len() == 0 {
        false
    } else if part.len() == 1 {
        assert(part@ == seq!['.'] <==> part@[0] == '.') by {
            if part@[0] == '.' {
                assert(part@ =~= seq!['.']);
            }
        }
        part[0] != '.'
    } else {
        true
    }
}

fn is_parent(part: &Vec<char>) -> (r: bool)
    ensures
        r == (part@ == seq!['.', '.']),
{
    if part.len() == 2 && part[0] == '.' && part[1] == '.' {
        assert(part@ =~= seq!['.', '.']);
        true
    } else {
        assert(seq!['.', '.'][0] == '.' && seq!['.', '.'][1] == '.');
        false
    }
}

fn name_chars(path: &str) -> (name: Option<Vec<char>>)
    ensures
        match name_in(path@) {
            Some(n) => name matches Some(c) && c@ == n,
            None => name is None,
        },
{
    let mut list = split_path(path);
    let ghost all = views(list@);
    assert(all.take(list@.len() as int) == all);
    while list.len() > 0
        invariant
            all == parts(path@),
            list@.len() <= all.len(),
            views(list@) == all.take(list@.len() as int),
            last_named(all) == last_named(all.take(list@.len() as int)),
        decreases list@.len(),
    {
        let ghost n = list@.len();
        assert(views(list@).last() == list@.last()@);
        assert(all.take(n as int).drop_last() == all.take(n - 1));
        let ghost was = list@;
        let part = list.pop().unwrap();
        assert(views(list@) =~= all.take(n - 1)) by {
            assert(list@ == was.drop_last());
            assert forall|k: int| 0 <= k < n - 1 implies views(list@)[k] == all.take(n - 1)[k] by {
                assert(views(was)[k] == all.take(n as int)[k]);
            }
        }
        if named_part(&part) {
            if is_parent(&part) {
                return None;
            }
            return Some(part);
        }
    }
    None
}

/// A text of characters.
pub fn text_of(chars: &Vec<char>) -> (t: String)
    ensures
        t@ == chars@,
{
    let mut t = "".to_owned();
    proof {
        reveal_strlit("");
    }
    assert(t@ =~= chars@.take(0));
    for i in 0..chars.len()
        invariant
            t@ == chars@.take(i as int),
    {
        assert(chars@.take(i + 1) =~= chars@.take(i as int).push(chars@[i as int]));
        t.push(chars[i]);
    }
    assert(chars@.take(chars@.len() as int) == chars@);
    t
}

/// The name of the file at a path.
pub fn file_name(path: &str) -> (name: Option<String>)
    ensures
        match name_in(path@) {
            Some(n) => name matches Some(t) && t@ == n,
            None => name is None,
        },
{
    match name_chars(path) {
        Some(chars) => Some(text_of(&chars)),
        None => None,
    }
}

/// Where the last dot of a name is; `-1` if it has none.
pub open spec fn last_dot(name: Seq<char>) -> int
    decreases name.len(),
{
    if name.len() == 0 {
        -1
    } else if name.last() == '.' {
        name.len() - 1
    } else {
        last_dot(name.drop_last())
    }
}

/// The extension of the file at a path: what follows the last dot of its name, unless the
/// name starts with it.
pub open spec fn extension_in(path: Seq<char>) -> Option<Seq<char>> {
    match name_in(path) {
        Some(name) => if last_dot(name) <= 0 {
            None
        } else {
            Some(name.skip(last_dot(name) + 1))
        },
        None => None,
    }
}

/// The extension of the file at a path.
pub fn extension(path: &str) -> (ext: Option<String>)
    ensures
        match extension_in(path@) {
            Some(e) => ext matches Some(t) && t@ == e,
            None => ext is None,
        },
{
    let name = match name_chars(path) {
        Some(name) => name,
        None => return None,
    };
    let mut i: usize = name.len();
    assert(name@.take(i as int) == name@);
    while i > 0
        invariant
            i <= name@.len(),
            name_in(path@) == Some(name@),
            last_dot(name@) == last_dot(name@.take(i as int)),
        decreases i,
    {
        i = i - 1;
        assert(name@.take(i + 1).drop_last() == name@.take(i as int));
        assert(name@.take(i + 1).last() == name@[i as int]);
        if name[i] == '.' {
            if i == 0 {
                return None;
            }
            let mut ext: Vec<char> = Vec::new();
            for k in i + 1..name.len()
                invariant
                    i < name@.len(),
                    ext@ == name@.subrange(i + 1, k as int),
            {
                ext.push(name[k]);
                assert(ext@ =~= name@.subrange(i + 1, k + 1));
            }
            assert(ext@ =~= name@.skip(i + 1));
            return Some(text_of(&ext));
        }
    }
    None
}

/// An extension of the formats that are supported. Raw files and video are out of scope.
pub open spec fn supported_extension(ext: Seq<char>) -> bool {
    let e = lowered(ext);
    ||| e == lowered("jpg"@)
    ||| e == lowered("jpeg"@)
    ||| e == lowered("png"@)
    ||| e == lowered("webp"@)
    ||| e == lowered("heic"@)
    ||| e == lowered("heif"@)
}

/// A file of a supported format, by its extension.
pub open spec fn supported(path: Seq<char>) -> bool {
    extension_in(path) matches Some(e) && supported_extension(e)
}

/// Whether the file at a path is of a supported format.
pub fn is_supported(path: &str) -> (r: bool)
    ensures
        r == supported(path@),
{
    match extension(path) {
        Some(ext) => {
            let e = ext.as_str();
            same_lower(e, "jpg") || same_lower(e, "jpeg") || same_lower(e, "png") || same_lower(
                e,
                "webp",
            ) || same_lower(e, "heic") || same_lower(e, "heif")
        },
        None => false,
    }
}

/// The part starts with a dot. (A lone dot stands for the directory itself, and counts at
/// the start of the path only.)
pub open spec fn is_hidden_part(part: Seq<char>, first: bool) -> bool {
    part.len() > 0 && part[0] == '.' && (part.len() > 1 || first)
}

/// Some part of the path is hidden.
pub open spec fn is_hidden_path(path: Seq<char>) -> bool {
    exists|i: int|
        0 <= i < parts(path).len() && is_hidden_part(#[trigger] parts(path)[i], i == 0)
}

fn hidden_path(path: &str) -> (r: bool)
    ensures
        r == is_hidden_path(path@),
{
    let list = split_path(path);
    let ghost all = parts(path@);
    for i in 0..list.len()
        invariant
            all == views(list@),
            all == parts(path@),
            forall|k: int| 0 <= k < i ==> !is_hidden_part(#[trigger] all[k], k == 0),
    {
        assert(all[i as int] == list@[i as int]@);
        let part = &list[i];
        if part.len() > 0 && part[0] == '.' && (part.len() > 1 || i == 0) {
            assert(is_hidden_part(parts(path@)[i as int], i == 0));
            return true;
        }
    }
    false
}

/// A change at the path could change what the library should contain.
pub open spec fn path_matters(structural: bool, path: Seq<char>) -> bool {
    &&& !is_hidden_path(path)
    &&& supported(path) || (structural && extension_in(path) is None)
}

/// Whether a filesystem event could change what the library should contain: a supported
/// image was touched, or something structural (create, remove, rename) happened to what may
/// be a folder. Dot-hidden paths are ignored.
pub fn event_touches_photos(structural: bool, paths: &Vec<String>) -> (r: bool)
    ensures
        r == exists|i: int| 0 <= i < paths@.len() && path_matters(structural, #[trigger] paths@[i]@),
{
    for i in 0..paths.len()
        invariant
            forall|k: int| 0 <= k < i ==> !path_matters(structural, #[trigger] paths@[k]@),
    {
        let p = paths[i].as_str();
        if !hidden_path(p) && (is_supported(p) || (structural && extension(p).is_none())) {
            assert(path_matters(structural, paths@[i as int]@));
            return true;
        }
    }
    false
}

/// A name below a directory.
pub open spec fn joined(dir: Seq<char>, name: Seq<char>) -> Seq<char> {
    if dir.len() == 0 || dir.last() == '/' {
        dir + name
    } else {
        dir.push('/') + name
    }
}

fn join(dir: &str, name: &str) -> (path: String)
    ensures
        path@ == joined(dir@, name@),
{
    let mut path = dir.to_owned();
    let n: usize = dir.unicode_len();
    if n > 0 && dir.get_char(n - 1) != '/' {
        path.push('/');
    }
    path.append(name);
    path
}

/// The cached file of an id: below the directory of its thousand.
pub open spec fn cached(dir: Seq<char>, id: int) -> Seq<char> {
    let bucket = if id < 0 {
        -((-id) / 1000)
    } else {
        id / 1000
    };
    joined(joined(dir, integer(bucket)), integer(id) + ".jpg"@)
}

fn cached_path(dir: &str, id: i64) -> (path: String)
    ensures
        path@ == cached(dir@, id as int),
{
    let bucket: i64 = if id < 0 {
        (-((-(id as i128)) / 1000)) as i64
    } else {
        id / 1000
    };
    let mut name = integer_text(id);
    name.append(".jpg");
    join(join(dir, integer_text(bucket).as_str()).as_str(), name.as_str())
}

/// Where a photo's cached thumbnail lives. Derived from the id alone, and bucketed by
/// thousands to keep each directory small.
pub fn thumb_path(cache_dir: &str, id: i64) -> (path: String)
    ensures
        path@ == cached(cache_dir@, id as int),
{
    cached_path(cache_dir, id)
}

/// Where a photo's cached preview lives.
pub fn preview_path(preview_dir: &str, id: i64) -> (path: String)
    ensures
        path@ == cached(preview_dir@, id as int),
{
    cached_path(preview_dir, id)
}

/// Where a face's cached cover crop lives, bucketed by id like thumbnails.
pub fn face_crop_path(faces_dir: &str, face_id: i64) -> (path: String)
    ensures
        path@ == cached(faces_dir@, face_id as int),
{
    cached_path(faces_dir, face_id)
}

/// What a `thumb://` request asks for.
#[derive(Clone, Copy, PartialEq, Eq, Structural, Debug)]
pub enum Picture {
    /// A cached grid thumbnail.
    Thumb(i64),
    /// A viewer preview.
    Preview(i64),
    /// A cover-face crop.
    Face(i64),
}

/// What a request asks for: `<id>`, `preview/<id>` or `face/<id>`; none without an id.
pub open spec fn requested(full: Seq<char>) -> Option<Picture> {
    match integer_value(parts(full).last()) {
        Some(id) => if "face/"@.is_prefix_of(full) {
            Some(Picture::Face(id))
        } else if "preview/"@.is_prefix_of(full) {
            Some(Picture::Preview(id))
        } else {
            Some(Picture::Thumb(id))
        },
        None => None,
    }
}

/// Whether a text starts with another.
pub fn starts_with(s: &str, prefix: &str) -> (r: bool)
    ensures
        r == prefix@.is_prefix_of(s@),
{
    let n: usize = prefix.unicode_len();
    if s.unicode_len() < n {
        return false;
    }
    for i in 0..n
        invariant
            n == prefix@.len(),
            n <= s@.len(),
            forall|k: int| 0 <= k < i ==> s@[k] == prefix@[k],
    {
        if s.get_char(i) != prefix.get_char(i) {
            assert(s@.subrange(0, n as int)[i as int] != prefix@[i as int]);
            return false;
        }
    }
    assert(s@.subrange(0, n as int) =~= prefix@);
    true
}

/// What a `thumb://` request asks for.
pub fn picture_requested(full: &str) -> (p: Option<Picture>)
    ensures
        p == requested(full@),
{
    let list = split_path(full);
    let n: usize = list.len();
    assert(views(list@).last() == list@[n - 1]@);
    match parse_integer(list[n - 1].as_slice()) {
        Some(id) => if starts_with(full, "face/") {
            Some(Picture::Face(id))
        } else if starts_with(full, "preview/") {
            Some(Picture::Preview(id))
        } else {
            Some(Picture::Thumb(id))
        },
        None => None,
    }
}

pub proof fn lemma_decimal(n: nat)
    ensures
        all_digits(decimal(n)),
        digits_value(decimal(n)) == n,
    decreases n,
{
    if n < 10 {
        let s = decimal(n);
        assert(s =~= seq![digit(n as int)]);
        assert(s.drop_last() =~= Seq::empty());
        assert(digits_value(s.drop_last()) == 0);
    } else {
        lemma_decimal(n / 10);
        let s = decimal(n);
        assert(s.drop_last() =~= decimal(n / 10));
        assert(s.last() == digit((n % 10) as int));
        assert forall|k: int| 0 <= k < s.len() implies '0' <= #[trigger] s[k] <= '9' by {
            if k < s.len() - 1 {
                assert(s[k] == decimal(n / 10)[k]);
            }
        }
    }
}

/// An id that is written out reads back.
pub proof fn law_ids_read_back(id: i64)
    ensures
        integer_value(integer(id as int)) == Some(id),
{
    let s = integer(id as int);
    if id < 0 {
        lemma_decimal((-id) as nat);
        assert(s.skip(1) =~= decimal((-id) as nat));
    } else {
        lemma_decimal(id as nat);
        assert('0' <= s[0] <= '9');
    }
}

pub proof fn lemma_no_slash(id: i64)
    ensures
        !integer(id as int).contains('/'),
{
    let d = if id < 0 {
        decimal((-id) as nat)
    } else {
        decimal(id as nat)
    };
    lemma_decimal(
        if id < 0 {
            (-id) as nat
        } else {
            id as nat
        },
    );
    assert forall|k: int| 0 <= k < integer(id as int).len() implies integer(id as int)[k] != '/' by {
        if id < 0 {
            if k > 0 {
                assert(integer(id as int)[k] == d[k - 1]);
            }
        } else {
            assert(integer(id as int)[k] == d[k]);
        }
    }
}

/// What follows the last slash is the last part.
pub proof fn lemma_last_part(dir: Seq<char>, name: Seq<char>)
    requires
        dir.len() == 0 || dir.last() == '/',
        !name.contains('/'),
    ensures
        parts(dir + name).last() == name,
    decreases name.len(),
{
    if name.len() == 0 {
        assert(dir + name =~= dir);
        if dir.len() > 0 {
            lemma_parts_nonempty(dir.drop_last());
        }
        assert(parts(dir).last() =~= name);
    } else {
        let front = name.drop_last();
        assert(!front.contains('/')) by {
            if front.contains('/') {
                let k = choose|k: int| 0 <= k < front.len() && front[k] == '/';
                assert(name[k] == '/');
            }
        }
        lemma_last_part(dir, front);
        let s = dir + name;
        assert(s.drop_last() =~= dir + front);
        assert(s.last() == name.last());
        assert(name.contains(name.last())) by {
            assert(name[name.len() - 1] == name.last());
        }
        assert(parts(s).last() =~= name);
    }
}

/// A cached file can be found from its id alone: different ids live at different paths.
pub proof fn law_cached_paths_differ(dir: Seq<char>, a: i64, b: i64)
    requires
        a != b,
    ensures
        cached(dir, a as int) != cached(dir, b as int),
{
    reveal_strlit(".jpg");
    lemma_cached_name(dir, a);
    lemma_cached_name(dir, b);
    law_ids_read_back(a);
    law_ids_read_back(b);
    let x = integer(a as int);
    let y = integer(b as int);
    if x + ".jpg"@ == y + ".jpg"@ {
        assert(x.len() == y.len());
        assert((x + ".jpg"@).take(x.len() as int) =~= x);
        assert((y + ".jpg"@).take(y.len() as int) =~= y);
    }
}

proof fn lemma_cached_name(dir: Seq<char>, id: i64)
    ensures
        parts(cached(dir, id as int)).last() == integer(id as int) + ".jpg"@,
{
    reveal_strlit(".jpg");
    lemma_no_slash(id);
    let name = integer(id as int) + ".jpg"@;
    assert forall|k: int| 0 <= k < name.len() implies name[k] != '/' by {
        let i = integer(id as int);
        if k < i.len() {
            assert(name[k] == i[k]);
            assert(i.contains(i[k]));
        }
    }
    let bucket = if id < 0 {
        -((-id) / 1000)
    } else {
        id as int / 1000
    };
    let below = joined(dir, integer(bucket));
    if below.len() == 0 || below.last() == '/' {
        lemma_last_part(below, name);
    } else {
        lemma_last_part(below.push('/'), name);
    }
}

/// Photos that share a directory are fewer than a thousand ids apart.
pub proof fn law_directories_stay_small(dir: Seq<char>, a: i64, b: i64)
    requires
        0 <= a,
        0 <= b,
        joined(dir, integer(a as int / 1000)) == joined(dir, integer(b as int / 1000)),
    ensures
        -1000 < a - b < 1000,
{
    let (p, q) = ((a / 1000) as i64, (b / 1000) as i64);
    law_ids_read_back(p);
    law_ids_read_back(q);
    let x = integer(p as int);
    let y = integer(q as int);
    let front = if dir.len() == 0 || dir.last() == '/' {
        dir
    } else {
        dir.push('/')
    };
    assert((front + x).skip(front.len() as int) =~= x);
    assert((front + y).skip(front.len() as int) =~= y);
    assert(p == q);
}

} // verus!
