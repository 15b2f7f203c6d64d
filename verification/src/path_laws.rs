//! What a path says, said of its folder and its name.

use vstd::prelude::*;

use crate::capture::integer_value;
use crate::images::is_heic;
use crate::paths::{
    cached, extension_in, is_hidden_part, is_hidden_path, joined, last_dot, law_ids_read_back,
    lemma_decimal, lemma_last_part, lemma_no_slash, lemma_parts_nonempty, name_in, parts,
    path_matters, requested, supported, Picture,
};
use crate::text::{decimal, integer, lower, lowered};

verus! {

/// The parts of a path below a folder are the folder's, and the name.
pub proof fn lemma_parts_push(dir: Seq<char>, name: Seq<char>)
    requires
        !name.contains('/'),
    ensures
        parts(dir.push('/') + name) == parts(dir).push(name),
    decreases name.len(),
{
    let s = dir.push('/') + name;
    if name.len() == 0 {
        assert(s =~= dir.push('/'));
        assert(s.drop_last() =~= dir);
        assert(name =~= Seq::empty());
    } else {
        let front = name.drop_last();
        assert(!front.contains('/')) by {
            if front.contains('/') {
                let k = choose|k: int| 0 <= k < front.len() && front[k] == '/';
                assert(name[k] == '/');
            }
        }
        lemma_parts_push(dir, front);
        assert(s.drop_last() =~= dir.push('/') + front);
        assert(s.last() == name.last());
        assert(name.last() != '/') by {
            assert(name[name.len() - 1] == name.last());
        }
        let rest = parts(dir).push(front);
        assert(rest.drop_last() =~= parts(dir));
        assert(front.push(name.last()) =~= name);
    }
}

proof fn lemma_one_part(name: Seq<char>)
    requires
        !name.contains('/'),
    ensures
        parts(name) == seq![name],
    decreases name.len(),
{
    if name.len() > 0 {
        let front = name.drop_last();
        assert(!front.contains('/')) by {
            if front.contains('/') {
                let k = choose|k: int| 0 <= k < front.len() && front[k] == '/';
                assert(name[k] == '/');
            }
        }
        lemma_one_part(front);
        assert(name.last() != '/') by {
            assert(name[name.len() - 1] == name.last());
        }
        assert(front.push(name.last()) =~= name);
        assert(parts(name) =~= seq![name]);
    } else {
        assert(name =~= Seq::empty());
        assert(parts(name) =~= seq![name]);
    }
}

/// **The name of a file is what follows the last slash.**
pub proof fn law_file_names(dir: Seq<char>, name: Seq<char>)
    requires
        !name.contains('/'),
        name.len() > 0,
        name != seq!['.'],
        name != seq!['.', '.'],
    ensures
        name_in(dir.push('/') + name) == Some(name),
        name_in(name) == Some(name),
{
    lemma_parts_push(dir, name);
    lemma_one_part(name);
    let all = parts(dir).push(name);
    assert(all.last() == name);
    assert(seq![name].last() == name);
}

proof fn lemma_last_dot(stem: Seq<char>, ext: Seq<char>)
    requires
        !ext.contains('.'),
    ensures
        last_dot(stem.push('.') + ext) == stem.len(),
    decreases ext.len(),
{
    let s = stem.push('.') + ext;
    if ext.len() == 0 {
        assert(s =~= stem.push('.'));
    } else {
        let front = ext.drop_last();
        assert(!front.contains('.')) by {
            if front.contains('.') {
                let k = choose|k: int| 0 <= k < front.len() && front[k] == '.';
                assert(ext[k] == '.');
            }
        }
        lemma_last_dot(stem, front);
        assert(s.drop_last() =~= stem.push('.') + front);
        assert(ext[ext.len() - 1] == ext.last());
    }
}

proof fn lemma_no_dot(name: Seq<char>)
    requires
        !name.contains('.'),
    ensures
        last_dot(name) == -1,
    decreases name.len(),
{
    if name.len() > 0 {
        let front = name.drop_last();
        assert(!front.contains('.')) by {
            if front.contains('.') {
                let k = choose|k: int| 0 <= k < front.len() && front[k] == '.';
                assert(name[k] == '.');
            }
        }
        lemma_no_dot(front);
        assert(name[name.len() - 1] == name.last());
    }
}

/// **The extension is what follows the last dot of the name.** A name without a dot has none.
pub proof fn law_extensions(dir: Seq<char>, stem: Seq<char>, ext: Seq<char>)
    requires
        !stem.contains('/'),
        !ext.contains('/'),
        !ext.contains('.'),
        stem.len() > 0,
        ext.len() > 0,
    ensures
        extension_in(dir.push('/') + (stem.push('.') + ext)) == Some(ext),
        !stem.contains('.') ==> extension_in(dir.push('/') + stem) is None,
{
    let name = stem.push('.') + ext;
    assert(!name.contains('/')) by {
        if name.contains('/') {
            let k = choose|k: int| 0 <= k < name.len() && name[k] == '/';
            if k < stem.len() {
                assert(stem[k] == '/');
            } else if k > stem.len() {
                assert(ext[k - stem.len() - 1] == '/');
            }
        }
    }
    assert(name.len() >= 3);
    law_file_names(dir, name);
    lemma_last_dot(stem, ext);
    assert(name.skip(stem.len() as int + 1) =~= ext);
    if !stem.contains('.') {
        if stem == seq!['.'] {
            assert(stem[0] == '.');
        }
        if stem == seq!['.', '.'] {
            assert(stem[0] == '.');
        }
        law_file_names(dir, stem);
        lemma_no_dot(stem);
    }
}

/// The letters are the same but for case.
pub open spec fn same_letters(a: Seq<char>, b: Seq<char>) -> bool {
    a.len() == b.len() && forall|k: int| 0 <= k < a.len() ==> lower(#[trigger] a[k]) == lower(b[k])
}

/// Letters are the same but for case exactly if they are the same in small letters.
pub proof fn lemma_same_letters(a: Seq<char>, b: Seq<char>)
    ensures
        (lowered(a) == lowered(b)) <==> same_letters(a, b),
{
    if lowered(a) == lowered(b) {
        assert(lowered(a).len() == a.len() && lowered(b).len() == b.len());
        assert forall|k: int| 0 <= k < a.len() implies lower(#[trigger] a[k]) == lower(b[k]) by {
            assert(lowered(a)[k] == lowered(b)[k]);
        }
    }
    if same_letters(a, b) {
        assert(lowered(a) =~= lowered(b)) by {
            assert forall|k: int| 0 <= k < a.len() implies lowered(a)[k] == lowered(b)[k] by {
                assert(lower(a[k]) == lower(b[k]));
            }
        }
    }
}

/// An extension of a picture, in small letters.
pub open spec fn picture_extension(e: Seq<char>) -> bool {
    ||| same_letters(e, seq!['j', 'p', 'g'])
    ||| same_letters(e, seq!['j', 'p', 'e', 'g'])
    ||| same_letters(e, seq!['p', 'n', 'g'])
    ||| same_letters(e, seq!['w', 'e', 'b', 'p'])
    ||| same_letters(e, seq!['h', 'e', 'i', 'c'])
    ||| same_letters(e, seq!['h', 'e', 'i', 'f'])
}

/// **Pictures are told by their extension**, in small letters or capitals: JPEG, PNG, WebP and
/// HEIC files, and no others.
pub proof fn law_pictures_are_supported(dir: Seq<char>, stem: Seq<char>, ext: Seq<char>)
    requires
        !stem.contains('/'),
        !ext.contains('/'),
        !ext.contains('.'),
        stem.len() > 0,
        ext.len() > 0,
    ensures
        supported(dir.push('/') + (stem.push('.') + ext)) <==> picture_extension(ext),
{
    law_extensions(dir, stem, ext);
    reveal_strlit("jpg");
    reveal_strlit("jpeg");
    reveal_strlit("png");
    reveal_strlit("webp");
    reveal_strlit("heic");
    reveal_strlit("heif");
    assert("jpg"@ =~= seq!['j', 'p', 'g']);
    assert("jpeg"@ =~= seq!['j', 'p', 'e', 'g']);
    assert("png"@ =~= seq!['p', 'n', 'g']);
    assert("webp"@ =~= seq!['w', 'e', 'b', 'p']);
    assert("heic"@ =~= seq!['h', 'e', 'i', 'c']);
    assert("heif"@ =~= seq!['h', 'e', 'i', 'f']);
    lemma_same_letters(ext, "jpg"@);
    lemma_same_letters(ext, "jpeg"@);
    lemma_same_letters(ext, "png"@);
    lemma_same_letters(ext, "webp"@);
    lemma_same_letters(ext, "heic"@);
    lemma_same_letters(ext, "heif"@);
}

/// **A HEIC file is told by its extension, unless it is a JPEG after all.**
pub proof fn law_heic_files(dir: Seq<char>, stem: Seq<char>, ext: Seq<char>, bytes: Seq<u8>)
    requires
        !stem.contains('/'),
        !ext.contains('/'),
        !ext.contains('.'),
        stem.len() > 0,
        ext.len() > 0,
    ensures
        is_heic(dir.push('/') + (stem.push('.') + ext), bytes) <==> (same_letters(
            ext,
            seq!['h', 'e', 'i', 'c'],
        ) || same_letters(ext, seq!['h', 'e', 'i', 'f'])) && !(bytes.len() >= 2 && bytes[0] == 255
            && bytes[1] == 216),
{
    law_extensions(dir, stem, ext);
    reveal_strlit("heic");
    reveal_strlit("heif");
    assert("heic"@ =~= seq!['h', 'e', 'i', 'c']);
    assert("heif"@ =~= seq!['h', 'e', 'i', 'f']);
    lemma_same_letters(ext, "heic"@);
    lemma_same_letters(ext, "heif"@);
}

/// **What is hidden hides what is below it.** A path is hidden if its folder is, or if its name
/// starts with a dot.
pub proof fn law_hidden_paths(dir: Seq<char>, name: Seq<char>)
    requires
        !name.contains('/'),
    ensures
        is_hidden_path(dir.push('/') + name) <==> is_hidden_path(dir) || (name.len() > 1 && name[0]
            == '.'),
        is_hidden_path(name) <==> name.len() > 0 && name[0] == '.',
{
    lemma_parts_push(dir, name);
    lemma_one_part(name);
    let path = dir.push('/') + name;
    let all = parts(path);
    let n = parts(dir).len() as int;
    lemma_parts_nonempty(dir);
    if is_hidden_path(path) {
        let i = choose|i: int| 0 <= i < all.len() && is_hidden_part(#[trigger] all[i], i == 0);
        if i < n {
            assert(parts(dir)[i] == all[i]);
        } else {
            assert(all[i] == name);
        }
    }
    if is_hidden_path(dir) {
        let i = choose|i: int|
            0 <= i < n && is_hidden_part(#[trigger] parts(dir)[i], i == 0);
        assert(all[i] == parts(dir)[i]);
    }
    if name.len() > 1 && name[0] == '.' {
        assert(all[n] == name);
    }
    assert(parts(name)[0] == name);
    if name.len() > 0 && name[0] == '.' {
        assert(is_hidden_part(parts(name)[0], true));
    }
}

/// **A change matters if it may concern a picture.** Hidden paths never do. A picture does; and,
/// where something was created, removed or renamed, so does what has no extension: it may be
/// a folder.
pub proof fn law_changes_that_matter(structural: bool, path: Seq<char>)
    ensures
        is_hidden_path(path) ==> !path_matters(structural, path),
        !is_hidden_path(path) && supported(path) ==> path_matters(structural, path),
        !is_hidden_path(path) && !supported(path) ==> (path_matters(structural, path)
            <==> structural && extension_in(path) is None),
{
}

/// **A cached picture lies in the folder of its thousand.**
pub proof fn law_cached_pictures(dir: Seq<char>, id: int)
    requires
        dir.len() > 0,
        dir.last() != '/',
        0 <= id,
    ensures
        cached(dir, id) == dir + seq!['/'] + decimal((id / 1000) as nat) + seq!['/'] + decimal(
            id as nat,
        ) + seq!['.', 'j', 'p', 'g'],
{
    reveal_strlit(".jpg");
    assert(".jpg"@ =~= seq!['.', 'j', 'p', 'g']);
    let b = decimal((id / 1000) as nat);
    lemma_decimal((id / 1000) as nat);
    let inner = joined(dir, b);
    assert(inner =~= dir + seq!['/'] + b);
    assert(b.len() > 0);
    assert(inner.last() == b.last());
    assert(b[b.len() - 1] == b.last());
    assert('0' <= b.last() <= '9');
    assert(cached(dir, id) =~= dir + seq!['/'] + b + seq!['/'] + decimal(id as nat) + seq![
        '.',
        'j',
        'p',
        'g',
    ]);
}

/// **A request names a picture by its id.** An id alone is a thumbnail's, one below `preview` a
/// preview's, one below `face` a face's; what ends in no number is no request.
pub proof fn law_requests(id: i64, full: Seq<char>)
    ensures
        requested(integer(id as int)) == Some(Picture::Thumb(id)),
        requested(seq!['p', 'r', 'e', 'v', 'i', 'e', 'w', '/'] + integer(id as int)) == Some(
            Picture::Preview(id),
        ),
        requested(seq!['f', 'a', 'c', 'e', '/'] + integer(id as int)) == Some(Picture::Face(id)),
        integer_value(parts(full).last()) is None ==> requested(full) is None,
{
    reveal_strlit("face/");
    reveal_strlit("preview/");
    let text = integer(id as int);
    lemma_no_slash(id);
    law_ids_read_back(id);
    let (face, preview) = (seq!['f', 'a', 'c', 'e', '/'], seq![
        'p',
        'r',
        'e',
        'v',
        'i',
        'e',
        'w',
        '/',
    ]);
    assert("face/"@ =~= face);
    assert("preview/"@ =~= preview);
    lemma_last_part(Seq::empty(), text);
    assert(Seq::<char>::empty() + text =~= text);
    lemma_last_part(face, text);
    lemma_last_part(preview, text);
    assert(face.is_prefix_of(face + text)) by {
        assert((face + text).take(5) =~= face);
    }
    assert(preview.is_prefix_of(preview + text)) by {
        assert((preview + text).take(8) =~= preview);
    }
    assert(!face.is_prefix_of(preview + text)) by {
        assert((preview + text)[0] == 'p');
        assert(face[0] == 'f');
    }
    assert(!face.is_prefix_of(text)) by {
        if face.is_prefix_of(text) {
            assert(text[4] == face[4]);
            assert(text.contains('/'));
        }
    }
    assert(!preview.is_prefix_of(text)) by {
        if preview.is_prefix_of(text) {
            assert(text[7] == preview[7]);
            assert(text.contains('/'));
        }
    }
}

/// **A number is digits, with a sign at most.** A text with anything else in it is none.
pub proof fn law_numbers_are_digits(s: Seq<char>, k: int)
    requires
        0 <= k < s.len(),
        !('0' <= s[k] <= '9'),
        k > 0 || (s[0] != '-' && s[0] != '+'),
    ensures
        integer_value(s) is None,
        integer_value(Seq::empty()) is None,
{
    let signed = s[0] == '-' || s[0] == '+';
    if signed {
        assert(s.skip(1)[k - 1] == s[k]);
    }
}

} // verus!
