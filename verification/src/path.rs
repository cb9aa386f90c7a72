//! Short forms of long paths.
use crate::text::{
    byte_len, law_split_joins_back, lemma_split_first, lemma_split_last, lemma_split_pieces, split,
    split_at_each, views,
};
use vstd::prelude::*;
use vstd::utf8::encode_utf8;

verus! {

/// `first/.../parent/name`.
pub open spec fn elided(first: Seq<char>, parent: Seq<char>, name: Seq<char>) -> Seq<char> {
    first + "/.../"@ + parent + "/"@ + name
}

/// A path as it is shown: whole where it takes up to fifty bytes or has up to three
/// components, else its first component and its last two.
pub open spec fn compact(path: Seq<char>) -> Seq<char> {
    let parts = split(path, '/');
    let n = parts.len();
    if byte_len(path) <= 50 || n <= 3 {
        path
    } else {
        elided(parts[0], parts[n - 2], parts[n - 1])
    }
}

/// Shortens a long path.
pub fn compact_path(path: &str) -> (r: String)
    ensures
        r@ == compact(path@),
{
    if path.as_bytes().len() <= 50 {
        return path.to_string();
    }
    let parts = split_at_each(path, '/');
    let n: usize = parts.len();
    if n <= 3 {
        return path.to_string();
    }
    assert(views(parts@)[0] == parts@[0]@);
    assert(views(parts@)[n - 2] == parts@[n - 2]@);
    assert(views(parts@)[n - 1] == parts@[n - 1]@);
    let mut r = String::new();
    r.append(parts[0].as_str());
    r.append("/.../");
    r.append(parts[n - 2].as_str());
    r.append("/");
    r.append(parts[n - 1].as_str());
    assert(r@ =~= elided(parts@[0]@, parts@[n - 2]@, parts@[n - 1]@));
    r
}

/// A shortened path keeps its first component and its last two, in four components.
pub proof fn law_compact_components(path: Seq<char>)
    ensures
        compact(path) != path ==> ({
            let before = split(path, '/');
            let n = before.len();
            split(compact(path), '/') == seq![before[0], "..."@, before[n - 2], before[n - 1]]
        }),
{
    let parts = split(path, '/');
    let n = parts.len();
    lemma_split_pieces(path, '/');
    if n > 3 {
        lemma_elided_components(parts[0], parts[n - 2], parts[n - 1]);
    }
}

/// Shortening a path a second time changes nothing.
pub proof fn law_compact_idempotent(path: Seq<char>)
    ensures
        compact(compact(path)) == compact(path),
{
    law_compact_components(path);
}

proof fn lemma_elided_components(first: Seq<char>, parent: Seq<char>, name: Seq<char>)
    requires
        !first.contains('/'),
        !parent.contains('/'),
        !name.contains('/'),
    ensures
        split(elided(first, parent, name), '/') == seq![first, "..."@, parent, name],
{
    reveal_strlit("/.../");
    reveal_strlit("...");
    reveal_strlit("/");
    let dots = "..."@;
    let tail = parent + seq!['/'] + name;
    let middle = dots + seq!['/'] + tail;
    assert(!dots.contains('/'));
    assert(elided(first, parent, name) =~= first + seq!['/'] + middle);
    lemma_split_first(first, '/', middle);
    lemma_split_first(dots, '/', tail);
    lemma_split_first(parent, '/', name);
    lemma_split_last(name, '/');
    assert(split(elided(first, parent, name), '/') =~= seq![first, dots, parent, name]);
}

/// A path is shortened just where it takes more than fifty bytes and has more than two slashes;
/// any other is shown as it is.
pub proof fn law_compact_long_paths_only(path: Seq<char>)
    ensures
        ({
            let parts = split(path, '/');
            let n = parts.len();
            if encode_utf8(path).len() <= 50 || path.to_multiset().count('/') <= 2 {
                compact(path) == path
            } else {
                split(compact(path), '/') == seq![parts[0], "..."@, parts[n - 2], parts[n - 1]]
            }
        }),
{
    let parts = split(path, '/');
    let n = parts.len();
    law_split_joins_back(path, '/');
    if n > 3 {
        lemma_elided_components(parts[0], parts[n - 2], parts[n - 1]);
    }
}

} // verus!
