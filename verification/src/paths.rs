//! Where a node keeps its data: the chunk files and the metadata database.

use vstd::prelude::*;

verus! {

/// `base` joined with `component` as `Path::join` does on Unix: an absolute
/// component replaces the base; otherwise a `/` separates the two unless the
/// base is empty or already ends in one.
pub open spec fn path_join(base: Seq<char>, component: Seq<char>) -> Seq<char> {
    if component.len() > 0 && component[0] == '/' {
        component
    } else if base.len() > 0 && base.last() != '/' {
        base + seq!['/'] + component
    } else {
        base + component
    }
}

/// Joins `component` onto `base` as `Path::join` does on Unix.
pub fn join_path(base: &str, component: &str) -> (path: String)
    ensures
        path@ == path_join(base@, component@),
{
    if !component.is_empty() && component.get_char(0) == '/' {
        return String::from_str(component);
    }
    let n = base.unicode_len();
    let mut path = String::from_str(base);
    if n > 0 && base.get_char(n - 1) != '/' {
        crate::text::push_char(&mut path, '/');
    }
    path.append(component);
    path
}

/// The directory that holds the chunk files under `base`.
pub open spec fn chunks_dir_of(base: Seq<char>) -> Seq<char> {
    path_join(base, "chunks"@)
}

/// The directory that holds the chunk files under `base`.
pub fn chunks_dir(base: &str) -> (dir: String)
    ensures
        dir@ == chunks_dir_of(base@),
{
    join_path(base, "chunks")
}

/// The file that holds the chunk `hash` under `base`.
pub fn chunk_path(base: &str, hash: &str) -> (path: String)
    ensures
        path@ == path_join(chunks_dir_of(base@), hash@),
{
    let dir = chunks_dir(base);
    join_path(dir.as_str(), hash)
}

/// The SQLite URL of the metadata database under `base`, opened read-write
/// and created when missing.
pub fn database_url_for_path(base: &str) -> (url: String)
    ensures
        url@ == "sqlite://"@ + path_join(base@, "vault.db"@) + "?mode=rwc"@,
{
    let db_path = join_path(base, "vault.db");
    let mut url = String::from_str("sqlite://");
    url.append(db_path.as_str());
    url.append("?mode=rwc");
    url
}

/// Distinct chunks get distinct files: two hashes that are not absolute paths
/// and lead to the same chunk file are the same hash.
pub proof fn lemma_chunk_paths_distinct(base: Seq<char>, h1: Seq<char>, h2: Seq<char>)
    requires
        !(h1.len() > 0 && h1[0] == '/'),
        !(h2.len() > 0 && h2[0] == '/'),
        path_join(chunks_dir_of(base), h1) == path_join(chunks_dir_of(base), h2),
    ensures
        h1 == h2,
{
    let dir = chunks_dir_of(base);
    let prefix = if dir.len() > 0 && dir.last() != '/' {
        dir + seq!['/']
    } else {
        dir
    };
    assert(path_join(dir, h1) == prefix + h1);
    assert(path_join(dir, h2) == prefix + h2);
    assert(h1 == (prefix + h1).skip(prefix.len() as int));
    assert(h2 == (prefix + h2).skip(prefix.len() as int));
}

/// A chunk whose hash is not an absolute path lies inside the chunk directory.
pub proof fn lemma_chunk_path_inside_dir(base: Seq<char>, hash: Seq<char>)
    requires
        !(hash.len() > 0 && hash[0] == '/'),
    ensures
        path_join(chunks_dir_of(base), hash).take(chunks_dir_of(base).len() as int) == chunks_dir_of(
            base,
        ),
{
    let dir = chunks_dir_of(base);
    if dir.len() > 0 && dir.last() != '/' {
        assert((dir + seq!['/'] + hash).take(dir.len() as int) == dir);
    } else {
        assert((dir + hash).take(dir.len() as int) == dir);
    }
}

} // verus!
