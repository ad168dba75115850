//! Rebuilding the cache index from the files found in the cache directory
//! at startup.

use vstd::prelude::*;
use crate::cache::{after_write, CacheIndex, EntryInfo};

verus! {

/// A regular file found in the cache directory: its file name, its length
/// in bytes and its modification time.
#[derive(Debug)]
pub struct StoredFile {
    pub name: String,
    pub size: u64,
    pub modified: u64,
}

/// Index of the last '.' in `s`, or -1 when there is none.
pub open spec fn last_dot(s: Seq<char>) -> int
    decreases s.len(),
{
    if s.len() == 0 {
        -1
    } else if s.last() == '.' {
        s.len() - 1
    } else {
        last_dot(s.drop_last())
    }
}

/// The stem of a file name: the name without its final extension. A name
/// with no '.', or whose only '.' leads it, is its own stem, as is "..".
pub open spec fn file_stem_of(name: Seq<char>) -> Seq<char> {
    if name == ".."@ || last_dot(name) <= 0 {
        name
    } else {
        name.take(last_dot(name))
    }
}

/// The index entries that adopting `files` in order yields; a later file
/// with the same stem replaces an earlier one.
pub open spec fn adopted(files: Seq<StoredFile>) -> Map<Seq<char>, EntryInfo>
    decreases files.len(),
{
    if files.len() == 0 {
        Map::empty()
    } else {
        let f = files.last();
        after_write(adopted(files.drop_last()), file_stem_of(f.name@), f.size, f.modified)
    }
}

/// Sum of the sizes of the listed files.
pub open spec fn listed_bytes(files: Seq<StoredFile>) -> nat
    decreases files.len(),
{
    if files.len() == 0 {
        0
    } else {
        listed_bytes(files.drop_last()) + files.last().size as nat
    }
}

fn last_dot_in(name: &str) -> (r: Option<usize>)
    ensures
        r matches Some(i) ==> i == last_dot(name@) && i < name@.len(),
        r is None ==> last_dot(name@) == -1,
{
    let mut i = name.unicode_len();
    assert(name@.take(i as int) =~= name@);
    while i > 0
        invariant
            i <= name@.len(),
            last_dot(name@) == last_dot(name@.take(i as int)),
        decreases i,
    {
        assert(name@.take(i as int).drop_last() =~= name@.take(i - 1));
        if name.get_char(i - 1) == '.' {
            return Some(i - 1);
        }
        i = i - 1;
    }
    assert(name@.take(0) =~= Seq::<char>::empty());
    None
}

/// The cache key a file in the cache directory stands for: its stem.
pub fn key_of_file(name: &str) -> (r: String)
    ensures
        r@ == file_stem_of(name@),
{
    proof {
        reveal_strlit("..");
    }
    if crate::text::same_text(name, "..") {
        return name.to_owned();
    }
    match last_dot_in(name) {
        Some(d) if d > 0 => name.substring_char(0, d).to_owned(),
        _ => name.to_owned(),
    }
}

/// Builds the index from the regular files found in the cache directory,
/// keyed by file stem, with each file's size and modification time as its
/// last access. The budget is not enforced here.
pub fn from_listing(files: &Vec<StoredFile>, max_size: u64) -> (r: CacheIndex)
    requires
        listed_bytes(files@) <= u64::MAX,
    ensures
        r.wf(),
        r@ == adopted(files@),
        r.limit() == max_size,
        r.total() <= listed_bytes(files@),
{
    let mut index = CacheIndex::new(max_size);
    let mut i: usize = 0;
    while i < files.len()
        invariant
            i <= files@.len(),
            index.wf(),
            index.limit() == max_size,
            index@ == adopted(files@.take(i as int)),
            index.total() <= listed_bytes(files@.take(i as int)),
            listed_bytes(files@) <= u64::MAX,
        decreases files@.len() - i,
    {
        proof {
            assert(files@.take(i + 1).drop_last() =~= files@.take(i as int));
            lemma_listed_prefix(files@, i + 1);
        }
        let f = &files[i];
        let key = key_of_file(f.name.as_str());
        index.write_entry(key, f.size, f.modified);
        i = i + 1;
    }
    assert(files@.take(files@.len() as int) =~= files@);
    index
}

proof fn lemma_listed_prefix(files: Seq<StoredFile>, n: int)
    requires
        0 <= n <= files.len(),
    ensures
        listed_bytes(files.take(n)) <= listed_bytes(files),
    decreases files.len(),
{
    if n < files.len() {
        assert(files.drop_last().take(n) =~= files.take(n));
        lemma_listed_prefix(files.drop_last(), n);
    } else {
        assert(files.take(n) =~= files);
    }
}

/// Startup recovery: a file found in the cache directory is indexed under
/// its stem with its own size and modification time, unless a file listed
/// after it has the same stem.
pub proof fn lemma_file_adopted(files: Seq<StoredFile>, i: int)
    requires
        0 <= i < files.len(),
        forall|j: int|
            i < j < files.len() ==> file_stem_of(#[trigger] files[j].name@) != file_stem_of(
                files[i].name@,
            ),
    ensures
        adopted(files).contains_key(file_stem_of(files[i].name@)),
        adopted(files)[file_stem_of(files[i].name@)] == (EntryInfo {
            size: files[i].size,
            last_access: files[i].modified,
        }),
    decreases files.len(),
{
    if i < files.len() - 1 {
        let p = files.drop_last();
        assert(p[i] == files[i]);
        assert forall|j: int| i < j < p.len() implies file_stem_of(#[trigger] p[j].name@)
            != file_stem_of(p[i].name@) by {
            assert(p[j] == files[j]);
        }
        lemma_file_adopted(p, i);
        assert(file_stem_of(files[files.len() - 1].name@) != file_stem_of(files[i].name@));
    }
}

} // verus!
