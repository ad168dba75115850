//! Cache keys and the files that back them.

use vstd::prelude::*;
use crate::text::{decimal, push_decimal};

verus! {

/// How one character of a free-form field is written in a key: the escape
/// character '%', the field separator '_', the path separator '/' and NUL
/// are percent-encoded; anything else stands for itself.
pub open spec fn escape_char(c: char) -> Seq<char> {
    if c == '%' {
        "%25"@
    } else if c == '_' {
        "%5F"@
    } else if c == '/' {
        "%2F"@
    } else if c == '\0' {
        "%00"@
    } else {
        seq![c]
    }
}

/// A free-form field as written in a key.
pub open spec fn escaped(s: Seq<char>) -> Seq<char>
    decreases s.len(),
{
    if s.len() == 0 {
        Seq::empty()
    } else {
        escaped(s.drop_last()) + escape_char(s.last())
    }
}

/// The cache key of a tile: satellite, time token, zoom and tile
/// coordinates, joined by underscores. The satellite and time token are
/// escaped, so the key is one file name and its fields can be told apart.
pub open spec fn key_of(sat: Seq<char>, timestamp: Seq<char>, zoom: u32, x: u32, y: u32) -> Seq<
    char,
> {
    escaped(sat) + "_"@ + escaped(timestamp) + "_"@ + decimal(zoom as nat) + "_"@ + decimal(
        x as nat,
    ) + "_"@ + decimal(y as nat)
}

/// No character that a key may not hold.
pub open spec fn plain_char(c: char) -> bool {
    c != '/' && c != '\0'
}

proof fn lemma_escape_plain(c: char)
    ensures
        forall|i: int| 0 <= i < escape_char(c).len() ==> plain_char(#[trigger] escape_char(c)[i]),
{
    reveal_strlit("%25");
    reveal_strlit("%5F");
    reveal_strlit("%2F");
    reveal_strlit("%00");
}

proof fn lemma_escaped_plain(s: Seq<char>)
    ensures
        forall|i: int| 0 <= i < escaped(s).len() ==> plain_char(#[trigger] escaped(s)[i]),
    decreases s.len(),
{
    if s.len() > 0 {
        lemma_escaped_plain(s.drop_last());
        lemma_escape_plain(s.last());
        let a = escaped(s.drop_last());
        let b = escape_char(s.last());
        assert forall|i: int| 0 <= i < escaped(s).len() implies plain_char(#[trigger] escaped(s)[i]) by {
            if i < a.len() {
                assert(escaped(s)[i] == a[i]);
            } else {
                assert(escaped(s)[i] == b[i - a.len()]);
            }
        }
    }
}

proof fn lemma_decimal_plain(n: nat)
    ensures
        forall|i: int| 0 <= i < decimal(n).len() ==> plain_char(#[trigger] decimal(n)[i]),
    decreases n,
{
    if n >= 10 {
        lemma_decimal_plain(n / 10);
        let a = decimal(n / 10);
        assert forall|i: int| 0 <= i < decimal(n).len() implies plain_char(#[trigger] decimal(n)[i]) by {
            if i < a.len() {
                assert(decimal(n)[i] == a[i]);
            }
        }
    }
}

/// A cache key is a single, non-empty file name: it holds no '/' and no
/// NUL, whatever the request held.
pub proof fn lemma_key_is_file_name(sat: Seq<char>, timestamp: Seq<char>, zoom: u32, x: u32, y: u32)
    ensures
        key_of(sat, timestamp, zoom, x, y).len() > 0,
        forall|i: int|
            0 <= i < key_of(sat, timestamp, zoom, x, y).len() ==> plain_char(
                #[trigger] key_of(sat, timestamp, zoom, x, y)[i],
            ),
{
    reveal_strlit("_");
    lemma_escaped_plain(sat);
    lemma_escaped_plain(timestamp);
    lemma_decimal_plain(zoom as nat);
    lemma_decimal_plain(x as nat);
    lemma_decimal_plain(y as nat);
    let u = "_"@;
    let k1 = escaped(sat) + u;
    lemma_concat_plain(escaped(sat), u);
    let k2 = k1 + escaped(timestamp);
    lemma_concat_plain(k1, escaped(timestamp));
    let k3 = k2 + u;
    lemma_concat_plain(k2, u);
    let k4 = k3 + decimal(zoom as nat);
    lemma_concat_plain(k3, decimal(zoom as nat));
    let k5 = k4 + u;
    lemma_concat_plain(k4, u);
    let k6 = k5 + decimal(x as nat);
    lemma_concat_plain(k5, decimal(x as nat));
    let k7 = k6 + u;
    lemma_concat_plain(k6, u);
    lemma_concat_plain(k7, decimal(y as nat));
}

proof fn lemma_concat_plain(a: Seq<char>, b: Seq<char>)
    requires
        forall|i: int| 0 <= i < a.len() ==> plain_char(#[trigger] a[i]),
        forall|i: int| 0 <= i < b.len() ==> plain_char(#[trigger] b[i]),
    ensures
        forall|i: int| 0 <= i < (a + b).len() ==> plain_char(#[trigger] (a + b)[i]),
{
    assert forall|i: int| 0 <= i < (a + b).len() implies plain_char(#[trigger] (a + b)[i]) by {
        if i < a.len() {
            assert((a + b)[i] == a[i]);
        } else {
            assert((a + b)[i] == b[i - a.len()]);
        }
    }
}

/// The suffix of every backing file.
pub open spec fn file_suffix() -> Seq<char> {
    ".png"@
}

/// Where the file of `key` lives under the cache root `root`. A separator
/// is put between the two unless the root is empty or already ends in one.
pub open spec fn path_of(root: Seq<char>, key: Seq<char>) -> Seq<char> {
    if root.len() == 0 || root.last() == '/' {
        root + key + file_suffix()
    } else {
        root + "/"@ + key + file_suffix()
    }
}

/// Appends `s` escaped for a key.
fn push_escaped(out: &mut String, s: &str)
    ensures
        final(out)@ == old(out)@ + escaped(s@),
{
    let n = s.unicode_len();
    let ghost start = out@;
    let mut i: usize = 0;
    assert(s@.take(0) =~= Seq::<char>::empty());
    while i < n
        invariant
            n == s@.len(),
            i <= n,
            out@ == start + escaped(s@.take(i as int)),
        decreases n - i,
    {
        let c = s.get_char(i);
        if c == '%' {
            out.append("%25");
        } else if c == '_' {
            out.append("%5F");
        } else if c == '/' {
            out.append("%2F");
        } else if c == '\0' {
            out.append("%00");
        } else {
            out.append(s.substring_char(i, i + 1));
            assert(s@.subrange(i as int, i + 1) =~= seq![c]);
        }
        assert(s@.take(i + 1).drop_last() =~= s@.take(i as int));
        assert(out@ =~= start + escaped(s@.take(i + 1)));
        i = i + 1;
    }
    assert(s@.take(n as int) =~= s@);
}

/// Builds the cache key of a tile.
pub fn cache_key(sat: &str, timestamp: &str, zoom: u32, x: u32, y: u32) -> (r: String)
    ensures
        r@ == key_of(sat@, timestamp@, zoom, x, y),
{
    let mut k = String::new();
    push_escaped(&mut k, sat);
    k.append("_");
    push_escaped(&mut k, timestamp);
    k.append("_");
    push_decimal(&mut k, zoom as u64);
    k.append("_");
    push_decimal(&mut k, x as u64);
    k.append("_");
    push_decimal(&mut k, y as u64);
    k
}

/// The path of the backing file of `key` under the cache root `root`.
pub fn cache_path(root: &str, key: &str) -> (r: String)
    ensures
        r@ == path_of(root@, key@),
{
    let mut p = root.to_owned();
    let n = root.unicode_len();
    if n > 0 && root.get_char(n - 1) != '/' {
        p.append("/");
    }
    p.append(key);
    p.append(".png");
    p
}

} // verus!
