//! Reading parameters out of a request target's query string.

use vstd::prelude::*;

verus! {

/// Index of the first `c` in `s`, or -1 when there is none.
pub open spec fn first_index(s: Seq<char>, c: char) -> int
    decreases s.len(),
{
    if s.len() == 0 {
        -1
    } else if s[0] == c {
        0
    } else {
        let r = first_index(s.drop_first(), c);
        if r < 0 {
            -1
        } else {
            r + 1
        }
    }
}

/// The query string of a request target: what follows its first '?'.
pub open spec fn query_of(url: Seq<char>) -> Option<Seq<char>> {
    let q = first_index(url, '?');
    if q < 0 || q >= url.len() {
        None
    } else {
        Some(url.skip(q + 1))
    }
}

/// The undecoded value of the first `&`-separated segment of `query` that
/// starts with `name=`.
pub open spec fn raw_param(query: Seq<char>, name: Seq<char>) -> Option<Seq<char>>
    decreases query.len(),
{
    let amp = first_index(query, '&');
    let seg = if amp < 0 || amp >= query.len() {
        query
    } else {
        query.take(amp)
    };
    let pre = name + "="@;
    if pre.is_prefix_of(seg) {
        Some(seg.skip(pre.len() as int))
    } else if amp < 0 || amp >= query.len() {
        None
    } else {
        raw_param(query.skip(amp + 1), name)
    }
}

/// The undecoded value of parameter `name` in the request target `url`.
pub open spec fn raw_value(url: Seq<char>, name: Seq<char>) -> Option<Seq<char>> {
    match query_of(url) {
        Some(q) => raw_param(q, name),
        None => None,
    }
}

/// What `urlencoding::decode` makes of a string: its percent-decoding read
/// as UTF-8, or nothing when those bytes are not UTF-8.
pub uninterp spec fn percent_decoded(s: Seq<char>) -> Option<Seq<char>>;

/// A parameter's value: its raw value percent-decoded, or empty when the
/// decoded bytes are not UTF-8.
pub open spec fn query_param(url: Seq<char>, name: Seq<char>) -> Option<Seq<char>> {
    match query_of(url) {
        None => None,
        Some(q) => match raw_param(q, name) {
            None => None,
            Some(raw) => Some(
                match percent_decoded(raw) {
                    Some(d) => d,
                    None => Seq::empty(),
                },
            ),
        },
    }
}

/// Relies on `urlencoding::decode`: percent-decodes `s` and reads the bytes
/// as UTF-8, failing when they are not; a string without '%' comes back as
/// it is.
#[verifier::external_body]
fn url_decode(s: &str) -> (r: Option<String>)
    ensures
        r is Some <==> percent_decoded(s@) is Some,
        r matches Some(d) ==> percent_decoded(s@) == Some(d@),
        r is None ==> s@.contains('%'),
        r matches Some(d) ==> (s@.contains('%') || d@ == s@),
{
    urlencoding::decode(s).ok().map(|d| d.into_owned())
}

/// Position of the first `c` at or after `from`.
fn find_from(s: &str, c: char, from: usize) -> (r: Option<usize>)
    requires
        from <= s@.len(),
    ensures
        r matches Some(i) ==> from <= i < s@.len() && i - from == first_index(
            s@.skip(from as int),
            c,
        ),
        r is None ==> first_index(s@.skip(from as int), c) == -1,
{
    let n = s.unicode_len();
    let mut i = from;
    while i < n
        invariant
            n == s@.len(),
            from <= i <= n,
            first_index(s@.skip(from as int), c) == if first_index(s@.skip(i as int), c) < 0 {
                -1
            } else {
                first_index(s@.skip(i as int), c) + (i - from)
            },
        decreases n - i,
    {
        assert(s@.skip(i as int)[0] == s@[i as int]);
        if s.get_char(i) == c {
            return Some(i);
        }
        assert(s@.skip(i as int).drop_first() =~= s@.skip(i + 1));
        i = i + 1;
    }
    assert(s@.skip(i as int) =~= Seq::<char>::empty());
    None
}

proof fn lemma_first_index_bounds(s: Seq<char>, c: char)
    ensures
        -1 <= first_index(s, c) < s.len(),
        first_index(s, c) >= 0 ==> s[first_index(s, c)] == c,
    decreases s.len(),
{
    if s.len() > 0 && s[0] != c {
        lemma_first_index_bounds(s.drop_first(), c);
    }
}

/// Whether `url[start..end]` starts with `pre`.
fn segment_starts_with(url: &str, start: usize, end: usize, pre: &str) -> (r: bool)
    requires
        start <= end <= url@.len(),
    ensures
        r == pre@.is_prefix_of(url@.subrange(start as int, end as int)),
{
    let n = pre.unicode_len();
    if n > end - start {
        return false;
    }
    let mut i: usize = 0;
    while i < n
        invariant
            n == pre@.len(),
            start + n <= end <= url@.len(),
            i <= n,
            forall|j: int| 0 <= j < i ==> pre@[j] == url@[start + j],
        decreases n - i,
    {
        if pre.get_char(i) != url.get_char(start + i) {
            assert(url@.subrange(start as int, end as int)[i as int] == url@[start + i]);
            return false;
        }
        i = i + 1;
    }
    assert(pre@ =~= url@.subrange(start as int, end as int).subrange(0, n as int));
    true
}

/// The undecoded value of query parameter `name` in the request target
/// `url`.
pub fn raw_query_param(url: &str, name: &str) -> (r: Option<String>)
    ensures
        r is Some <==> (query_of(url@) matches Some(q) && raw_param(q, name@) is Some),
        r matches Some(v) ==> query_of(url@) matches Some(q) && raw_param(q, name@) == Some(v@),
{
    let n = url.unicode_len();
    let q = match find_from(url, '?', 0) {
        Some(q) => q,
        None => {
            assert(url@.skip(0) =~= url@);
            return None;
        },
    };
    assert(url@.skip(0) =~= url@);
    let mut pre = name.to_owned();
    pre.append("=");
    let ghost query = url@.skip(q + 1);
    let mut start = q + 1;
    loop
        invariant
            n == url@.len(),
            q < n,
            q + 1 <= start <= n,
            pre@ == name@ + "="@,
            query_of(url@) == Some(query),
            raw_param(query, name@) == raw_param(url@.skip(start as int), name@),
        decreases n - start,
    {
        let ghost rest = url@.skip(start as int);
        proof {
            lemma_first_index_bounds(rest, '&');
        }
        let amp = find_from(url, '&', start);
        let end = match amp {
            Some(e) => e,
            None => n,
        };
        assert(url@.subrange(start as int, end as int) =~= if first_index(rest, '&') < 0 {
            rest
        } else {
            rest.take(first_index(rest, '&'))
        });
        if segment_starts_with(url, start, end, pre.as_str()) {
            let from = start + pre.as_str().unicode_len();
            let v = url.substring_char(from, end).to_owned();
            assert(v@ =~= url@.subrange(start as int, end as int).skip(pre@.len() as int));
            return Some(v);
        }
        match amp {
            None => {
                return None;
            },
            Some(e) => {
                assert(url@.skip(e + 1) =~= rest.skip(first_index(rest, '&') + 1));
                start = e + 1;
            },
        }
    }
}

/// Value of query parameter `name` in the request target `url`,
/// percent-decoded; empty when the decoded bytes are not UTF-8.
pub fn get_query_param(url: &str, name: &str) -> (r: Option<String>)
    ensures
        r is Some <==> query_param(url@, name@) is Some,
        r matches Some(v) ==> query_param(url@, name@) == Some(v@),
        forall|raw: Seq<char>|
            #[trigger] raw_value(url@, name@) == Some(raw) && !raw.contains('%') ==> (r matches Some(
                v,
            ) && v@ == raw),
{
    match raw_query_param(url, name) {
        None => None,
        Some(raw) => match url_decode(raw.as_str()) {
            Some(d) => Some(d),
            None => Some(String::new()),
        },
    }
}

} // verus!
