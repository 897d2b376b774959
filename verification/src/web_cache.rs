//! HoYoverse games (Genshin Impact, Honkai: Star Rail) keep the history URL
//! in the binary web cache `webCaches/<version>/Cache/Cache_Data/data_2`.
//! This module reads URLs out of that blob, picks the newest cache version,
//! decides which candidate URL to try next, and strips a URL down to the
//! query parameters that matter.
use vstd::prelude::*;
use vstd::slice::slice_subrange;
use vstd::utf8::{decode_utf8, valid_utf8};

use crate::text::{
    ascii_lower, chars_eq, chars_of, contains_chars, contains_seq, lower_chars, occurs_at, split_chars,
    split_on,
};

verus! {

/// The marker `1/0/` that precedes each stored string in the cache blob.
pub open spec fn entry_marker() -> Seq<u8> {
    seq![0x31u8, 0x2fu8, 0x30u8, 0x2fu8]
}

/// The ASCII bytes of `http`.
pub open spec fn http_prefix() -> Seq<u8> {
    seq![0x68u8, 0x74u8, 0x74u8, 0x70u8]
}

/// The first index at or after `k` that holds a NUL byte, or the length.
pub open spec fn first_nul(data: Seq<u8>, k: int) -> int
    decreases data.len() - k,
{
    if k >= data.len() {
        data.len() as int
    } else if data[k] == 0 {
        k
    } else {
        first_nul(data, k + 1)
    }
}

/// The URL that the cache entry marked at `i` holds, if any: the marker
/// `1/0/` stands at `i`, the bytes after it begin with `http`, the bytes up to
/// the next NUL (or the end) are valid UTF-8, and their text contains one of
/// the patterns.
pub open spec fn cache_url_at(data: Seq<u8>, patterns: Seq<Seq<char>>, i: int) -> Option<
    Seq<char>,
> {
    let segment = data.subrange(i + 4, first_nul(data, i + 4));
    if occurs_at(data, entry_marker(), i) && occurs_at(data, http_prefix(), i + 4) && valid_utf8(
        segment,
    ) && contains_some(decode_utf8(segment), patterns) {
        Some(decode_utf8(segment))
    } else {
        None
    }
}

/// One of `patterns` occurs in `text`.
pub open spec fn contains_some(text: Seq<char>, patterns: Seq<Seq<char>>) -> bool {
    exists|j: int| 0 <= j < patterns.len() && contains_seq(text, #[trigger] patterns[j])
}

/// The URLs held by the entries whose marker starts before index `k`, in order.
pub open spec fn cache_urls_before(data: Seq<u8>, patterns: Seq<Seq<char>>, k: nat) -> Seq<
    Seq<char>,
>
    decreases k,
{
    if k == 0 {
        Seq::empty()
    } else {
        let earlier = cache_urls_before(data, patterns, (k - 1) as nat);
        match cache_url_at(data, patterns, k - 1) {
            Some(url) => earlier.push(url),
            None => earlier,
        }
    }
}

/// All URLs of the cache blob `data` that contain one of `patterns`, in
/// the order they are stored.
pub open spec fn cache_urls(data: Seq<u8>, patterns: Seq<Seq<char>>) -> Seq<Seq<char>> {
    cache_urls_before(data, patterns, data.len())
}

/// Decodes UTF-8 bytes as `std::str::from_utf8` does.
///
/// `from_utf8` returns `Ok` exactly when the bytes are valid UTF-8, and the
/// string it returns holds the characters they encode.
#[verifier::external_body]
fn decode_utf8_text(bytes: &[u8]) -> (r: Option<String>)
    ensures
        r is Some <==> valid_utf8(bytes@),
        r matches Some(text) ==> text@ == decode_utf8(bytes@),
{
    match std::str::from_utf8(bytes) {
        Ok(text) => Some(text.to_owned()),
        Err(_) => None,
    }
}

/// Which of `patterns` occur in `text`.
fn contains_any(text: &[char], patterns: &Vec<Vec<char>>) -> (b: bool)
    ensures
        b == exists|j: int|
            0 <= j < patterns@.len() && contains_seq(text@, #[trigger] patterns@[j]@),
{
    let n: usize = patterns.len();
    let mut j: usize = 0;
    while j < n
        invariant
            n == patterns@.len(),
            j <= n,
            forall|k: int| 0 <= k < j ==> !contains_seq(text@, #[trigger] patterns@[k]@),
        decreases n - j,
    {
        if contains_chars(text, patterns[j].as_slice()) {
            return true;
        }
        j = j + 1;
    }
    false
}

/// The first NUL at or after `k`, or the length.
fn find_nul(data: &[u8], k: usize) -> (r: usize)
    requires
        k <= data@.len(),
    ensures
        r == first_nul(data@, k as int),
        k <= r <= data@.len(),
{
    let n: usize = data.len();
    let mut j: usize = k;
    while j < n && data[j] != 0
        invariant
            n == data@.len(),
            k <= j <= n,
            first_nul(data@, k as int) == first_nul(data@, j as int),
        decreases n - j,
    {
        j = j + 1;
    }
    j
}

/// Extracts the URLs stored in the cache blob `data` that contain one of
/// `patterns`. Each stored string follows the marker `1/0/` and ends at a NUL.
pub fn find_urls(data: &[u8], patterns: &[&str]) -> (urls: Vec<String>)
    ensures
        urls@.len() == cache_urls(data@, patterns.deep_view()).len(),
        forall|i: int|
            0 <= i < urls@.len() ==> #[trigger] urls@[i]@ == cache_urls(
                data@,
                patterns.deep_view(),
            )[i],
{
    let ghost pats = patterns.deep_view();
    let mut pattern_chars: Vec<Vec<char>> = Vec::new();
    let m: usize = patterns.len();
    let mut j: usize = 0;
    while j < m
        invariant
            m == patterns@.len(),
            pats == patterns.deep_view(),
            j <= m,
            pattern_chars@.len() == j,
            forall|k: int| 0 <= k < j ==> #[trigger] pattern_chars@[k]@ == pats[k],
        decreases m - j,
    {
        pattern_chars.push(chars_of(patterns[j]));
        j = j + 1;
    }
    let n: usize = data.len();
    let mut urls: Vec<String> = Vec::new();
    let mut i: usize = 0;
    while i < n
        invariant
            n == data@.len(),
            i <= n,
            pats == patterns.deep_view(),
            pattern_chars@.len() == pats.len(),
            forall|k: int| 0 <= k < pats.len() ==> #[trigger] pattern_chars@[k]@ == pats[k],
            urls@.len() == cache_urls_before(data@, pats, i as nat).len(),
            forall|k: int|
                0 <= k < urls@.len() ==> #[trigger] urls@[k]@ == cache_urls_before(
                    data@,
                    pats,
                    i as nat,
                )[k],
        decreases n - i,
    {
        let ghost before = cache_urls_before(data@, pats, i as nat);
        let ghost expected = cache_url_at(data@, pats, i as int);
        assert(cache_urls_before(data@, pats, (i + 1) as nat) == match expected {
            Some(url) => before.push(url),
            None => before,
        });
        let mut found: Option<String> = None;
        if n - i >= 8 && data[i] == 0x31 && data[i + 1] == 0x2f && data[i + 2] == 0x30 && data[i
            + 3] == 0x2f && data[i + 4] == 0x68 && data[i + 5] == 0x74 && data[i + 6] == 0x74
            && data[i + 7] == 0x70 {
            assert(data@.subrange(i as int, i + 4) =~= entry_marker());
            assert(data@.subrange(i + 4, i + 8) =~= http_prefix());
            let end = find_nul(data, i + 4);
            let segment = slice_subrange(data, i + 4, end);
            match decode_utf8_text(segment) {
                Some(text) => {
                    let text_chars = chars_of(text.as_str());
                    if contains_any(text_chars.as_slice(), &pattern_chars) {
                        found = Some(text);
                    } else {
                        assert forall|k: int| 0 <= k < pats.len() implies !contains_seq(
                            text@,
                            #[trigger] pats[k],
                        ) by {
                            assert(pattern_chars@[k]@ == pats[k]);
                        }
                    }
                },
                None => {},
            }
        } else {
            proof {
                if occurs_at(data@, entry_marker(), i as int) && occurs_at(
                    data@,
                    http_prefix(),
                    i + 4,
                ) {
                    assert(data@.subrange(i as int, i + 4)[0] == data@[i as int]);
                    assert(data@.subrange(i as int, i + 4)[1] == data@[i + 1]);
                    assert(data@.subrange(i as int, i + 4)[2] == data@[i + 2]);
                    assert(data@.subrange(i as int, i + 4)[3] == data@[i + 3]);
                    assert(data@.subrange(i + 4, i + 8)[0] == data@[i + 4]);
                    assert(data@.subrange(i + 4, i + 8)[1] == data@[i + 5]);
                    assert(data@.subrange(i + 4, i + 8)[2] == data@[i + 6]);
                    assert(data@.subrange(i + 4, i + 8)[3] == data@[i + 7]);
                }
            }
        }
        assert(found matches Some(t) ==> expected == Some(t@));
        assert(found is None ==> expected is None);
        match found {
            Some(t) => {
                urls.push(t);
            },
            None => {},
        }
        i = i + 1;
    }
    urls
}

/// An ASCII decimal digit.
pub open spec fn is_ascii_digit(c: char) -> bool {
    '0' <= c && c <= '9'
}

/// The name of a versioned cache directory, such as `2.23.0.0`: split at
/// `.` it has exactly four parts, each made only of ASCII digits.
pub open spec fn is_version_name(name: Seq<char>) -> bool {
    let parts = split_on(name, '.');
    &&& parts.len() == 4
    &&& forall|k: int, j: int|
        0 <= k < 4 && 0 <= j < parts[k].len() ==> is_ascii_digit(#[trigger] parts[k][j])
}

/// The four parts of `name` where it names a versioned cache directory.
fn version_dir_parts(name: &str) -> (r: Option<Vec<Vec<char>>>)
    ensures
        r is Some <==> is_version_name(name@),
        r matches Some(parts) ==> {
            &&& parts@.len() == 4
            &&& forall|i: int| 0 <= i < 4 ==> #[trigger] parts@[i]@ == split_on(name@, '.')[i]
        },
{
    let chars = chars_of(name);
    let parts = split_chars(chars.as_slice(), '.');
    if parts.len() != 4 {
        return None;
    }
    let ghost spec_parts = split_on(name@, '.');
    let mut k: usize = 0;
    while k < 4
        invariant
            parts@.len() == 4,
            spec_parts == split_on(name@, '.'),
            spec_parts.len() == 4,
            forall|i: int| 0 <= i < 4 ==> #[trigger] parts@[i]@ == spec_parts[i],
            k <= 4,
            forall|i: int, j: int|
                0 <= i < k && 0 <= j < spec_parts[i].len() ==> is_ascii_digit(
                    #[trigger] spec_parts[i][j],
                ),
        decreases 4 - k,
    {
        let part = parts[k].as_slice();
        assert(part@ == spec_parts[k as int]);
        let len: usize = part.len();
        let mut j: usize = 0;
        while j < len
            invariant
                len == part@.len(),
                j <= len,
                0 <= k < 4,
                spec_parts == split_on(name@, '.'),
                spec_parts.len() == 4,
                part@ == spec_parts[k as int],
                forall|t: int| 0 <= t < j ==> is_ascii_digit(#[trigger] part@[t]),
            decreases len - j,
        {
            let c = part[j];
            if !('0' <= c && c <= '9') {
                assert(spec_parts[k as int][j as int] == c);
                assert(!is_ascii_digit(split_on(name@, '.')[k as int][j as int]));
                return None;
            }
            j = j + 1;
        }
        k = k + 1;
    }
    Some(parts)
}

/// Whether `name` names a versioned cache directory.
pub fn is_version_dir(name: &str) -> (b: bool)
    ensures
        b == is_version_name(name@),
{
    version_dir_parts(name).is_some()
}

/// The value of a run of decimal digits; an empty run counts as 0.
pub open spec fn digits_value(digits: Seq<char>) -> nat
    decreases digits.len(),
{
    if digits.len() == 0 {
        0
    } else {
        digits_value(digits.drop_last()) * 10 + ((digits.last() as int) - ('0' as int)) as nat
    }
}

/// The version of a versioned cache directory: the numbers its four parts
/// stand for, most significant first.
pub open spec fn version_numbers(name: Seq<char>) -> Seq<nat> {
    split_on(name, '.').map_values(|part: Seq<char>| digits_value(part))
}

/// Version `a` is not above version `b`: the parts are compared in order, as
/// numbers, and the first that differ decide (so `2.10.0.0` is above
/// `2.9.0.0` and below `3.0.0.0`).
pub open spec fn version_le(a: Seq<nat>, b: Seq<nat>) -> bool {
    ||| a[0] < b[0]
    ||| a[0] == b[0] && a[1] < b[1]
    ||| a[0] == b[0] && a[1] == b[1] && a[2] < b[2]
    ||| a[0] == b[0] && a[1] == b[1] && a[2] == b[2] && a[3] <= b[3]
}

/// `s` with `k` zeros put in front.
spec fn zero_padded(s: Seq<char>, k: nat) -> Seq<char> {
    Seq::new(k, |i: int| '0') + s
}

/// Leading zeros do not change the value of a digit run.
proof fn lemma_leading_zeros(s: Seq<char>, k: nat)
    ensures
        digits_value(zero_padded(s, k)) == digits_value(s),
    decreases s.len(), k,
{
    let z = Seq::new(k, |i: int| '0');
    if s.len() == 0 {
        assert(zero_padded(s, k) =~= z);
        if k > 0 {
            assert(z.drop_last() =~= zero_padded(s, (k - 1) as nat));
            lemma_leading_zeros(s, (k - 1) as nat);
        }
    } else {
        assert(zero_padded(s, k).drop_last() =~= zero_padded(s.drop_last(), k));
        assert(zero_padded(s, k).last() == s.last());
        lemma_leading_zeros(s.drop_last(), k);
    }
}

/// Which of two runs of digits stands for the larger number: -1, 0 or 1 as
/// the first is below, equal to or above the second.
fn digit_run_order(a: &[char], b: &[char]) -> (r: i8)
    requires
        forall|i: int| 0 <= i < a@.len() ==> is_ascii_digit(#[trigger] a@[i]),
        forall|i: int| 0 <= i < b@.len() ==> is_ascii_digit(#[trigger] b@[i]),
    ensures
        r == -1 <==> digits_value(a@) < digits_value(b@),
        r == 0 <==> digits_value(a@) == digits_value(b@),
        r == 1 <==> digits_value(a@) > digits_value(b@),
{
    let la: usize = a.len();
    let lb: usize = b.len();
    let len: usize = if la < lb {
        lb
    } else {
        la
    };
    let ghost pa = zero_padded(a@, (len - la) as nat);
    let ghost pb = zero_padded(b@, (len - lb) as nat);
    let mut r: i8 = 0;
    let mut i: usize = 0;
    assert(pa.take(0) =~= Seq::<char>::empty());
    assert(pb.take(0) =~= Seq::<char>::empty());
    while i < len
        invariant
            la == a@.len(),
            lb == b@.len(),
            la <= len,
            lb <= len,
            pa == zero_padded(a@, (len - la) as nat),
            pb == zero_padded(b@, (len - lb) as nat),
            pa.len() == len,
            pb.len() == len,
            forall|t: int| 0 <= t < a@.len() ==> is_ascii_digit(#[trigger] a@[t]),
            forall|t: int| 0 <= t < b@.len() ==> is_ascii_digit(#[trigger] b@[t]),
            i <= len,
            r == -1 <==> digits_value(pa.take(i as int)) < digits_value(pb.take(i as int)),
            r == 0 <==> digits_value(pa.take(i as int)) == digits_value(pb.take(i as int)),
            r == 1 <==> digits_value(pa.take(i as int)) > digits_value(pb.take(i as int)),
        decreases len - i,
    {
        let da: char = if i < len - la {
            '0'
        } else {
            a[i - (len - la)]
        };
        let db: char = if i < len - lb {
            '0'
        } else {
            b[i - (len - lb)]
        };
        assert(pa[i as int] == da);
        assert(pb[i as int] == db);
        assert(pa.take(i + 1).drop_last() =~= pa.take(i as int));
        assert(pb.take(i + 1).drop_last() =~= pb.take(i as int));
        assert(pa.take(i + 1).last() == da);
        assert(pb.take(i + 1).last() == db);
        if r == 0 {
            if da < db {
                r = -1;
            } else if da > db {
                r = 1;
            }
        }
        i = i + 1;
    }
    proof {
        assert(pa.take(len as int) =~= pa);
        assert(pb.take(len as int) =~= pb);
        lemma_leading_zeros(a@, (len - la) as nat);
        lemma_leading_zeros(b@, (len - lb) as nat);
    }
    r
}

/// Whether version `a` is not above version `b`, both given by their parts.
fn version_parts_le(a: &Vec<Vec<char>>, b: &Vec<Vec<char>>) -> (r: bool)
    requires
        a@.len() == 4,
        b@.len() == 4,
        forall|i: int, j: int|
            0 <= i < 4 && 0 <= j < a@[i]@.len() ==> is_ascii_digit(#[trigger] a@[i]@[j]),
        forall|i: int, j: int|
            0 <= i < 4 && 0 <= j < b@[i]@.len() ==> is_ascii_digit(#[trigger] b@[i]@[j]),
    ensures
        r == version_le(
            a@.map_values(|p: Vec<char>| digits_value(p@)),
            b@.map_values(|p: Vec<char>| digits_value(p@)),
        ),
{
    let ghost va = a@.map_values(|p: Vec<char>| digits_value(p@));
    let ghost vb = b@.map_values(|p: Vec<char>| digits_value(p@));
    let mut k: usize = 0;
    while k < 3
        invariant
            a@.len() == 4,
            b@.len() == 4,
            forall|i: int, j: int|
                0 <= i < 4 && 0 <= j < a@[i]@.len() ==> is_ascii_digit(#[trigger] a@[i]@[j]),
            forall|i: int, j: int|
                0 <= i < 4 && 0 <= j < b@[i]@.len() ==> is_ascii_digit(#[trigger] b@[i]@[j]),
            va == a@.map_values(|p: Vec<char>| digits_value(p@)),
            vb == b@.map_values(|p: Vec<char>| digits_value(p@)),
            k <= 3,
            forall|t: int| 0 <= t < k ==> va[t] == vb[t],
        decreases 3 - k,
    {
        let o = digit_run_order(a[k].as_slice(), b[k].as_slice());
        if o != 0 {
            return o < 0;
        }
        k = k + 1;
    }
    let o = digit_run_order(a[3].as_slice(), b[3].as_slice());
    o <= 0
}

proof fn lemma_parts_digits(name: Seq<char>, parts: Seq<Vec<char>>)
    requires
        is_version_name(name),
        parts.len() == 4,
        forall|i: int| 0 <= i < 4 ==> #[trigger] parts[i]@ == split_on(name, '.')[i],
    ensures
        forall|i: int, j: int|
            0 <= i < 4 && 0 <= j < parts[i]@.len() ==> is_ascii_digit(#[trigger] parts[i]@[j]),
        parts.map_values(|p: Vec<char>| digits_value(p@)) =~= version_numbers(name),
{
    assert forall|i: int, j: int|
        0 <= i < 4 && 0 <= j < parts[i]@.len() implies is_ascii_digit(#[trigger] parts[i]@[j]) by {
        assert(parts[i]@[j] == split_on(name, '.')[i][j]);
    }
}

/// Picks the cache directory to read among the entries `names` of a
/// `webCaches` directory: of the versioned ones, the one with the highest
/// version, the last such where several share it; `None` when no entry is
/// versioned (the cache then sits directly under `webCaches`).
pub fn pick_cache_version(names: &Vec<String>) -> (r: Option<usize>)
    ensures
        r is None <==> forall|j: int| 0 <= j < names@.len() ==> !is_version_name(#[trigger] names@[j]@),
        r matches Some(k) ==> {
            &&& k < names@.len()
            &&& is_version_name(names@[k as int]@)
            &&& forall|j: int|
                0 <= j < names@.len() && is_version_name(#[trigger] names@[j]@) ==> {
                    &&& version_le(version_numbers(names@[j]@), version_numbers(names@[k as int]@))
                    &&& k < j ==> !version_le(
                        version_numbers(names@[k as int]@),
                        version_numbers(names@[j]@),
                    )
                }
        },
{
    let n: usize = names.len();
    let mut best: Option<usize> = None;
    let mut best_parts: Vec<Vec<char>> = Vec::new();
    let mut j: usize = 0;
    while j < n
        invariant
            n == names@.len(),
            j <= n,
            best is None ==> forall|i: int| 0 <= i < j ==> !is_version_name(#[trigger] names@[i]@),
            best matches Some(k) ==> {
                &&& k < j
                &&& is_version_name(names@[k as int]@)
                &&& best_parts@.len() == 4
                &&& forall|i: int|
                    0 <= i < 4 ==> #[trigger] best_parts@[i]@ == split_on(names@[k as int]@, '.')[i]
                &&& forall|i: int|
                    0 <= i < j && is_version_name(#[trigger] names@[i]@) ==> {
                        &&& version_le(
                            version_numbers(names@[i]@),
                            version_numbers(names@[k as int]@),
                        )
                        &&& k < i ==> !version_le(
                            version_numbers(names@[k as int]@),
                            version_numbers(names@[i]@),
                        )
                    }
            },
        decreases n - j,
    {
        match version_dir_parts(names[j].as_str()) {
            Some(parts) => {
                let take = match best {
                    None => true,
                    Some(k) => {
                        proof {
                            lemma_parts_digits(names@[j as int]@, parts@);
                            lemma_parts_digits(names@[k as int]@, best_parts@);
                        }
                        version_parts_le(&best_parts, &parts)
                    },
                };
                if take {
                    best = Some(j);
                    best_parts = parts;
                }
            },
            None => {},
        }
        j = j + 1;
    }
    best
}

/// Whether a directory named `name` is the `webCaches` directory, whose
/// name is compared without regard to ASCII case (as `str::eq_ignore_ascii_case`
/// does).
pub fn is_web_caches_name(name: &str) -> (b: bool)
    ensures
        b == (ascii_lower(name@) == ascii_lower("webCaches"@)),
{
    let name_chars = chars_of(name);
    let wanted = chars_of("webCaches");
    let lower_name = lower_chars(name_chars.as_slice());
    let lower_wanted = lower_chars(wanted.as_slice());
    chars_eq(lower_name.as_slice(), lower_wanted.as_slice())
}

/// The serialization of the URL that `url::Url::parse` reads from `input`,
/// or `None` where it fails.
pub uninterp spec fn url_parse_spec(input: Seq<char>) -> Option<Seq<char>>;

/// The query pairs (`Url::query_pairs`) of the URL parsed from `input`.
pub uninterp spec fn url_query_pairs_spec(input: Seq<char>) -> Seq<(Seq<char>, Seq<char>)>;

/// The serialization of the URL parsed from `input` after `set_query(None)`.
pub uninterp spec fn url_without_query_spec(input: Seq<char>) -> Seq<char>;

/// The serialization of the URL parsed from `input` after `set_query(None)`
/// and then `query_pairs_mut().extend_pairs(pairs)`.
pub uninterp spec fn url_with_query_pairs_spec(
    input: Seq<char>,
    pairs: Seq<(Seq<char>, Seq<char>)>,
) -> Seq<char>;

/// Calls `url::Url::parse` and returns the URL's serialization.
///
/// Claims only that the result is determined by the input; what the parser
/// accepts and how it normalizes is not stated.
#[verifier::external_body]
fn parse_url(input: &str) -> (r: Option<String>)
    ensures
        r matches Some(u) ==> url_parse_spec(input@) == Some(u@),
        r is None ==> url_parse_spec(input@) is None,
{
    match url::Url::parse(input) {
        Ok(u) => Some(u.into()),
        Err(_) => None,
    }
}

/// Calls `url::Url::query_pairs` on the URL parsed from `input` and copies
/// the decoded pairs out, in order.
#[verifier::external_body]
fn url_query_pairs(input: &str) -> (r: Vec<(String, String)>)
    requires
        url_parse_spec(input@) is Some,
    ensures
        r.deep_view() == url_query_pairs_spec(input@),
{
    let mut pairs = Vec::new();
    if let Ok(u) = url::Url::parse(input) {
        for (k, v) in u.query_pairs() {
            pairs.push((k.into_owned(), v.into_owned()));
        }
    }
    pairs
}

/// Calls `url::Url::set_query(None)` on the URL parsed from `input` and
/// returns its serialization.
#[verifier::external_body]
fn url_without_query(input: &str) -> (r: String)
    requires
        url_parse_spec(input@) is Some,
    ensures
        r@ == url_without_query_spec(input@),
{
    let mut u = url::Url::parse(input).unwrap();
    u.set_query(None);
    u.into()
}

/// Calls `url::Url::set_query(None)` and then
/// `query_pairs_mut().extend_pairs(pairs)` on the URL parsed from `input` and
/// returns its serialization.
#[verifier::external_body]
fn url_with_query_pairs(input: &str, pairs: &Vec<(String, String)>) -> (r: String)
    requires
        url_parse_spec(input@) is Some,
    ensures
        r@ == url_with_query_pairs_spec(input@, pairs.deep_view()),
{
    let mut u = url::Url::parse(input).unwrap();
    u.set_query(None);
    u.query_pairs_mut().extend_pairs(pairs.iter());
    u.into()
}

/// The query pairs whose key is one of `keys`, in their order.
pub open spec fn retained_pairs(
    pairs: Seq<(Seq<char>, Seq<char>)>,
    keys: Seq<Seq<char>>,
) -> Seq<(Seq<char>, Seq<char>)> {
    pairs.filter(|p: (Seq<char>, Seq<char>)| keys.contains(p.0))
}

/// The URL parsed from `url` with its query reduced to the pairs whose key
/// is one of `keys`; with none left, the URL has no query at all.
pub open spec fn stripped_url(url: Seq<char>, keys: Seq<Seq<char>>) -> Seq<char> {
    let kept = retained_pairs(url_query_pairs_spec(url), keys);
    if kept.len() == 0 {
        url_without_query_spec(url)
    } else {
        url_with_query_pairs_spec(url, kept)
    }
}

/// Strips the URL `url` (one that `url::Url` parses) down to the query
/// parameters named in `retain`.
pub fn strip_params(url: &str, retain: &[&str]) -> (r: String)
    requires
        url_parse_spec(url@) is Some,
    ensures
        r@ == stripped_url(url@, retain.deep_view()),
{
    let ghost keys = retain.deep_view();
    let pairs = url_query_pairs(url);
    let ghost all = pairs.deep_view();
    let ghost keep = |p: (Seq<char>, Seq<char>)| keys.contains(p.0);
    let mut owned_keys: Vec<String> = Vec::new();
    let m: usize = retain.len();
    let mut j: usize = 0;
    while j < m
        invariant
            m == retain@.len(),
            keys == retain.deep_view(),
            j <= m,
            owned_keys@.len() == j,
            forall|t: int| 0 <= t < j ==> #[trigger] owned_keys@[t]@ == keys[t],
        decreases m - j,
    {
        owned_keys.push(retain[j].to_owned());
        j = j + 1;
    }
    let mut kept: Vec<(String, String)> = Vec::new();
    let n: usize = pairs.len();
    let mut i: usize = 0;
    proof {
        reveal(Seq::filter);
    }
    assert(all.take(0).filter(keep) =~= kept.deep_view());
    while i < n
        invariant
            n == pairs@.len(),
            all == pairs.deep_view(),
            i <= n,
            keys == retain.deep_view(),
            keys.len() == owned_keys@.len(),
            forall|t: int| 0 <= t < keys.len() ==> #[trigger] owned_keys@[t]@ == keys[t],
            keep == (|p: (Seq<char>, Seq<char>)| keys.contains(p.0)),
            kept.deep_view() == all.take(i as int).filter(keep),
        decreases n - i,
    {
        proof {
            reveal(Seq::filter);
        }
        let ghost before = all.take(i as int);
        assert(all.take(i + 1).drop_last() =~= before);
        assert(all.take(i + 1).last() == all[i as int]);
        let key = &pairs[i].0;
        let mut wanted = false;
        let mut t: usize = 0;
        while t < owned_keys.len()
            invariant
                keys.len() == owned_keys@.len(),
                forall|u: int| 0 <= u < keys.len() ==> #[trigger] owned_keys@[u]@ == keys[u],
                t <= owned_keys@.len(),
                wanted == exists|u: int| 0 <= u < t && keys[u] == key@,
            decreases owned_keys.len() - t,
        {
            if owned_keys[t] == *key {
                wanted = true;
            }
            t = t + 1;
        }
        assert(all[i as int].0 == key@);
        assert(wanted == keys.contains(key@));
        if wanted {
            let ghost old_kept = kept.deep_view();
            kept.push((pairs[i].0.clone(), pairs[i].1.clone()));
            assert(kept.deep_view() =~= old_kept.push(all[i as int]));
        }
        i = i + 1;
    }
    assert(all.take(n as int) =~= all);
    if kept.len() == 0 {
        url_without_query(url)
    } else {
        url_with_query_pairs(url, &kept)
    }
}

/// What `serde_json::from_slice::<serde_json::Value>` reads from `body`:
/// `None` where the body is not JSON, otherwise `Some` of its top-level
/// field `key` when that is an integer that fits an `i64`.
pub uninterp spec fn json_i64_field_spec(body: Seq<u8>, key: Seq<char>) -> Option<Option<i64>>;

/// Parses `body` with `serde_json::from_slice` into a `serde_json::Value` and
/// reads its field `key` with `Value::get` and `Value::as_i64`.
#[verifier::external_body]
fn json_i64_field(body: &[u8], key: &str) -> (r: Option<Option<i64>>)
    ensures
        r == json_i64_field_spec(body@, key@),
{
    match serde_json::from_slice::<serde_json::Value>(body) {
        Ok(value) => Some(value.get(key).and_then(serde_json::Value::as_i64)),
        Err(_) => None,
    }
}

/// A reply of the gacha API that is not JSON.
#[derive(Debug, PartialEq, Eq, Structural)]
pub enum ResponseError {
    /// The API returned a non-JSON response.
    NotJson,
}

/// A gacha API reply accepts the URL: it is JSON and its `retcode` is 0.
pub open spec fn reply_accepts(body: Seq<u8>) -> bool {
    json_i64_field_spec(body, "retcode"@) == Some(Some(0i64))
}

/// Whether a gacha API reply accepts the URL: its `retcode` is 0.
pub fn response_accepts(body: &[u8]) -> (r: Result<bool, ResponseError>)
    ensures
        match json_i64_field_spec(body@, "retcode"@) {
            None => r == Err::<bool, ResponseError>(ResponseError::NotJson),
            Some(code) => r == Ok::<bool, ResponseError>(code == Some(0i64)),
        },
{
    match json_i64_field(body, "retcode") {
        None => Err(ResponseError::NotJson),
        Some(code) => match code {
            Some(c) => Ok(c == 0),
            None => Ok(false),
        },
    }
}

/// A reply was received and it accepts the URL.
pub open spec fn accepts(reply: Option<&[u8]>) -> bool {
    reply matches Some(body) && reply_accepts(body@)
}

/// The last index below `k` whose candidate `url::Url` parses.
pub open spec fn last_parseable(candidates: Seq<Seq<char>>, k: int) -> Option<int>
    decreases k,
{
    if k <= 0 {
        None
    } else if url_parse_spec(candidates[k - 1]) is Some {
        Some(k - 1)
    } else {
        last_parseable(candidates, k - 1)
    }
}

/// What the search for a working cache URL asks for next.
#[derive(Debug)]
pub enum ProbeStep {
    /// Ask the API whether this URL (a parsed serialization) works, then call
    /// [`CacheProbe::advance`] with the answer.
    Validate(String),
    /// The URL that was last handed out works; this is it, stripped down.
    Accept(String),
    /// No candidate worked; this many were found in the cache.
    Exhausted(usize),
}

/// The search for a working URL among those found in a cache blob: newest
/// (last stored) first, skipping those that do not parse.
pub struct CacheProbe {
    candidates: Vec<String>,
    remaining: usize,
    pending: Option<String>,
}

impl CacheProbe {
    #[verifier::type_invariant]
    spec fn well_formed(self) -> bool {
        &&& self.remaining <= self.candidates@.len()
        &&& self.pending matches Some(p) ==> url_parse_spec(p@) is Some
    }

    /// The candidate URLs, in the order the cache stores them.
    pub closed spec fn candidates(self) -> Seq<Seq<char>> {
        self.candidates.deep_view()
    }

    /// How many candidates, from the front, have not been tried yet.
    pub closed spec fn remaining(self) -> int {
        self.remaining as int
    }

    /// The candidate handed out for validation last, if any.
    pub closed spec fn pending(self) -> Option<Seq<char>> {
        match self.pending {
            Some(p) => Some(p@),
            None => None,
        }
    }

    /// Starts the search over the URLs of `data` that contain one of
    /// `patterns`; `None` when there are none.
    pub fn from_cache(data: &[u8], patterns: &[&str]) -> (r: Option<Self>)
        ensures
            r is None <==> cache_urls(data@, patterns.deep_view()).len() == 0,
            r matches Some(probe) ==> {
                &&& probe.candidates() == cache_urls(data@, patterns.deep_view())
                &&& probe.remaining() == probe.candidates().len()
                &&& probe.pending() is None
            },
    {
        let urls = find_urls(data, patterns);
        if urls.len() == 0 {
            return None;
        }
        let n: usize = urls.len();
        let probe = CacheProbe { candidates: urls, remaining: n, pending: None };
        assert(probe.candidates() =~= cache_urls(data@, patterns.deep_view()));
        Some(probe)
    }

    /// Takes the API's reply to the URL handed out last (`None` where the
    /// request failed, and on the first call) and says what to do next: a
    /// reply that accepts the URL ends the search, anything else moves on to
    /// the next candidate.
    pub fn advance(&mut self, reply: Option<&[u8]>, retain: &[&str]) -> (step: ProbeStep)
        ensures
            final(self).candidates() == old(self).candidates(),
            accepts(reply) && old(self).pending() is Some ==> {
                &&& step matches ProbeStep::Accept(u) && u@ == stripped_url(
                    old(self).pending().unwrap(),
                    retain.deep_view(),
                )
                &&& final(self).remaining() == old(self).remaining()
                &&& final(self).pending() == old(self).pending()
            },
            !(accepts(reply) && old(self).pending() is Some) ==> match last_parseable(
                old(self).candidates(),
                old(self).remaining(),
            ) {
                Some(j) => {
                    &&& step matches ProbeStep::Validate(u) && url_parse_spec(
                        old(self).candidates()[j],
                    ) == Some(u@)
                    &&& final(self).remaining() == j
                    &&& final(self).pending() == Some(old(self).candidates()[j])
                },
                None => {
                    &&& step matches ProbeStep::Exhausted(n) && n == old(self).candidates().len()
                    &&& final(self).remaining() == 0
                    &&& final(self).pending() is None
                },
            },
    {
        proof {
            use_type_invariant(&*self);
        }
        let accepted = match reply {
            Some(body) => match response_accepts(body) {
                Ok(ok) => ok,
                Err(_) => false,
            },
            None => false,
        };
        if accepted {
            match &self.pending {
                Some(raw) => {
                    return ProbeStep::Accept(strip_params(raw.as_str(), retain));
                },
                None => {},
            }
        }
        let ghost cands = self.candidates();
        let ghost start = self.remaining();
        let mut k: usize = self.remaining;
        while k > 0
            invariant
                k <= start <= self.candidates@.len(),
                cands == self.candidates(),
                cands == old(self).candidates(),
                start == old(self).remaining(),
                self.remaining == start,
                !(accepts(reply) && old(self).pending() is Some),
                last_parseable(cands, k as int) == last_parseable(cands, start),
            decreases k,
        {
            k = k - 1;
            let raw = self.candidates[k].clone();
            assert(raw@ == cands[k as int]);
            match parse_url(raw.as_str()) {
                Some(serialized) => {
                    self.pending = Some(raw);
                    self.remaining = k;
                    return ProbeStep::Validate(serialized);
                },
                None => {},
            }
        }
        self.pending = None;
        self.remaining = 0;
        ProbeStep::Exhausted(self.candidates.len())
    }
}

/// Stripping depends only on which keys are retained: the order in which
/// they are named and names given twice make no difference.
pub proof fn lemma_strip_depends_on_key_set(
    url: Seq<char>,
    keys: Seq<Seq<char>>,
    other_keys: Seq<Seq<char>>,
)
    requires
        forall|k: Seq<char>| keys.contains(k) <==> other_keys.contains(k),
    ensures
        forall|pairs: Seq<(Seq<char>, Seq<char>)>|
            #[trigger] retained_pairs(pairs, keys) == retained_pairs(pairs, other_keys),
        stripped_url(url, keys) == stripped_url(url, other_keys),
{
    let keep = |p: (Seq<char>, Seq<char>)| keys.contains(p.0);
    let other_keep = |p: (Seq<char>, Seq<char>)| other_keys.contains(p.0);
    assert(keep =~= other_keep);
    assert forall|pairs: Seq<(Seq<char>, Seq<char>)>|
        #[trigger] retained_pairs(pairs, keys) == retained_pairs(pairs, other_keys) by {
        assert(retained_pairs(pairs, keys) == pairs.filter(keep));
        assert(retained_pairs(pairs, other_keys) == pairs.filter(other_keep));
    }
    assert(retained_pairs(url_query_pairs_spec(url), keys) == retained_pairs(
        url_query_pairs_spec(url),
        other_keys,
    ));
}

/// Every URL found in a cache blob contains one of the patterns.
pub proof fn lemma_found_urls_contain_pattern(data: Seq<u8>, patterns: Seq<Seq<char>>, k: nat)
    ensures
        forall|i: int|
            0 <= i < cache_urls_before(data, patterns, k).len() ==> contains_some(
                #[trigger] cache_urls_before(data, patterns, k)[i],
                patterns,
            ),
    decreases k,
{
    if k > 0 {
        lemma_found_urls_contain_pattern(data, patterns, (k - 1) as nat);
        let earlier = cache_urls_before(data, patterns, (k - 1) as nat);
        match cache_url_at(data, patterns, k - 1) {
            Some(url) => {
                assert forall|i: int|
                    0 <= i < cache_urls_before(data, patterns, k).len() implies contains_some(
                    #[trigger] cache_urls_before(data, patterns, k)[i],
                    patterns,
                ) by {
                    if i < earlier.len() {
                        assert(cache_urls_before(data, patterns, k)[i] == earlier[i]);
                    } else {
                        assert(cache_urls_before(data, patterns, k)[i] == url);
                    }
                }
            },
            None => {
                assert(cache_urls_before(data, patterns, k) == earlier);
            },
        }
    }
}

/// The search moves strictly towards older candidates: the next candidate
/// to validate below `k` is the newest one that parses, every newer one it
/// passes over does not parse, and when there is none, no candidate below `k`
/// parses.
pub proof fn lemma_next_candidate(candidates: Seq<Seq<char>>, k: int)
    requires
        0 <= k <= candidates.len(),
    ensures
        last_parseable(candidates, k) matches Some(j) ==> {
            &&& 0 <= j < k
            &&& url_parse_spec(candidates[j]) is Some
            &&& forall|i: int| j < i < k ==> url_parse_spec(#[trigger] candidates[i]) is None
        },
        last_parseable(candidates, k) is None ==> forall|i: int|
            0 <= i < k ==> url_parse_spec(#[trigger] candidates[i]) is None,
    decreases k,
{
    if k > 0 && url_parse_spec(candidates[k - 1]) is None {
        lemma_next_candidate(candidates, k - 1);
    }
}

proof fn lemma_first_nul_bounds(data: Seq<u8>, k: int)
    requires
        0 <= k <= data.len(),
    ensures
        k <= first_nul(data, k) <= data.len(),
    decreases data.len() - k,
{
    if k < data.len() && data[k] != 0 {
        lemma_first_nul_bounds(data, k + 1);
    }
}

/// Within a blob that ends with a NUL, the first NUL at or after `k` does
/// not change when more bytes follow.
proof fn lemma_first_nul_prefix(a: Seq<u8>, b: Seq<u8>, k: int)
    requires
        a.len() > 0,
        a.last() == 0,
        0 <= k < a.len(),
    ensures
        first_nul(a + b, k) == first_nul(a, k),
        first_nul(a, k) < a.len(),
    decreases a.len() - k,
{
    assert((a + b)[k] == a[k]);
    if a[k] != 0 {
        lemma_first_nul_prefix(a, b, k + 1);
    }
}

/// Past the first blob, the first NUL is that of the second, shifted.
proof fn lemma_first_nul_suffix(a: Seq<u8>, b: Seq<u8>, k: int)
    requires
        0 <= k <= b.len(),
    ensures
        first_nul(a + b, a.len() + k) == a.len() + first_nul(b, k),
    decreases b.len() - k,
{
    if k < b.len() {
        assert((a + b)[a.len() + k] == b[k]);
        if b[k] != 0 {
            lemma_first_nul_suffix(a, b, k + 1);
        }
    }
}

proof fn lemma_occurs_prefix(a: Seq<u8>, b: Seq<u8>, pat: Seq<u8>, i: int)
    requires
        0 <= i,
        i + pat.len() <= a.len(),
    ensures
        occurs_at(a + b, pat, i) == occurs_at(a, pat, i),
{
    assert((a + b).subrange(i, i + pat.len()) =~= a.subrange(i, i + pat.len()));
}

proof fn lemma_occurs_suffix(a: Seq<u8>, b: Seq<u8>, pat: Seq<u8>, j: int)
    requires
        0 <= j,
    ensures
        occurs_at(a + b, pat, a.len() + j) == occurs_at(b, pat, j),
{
    if j + pat.len() <= b.len() {
        assert((a + b).subrange(a.len() + j, a.len() + j + pat.len()) =~= b.subrange(
            j,
            j + pat.len(),
        ));
    }
}

/// A pattern of non-NUL bytes can not cover the last byte of a blob that
/// ends with a NUL.
proof fn lemma_no_nul_across(a: Seq<u8>, b: Seq<u8>, pat: Seq<u8>, i: int)
    requires
        a.len() > 0,
        a.last() == 0,
        forall|t: int| 0 <= t < pat.len() ==> #[trigger] pat[t] != 0,
        i <= a.len() - 1 < i + pat.len(),
    ensures
        !occurs_at(a + b, pat, i),
{
    if occurs_at(a + b, pat, i) {
        let t = a.len() - 1 - i;
        assert((a + b).subrange(i, i + pat.len())[t] == (a + b)[a.len() - 1]);
        assert((a + b)[a.len() - 1] == a.last());
        assert(pat[t] != 0);
    }
}

proof fn lemma_cache_url_at_prefix(a: Seq<u8>, b: Seq<u8>, patterns: Seq<Seq<char>>, i: int)
    requires
        a.len() > 0,
        a.last() == 0,
        0 <= i < a.len(),
    ensures
        cache_url_at(a + b, patterns, i) == cache_url_at(a, patterns, i),
{
    let m = entry_marker();
    let h = http_prefix();
    assert forall|t: int| 0 <= t < m.len() implies #[trigger] m[t] != 0 by {}
    assert forall|t: int| 0 <= t < h.len() implies #[trigger] h[t] != 0 by {}
    if i + 4 > a.len() {
        lemma_no_nul_across(a, b, m, i);
        assert(!occurs_at(a, m, i));
    } else {
        lemma_occurs_prefix(a, b, m, i);
        if occurs_at(a, m, i) {
            if i + 4 == a.len() {
                assert(a.subrange(i, i + 4)[3] == a[a.len() - 1]);
            } else if i + 8 > a.len() {
                lemma_no_nul_across(a, b, h, i + 4);
                assert(!occurs_at(a, h, i + 4));
            } else {
                lemma_occurs_prefix(a, b, h, i + 4);
                lemma_first_nul_prefix(a, b, i + 4);
                let end = first_nul(a, i + 4);
                lemma_first_nul_bounds(a, i + 4);
                assert((a + b).subrange(i + 4, end) =~= a.subrange(i + 4, end));
            }
        }
    }
}

proof fn lemma_cache_url_at_suffix(a: Seq<u8>, b: Seq<u8>, patterns: Seq<Seq<char>>, j: int)
    requires
        0 <= j,
    ensures
        cache_url_at(a + b, patterns, a.len() + j) == cache_url_at(b, patterns, j),
{
    lemma_occurs_suffix(a, b, entry_marker(), j);
    lemma_occurs_suffix(a, b, http_prefix(), j + 4);
    if occurs_at(b, entry_marker(), j) && occurs_at(b, http_prefix(), j + 4) {
        lemma_first_nul_suffix(a, b, j + 4);
        let end = first_nul(b, j + 4);
        lemma_first_nul_bounds(b, j + 4);
        assert((a + b).subrange(a.len() + j + 4, a.len() + end) =~= b.subrange(j + 4, end));
    }
}

proof fn lemma_cache_urls_prefix(a: Seq<u8>, b: Seq<u8>, patterns: Seq<Seq<char>>, k: nat)
    requires
        a.len() > 0,
        a.last() == 0,
        k <= a.len(),
    ensures
        cache_urls_before(a + b, patterns, k) == cache_urls_before(a, patterns, k),
    decreases k,
{
    if k > 0 {
        lemma_cache_urls_prefix(a, b, patterns, (k - 1) as nat);
        lemma_cache_url_at_prefix(a, b, patterns, k - 1);
    }
}

proof fn lemma_cache_urls_suffix(a: Seq<u8>, b: Seq<u8>, patterns: Seq<Seq<char>>, j: nat)
    requires
        a.len() > 0,
        a.last() == 0,
    ensures
        cache_urls_before(a + b, patterns, a.len() + j) == cache_urls(a, patterns)
            + cache_urls_before(b, patterns, j),
    decreases j,
{
    if j == 0 {
        lemma_cache_urls_prefix(a, b, patterns, a.len());
        assert(cache_urls_before(b, patterns, 0) =~= Seq::<Seq<char>>::empty());
        assert(cache_urls(a, patterns) + cache_urls_before(b, patterns, 0) =~= cache_urls(
            a,
            patterns,
        ));
    } else {
        lemma_cache_urls_suffix(a, b, patterns, (j - 1) as nat);
        lemma_cache_url_at_suffix(a, b, patterns, j - 1);
        let head = cache_urls(a, patterns);
        let rest = cache_urls_before(b, patterns, (j - 1) as nat);
        match cache_url_at(b, patterns, j - 1) {
            Some(url) => {
                assert((head + rest).push(url) =~= head + rest.push(url));
            },
            None => {},
        }
    }
}

/// A cache blob that ends with a NUL, followed by another blob, holds the
/// URLs of the first and then those of the second.
pub proof fn lemma_cache_urls_concat(a: Seq<u8>, b: Seq<u8>, patterns: Seq<Seq<char>>)
    requires
        a.len() > 0,
        a.last() == 0,
    ensures
        cache_urls(a + b, patterns) == cache_urls(a, patterns) + cache_urls(b, patterns),
{
    lemma_cache_urls_suffix(a, b, patterns, b.len());
    assert((a + b).len() == a.len() + b.len());
}

} // verus!
