use crate::error::LookupError;
use reqwest::header::{HeaderMap, HeaderValue};
use vstd::prelude::*;

verus! {

/// A byte that `\w` matches in ASCII text: a letter, a digit or `_`.
pub open spec fn is_word_byte(b: u8) -> bool {
    (48 <= b && b <= 57) || (65 <= b && b <= 90) || (97 <= b && b <= 122) || b == 95
}

/// An ASCII decimal digit.
pub open spec fn is_digit_byte(b: u8) -> bool {
    48 <= b && b <= 57
}

/// End of the run of word bytes that starts at `i`.
pub open spec fn word_end(s: Seq<u8>, i: int) -> int
    decreases s.len() - i,
{
    if 0 <= i < s.len() && is_word_byte(s[i]) {
        word_end(s, i + 1)
    } else {
        i
    }
}

/// End of the run of digits that starts at `i`.
pub open spec fn digits_end(s: Seq<u8>, i: int) -> int
    decreases s.len() - i,
{
    if 0 <= i < s.len() && is_digit_byte(s[i]) {
        digits_end(s, i + 1)
    } else {
        i
    }
}

/// The bytes of `page=`.
pub open spec fn page_key() -> Seq<u8> {
    seq![112u8, 97u8, 103u8, 101u8, 61u8]
}

/// The bytes of `rel="last"`.
pub open spec fn rel_last() -> Seq<u8> {
    seq![114u8, 101u8, 108u8, 61u8, 34u8, 108u8, 97u8, 115u8, 116u8, 34u8]
}

/// `p` occurs in `s` at position `j`.
pub open spec fn occurs_at(s: Seq<u8>, p: Seq<u8>, j: int) -> bool {
    0 <= j && j + p.len() <= s.len() && s.subrange(j, j + p.len()) == p
}

/// `p` occurs somewhere in `s`.
pub open spec fn contains(s: Seq<u8>, p: Seq<u8>) -> bool {
    exists|j: int| occurs_at(s, p, j)
}

/// A match of the pattern `(\w*)page=(\d+)` starts at `i`. The word run from `i` must
/// end in `page`, be followed by `=` and then by a digit; the prefix before `page` is
/// the run from `i` up to there.
pub open spec fn match_at(s: Seq<u8>, i: int) -> bool {
    let w = word_end(s, i);
    w - i >= 4 && w + 1 < s.len() && s.subrange(w - 4, w + 1) == page_key() && is_digit_byte(
        s[w + 1],
    )
}

/// Walks the successive leftmost, non-overlapping matches of `(\w*)page=(\d+)` from
/// position `i`, and gives the range of the digits of the first one whose prefix is
/// empty, that is whose key is exactly `page`.
pub open spec fn page_digits_from(s: Seq<u8>, i: int) -> Option<(int, int)>
    decreases s.len() - i,
{
    if i < 0 || i >= s.len() {
        None
    } else if match_at(s, i) {
        let w = word_end(s, i);
        let d = digits_end(s, w + 1);
        if w - i == 4 {
            Some((w + 1, d))
        } else if i < d <= s.len() {
            page_digits_from(s, d)
        } else {
            None
        }
    } else {
        page_digits_from(s, i + 1)
    }
}

/// The value of a run of decimal digits.
pub open spec fn digits_value(d: Seq<u8>) -> nat
    decreases d.len(),
{
    if d.len() == 0 {
        0
    } else {
        digits_value(d.drop_last()) * 10 + (d.last() - 48) as nat
    }
}

fn is_word(b: u8) -> (r: bool)
    ensures
        r == is_word_byte(b),
{
    (48 <= b && b <= 57) || (65 <= b && b <= 90) || (97 <= b && b <= 122) || b == 95
}

fn is_digit(b: u8) -> (r: bool)
    ensures
        r == is_digit_byte(b),
{
    48 <= b && b <= 57
}

fn word_run_end(s: &Vec<u8>, i: usize) -> (r: usize)
    requires
        i <= s.len(),
    ensures
        r == word_end(s@, i as int),
        i <= r <= s.len(),
{
    let mut k: usize = i;
    while k < s.len() && is_word(s[k])
        invariant
            i <= k <= s.len(),
            word_end(s@, k as int) == word_end(s@, i as int),
        decreases s.len() - k,
    {
        k = k + 1;
    }
    k
}

fn digit_run_end(s: &Vec<u8>, i: usize) -> (r: usize)
    requires
        i <= s.len(),
    ensures
        r == digits_end(s@, i as int),
        i <= r <= s.len(),
        i < s.len() && is_digit_byte(s@[i as int]) ==> r > i,
        forall|j: int| i <= j < r ==> is_digit_byte(#[trigger] s@[j]),
{
    let mut k: usize = i;
    while k < s.len() && is_digit(s[k])
        invariant
            i <= k <= s.len(),
            digits_end(s@, k as int) == digits_end(s@, i as int),
            forall|j: int| i <= j < k ==> is_digit_byte(#[trigger] s@[j]),
        decreases s.len() - k,
    {
        k = k + 1;
    }
    k
}

/// Finds, in one entry of the header, the digits that follow the key `page=`.
fn page_digits(e: &Vec<u8>) -> (r: Option<(usize, usize)>)
    ensures
        r is None <==> page_digits_from(e@, 0) is None,
        r matches Some((a, b)) ==> page_digits_from(e@, 0) == Some((a as int, b as int)) && a
            <= b <= e.len() && forall|j: int| a <= j < b ==> is_digit_byte(#[trigger] e@[j]),
{
    let mut i: usize = 0;
    while i < e.len()
        invariant
            i <= e.len(),
            page_digits_from(e@, i as int) == page_digits_from(e@, 0),
        decreases e.len() - i,
    {
        let w = word_run_end(e, i);
        if w - i >= 4 && e.len() - w >= 2 && e[w - 4] == 112 && e[w - 3] == 97 && e[w - 2] == 103
            && e[w - 1] == 101 && e[w] == 61 && is_digit(e[w + 1]) {
            assert(e@.subrange(w - 4, w + 1) =~= page_key());
            let d = digit_run_end(e, w + 1);
            if w - i == 4 {
                return Some((w + 1, d));
            }
            i = d;
        } else {
            assert(!match_at(e@, i as int)) by {
                if w - i >= 4 && w + 1 < e.len() && e@.subrange(w - 4, w + 1) == page_key() {
                    assert(e@.subrange(w - 4, w + 1)[0] == e@[w - 4]);
                    assert(e@.subrange(w - 4, w + 1)[1] == e@[w - 3]);
                    assert(e@.subrange(w - 4, w + 1)[2] == e@[w - 2]);
                    assert(e@.subrange(w - 4, w + 1)[3] == e@[w - 1]);
                    assert(e@.subrange(w - 4, w + 1)[4] == e@[w as int]);
                }
            }
            i = i + 1;
        }
    }
    None
}

/// The entries of a header value between its commas, in order, as `str::split(',')`
/// gives them: an empty value gives one empty entry.
pub open spec fn split_commas(s: Seq<u8>) -> Seq<Seq<u8>>
    decreases s.len(),
{
    if s.len() == 0 {
        seq![Seq::empty()]
    } else {
        let parts = split_commas(s.drop_last());
        if s.last() == 44 {
            parts.push(Seq::empty())
        } else {
            parts.update(parts.len() - 1, parts.last().push(s.last()))
        }
    }
}

/// The page digits of one entry: only an entry that holds `rel="last"` gives any.
pub open spec fn entry_page(e: Seq<u8>) -> Option<Seq<u8>> {
    if contains(e, rel_last()) {
        match page_digits_from(e, 0) {
            Some((a, b)) => Some(e.subrange(a, b)),
            None => None,
        }
    } else {
        None
    }
}

/// The page digits of the first entry that gives any.
pub open spec fn first_entry_page(entries: Seq<Seq<u8>>) -> Option<Seq<u8>>
    decreases entries.len(),
{
    if entries.len() == 0 {
        None
    } else {
        match entry_page(entries[0]) {
            Some(d) => Some(d),
            None => first_entry_page(entries.drop_first()),
        }
    }
}

/// The last page announced by the value of a `link` header. A page number too large
/// for `usize` announces none.
pub open spec fn last_page_of(link: Seq<u8>) -> Option<usize> {
    match first_entry_page(split_commas(link)) {
        Some(d) => if digits_value(d) <= usize::MAX {
            Some(digits_value(d) as usize)
        } else {
            None
        },
        None => None,
    }
}

proof fn lemma_split_nonempty(s: Seq<u8>)
    ensures
        split_commas(s).len() >= 1,
    decreases s.len(),
{
    if s.len() > 0 {
        lemma_split_nonempty(s.drop_last());
    }
}

proof fn lemma_digits_value_prefix(d: Seq<u8>, n: int)
    requires
        0 <= n <= d.len(),
    ensures
        digits_value(d.subrange(0, n)) <= digits_value(d),
    decreases d.len() - n,
{
    if n < d.len() {
        lemma_digits_value_prefix(d, n + 1);
        assert(d.subrange(0, n + 1).drop_last() =~= d.subrange(0, n));
    } else {
        assert(d.subrange(0, n) =~= d);
    }
}

proof fn lemma_digits_end(s: Seq<u8>, j: int)
    requires
        0 <= j <= s.len(),
    ensures
        j <= digits_end(s, j) <= s.len(),
        forall|k: int| j <= k < digits_end(s, j) ==> is_digit_byte(#[trigger] s[k]),
    decreases s.len() - j,
{
    if j < s.len() && is_digit_byte(s[j]) {
        lemma_digits_end(s, j + 1);
    }
}

/// The page number is only ever read after a key that is exactly `page`: the digits
/// follow `page=`, and that key starts where the search started, after a byte that
/// `\w` does not match, or right after the digits of an earlier match. So the byte
/// before it is never a letter or `_`, and `per_page=` or any other key that ends in
/// `page=` is never taken for it.
pub proof fn lemma_page_key_exact(s: Seq<u8>, i: int)
    requires
        0 <= i,
    ensures
        page_digits_from(s, i) matches Some((a, b)) ==> i + 5 <= a < b <= s.len()
            && s.subrange(a - 5, a) == page_key() && is_digit_byte(s[a]) && (a - 5 == i
            || !is_word_byte(s[a - 6]) || is_digit_byte(s[a - 6])),
    decreases s.len() - i,
{
    if i < s.len() {
        if match_at(s, i) {
            let w = word_end(s, i);
            lemma_digits_end(s, w + 1);
            lemma_digits_end(s, w + 2);
            let d = digits_end(s, w + 1);
            assert(d == digits_end(s, w + 2));
            assert(d > w + 1);
            if w - i != 4 && i < d <= s.len() {
                lemma_page_key_exact(s, d);
                assert(is_digit_byte(s[d - 1]));
            }
        } else {
            lemma_page_key_exact(s, i + 1);
            match page_digits_from(s, i + 1) {
                Some((a, b)) => {
                    if a - 5 == i + 1 && is_word_byte(s[i]) {
                        let key = s.subrange(a - 5, a);
                        assert(s[i + 1] == key[0]);
                        assert(s[i + 2] == key[1]);
                        assert(s[i + 3] == key[2]);
                        assert(s[i + 4] == key[3]);
                        assert(s[i + 5] == key[4]);
                        assert(word_end(s, i + 5) == i + 5);
                        assert(word_end(s, i + 4) == i + 5);
                        assert(word_end(s, i + 3) == i + 5);
                        assert(word_end(s, i + 2) == i + 5);
                        assert(word_end(s, i + 1) == i + 5);
                        assert(word_end(s, i) == i + 5);
                        assert(s.subrange(i + 1, i + 6) == key);
                        assert(match_at(s, i));
                    }
                },
                None => {},
            }
        }
    }
}

/// Whether `p` occurs in `s` at position `j`.
fn occurs_at_exec(s: &Vec<u8>, p: &Vec<u8>, j: usize) -> (r: bool)
    ensures
        r == occurs_at(s@, p@, j as int),
{
    if j > s.len() || p.len() > s.len() - j {
        return false;
    }
    let mut k: usize = 0;
    while k < p.len()
        invariant
            j + p.len() <= s.len(),
            k <= p.len(),
            forall|m: int| 0 <= m < k ==> s@[j + m] == p@[m],
        decreases p.len() - k,
    {
        if s[j + k] != p[k] {
            assert(s@.subrange(j as int, j + p.len())[k as int] != p@[k as int]);
            return false;
        }
        k = k + 1;
    }
    assert(s@.subrange(j as int, j + p.len()) =~= p@);
    true
}

/// Whether `p` occurs anywhere in `s`.
fn contains_exec(s: &Vec<u8>, p: &Vec<u8>) -> (r: bool)
    ensures
        r == contains(s@, p@),
{
    let mut j: usize = 0;
    while j < s.len()
        invariant
            j <= s.len(),
            forall|m: int| 0 <= m < j ==> !occurs_at(s@, p@, m),
        decreases s.len() - j,
    {
        if occurs_at_exec(s, p, j) {
            return true;
        }
        j = j + 1;
    }
    if occurs_at_exec(s, p, j) {
        return true;
    }
    assert forall|m: int| !occurs_at(s@, p@, m) by {
        if 0 <= m && m + p@.len() <= s@.len() {
            assert(m <= j);
        }
    }
    false
}

/// Splits a header value at its commas.
fn split_entries(s: &Vec<u8>) -> (r: Vec<Vec<u8>>)
    ensures
        r@.len() == split_commas(s@).len(),
        forall|i: int| 0 <= i < r@.len() ==> #[trigger] r@[i]@ == split_commas(s@)[i],
{
    let mut done: Vec<Vec<u8>> = Vec::new();
    let mut cur: Vec<u8> = Vec::new();
    let mut k: usize = 0;
    while k < s.len()
        invariant
            k <= s.len(),
            done@.len() + 1 == split_commas(s@.subrange(0, k as int)).len(),
            forall|i: int| 0 <= i < done@.len() ==> #[trigger] done@[i]@ == split_commas(
                s@.subrange(0, k as int),
            )[i],
            cur@ == split_commas(s@.subrange(0, k as int)).last(),
        decreases s.len() - k,
    {
        let ghost before = s@.subrange(0, k as int);
        proof {
            lemma_split_nonempty(before);
            assert(s@.subrange(0, k + 1).drop_last() =~= before);
        }
        if s[k] == 44 {
            let finished = cur;
            done.push(finished);
            cur = Vec::new();
        } else {
            cur.push(s[k]);
        }
        k = k + 1;
    }
    assert(s@.subrange(0, s@.len() as int) =~= s@);
    proof {
        lemma_split_nonempty(s@);
    }
    let ghost parts = split_commas(s@);
    done.push(cur);
    assert forall|i: int| 0 <= i < done@.len() implies #[trigger] done@[i]@ == parts[i] by {
    }
    done
}

/// Reads a run of decimal digits as a `usize`, or `None` where its value does not fit.
fn digits_to_usize(e: &Vec<u8>, a: usize, b: usize) -> (r: Option<usize>)
    requires
        a <= b <= e.len(),
        forall|j: int| a <= j < b ==> is_digit_byte(#[trigger] e@[j]),
    ensures
        r == (if digits_value(e@.subrange(a as int, b as int)) <= usize::MAX {
            Some(digits_value(e@.subrange(a as int, b as int)) as usize)
        } else {
            None
        }),
{
    let ghost d = e@.subrange(a as int, b as int);
    let mut v: usize = 0;
    let mut k: usize = a;
    while k < b
        invariant
            a <= k <= b <= e.len(),
            d == e@.subrange(a as int, b as int),
            forall|j: int| a <= j < b ==> is_digit_byte(#[trigger] e@[j]),
            v == digits_value(e@.subrange(a as int, k as int)),
        decreases b - k,
    {
        let ghost next = e@.subrange(a as int, k + 1);
        assert(next.drop_last() =~= e@.subrange(a as int, k as int));
        assert(d.subrange(0, k + 1 - a) =~= next);
        let digit = (e[k] - 48) as usize;
        let grown = match v.checked_mul(10) {
            Some(t) => t.checked_add(digit),
            None => None,
        };
        match grown {
            Some(n) => {
                v = n;
            },
            None => {
                proof {
                    lemma_digits_value_prefix(d, k + 1 - a);
                }
                return None;
            },
        }
        k = k + 1;
    }
    Some(v)
}

/// Determines the last page announced by the value of a `link` header: the value of
/// the first key that is exactly `page=` in the first entry, holding `rel="last"`,
/// that has one. Keys such as `per_page=` are passed over.
pub fn last_page_from_link(link: &Vec<u8>) -> (r: Option<usize>)
    ensures
        r == last_page_of(link@),
{
    let entries = split_entries(link);
    let ghost ev = split_commas(link@);
    let marker: Vec<u8> = vec![114u8, 101u8, 108u8, 61u8, 34u8, 108u8, 97u8, 115u8, 116u8, 34u8];
    assert(marker@ =~= rel_last());
    assert(ev.subrange(0, ev.len() as int) =~= ev);
    let mut k: usize = 0;
    while k < entries.len()
        invariant
            k <= entries@.len() == ev.len(),
            ev == split_commas(link@),
            marker@ == rel_last(),
            forall|i: int| 0 <= i < entries@.len() ==> #[trigger] entries@[i]@ == ev[i],
            first_entry_page(ev.subrange(k as int, ev.len() as int)) == first_entry_page(ev),
        decreases entries.len() - k,
    {
        let e = &entries[k];
        let ghost rest = ev.subrange(k as int, ev.len() as int);
        assert(rest[0] == e@);
        assert(rest.drop_first() =~= ev.subrange(k + 1, ev.len() as int));
        if contains_exec(e, &marker) {
            match page_digits(e) {
                Some((a, b)) => {
                    return digits_to_usize(e, a, b);
                },
                None => {},
            }
        }
        k = k + 1;
    }
    None
}

/// The header map of an HTTP response, opaque here.
#[verifier::external_type_specification]
#[verifier::external_body]
#[verifier::reject_recursive_types(T)]
pub struct ExHeaderMap<T>(HeaderMap<T>);

/// One header value, opaque here.
#[verifier::external_type_specification]
#[verifier::external_body]
pub struct ExHeaderValue(HeaderValue);

/// For each header name present in the map, in lower case, the bytes of the first
/// value stored under it.
pub uninterp spec fn first_header_values(h: HeaderMap<HeaderValue>) -> Map<Seq<char>, Seq<u8>>;

/// The name of the pagination header.
pub open spec fn link_name() -> Seq<char> {
    seq!['l', 'i', 'n', 'k']
}

/// Relies on `HeaderMap::get`, which gives the first value stored under a name or
/// `None`, and on `HeaderValue::as_bytes`, which hands out that value's bytes.
#[verifier::external_body]
fn link_header(headers: &HeaderMap<HeaderValue>) -> (r: Option<Vec<u8>>)
    ensures
        r is None <==> !first_header_values(*headers).contains_key(link_name()),
        r matches Some(b) ==> b@ == first_header_values(*headers)[link_name()],
{
    match headers.get("link") {
        Some(value) => Some(value.as_bytes().to_vec()),
        None => None,
    }
}

/// A byte that a header value may hold and still be read as text: visible ASCII or a
/// tab.
pub open spec fn is_visible_ascii(b: u8) -> bool {
    (32 <= b && b < 127) || b == 9
}

/// Every byte of `s` is visible ASCII.
pub open spec fn all_visible(s: Seq<u8>) -> bool {
    forall|i: int| 0 <= i < s.len() ==> is_visible_ascii(#[trigger] s[i])
}

/// What the response headers `h` say of the last page: none without a `link` header, an
/// error where that header is not text, else the page that the header announces.
pub open spec fn last_page_result(h: HeaderMap<HeaderValue>) -> Result<Option<usize>, LookupError> {
    let m = first_header_values(h);
    if !m.contains_key(link_name()) {
        Ok(None)
    } else if !all_visible(m[link_name()]) {
        Err(LookupError::HeaderToString)
    } else {
        Ok(last_page_of(m[link_name()]))
    }
}

fn visible_text(s: &Vec<u8>) -> (r: bool)
    ensures
        r == all_visible(s@),
{
    let mut k: usize = 0;
    while k < s.len()
        invariant
            k <= s.len(),
            forall|i: int| 0 <= i < k ==> is_visible_ascii(#[trigger] s@[i]),
        decreases s.len() - k,
    {
        let b = s[k];
        if !((32 <= b && b < 127) || b == 9) {
            return false;
        }
        k = k + 1;
    }
    true
}

/// Determines the last page, if any, from the headers of a response.
///
/// Fails with `HeaderToString` where the `link` header holds bytes that are not visible
/// ASCII.
pub fn get_last_page(headers: &HeaderMap<HeaderValue>) -> (r: Result<Option<usize>, LookupError>)
    ensures
        r == last_page_result(*headers),
{
    match link_header(headers) {
        None => Ok(None),
        Some(link) => {
            if visible_text(&link) {
                Ok(last_page_from_link(&link))
            } else {
                Err(LookupError::HeaderToString)
            }
        },
    }
}

} // verus!
