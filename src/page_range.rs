use crate::error::Error;
use vstd::prelude::*;
use vstd::arithmetic::div_mod::lemma_fundamental_div_mod;

verus! {

// ---------------------------------------------------------------------------
// The range grammar, as mathematics over characters.
// ---------------------------------------------------------------------------

/// The characters that `char::is_whitespace` accepts (Unicode White_Space).
pub open spec fn is_whitespace(c: char) -> bool {
    let u = c as u32;
    (0x9 <= u && u <= 0xd) || u == 0x20 || u == 0x85 || u == 0xa0 || u == 0x1680 || (0x2000 <= u
        && u <= 0x200a) || u == 0x2028 || u == 0x2029 || u == 0x202f || u == 0x205f || u == 0x3000
}

/// `s` without its leading whitespace.
pub open spec fn trim_start(s: Seq<char>) -> Seq<char>
    decreases s.len(),
{
    if s.len() > 0 && is_whitespace(s[0]) {
        trim_start(s.drop_first())
    } else {
        s
    }
}

/// `s` without its trailing whitespace.
pub open spec fn trim_end(s: Seq<char>) -> Seq<char>
    decreases s.len(),
{
    if s.len() > 0 && is_whitespace(s.last()) {
        trim_end(s.drop_last())
    } else {
        s
    }
}

/// `s` without leading or trailing whitespace.
pub open spec fn trim(s: Seq<char>) -> Seq<char> {
    trim_end(trim_start(s))
}

/// The pieces of `s` between occurrences of `sep`; always at least one piece.
pub open spec fn split_on(s: Seq<char>, sep: char) -> Seq<Seq<char>>
    decreases s.len(),
{
    if s.len() == 0 {
        seq![Seq::empty()]
    } else {
        let prev = split_on(s.drop_last(), sep);
        if s.last() == sep {
            prev.push(Seq::empty())
        } else {
            prev.update(prev.len() - 1, prev.last().push(s.last()))
        }
    }
}

pub open spec fn is_digit(c: char) -> bool {
    '0' <= c && c <= '9'
}

pub open spec fn digit_value(c: char) -> nat {
    (c as u32 - '0' as u32) as nat
}

/// The number that a sequence of decimal digits denotes.
pub open spec fn digits_value(s: Seq<char>) -> nat
    decreases s.len(),
{
    if s.len() == 0 {
        0
    } else {
        digits_value(s.drop_last()) * 10 + digit_value(s.last())
    }
}

pub open spec fn all_digits(s: Seq<char>) -> bool {
    forall|i: int| 0 <= i < s.len() ==> is_digit(#[trigger] s[i])
}

/// What `str::parse::<u32>` accepts: an optional `+`, then one or more
/// decimal digits whose value fits in 32 bits.
pub open spec fn parsed_u32(s: Seq<char>) -> Option<u32> {
    let d = if s.len() > 0 && s[0] == '+' {
        s.drop_first()
    } else {
        s
    };
    if d.len() > 0 && all_digits(d) && digits_value(d) <= u32::MAX {
        Some(digits_value(d) as u32)
    } else {
        None
    }
}

/// The position of the first `-` in `t`, which must hold one.
pub open spec fn first_dash(t: Seq<char>) -> int {
    choose|k: int| 0 <= k < t.len() && t[k] == '-' && !t.take(k).contains('-')
}

/// The inclusive bounds a comma-separated token names, if it is well formed:
/// `n` names `(n, n)` and `a-b` names `(a, b)`.
#[verifier::opaque]
pub open spec fn token_bounds(tok: Seq<char>) -> Option<(u32, u32)> {
    let t = trim(tok);
    if t.contains('-') {
        let k = first_dash(t);
        match (parsed_u32(trim(t.take(k))), parsed_u32(trim(t.skip(k + 1)))) {
            (Some(a), Some(b)) => Some((a, b)),
            _ => None,
        }
    } else {
        match parsed_u32(t) {
            Some(p) => Some((p, p)),
            None => None,
        }
    }
}

/// A token is accepted when it is well formed, 1-based, not reversed and
/// within `max_page`.
pub open spec fn token_valid(tok: Seq<char>, max_page: u32) -> bool {
    match token_bounds(tok) {
        Some((a, b)) => 1 <= a && a <= b && b <= max_page,
        None => false,
    }
}

pub open spec fn token_covers(tok: Seq<char>, p: int) -> bool {
    match token_bounds(tok) {
        Some((a, b)) => a <= p <= b,
        None => false,
    }
}

/// The comma-separated tokens of a range expression.
pub open spec fn range_tokens(input: Seq<char>) -> Seq<Seq<char>> {
    split_on(input, ',')
}

/// A range expression is accepted when it is empty or all its tokens are.
pub open spec fn range_valid(input: Seq<char>, max_page: u32) -> bool {
    input.len() == 0 || forall|i: int|
        0 <= i < range_tokens(input).len() ==> token_valid(#[trigger] range_tokens(input)[i], max_page)
}

/// Page `p` is named by some token of `input`.
pub open spec fn page_selected(input: Seq<char>, p: int) -> bool {
    input.len() > 0 && exists|i: int|
        0 <= i < range_tokens(input).len() && token_covers(#[trigger] range_tokens(input)[i], p)
}

pub open spec fn strictly_increasing(v: Seq<u32>) -> bool {
    forall|i: int, j: int| 0 <= i < j < v.len() ==> v[i] < v[j]
}

// ---------------------------------------------------------------------------
// std's string operations, as the parser uses them.
// ---------------------------------------------------------------------------

/// Relies on `str::split(',')`: the pieces between commas, in order, with an
/// empty piece around each leading, trailing or doubled comma.
#[verifier::external_body]
fn split_commas<'a>(s: &'a str) -> (r: Vec<&'a str>)
    ensures
        r@.len() == split_on(s@, ',').len(),
        forall|i: int| 0 <= i < r@.len() ==> (#[trigger] r@[i])@ == split_on(s@, ',')[i],
{
    s.split(',').collect()
}

/// Relies on `str::trim`: removes leading and trailing `char::is_whitespace`.
#[verifier::external_body]
fn trim_str<'a>(s: &'a str) -> (r: &'a str)
    ensures
        r@ == trim(s@),
{
    s.trim()
}

/// Relies on `str::split_once('-')`: splits around the first `-`, if any.
#[verifier::external_body]
fn split_at_dash<'a>(s: &'a str) -> (r: Option<(&'a str, &'a str)>)
    ensures
        r is None <==> !s@.contains('-'),
        r matches Some((a, b)) ==> s@ == a@ + seq!['-'] + b@ && !a@.contains('-'),
{
    s.split_once('-')
}

/// Relies on `<u32 as FromStr>::from_str`: an optional `+` and decimal digits
/// that fit in 32 bits.
#[verifier::external_body]
fn parse_u32(s: &str) -> (r: Option<u32>)
    ensures
        r == parsed_u32(s@),
{
    s.parse::<u32>().ok()
}

/// The decimal digits of `n`, most significant first, without leading zeros.
pub open spec fn decimal(n: nat) -> Seq<char>
    decreases n,
{
    if n < 10 {
        seq![digit_char(n)]
    } else {
        decimal(n / 10).push(digit_char(n % 10))
    }
}

pub open spec fn digit_char(d: nat) -> char {
    if d == 0 {
        '0'
    } else if d == 1 {
        '1'
    } else if d == 2 {
        '2'
    } else if d == 3 {
        '3'
    } else if d == 4 {
        '4'
    } else if d == 5 {
        '5'
    } else if d == 6 {
        '6'
    } else if d == 7 {
        '7'
    } else if d == 8 {
        '8'
    } else {
        '9'
    }
}

/// Relies on `u32::to_string`: the decimal digits, without sign or padding.
#[verifier::external_body]
pub(crate) fn u32_text(n: u32) -> (r: String)
    ensures
        r@ == decimal(n as nat),
{
    n.to_string()
}

/// Relies on `usize::to_string`: the decimal digits, without sign or padding.
#[verifier::external_body]
pub(crate) fn usize_text(n: usize) -> (r: String)
    ensures
        r@ == decimal(n as nat),
{
    n.to_string()
}

/// `a` followed by `b`, as a new string.
fn concat(a: &str, b: &str) -> (r: String)
    ensures
        r@ == a@ + b@,
{
    let mut s = String::from_str(a);
    s.append(b);
    s
}

// ---------------------------------------------------------------------------
// Parsing.
// ---------------------------------------------------------------------------

/// A `-` with none before it is the first one.
pub proof fn lemma_first_dash(t: Seq<char>, k: int)
    requires
        0 <= k < t.len(),
        t[k] == '-',
        !t.take(k).contains('-'),
    ensures
        first_dash(t) == k,
{
    let j = first_dash(t);
    assert(0 <= j < t.len() && t[j] == '-' && !t.take(j).contains('-'));
    if j < k {
        assert(t.take(k)[j] == '-');
    } else if k < j {
        assert(t.take(j)[k] == '-');
    }
}

/// The bounds of one token, or the reason it is refused.
fn token_range(part: &str, max_page: u32) -> (r: Result<(u32, u32), Error>)
    ensures
        r is Ok <==> token_valid(part@, max_page),
        r matches Ok((a, b)) ==> token_bounds(part@) == Some((a, b)),
        r matches Err(e) ==> e is InvalidArgs,
{
    reveal(token_bounds);
    let t = trim_str(part);
    let (start, end) = match split_at_dash(t) {
        Some((a, b)) => {
            proof {
                assert(t@[a@.len() as int] == '-');
                assert(t@.take(a@.len() as int) =~= a@);
                lemma_first_dash(t@, a@.len() as int);
                assert(t@.skip(a@.len() + 1int) =~= b@);
            }
            let start = match parse_u32(trim_str(a)) {
                Some(v) => v,
                None => return Err(Error::InvalidArgs(concat("invalid page number: ", a))),
            };
            let end = match parse_u32(trim_str(b)) {
                Some(v) => v,
                None => return Err(Error::InvalidArgs(concat("invalid page number: ", b))),
            };
            (start, end)
        },
        None => {
            let page = match parse_u32(t) {
                Some(v) => v,
                None => return Err(Error::InvalidArgs(concat("invalid page number: ", t))),
            };
            (page, page)
        },
    };
    if start == 0 || end == 0 {
        return Err(Error::InvalidArgs(String::from_str("page numbers are 1-based")));
    }
    if start > end {
        let mut msg = String::from_str("invalid range: ");
        msg.append(u32_text(start).as_str());
        msg.append(" > ");
        msg.append(u32_text(end).as_str());
        return Err(Error::InvalidArgs(msg));
    }
    if end > max_page {
        let mut msg = String::from_str("page ");
        msg.append(u32_text(end).as_str());
        msg.append(" exceeds page count ");
        msg.append(u32_text(max_page).as_str());
        return Err(Error::InvalidArgs(msg));
    }
    Ok((start, end))
}

/// The strictly increasing list holding the pages of `v` and those of `a..=b`.
fn union_range(v: &Vec<u32>, a: u32, b: u32) -> (r: Vec<u32>)
    requires
        strictly_increasing(v@),
        a <= b,
    ensures
        strictly_increasing(r@),
        forall|p: u32| r@.contains(p) <==> (v@.contains(p) || (a <= p && p <= b)),
{
    let mut r: Vec<u32> = Vec::new();
    let mut j: usize = 0;
    while j < v.len() && v[j] < a
        invariant
            strictly_increasing(v@),
            j <= v.len(),
            r@ == v@.take(j as int),
            forall|k: int| 0 <= k < j ==> v@[k] < a,
        decreases v.len() - j,
    {
        r.push(v[j]);
        j += 1;
        assert(r@ =~= v@.take(j as int));
    }
    let ghost low = j as int;
    proof {
        assert forall|x: u32| r@.contains(x) <==> (v@.contains(x) && x < a) by {
            if v@.contains(x) && x < a {
                let k = choose|k: int| 0 <= k < v@.len() && v@[k] == x;
                if k >= j {
                    assert(v@[j as int] <= v@[k]);
                }
                assert(r@[k] == x);
            }
        }
    }
    let mut p: u64 = a as u64;
    while p <= b as u64
        invariant
            strictly_increasing(v@),
            0 <= low == j,
            j <= v.len(),
            j < v.len() ==> v@[j as int] >= a,
            forall|k: int| 0 <= k < j ==> v@[k] < a,
            a <= p <= b as u64 + 1,
            strictly_increasing(r@),
            forall|k: int| 0 <= k < r@.len() ==> r@[k] < p,
            forall|x: u32| r@.contains(x) <==> ((v@.contains(x) && x < a) || (a <= x && x < p)),
        decreases b as u64 + 1 - p,
    {
        let ghost old_r = r@;
        r.push(p as u32);
        proof {
            assert forall|x: u32| r@.contains(x) <==> (old_r.contains(x) || x as int == p as int) by {
                if old_r.contains(x) {
                    let k = choose|k: int| 0 <= k < old_r.len() && old_r[k] == x;
                    assert(r@[k] == x);
                }
                if r@.contains(x) && x as int != p as int {
                    let k = choose|k: int| 0 <= k < r@.len() && r@[k] == x;
                    assert(old_r[k] == x);
                }
                if x as int == p as int {
                    assert(r@[old_r.len() as int] == x);
                }
            }
        }
        assert forall|x: u32| r@.contains(x) <==> ((v@.contains(x) && x < a) || (a <= x && x < p + 1)) by {
            assert(r@.contains(x) <==> (old_r.contains(x) || x as int == p as int));
            assert(old_r.contains(x) <==> ((v@.contains(x) && x < a) || (a <= x && x < p)));
        }
        p += 1;
    }
    // All of v's pages up to b are now in r.
    while j < v.len() && v[j] <= b
        invariant
            strictly_increasing(v@),
            0 <= low <= j <= v.len(),
            j < v.len() ==> v@[j as int] >= a,
            forall|k: int| low <= k < j ==> a <= #[trigger] v@[k] <= b,
            strictly_increasing(r@),
            forall|k: int| 0 <= k < r@.len() ==> r@[k] <= b,
            forall|x: u32| r@.contains(x) <==> ((v@.contains(x) && x < a) || (a <= x && x <= b)),
            forall|k: int| 0 <= k < low ==> #[trigger] v@[k] < a,
        decreases v.len() - j,
    {
        j += 1;
    }
    let ghost mid = j as int;
    let ghost r_mid = r@;
    while j < v.len()
        invariant
            strictly_increasing(v@),
            0 <= low <= mid <= j <= v.len(),
            mid < v.len() ==> v@[mid] > b,
            forall|k: int| 0 <= k < low ==> #[trigger] v@[k] < a,
            forall|k: int| low <= k < mid ==> a <= #[trigger] v@[k] <= b,
            strictly_increasing(r_mid),
            forall|k: int| 0 <= k < r_mid.len() ==> r_mid[k] <= b,
            forall|x: u32| r_mid.contains(x) <==> ((v@.contains(x) && x < a) || (a <= x && x <= b)),
            r@ == r_mid + v@.subrange(mid, j as int),
        decreases v.len() - j,
    {
        r.push(v[j]);
        j += 1;
        assert(r@ =~= r_mid + v@.subrange(mid, j as int));
    }
    proof {
        assert(strictly_increasing(r@)) by {
            assert forall|i: int, k: int| 0 <= i < k < r@.len() implies r@[i] < r@[k] by {
                if k >= r_mid.len() && i < r_mid.len() {
                    assert(r_mid[i] <= b);
                }
            }
        }
        assert forall|x: u32| r@.contains(x) <==> (v@.contains(x) || (a <= x && x <= b)) by {
            if v@.contains(x) || (a <= x && x <= b) {
                if v@.contains(x) && x > b {
                    let k = choose|k: int| 0 <= k < v@.len() && v@[k] == x;
                    if k < mid {
                        if k < low {
                            assert(v@[k] < a);
                        }
                    }
                    assert(r@[r_mid.len() + k - mid] == x);
                } else {
                    assert(r_mid.contains(x));
                    let i = choose|i: int| 0 <= i < r_mid.len() && r_mid[i] == x;
                    assert(r@[i] == x);
                }
            }
            if r@.contains(x) {
                let k = choose|k: int| 0 <= k < r@.len() && r@[k] == x;
                if k >= r_mid.len() {
                    assert(v@[k - r_mid.len() + mid] == x);
                } else {
                    assert(r_mid.contains(x));
                }
            }
        }
    }
    r
}

/// Parses a page range expression such as `1-5,8,10-12` into the strictly
/// increasing list of the 1-based pages it names. Overlapping tokens are
/// merged; an empty expression names no page.
pub fn parse_page_range(input: &str, max_page: u32) -> (r: Result<Vec<u32>, Error>)
    ensures
        r is Ok <==> range_valid(input@, max_page),
        r matches Err(e) ==> e is InvalidArgs,
        r matches Ok(v) ==> {
            &&& strictly_increasing(v@)
            &&& forall|i: int| 0 <= i < v@.len() ==> 1 <= #[trigger] v@[i] <= max_page
            &&& forall|p: u32| v@.contains(p) <==> page_selected(input@, p as int)
        },
{
    let mut pages: Vec<u32> = Vec::new();
    if input.unicode_len() == 0 {
        return Ok(pages);
    }
    let parts = split_commas(input);
    let ghost toks = range_tokens(input@);
    let mut i: usize = 0;
    while i < parts.len()
        invariant
            input@.len() > 0,
            toks == range_tokens(input@),
            parts@.len() == toks.len(),
            forall|j: int| 0 <= j < parts@.len() ==> (#[trigger] parts@[j])@ == toks[j],
            i <= parts.len(),
            forall|j: int| 0 <= j < i ==> token_valid(#[trigger] toks[j], max_page),
            strictly_increasing(pages@),
            forall|p: u32|
                pages@.contains(p) <==> exists|j: int|
                    0 <= j < i && token_covers(#[trigger] toks[j], p as int),
        decreases parts.len() - i,
    {
        let (start, end) = match token_range(parts[i], max_page) {
            Ok(bounds) => bounds,
            Err(e) => {
                assert(!token_valid(toks[i as int], max_page));
                return Err(e);
            },
        };
        let ghost old_pages = pages@;
        pages = union_range(&pages, start, end);
        proof {
            assert forall|p: u32|
                pages@.contains(p) <==> exists|j: int|
                    0 <= j < i + 1 && token_covers(#[trigger] toks[j], p as int) by {
                if pages@.contains(p) && !old_pages.contains(p) {
                    assert(token_covers(toks[i as int], p as int));
                }
                if exists|j: int| 0 <= j < i + 1 && token_covers(#[trigger] toks[j], p as int) {
                    let j = choose|j: int| 0 <= j < i + 1 && token_covers(#[trigger] toks[j], p as int);
                    if j < i {
                        assert(old_pages.contains(p));
                    }
                }
            }
        }
        i += 1;
    }
    proof {
        assert forall|k: int| 0 <= k < pages@.len() implies 1 <= #[trigger] pages@[k] <= max_page by {
            assert(pages@.contains(pages@[k]));
            let j = choose|j: int| 0 <= j < i && token_covers(#[trigger] toks[j], pages@[k] as int);
            assert(token_valid(toks[j], max_page));
        }
    }
    Ok(pages)
}

// ---------------------------------------------------------------------------
// Partitioning.
// ---------------------------------------------------------------------------

/// How many chunks `total` pages make for `workers` workers.
pub open spec fn chunk_count(total: u32, workers: u32) -> nat {
    if total == 0 || workers == 0 {
        0
    } else if workers < total {
        workers as nat
    } else {
        total as nat
    }
}

/// The size of chunk `i`: the first `total % n` chunks take one page more.
pub open spec fn chunk_size(total: u32, workers: u32, i: int) -> int {
    let n = chunk_count(total, workers) as int;
    total as int / n + if i < total as int % n {
        1int
    } else {
        0int
    }
}

/// The 1-based position where chunk `i` starts.
pub open spec fn chunk_start(total: u32, workers: u32, i: int) -> int {
    let n = chunk_count(total, workers) as int;
    let rem = total as int % n;
    i * (total as int / n) + (if i < rem {
        i
    } else {
        rem
    }) + 1
}

/// Splits positions `1..=total_pages` into `min(num_workers, total_pages)`
/// contiguous inclusive chunks whose sizes differ by at most one, larger
/// chunks first. No chunks when either count is zero.
pub fn divide_pages(total_pages: u32, num_workers: u32) -> (r: Vec<(u32, u32)>)
    ensures
        r@.len() == chunk_count(total_pages, num_workers),
        forall|i: int|
            0 <= i < r@.len() ==> (#[trigger] r@[i]).0 == chunk_start(total_pages, num_workers, i)
                && r@[i].1 == chunk_start(total_pages, num_workers, i) + chunk_size(
                total_pages,
                num_workers,
                i,
            ) - 1,
        r@.len() > 0 ==> r@[0].0 == 1 && r@.last().1 == total_pages,
        forall|i: int| 0 <= i < r@.len() ==> 1 <= (#[trigger] r@[i]).0 <= r@[i].1 <= total_pages,
        forall|i: int| 0 <= i < r@.len() - 1 ==> (#[trigger] r@[i + 1]).0 == r@[i].1 + 1,
        forall|i: int, j: int|
            0 <= i < j < r@.len() ==> 0 <= (#[trigger] r@[i].1 - r@[i].0) - (#[trigger] r@[j].1
                - r@[j].0) <= 1,
{
    let mut ranges: Vec<(u32, u32)> = Vec::new();
    if total_pages == 0 || num_workers == 0 {
        return ranges;
    }
    let workers = if num_workers < total_pages {
        num_workers
    } else {
        total_pages
    };
    let base_size = total_pages / workers;
    let remainder = total_pages % workers;
    proof {
        lemma_fundamental_div_mod(total_pages as int, workers as int);
        assert(workers as int * base_size as int <= total_pages) by (nonlinear_arith)
            requires
                total_pages as int == workers as int * (total_pages as int / workers as int)
                    + total_pages as int % workers as int,
                base_size as int == total_pages as int / workers as int,
                0 <= total_pages as int % workers as int,
        ;
    }
    let mut start: u32 = 1;
    let mut i: u32 = 0;
    while i < workers
        invariant
            workers == chunk_count(total_pages, num_workers),
            0 < workers <= total_pages,
            base_size == total_pages / workers,
            remainder == total_pages % workers,
            i <= workers,
            i < workers ==> start == chunk_start(total_pages, num_workers, i as int),
            ranges@.len() == i,
            forall|k: int|
                0 <= k < i ==> (#[trigger] ranges@[k]).0 == chunk_start(total_pages, num_workers, k)
                    && ranges@[k].1 == chunk_start(total_pages, num_workers, k) + chunk_size(
                    total_pages,
                    num_workers,
                    k,
                ) - 1,
        decreases workers - i,
    {
        proof {
            lemma_chunk_facts(total_pages, num_workers, i as int);
            lemma_chunk_start_le(total_pages, num_workers, i as int + 1, workers as int);
            if i + 1 < workers {
                lemma_chunk_facts(total_pages, num_workers, i as int + 1);
                lemma_chunk_start_le(total_pages, num_workers, i as int + 2, workers as int);
            }
        }
        let chunk = base_size + if i < remainder {
            1u32
        } else {
            0u32
        };
        let end = start + (chunk - 1);
        ranges.push((start, end));
        if end < u32::MAX {
            start = end + 1;
        }
        i += 1;
    }
    proof {
        lemma_chunk_facts(total_pages, num_workers, 0);
        assert forall|k: int| 0 <= k < ranges@.len() implies 1 <= (#[trigger] ranges@[k]).0
            <= ranges@[k].1 <= total_pages by {
            lemma_chunk_facts(total_pages, num_workers, k);
            lemma_chunk_start_le(total_pages, num_workers, 0, k);
            lemma_chunk_start_le(total_pages, num_workers, k + 1, workers as int);
        }
        assert forall|k: int| 0 <= k < ranges@.len() - 1 implies (#[trigger] ranges@[k + 1]).0
            == ranges@[k].1 + 1 by {
            lemma_chunk_facts(total_pages, num_workers, k);
        }
        lemma_chunk_facts(total_pages, num_workers, workers as int - 1);
    }
    ranges
}

/// Facts of one chunk: its size is `base` or `base + 1`, at least one page,
/// the next chunk starts right after it, and the chunks end at `total`.
proof fn lemma_chunk_facts(total: u32, workers: u32, i: int)
    requires
        chunk_count(total, workers) > 0,
        0 <= i,
    ensures
        chunk_start(total, workers, i + 1) == chunk_start(total, workers, i) + chunk_size(
            total,
            workers,
            i,
        ),
        i < chunk_count(total, workers) ==> chunk_size(total, workers, i) >= 1,
        chunk_size(total, workers, i) <= u32::MAX,
        chunk_start(total, workers, 0) == 1,
        chunk_start(total, workers, chunk_count(total, workers) as int) == total + 1,
        total as int / chunk_count(total, workers) as int <= chunk_size(total, workers, i)
            <= total as int / chunk_count(total, workers) as int + 1,
        i + 1 <= total as int % chunk_count(total, workers) as int ==> chunk_size(
            total,
            workers,
            i,
        ) == total as int / chunk_count(total, workers) as int + 1,
        i >= total as int % chunk_count(total, workers) as int ==> chunk_size(total, workers, i)
            == total as int / chunk_count(total, workers) as int,
{
    let n = chunk_count(total, workers) as int;
    let base = total as int / n;
    let rem = total as int % n;
    lemma_fundamental_div_mod(total as int, n);
    assert((i + 1) * base == i * base + base) by (nonlinear_arith);
    if base == 0 {
        assert(n * base == 0) by (nonlinear_arith)
            requires
                base == 0,
        ;
    }
    assert(n * base >= base) by (nonlinear_arith)
        requires
            n >= 1,
            base >= 0,
    ;
    assert(n * base >= n) by (nonlinear_arith)
        requires
            n >= 1,
            base >= 1,
    ;
}

proof fn lemma_chunk_start_le(total: u32, workers: u32, i: int, j: int)
    requires
        chunk_count(total, workers) > 0,
        0 <= i <= j,
    ensures
        chunk_start(total, workers, i) <= chunk_start(total, workers, j),
{
    let n = chunk_count(total, workers) as int;
    let base = total as int / n;
    assert(i * base <= j * base) by (nonlinear_arith)
        requires
            i <= j,
            base >= 0,
    ;
}

// ---------------------------------------------------------------------------
// Compression back into range syntax.
// ---------------------------------------------------------------------------

/// The maximal runs of consecutive pages in `l`, in order, as inclusive
/// `(first, last)` pairs.
pub open spec fn page_runs(l: Seq<u32>) -> Seq<(u32, u32)>
    decreases l.len(),
{
    if l.len() == 0 {
        Seq::empty()
    } else {
        let prev = page_runs(l.drop_last());
        let x = l.last();
        if prev.len() > 0 && x as int == prev.last().1 as int + 1 {
            prev.update(prev.len() - 1, (prev.last().0, x))
        } else {
            prev.push((x, x))
        }
    }
}

/// A run written as a token: `n` for a single page, `a-b` otherwise.
pub open spec fn run_text(first: u32, last: u32) -> Seq<char> {
    if first == last {
        decimal(first as nat)
    } else {
        decimal(first as nat) + seq!['-'] + decimal(last as nat)
    }
}

/// The pieces joined with commas between them.
pub open spec fn join_commas(parts: Seq<Seq<char>>) -> Seq<char>
    decreases parts.len(),
{
    if parts.len() == 0 {
        Seq::empty()
    } else if parts.len() == 1 {
        parts[0]
    } else {
        join_commas(parts.drop_last()) + seq![','] + parts.last()
    }
}

pub open spec fn run_texts(runs: Seq<(u32, u32)>) -> Seq<Seq<char>> {
    runs.map_values(|r: (u32, u32)| run_text(r.0, r.1))
}

/// The compact range expression of a page list.
pub open spec fn compressed(l: Seq<u32>) -> Seq<char> {
    join_commas(run_texts(page_runs(l)))
}

pub open spec fn string_views(v: Seq<String>) -> Seq<Seq<char>> {
    v.map_values(|s: String| s@)
}

/// Appends the token of the run `start..=end` to `parts`.
pub fn push_range(parts: &mut Vec<String>, start: u32, end: u32)
    ensures
        string_views(final(parts)@) == string_views(old(parts)@).push(run_text(start, end)),
{
    proof {
        reveal_strlit("-");
    }
    let text = if start == end {
        u32_text(start)
    } else {
        let mut t = u32_text(start);
        t.append("-");
        t.append(u32_text(end).as_str());
        t
    };
    assert(text@ == run_text(start, end));
    let ghost before = parts@;
    parts.push(text);
    assert(parts@ == before.push(text));
    assert(string_views(parts@) =~= string_views(old(parts)@).push(run_text(start, end)));
}

fn join_with_commas(parts: &Vec<String>) -> (r: String)
    ensures
        r@ == join_commas(string_views(parts@)),
{
    let mut out = String::new();
    let mut i: usize = 0;
    while i < parts.len()
        invariant
            i <= parts.len(),
            out@ == join_commas(string_views(parts@.take(i as int))),
        decreases parts.len() - i,
    {
        proof {
            reveal_strlit(",");
            let next = string_views(parts@.take(i as int + 1));
            assert(next.drop_last() =~= string_views(parts@.take(i as int)));
            assert(next.last() == parts@[i as int]@);
        }
        if i > 0 {
            out.append(",");
        }
        out.append(parts[i].as_str());
        i += 1;
        proof {
            if i == 1 {
                assert(out@ =~= join_commas(string_views(parts@.take(i as int))));
            }
        }
    }
    assert(parts@.take(parts@.len() as int) =~= parts@);
    out
}

/// Writes a page list back in range syntax: runs of consecutive pages
/// become `a-b`, single pages stay bare, tokens are joined with commas.
pub fn format_page_list(pages: &[u32]) -> (r: String)
    ensures
        r@ == compressed(pages@),
{
    if pages.len() == 0 {
        return String::new();
    }
    let mut parts: Vec<String> = Vec::new();
    let mut range_start = pages[0];
    let mut range_end = pages[0];
    proof {
        let one = pages@.take(1);
        assert(one.drop_last() =~= Seq::<u32>::empty());
        assert(page_runs(one.drop_last()).len() == 0);
        assert(one.last() == pages@[0]);
        assert(page_runs(one) == seq![(pages@[0], pages@[0])]);
        assert(run_texts(page_runs(one).drop_last()) =~= string_views(parts@));
    }
    let mut i: usize = 1;
    while i < pages.len()
        invariant
            1 <= i <= pages@.len(),
            page_runs(pages@.take(i as int)).len() >= 1,
            run_texts(page_runs(pages@.take(i as int)).drop_last()) == string_views(parts@),
            page_runs(pages@.take(i as int)).last() == (range_start, range_end),
        decreases pages.len() - i,
    {
        let page = pages[i];
        let ghost prev = page_runs(pages@.take(i as int));
        assert(pages@.take(i as int + 1).drop_last() =~= pages@.take(i as int));
        if range_end < u32::MAX && page == range_end + 1 {
            range_end = page;
            assert(page_runs(pages@.take(i as int + 1)).drop_last() =~= prev.drop_last());
        } else {
            push_range(&mut parts, range_start, range_end);
            range_start = page;
            range_end = page;
            assert(page_runs(pages@.take(i as int + 1)).drop_last() =~= prev);
            assert(run_texts(prev) =~= run_texts(prev.drop_last()).push(
                run_text(prev.last().0, prev.last().1),
            ));
        }
        i += 1;
    }
    let ghost runs = page_runs(pages@.take(i as int));
    push_range(&mut parts, range_start, range_end);
    assert(pages@.take(i as int) =~= pages@);
    assert(run_texts(runs) =~= run_texts(runs.drop_last()).push(run_text(range_start, range_end)));
    join_with_commas(&parts)
}

} // verus!
