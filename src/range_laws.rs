//! Laws relating the range grammar's parser and its compressor.
use crate::page_range::{
    all_digits, compressed, decimal, digit_char, digit_value, digits_value, is_digit,
    is_whitespace, join_commas, lemma_first_dash, page_runs, page_selected, parsed_u32,
    range_tokens, range_valid, run_text, run_texts, split_on, strictly_increasing, token_bounds,
    token_covers, token_valid, trim,
};
use vstd::prelude::*;

verus! {

// ---------------------------------------------------------------------------
// Round trip of compression and parsing.
// ---------------------------------------------------------------------------

proof fn lemma_digit_char(d: nat)
    requires
        d < 10,
    ensures
        is_digit(digit_char(d)),
        digit_value(digit_char(d)) == d,
{
}

proof fn lemma_decimal(n: nat)
    ensures
        decimal(n).len() >= 1,
        all_digits(decimal(n)),
        digits_value(decimal(n)) == n,
    decreases n,
{
    if n < 10 {
        lemma_digit_char(n);
        assert(decimal(n).drop_last() =~= Seq::<char>::empty());
        assert(digits_value(decimal(n).drop_last()) == 0);
        assert(decimal(n).last() == digit_char(n));
    } else {
        lemma_decimal(n / 10);
        lemma_digit_char(n % 10);
        let s = decimal(n);
        assert(s.drop_last() =~= decimal(n / 10));
        assert(s.last() == digit_char(n % 10));
        assert(digits_value(s) == digits_value(decimal(n / 10)) * 10 + digit_value(s.last()));
        assert((n / 10) * 10 + n % 10 == n);
        assert(all_digits(s)) by {
            assert forall|i: int| 0 <= i < s.len() implies is_digit(#[trigger] s[i]) by {
                if i < s.len() - 1 {
                    assert(s[i] == decimal(n / 10)[i]);
                }
            }
        }
    }
}

proof fn lemma_trim_fixed(s: Seq<char>)
    requires
        s.len() > 0,
        !is_whitespace(s[0]),
        !is_whitespace(s.last()),
    ensures
        trim(s) == s,
{
}

proof fn lemma_decimal_token(n: u32)
    ensures
        trim(decimal(n as nat)) == decimal(n as nat),
        parsed_u32(decimal(n as nat)) == Some(n),
        !decimal(n as nat).contains('-'),
        !decimal(n as nat).contains(','),
        decimal(n as nat).len() >= 1,
        is_digit(decimal(n as nat)[0]),
        is_digit(decimal(n as nat).last()),
{
    let d = decimal(n as nat);
    lemma_decimal(n as nat);
    assert(is_digit(d[0]));
    assert(is_digit(d[d.len() - 1]));
    lemma_trim_fixed(d);
    if d.contains('-') {
        let k = choose|k: int| 0 <= k < d.len() && d[k] == '-';
        assert(is_digit(d[k]));
    }
    if d.contains(',') {
        let k = choose|k: int| 0 <= k < d.len() && d[k] == ',';
        assert(is_digit(d[k]));
    }
}

proof fn lemma_run_token(a: u32, b: u32)
    requires
        a <= b,
    ensures
        token_bounds(run_text(a, b)) == Some((a, b)),
        !run_text(a, b).contains(','),
        run_text(a, b).len() >= 1,
{
    reveal(token_bounds);
    lemma_decimal_token(a);
    lemma_decimal_token(b);
    let da = decimal(a as nat);
    let db = decimal(b as nat);
    if a != b {
        let t = run_text(a, b);
        let k = da.len() as int;
        assert(t[0] == da[0]);
        assert(t.last() == db.last());
        lemma_trim_fixed(t);
        assert(t[k] == '-');
        assert(t.take(k) =~= da);
        assert(t.skip(k + 1) =~= db);
        lemma_first_dash(t, k);
        if t.contains(',') {
            let j = choose|j: int| 0 <= j < t.len() && t[j] == ',';
            if j < k {
                assert(da[j] == ',');
            } else if j > k {
                assert(db[j - k - 1] == ',');
            }
        }
    }
}

proof fn lemma_split_no_sep(t: Seq<char>, sep: char)
    requires
        !t.contains(sep),
    ensures
        split_on(t, sep) == seq![t],
    decreases t.len(),
{
    if t.len() > 0 {
        assert(!t.drop_last().contains(sep)) by {
            if t.drop_last().contains(sep) {
                let j = choose|j: int| 0 <= j < t.drop_last().len() && t.drop_last()[j] == sep;
                assert(t[j] == sep);
            }
        }
        lemma_split_no_sep(t.drop_last(), sep);
        assert(t[t.len() - 1] != sep);
        assert(t.drop_last().push(t.last()) =~= t);
        assert(seq![t.drop_last()].update(0, t) =~= seq![t]);
    } else {
        assert(t =~= Seq::<char>::empty());
    }
}

proof fn lemma_split_append(x: Seq<char>, t: Seq<char>, sep: char)
    requires
        !t.contains(sep),
    ensures
        split_on(x + seq![sep] + t, sep) == split_on(x, sep).push(t),
    decreases t.len(),
{
    let s = x + seq![sep] + t;
    if t.len() == 0 {
        assert(s.drop_last() =~= x);
        assert(t =~= Seq::<char>::empty());
    } else {
        let t2 = t.drop_last();
        assert(!t2.contains(sep)) by {
            if t2.contains(sep) {
                let j = choose|j: int| 0 <= j < t2.len() && t2[j] == sep;
                assert(t[j] == sep);
            }
        }
        lemma_split_append(x, t2, sep);
        assert(s.drop_last() =~= x + seq![sep] + t2);
        assert(s.last() == t[t.len() - 1]);
        assert(t2.push(t.last()) =~= t);
        assert(split_on(x, sep).push(t2).update(split_on(x, sep).len() as int, t) =~= split_on(
            x,
            sep,
        ).push(t));
    }
}

proof fn lemma_split_join(ts: Seq<Seq<char>>)
    requires
        ts.len() >= 1,
        forall|i: int| 0 <= i < ts.len() ==> !(#[trigger] ts[i]).contains(','),
    ensures
        split_on(join_commas(ts), ',') == ts,
    decreases ts.len(),
{
    if ts.len() == 1 {
        lemma_split_no_sep(ts[0], ',');
        assert(seq![ts[0]] =~= ts);
    } else {
        lemma_split_join(ts.drop_last());
        lemma_split_append(join_commas(ts.drop_last()), ts.last(), ',');
        assert(ts.drop_last().push(ts.last()) =~= ts);
    }
}

/// Page `p` lies in one of the runs.
#[verifier::opaque]
pub open spec fn covered(runs: Seq<(u32, u32)>, p: u32) -> bool {
    exists|k: int| 0 <= k < runs.len() && (#[trigger] runs[k]).0 <= p <= runs[k].1
}

pub open spec fn runs_within(runs: Seq<(u32, u32)>, l: Seq<u32>) -> bool {
    forall|k: int|
        0 <= k < runs.len() ==> (#[trigger] runs[k]).0 <= runs[k].1 && l.contains(runs[k].0)
            && l.contains(runs[k].1)
}

proof fn lemma_contains_push(l: Seq<u32>, x: u32, p: u32)
    ensures
        l.push(x).contains(p) <==> (l.contains(p) || p == x),
{
    if l.push(x).contains(p) && p != x {
        let j = choose|j: int| 0 <= j < l.push(x).len() && l.push(x)[j] == p;
        assert(l[j] == p);
    }
    if l.contains(p) {
        let j = choose|j: int| 0 <= j < l.len() && l[j] == p;
        assert(l.push(x)[j] == p);
    }
    if p == x {
        assert(l.push(x)[l.len() as int] == p);
    }
}

proof fn lemma_covered_extend(prev: Seq<(u32, u32)>, x: u32, p: u32)
    requires
        prev.len() > 0,
        prev.last().0 <= prev.last().1,
        x as int == prev.last().1 as int + 1,
    ensures
        covered(prev.update(prev.len() - 1, (prev.last().0, x)), p) <==> (covered(prev, p) || p
            == x),
{
    reveal(covered);
    let runs = prev.update(prev.len() - 1, (prev.last().0, x));
    let last = prev.len() - 1;
    if covered(prev, p) {
        let k = choose|k: int| 0 <= k < prev.len() && (#[trigger] prev[k]).0 <= p <= prev[k].1;
        assert(runs[k].0 <= p <= runs[k].1);
    }
    if p == x {
        assert(runs[last].0 <= p <= runs[last].1);
    }
    if covered(runs, p) && p != x {
        let k = choose|k: int| 0 <= k < runs.len() && (#[trigger] runs[k]).0 <= p <= runs[k].1;
        assert(prev[k].0 <= p <= prev[k].1);
    }
}

proof fn lemma_covered_push(prev: Seq<(u32, u32)>, x: u32, p: u32)
    ensures
        covered(prev.push((x, x)), p) <==> (covered(prev, p) || p == x),
{
    reveal(covered);
    let runs = prev.push((x, x));
    if covered(prev, p) {
        let k = choose|k: int| 0 <= k < prev.len() && (#[trigger] prev[k]).0 <= p <= prev[k].1;
        assert(runs[k].0 <= p <= runs[k].1);
    }
    if p == x {
        assert(runs[prev.len() as int].0 <= p <= runs[prev.len() as int].1);
    }
    if covered(runs, p) && p != x {
        let k = choose|k: int| 0 <= k < runs.len() && (#[trigger] runs[k]).0 <= p <= runs[k].1;
        assert(prev[k].0 <= p <= prev[k].1);
    }
}

proof fn lemma_runs_within_step(l: Seq<u32>)
    requires
        l.len() > 0,
        runs_within(page_runs(l.drop_last()), l.drop_last()),
        l.drop_last().len() > 0 ==> page_runs(l.drop_last()).len() > 0,
    ensures
        runs_within(page_runs(l), l),
{
    let l2 = l.drop_last();
    let prev = page_runs(l2);
    let runs = page_runs(l);
    let x = l.last();
    assert(l2.push(x) =~= l);
    assert forall|k: int| 0 <= k < runs.len() implies (#[trigger] runs[k]).0 <= runs[k].1
        && l.contains(runs[k].0) && l.contains(runs[k].1) by {
        if k < prev.len() {
            assert(prev[k].0 <= prev[k].1);
            assert(l2.contains(prev[k].0));
            assert(l2.contains(prev[k].1));
            lemma_contains_push(l2, x, prev[k].0);
            lemma_contains_push(l2, x, prev[k].1);
        }
        lemma_contains_push(l2, x, x);
    }
}

proof fn lemma_runs_covered_step(l: Seq<u32>, p: u32)
    requires
        l.len() > 0,
        runs_within(page_runs(l.drop_last()), l.drop_last()),
        l.drop_last().contains(p) <==> covered(page_runs(l.drop_last()), p),
    ensures
        l.contains(p) <==> covered(page_runs(l), p),
{
    let l2 = l.drop_last();
    let prev = page_runs(l2);
    let x = l.last();
    assert(l2.push(x) =~= l);
    lemma_contains_push(l2, x, p);
    if prev.len() > 0 && x as int == prev.last().1 as int + 1 {
        assert(prev[prev.len() - 1].0 <= prev[prev.len() - 1].1);
        lemma_covered_extend(prev, x, p);
    } else {
        lemma_covered_push(prev, x, p);
    }
}

proof fn lemma_runs(l: Seq<u32>)
    ensures
        l.len() > 0 ==> page_runs(l).len() > 0,
        runs_within(page_runs(l), l),
        forall|p: u32| l.contains(p) <==> covered(page_runs(l), p),
    decreases l.len(),
{
    if l.len() > 0 {
        lemma_runs(l.drop_last());
        lemma_runs_within_step(l);
        assert forall|p: u32| l.contains(p) <==> covered(page_runs(l), p) by {
            lemma_runs_covered_step(l, p);
        }
    } else {
        reveal(covered);
    }
}

proof fn lemma_covered_intro(runs: Seq<(u32, u32)>, p: u32, k: int)
    requires
        0 <= k < runs.len(),
        runs[k].0 <= p <= runs[k].1,
    ensures
        covered(runs, p),
{
    reveal(covered);
}

proof fn lemma_covered_elim(runs: Seq<(u32, u32)>, p: u32) -> (k: int)
    requires
        covered(runs, p),
    ensures
        0 <= k < runs.len(),
        runs[k].0 <= p <= runs[k].1,
{
    reveal(covered);
    choose|k: int| 0 <= k < runs.len() && (#[trigger] runs[k]).0 <= p <= runs[k].1
}

/// Two strictly increasing lists that hold the same pages are equal.
pub proof fn lemma_increasing_unique(a: Seq<u32>, b: Seq<u32>)
    requires
        strictly_increasing(a),
        strictly_increasing(b),
        forall|p: u32| a.contains(p) <==> b.contains(p),
    ensures
        a == b,
    decreases a.len(),
{
    if a.len() == 0 {
        if b.len() > 0 {
            assert(b.contains(b[0]));
        }
        assert(a =~= b);
    } else {
        assert(a.contains(a[0]));
        assert(b.len() > 0);
        assert(b.contains(b[0]));
        let ja = choose|j: int| 0 <= j < a.len() && a[j] == b[0];
        let jb = choose|j: int| 0 <= j < b.len() && b[j] == a[0];
        assert(a[0] == b[0]) by {
            if ja > 0 {
                assert(a[0] < a[ja]);
            }
            if jb > 0 {
                assert(b[0] < b[jb]);
            }
        }
        let a2 = a.drop_first();
        let b2 = b.drop_first();
        assert forall|p: u32| a2.contains(p) <==> b2.contains(p) by {
            if a2.contains(p) {
                let j = choose|j: int| 0 <= j < a2.len() && a2[j] == p;
                assert(a[j + 1] == p);
                assert(b.contains(p));
                let k = choose|k: int| 0 <= k < b.len() && b[k] == p;
                assert(k != 0);
                assert(b2[k - 1] == p);
            }
            if b2.contains(p) {
                let j = choose|j: int| 0 <= j < b2.len() && b2[j] == p;
                assert(b[j + 1] == p);
                assert(a.contains(p));
                let k = choose|k: int| 0 <= k < a.len() && a[k] == p;
                assert(k != 0);
                assert(a2[k - 1] == p);
            }
        }
        lemma_increasing_unique(a2, b2);
        assert(a =~= b) by {
            assert forall|i: int| 0 <= i < a.len() implies a[i] == b[i] by {
                if i > 0 {
                    assert(a[i] == a2[i - 1]);
                }
            }
        }
    }
}

proof fn lemma_run_tokens(l: Seq<u32>)
    ensures
        run_texts(page_runs(l)).len() == page_runs(l).len(),
        forall|k: int|
            0 <= k < page_runs(l).len() ==> token_bounds(#[trigger] run_texts(page_runs(l))[k])
                == Some(page_runs(l)[k]) && !run_texts(page_runs(l))[k].contains(',')
                && run_texts(page_runs(l))[k].len() >= 1,
{
    lemma_runs(l);
    let runs = page_runs(l);
    let texts = run_texts(runs);
    assert forall|k: int| 0 <= k < runs.len() implies token_bounds(#[trigger] texts[k]) == Some(
        runs[k],
    ) && !texts[k].contains(',') && texts[k].len() >= 1 by {
        let r = runs[k];
        assert(r.0 <= r.1);
        lemma_run_token(r.0, r.1);
        assert(texts[k] == run_text(r.0, r.1));
    }
}

proof fn lemma_compressed_tokens(l: Seq<u32>)
    requires
        l.len() > 0,
    ensures
        compressed(l).len() > 0,
        range_tokens(compressed(l)) == run_texts(page_runs(l)),
{
    lemma_runs(l);
    lemma_run_tokens(l);
    let texts = run_texts(page_runs(l));
    lemma_split_join(texts);
    if texts.len() > 1 {
        assert(compressed(l).len() >= texts.last().len());
    }
}

proof fn lemma_compressed_valid(l: Seq<u32>, max_page: u32)
    requires
        l.len() > 0,
        forall|i: int| 0 <= i < l.len() ==> 1 <= #[trigger] l[i] <= max_page,
    ensures
        range_valid(compressed(l), max_page),
{
    lemma_runs(l);
    lemma_run_tokens(l);
    lemma_compressed_tokens(l);
    let runs = page_runs(l);
    let toks = range_tokens(compressed(l));
    assert forall|i: int| 0 <= i < toks.len() implies token_valid(#[trigger] toks[i], max_page) by {
        let r = runs[i];
        assert(token_bounds(toks[i]) == Some(r));
        assert(l.contains(r.0) && l.contains(r.1));
        let j0 = choose|j: int| 0 <= j < l.len() && l[j] == r.0;
        let j1 = choose|j: int| 0 <= j < l.len() && l[j] == r.1;
        assert(1 <= l[j0] && l[j1] <= max_page);
    }
}

proof fn lemma_compressed_selects(l: Seq<u32>, p: u32)
    ensures
        page_selected(compressed(l), p as int) <==> l.contains(p),
{
    lemma_runs(l);
    if l.len() == 0 {
        assert(compressed(l) =~= Seq::<char>::empty());
    } else {
        lemma_run_tokens(l);
        lemma_compressed_tokens(l);
        let runs = page_runs(l);
        let toks = range_tokens(compressed(l));
        if l.contains(p) {
            let k = lemma_covered_elim(runs, p);
            assert(token_bounds(toks[k]) == Some(runs[k]));
            assert(token_covers(toks[k], p as int));
        }
        if page_selected(compressed(l), p as int) {
            let k = choose|k: int| 0 <= k < toks.len() && token_covers(#[trigger] toks[k], p as int);
            assert(token_bounds(toks[k]) == Some(runs[k]));
            assert(runs[k].0 <= p <= runs[k].1);
            lemma_covered_intro(runs, p, k);
        }
    }
}

/// Compressing a valid page list and parsing the text again gives the list
/// back: the text is accepted against any bound the pages respect, and the
/// only strictly increasing list of the pages it names is the list itself.
pub proof fn lemma_compress_round_trip(l: Seq<u32>, max_page: u32, parsed: Seq<u32>)
    requires
        strictly_increasing(l),
        forall|i: int| 0 <= i < l.len() ==> 1 <= #[trigger] l[i] <= max_page,
        strictly_increasing(parsed),
        forall|p: u32| parsed.contains(p) <==> page_selected(compressed(l), p as int),
    ensures
        range_valid(compressed(l), max_page),
        parsed == l,
{
    if l.len() > 0 {
        lemma_compressed_valid(l, max_page);
    } else {
        assert(compressed(l) =~= Seq::<char>::empty());
    }
    assert forall|p: u32| parsed.contains(p) <==> l.contains(p) by {
        lemma_compressed_selects(l, p);
    }
    lemma_increasing_unique(parsed, l);
}

} // verus!
