//! The classifying-line grammar.
//!
//! A finalize line is a run of region words followed by a run of single
//! letters (the tag clause). A retrieval line may hold up to two whole
//! numbers between the two runs: hours back, and hours of window. Any other
//! token shape means the line is not a classifying line.

use crate::text::{
    is_digit, is_digit_char, is_letter, is_letter_char, tokenize, tokens_of, views_of,
};
use vstd::prelude::*;

verus! {

/// A region word: at least two characters, letters or hyphens only.
pub open spec fn is_region_word(t: Seq<char>) -> bool {
    t.len() >= 2 && forall|i: int| 0 <= i < t.len() ==> is_letter_char(#[trigger] t[i]) || t[i] == '-'
}

/// A whole number: at least one character, digits only.
pub open spec fn is_number_token(t: Seq<char>) -> bool {
    t.len() >= 1 && forall|i: int| 0 <= i < t.len() ==> is_digit_char(#[trigger] t[i])
}

/// A tag token: a single letter.
pub open spec fn is_letter_token(t: Seq<char>) -> bool {
    t.len() == 1 && is_letter_char(t[0])
}

/// Length of the leading run of region words.
pub open spec fn region_prefix_len(ts: Seq<Seq<char>>) -> int
    decreases ts.len(),
{
    if ts.len() == 0 {
        0
    } else if !is_region_word(ts[0]) {
        0
    } else {
        1 + region_prefix_len(ts.drop_first())
    }
}

/// Length of the leading run of whole numbers.
pub open spec fn number_prefix_len(ts: Seq<Seq<char>>) -> int
    decreases ts.len(),
{
    if ts.len() == 0 {
        0
    } else if !is_number_token(ts[0]) {
        0
    } else {
        1 + number_prefix_len(ts.drop_first())
    }
}

/// From position `k` on, every token is a single letter.
pub open spec fn letters_from(ts: Seq<Seq<char>>, k: int) -> bool {
    forall|i: int| k <= i < ts.len() ==> is_letter_token(#[trigger] ts[i])
}

/// The numeric value of a digit run.
pub open spec fn digits_value(t: Seq<char>) -> int
    decreases t.len(),
{
    if t.len() == 0 {
        0
    } else {
        digits_value(t.drop_last()) * 10 + (t[t.len() - 1] as int - 0x30)
    }
}

/// `region_prefix_len` is the index of the first non-region-word token, or
/// the length.
pub proof fn lemma_region_prefix_is(ts: Seq<Seq<char>>, k: int)
    requires
        0 <= k <= ts.len(),
        forall|i: int| 0 <= i < k ==> is_region_word(#[trigger] ts[i]),
        k == ts.len() || !is_region_word(ts[k]),
    ensures
        region_prefix_len(ts) == k,
    decreases k,
{
    if k == 0 {
    } else {
        assert(is_region_word(ts[0]));
        let rest = ts.drop_first();
        assert(forall|i: int| 0 <= i < k - 1 ==> rest[i] == ts[i + 1]);
        if k - 1 < rest.len() {
            assert(rest[k - 1] == ts[k]);
        }
        lemma_region_prefix_is(rest, k - 1);
    }
}

/// `number_prefix_len` is the index of the first non-number token, or the
/// length.
pub proof fn lemma_number_prefix_is(ts: Seq<Seq<char>>, k: int)
    requires
        0 <= k <= ts.len(),
        forall|i: int| 0 <= i < k ==> is_number_token(#[trigger] ts[i]),
        k == ts.len() || !is_number_token(ts[k]),
    ensures
        number_prefix_len(ts) == k,
    decreases k,
{
    if k == 0 {
    } else {
        assert(is_number_token(ts[0]));
        let rest = ts.drop_first();
        assert(forall|i: int| 0 <= i < k - 1 ==> rest[i] == ts[i + 1]);
        if k - 1 < rest.len() {
            assert(rest[k - 1] == ts[k]);
        }
        lemma_number_prefix_is(rest, k - 1);
    }
}

/// The tokens of a finalize line: region words, then single letters.
pub open spec fn chat_line_matches(ts: Seq<Seq<char>>) -> bool {
    letters_from(ts, region_prefix_len(ts))
}

/// The tokens of a retrieval line: region words, then up to two whole
/// numbers that fit the machine, then single letters.
pub open spec fn query_line_matches(ts: Seq<Seq<char>>) -> bool {
    let k = region_prefix_len(ts);
    let d = number_prefix_len(ts.skip(k));
    &&& d <= 2
    &&& letters_from(ts, k + d)
    &&& forall|i: int| k <= i < k + d ==> digits_value(#[trigger] ts[i]) <= u64::MAX
}

/// Is this token a region word?
pub fn check_region_word(t: &str) -> (b: bool)
    ensures
        b == is_region_word(t@),
{
    let n = t.unicode_len();
    if n < 2 {
        return false;
    }
    let mut i: usize = 0;
    while i < n
        invariant
            i <= n,
            n == t@.len(),
            forall|k: int| 0 <= k < i ==> is_letter_char(#[trigger] t@[k]) || t@[k] == '-',
        decreases n - i,
    {
        let c = t.get_char(i);
        if !(is_letter(c) || c == '-') {
            return false;
        }
        i += 1;
    }
    true
}

/// Is this token a whole number?
pub fn check_number_token(t: &str) -> (b: bool)
    ensures
        b == is_number_token(t@),
{
    let n = t.unicode_len();
    if n < 1 {
        return false;
    }
    let mut i: usize = 0;
    while i < n
        invariant
            i <= n,
            n == t@.len(),
            forall|k: int| 0 <= k < i ==> is_digit_char(#[trigger] t@[k]),
        decreases n - i,
    {
        let c = t.get_char(i);
        if !is_digit(c) {
            return false;
        }
        i += 1;
    }
    true
}

/// Is this token a single letter?
pub fn check_letter_token(t: &str) -> (b: bool)
    ensures
        b == is_letter_token(t@),
{
    let n = t.unicode_len();
    if n != 1 {
        return false;
    }
    is_letter(t.get_char(0))
}

/// The value is never smaller for a longer digit run.
proof fn lemma_digits_value_monotone(t: Seq<char>, i: int, j: int)
    requires
        forall|k: int| 0 <= k < t.len() ==> is_digit_char(#[trigger] t[k]),
        0 <= i <= j <= t.len(),
    ensures
        0 <= digits_value(t.take(i)) <= digits_value(t.take(j)),
    decreases j - i,
{
    if i == j {
        lemma_digits_value_nonneg(t.take(i));
    } else {
        lemma_digits_value_monotone(t, i, j - 1);
        let p = t.take(j);
        assert(p.drop_last() =~= t.take(j - 1));
        assert(is_digit_char(t[j - 1]));
    }
}

proof fn lemma_digits_value_nonneg(t: Seq<char>)
    requires
        forall|k: int| 0 <= k < t.len() ==> is_digit_char(#[trigger] t[k]),
    ensures
        digits_value(t) >= 0,
    decreases t.len(),
{
    if t.len() > 0 {
        assert(t.drop_last() =~= t.take(t.len() - 1));
        assert(forall|k: int| 0 <= k < t.drop_last().len() ==> is_digit_char(#[trigger] t.drop_last()[k]));
        lemma_digits_value_nonneg(t.drop_last());
    }
}

/// Parse a digit run into a machine number; a value over the machine limit
/// is refused.
pub fn parse_number(t: &str) -> (r: Option<u64>)
    requires
        is_number_token(t@),
    ensures
        match r {
            Some(v) => v == digits_value(t@),
            None => digits_value(t@) > u64::MAX,
        },
{
    let n = t.unicode_len();
    let mut v: u64 = 0;
    let mut i: usize = 0;
    assert(t@.take(0) =~= Seq::<char>::empty());
    while i < n
        invariant
            i <= n,
            n == t@.len(),
            is_number_token(t@),
            v == digits_value(t@.take(i as int)),
        decreases n - i,
    {
        let c = t.get_char(i);
        assert(is_digit_char(t@[i as int]));
        let d = (c as u32 - 0x30) as u64;
        assert(d <= 9);
        if v > (u64::MAX - d) / 10 {
            proof {
                assert(digits_value(t@.take(i + 1)) == v * 10 + d) by {
                    assert(t@.take(i + 1).drop_last() =~= t@.take(i as int));
                    assert(t@.take(i + 1)[i as int] == t@[i as int]);
                }
                assert(v * 10 + d > u64::MAX) by (nonlinear_arith)
                    requires
                        v > (u64::MAX - d) / 10,
                        d <= 9,
                ;
                lemma_digits_value_monotone(t@, i + 1, n as int);
                assert(t@.take(n as int) =~= t@);
            }
            return None;
        }
        proof {
            assert(v * 10 + d <= u64::MAX) by (nonlinear_arith)
                requires
                    v <= (u64::MAX - d) / 10,
                    d <= 9,
            ;
            assert(t@.take(i + 1).drop_last() =~= t@.take(i as int));
            assert(t@.take(i + 1)[i as int] == t@[i as int]);
        }
        v = v * 10 + d;
        i += 1;
    }
    assert(t@.take(n as int) =~= t@);
    Some(v)
}

/// The clauses of a finalize line.
pub struct ChatLine {
    /// The leading region words, absent when there are none.
    pub regions: Option<Vec<String>>,
    /// The trailing single letters, absent when there are none.
    pub tags: Option<Vec<String>>,
}

/// Split a finalize line into its region and tag clauses; text of any other
/// shape is no classifying line.
pub fn parse_chat_line(text: &str) -> (r: Option<ChatLine>)
    ensures
        ({
            let ts = tokens_of(text@);
            let k = region_prefix_len(ts);
            match r {
                None => !chat_line_matches(ts),
                Some(cl) => chat_line_matches(ts) && (match cl.regions {
                    Some(v) => k > 0 && views_of(v@) == ts.take(k),
                    None => k == 0,
                }) && (match cl.tags {
                    Some(v) => k < ts.len() && views_of(v@) == ts.skip(k),
                    None => k == ts.len(),
                }),
            }
        }),
{
    let ghost full = tokens_of(text@);
    let toks = tokenize(text);
    let n = toks.len();
    let mut k: usize = 0;
    let mut scanning = true;
    while scanning && k < n
        invariant
            k <= n,
            n == toks@.len(),
            views_of(toks@) == full,
            full == tokens_of(text@),
            forall|i: int| 0 <= i < k ==> is_region_word(#[trigger] full[i]),
            !scanning && k < n ==> !is_region_word(full[k as int]),
        decreases n - k + (if scanning { 1int } else { 0int }),
    {
        assert(full[k as int] == toks@[k as int]@);
        if check_region_word(toks[k].as_str()) {
            k += 1;
        } else {
            scanning = false;
        }
    }
    proof {
        lemma_region_prefix_is(full, k as int);
    }
    let mut i: usize = k;
    while i < n
        invariant
            k <= i <= n,
            n == toks@.len(),
            views_of(toks@) == full,
            full == tokens_of(text@),
            region_prefix_len(full) == k,
            forall|j: int| k <= j < i ==> is_letter_token(#[trigger] full[j]),
        decreases n - i,
    {
        assert(full[i as int] == toks@[i as int]@);
        if !check_letter_token(toks[i].as_str()) {
            assert(!is_letter_token(full[i as int]));
            assert(!letters_from(full, region_prefix_len(full)));
            assert(!chat_line_matches(full));
            return None;
        }
        i += 1;
    }
    let regions = copy_token_range(&toks, 0, k);
    let tags = copy_token_range(&toks, k, n);
    assert(full.subrange(0, k as int) =~= full.take(k as int));
    assert(full.subrange(k as int, n as int) =~= full.skip(k as int));
    let regions_opt = if k > 0 {
        Some(regions)
    } else {
        None
    };
    let tags_opt = if k < n {
        Some(tags)
    } else {
        None
    };
    Some(ChatLine { regions: regions_opt, tags: tags_opt })
}

/// Copy a range of tokens out of a token list.
fn copy_token_range(toks: &Vec<String>, from: usize, to: usize) -> (r: Vec<String>)
    requires
        from <= to <= toks@.len(),
    ensures
        views_of(r@) == views_of(toks@).subrange(from as int, to as int),
{
    let mut r: Vec<String> = Vec::new();
    let mut j: usize = from;
    assert(views_of(r@) =~= views_of(toks@).subrange(from as int, from as int));
    while j < to
        invariant
            from <= j <= to <= toks@.len(),
            views_of(r@) == views_of(toks@).subrange(from as int, j as int),
        decreases to - j,
    {
        let ghost pre = r@;
        r.push(toks[j].clone());
        proof {
            assert(views_of(r@).len() == r@.len());
            assert(views_of(pre).len() == pre.len());
            assert(pre.len() == j - from);
            assert(r@ == pre.push(r@[pre.len() as int]));
            assert(forall|q: int|
                0 <= q < pre.len() ==> #[trigger] views_of(r@)[q] == views_of(pre)[q]);
            assert(views_of(r@)[pre.len() as int] == toks@[j as int]@);
            assert(views_of(toks@)[j as int] == toks@[j as int]@);
            assert(views_of(r@) =~= views_of(toks@).subrange(from as int, j + 1));
        }
        j += 1;
    }
    r
}

/// The clauses of a retrieval line.
pub struct QueryLine {
    /// The leading region words, absent when there are none.
    pub regions: Option<Vec<String>>,
    /// Hours back from now, when given.
    pub since: Option<u64>,
    /// Hours of window, when given.
    pub duration: Option<u64>,
    /// The trailing single letters, absent when there are none.
    pub tags: Option<Vec<String>>,
}

/// Split a retrieval line into region, window and tag clauses; text of any
/// other shape is no retrieval line.
pub fn parse_query_line(text: &str) -> (r: Option<QueryLine>)
    ensures
        ({
            let ts = tokens_of(text@);
            let k = region_prefix_len(ts);
            let d = number_prefix_len(ts.skip(k));
            match r {
                None => !query_line_matches(ts),
                Some(ql) => query_line_matches(ts) && (match ql.regions {
                    Some(v) => k > 0 && views_of(v@) == ts.take(k),
                    None => k == 0,
                }) && (match ql.since {
                    Some(v) => d >= 1 && v == digits_value(ts[k]),
                    None => d == 0,
                }) && (match ql.duration {
                    Some(v) => d == 2 && v == digits_value(ts[k + 1]),
                    None => d <= 1,
                }) && (match ql.tags {
                    Some(v) => k + d < ts.len() && views_of(v@) == ts.skip(k + d),
                    None => k + d == ts.len(),
                }),
            }
        }),
{
    let ghost full = tokens_of(text@);
    let toks = tokenize(text);
    let n = toks.len();
    let mut k: usize = 0;
    let mut scanning = true;
    while scanning && k < n
        invariant
            k <= n,
            n == toks@.len(),
            views_of(toks@) == full,
            full == tokens_of(text@),
            forall|i: int| 0 <= i < k ==> is_region_word(#[trigger] full[i]),
            !scanning && k < n ==> !is_region_word(full[k as int]),
        decreases n - k + (if scanning { 1int } else { 0int }),
    {
        assert(full[k as int] == toks@[k as int]@);
        if check_region_word(toks[k].as_str()) {
            k += 1;
        } else {
            scanning = false;
        }
    }
    proof {
        lemma_region_prefix_is(full, k as int);
    }
    let mut d: usize = k;
    let mut scanning = true;
    while scanning && d < n
        invariant
            k <= d <= n,
            n == toks@.len(),
            views_of(toks@) == full,
            full == tokens_of(text@),
            region_prefix_len(full) == k,
            forall|i: int| k <= i < d ==> is_number_token(#[trigger] full[i]),
            !scanning && d < n ==> !is_number_token(full[d as int]),
        decreases n - d + (if scanning { 1int } else { 0int }),
    {
        assert(full[d as int] == toks@[d as int]@);
        if check_number_token(toks[d].as_str()) {
            d += 1;
        } else {
            scanning = false;
        }
    }
    proof {
        let sk = full.skip(k as int);
        assert(forall|i: int| 0 <= i < d - k ==> sk[i] == full[i + k]);
        if (d as int) < n as int {
            assert(sk[d - k as int] == full[d as int]);
        }
        lemma_number_prefix_is(sk, d - k as int);
    }
    if d - k > 2 {
        assert(number_prefix_len(full.skip(k as int)) > 2);
        assert(!query_line_matches(full));
        return None;
    }
    let mut i: usize = d;
    while i < n
        invariant
            k <= d <= i <= n,
            n == toks@.len(),
            views_of(toks@) == full,
            full == tokens_of(text@),
            region_prefix_len(full) == k,
            number_prefix_len(full.skip(k as int)) == d - k,
            d - k <= 2,
            forall|j: int| d <= j < i ==> is_letter_token(#[trigger] full[j]),
        decreases n - i,
    {
        assert(full[i as int] == toks@[i as int]@);
        if !check_letter_token(toks[i].as_str()) {
            assert(!is_letter_token(full[i as int]));
            assert(!letters_from(full, k as int + (d - k) as int));
            assert(!query_line_matches(full));
            return None;
        }
        i += 1;
    }
    let since = if d - k >= 1 {
        assert(is_number_token(full[k as int]));
        assert(full[k as int] == toks@[k as int]@);
        match parse_number(toks[k].as_str()) {
            Some(v) => Some(v),
            None => {
                assert(digits_value(full[k as int]) > u64::MAX);
                assert(!query_line_matches(full));
                return None;
            },
        }
    } else {
        None
    };
    let duration = if d - k == 2 {
        assert(is_number_token(full[k as int + 1]));
        assert(full[k as int + 1] == toks@[k as int + 1]@);
        match parse_number(toks[k + 1].as_str()) {
            Some(v) => Some(v),
            None => {
                assert(digits_value(full[k as int + 1]) > u64::MAX);
                assert(!query_line_matches(full));
                return None;
            },
        }
    } else {
        None
    };
    proof {
        assert(forall|j: int|
            k <= j < k + (d - k) ==> is_number_token(#[trigger] full[j]));
        assert forall|j: int| k <= j < k + (d - k) implies digits_value(#[trigger] full[j])
            <= u64::MAX by {
            if d - k >= 1 && j == k {
                assert(digits_value(full[j]) <= u64::MAX);
            }
            if d - k == 2 && j == k + 1 {
                assert(digits_value(full[j]) <= u64::MAX);
            }
        }
        assert(query_line_matches(full));
    }
    let regions = copy_token_range(&toks, 0, k);
    let tags = copy_token_range(&toks, d, n);
    assert(views_of(toks@).subrange(0, k as int) =~= full.take(k as int));
    assert(views_of(toks@).subrange(d as int, n as int) =~= full.skip(d as int));
    let regions_opt = if k > 0 {
        Some(regions)
    } else {
        None
    };
    let tags_opt = if d < n {
        Some(tags)
    } else {
        None
    };
    Some(QueryLine { regions: regions_opt, since, duration, tags: tags_opt })
}

} // verus!
