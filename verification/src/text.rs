//! Characters, case folding, whitespace tokenization and lexicographic order.
//!
//! Free text enters the library as `&str`; everything stated about it is
//! phrased over the `Seq<char>` views that vstd gives to strings. The folding
//! alphabet covers ASCII and the Cyrillic letters that region aliases use;
//! every other character folds to itself.

use vstd::prelude::*;

verus! {

/// The whitespace characters that separate tokens.
pub open spec fn is_space_char(c: char) -> bool {
    c == ' ' || c == '\t' || c == '\n' || c == '\r'
}

/// ASCII letters.
pub open spec fn is_ascii_letter(c: char) -> bool {
    (0x41 <= c as int <= 0x5a) || (0x61 <= c as int <= 0x7a)
}

/// Cyrillic letters, uppercase and lowercase, including the two Io forms.
pub open spec fn is_cyrillic_letter(c: char) -> bool {
    (0x410 <= c as int <= 0x44f) || c as int == 0x401 || c as int == 0x451
}

/// The letter alphabet of this library.
pub open spec fn is_letter_char(c: char) -> bool {
    is_ascii_letter(c) || is_cyrillic_letter(c)
}

/// ASCII digits.
pub open spec fn is_digit_char(c: char) -> bool {
    0x30 <= c as int <= 0x39
}

/// Case folding as a relation: `fold_pair(u, l)` holds when `l` is the
/// lowercase form of `u`. Uppercase ASCII and Cyrillic letters fold down;
/// every other character folds to itself.
pub open spec fn fold_pair(u: char, l: char) -> bool {
    let uu = u as int;
    let ll = l as int;
    if 0x41 <= uu <= 0x5a {
        ll == uu + 0x20
    } else if 0x410 <= uu <= 0x42f {
        ll == uu + 0x20
    } else if uu == 0x401 {
        ll == 0x451
    } else {
        ll == uu
    }
}

/// The uppercase direction: `lift_pair(l, u)` holds when `u` is the uppercase
/// form of `l`.
pub open spec fn lift_pair(l: char, u: char) -> bool {
    let ll = l as int;
    let uu = u as int;
    if 0x61 <= ll <= 0x7a {
        uu == ll - 0x20
    } else if 0x430 <= ll <= 0x44f {
        uu == ll - 0x20
    } else if ll == 0x451 {
        uu == 0x401
    } else {
        uu == ll
    }
}

/// Token `t` lowercases exactly to `a`.
pub open spec fn folds_to(t: Seq<char>, a: Seq<char>) -> bool {
    t.len() == a.len() && forall|i: int| 0 <= i < t.len() ==> fold_pair(t[i], a[i])
}

/// The lowercase form of token `t` is a prefix of `a`.
pub open spec fn folds_to_prefix(t: Seq<char>, a: Seq<char>) -> bool {
    t.len() <= a.len() && forall|i: int| 0 <= i < t.len() ==> fold_pair(t[i], a[i])
}

/// Token `t` uppercases exactly to `u`.
pub open spec fn lifts_to(t: Seq<char>, u: Seq<char>) -> bool {
    t.len() == u.len() && forall|i: int| 0 <= i < t.len() ==> lift_pair(t[i], u[i])
}

/// Each character has exactly one lowercase form.
pub proof fn lemma_fold_deterministic(t: Seq<char>, a: Seq<char>, b: Seq<char>)
    requires
        folds_to(t, a),
        folds_to(t, b),
    ensures
        a =~= b,
{
}

/// Each character has exactly one uppercase form.
pub proof fn lemma_lift_deterministic(t: Seq<char>, a: Seq<char>, b: Seq<char>)
    requires
        lifts_to(t, a),
        lifts_to(t, b),
    ensures
        a =~= b,
{
}

pub fn is_space(c: char) -> (b: bool)
    ensures
        b == is_space_char(c),
{
    c == ' ' || c == '\t' || c == '\n' || c == '\r'
}

pub fn is_letter(c: char) -> (b: bool)
    ensures
        b == is_letter_char(c),
{
    let u = c as u32;
    (0x41 <= u && u <= 0x5a) || (0x61 <= u && u <= 0x7a) || (0x410 <= u && u <= 0x44f) || u == 0x401
        || u == 0x451
}

pub fn is_digit(c: char) -> (b: bool)
    ensures
        b == is_digit_char(c),
{
    let u = c as u32;
    0x30 <= u && u <= 0x39
}

fn char_folds(u: char, l: char) -> (b: bool)
    ensures
        b == fold_pair(u, l),
{
    let uu = u as u32;
    let ll = l as u32;
    if 0x41 <= uu && uu <= 0x5a {
        ll == uu + 0x20
    } else if 0x410 <= uu && uu <= 0x42f {
        ll == uu + 0x20
    } else if uu == 0x401 {
        ll == 0x451
    } else {
        ll == uu
    }
}

fn char_lifts(l: char, u: char) -> (b: bool)
    ensures
        b == lift_pair(l, u),
{
    let ll = l as u32;
    let uu = u as u32;
    if 0x61 <= ll && ll <= 0x7a {
        uu + 0x20 == ll
    } else if 0x430 <= ll && ll <= 0x44f {
        uu + 0x20 == ll
    } else if ll == 0x451 {
        uu == 0x401
    } else {
        uu == ll
    }
}

/// Does `t` lowercase exactly to `a`?
pub fn token_folds_to(t: &str, a: &str) -> (b: bool)
    ensures
        b == folds_to(t@, a@),
{
    let tn = t.unicode_len();
    let an = a.unicode_len();
    if tn != an {
        return false;
    }
    let mut i: usize = 0;
    while i < tn
        invariant
            i <= tn,
            tn == t@.len(),
            an == a@.len(),
            tn == an,
            forall|j: int| 0 <= j < i ==> fold_pair(t@[j], a@[j]),
        decreases tn - i,
    {
        if !char_folds(t.get_char(i), a.get_char(i)) {
            return false;
        }
        i += 1;
    }
    true
}

/// Is the lowercase form of `t` a prefix of `a`?
pub fn token_folds_to_prefix(t: &str, a: &str) -> (b: bool)
    ensures
        b == folds_to_prefix(t@, a@),
{
    let tn = t.unicode_len();
    let an = a.unicode_len();
    if tn > an {
        return false;
    }
    let mut i: usize = 0;
    while i < tn
        invariant
            i <= tn,
            tn == t@.len(),
            an == a@.len(),
            tn <= an,
            forall|j: int| 0 <= j < i ==> fold_pair(t@[j], a@[j]),
        decreases tn - i,
    {
        if !char_folds(t.get_char(i), a.get_char(i)) {
            return false;
        }
        i += 1;
    }
    true
}

/// Length of the leading run of non-space characters.
pub open spec fn token_len(s: Seq<char>) -> int
    decreases s.len(),
{
    if s.len() == 0 {
        0
    } else if is_space_char(s[0]) {
        0
    } else {
        1 + token_len(s.drop_first())
    }
}

pub proof fn lemma_token_len_bounds(s: Seq<char>)
    ensures
        0 <= token_len(s) <= s.len(),
    decreases s.len(),
{
    if s.len() > 0 && !is_space_char(s[0]) {
        lemma_token_len_bounds(s.drop_first());
    }
}

/// The whitespace-separated tokens of a text, in order.
pub open spec fn tokens_of(s: Seq<char>) -> Seq<Seq<char>>
    decreases s.len(),
    via tokens_of_decreases
{
    if s.len() == 0 {
        Seq::empty()
    } else if is_space_char(s[0]) {
        tokens_of(s.drop_first())
    } else {
        seq![s.subrange(0, token_len(s))] + tokens_of(s.subrange(token_len(s), s.len() as int))
    }
}

#[via_fn]
proof fn tokens_of_decreases(s: Seq<char>) {
    if s.len() > 0 && !is_space_char(s[0]) {
        lemma_token_len_bounds(s.drop_first());
    }
}

/// `token_len` is the index of the first space, or the length.
pub proof fn lemma_token_len_is(s: Seq<char>, j: int)
    requires
        0 <= j <= s.len(),
        forall|i: int| 0 <= i < j ==> !is_space_char(s[i]),
        j == s.len() || is_space_char(s[j]),
    ensures
        token_len(s) == j,
    decreases j,
{
    if j == 0 {
    } else {
        assert(!is_space_char(s[0]));
        let t = s.drop_first();
        assert(forall|i: int| 0 <= i < j - 1 ==> t[i] == s[i + 1] && !is_space_char(s[i + 1]));
        lemma_token_len_is(t, j - 1);
    }
}

/// Skipping a leading space does not change the token list.
pub proof fn lemma_tokens_skip_space(s: Seq<char>, i: int)
    requires
        0 <= i < s.len(),
        is_space_char(s[i]),
    ensures
        tokens_of(s.subrange(i, s.len() as int)) == tokens_of(s.subrange(i + 1, s.len() as int)),
{
    let a = s.subrange(i, s.len() as int);
    assert(a[0] == s[i]);
    assert(a.drop_first() =~= s.subrange(i + 1, s.len() as int));
}

/// A maximal non-space run starting at `i` and ending at `j` is the next
/// token.
pub proof fn lemma_tokens_take_token(s: Seq<char>, i: int, j: int)
    requires
        0 <= i < j <= s.len(),
        forall|k: int| i <= k < j ==> !is_space_char(s[k]),
        j == s.len() || is_space_char(s[j]),
    ensures
        tokens_of(s.subrange(i, s.len() as int)) == seq![s.subrange(i, j)] + tokens_of(
            s.subrange(j, s.len() as int),
        ),
{
    let n = s.len() as int;
    let a = s.subrange(i, n);
    assert(forall|k: int| 0 <= k < j - i ==> a[k] == s[k + i] && !is_space_char(s[k + i]));
    assert(j - i == a.len() || is_space_char(a[j - i]));
    lemma_token_len_is(a, j - i);
    assert(!is_space_char(a[0]));
    assert(a.subrange(0, j - i) =~= s.subrange(i, j));
    assert(a.subrange(j - i, a.len() as int) =~= s.subrange(j, n));
}

/// The views of a list of owned tokens.
pub open spec fn views_of(ts: Seq<String>) -> Seq<Seq<char>> {
    ts.map_values(|t: String| t@)
}

/// End of the token that starts at `start`: the index of the next space, or
/// the end of the text.
fn token_end(s: &str, start: usize, n: usize) -> (e: usize)
    requires
        n == s@.len(),
        start < n,
        !is_space_char(s@[start as int]),
    ensures
        start < e <= n,
        forall|k: int| start <= k < e ==> !is_space_char(s@[k]),
        e == n || is_space_char(s@[e as int]),
{
    let mut i: usize = start;
    while i < n
        invariant
            start <= i <= n,
            n == s@.len(),
            forall|k: int| start <= k < i ==> !is_space_char(s@[k]),
            !is_space_char(s@[start as int]),
        decreases n - i,
    {
        let c = s.get_char(i);
        if is_space(c) {
            assert(i != start);
            return i;
        }
        i += 1;
    }
    n
}

/// Split a text into its whitespace-separated tokens.
pub fn tokenize(s: &str) -> (r: Vec<String>)
    ensures
        views_of(r@) == tokens_of(s@),
{
    let n = s.unicode_len();
    let mut r: Vec<String> = Vec::new();
    let mut i: usize = 0;
    assert(s@.subrange(0, n as int) =~= s@);
    while i < n
        invariant
            i <= n,
            n == s@.len(),
            tokens_of(s@) == views_of(r@) + tokens_of(s@.subrange(i as int, n as int)),
        decreases n - i,
    {
        let c = s.get_char(i);
        if is_space(c) {
            proof {
                lemma_tokens_skip_space(s@, i as int);
            }
            i += 1;
        } else {
            let e = token_end(s, i, n);
            let tok = String::from_str(s.substring_char(i, e));
            proof {
                lemma_tokens_take_token(s@, i as int, e as int);
                assert(views_of(r@.push(tok)) =~= views_of(r@).push(tok@));
                assert(views_of(r@).push(tok@) + tokens_of(s@.subrange(e as int, n as int)) =~= (
                views_of(r@) + seq![tok@]) + tokens_of(s@.subrange(e as int, n as int)));
                assert((views_of(r@) + seq![s@.subrange(i as int, e as int)]) + tokens_of(
                    s@.subrange(e as int, n as int),
                ) =~= views_of(r@) + (seq![s@.subrange(i as int, e as int)] + tokens_of(
                    s@.subrange(e as int, n as int),
                )));
            }
            r.push(tok);
            i = e;
        }
    }
    assert(s@.subrange(n as int, n as int) =~= Seq::<char>::empty());
    assert(views_of(r@) + Seq::<Seq<char>>::empty() =~= views_of(r@));
    r
}

/// Does `t` uppercase exactly to `u`?
pub fn token_lifts_to(t: &str, u: &str) -> (b: bool)
    ensures
        b == lifts_to(t@, u@),
{
    let tn = t.unicode_len();
    let un = u.unicode_len();
    if tn != un {
        return false;
    }
    let mut i: usize = 0;
    while i < tn
        invariant
            i <= tn,
            tn == t@.len(),
            un == u@.len(),
            tn == un,
            forall|j: int| 0 <= j < i ==> lift_pair(t@[j], u@[j]),
        decreases tn - i,
    {
        if !char_lifts(t.get_char(i), u.get_char(i)) {
            return false;
        }
        i += 1;
    }
    true
}

/// Lexicographic order on character sequences, by code point.
pub open spec fn lex_leq(a: Seq<char>, b: Seq<char>) -> bool
    decreases a.len(),
{
    if a.len() == 0 {
        true
    } else if b.len() == 0 {
        false
    } else if (a[0] as int) < (b[0] as int) {
        true
    } else if (b[0] as int) < (a[0] as int) {
        false
    } else {
        lex_leq(a.drop_first(), b.drop_first())
    }
}

pub proof fn lemma_lex_leq_total(a: Seq<char>, b: Seq<char>)
    ensures
        lex_leq(a, b) || lex_leq(b, a),
    decreases a.len(),
{
    if a.len() > 0 && b.len() > 0 && a[0] == b[0] {
        lemma_lex_leq_total(a.drop_first(), b.drop_first());
    }
}

#[verifier::rlimit(50)]
pub proof fn lemma_lex_leq_antisymmetric(a: Seq<char>, b: Seq<char>)
    requires
        lex_leq(a, b),
        lex_leq(b, a),
    ensures
        a =~= b,
    decreases a.len(),
{
    if a.len() > 0 && b.len() > 0 && a[0] == b[0] {
        lemma_lex_leq_antisymmetric(a.drop_first(), b.drop_first());
        assert(a =~= seq![a[0]] + a.drop_first());
        assert(b =~= seq![b[0]] + b.drop_first());
    }
}

pub proof fn lemma_lex_leq_transitive(a: Seq<char>, b: Seq<char>, c: Seq<char>)
    requires
        lex_leq(a, b),
        lex_leq(b, c),
    ensures
        lex_leq(a, c),
    decreases a.len(),
{
    if a.len() > 0 && b.len() > 0 && c.len() > 0 && a[0] == b[0] && b[0] == c[0] {
        lemma_lex_leq_transitive(a.drop_first(), b.drop_first(), c.drop_first())
    }
}

/// Unfolding one equal head of a lexicographic comparison.
proof fn lemma_lex_step(a: Seq<char>, b: Seq<char>)
    requires
        a.len() > 0,
        b.len() > 0,
        a[0] == b[0],
    ensures
        lex_leq(a, b) == lex_leq(a.drop_first(), b.drop_first()),
{
}

/// Lexicographic comparison of two strings.
pub fn str_lex_leq(a: &str, b: &str) -> (r: bool)
    ensures
        r == lex_leq(a@, b@),
{
    let an = a.unicode_len();
    let bn = b.unicode_len();
    let mut i: usize = 0;
    assert(a@.subrange(0, an as int) =~= a@);
    assert(b@.subrange(0, bn as int) =~= b@);
    while i < an && i < bn
        invariant
            i <= an,
            i <= bn,
            an == a@.len(),
            bn == b@.len(),
            lex_leq(a@, b@) == lex_leq(
                a@.subrange(i as int, an as int),
                b@.subrange(i as int, bn as int),
            ),
        decreases an - i,
    {
        let ca = a.get_char(i);
        let cb = b.get_char(i);
        let ghost ra = a@.subrange(i as int, an as int);
        let ghost rb = b@.subrange(i as int, bn as int);
        assert(ra[0] == ca && rb[0] == cb);
        if (ca as u32) < (cb as u32) {
            return true;
        }
        if (cb as u32) < (ca as u32) {
            return false;
        }
        proof {
            lemma_lex_step(ra, rb);
            assert(ra.drop_first() =~= a@.subrange(i + 1, an as int));
            assert(rb.drop_first() =~= b@.subrange(i + 1, bn as int));
        }
        i += 1;
    }
    if i >= an {
        assert(a@.subrange(i as int, an as int).len() == 0);
        true
    } else {
        assert(b@.subrange(i as int, bn as int).len() == 0);
        assert(a@.subrange(i as int, an as int).len() > 0);
        false
    }
}


/// The lexicographic order as a named relation, for use with `sorted_by`.
pub open spec fn lex_leq_fn() -> spec_fn(Seq<char>, Seq<char>) -> bool {
    |p: Seq<char>, q: Seq<char>| lex_leq(p, q)
}

/// A sorted, duplicate-free candidate list.
pub open spec fn sorted_unique(vs: Seq<Seq<char>>) -> bool {
    vstd::relations::sorted_by(vs, lex_leq_fn()) && vs.no_duplicates()
}

/// A sorted list is pairwise ordered.
pub proof fn lemma_sorted_unique_unfold(vs: Seq<Seq<char>>)
    requires
        sorted_unique(vs),
    ensures
        forall|p: int, q: int|
            0 <= p < q < vs.len() ==> #[trigger] lex_leq(vs[p], vs[q]),
{
    assert forall|p: int, q: int| 0 <= p < q < vs.len() implies #[trigger] lex_leq(
        vs[p],
        vs[q],
    ) by {
        assert(lex_leq_fn()(vs[p], vs[q]));
    }
}

/// Views commute with insertion.
proof fn lemma_views_insert(w: Seq<String>, i: int, x: String)
    requires
        0 <= i <= w.len(),
    ensures
        views_of(w.insert(i, x)) =~= views_of(w).insert(i, x@),
{
}

/// Inserting at the right spot keeps a candidate list sorted and
/// duplicate-free and adds exactly the new value to its set.
proof fn lemma_insert_sorted_unique(vs: Seq<Seq<char>>, i: int, x: Seq<char>)
    requires
        sorted_unique(vs),
        0 <= i <= vs.len(),
        forall|k: int| 0 <= k < i ==> lex_leq(#[trigger] vs[k], x) && vs[k] != x,
        i < vs.len() ==> lex_leq(x, vs[i]) && !lex_leq(vs[i], x),
    ensures
        sorted_unique(vs.insert(i, x)),
        vs.insert(i, x).to_set() == vs.to_set().insert(x),
{
    let ws = vs.insert(i, x);
    lemma_sorted_unique_unfold(vs);
    assert(ws =~= vs.subrange(0, i) + seq![x] + vs.subrange(i, vs.len() as int));
    assert forall|p: int, q: int| 0 <= p < q < ws.len() implies #[trigger] lex_leq_fn()(
        ws[p],
        ws[q],
    ) by {
        if p < i && q == i {
            assert(lex_leq(vs[p], x));
        } else if p == i && q > i {
            if q - 1 > i {
                lemma_lex_leq_transitive(x, vs[i], vs[q - 1]);
            }
        } else if p < i && q > i {
            assert(lex_leq(vs[p], vs[q - 1]));
        } else if p > i && q > i {
            assert(lex_leq(vs[p - 1], vs[q - 1]));
        } else if p < i && q < i {
            assert(lex_leq(vs[p], vs[q]));
        }
    }
    assert forall|p: int, q: int| 0 <= p < q < ws.len() implies ws[p] != ws[q] by {
        if p == i && q > i {
            if x == vs[q - 1] {
                assert(lex_leq(vs[i], vs[q - 1]));
                lemma_lex_leq_antisymmetric(x, vs[i]);
            }
        } else if p < i && q == i {
            assert(vs[p] != x);
        } else if p < i && q > i {
            assert(vs[p] != vs[q - 1]);
        } else if p > i && q > i {
            assert(vs[p - 1] != vs[q - 1]);
        } else {
            assert(vs[p] != vs[q]);
        }
    }
    assert(ws.to_set() =~= vs.to_set().insert(x)) by {
        assert forall|e: Seq<char>| #[trigger] ws.to_set().contains(e) implies vs.to_set().insert(
            x,
        ).contains(e) by {
            let j = choose|j: int| 0 <= j < ws.len() && ws[j] == e;
            if j < i {
                assert(vs[j] == e);
            } else if j > i {
                assert(vs[j - 1] == e);
            }
        }
        assert forall|e: Seq<char>| #[trigger] vs.to_set().insert(x).contains(
            e,
        ) implies ws.to_set().contains(e) by {
            if e == x {
                assert(ws[i] == e);
            } else {
                let j = choose|j: int| 0 <= j < vs.len() && vs[j] == e;
                if j < i {
                    assert(ws[j] == e);
                } else {
                    assert(ws[j + 1] == e);
                }
            }
        }
    }
}

/// Insert a value into a lexicographically sorted, duplicate-free list,
/// keeping it sorted and duplicate-free; a value already present is dropped.
pub fn insert_sorted_unique(v: &mut Vec<String>, x: String)
    requires
        sorted_unique(views_of(old(v)@)),
    ensures
        sorted_unique(views_of(final(v)@)),
        views_of(final(v)@).to_set() == views_of(old(v)@).to_set().insert(x@),
{
    let n = v.len();
    let mut i: usize = 0;
    while i < n
        invariant
            i <= n,
            n == v@.len(),
            v@ == old(v)@,
            sorted_unique(views_of(v@)),
            forall|k: int| 0 <= k < i ==> lex_leq(#[trigger] views_of(v@)[k], x@) && views_of(
                v@,
            )[k] != x@,
        decreases n - i,
    {
        let ghost vs = views_of(v@);
        proof {
            lemma_sorted_unique_unfold(vs);
        }
        let cur_leq_x = str_lex_leq(v[i].as_str(), x.as_str());
        let x_leq_cur = str_lex_leq(x.as_str(), v[i].as_str());
        assert(vs[i as int] == v@[i as int]@);
        if x_leq_cur {
            if cur_leq_x {
                proof {
                    lemma_lex_leq_antisymmetric(x@, vs[i as int]);
                    assert(vs.to_set().contains(vs[i as int]));
                    assert(vs.to_set() =~= vs.to_set().insert(x@));
                }
                return ;
            }
            proof {
                lemma_insert_sorted_unique(vs, i as int, x@);
                lemma_views_insert(v@, i as int, x);
            }
            v.insert(i, x);
            return ;
        }
        proof {
            lemma_lex_leq_total(x@, vs[i as int]);
            if vs[i as int] == x@ {
                assert(lex_leq(x@, vs[i as int]));
            }
        }
        i += 1;
    }
    proof {
        lemma_insert_sorted_unique(views_of(v@), n as int, x@);
        lemma_views_insert(v@, n as int, x);
    }
    v.insert(n, x);
}

/// The first value of `xs`, in order, that is not one of `all`.
pub open spec fn first_not_in(all: Seq<Seq<char>>, xs: Seq<Seq<char>>) -> Option<Seq<char>>
    decreases xs.len(),
{
    if xs.len() == 0 {
        None
    } else if !all.contains(xs[0]) {
        Some(xs[0])
    } else {
        first_not_in(all, xs.drop_first())
    }
}

/// Does the list hold this string?
pub fn contains_string(v: &Vec<String>, x: &String) -> (b: bool)
    ensures
        b == views_of(v@).contains(x@),
{
    let n = v.len();
    let mut i: usize = 0;
    while i < n
        invariant
            i <= n,
            n == v@.len(),
            forall|k: int| 0 <= k < i ==> #[trigger] views_of(v@)[k] != x@,
        decreases n - i,
    {
        if v[i] == *x {
            assert(views_of(v@)[i as int] == x@);
            return true;
        }
        assert(views_of(v@)[i as int] != x@);
        i += 1;
    }
    assert(forall|k: int| 0 <= k < views_of(v@).len() ==> #[trigger] views_of(v@)[k] != x@);
    false
}

/// The first value of the list, in order, that is not one of `all` (as
/// views); used to validate batches against a catalog.
pub fn find_first_not_in(all: &Vec<String>, xs: &Vec<String>) -> (r: Option<String>)
    ensures
        match r {
            Some(x) => first_not_in(views_of(all@), views_of(xs@)) == Some(x@),
            None => first_not_in(views_of(all@), views_of(xs@)) is None,
        },
{
    let ghost av = views_of(all@);
    let ghost vs = views_of(xs@);
    let n = xs.len();
    let mut i: usize = 0;
    assert(vs.skip(0) =~= vs);
    while i < n
        invariant
            i <= n,
            n == xs@.len(),
            av == views_of(all@),
            vs == views_of(xs@),
            first_not_in(av, vs) == first_not_in(av, vs.skip(i as int)),
        decreases n - i,
    {
        assert(vs.skip(i as int)[0] == vs[i as int]);
        assert(vs.skip(i as int).drop_first() =~= vs.skip(i + 1));
        if !contains_string(all, &xs[i]) {
            assert(first_not_in(av, vs.skip(i as int)) == Some(vs[i as int]));
            return Some(xs[i].clone());
        }
        i += 1;
    }
    assert(vs.skip(n as int).len() == 0);
    None
}

} // verus!
