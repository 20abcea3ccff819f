//! The region catalog and the alias index built from it.
//!
//! A region is a canonical code together with its aliases. The index maps
//! every alias (and the code itself) to the code and resolves free text:
//! token by token, an exact case-folded alias match first, then the reserved
//! whole-country keyword, then an unambiguous-prefix fallback.

use crate::text::{
    folds_to, folds_to_prefix, lex_leq, sorted_unique, token_folds_to, token_folds_to_prefix,
    tokenize, tokens_of, views_of,
};
use vstd::prelude::*;

verus! {

/// A catalog entry: a canonical region code and its aliases.
#[derive(Debug, Clone, PartialEq, Eq)]
pub struct Region {
    pub region: String,
    pub aliases: Vec<String>,
}

/// The views of a list of owned alias pairs.
pub open spec fn pair_views(ps: Seq<(String, String)>) -> Seq<(Seq<char>, Seq<char>)> {
    ps.map_values(|p: (String, String)| (p.0@, p.1@))
}

/// The alias pairs a catalog entry's alias list contributes.
pub open spec fn alias_pairs_of(r: Region) -> Seq<(Seq<char>, Seq<char>)> {
    r.aliases@.map_values(|a: String| (a@, r.region@))
}

/// The alias pairs a catalog entry contributes: each alias, and the code
/// itself, mapped to the code.
pub open spec fn region_pairs(r: Region) -> Seq<(Seq<char>, Seq<char>)> {
    alias_pairs_of(r).push((r.region@, r.region@))
}

/// All alias pairs of a catalog, in catalog order.
pub open spec fn catalog_pairs(cat: Seq<Region>) -> Seq<(Seq<char>, Seq<char>)>
    decreases cat.len(),
{
    if cat.len() == 0 {
        Seq::empty()
    } else {
        region_pairs(cat[0]) + catalog_pairs(cat.drop_first())
    }
}

pub proof fn lemma_catalog_pairs_append(a: Seq<Region>, b: Seq<Region>)
    ensures
        catalog_pairs(a + b) == catalog_pairs(a) + catalog_pairs(b),
    decreases a.len(),
{
    if a.len() == 0 {
        assert(a + b =~= b);
        assert(catalog_pairs(a) + catalog_pairs(b) =~= catalog_pairs(b));
    } else {
        assert((a + b).drop_first() =~= a.drop_first() + b);
        lemma_catalog_pairs_append(a.drop_first(), b);
        assert(region_pairs(a[0]) + (catalog_pairs(a.drop_first()) + catalog_pairs(b)) =~= (
        region_pairs(a[0]) + catalog_pairs(a.drop_first())) + catalog_pairs(b));
    }
}

/// The code of the first alias pair whose alias is the case-folded token.
pub open spec fn exact_code(ps: Seq<(Seq<char>, Seq<char>)>, t: Seq<char>) -> Option<Seq<char>>
    decreases ps.len(),
{
    if ps.len() == 0 {
        None
    } else if folds_to(t, ps[0].0) {
        Some(ps[0].1)
    } else {
        exact_code(ps.drop_first(), t)
    }
}

/// The codes of all alias pairs whose alias the token is a case-folded
/// prefix of, in catalog order.
pub open spec fn prefix_codes(ps: Seq<(Seq<char>, Seq<char>)>, t: Seq<char>) -> Seq<Seq<char>>
    decreases ps.len(),
{
    if ps.len() == 0 {
        Seq::empty()
    } else {
        (if folds_to_prefix(t, ps[0].0) {
            seq![ps[0].1]
        } else {
            Seq::empty()
        }) + prefix_codes(ps.drop_first(), t)
    }
}

/// All entries of a candidate list name the same region.
pub open spec fn all_same(cs: Seq<Seq<char>>) -> bool {
    forall|i: int| 0 <= i < cs.len() ==> #[trigger] cs[i] == cs[0]
}

/// What a single token resolves to, keyword aside: its exact alias match,
/// or the region all its prefix matches agree on.
pub open spec fn token_code(ps: Seq<(Seq<char>, Seq<char>)>, t: Seq<char>) -> Option<Seq<char>> {
    match exact_code(ps, t) {
        Some(c) => Some(c),
        None => {
            let cs = prefix_codes(ps, t);
            if cs.len() > 0 && all_same(cs) {
                Some(cs[0])
            } else {
                None
            }
        },
    }
}

/// The token is the reserved whole-country keyword, up to case folding.
pub open spec fn is_keyword(kw: Seq<char>, t: Seq<char>) -> bool {
    folds_to(t, kw)
}

/// The outcome of resolving a token list against the index.
pub enum RegionOutcome {
    /// The reserved keyword was hit: every known region, as a sentinel.
    Country(Seq<Seq<char>>),
    /// Every token resolved; codes in input order, duplicates kept.
    Picked(Seq<Seq<char>>),
    /// The first unresolvable token, with the set of regions its prefix
    /// matches point at.
    Failed { token: Seq<char>, matches: Set<Seq<char>> },
}

/// Prepend already-resolved codes to an outcome.
pub open spec fn out_prepend(pre: Seq<Seq<char>>, o: RegionOutcome) -> RegionOutcome {
    match o {
        RegionOutcome::Picked(cs) => RegionOutcome::Picked(pre + cs),
        other => other,
    }
}

/// Resolve a token list, left to right and fail-fast: the keyword
/// short-circuits to `Country`, an unresolvable token aborts with `Failed`,
/// otherwise every token contributes its region in order.
pub open spec fn resolve_tokens(
    ps: Seq<(Seq<char>, Seq<char>)>,
    kw: Seq<char>,
    codes: Seq<Seq<char>>,
    ts: Seq<Seq<char>>,
) -> RegionOutcome
    decreases ts.len(),
{
    if ts.len() == 0 {
        RegionOutcome::Picked(Seq::empty())
    } else if is_keyword(kw, ts[0]) {
        RegionOutcome::Country(codes)
    } else {
        match token_code(ps, ts[0]) {
            Some(c) => out_prepend(
                seq![c],
                resolve_tokens(ps, kw, codes, ts.drop_first()),
            ),
            None => RegionOutcome::Failed {
                token: ts[0],
                matches: prefix_codes(ps, ts[0]).to_set(),
            },
        }
    }
}

/// Clone a list of strings, view for view.
pub fn clone_strings(v: &Vec<String>) -> (r: Vec<String>)
    ensures
        r@ == v@,
{
    let mut r: Vec<String> = Vec::new();
    let mut i: usize = 0;
    while i < v.len()
        invariant
            i <= v@.len(),
            r@ == v@.subrange(0, i as int),
        decreases v@.len() - i,
    {
        r.push(v[i].clone());
        assert(r@ =~= v@.subrange(0, i + 1));
        i += 1;
    }
    assert(v@.subrange(0, v@.len() as int) =~= v@);
    r
}

/// The view of a catalog: the codes of its entries, in order.
pub open spec fn catalog_codes(cat: Seq<Region>) -> Seq<Seq<char>> {
    cat.map_values(|r: Region| r.region@)
}

/// A catalog the index accepts: no alias occurs twice and no code occurs
/// twice.
pub open spec fn catalog_ok(cat: Seq<Region>) -> bool {
    let ps = catalog_pairs(cat);
    &&& forall|i: int, j: int| 0 <= i < j < ps.len() ==> (#[trigger] ps[i]).0 != (#[trigger] ps[j]).0
    &&& catalog_codes(cat).no_duplicates()
}

/// The outcome of resolving free text against the index.
#[derive(Debug, Clone, PartialEq, Eq)]
pub enum Regions {
    /// The whole-country keyword was hit: every known region code.
    Country(Vec<String>),
    /// Every token resolved; codes in input order, duplicates kept.
    Regions(Vec<String>),
    /// The first unresolvable token, with the sorted, duplicate-free list of
    /// regions its prefix matches point at.
    BadRegion { region: String, matches: Vec<String> },
}

/// The executable outcome agrees with the resolution model.
pub open spec fn outcome_matches(r: Regions, o: RegionOutcome) -> bool {
    match (r, o) {
        (Regions::Country(v), RegionOutcome::Country(cs)) => views_of(v@) == cs,
        (Regions::Regions(v), RegionOutcome::Picked(cs)) => views_of(v@) == cs,
        (
            Regions::BadRegion { region, matches },
            RegionOutcome::Failed { token, matches: ms },
        ) => region@ == token && sorted_unique(views_of(matches@)) && views_of(matches@).to_set()
            == ms,
        _ => false,
    }
}

/// The immutable alias index: every alias of the catalog, and every code
/// itself, mapped to its canonical region code, together with the reserved
/// whole-country keyword.
pub struct AliasIndex {
    pairs: Vec<(String, String)>,
    codes: Vec<String>,
    keyword: String,
}

impl AliasIndex {
    /// The alias pairs, as (alias, code) views in catalog order.
    pub closed spec fn spec_pairs(&self) -> Seq<(Seq<char>, Seq<char>)> {
        pair_views(self.pairs@)
    }

    /// All canonical codes, in catalog order.
    pub closed spec fn spec_codes(&self) -> Seq<Seq<char>> {
        views_of(self.codes@)
    }

    /// The reserved whole-country keyword.
    pub closed spec fn spec_keyword(&self) -> Seq<char> {
        self.keyword@
    }

    /// Aliases are unique, codes are unique, and every pair's code is a
    /// known code.
    pub open spec fn wf(&self) -> bool {
        &&& forall|i: int, j: int|
            0 <= i < j < self.spec_pairs().len() ==> (#[trigger] self.spec_pairs()[i]).0 != (
            #[trigger] self.spec_pairs()[j]).0
        &&& forall|i: int|
            0 <= i < self.spec_pairs().len() ==> self.spec_codes().contains(
                (#[trigger] self.spec_pairs()[i]).1,
            )
        &&& self.spec_codes().no_duplicates()
    }

    /// Build the index from a catalog and the reserved keyword. Every alias
    /// of an entry, and the entry's code itself, maps to the code. A catalog
    /// with a repeated alias or a repeated code is rejected.
    pub fn new(catalog: &Vec<Region>, keyword: &str) -> (r: Option<AliasIndex>)
        ensures
            r is Some <==> catalog_ok(catalog@),
            match r {
                Some(idx) => idx.wf() && idx.spec_pairs() == catalog_pairs(catalog@)
                    && idx.spec_codes() == catalog_codes(catalog@) && idx.spec_keyword()
                    == keyword@,
                None => true,
            },
    {
        let mut pairs: Vec<(String, String)> = Vec::new();
        let mut codes: Vec<String> = Vec::new();
        let n = catalog.len();
        let mut i: usize = 0;
        assert(catalog@.take(0) =~= Seq::<Region>::empty());
        assert(views_of(codes@) =~= catalog_codes(catalog@.take(0)));
        while i < n
            invariant
                i <= n,
                n == catalog@.len(),
                pair_views(pairs@) == catalog_pairs(catalog@.take(i as int)),
                views_of(codes@) == catalog_codes(catalog@.take(i as int)),
            decreases n - i,
        {
            let entry = &catalog[i];
            let m = entry.aliases.len();
            let mut j: usize = 0;
            while j < m
                invariant
                    j <= m,
                    i < n,
                    n == catalog@.len(),
                    m == catalog@[i as int].aliases@.len(),
                    *entry == catalog@[i as int],
                    pair_views(pairs@) == catalog_pairs(catalog@.take(i as int))
                        + alias_pairs_of(catalog@[i as int]).take(j as int),
                decreases m - j,
            {
                let ghost old_pairs = pairs@;
                proof {
                    assert(pair_views(old_pairs) == catalog_pairs(catalog@.take(i as int))
                        + alias_pairs_of(catalog@[i as int]).take(j as int));
                    assert(pair_views(old_pairs).len() == old_pairs.len());
                    assert(alias_pairs_of(catalog@[i as int]).len() == m);
                    assert(alias_pairs_of(catalog@[i as int]).take(j as int).len() == j);
                    assert(old_pairs.len() == catalog_pairs(catalog@.take(i as int)).len() + j);
                }
                pairs.push((entry.aliases[j].clone(), entry.region.clone()));
                proof {
                    let lhs = pair_views(pairs@);
                    let rhs = catalog_pairs(catalog@.take(i as int)) + alias_pairs_of(
                        catalog@[i as int],
                    ).take(j + 1);
                    assert(pairs@ == old_pairs.push(pairs@[old_pairs.len() as int]));
                    assert(lhs.len() == rhs.len());
                    assert(forall|k: int|
                        0 <= k < old_pairs.len() ==> #[trigger] lhs[k] == pair_views(
                            old_pairs,
                        )[k]);
                    assert(lhs[old_pairs.len() as int] == rhs[old_pairs.len() as int]);
                    assert(lhs =~= rhs);
                }
                j += 1;
            }
            let ghost pre_pairs = pairs@;
            let ghost pre_codes = codes@;
            pairs.push((entry.region.clone(), entry.region.clone()));
            codes.push(entry.region.clone());
            proof {
                let entry_v = catalog@[i as int];
                assert(alias_pairs_of(entry_v).take(m as int) =~= alias_pairs_of(entry_v));
                assert(pair_views(pairs@).len() == pairs@.len());
                assert(alias_pairs_of(entry_v).len() == m);
                assert(pairs@.len() == catalog_pairs(catalog@.take(i as int)).len() + m + 1);
                assert(region_pairs(entry_v).len() == m + 1);
                assert(forall|k: int|
                    0 <= k < pre_pairs.len() ==> #[trigger] pair_views(pairs@)[k] == pair_views(
                        pre_pairs,
                    )[k]);
                assert(pair_views(pairs@)[pre_pairs.len() as int] == (entry_v.region@,
                entry_v.region@));
                assert(region_pairs(entry_v)[m as int] == (entry_v.region@, entry_v.region@));
                assert(pair_views(pairs@) =~= catalog_pairs(catalog@.take(i as int))
                    + region_pairs(entry_v));
                assert(catalog@.take(i + 1) =~= catalog@.take(i as int) + seq![entry_v]);
                lemma_catalog_pairs_append(catalog@.take(i as int), seq![entry_v]);
                let single = seq![entry_v];
                assert(single.drop_first() =~= Seq::<Region>::empty());
                assert(catalog_pairs(single.drop_first()) =~= Seq::<(Seq<char>, Seq<char>)>::empty());
                assert(catalog_pairs(single) =~= region_pairs(entry_v));
                assert(pair_views(pairs@) =~= catalog_pairs(catalog@.take(i + 1)));
                assert(views_of(pre_codes).len() == pre_codes.len());
                assert(views_of(pre_codes) == catalog_codes(catalog@.take(i as int)));
                assert(catalog_codes(catalog@.take(i as int)).len() == i);
                assert(pre_codes.len() == i);
                assert(codes@ == pre_codes.push(codes@[pre_codes.len() as int]));
                assert(views_of(codes@).len() == codes@.len());
                assert(catalog_codes(catalog@.take(i + 1)).len() == i + 1);
                assert(forall|k: int|
                    0 <= k < pre_codes.len() ==> #[trigger] views_of(codes@)[k] == views_of(
                        pre_codes,
                    )[k]);
                assert(views_of(codes@)[pre_codes.len() as int] == entry_v.region@);
                assert(forall|k: int|
                    0 <= k < i ==> #[trigger] catalog_codes(catalog@.take(i as int))[k]
                        == catalog@[k].region@);
                assert(forall|k: int|
                    0 <= k < i + 1 ==> #[trigger] catalog_codes(catalog@.take(i + 1))[k]
                        == catalog@[k].region@);
                assert(views_of(codes@) =~= catalog_codes(catalog@.take(i + 1)));
            }
            i += 1;
        }
        assert(catalog@.take(n as int) =~= catalog@);
        let np = pairs.len();
        let mut p: usize = 0;
        while p < np
            invariant
                p <= np,
                np == pairs@.len(),
                pair_views(pairs@) == catalog_pairs(catalog@),
                views_of(codes@) == catalog_codes(catalog@),
                forall|a: int, b: int|
                    0 <= a < b < np && a < p ==> (#[trigger] catalog_pairs(catalog@)[a]).0 != (
                    #[trigger] catalog_pairs(catalog@)[b]).0,
            decreases np - p,
        {
            let mut q: usize = p + 1;
            while q < np
                invariant
                    p < q <= np,
                    np == pairs@.len(),
                    pair_views(pairs@) == catalog_pairs(catalog@),
                    forall|b: int|
                        p < b < q ==> (#[trigger] catalog_pairs(catalog@)[b]).0 != catalog_pairs(
                            catalog@,
                        )[p as int].0,
                decreases np - q,
            {
                if pairs[p].0 == pairs[q].0 {
                    assert(catalog_pairs(catalog@)[p as int].0 == catalog_pairs(
                        catalog@,
                    )[q as int].0);
                    return None;
                }
                q += 1;
            }
            p += 1;
        }
        let nc = codes.len();
        let mut p: usize = 0;
        while p < nc
            invariant
                p <= nc,
                nc == codes@.len(),
                views_of(codes@) == catalog_codes(catalog@),
                forall|a: int, b: int|
                    0 <= a < b < nc && a < p ==> catalog_codes(catalog@)[a] != catalog_codes(
                        catalog@,
                    )[b],
            decreases nc - p,
        {
            let mut q: usize = p + 1;
            while q < nc
                invariant
                    p < q <= nc,
                    nc == codes@.len(),
                    views_of(codes@) == catalog_codes(catalog@),
                    forall|b: int|
                        p < b < q ==> catalog_codes(catalog@)[b] != catalog_codes(
                            catalog@,
                        )[p as int],
                decreases nc - q,
            {
                if codes[p] == codes[q] {
                    assert(catalog_codes(catalog@)[p as int] == catalog_codes(catalog@)[q as int]);
                    return None;
                }
                q += 1;
            }
            p += 1;
        }
        let idx = AliasIndex { pairs, codes, keyword: String::from_str(keyword) };
        proof {
            let ps = idx.spec_pairs();
            assert forall|k: int| 0 <= k < ps.len() implies idx.spec_codes().contains(
                (#[trigger] ps[k]).1,
            ) by {
                lemma_catalog_pair_code(catalog@, k);
            }
        }
        Some(idx)
    }
}

/// Every alias pair's code is one of the catalog's codes.
proof fn lemma_catalog_pair_code(cat: Seq<Region>, k: int)
    requires
        0 <= k < catalog_pairs(cat).len(),
    ensures
        catalog_codes(cat).contains(catalog_pairs(cat)[k].1),
    decreases cat.len(),
{
    if cat.len() > 0 {
        let head = region_pairs(cat[0]);
        if k < head.len() {
            assert(catalog_pairs(cat)[k].1 == cat[0].region@);
            assert(catalog_codes(cat)[0] == cat[0].region@);
        } else {
            lemma_catalog_pair_code(cat.drop_first(), k - head.len());
            let c = catalog_pairs(cat.drop_first())[k - head.len()].1;
            let j = choose|j: int|
                0 <= j < catalog_codes(cat.drop_first()).len() && catalog_codes(
                    cat.drop_first(),
                )[j] == c;
            assert(catalog_codes(cat)[j + 1] == c);
        }
    }
}

impl AliasIndex {
    /// Exact alias lookup of one token, by case folding.
    fn exact_lookup(&self, t: &str) -> (r: Option<String>)
        ensures
            match r {
                Some(c) => exact_code(self.spec_pairs(), t@) == Some(c@),
                None => exact_code(self.spec_pairs(), t@) is None,
            },
    {
        let ghost ps = self.spec_pairs();
        let n = self.pairs.len();
        let mut i: usize = 0;
        assert(ps.skip(0) =~= ps);
        while i < n
            invariant
                i <= n,
                n == self.pairs@.len(),
                ps == self.spec_pairs(),
                exact_code(ps, t@) == exact_code(ps.skip(i as int), t@),
            decreases n - i,
        {
            assert(ps.skip(i as int)[0] == ps[i as int]);
            if token_folds_to(t, self.pairs[i].0.as_str()) {
                assert(exact_code(ps.skip(i as int), t@) == Some(ps[i as int].1));
                return Some(self.pairs[i].1.clone());
            }
            assert(ps.skip(i as int).drop_first() =~= ps.skip(i + 1));
            i += 1;
        }
        assert(ps.skip(n as int).len() == 0);
        None
    }

    /// The codes of every alias the token is a case-folded prefix of, in
    /// catalog order.
    fn prefix_lookup(&self, t: &str) -> (r: Vec<String>)
        ensures
            views_of(r@) == prefix_codes(self.spec_pairs(), t@),
    {
        let ghost ps = self.spec_pairs();
        let n = self.pairs.len();
        let mut r: Vec<String> = Vec::new();
        let mut i: usize = 0;
        assert(ps.skip(0) =~= ps);
        assert(views_of(r@) + prefix_codes(ps, t@) =~= prefix_codes(ps, t@));
        while i < n
            invariant
                i <= n,
                n == self.pairs@.len(),
                ps == self.spec_pairs(),
                prefix_codes(ps, t@) == views_of(r@) + prefix_codes(ps.skip(i as int), t@),
            decreases n - i,
        {
            let ghost pre = r@;
            assert(ps.skip(i as int)[0] == ps[i as int]);
            assert(ps.skip(i as int).drop_first() =~= ps.skip(i + 1));
            if token_folds_to_prefix(t, self.pairs[i].0.as_str()) {
                r.push(self.pairs[i].1.clone());
                proof {
                    assert(views_of(r@) =~= views_of(pre) + seq![ps[i as int].1]);
                    assert(prefix_codes(ps.skip(i as int), t@) == seq![ps[i as int].1]
                        + prefix_codes(ps.skip(i + 1), t@));
                    assert((views_of(pre) + seq![ps[i as int].1]) + prefix_codes(ps.skip(i + 1), t@)
                        =~= views_of(pre) + (seq![ps[i as int].1] + prefix_codes(
                        ps.skip(i + 1),
                        t@,
                    )));
                }
            } else {
                proof {
                    assert(prefix_codes(ps.skip(i as int), t@) == Seq::<Seq<char>>::empty()
                        + prefix_codes(ps.skip(i + 1), t@));
                    assert(Seq::<Seq<char>>::empty() + prefix_codes(ps.skip(i + 1), t@)
                        =~= prefix_codes(ps.skip(i + 1), t@));
                }
            }
            i += 1;
        }
        assert(ps.skip(n as int).len() == 0);
        assert(prefix_codes(ps.skip(n as int), t@) =~= Seq::<Seq<char>>::empty());
        assert(views_of(r@) + Seq::<Seq<char>>::empty() =~= views_of(r@));
        r
    }
}

/// Do all entries of a candidate list name the same region?
fn all_same_vec(v: &Vec<String>) -> (b: bool)
    ensures
        b == all_same(views_of(v@)),
{
    let n = v.len();
    let mut i: usize = 0;
    while i < n
        invariant
            i <= n,
            n == v@.len(),
            forall|k: int| 0 <= k < i ==> #[trigger] views_of(v@)[k] == views_of(v@)[0],
        decreases n - i,
    {
        if !(v[i] == v[0]) {
            assert(views_of(v@)[i as int] != views_of(v@)[0]);
            return false;
        }
        assert(views_of(v@)[i as int] == views_of(v@)[0]);
        i += 1;
    }
    true
}

/// The sorted, duplicate-free list holding exactly the values of the input.
fn sorted_set_vec(v: &Vec<String>) -> (r: Vec<String>)
    ensures
        sorted_unique(views_of(r@)),
        views_of(r@).to_set() == views_of(v@).to_set(),
{
    let n = v.len();
    let mut r: Vec<String> = Vec::new();
    let mut i: usize = 0;
    assert(views_of(v@).take(0) =~= Seq::<Seq<char>>::empty());
    proof {
        assert(Seq::<Seq<char>>::empty().to_set() =~= Set::<Seq<char>>::empty());
        assert(views_of(r@) =~= Seq::<Seq<char>>::empty());
        assert(views_of(r@).to_set() == views_of(v@).take(0).to_set());
    }
    while i < n
        invariant
            i <= n,
            n == v@.len(),
            sorted_unique(views_of(r@)),
            views_of(r@).to_set() == views_of(v@).take(i as int).to_set(),
        decreases n - i,
    {
        let ghost pre = views_of(r@);
        let x = v[i].clone();
        assert(x@ == views_of(v@)[i as int]);
        crate::text::insert_sorted_unique(&mut r, x);
        proof {
            let vs = views_of(v@);
            assert(views_of(r@).to_set() == pre.to_set().insert(vs[i as int]));
            assert(vs.take(i as int) + seq![vs[i as int]] =~= vs.take(i + 1));
            Seq::<Seq<char>>::lemma_to_set_insert_commutes(vs.take(i as int), vs[i as int]);
            assert((vs.take(i as int) + seq![vs[i as int]]).to_set() == vs.take(i + 1).to_set());
            assert(views_of(r@).to_set() == vs.take(i + 1).to_set());
        }
        i += 1;
    }
    assert(views_of(v@).take(n as int) =~= views_of(v@));
    r
}

impl AliasIndex {
    /// Resolve free text to regions: each whitespace token in turn, the
    /// reserved keyword short-circuiting to `Country`, an exact case-folded
    /// alias match next, then the region all prefix matches agree on; the
    /// first unresolvable token aborts with `BadRegion` and the sorted,
    /// duplicate-free candidate regions. Resolved codes keep input order and
    /// duplicates.
    pub fn extract_regions(&self, regions: &str) -> (r: Regions)
        ensures
            outcome_matches(
                r,
                resolve_tokens(
                    self.spec_pairs(),
                    self.spec_keyword(),
                    self.spec_codes(),
                    tokens_of(regions@),
                ),
            ),
    {
        let toks = tokenize(regions);
        self.resolve_list(&toks)
    }

    /// Resolve a list of tokens to regions, exactly as `extract_regions`
    /// does for the tokens of a text.
    pub fn resolve_list(&self, toks: &Vec<String>) -> (r: Regions)
        ensures
            outcome_matches(
                r,
                resolve_tokens(
                    self.spec_pairs(),
                    self.spec_keyword(),
                    self.spec_codes(),
                    views_of(toks@),
                ),
            ),
    {
        let ghost ps = self.spec_pairs();
        let ghost kw = self.spec_keyword();
        let ghost cs = self.spec_codes();
        let ghost full = views_of(toks@);
        let n = toks.len();
        let mut res: Vec<String> = Vec::new();
        let mut i: usize = 0;
        assert(full.skip(0) =~= full);
        assert(views_of(res@) =~= Seq::<Seq<char>>::empty());
        while i < n
            invariant
                i <= n,
                n == toks@.len(),
                views_of(toks@) == full,
                ps == self.spec_pairs(),
                kw == self.spec_keyword(),
                cs == self.spec_codes(),
                resolve_tokens(ps, kw, cs, full) == out_prepend(
                    views_of(res@),
                    resolve_tokens(ps, kw, cs, full.skip(i as int)),
                ),
            decreases n - i,
        {
            let t = &toks[i];
            let ghost rest = full.skip(i as int);
            assert(rest[0] == full[i as int]);
            assert(full[i as int] == toks@[i as int]@);
            assert(rest.drop_first() =~= full.skip(i + 1));
            if token_folds_to(t.as_str(), self.keyword.as_str()) {
                assert(resolve_tokens(ps, kw, cs, rest) == RegionOutcome::Country(cs));
                return Regions::Country(clone_strings(&self.codes));
            }
            let exact = self.exact_lookup(t.as_str());
            match exact {
                Some(code) => {
                    proof {
                        let ghost pre = views_of(res@);
                        assert(resolve_tokens(ps, kw, cs, rest) == out_prepend(
                            seq![code@],
                            resolve_tokens(ps, kw, cs, full.skip(i + 1)),
                        ));
                        assert(pre.push(code@) =~= pre + seq![code@]);
                        lemma_out_prepend_assoc(
                            pre,
                            seq![code@],
                            resolve_tokens(ps, kw, cs, full.skip(i + 1)),
                        );
                    }
                    let ghost pre_res = res@;
                    res.push(code);
                    proof {
                        assert(views_of(res@) =~= views_of(pre_res).push(
                            views_of(res@)[pre_res.len() as int],
                        ));
                    }
                    i += 1;
                },
                None => {
                    let pc = self.prefix_lookup(t.as_str());
                    if pc.len() > 0 && all_same_vec(&pc) {
                        let code = pc[0].clone();
                        proof {
                            assert(views_of(pc@)[0] == code@);
                            assert(token_code(ps, rest[0]) == Some(code@));
                            let ghost pre = views_of(res@);
                            assert(resolve_tokens(ps, kw, cs, rest) == out_prepend(
                                seq![code@],
                                resolve_tokens(ps, kw, cs, full.skip(i + 1)),
                            ));
                            assert(pre.push(code@) =~= pre + seq![code@]);
                            lemma_out_prepend_assoc(
                                pre,
                                seq![code@],
                                resolve_tokens(ps, kw, cs, full.skip(i + 1)),
                            );
                        }
                        let ghost pre_res = res@;
                        res.push(code);
                        proof {
                            assert(views_of(res@) =~= views_of(pre_res).push(
                                views_of(res@)[pre_res.len() as int],
                            ));
                        }
                        i += 1;
                    } else {
                        assert(token_code(ps, rest[0]) is None);
                        let ms = sorted_set_vec(&pc);
                        return Regions::BadRegion { region: t.clone(), matches: ms };
                    }
                },
            }
        }
        assert(full.skip(n as int).len() == 0);
        assert(resolve_tokens(ps, kw, cs, full.skip(n as int)) == RegionOutcome::Picked(
            Seq::<Seq<char>>::empty(),
        ));
        assert(views_of(res@) + Seq::<Seq<char>>::empty() =~= views_of(res@));
        Regions::Regions(res)
    }
}

/// Prepending resolved codes composes.
proof fn lemma_out_prepend_assoc(a: Seq<Seq<char>>, b: Seq<Seq<char>>, o: RegionOutcome)
    ensures
        out_prepend(a, out_prepend(b, o)) == out_prepend(a + b, o),
{
    match o {
        RegionOutcome::Picked(v) => {
            assert(a + (b + v) =~= (a + b) + v);
        },
        _ => {},
    }
}

/// Alias keys of the index are unique.
pub open spec fn aliases_unique(ps: Seq<(Seq<char>, Seq<char>)>) -> bool {
    forall|i: int, j: int| 0 <= i < j < ps.len() ==> (#[trigger] ps[i]).0 != (#[trigger] ps[j]).0
}

/// With unique aliases, a token folding to the alias at `j` is found there.
proof fn lemma_exact_code_finds(ps: Seq<(Seq<char>, Seq<char>)>, t: Seq<char>, j: int)
    requires
        aliases_unique(ps),
        0 <= j < ps.len(),
        folds_to(t, ps[j].0),
    ensures
        exact_code(ps, t) == Some(ps[j].1),
    decreases j,
{
    if folds_to(t, ps[0].0) {
        crate::text::lemma_fold_deterministic(t, ps[0].0, ps[j].0);
        assert(j == 0);
    } else {
        assert(j > 0);
        let rest = ps.drop_first();
        assert(forall|a: int, b: int|
            0 <= a < b < rest.len() ==> rest[a] == ps[a + 1] && rest[b] == ps[b + 1]);
        assert(rest[j - 1] == ps[j]);
        lemma_exact_code_finds(rest, t, j - 1);
    }
}

/// Law: a token that case-folds to an alias of region R, and is not the
/// reserved keyword, resolves alone to exactly [R].
pub proof fn lemma_resolve_exact_alias(idx: &AliasIndex, t: Seq<char>, j: int)
    requires
        idx.wf(),
        0 <= j < idx.spec_pairs().len(),
        folds_to(t, idx.spec_pairs()[j].0),
        !is_keyword(idx.spec_keyword(), t),
    ensures
        resolve_tokens(
            idx.spec_pairs(),
            idx.spec_keyword(),
            idx.spec_codes(),
            seq![t],
        ) == RegionOutcome::Picked(seq![idx.spec_pairs()[j].1]),
{
    let ps = idx.spec_pairs();
    let ts = seq![t];
    assert(ts[0] == t);
    lemma_exact_code_finds(ps, t, j);
    assert(ts.drop_first() =~= Seq::<Seq<char>>::empty());
    assert(resolve_tokens(ps, idx.spec_keyword(), idx.spec_codes(), ts.drop_first())
        == RegionOutcome::Picked(Seq::<Seq<char>>::empty()));
    assert(seq![ps[j].1] + Seq::<Seq<char>>::empty() =~= seq![ps[j].1]);
}

/// Law: a token with no exact alias match whose prefix matches all agree on
/// one region resolves alone to exactly that region.
pub proof fn lemma_resolve_unambiguous_prefix(idx: &AliasIndex, t: Seq<char>)
    requires
        idx.wf(),
        !is_keyword(idx.spec_keyword(), t),
        exact_code(idx.spec_pairs(), t) is None,
        prefix_codes(idx.spec_pairs(), t).len() > 0,
        all_same(prefix_codes(idx.spec_pairs(), t)),
    ensures
        resolve_tokens(
            idx.spec_pairs(),
            idx.spec_keyword(),
            idx.spec_codes(),
            seq![t],
        ) == RegionOutcome::Picked(seq![prefix_codes(idx.spec_pairs(), t)[0]]),
{
    let ps = idx.spec_pairs();
    let ts = seq![t];
    assert(ts[0] == t);
    assert(ts.drop_first() =~= Seq::<Seq<char>>::empty());
    assert(resolve_tokens(ps, idx.spec_keyword(), idx.spec_codes(), ts.drop_first())
        == RegionOutcome::Picked(Seq::<Seq<char>>::empty()));
    assert(seq![prefix_codes(ps, t)[0]] + Seq::<Seq<char>>::empty() =~= seq![prefix_codes(
        ps,
        t,
    )[0]]);
}

/// Law: a token with no exact alias match whose prefix matches span at
/// least two distinct regions fails, carrying exactly those regions as
/// candidates.
pub proof fn lemma_resolve_ambiguous_prefix(idx: &AliasIndex, t: Seq<char>, a: int, b: int)
    requires
        idx.wf(),
        !is_keyword(idx.spec_keyword(), t),
        exact_code(idx.spec_pairs(), t) is None,
        0 <= a < prefix_codes(idx.spec_pairs(), t).len(),
        0 <= b < prefix_codes(idx.spec_pairs(), t).len(),
        prefix_codes(idx.spec_pairs(), t)[a] != prefix_codes(idx.spec_pairs(), t)[b],
    ensures
        resolve_tokens(
            idx.spec_pairs(),
            idx.spec_keyword(),
            idx.spec_codes(),
            seq![t],
        ) == (RegionOutcome::Failed {
            token: t,
            matches: prefix_codes(idx.spec_pairs(), t).to_set(),
        }),
{
    let ps = idx.spec_pairs();
    let pc = prefix_codes(ps, t);
    assert(!all_same(pc)) by {
        if all_same(pc) {
            assert(pc[a] == pc[0]);
            assert(pc[b] == pc[0]);
        }
    }
    assert(seq![t][0] == t);
}

/// Law: a token with no exact alias match and no prefix match at all fails
/// with an empty candidate set.
pub proof fn lemma_resolve_no_match(idx: &AliasIndex, t: Seq<char>)
    requires
        idx.wf(),
        !is_keyword(idx.spec_keyword(), t),
        exact_code(idx.spec_pairs(), t) is None,
        prefix_codes(idx.spec_pairs(), t).len() == 0,
    ensures
        resolve_tokens(
            idx.spec_pairs(),
            idx.spec_keyword(),
            idx.spec_codes(),
            seq![t],
        ) == (RegionOutcome::Failed { token: t, matches: Set::<Seq<char>>::empty() }),
{
    assert(seq![t][0] == t);
    assert(prefix_codes(idx.spec_pairs(), t).to_set() =~= Set::<Seq<char>>::empty());
}

/// Every code a resolution picks is a known code of the index.
pub proof fn lemma_picked_codes_known(idx: &AliasIndex, ts: Seq<Seq<char>>, cs: Seq<Seq<char>>)
    requires
        idx.wf(),
        resolve_tokens(idx.spec_pairs(), idx.spec_keyword(), idx.spec_codes(), ts)
            == RegionOutcome::Picked(cs),
    ensures
        forall|k: int| 0 <= k < cs.len() ==> idx.spec_codes().contains(#[trigger] cs[k]),
    decreases ts.len(),
{
    let ps = idx.spec_pairs();
    if ts.len() == 0 {
    } else {
        assert(!is_keyword(idx.spec_keyword(), ts[0]));
        let c = token_code(ps, ts[0])->Some_0;
        assert(idx.spec_codes().contains(c)) by {
            match exact_code(ps, ts[0]) {
                Some(_) => {
                    lemma_exact_code_in_pairs(ps, ts[0]);
                },
                None => {
                    lemma_prefix_codes_in_pairs(ps, ts[0], 0);
                },
            }
        }
        let rest_out = resolve_tokens(ps, idx.spec_keyword(), idx.spec_codes(), ts.drop_first());
        let rest = rest_out->Picked_0;
        lemma_picked_codes_known(idx, ts.drop_first(), rest);
        assert(cs =~= seq![c] + rest);
        assert(forall|k: int| 1 <= k < cs.len() ==> cs[k] == rest[k - 1]);
    }
}

/// An exact match's code is the code of some pair.
proof fn lemma_exact_code_in_pairs(ps: Seq<(Seq<char>, Seq<char>)>, t: Seq<char>)
    requires
        exact_code(ps, t) is Some,
    ensures
        exists|j: int| 0 <= j < ps.len() && (#[trigger] ps[j]).1 == exact_code(ps, t)->Some_0,
    decreases ps.len(),
{
    if folds_to(t, ps[0].0) {
        assert(ps[0].1 == exact_code(ps, t)->Some_0);
    } else {
        lemma_exact_code_in_pairs(ps.drop_first(), t);
        let j = choose|j: int|
            0 <= j < ps.drop_first().len() && (#[trigger] ps.drop_first()[j]).1 == exact_code(
                ps.drop_first(),
                t,
            )->Some_0;
        assert(ps[j + 1].1 == exact_code(ps, t)->Some_0);
    }
}

/// Each prefix candidate's code is the code of some pair.
proof fn lemma_prefix_codes_in_pairs(ps: Seq<(Seq<char>, Seq<char>)>, t: Seq<char>, k: int)
    requires
        0 <= k < prefix_codes(ps, t).len(),
    ensures
        exists|j: int| 0 <= j < ps.len() && (#[trigger] ps[j]).1 == prefix_codes(ps, t)[k],
    decreases ps.len(),
{
    let pc = prefix_codes(ps, t);
    if folds_to_prefix(t, ps[0].0) {
        if k == 0 {
            assert(ps[0].1 == pc[0]);
        } else {
            lemma_prefix_codes_in_pairs(ps.drop_first(), t, k - 1);
            let j = choose|j: int|
                0 <= j < ps.drop_first().len() && (#[trigger] ps.drop_first()[j]).1 == prefix_codes(
                    ps.drop_first(),
                    t,
                )[k - 1];
            assert(ps[j + 1].1 == pc[k]);
        }
    } else {
        assert(pc =~= prefix_codes(ps.drop_first(), t));
        lemma_prefix_codes_in_pairs(ps.drop_first(), t, k);
        let j = choose|j: int|
            0 <= j < ps.drop_first().len() && (#[trigger] ps.drop_first()[j]).1 == prefix_codes(
                ps.drop_first(),
                t,
            )[k];
        assert(ps[j + 1].1 == pc[k]);
    }
}

impl AliasIndex {
    /// The first of the given codes that is not a canonical code of the
    /// catalog.
    pub fn find_unknown_code(&self, xs: &Vec<String>) -> (r: Option<String>)
        ensures
            match r {
                Some(x) => crate::text::first_not_in(self.spec_codes(), views_of(xs@)) == Some(x@),
                None => crate::text::first_not_in(self.spec_codes(), views_of(xs@)) is None,
            },
    {
        crate::text::find_first_not_in(&self.codes, xs)
    }
}

/// A full resolution picks exactly one region per token.
pub proof fn lemma_picked_len(
    ps: Seq<(Seq<char>, Seq<char>)>,
    kw: Seq<char>,
    codes: Seq<Seq<char>>,
    ts: Seq<Seq<char>>,
    cs: Seq<Seq<char>>,
)
    requires
        resolve_tokens(ps, kw, codes, ts) == RegionOutcome::Picked(cs),
    ensures
        cs.len() == ts.len(),
    decreases ts.len(),
{
    if ts.len() > 0 {
        let rest_out = resolve_tokens(ps, kw, codes, ts.drop_first());
        lemma_picked_len(ps, kw, codes, ts.drop_first(), rest_out->Picked_0);
    }
}

} // verus!
