//! The tag catalog: a flat set of canonical uppercase tags.
//!
//! Free-text tag tokens are uppercased by case folding and looked up; the
//! first unknown token aborts with the raw token.

use crate::text::{lifts_to, token_lifts_to, tokenize, tokens_of, views_of};
use vstd::prelude::*;

verus! {

/// The canonical form of the first cataloged tag the token uppercases to.
pub open spec fn tag_code(us: Seq<Seq<char>>, t: Seq<char>) -> Option<Seq<char>>
    decreases us.len(),
{
    if us.len() == 0 {
        None
    } else if lifts_to(t, us[0]) {
        Some(us[0])
    } else {
        tag_code(us.drop_first(), t)
    }
}

/// The outcome of resolving a tag token list.
pub enum TagOutcome {
    /// Every token was cataloged; canonical tags in input order, duplicates
    /// kept.
    Tagged(Seq<Seq<char>>),
    /// The first unknown token, raw.
    BadTag(Seq<char>),
}

/// Resolve a tag token list, left to right and fail-fast.
pub open spec fn resolve_tags(us: Seq<Seq<char>>, ts: Seq<Seq<char>>) -> TagOutcome
    decreases ts.len(),
{
    if ts.len() == 0 {
        TagOutcome::Tagged(Seq::empty())
    } else {
        match tag_code(us, ts[0]) {
            Some(c) => match resolve_tags(us, ts.drop_first()) {
                TagOutcome::Tagged(rest) => TagOutcome::Tagged(seq![c] + rest),
                bad => bad,
            },
            None => TagOutcome::BadTag(ts[0]),
        }
    }
}

/// The outcome of validating free-text tags.
#[derive(Debug, Clone, PartialEq, Eq)]
pub enum Tags {
    /// Every token was cataloged; canonical tags in input order, duplicates
    /// kept.
    Tags(Vec<String>),
    /// The first unknown token, raw.
    BadTag(String),
}

/// The executable outcome agrees with the resolution model.
pub open spec fn tags_match(r: Tags, o: TagOutcome) -> bool {
    match (r, o) {
        (Tags::Tags(v), TagOutcome::Tagged(cs)) => views_of(v@) == cs,
        (Tags::BadTag(t), TagOutcome::BadTag(b)) => t@ == b,
        _ => false,
    }
}

/// The immutable catalog of canonical tags.
pub struct TagValidator {
    tags: Vec<String>,
}

impl TagValidator {
    /// The canonical tags, in catalog order.
    pub closed spec fn spec_tags(&self) -> Seq<Seq<char>> {
        views_of(self.tags@)
    }

    /// Build the validator from the canonical tags.
    pub fn new(tags: Vec<String>) -> (r: TagValidator)
        ensures
            r.spec_tags() == views_of(tags@),
    {
        TagValidator { tags }
    }

    /// Look one token up, by uppercase folding.
    fn lookup(&self, t: &str) -> (r: Option<String>)
        ensures
            match r {
                Some(c) => tag_code(self.spec_tags(), t@) == Some(c@),
                None => tag_code(self.spec_tags(), t@) is None,
            },
    {
        let ghost us = self.spec_tags();
        let n = self.tags.len();
        let mut i: usize = 0;
        assert(us.skip(0) =~= us);
        while i < n
            invariant
                i <= n,
                n == self.tags@.len(),
                us == self.spec_tags(),
                tag_code(us, t@) == tag_code(us.skip(i as int), t@),
            decreases n - i,
        {
            assert(us.skip(i as int)[0] == us[i as int]);
            if token_lifts_to(t, self.tags[i].as_str()) {
                assert(tag_code(us.skip(i as int), t@) == Some(us[i as int]));
                return Some(self.tags[i].clone());
            }
            assert(us.skip(i as int).drop_first() =~= us.skip(i + 1));
            i += 1;
        }
        assert(us.skip(n as int).len() == 0);
        None
    }

    /// Validate free-text tags: each whitespace token uppercased by case
    /// folding and looked up; the first unknown token aborts with the raw
    /// token. Cataloged tags keep input order and duplicates.
    pub fn extract_tags(&self, tags: &str) -> (r: Tags)
        ensures
            tags_match(r, resolve_tags(self.spec_tags(), tokens_of(tags@))),
    {
        let toks = tokenize(tags);
        self.resolve_list(&toks)
    }

    /// Validate a list of tokens, exactly as `extract_tags` does for the
    /// tokens of a text.
    pub fn resolve_list(&self, toks: &Vec<String>) -> (r: Tags)
        ensures
            tags_match(r, resolve_tags(self.spec_tags(), views_of(toks@))),
    {
        let ghost us = self.spec_tags();
        let ghost full = views_of(toks@);
        let n = toks.len();
        let mut res: Vec<String> = Vec::new();
        let mut i: usize = 0;
        assert(full.skip(0) =~= full);
        assert(views_of(res@) =~= Seq::<Seq<char>>::empty());
        while i < n
            invariant
                i <= n,
                n == toks@.len(),
                views_of(toks@) == full,
                us == self.spec_tags(),
                tag_prepend(views_of(res@), resolve_tags(us, full.skip(i as int))) == resolve_tags(
                    us,
                    full,
                ),
            decreases n - i,
        {
            let t = &toks[i];
            let ghost rest = full.skip(i as int);
            assert(rest[0] == full[i as int]);
            assert(full[i as int] == toks@[i as int]@);
            assert(rest.drop_first() =~= full.skip(i + 1));
            match self.lookup(t.as_str()) {
                Some(c) => {
                    proof {
                        lemma_tag_prepend_assoc(
                            views_of(res@),
                            seq![c@],
                            resolve_tags(us, full.skip(i + 1)),
                        );
                        assert(tag_prepend(seq![c@], resolve_tags(us, full.skip(i + 1)))
                            == resolve_tags(us, rest));
                    }
                    let ghost pre_res = res@;
                    res.push(c);
                    proof {
                        assert(views_of(res@) =~= views_of(pre_res).push(
                            views_of(res@)[pre_res.len() as int],
                        ));
                        assert(views_of(pre_res).push(views_of(res@)[pre_res.len() as int])
                            =~= views_of(pre_res) + seq![views_of(res@)[pre_res.len() as int]]);
                    }
                    i += 1;
                },
                None => {
                    assert(resolve_tags(us, rest) == TagOutcome::BadTag(rest[0]));
                    return Tags::BadTag(t.clone());
                },
            }
        }
        assert(full.skip(n as int).len() == 0);
        assert(resolve_tags(us, full.skip(n as int)) == TagOutcome::Tagged(
            Seq::<Seq<char>>::empty(),
        ));
        assert(views_of(res@) + Seq::<Seq<char>>::empty() =~= views_of(res@));
        Tags::Tags(res)
    }
}

/// Prepend already-resolved tags to an outcome.
pub open spec fn tag_prepend(pre: Seq<Seq<char>>, o: TagOutcome) -> TagOutcome {
    match o {
        TagOutcome::Tagged(cs) => TagOutcome::Tagged(pre + cs),
        bad => bad,
    }
}

/// Prepending resolved tags composes.
proof fn lemma_tag_prepend_assoc(a: Seq<Seq<char>>, b: Seq<Seq<char>>, o: TagOutcome)
    ensures
        tag_prepend(a, tag_prepend(b, o)) == tag_prepend(a + b, o),
{
    match o {
        TagOutcome::Tagged(v) => {
            assert(a + (b + v) =~= (a + b) + v);
        },
        _ => {},
    }
}

/// A cataloged tag is found under any token that uppercases to it.
proof fn lemma_tag_code_finds(us: Seq<Seq<char>>, t: Seq<char>, u: Seq<char>)
    requires
        us.contains(u),
        lifts_to(t, u),
    ensures
        tag_code(us, t) == Some(u),
    decreases us.len(),
{
    if lifts_to(t, us[0]) {
        crate::text::lemma_lift_deterministic(t, us[0], u);
    } else {
        assert(us[0] != u);
        let j = choose|j: int| 0 <= j < us.len() && us[j] == u;
        assert(us.drop_first()[j - 1] == u);
        assert(us.drop_first().contains(u));
        lemma_tag_code_finds(us.drop_first(), t, u);
    }
}

/// Law: two tokens that uppercase to the same cataloged tag resolve alike,
/// each to exactly that canonical tag.
pub proof fn lemma_tags_case_insensitive(v: &TagValidator, t1: Seq<char>, t2: Seq<char>, u: Seq<char>)
    requires
        v.spec_tags().contains(u),
        lifts_to(t1, u),
        lifts_to(t2, u),
    ensures
        resolve_tags(v.spec_tags(), seq![t1]) == TagOutcome::Tagged(seq![u]),
        resolve_tags(v.spec_tags(), seq![t2]) == TagOutcome::Tagged(seq![u]),
{
    let us = v.spec_tags();
    lemma_tag_code_finds(us, t1, u);
    lemma_tag_code_finds(us, t2, u);
    assert(seq![t1][0] == t1);
    assert(seq![t2][0] == t2);
    assert(seq![t1].drop_first() =~= Seq::<Seq<char>>::empty());
    assert(seq![t2].drop_first() =~= Seq::<Seq<char>>::empty());
    assert(resolve_tags(us, Seq::<Seq<char>>::empty()) == TagOutcome::Tagged(
        Seq::<Seq<char>>::empty(),
    ));
    assert(seq![u] + Seq::<Seq<char>>::empty() =~= seq![u]);
}

/// Every tag a resolution accepts is a cataloged tag.
pub proof fn lemma_tagged_known(v: &TagValidator, ts: Seq<Seq<char>>, cs: Seq<Seq<char>>)
    requires
        resolve_tags(v.spec_tags(), ts) == TagOutcome::Tagged(cs),
    ensures
        forall|k: int| 0 <= k < cs.len() ==> v.spec_tags().contains(#[trigger] cs[k]),
    decreases ts.len(),
{
    let us = v.spec_tags();
    if ts.len() == 0 {
    } else {
        let c = tag_code(us, ts[0])->Some_0;
        lemma_tag_code_in_catalog(us, ts[0]);
        let rest_out = resolve_tags(us, ts.drop_first());
        let rest = rest_out->Tagged_0;
        lemma_tagged_known(v, ts.drop_first(), rest);
        assert(cs =~= seq![c] + rest);
        assert(forall|k: int| 1 <= k < cs.len() ==> cs[k] == rest[k - 1]);
    }
}

/// A found tag is an element of the catalog.
proof fn lemma_tag_code_in_catalog(us: Seq<Seq<char>>, t: Seq<char>)
    requires
        tag_code(us, t) is Some,
    ensures
        us.contains(tag_code(us, t)->Some_0),
    decreases us.len(),
{
    if lifts_to(t, us[0]) {
        assert(us[0] == tag_code(us, t)->Some_0);
    } else {
        lemma_tag_code_in_catalog(us.drop_first(), t);
        let j = choose|j: int|
            0 <= j < us.drop_first().len() && us.drop_first()[j] == tag_code(us.drop_first(), t)->Some_0;
        assert(us[j + 1] == tag_code(us, t)->Some_0);
    }
}

impl TagValidator {
    /// The first of the given tags that is not a canonical tag of the
    /// catalog.
    pub fn find_unknown_tag(&self, xs: &Vec<String>) -> (r: Option<String>)
        ensures
            match r {
                Some(x) => crate::text::first_not_in(self.spec_tags(), views_of(xs@)) == Some(x@),
                None => crate::text::first_not_in(self.spec_tags(), views_of(xs@)) is None,
            },
    {
        crate::text::find_first_not_in(&self.tags, xs)
    }
}

} // verus!
