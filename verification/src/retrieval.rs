//! The retrieval engine: per-user, per-region incremental time windows.
//!
//! A watermark remembers, per user and region, the end of the last-served
//! window. A retrieval without an explicit window resumes at the watermark,
//! or at the start of the current day when there is none, and always
//! advances the watermark to now — also when an explicit window was given.
//! Results come grouped by region and sorted by tag priority, ties by
//! ascending timestamp.

use crate::catalog::{AliasIndex, RegionOutcome, Regions, resolve_tokens};
use crate::error::Error;
use crate::grammar::{
    digits_value, number_prefix_len, parse_query_line, query_line_matches, region_prefix_len,
};
use crate::store::{Message, MessageStore, MsgView, msg_views, query_matches};
use crate::tags::{TagOutcome, TagValidator, Tags, resolve_tags};
use crate::text::{sorted_unique, tokens_of, views_of};
use vstd::prelude::*;
use vstd::pervasive::VecAdditionalExecFns;

verus! {

/// One watermark: the last-served timestamp of a (user, region) pair.
#[derive(Debug, Clone, PartialEq, Eq)]
pub struct Watermark {
    pub user_id: i64,
    pub region: String,
    pub timestamp: i64,
}

/// The mathematical content of a watermark.
pub struct WmView {
    pub user_id: int,
    pub region: Seq<char>,
    pub timestamp: int,
}

impl View for Watermark {
    type V = WmView;

    open spec fn view(&self) -> WmView {
        WmView {
            user_id: self.user_id as int,
            region: self.region@,
            timestamp: self.timestamp as int,
        }
    }
}

/// The views of a list of watermarks.
pub open spec fn wm_views(ws: Seq<Watermark>) -> Seq<WmView> {
    ws.map_values(|w: Watermark| w@)
}

/// The timestamp stored for a (user, region) pair: the first matching
/// entry's.
pub open spec fn mark_of(ws: Seq<WmView>, user: int, region: Seq<char>) -> Option<int>
    decreases ws.len(),
{
    if ws.len() == 0 {
        None
    } else if ws[0].user_id == user && ws[0].region == region {
        Some(ws[0].timestamp)
    } else {
        mark_of(ws.drop_first(), user, region)
    }
}

/// The watermark store: one entry per (user, region) pair served before.
pub struct Watermarks {
    entries: Vec<Watermark>,
}

impl Watermarks {
    /// The stored watermarks.
    pub closed spec fn marks(&self) -> Seq<WmView> {
        wm_views(self.entries@)
    }

    /// An empty watermark store: nobody has been served yet.
    pub fn new() -> (r: Watermarks)
        ensures
            r.marks() == Seq::<WmView>::empty(),
    {
        let r = Watermarks { entries: Vec::new() };
        assert(r.marks() =~= Seq::<WmView>::empty());
        r
    }

    /// The last-served timestamp of a (user, region) pair, if any.
    pub fn get(&self, user: i64, region: &String) -> (r: Option<i64>)
        ensures
            match r {
                Some(t) => mark_of(self.marks(), user as int, region@) == Some(t as int),
                None => mark_of(self.marks(), user as int, region@) is None,
            },
    {
        let ghost ws = self.marks();
        let n = self.entries.len();
        let mut i: usize = 0;
        assert(ws.skip(0) =~= ws);
        while i < n
            invariant
                i <= n,
                n == self.entries@.len(),
                ws == self.marks(),
                mark_of(ws, user as int, region@) == mark_of(ws.skip(i as int), user as int, region@),
            decreases n - i,
        {
            assert(ws.skip(i as int)[0] == ws[i as int]);
            assert(ws.skip(i as int).drop_first() =~= ws.skip(i + 1));
            let e = &self.entries[i];
            if e.user_id == user && e.region == *region {
                return Some(e.timestamp);
            }
            i += 1;
        }
        assert(ws.skip(n as int).len() == 0);
        None
    }

    /// Upsert: set the (user, region) watermark to `t`, replacing an
    /// existing entry and appending a new one otherwise. Every other pair
    /// keeps its timestamp.
    pub fn set(&mut self, user: i64, region: &String, t: i64)
        ensures
            mark_of(final(self).marks(), user as int, region@) == Some(t as int),
            forall|u: int, rg: Seq<char>|
                u != user as int || rg != region@ ==> mark_of(final(self).marks(), u, rg)
                    == mark_of(old(self).marks(), u, rg),
    {
        let ghost ws = self.marks();
        let n = self.entries.len();
        let mut i: usize = 0;
        assert(ws.skip(0) =~= ws);
        while i < n
            invariant
                i <= n,
                n == self.entries@.len(),
                ws == self.marks(),
                *self == *old(self),
                forall|j: int|
                    0 <= j < i ==> !((#[trigger] ws[j]).user_id == user as int && ws[j].region
                        == region@),
            decreases n - i,
        {
            let hit = {
                let e = &self.entries[i];
                e.user_id == user && e.region == *region
            };
            if hit {
                let nw = Watermark { user_id: user, region: region.clone(), timestamp: t };
                self.entries.set(i, nw);
                proof {
                    let ws2 = self.marks();
                    assert(ws2.len() == ws.len());
                    assert(forall|j: int| 0 <= j < ws.len() && j != i ==> ws2[j] == ws[j]);
                    assert(ws2[i as int].user_id == user as int && ws2[i as int].region == region@
                        && ws2[i as int].timestamp == t as int);
                    lemma_mark_of_update(ws, ws2, i as int, user as int, region@, t as int);
                }
                return ;
            }
            i += 1;
        }
        let ghost pre = self.marks();
        let nw = Watermark { user_id: user, region: region.clone(), timestamp: t };
        self.entries.push(nw);
        proof {
            let ws2 = self.marks();
            assert(ws2.len() == pre.len() + 1);
            assert(forall|j: int| 0 <= j < pre.len() ==> #[trigger] ws2[j] == pre[j]);
            assert(ws2[pre.len() as int].user_id == user as int && ws2[pre.len() as int].region
                == region@ && ws2[pre.len() as int].timestamp == t as int);
            assert(forall|j: int|
                0 <= j < pre.len() ==> !((#[trigger] pre[j]).user_id == user as int && pre[j].region
                    == region@));
            lemma_mark_of_append(pre, ws2, user as int, region@, t as int);
        }
    }
}

/// Updating the one matching entry moves only that pair's mark.
proof fn lemma_mark_of_update(
    ws: Seq<WmView>,
    ws2: Seq<WmView>,
    i: int,
    user: int,
    region: Seq<char>,
    t: int,
)
    requires
        0 <= i < ws.len(),
        ws2.len() == ws.len(),
        forall|j: int| 0 <= j < ws.len() && j != i ==> #[trigger] ws2[j] == ws[j],
        ws2[i].user_id == user && ws2[i].region == region && ws2[i].timestamp == t,
        ws[i].user_id == user && ws[i].region == region,
        forall|j: int|
            0 <= j < i ==> !((#[trigger] ws[j]).user_id == user && ws[j].region == region),
    ensures
        mark_of(ws2, user, region) == Some(t),
        forall|u: int, rg: Seq<char>|
            u != user || rg != region ==> mark_of(ws2, u, rg) == mark_of(ws, u, rg),
    decreases i,
{
    if i == 0 {
        assert forall|u: int, rg: Seq<char>| u != user || rg != region implies mark_of(ws2, u, rg)
            == mark_of(ws, u, rg) by {
            assert(ws2.drop_first() =~= ws.drop_first());
            assert(mark_of(ws2, u, rg) == mark_of(ws2.drop_first(), u, rg));
            assert(mark_of(ws, u, rg) == mark_of(ws.drop_first(), u, rg));
        }
    } else {
        assert(ws2[0] == ws[0]);
        assert(forall|j: int|
            0 <= j < ws.drop_first().len() ==> #[trigger] ws.drop_first()[j] == ws[j + 1]);
        assert(forall|j: int|
            0 <= j < ws2.drop_first().len() ==> #[trigger] ws2.drop_first()[j] == ws2[j + 1]);
        lemma_mark_of_update(ws.drop_first(), ws2.drop_first(), i - 1, user, region, t);
        assert(!(ws[0].user_id == user && ws[0].region == region));
        assert(mark_of(ws2, user, region) == mark_of(ws2.drop_first(), user, region));
        assert forall|u: int, rg: Seq<char>| u != user || rg != region implies mark_of(ws2, u, rg)
            == mark_of(ws, u, rg) by {
            if ws[0].user_id == u && ws[0].region == rg {
                assert(mark_of(ws2, u, rg) == Some(ws2[0].timestamp));
                assert(mark_of(ws, u, rg) == Some(ws[0].timestamp));
            } else {
                assert(mark_of(ws2, u, rg) == mark_of(ws2.drop_first(), u, rg));
                assert(mark_of(ws, u, rg) == mark_of(ws.drop_first(), u, rg));
            }
        }
    }
}

/// Appending a new entry for an absent pair sets only that pair's mark.
proof fn lemma_mark_of_append(pre: Seq<WmView>, ws2: Seq<WmView>, user: int, region: Seq<char>, t: int)
    requires
        ws2.len() == pre.len() + 1,
        forall|j: int| 0 <= j < pre.len() ==> #[trigger] ws2[j] == pre[j],
        ws2[pre.len() as int].user_id == user && ws2[pre.len() as int].region == region
            && ws2[pre.len() as int].timestamp == t,
        forall|j: int|
            0 <= j < pre.len() ==> !((#[trigger] pre[j]).user_id == user && pre[j].region == region),
    ensures
        mark_of(ws2, user, region) == Some(t),
        forall|u: int, rg: Seq<char>|
            u != user || rg != region ==> mark_of(ws2, u, rg) == mark_of(pre, u, rg),
    decreases pre.len(),
{
    if pre.len() == 0 {
        assert forall|u: int, rg: Seq<char>| u != user || rg != region implies mark_of(ws2, u, rg)
            == mark_of(pre, u, rg) by {
            assert(ws2.drop_first() =~= Seq::<WmView>::empty());
            assert(mark_of(ws2, u, rg) == mark_of(ws2.drop_first(), u, rg));
            assert(mark_of(ws2.drop_first(), u, rg) is None);
            assert(mark_of(pre, u, rg) is None);
        }
    } else {
        assert(ws2[0] == pre[0]);
        assert(forall|j: int|
            0 <= j < pre.drop_first().len() ==> #[trigger] pre.drop_first()[j] == pre[j + 1]);
        assert(forall|j: int|
            0 <= j < ws2.drop_first().len() ==> #[trigger] ws2.drop_first()[j] == ws2[j + 1]);
        assert(ws2.drop_first()[pre.drop_first().len() as int] == ws2[pre.len() as int]);
        lemma_mark_of_append(pre.drop_first(), ws2.drop_first(), user, region, t);
        assert(!(pre[0].user_id == user && pre[0].region == region));
        assert(mark_of(ws2, user, region) == mark_of(ws2.drop_first(), user, region));
        assert forall|u: int, rg: Seq<char>| u != user || rg != region implies mark_of(ws2, u, rg)
            == mark_of(pre, u, rg) by {
            if pre[0].user_id == u && pre[0].region == rg {
                assert(mark_of(ws2, u, rg) == Some(ws2[0].timestamp));
                assert(mark_of(pre, u, rg) == Some(pre[0].timestamp));
            } else {
                assert(mark_of(ws2, u, rg) == mark_of(ws2.drop_first(), u, rg));
                assert(mark_of(pre, u, rg) == mark_of(pre.drop_first(), u, rg));
            }
        }
    }
}

/// The allowed region codes of one user.
pub open spec fn allowed_of(al: Seq<(int, Seq<Seq<char>>)>, user: int) -> Seq<Seq<char>>
    decreases al.len(),
{
    if al.len() == 0 {
        Seq::empty()
    } else if al[0].0 == user {
        al[0].1
    } else {
        allowed_of(al.drop_first(), user)
    }
}

/// The per-user region allow-lists.
pub struct AllowList {
    entries: Vec<(i64, Vec<String>)>,
}

impl AllowList {
    /// The allow-lists, one entry per user already granted something.
    pub closed spec fn lists(&self) -> Seq<(int, Seq<Seq<char>>)> {
        self.entries@.map_values(|e: (i64, Vec<String>)| (e.0 as int, views_of(e.1@)))
    }

    /// An empty allow-list store: nobody may read anything.
    pub fn new() -> (r: AllowList)
        ensures
            r.lists() == Seq::<(int, Seq<Seq<char>>)>::empty(),
    {
        let r = AllowList { entries: Vec::new() };
        assert(r.lists() =~= Seq::<(int, Seq<Seq<char>>)>::empty());
        r
    }

    /// The regions a user may read, in grant order; empty for an unknown
    /// user.
    pub fn get_allowed(&self, user: i64) -> (r: Vec<String>)
        ensures
            views_of(r@) == allowed_of(self.lists(), user as int),
    {
        let ghost al = self.lists();
        let n = self.entries.len();
        let mut i: usize = 0;
        assert(al.skip(0) =~= al);
        while i < n
            invariant
                i <= n,
                n == self.entries@.len(),
                al == self.lists(),
                allowed_of(al, user as int) == allowed_of(al.skip(i as int), user as int),
            decreases n - i,
        {
            assert(al.skip(i as int)[0] == al[i as int]);
            assert(al.skip(i as int).drop_first() =~= al.skip(i + 1));
            if self.entries[i].0 == user {
                let r = crate::catalog::clone_strings(&self.entries[i].1);
                assert(views_of(r@) == al[i as int].1);
                return r;
            }
            i += 1;
        }
        assert(al.skip(n as int).len() == 0);
        let e: Vec<String> = Vec::new();
        assert(views_of(e@) =~= Seq::<Seq<char>>::empty());
        e
    }

    /// Grant regions: append them to the user's list, creating the entry
    /// for a new user. Other users keep their lists.
    pub fn add_user_regions(&mut self, user: i64, regions: Vec<String>)
        ensures
            allowed_of(final(self).lists(), user as int) == allowed_of(
                old(self).lists(),
                user as int,
            ) + views_of(regions@),
            forall|u: int|
                u != user as int ==> allowed_of(final(self).lists(), u) == allowed_of(
                    old(self).lists(),
                    u,
                ),
    {
        let ghost al = self.lists();
        let n = self.entries.len();
        let mut i: usize = 0;
        assert(al.skip(0) =~= al);
        while i < n
            invariant
                i <= n,
                n == self.entries@.len(),
                al == self.lists(),
                *self == *old(self),
                forall|j: int| 0 <= j < i ==> (#[trigger] al[j]).0 != user as int,
            decreases n - i,
        {
            if self.entries[i].0 == user {
                let mut merged = crate::catalog::clone_strings(&self.entries[i].1);
                let mut j: usize = 0;
                while j < regions.len()
                    invariant
                        j <= regions@.len(),
                        views_of(merged@) == al[i as int].1 + views_of(regions@).take(j as int),
                        i < n,
                        al[i as int].1 == views_of(old(self).entries@[i as int].1@),
                    decreases regions@.len() - j,
                {
                    let ghost prem = merged@;
                    merged.push(regions[j].clone());
                    proof {
                        assert(views_of(merged@).len() == merged@.len());
                        assert(views_of(prem).len() == prem.len());
                        assert(forall|q: int|
                            0 <= q < prem.len() ==> #[trigger] views_of(merged@)[q] == views_of(
                                prem,
                            )[q]);
                        assert(views_of(merged@)[prem.len() as int] == views_of(regions@)[j as int]);
                        assert(views_of(merged@) =~= al[i as int].1 + views_of(regions@).take(
                            j + 1,
                        ));
                    }
                    j += 1;
                }
                assert(views_of(regions@).take(regions@.len() as int) =~= views_of(regions@));
                self.entries.set(i, (user, merged));
                proof {
                    lemma_allowed_of_found(al, i as int, user as int);
                    let al2 = self.lists();
                    assert(al2.len() == al.len());
                    assert(forall|q: int| 0 <= q < al.len() && q != i ==> al2[q] == al[q]);
                    assert(al2[i as int].0 == user as int);
                    assert(al2[i as int].1 == al[i as int].1 + views_of(regions@));
                    lemma_allowed_update(al, al2, i as int, user as int);
                }
                return ;
            }
            assert(al[i as int].0 != user as int);
            i += 1;
        }
        assert(al.skip(n as int).len() == 0);
        let ghost pre = self.lists();
        self.entries.push((user, regions));
        proof {
            let al2 = self.lists();
            assert(al2.len() == pre.len() + 1);
            assert(forall|q: int| 0 <= q < pre.len() ==> #[trigger] al2[q] == pre[q]);
            assert(al2[pre.len() as int].0 == user as int);
            lemma_allowed_append(pre, al2, user as int);
            lemma_allowed_of_absent(pre, user as int);
            assert(Seq::<Seq<char>>::empty() + al2[pre.len() as int].1 =~= al2[pre.len() as int].1);
        }
    }

    /// Revoke regions: drop every listed region from the user's list; an
    /// unknown user gets an empty entry. Other users keep their lists.
    pub fn del_user_regions(&mut self, user: i64, regions: &Vec<String>)
        ensures
            allowed_of(final(self).lists(), user as int) == allowed_of(
                old(self).lists(),
                user as int,
            ).filter(|rg: Seq<char>| !views_of(regions@).contains(rg)),
            forall|u: int|
                u != user as int ==> allowed_of(final(self).lists(), u) == allowed_of(
                    old(self).lists(),
                    u,
                ),
    {
        let ghost al = self.lists();
        let ghost keep = |rg: Seq<char>| !views_of(regions@).contains(rg);
        let n = self.entries.len();
        let mut i: usize = 0;
        assert(al.skip(0) =~= al);
        while i < n
            invariant
                i <= n,
                n == self.entries@.len(),
                al == self.lists(),
                *self == *old(self),
                keep == (|rg: Seq<char>| !views_of(regions@).contains(rg)),
                forall|j: int| 0 <= j < i ==> (#[trigger] al[j]).0 != user as int,
            decreases n - i,
        {
            if self.entries[i].0 == user {
                let kept = keep_strings(&self.entries[i].1, regions);
                assert(views_of(kept@) == al[i as int].1.filter(keep));
                self.entries.set(i, (user, kept));
                proof {
                    lemma_allowed_of_found(al, i as int, user as int);
                    let al2 = self.lists();
                    assert(al2.len() == al.len());
                    assert(forall|q: int| 0 <= q < al.len() && q != i ==> al2[q] == al[q]);
                    assert(al2[i as int].0 == user as int);
                    lemma_allowed_update(al, al2, i as int, user as int);
                }
                return ;
            }
            assert(al[i as int].0 != user as int);
            i += 1;
        }
        assert(al.skip(n as int).len() == 0);
        let ghost pre = self.lists();
        self.entries.push((user, Vec::new()));
        proof {
            let al2 = self.lists();
            assert(al2.len() == pre.len() + 1);
            assert(forall|q: int| 0 <= q < pre.len() ==> #[trigger] al2[q] == pre[q]);
            assert(al2[pre.len() as int].0 == user as int);
            lemma_allowed_append(pre, al2, user as int);
            lemma_allowed_of_absent(pre, user as int);
            assert(al2[pre.len() as int].1 =~= Seq::<Seq<char>>::empty());
            reveal(Seq::filter);
            assert(Seq::<Seq<char>>::empty().filter(keep) =~= Seq::<Seq<char>>::empty());
        }
    }
}

/// Updating the one matching entry changes only that user's list.
proof fn lemma_allowed_update(
    al: Seq<(int, Seq<Seq<char>>)>,
    al2: Seq<(int, Seq<Seq<char>>)>,
    i: int,
    user: int,
)
    requires
        0 <= i < al.len(),
        al2.len() == al.len(),
        forall|q: int| 0 <= q < al.len() && q != i ==> #[trigger] al2[q] == al[q],
        al2[i].0 == user,
        al[i].0 == user,
        forall|j: int| 0 <= j < i ==> (#[trigger] al[j]).0 != user,
    ensures
        allowed_of(al2, user) == al2[i].1,
        forall|u: int| u != user ==> allowed_of(al2, u) == allowed_of(al, u),
    decreases i,
{
    if i == 0 {
        assert forall|u: int| u != user implies allowed_of(al2, u) == allowed_of(al, u) by {
            assert(al2.drop_first() =~= al.drop_first());
            assert(allowed_of(al2, u) == allowed_of(al2.drop_first(), u));
            assert(allowed_of(al, u) == allowed_of(al.drop_first(), u));
        }
    } else {
        assert(al2[0] == al[0]);
        assert(forall|j: int|
            0 <= j < al.drop_first().len() ==> #[trigger] al.drop_first()[j] == al[j + 1]);
        assert(forall|j: int|
            0 <= j < al2.drop_first().len() ==> #[trigger] al2.drop_first()[j] == al2[j + 1]);
        lemma_allowed_update(al.drop_first(), al2.drop_first(), i - 1, user);
        assert(al[0].0 != user);
        assert(allowed_of(al2, user) == allowed_of(al2.drop_first(), user));
        assert forall|u: int| u != user implies allowed_of(al2, u) == allowed_of(al, u) by {
            if al[0].0 == u {
                assert(allowed_of(al2, u) == al2[0].1);
                assert(allowed_of(al, u) == al[0].1);
            } else {
                assert(allowed_of(al2, u) == allowed_of(al2.drop_first(), u));
                assert(allowed_of(al, u) == allowed_of(al.drop_first(), u));
            }
        }
    }
}

/// Appending an entry for an absent user grants only that user.
proof fn lemma_allowed_append(
    pre: Seq<(int, Seq<Seq<char>>)>,
    al2: Seq<(int, Seq<Seq<char>>)>,
    user: int,
)
    requires
        al2.len() == pre.len() + 1,
        forall|q: int| 0 <= q < pre.len() ==> #[trigger] al2[q] == pre[q],
        al2[pre.len() as int].0 == user,
        forall|j: int| 0 <= j < pre.len() ==> (#[trigger] pre[j]).0 != user,
    ensures
        allowed_of(al2, user) == al2[pre.len() as int].1,
        forall|u: int| u != user ==> allowed_of(al2, u) == allowed_of(pre, u),
    decreases pre.len(),
{
    if pre.len() == 0 {
        assert forall|u: int| u != user implies allowed_of(al2, u) == allowed_of(pre, u) by {
            assert(al2.drop_first() =~= Seq::<(int, Seq<Seq<char>>)>::empty());
            assert(allowed_of(al2, u) == allowed_of(al2.drop_first(), u));
            assert(allowed_of(al2.drop_first(), u) == Seq::<Seq<char>>::empty());
            assert(allowed_of(pre, u) == Seq::<Seq<char>>::empty());
        }
    } else {
        assert(al2[0] == pre[0]);
        assert(forall|j: int|
            0 <= j < pre.drop_first().len() ==> #[trigger] pre.drop_first()[j] == pre[j + 1]);
        assert(forall|j: int|
            0 <= j < al2.drop_first().len() ==> #[trigger] al2.drop_first()[j] == al2[j + 1]);
        assert(al2.drop_first()[pre.drop_first().len() as int] == al2[pre.len() as int]);
        lemma_allowed_append(pre.drop_first(), al2.drop_first(), user);
        assert(pre[0].0 != user);
        assert(allowed_of(al2, user) == allowed_of(al2.drop_first(), user));
        assert forall|u: int| u != user implies allowed_of(al2, u) == allowed_of(pre, u) by {
            if pre[0].0 == u {
                assert(allowed_of(al2, u) == al2[0].1);
                assert(allowed_of(pre, u) == pre[0].1);
            } else {
                assert(allowed_of(al2, u) == allowed_of(al2.drop_first(), u));
                assert(allowed_of(pre, u) == allowed_of(pre.drop_first(), u));
            }
        }
    }
}

/// The strings of `v` that are not listed in `drop`, in order.
fn keep_strings(v: &Vec<String>, drop: &Vec<String>) -> (r: Vec<String>)
    ensures
        views_of(r@) == views_of(v@).filter(
            |rg: Seq<char>| !views_of(drop@).contains(rg),
        ),
{
    let ghost keep = |rg: Seq<char>| !views_of(drop@).contains(rg);
    let n = v.len();
    let mut r: Vec<String> = Vec::new();
    let mut i: usize = 0;
    assert(views_of(v@).take(0) =~= Seq::<Seq<char>>::empty());
    proof {
        reveal(Seq::filter);
        assert(Seq::<Seq<char>>::empty().filter(keep) =~= Seq::<Seq<char>>::empty());
        assert(views_of(r@) =~= Seq::<Seq<char>>::empty());
    }
    while i < n
        invariant
            i <= n,
            n == v@.len(),
            keep == (|rg: Seq<char>| !views_of(drop@).contains(rg)),
            views_of(r@) == views_of(v@).take(i as int).filter(keep),
        decreases n - i,
    {
        let wanted = !crate::text::contains_string(drop, &v[i]);
        assert(wanted == keep(views_of(v@)[i as int]));
        proof {
            reveal(Seq::filter);
            let t1 = views_of(v@).take(i + 1);
            assert(t1.drop_last() =~= views_of(v@).take(i as int));
            assert(t1.last() == views_of(v@)[i as int]);
        }
        if wanted {
            let ghost pre = r@;
            r.push(v[i].clone());
            proof {
                assert(views_of(r@).len() == r@.len());
                assert(views_of(pre).len() == pre.len());
                assert(forall|q: int|
                    0 <= q < pre.len() ==> #[trigger] views_of(r@)[q] == views_of(pre)[q]);
                assert(views_of(r@)[pre.len() as int] == views_of(v@)[i as int]);
                assert(views_of(r@) =~= views_of(pre).push(views_of(v@)[i as int]));
            }
        }
        i += 1;
    }
    assert(views_of(v@).take(n as int) =~= views_of(v@));
    r
}

/// A user with no entry has an empty allow-list.
proof fn lemma_allowed_of_absent(al: Seq<(int, Seq<Seq<char>>)>, user: int)
    requires
        forall|j: int| 0 <= j < al.len() ==> (#[trigger] al[j]).0 != user,
    ensures
        allowed_of(al, user) == Seq::<Seq<char>>::empty(),
    decreases al.len(),
{
    if al.len() > 0 {
        assert(forall|j: int|
            0 <= j < al.drop_first().len() ==> #[trigger] al.drop_first()[j] == al[j + 1]);
        lemma_allowed_of_absent(al.drop_first(), user);
    }
}

/// The allow-list of a user is the first matching entry's list.
proof fn lemma_allowed_of_found(al: Seq<(int, Seq<Seq<char>>)>, i: int, user: int)
    requires
        0 <= i < al.len(),
        al[i].0 == user,
        forall|j: int| 0 <= j < i ==> (#[trigger] al[j]).0 != user,
    ensures
        allowed_of(al, user) == al[i].1,
    decreases i,
{
    if i > 0 {
        assert(forall|j: int|
            0 <= j < al.drop_first().len() ==> #[trigger] al.drop_first()[j] == al[j + 1]);
        lemma_allowed_of_found(al.drop_first(), i - 1, user);
    }
}

/// The priority position of a character: its index in the priority
/// alphabet, or the alphabet's length when it is not listed.
pub open spec fn char_rank(order: Seq<char>, c: char) -> int
    decreases order.len(),
{
    if order.len() == 0 {
        0
    } else if order[0] == c {
        0
    } else {
        1 + char_rank(order.drop_first(), c)
    }
}

/// The priority rank of a message: the rank of its first tag's first
/// character; a tagless message ranks lowest.
pub open spec fn msg_rank(order: Seq<char>, m: MsgView) -> int {
    if m.tags.len() == 0 {
        order.len() as int
    } else if m.tags[0].len() == 0 {
        order.len() as int
    } else {
        char_rank(order, m.tags[0][0])
    }
}

/// The display order: by priority rank, ties by ascending timestamp, equal
/// timestamps by ascending id.
pub open spec fn msg_le(order: Seq<char>, a: MsgView, b: MsgView) -> bool {
    let ra = msg_rank(order, a);
    let rb = msg_rank(order, b);
    ||| ra < rb
    ||| (ra == rb && a.timestamp < b.timestamp)
    ||| (ra == rb && a.timestamp == b.timestamp && a.id <= b.id)
}

/// A message list in display order.
pub open spec fn sorted_msgs(order: Seq<char>, s: Seq<MsgView>) -> bool {
    forall|p: int, q: int| 0 <= p < q < s.len() ==> msg_le(order, #[trigger] s[p], #[trigger] s[q])
}

/// The configured tag-priority alphabet: earlier characters rank higher.
pub struct TagPriority {
    order: Vec<char>,
}

impl TagPriority {
    /// The priority alphabet, in rank order.
    pub closed spec fn spec_order(&self) -> Seq<char> {
        self.order@
    }

    /// Build the priority from its alphabet.
    pub fn new(order: Vec<char>) -> (r: TagPriority)
        ensures
            r.spec_order() == order@,
    {
        TagPriority { order }
    }

    /// The priority rank of a message.
    fn rank_of(&self, m: &Message) -> (r: usize)
        ensures
            r == msg_rank(self.spec_order(), m@),
    {
        let ghost ord = self.spec_order();
        if m.tags.len() == 0 {
            return self.order.len();
        }
        let first = &m.tags[0];
        assert(m@.tags[0] == first@);
        if first.as_str().unicode_len() == 0 {
            return self.order.len();
        }
        let c = first.as_str().get_char(0);
        let n = self.order.len();
        let mut i: usize = 0;
        assert(ord.skip(0) =~= ord);
        while i < n
            invariant
                i <= n,
                n == ord.len(),
                ord == self.spec_order(),
                m@.tags.len() > 0,
                m@.tags[0].len() > 0,
                c == m@.tags[0][0],
                char_rank(ord, c) == i + char_rank(ord.skip(i as int), c),
            decreases n - i,
        {
            assert(ord.skip(i as int)[0] == ord[i as int]);
            assert(ord.skip(i as int).drop_first() =~= ord.skip(i + 1));
            if self.order[i] == c {
                assert(char_rank(ord.skip(i as int), c) == 0);
                return i;
            }
            i += 1;
        }
        assert(ord.skip(n as int).len() == 0);
        n
    }

    /// Arrange messages into display order: by tag priority, ties by
    /// ascending timestamp, then ascending id. The result holds exactly the
    /// given messages.
    pub fn sort_messages(&self, msgs: &Vec<Message>) -> (r: Vec<Message>)
        ensures
            sorted_msgs(self.spec_order(), msg_views(r@)),
            msg_views(r@).to_multiset() == msg_views(msgs@).to_multiset(),
    {
        let ghost ord = self.spec_order();
        let n = msgs.len();
        let mut r: Vec<Message> = Vec::new();
        let mut i: usize = 0;
        proof {
            broadcast use vstd::seq_lib::group_to_multiset_ensures;

            assert(msg_views(r@) =~= Seq::<MsgView>::empty());
            assert(msg_views(msgs@).take(0) =~= Seq::<MsgView>::empty());
        }
        while i < n
            invariant
                i <= n,
                n == msgs@.len(),
                ord == self.spec_order(),
                sorted_msgs(ord, msg_views(r@)),
                msg_views(r@).to_multiset() == msg_views(msgs@).take(i as int).to_multiset(),
            decreases n - i,
        {
            let x = msgs[i].duplicate();
            assert(x@ == msg_views(msgs@)[i as int]);
            self.insert_in_order(&mut r, x);
            proof {
                broadcast use vstd::seq_lib::group_to_multiset_ensures;

                let vs = msg_views(msgs@);
                assert(vs.take(i + 1) =~= vs.take(i as int).push(vs[i as int]));
                assert(vs.take(i + 1).to_multiset() =~= vs.take(i as int).to_multiset().insert(
                    vs[i as int],
                ));
            }
            i += 1;
        }
        assert(msg_views(msgs@).take(n as int) =~= msg_views(msgs@));
        r
    }

    /// Insert one message at its place in an ordered list.
    fn insert_in_order(&self, v: &mut Vec<Message>, x: Message)
        requires
            sorted_msgs(self.spec_order(), msg_views(old(v)@)),
        ensures
            sorted_msgs(self.spec_order(), msg_views(final(v)@)),
            msg_views(final(v)@).to_multiset() == msg_views(old(v)@).to_multiset().insert(x@),
    {
        let ghost ord = self.spec_order();
        let rx = self.rank_of(&x);
        let n = v.len();
        let mut i: usize = 0;
        while i < n
            invariant
                i <= n,
                n == v@.len(),
                ord == self.spec_order(),
                v@ == old(v)@,
                rx == msg_rank(ord, x@),
                sorted_msgs(ord, msg_views(v@)),
                forall|k: int| 0 <= k < i ==> msg_le(ord, #[trigger] msg_views(v@)[k], x@),
            decreases n - i,
        {
            let cur = &v[i];
            assert(cur@ == msg_views(v@)[i as int]);
            let rc = self.rank_of(cur);
            let before = rx < rc || (rx == rc && (x.timestamp < cur.timestamp || (x.timestamp
                == cur.timestamp && x.id <= cur.id)));
            if before {
                assert(msg_le(ord, x@, msg_views(v@)[i as int]));
                proof {
                    lemma_insert_sorted_msgs(ord, msg_views(v@), i as int, x@);
                    lemma_insert_multiset(msg_views(v@), i as int, x@);
                    lemma_msg_views_insert(v@, i as int, x);
                }
                v.insert(i, x);
                return ;
            }
            assert(msg_le(ord, msg_views(v@)[i as int], x@));
            i += 1;
        }
        proof {
            lemma_insert_sorted_msgs(ord, msg_views(v@), n as int, x@);
            lemma_insert_multiset(msg_views(v@), n as int, x@);
            lemma_msg_views_insert(v@, n as int, x);
        }
        v.insert(n, x);
    }
}

/// Message views commute with insertion.
proof fn lemma_msg_views_insert(w: Seq<Message>, i: int, x: Message)
    requires
        0 <= i <= w.len(),
    ensures
        msg_views(w.insert(i, x)) =~= msg_views(w).insert(i, x@),
{
}

/// Inserting at the right spot keeps a message list in display order.
proof fn lemma_insert_sorted_msgs(order: Seq<char>, vs: Seq<MsgView>, i: int, x: MsgView)
    requires
        sorted_msgs(order, vs),
        0 <= i <= vs.len(),
        forall|k: int| 0 <= k < i ==> msg_le(order, #[trigger] vs[k], x),
        i < vs.len() ==> msg_le(order, x, vs[i]),
    ensures
        sorted_msgs(order, vs.insert(i, x)),
{
    let ws = vs.insert(i, x);
    assert(ws =~= vs.subrange(0, i) + seq![x] + vs.subrange(i, vs.len() as int));
    assert forall|p: int, q: int| 0 <= p < q < ws.len() implies msg_le(
        order,
        #[trigger] ws[p],
        #[trigger] ws[q],
    ) by {
        if p < i && q == i {
            assert(msg_le(order, vs[p], x));
        } else if p == i && q > i {
            if q - 1 == i {
                assert(msg_le(order, x, vs[i]));
            } else {
                assert(msg_le(order, x, vs[i]));
                assert(msg_le(order, vs[i], vs[q - 1]));
            }
        } else if p < i && q > i {
            assert(msg_le(order, vs[p], vs[q - 1]));
        } else if p > i && q > i {
            assert(msg_le(order, vs[p - 1], vs[q - 1]));
        } else {
            assert(msg_le(order, vs[p], vs[q]));
        }
    }
}

/// Inserting anywhere adds exactly one copy to the multiset.
proof fn lemma_insert_multiset(vs: Seq<MsgView>, i: int, x: MsgView)
    requires
        0 <= i <= vs.len(),
    ensures
        vs.insert(i, x).to_multiset() == vs.to_multiset().insert(x),
{
    broadcast use vstd::seq_lib::group_to_multiset_ensures;
    broadcast use vstd::multiset::group_multiset_axioms;

    let ws = vs.insert(i, x);
    assert(ws.remove(i) =~= vs);
    assert(ws[i] == x);
    assert(ws.remove(i).to_multiset() =~= ws.to_multiset().remove(ws[i]));
    assert(ws.contains(x));
    assert(ws.to_multiset().count(x) > 0);
    assert(ws.to_multiset() =~= vs.to_multiset().insert(x)) by {
        assert(vs.to_multiset() =~= ws.to_multiset().remove(x));
    }
}

/// What a retrieval asks for: the user, an optional explicit window in
/// seconds (how far back, and how long), the requested region codes, and
/// the tag filter.
pub struct MessageFilter {
    pub user_id: i64,
    pub period: Option<(i64, i64)>,
    pub regions: Vec<String>,
    pub tags: Vec<String>,
}

/// Midnight of the day `now` falls in.
pub open spec fn start_of_day(now: int) -> int {
    now - (now % 86400)
}

/// The window a region is served: the explicit one when given (clamped to
/// the machine at `now`), else from the watermark — or the start of the
/// current day when the pair was never served — up to now.
pub open spec fn window_for(
    marks: Seq<WmView>,
    user: int,
    region: Seq<char>,
    period: Option<(int, int)>,
    now: int,
) -> (int, int) {
    match period {
        Some((since, dur)) => {
            let after = if i64::MIN <= now - since <= i64::MAX {
                now - since
            } else {
                now
            };
            let before = if i64::MIN <= after + dur <= i64::MAX {
                after + dur
            } else {
                now
            };
            (after, before)
        },
        None => {
            let after = match mark_of(marks, user, region) {
                Some(t) => t,
                None => start_of_day(now),
            };
            (after, now)
        },
    }
}

/// The period of a filter, as mathematical integers.
pub open spec fn period_view(p: Option<(i64, i64)>) -> Option<(int, int)> {
    match p {
        Some((s, d)) => Some((s as int, d as int)),
        None => None,
    }
}

/// The regions a retrieval serves: the requested regions in order, each at
/// its first occurrence, kept only when the allow-list grants it.
pub open spec fn process_list(
    allowed: Seq<Seq<char>>,
    requested: Seq<Seq<char>>,
    done: Seq<Seq<char>>,
) -> Seq<Seq<char>>
    decreases requested.len(),
{
    if requested.len() == 0 {
        done
    } else {
        let r = requested[0];
        if allowed.contains(r) && !done.contains(r) {
            process_list(allowed, requested.drop_first(), done.push(r))
        } else {
            process_list(allowed, requested.drop_first(), done)
        }
    }
}

/// The retrieval engine: the persisted watermarks, the per-user allow-lists
/// and the display priority, behind one interface.
pub struct RetrievalEngine {
    watermarks: Watermarks,
    allow: AllowList,
    priority: TagPriority,
}

impl RetrievalEngine {
    /// The stored watermarks.
    pub closed spec fn marks(&self) -> Seq<WmView> {
        self.watermarks.marks()
    }

    /// The allow-lists.
    pub closed spec fn lists(&self) -> Seq<(int, Seq<Seq<char>>)> {
        self.allow.lists()
    }

    /// The display priority alphabet.
    pub closed spec fn spec_order(&self) -> Seq<char> {
        self.priority.spec_order()
    }

    /// A fresh engine: no watermarks, no grants, the given priority.
    pub fn new(priority: TagPriority) -> (r: RetrievalEngine)
        ensures
            r.marks() == Seq::<WmView>::empty(),
            r.lists() == Seq::<(int, Seq<Seq<char>>)>::empty(),
            r.spec_order() == priority.spec_order(),
    {
        RetrievalEngine { watermarks: Watermarks::new(), allow: AllowList::new(), priority }
    }

    /// The last-served timestamp of a (user, region) pair, if any.
    pub fn watermark(&self, user: i64, region: &String) -> (r: Option<i64>)
        ensures
            match r {
                Some(t) => mark_of(self.marks(), user as int, region@) == Some(t as int),
                None => mark_of(self.marks(), user as int, region@) is None,
            },
    {
        self.watermarks.get(user, region)
    }

    /// Grant regions to a user (duplicates kept, as granted).
    pub fn add_user_regions(&mut self, user: i64, regions: Vec<String>)
        ensures
            allowed_of(final(self).lists(), user as int) == allowed_of(
                old(self).lists(),
                user as int,
            ) + views_of(regions@),
            forall|u: int|
                u != user as int ==> allowed_of(final(self).lists(), u) == allowed_of(
                    old(self).lists(),
                    u,
                ),
            final(self).marks() == old(self).marks(),
            final(self).spec_order() == old(self).spec_order(),
    {
        self.allow.add_user_regions(user, regions);
    }

    /// Revoke regions from a user.
    pub fn del_user_regions(&mut self, user: i64, regions: &Vec<String>)
        ensures
            allowed_of(final(self).lists(), user as int) == allowed_of(
                old(self).lists(),
                user as int,
            ).filter(|rg: Seq<char>| !views_of(regions@).contains(rg)),
            forall|u: int|
                u != user as int ==> allowed_of(final(self).lists(), u) == allowed_of(
                    old(self).lists(),
                    u,
                ),
            final(self).marks() == old(self).marks(),
            final(self).spec_order() == old(self).spec_order(),
    {
        self.allow.del_user_regions(user, regions);
    }

    /// Serve one retrieval over the store: for each requested region the
    /// user may read (first occurrences, in order), the messages of that
    /// region's window, and — explicit window or not, results or none — the
    /// (user, region) watermark advanced to `now`. Windows are computed
    /// against the watermarks as they stood before this call.
    pub fn get_messages(&mut self, store: &MessageStore, filter: &MessageFilter, now: i64) -> (groups: Vec<(String, Vec<Message>)>)
        requires
            now >= 0,
        ensures
            ({
                let user = filter.user_id as int;
                let allowed = allowed_of(old(self).lists(), user);
                let processed = process_list(
                    allowed,
                    views_of(filter.regions@),
                    Seq::empty(),
                );
                &&& groups@.len() == processed.len()
                &&& forall|j: int|
                    0 <= j < processed.len() ==> (#[trigger] groups@[j]).0@ == processed[j]
                &&& forall|j: int|
                    0 <= j < processed.len() ==> msg_views((#[trigger] groups@[j]).1@)
                        == store.msgs().filter(
                        |m: MsgView|
                            query_matches(
                                m,
                                processed[j],
                                views_of(filter.tags@),
                                window_for(
                                    old(self).marks(),
                                    user,
                                    processed[j],
                                    period_view(filter.period),
                                    now as int,
                                ).0,
                                window_for(
                                    old(self).marks(),
                                    user,
                                    processed[j],
                                    period_view(filter.period),
                                    now as int,
                                ).1,
                            ),
                    )
                &&& forall|rg: Seq<char>|
                    processed.contains(rg) ==> mark_of(final(self).marks(), user, rg) == Some(
                        now as int,
                    )
                &&& forall|u: int, rg: Seq<char>|
                    u != user || !processed.contains(rg) ==> mark_of(final(self).marks(), u, rg)
                        == mark_of(old(self).marks(), u, rg)
                &&& final(self).lists() == old(self).lists()
                &&& final(self).spec_order() == old(self).spec_order()
            }),
    {
        let ghost user = filter.user_id as int;
        let ghost old_marks = self.marks();
        let ghost requested = views_of(filter.regions@);
        let allowed = self.allow.get_allowed(filter.user_id);
        let ghost allowed_v = allowed_of(self.lists(), user);
        let ghost period = period_view(filter.period);
        let mut done: Vec<String> = Vec::new();
        let mut groups: Vec<(String, Vec<Message>)> = Vec::new();
        let m = filter.regions.len();
        let mut idx: usize = 0;
        assert(requested.skip(0) =~= requested);
        assert(views_of(done@) =~= Seq::<Seq<char>>::empty());
        while idx < m
            invariant
                idx <= m,
                m == filter.regions@.len(),
                now >= 0,
                user == filter.user_id as int,
                requested == views_of(filter.regions@),
                allowed_v == allowed_of(old(self).lists(), user),
                views_of(allowed@) == allowed_v,
                old_marks == old(self).marks(),
                period == period_view(filter.period),
                self.lists() == old(self).lists(),
                self.spec_order() == old(self).spec_order(),
                process_list(allowed_v, requested, Seq::empty()) == process_list(
                    allowed_v,
                    requested.skip(idx as int),
                    views_of(done@),
                ),
                groups@.len() == done@.len(),
                forall|j: int|
                    0 <= j < done@.len() ==> (#[trigger] groups@[j]).0@ == views_of(done@)[j],
                forall|j: int|
                    0 <= j < done@.len() ==> msg_views((#[trigger] groups@[j]).1@)
                        == store.msgs().filter(
                        |mv: MsgView|
                            query_matches(
                                mv,
                                views_of(done@)[j],
                                views_of(filter.tags@),
                                window_for(old_marks, user, views_of(done@)[j], period, now as int).0,
                                window_for(old_marks, user, views_of(done@)[j], period, now as int).1,
                            ),
                    ),
                forall|rg: Seq<char>|
                    views_of(done@).contains(rg) ==> mark_of(self.marks(), user, rg) == Some(
                        now as int,
                    ),
                forall|u: int, rg: Seq<char>|
                    u != user || !views_of(done@).contains(rg) ==> mark_of(self.marks(), u, rg)
                        == mark_of(old_marks, u, rg),
            decreases m - idx,
        {
            let ghost done_v = views_of(done@);
            let ghost rest = requested.skip(idx as int);
            assert(rest[0] == requested[idx as int]);
            assert(requested[idx as int] == filter.regions@[idx as int]@);
            assert(rest.drop_first() =~= requested.skip(idx + 1));
            let rg = &filter.regions[idx];
            let fresh = !crate::text::contains_string(&done, rg);
            let granted = crate::text::contains_string(&allowed, rg);
            if fresh && granted {
                let after: i64;
                let before: i64;
                match filter.period {
                    Some((since, dur)) => {
                        let a = match now.checked_sub(since) {
                            Some(v) => v,
                            None => now,
                        };
                        let b = match a.checked_add(dur) {
                            Some(v) => v,
                            None => now,
                        };
                        after = a;
                        before = b;
                    },
                    None => {
                        after = match self.watermarks.get(filter.user_id, rg) {
                            Some(t) => t,
                            None => now - now % 86400,
                        };
                        before = now;
                    },
                }
                proof {
                    assert(mark_of(self.marks(), user, rg@) == mark_of(old_marks, user, rg@));
                    assert((after as int, before as int) == window_for(
                        old_marks,
                        user,
                        rg@,
                        period,
                        now as int,
                    ));
                }
                let msgs = store.query(rg, &filter.tags, after, before);
                self.watermarks.set(filter.user_id, rg, now);
                let ghost pre_groups = groups@;
                let ghost pre_done = done@;
                groups.push((rg.clone(), msgs));
                done.push(rg.clone());
                proof {
                    assert(views_of(done@).len() == done@.len());
                    assert(forall|q: int|
                        0 <= q < pre_done.len() ==> #[trigger] views_of(done@)[q] == views_of(
                            pre_done,
                        )[q]);
                    assert(views_of(done@)[pre_done.len() as int] == rg@);
                    assert(views_of(done@) =~= views_of(pre_done).push(rg@));
                    assert(forall|q: int|
                        0 <= q < pre_groups.len() ==> #[trigger] groups@[q] == pre_groups[q]);
                    assert(groups@[pre_groups.len() as int].0@ == rg@);
                    assert forall|rg2: Seq<char>| views_of(done@).contains(rg2) implies mark_of(
                        self.marks(),
                        user,
                        rg2,
                    ) == Some(now as int) by {
                        if rg2 != rg@ {
                            assert(views_of(pre_done).contains(rg2));
                        }
                    }
                    assert forall|u: int, rg2: Seq<char>|
                        u != user || !views_of(done@).contains(rg2) implies mark_of(
                        self.marks(),
                        u,
                        rg2,
                    ) == mark_of(old_marks, u, rg2) by {
                        if !(u == user && rg2 == rg@) {
                            if u == user && views_of(pre_done).contains(rg2) {
                                let w = choose|w: int|
                                    0 <= w < views_of(pre_done).len() && views_of(pre_done)[w]
                                        == rg2;
                                assert(views_of(done@)[w] == rg2);
                                assert(views_of(done@).contains(rg2));
                            }
                            assert(!views_of(pre_done).contains(rg2) || u != user);
                        }
                    }
                    assert(!done_v.contains(rg@));
                    assert(allowed_v.contains(rg@));
                    assert(process_list(allowed_v, rest, done_v) == process_list(
                        allowed_v,
                        requested.skip(idx + 1),
                        done_v.push(rg@),
                    ));
                }
            } else {
                proof {
                    if !fresh {
                        assert(views_of(done@).contains(rg@));
                    }
                    assert(!(allowed_v.contains(rg@) && !views_of(done@).contains(rg@)));
                    assert(process_list(allowed_v, rest, views_of(done@)) == process_list(
                        allowed_v,
                        requested.skip(idx + 1),
                        views_of(done@),
                    ));
                }
            }
            idx += 1;
        }
        assert(requested.skip(m as int).len() == 0);
        assert(process_list(allowed_v, requested.skip(m as int), views_of(done@)) == views_of(
            done@,
        ));
        groups
    }
}

/// A whole number of hours as seconds, clamped to the machine.
pub open spec fn hours_to_secs(h: int) -> int {
    if h * 3600 <= i64::MAX {
        h * 3600
    } else {
        i64::MAX as int
    }
}

/// The explicit window of a retrieval line, in seconds: absent without a
/// first number; a missing second number defaults to the first.
pub open spec fn period_of(since: Option<u64>, duration: Option<u64>) -> Option<(int, int)> {
    match since {
        None => None,
        Some(s) => {
            let d = match duration {
                Some(d) => d as int,
                None => s as int,
            };
            Some((hours_to_secs(s as int), hours_to_secs(d)))
        },
    }
}

fn clamp_hours(h: u64) -> (r: i64)
    ensures
        r as int == hours_to_secs(h as int),
{
    match h.checked_mul(3600) {
        Some(s) => {
            if s <= (i64::MAX as u64) {
                s as i64
            } else {
                i64::MAX
            }
        },
        None => {
            proof {
                assert(h as int * 3600 > u64::MAX) by (nonlinear_arith)
                    requires
                        h as int * 3600 > u64::MAX,
                ;
            }
            i64::MAX
        },
    }
}

/// What a retrieval line decides.
pub enum RetrieveDecision {
    /// No retrieval line, or no region clause: nothing to serve.
    NoLine,
    /// An unresolvable region token, with its candidate regions.
    BadRegionTok { token: Seq<char>, matches: Set<Seq<char>> },
    /// An unknown tag token, raw.
    BadTagTok(Seq<char>),
    /// Serve these regions over this window with this tag filter.
    Serve { regions: Seq<Seq<char>>, period: Option<(int, int)>, tags: Seq<Seq<char>> },
}

/// The decision a retrieval takes for one line of text, as a function of
/// the catalogs and the text.
pub open spec fn retrieve_decision(idx: &AliasIndex, v: &TagValidator, text: Seq<char>) -> RetrieveDecision {
    let ts = tokens_of(text);
    let k = region_prefix_len(ts);
    let d = number_prefix_len(ts.skip(k));
    if !query_line_matches(ts) || k == 0 {
        RetrieveDecision::NoLine
    } else {
        match resolve_tokens(idx.spec_pairs(), idx.spec_keyword(), idx.spec_codes(), ts.take(k)) {
            RegionOutcome::Failed { token, matches } => RetrieveDecision::BadRegionTok {
                token,
                matches,
            },
            RegionOutcome::Country(cs) => retrieve_with_regions(v, ts, k, d, cs),
            RegionOutcome::Picked(cs) => retrieve_with_regions(v, ts, k, d, cs),
        }
    }
}

/// The decision once the regions stand: the tag clause may still fail.
pub open spec fn retrieve_with_regions(
    v: &TagValidator,
    ts: Seq<Seq<char>>,
    k: int,
    d: int,
    regions: Seq<Seq<char>>,
) -> RetrieveDecision {
    match resolve_tags(v.spec_tags(), ts.skip(k + d)) {
        TagOutcome::BadTag(t) => RetrieveDecision::BadTagTok(t),
        TagOutcome::Tagged(tv) => RetrieveDecision::Serve {
            regions,
            period: period_of(
                if d >= 1 {
                    Some(digits_value(ts[k]) as u64)
                } else {
                    None
                },
                if d == 2 {
                    Some(digits_value(ts[k + 1]) as u64)
                } else {
                    None
                },
            ),
            tags: tv,
        },
    }
}

/// Groups that actually hold messages, in order.
pub open spec fn keep_nonempty(gs: Seq<(Seq<char>, Seq<MsgView>)>) -> Seq<(Seq<char>, Seq<MsgView>)> {
    gs.filter(|g: (Seq<char>, Seq<MsgView>)| g.1.len() > 0)
}

/// The groups a serve decision yields over a store, one per processed
/// region, each holding that region's window query.
pub open spec fn serve_groups(
    marks: Seq<WmView>,
    store_msgs: Seq<MsgView>,
    user: int,
    processed: Seq<Seq<char>>,
    period: Option<(int, int)>,
    tags: Seq<Seq<char>>,
    now: int,
) -> Seq<(Seq<char>, Seq<MsgView>)> {
    Seq::new(
        processed.len(),
        |j: int|
            (
                processed[j],
                store_msgs.filter(
                    |m: MsgView|
                        query_matches(
                            m,
                            processed[j],
                            tags,
                            window_for(marks, user, processed[j], period, now).0,
                            window_for(marks, user, processed[j], period, now).1,
                        ),
                ),
            ),
    )
}

impl RetrievalEngine {
    /// Serve one retrieval line: resolve its region clause (`NoRegions`
    /// without one, `BadRegion` on an unresolvable token), its tag clause
    /// (`BadTag` on an unknown token), and its optional explicit window;
    /// query each granted region and advance its watermark to `now`; answer
    /// the non-empty groups, each in display order, or `NoMessages` when
    /// every group came back empty — watermarks stay advanced even then.
    pub fn retrieve(
        &mut self,
        index: &AliasIndex,
        validator: &TagValidator,
        store: &MessageStore,
        user_id: i64,
        text: &str,
        now: i64,
    ) -> (r: Result<Vec<(String, Vec<Message>)>, Error>)
        requires
            now >= 0,
        ensures
            final(self).lists() == old(self).lists(),
            final(self).spec_order() == old(self).spec_order(),
            match retrieve_decision(index, validator, text@) {
                RetrieveDecision::NoLine => final(self).marks() == old(self).marks() && r == Err::<
                    Vec<(String, Vec<Message>)>,
                    Error,
                >(Error::NoRegions),
                RetrieveDecision::BadRegionTok { token, matches } => final(self).marks() == old(
                    self,
                ).marks() && match r {
                    Err(Error::BadRegion { region, matches: mv }) => region@ == token
                        && sorted_unique(views_of(mv@)) && views_of(mv@).to_set() == matches,
                    _ => false,
                },
                RetrieveDecision::BadTagTok(t) => final(self).marks() == old(self).marks()
                    && match r {
                    Err(Error::BadTag(raw)) => raw@ == t,
                    _ => false,
                },
                RetrieveDecision::Serve { regions: rs, period, tags: tv } => {
                    let user = user_id as int;
                    let allowed = allowed_of(old(self).lists(), user);
                    let processed = process_list(allowed, rs, Seq::empty());
                    let gseq = serve_groups(
                        old(self).marks(),
                        store.msgs(),
                        user,
                        processed,
                        period,
                        tv,
                        now as int,
                    );
                    let kept = keep_nonempty(gseq);
                    &&& forall|rg: Seq<char>|
                        processed.contains(rg) ==> mark_of(final(self).marks(), user, rg) == Some(
                            now as int,
                        )
                    &&& forall|u: int, rg: Seq<char>|
                        u != user || !processed.contains(rg) ==> mark_of(final(self).marks(), u, rg)
                            == mark_of(old(self).marks(), u, rg)
                    &&& match r {
                        Ok(gs) => kept.len() > 0 && gs@.len() == kept.len() && (forall|j: int|
                            0 <= j < kept.len() ==> (#[trigger] gs@[j]).0@ == kept[j].0) && (
                        forall|j: int|
                            0 <= j < kept.len() ==> sorted_msgs(
                                old(self).spec_order(),
                                msg_views((#[trigger] gs@[j]).1@),
                            )) && (forall|j: int|
                            0 <= j < kept.len() ==> msg_views(
                                (#[trigger] gs@[j]).1@,
                            ).to_multiset() == kept[j].1.to_multiset()),
                        Err(Error::NoMessages { regions: rv, period: p, tags: tg }) => kept.len()
                            == 0 && views_of(rv@) == rs && period_view(p) == period && views_of(
                            tg@,
                        ) == tv,
                        _ => false,
                    }
                },
            },
    {
        let ghost ts = tokens_of(text@);
        let ghost k = region_prefix_len(ts);
        let ghost d = number_prefix_len(ts.skip(k));
        let parsed = match parse_query_line(text) {
            Some(ql) => ql,
            None => {
                return Err(Error::NoRegions);
            },
        };
        let rtoks = match parsed.regions {
            Some(rt) => rt,
            None => {
                return Err(Error::NoRegions);
            },
        };
        assert(views_of(rtoks@) == ts.take(k));
        let region_list: Vec<String> = match index.resolve_list(&rtoks) {
            Regions::BadRegion { region, matches } => {
                return Err(Error::BadRegion { region, matches });
            },
            Regions::Country(cs) => cs,
            Regions::Regions(cs) => cs,
        };
        let ghost rs = views_of(region_list@);
        let tag_list: Vec<String> = match parsed.tags {
            Some(tt) => {
                assert(views_of(tt@) == ts.skip(k + d));
                match validator.resolve_list(&tt) {
                    Tags::Tags(tv) => tv,
                    Tags::BadTag(t) => {
                        return Err(Error::BadTag(t));
                    },
                }
            },
            None => {
                assert(k + d == ts.len());
                assert(ts.skip(k + d).len() == 0);
                let e: Vec<String> = Vec::new();
                assert(views_of(e@) =~= Seq::<Seq<char>>::empty());
                assert(resolve_tags(validator.spec_tags(), ts.skip(k + d))
                    == TagOutcome::Tagged(Seq::<Seq<char>>::empty()));
                e
            },
        };
        let ghost tv = views_of(tag_list@);
        let period: Option<(i64, i64)> = match parsed.since {
            Some(sh) => {
                let dh = match parsed.duration {
                    Some(dh) => dh,
                    None => sh,
                };
                Some((clamp_hours(sh), clamp_hours(dh)))
            },
            None => None,
        };
        let ghost g_period = period_view(period);
        assert(g_period == retrieve_decision(index, validator, text@)->Serve_period);
        let filter = MessageFilter {
            user_id,
            period,
            regions: crate::catalog::clone_strings(&region_list),
            tags: crate::catalog::clone_strings(&tag_list),
        };
        let ghost user = user_id as int;
        let ghost allowed = allowed_of(self.lists(), user);
        let ghost processed = process_list(allowed, rs, Seq::<Seq<char>>::empty());
        let ghost gseq = serve_groups(
            self.marks(),
            store.msgs(),
            user,
            processed,
            g_period,
            tv,
            now as int,
        );
        let groups = self.get_messages(store, &filter, now);
        proof {
            assert(groups@.len() == processed.len());
            assert forall|j: int| 0 <= j < processed.len() implies msg_views(
                (#[trigger] groups@[j]).1@,
            ) == gseq[j].1 by {
                assert(msg_views(groups@[j].1@) == store.msgs().filter(
                    |m: MsgView|
                        query_matches(
                            m,
                            processed[j],
                            views_of(filter.tags@),
                            window_for(old(self).marks(), user, processed[j], g_period, now as int).0,
                            window_for(old(self).marks(), user, processed[j], g_period, now as int).1,
                        ),
                ));
            }
        }
        let mut result: Vec<(String, Vec<Message>)> = Vec::new();
        let n = groups.len();
        let mut i: usize = 0;
        proof {
            reveal(Seq::filter);
            assert(gseq.take(0) =~= Seq::<(Seq<char>, Seq<MsgView>)>::empty());
            assert(keep_nonempty(gseq.take(0)) =~= Seq::<(Seq<char>, Seq<MsgView>)>::empty());
        }
        while i < n
            invariant
                i <= n,
                n == groups@.len(),
                n == processed.len(),
                gseq == serve_groups(
                    old(self).marks(),
                    store.msgs(),
                    user,
                    processed,
                    g_period,
                    tv,
                    now as int,
                ),
                self.spec_order() == old(self).spec_order(),
                forall|j: int| 0 <= j < n ==> (#[trigger] groups@[j]).0@ == processed[j],
                forall|j: int| 0 <= j < n ==> msg_views((#[trigger] groups@[j]).1@) == gseq[j].1,
                result@.len() == keep_nonempty(gseq.take(i as int)).len(),
                forall|j: int|
                    0 <= j < result@.len() ==> (#[trigger] result@[j]).0@ == keep_nonempty(
                        gseq.take(i as int),
                    )[j].0,
                forall|j: int|
                    0 <= j < result@.len() ==> sorted_msgs(
                        old(self).spec_order(),
                        msg_views((#[trigger] result@[j]).1@),
                    ),
                forall|j: int|
                    0 <= j < result@.len() ==> msg_views(
                        (#[trigger] result@[j]).1@,
                    ).to_multiset() == keep_nonempty(gseq.take(i as int))[j].1.to_multiset(),
            decreases n - i,
        {
            proof {
                reveal(Seq::filter);
                let t1 = gseq.take(i + 1);
                assert(t1.drop_last() =~= gseq.take(i as int));
                assert(t1.last() == gseq[i as int]);
            }
            let glen = groups[i].1.len();
            assert(glen == gseq[i as int].1.len()) by {
                assert(msg_views(groups@[i as int].1@).len() == groups@[i as int].1@.len());
            }
            if glen > 0 {
                let sorted = self.priority.sort_messages(&groups[i].1);
                let ghost pre = result@;
                result.push((groups[i].0.clone(), sorted));
                proof {
                    assert(forall|q: int|
                        0 <= q < pre.len() ==> #[trigger] result@[q] == pre[q]);
                    assert(result@[pre.len() as int].0@ == processed[i as int]);
                    assert(keep_nonempty(gseq.take(i + 1)) =~= keep_nonempty(
                        gseq.take(i as int),
                    ).push(gseq[i as int]));
                }
            } else {
                proof {
                    assert(gseq[i as int].1.len() == 0);
                    assert(keep_nonempty(gseq.take(i + 1)) =~= keep_nonempty(gseq.take(i as int)));
                }
            }
            i += 1;
        }
        assert(gseq.take(n as int) =~= gseq);
        if result.len() == 0 {
            assert(keep_nonempty(gseq).len() == 0);
            return Err(Error::NoMessages { regions: region_list, period, tags: tag_list });
        }
        Ok(result)
    }
}

/// Law: consecutive incremental retrievals serve disjoint windows. Once a
/// retrieval at `now1` has advanced the (user, region) watermark — which
/// every retrieval does — the next retrieval without an explicit window
/// serves exactly `[now1, now2]`: it starts where the previous call ended,
/// never before.
pub proof fn lemma_incremental_windows_disjoint(
    marks: Seq<WmView>,
    user: int,
    region: Seq<char>,
    now1: int,
    now2: int,
)
    requires
        mark_of(marks, user, region) == Some(now1),
    ensures
        window_for(marks, user, region, None, now2) == (now1, now2),
        window_for(marks, user, region, None, now2).0 >= now1,
{
}

} // verus!
