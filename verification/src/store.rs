//! Messages and the message store.
//!
//! A pending message has no region or tag until a finalize line classifies
//! it. A stored message is immutable: an id, the persist-time timestamp, its
//! origin, a non-empty region-code list and a tag list. The store keeps
//! messages in insertion order and serves window queries over them.

use crate::catalog::AliasIndex;
use crate::error::Error;
use crate::tags::TagValidator;
use crate::text::{first_not_in, views_of};
use vstd::prelude::*;

verus! {

/// A buffered message, not yet classified; regions and tags stay empty
/// until a finalize line stamps them.
#[derive(Debug, Clone, PartialEq, Eq)]
pub struct NewMessage {
    pub regions: Vec<String>,
    pub chat_id: i64,
    pub message_id: i32,
    pub tags: Vec<String>,
}

/// The mathematical content of a pending message.
pub struct NewMsgView {
    pub regions: Seq<Seq<char>>,
    pub chat_id: int,
    pub message_id: int,
    pub tags: Seq<Seq<char>>,
}

impl View for NewMessage {
    type V = NewMsgView;

    open spec fn view(&self) -> NewMsgView {
        NewMsgView {
            regions: views_of(self.regions@),
            chat_id: self.chat_id as int,
            message_id: self.message_id as int,
            tags: views_of(self.tags@),
        }
    }
}

/// A persisted message: immutable id, persist-time timestamp, origin chat
/// and transport message id, non-empty region-code list, tag list.
#[derive(Debug, Clone, PartialEq, Eq)]
pub struct Message {
    pub id: u64,
    pub timestamp: i64,
    pub chat_id: i64,
    pub message_id: i32,
    pub regions: Vec<String>,
    pub tags: Vec<String>,
}

/// The mathematical content of a stored message.
pub struct MsgView {
    pub id: int,
    pub timestamp: int,
    pub chat_id: int,
    pub message_id: int,
    pub regions: Seq<Seq<char>>,
    pub tags: Seq<Seq<char>>,
}

impl View for Message {
    type V = MsgView;

    open spec fn view(&self) -> MsgView {
        MsgView {
            id: self.id as int,
            timestamp: self.timestamp as int,
            chat_id: self.chat_id as int,
            message_id: self.message_id as int,
            regions: views_of(self.regions@),
            tags: views_of(self.tags@),
        }
    }
}

impl Message {
    /// An exact copy.
    pub fn duplicate(&self) -> (r: Message)
        ensures
            r@ == self@,
    {
        let r = Message {
            id: self.id,
            timestamp: self.timestamp,
            chat_id: self.chat_id,
            message_id: self.message_id,
            regions: crate::catalog::clone_strings(&self.regions),
            tags: crate::catalog::clone_strings(&self.tags),
        };
        r
    }
}

/// The views of a list of messages.
pub open spec fn msg_views(ms: Seq<Message>) -> Seq<MsgView> {
    ms.map_values(|m: Message| m@)
}

/// The views of a list of pending messages.
pub open spec fn new_msg_views(ms: Seq<NewMessage>) -> Seq<NewMsgView> {
    ms.map_values(|m: NewMessage| m@)
}

/// The first region of the batch, in order, that the catalog does not know.
pub open spec fn batch_bad_region(all: Seq<Seq<char>>, ms: Seq<NewMsgView>) -> Option<Seq<char>>
    decreases ms.len(),
{
    if ms.len() == 0 {
        None
    } else {
        match first_not_in(all, ms[0].regions) {
            Some(x) => Some(x),
            None => batch_bad_region(all, ms.drop_first()),
        }
    }
}

/// The first tag of the batch, in order, that the catalog does not know.
pub open spec fn batch_bad_tag(all: Seq<Seq<char>>, ms: Seq<NewMsgView>) -> Option<Seq<char>>
    decreases ms.len(),
{
    if ms.len() == 0 {
        None
    } else {
        match first_not_in(all, ms[0].tags) {
            Some(x) => Some(x),
            None => batch_bad_tag(all, ms.drop_first()),
        }
    }
}

/// A pending message stamped at persist time.
pub open spec fn stamped(m: NewMsgView, id: int, now: int) -> MsgView {
    MsgView {
        id,
        timestamp: now,
        chat_id: m.chat_id,
        message_id: m.message_id,
        regions: m.regions,
        tags: m.tags,
    }
}

/// The whole batch stamped at persist time, with consecutive ids from
/// `base`.
pub open spec fn stamped_batch(ms: Seq<NewMsgView>, base: int, now: int) -> Seq<MsgView> {
    Seq::new(ms.len(), |i: int| stamped(ms[i], base + i, now))
}

/// Does a stored message fall in this query: timestamp inside the closed
/// window, the region on its region list, and, when tags are given, at
/// least one of them on its tag list?
pub open spec fn query_matches(
    m: MsgView,
    region: Seq<char>,
    tags: Seq<Seq<char>>,
    after: int,
    before: int,
) -> bool {
    &&& after <= m.timestamp <= before
    &&& m.regions.contains(region)
    &&& (tags.len() == 0 || exists|j: int| 0 <= j < tags.len() && m.tags.contains(#[trigger] tags[j]))
}

/// The in-memory message store: stored messages in insertion order, and the
/// next free id.
pub struct MessageStore {
    messages: Vec<Message>,
    next_id: u64,
}

impl MessageStore {
    /// The stored messages, in insertion order.
    pub closed spec fn msgs(&self) -> Seq<MsgView> {
        msg_views(self.messages@)
    }

    /// The id the next stored message will get.
    pub closed spec fn spec_next_id(&self) -> int {
        self.next_id as int
    }

    /// Ids are consecutive from zero: the id of each stored message is its
    /// position, and `next_id` is the count.
    pub open spec fn wf(&self) -> bool {
        &&& self.spec_next_id() == self.msgs().len()
        &&& forall|i: int| 0 <= i < self.msgs().len() ==> (#[trigger] self.msgs()[i]).id == i
        &&& forall|i: int| 0 <= i < self.msgs().len() ==> (#[trigger] self.msgs()[i]).regions.len() > 0
    }

    /// An empty store.
    pub fn new() -> (r: MessageStore)
        ensures
            r.wf(),
            r.msgs() == Seq::<MsgView>::empty(),
    {
        let r = MessageStore { messages: Vec::new(), next_id: 0 };
        assert(r.msgs() =~= Seq::<MsgView>::empty());
        r
    }

    /// How many messages the store holds.
    pub fn len(&self) -> (n: usize)
        ensures
            n == self.msgs().len(),
    {
        proof {
            assert(self.msgs().len() == self.messages@.len());
        }
        self.messages.len()
    }

    /// Persist a batch: each message's regions and tags must be cataloged,
    /// and each message must name at least one region. The whole batch is
    /// stamped with `now` and consecutive ids and appended in order; on any
    /// unknown region or tag nothing is stored and the first offender is
    /// named.
    pub fn insert_messages(
        &mut self,
        index: &AliasIndex,
        validator: &TagValidator,
        messages: &Vec<NewMessage>,
        now: i64,
    ) -> (r: Result<(), Error>)
        requires
            old(self).wf(),
            old(self).msgs().len() + messages@.len() <= u64::MAX,
            forall|i: int| 0 <= i < messages@.len() ==> (#[trigger] messages@[i]@).regions.len() > 0,
        ensures
            final(self).wf(),
            match r {
                Ok(()) => batch_bad_region(index.spec_codes(), new_msg_views(messages@)) is None
                    && batch_bad_tag(validator.spec_tags(), new_msg_views(messages@)) is None
                    && final(self).msgs() == old(self).msgs() + stamped_batch(
                    new_msg_views(messages@),
                    old(self).spec_next_id(),
                    now as int,
                ),
                Err(e) => final(self).msgs() == old(self).msgs() && match e {
                    Error::BadRegion { region, matches } => Some(region@) == batch_bad_region(
                        index.spec_codes(),
                        new_msg_views(messages@),
                    ) && matches@.len() == 0,
                    Error::BadTag(t) => batch_bad_region(
                        index.spec_codes(),
                        new_msg_views(messages@),
                    ) is None && Some(t@) == batch_bad_tag(
                        validator.spec_tags(),
                        new_msg_views(messages@),
                    ),
                    _ => false,
                },
            },
    {
        let ghost all_regions = index.spec_codes();
        let ghost all_tags = validator.spec_tags();
        let ghost mvs = new_msg_views(messages@);
        let n = messages.len();
        let mut i: usize = 0;
        assert(mvs.skip(0) =~= mvs);
        while i < n
            invariant
                i <= n,
                n == messages@.len(),
                mvs == new_msg_views(messages@),
                all_regions == index.spec_codes(),
                *self == *old(self),
                self.wf(),
                batch_bad_region(all_regions, mvs) == batch_bad_region(
                    all_regions,
                    mvs.skip(i as int),
                ),
            decreases n - i,
        {
            assert(mvs.skip(i as int)[0] == mvs[i as int]);
            assert(mvs.skip(i as int).drop_first() =~= mvs.skip(i + 1));
            match index.find_unknown_code(&messages[i].regions) {
                Some(bad) => {
                    assert(first_not_in(all_regions, mvs[i as int].regions) == Some(bad@));
                    return Err(Error::BadRegion { region: bad, matches: Vec::new() });
                },
                None => {
                    assert(first_not_in(all_regions, mvs[i as int].regions) is None);
                },
            }
            i += 1;
        }
        assert(mvs.skip(n as int).len() == 0);
        assert(batch_bad_region(all_regions, mvs) is None);
        let mut i: usize = 0;
        assert(mvs.skip(0) =~= mvs);
        while i < n
            invariant
                i <= n,
                n == messages@.len(),
                mvs == new_msg_views(messages@),
                all_tags == validator.spec_tags(),
                *self == *old(self),
                self.wf(),
                batch_bad_region(all_regions, mvs) is None,
                all_regions == index.spec_codes(),
                batch_bad_tag(all_tags, mvs) == batch_bad_tag(all_tags, mvs.skip(i as int)),
            decreases n - i,
        {
            assert(mvs.skip(i as int)[0] == mvs[i as int]);
            assert(mvs.skip(i as int).drop_first() =~= mvs.skip(i + 1));
            match validator.find_unknown_tag(&messages[i].tags) {
                Some(bad) => {
                    assert(first_not_in(all_tags, mvs[i as int].tags) == Some(bad@));
                    return Err(Error::BadTag(bad));
                },
                None => {
                    assert(first_not_in(all_tags, mvs[i as int].tags) is None);
                },
            }
            i += 1;
        }
        assert(mvs.skip(n as int).len() == 0);
        assert(batch_bad_tag(all_tags, mvs) is None);
        let ghost base = self.spec_next_id();
        let ghost orig = self.msgs();
        let mut i: usize = 0;
        while i < n
            invariant
                i <= n,
                n == messages@.len(),
                mvs == new_msg_views(messages@),
                self.wf(),
                self.spec_next_id() == base + i,
                base + n <= u64::MAX,
                self.msgs() == orig + stamped_batch(mvs, base, now as int).take(i as int),
                forall|k: int| 0 <= k < n ==> (#[trigger] mvs[k]).regions.len() > 0,
            decreases n - i,
        {
            let m = &messages[i];
            let stored = Message {
                id: self.next_id,
                timestamp: now,
                chat_id: m.chat_id,
                message_id: m.message_id,
                regions: crate::catalog::clone_strings(&m.regions),
                tags: crate::catalog::clone_strings(&m.tags),
            };
            proof {
                assert(stored@ == stamped(mvs[i as int], base + i, now as int));
            }
            let ghost pre = self.messages@;
            self.messages.push(stored);
            self.next_id = self.next_id + 1;
            proof {
                assert(self.msgs().len() == self.messages@.len());
                assert(msg_views(pre).len() == pre.len());
                assert(forall|q: int|
                    0 <= q < pre.len() ==> #[trigger] self.msgs()[q] == msg_views(pre)[q]);
                assert(self.msgs()[pre.len() as int] == stamped(mvs[i as int], base + i, now as int));
                assert(self.msgs() =~= orig + stamped_batch(mvs, base, now as int).take(i + 1));
            }
            i += 1;
        }
        assert(stamped_batch(mvs, base, now as int).take(n as int) =~= stamped_batch(
            mvs,
            base,
            now as int,
        ));
        Ok(())
    }

    /// Every stored message that falls in the query, in store order: the
    /// closed window `[after, before]`, the region on its list, and, when
    /// tags are given, at least one shared tag.
    pub fn query(&self, region: &String, tags: &Vec<String>, after: i64, before: i64) -> (r: Vec<
        Message,
    >)
        ensures
            msg_views(r@) == self.msgs().filter(
                |m: MsgView|
                    query_matches(m, region@, views_of(tags@), after as int, before as int),
            ),
    {
        let ghost pred = |m: MsgView|
            query_matches(m, region@, views_of(tags@), after as int, before as int);
        let n = self.messages.len();
        let mut r: Vec<Message> = Vec::new();
        let mut i: usize = 0;
        assert(self.msgs().take(0) =~= Seq::<MsgView>::empty());
        proof {
            reveal(Seq::filter);
            assert(Seq::<MsgView>::empty().filter(pred) =~= Seq::<MsgView>::empty());
            assert(msg_views(r@) =~= Seq::<MsgView>::empty());
        }
        while i < n
            invariant
                i <= n,
                n == self.messages@.len(),
                pred == (|m: MsgView|
                    query_matches(m, region@, views_of(tags@), after as int, before as int)),
                msg_views(r@) == self.msgs().take(i as int).filter(pred),
            decreases n - i,
        {
            let m = &self.messages[i];
            assert(m@ == self.msgs()[i as int]);
            let mut keep = after <= m.timestamp && m.timestamp <= before;
            if keep {
                keep = crate::text::contains_string(&m.regions, region);
                assert(keep == m@.regions.contains(region@));
            }
            if keep && tags.len() > 0 {
                keep = shares_tag(&m.tags, tags);
            }
            assert(keep == pred(m@));
            proof {
                reveal(Seq::filter);
                let t1 = self.msgs().take(i + 1);
                assert(t1.drop_last() =~= self.msgs().take(i as int));
                assert(t1.last() == self.msgs()[i as int]);
            }
            if keep {
                let ghost pre = r@;
                r.push(m.duplicate());
                proof {
                    assert(msg_views(r@).len() == r@.len());
                    assert(msg_views(pre).len() == pre.len());
                    assert(forall|q: int|
                        0 <= q < pre.len() ==> #[trigger] msg_views(r@)[q] == msg_views(pre)[q]);
                    assert(msg_views(r@)[pre.len() as int] == m@);
                    assert(msg_views(r@) =~= msg_views(pre).push(m@));
                    assert(self.msgs().take(i + 1).filter(pred) =~= self.msgs().take(
                        i as int,
                    ).filter(pred).push(m@));
                }
            } else {
                proof {
                    assert(self.msgs().take(i + 1).filter(pred) =~= self.msgs().take(
                        i as int,
                    ).filter(pred));
                }
            }
            i += 1;
        }
        assert(self.msgs().take(n as int) =~= self.msgs());
        r
    }
}

/// Do the two lists share a value?
pub fn shares_tag(have: &Vec<String>, want: &Vec<String>) -> (b: bool)
    ensures
        b == exists|j: int|
            0 <= j < want@.len() && views_of(have@).contains(#[trigger] views_of(want@)[j]),
{
    let n = want.len();
    let mut i: usize = 0;
    while i < n
        invariant
            i <= n,
            n == want@.len(),
            forall|k: int| 0 <= k < i ==> !views_of(have@).contains(#[trigger] views_of(want@)[k]),
        decreases n - i,
    {
        if crate::text::contains_string(have, &want[i]) {
            assert(views_of(have@).contains(views_of(want@)[i as int]));
            return true;
        }
        i += 1;
    }
    false
}

impl MessageStore {
    /// How many stored messages have their timestamp in the closed window.
    pub fn count_window(&self, after: i64, before: i64) -> (n: usize)
        ensures
            n == self.msgs().filter(
                |m: MsgView| after as int <= m.timestamp <= before as int,
            ).len(),
    {
        let ghost pred = |m: MsgView| after as int <= m.timestamp <= before as int;
        let total = self.messages.len();
        let mut n: usize = 0;
        let mut i: usize = 0;
        proof {
            reveal(Seq::filter);
            assert(self.msgs().take(0) =~= Seq::<MsgView>::empty());
            assert(Seq::<MsgView>::empty().filter(pred) =~= Seq::<MsgView>::empty());
        }
        while i < total
            invariant
                i <= total,
                total == self.messages@.len(),
                pred == (|m: MsgView| after as int <= m.timestamp <= before as int),
                n == self.msgs().take(i as int).filter(pred).len(),
                n <= i,
            decreases total - i,
        {
            let m = &self.messages[i];
            assert(m@ == self.msgs()[i as int]);
            proof {
                reveal(Seq::filter);
                let t1 = self.msgs().take(i + 1);
                assert(t1.drop_last() =~= self.msgs().take(i as int));
                assert(t1.last() == self.msgs()[i as int]);
            }
            if after <= m.timestamp && m.timestamp <= before {
                n = n + 1;
            }
            i += 1;
        }
        assert(self.msgs().take(total as int) =~= self.msgs());
        n
    }
}

} // verus!
