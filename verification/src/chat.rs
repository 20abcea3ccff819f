//! The per-chat buffer: a state machine that accumulates forwarded messages
//! and classifies them as a batch when a finalize line arrives.
//!
//! A finalize line is a classifying line whose region clause resolves to
//! known regions. It stamps every buffered message with the resolved regions
//! and tags and persists them as one batch. A short unclassifiable text is
//! noise: an attempted-but-failed region token is reported, anything else is
//! ignored. Every other message is buffered.

use crate::catalog::{AliasIndex, RegionOutcome, Regions, resolve_tokens};
use crate::error::Error;
use crate::grammar::{chat_line_matches, parse_chat_line, region_prefix_len};
use crate::store::{
    MessageStore, MsgView, NewMessage, NewMsgView, batch_bad_region, batch_bad_tag, new_msg_views,
};
use crate::tags::{TagOutcome, TagValidator, Tags, resolve_tags};
use crate::text::{first_not_in, sorted_unique, tokens_of, views_of};
use vstd::prelude::*;

verus! {

/// What the buffer answers.
#[derive(Debug, Clone, PartialEq, Eq)]
pub enum HandleChat {
    /// The message was buffered; the count of pending messages.
    Remembered(usize),
    /// A finalize line classified the buffer: how many messages were saved,
    /// under which regions and tags.
    Saved { count: usize, regions: Vec<String>, tags: Vec<String> },
    /// Short noise that attempted no region; the transport message id.
    Ignored(i32),
}

/// What a message makes the buffer do.
pub enum ChatDecision {
    /// A finalize line with an unknown tag token: fail, keep the buffer.
    RejectedTag(Seq<char>),
    /// A finalize line: save the whole buffer under these regions and tags.
    Classified { count: int, regions: Seq<Seq<char>>, tags: Seq<Seq<char>> },
    /// Short noise with an attempted-but-failed region token.
    RejectedRegion { token: Seq<char>, matches: Set<Seq<char>> },
    /// Short noise that attempted no region: ignore it.
    Dropped,
    /// Anything else: buffer it.
    Buffered,
}

/// The view of a text message, when there is one.
pub open spec fn text_view(t: Option<&str>) -> Option<Seq<char>> {
    match t {
        Some(s) => Some(s@),
        None => None,
    }
}

/// The decision the buffer takes for one incoming message, as a function of
/// the catalogs, the number of pending messages and the text.
pub open spec fn chat_decision(
    idx: &AliasIndex,
    v: &TagValidator,
    buf_len: int,
    text: Option<Seq<char>>,
) -> ChatDecision {
    match text {
        None => ChatDecision::Buffered,
        Some(s) => {
            let ts = tokens_of(s);
            let k = region_prefix_len(ts);
            let rr = resolve_tokens(
                idx.spec_pairs(),
                idx.spec_keyword(),
                idx.spec_codes(),
                ts.take(k),
            );
            if chat_line_matches(ts) && k > 0 && rr is Picked {
                if k < ts.len() {
                    match resolve_tags(v.spec_tags(), ts.skip(k)) {
                        TagOutcome::BadTag(t) => ChatDecision::RejectedTag(t),
                        TagOutcome::Tagged(tv) => ChatDecision::Classified {
                            count: buf_len,
                            regions: rr->Picked_0,
                            tags: tv,
                        },
                    }
                } else {
                    ChatDecision::Classified {
                        count: buf_len,
                        regions: rr->Picked_0,
                        tags: Seq::empty(),
                    }
                }
            } else if 0 < s.len() < 20 {
                match resolve_tokens(idx.spec_pairs(), idx.spec_keyword(), idx.spec_codes(), ts) {
                    RegionOutcome::Failed { token, matches } => ChatDecision::RejectedRegion {
                        token,
                        matches,
                    },
                    _ => ChatDecision::Dropped,
                }
            } else {
                ChatDecision::Buffered
            }
        },
    }
}

/// A freshly buffered message: origin only, no classification yet.
pub open spec fn pending_view(chat_id: int, message_id: int) -> NewMsgView {
    NewMsgView { regions: Seq::empty(), chat_id, message_id, tags: Seq::empty() }
}

/// The buffer classified at finalize time: each pending message stamped
/// with the resolved regions and tags, the persist-time timestamp, and
/// consecutive ids from `base`.
pub open spec fn classified_batch(
    buf: Seq<NewMsgView>,
    regions: Seq<Seq<char>>,
    tags: Seq<Seq<char>>,
    base: int,
    now: int,
) -> Seq<MsgView> {
    Seq::new(
        buf.len(),
        |i: int|
            MsgView {
                id: base + i,
                timestamp: now,
                chat_id: buf[i].chat_id,
                message_id: buf[i].message_id,
                regions,
                tags,
            },
    )
}

/// The per-chat buffer of pending messages.
pub struct Chat {
    messages: Vec<NewMessage>,
}

impl Chat {
    /// The pending messages, in arrival order.
    pub closed spec fn buffer(&self) -> Seq<NewMsgView> {
        new_msg_views(self.messages@)
    }

    /// An empty buffer.
    pub fn new() -> (r: Chat)
        ensures
            r.buffer() == Seq::<NewMsgView>::empty(),
    {
        let r = Chat { messages: Vec::new() };
        assert(r.buffer() =~= Seq::<NewMsgView>::empty());
        r
    }

    /// How many messages are pending.
    pub fn count(&self) -> (n: usize)
        ensures
            n == self.buffer().len(),
    {
        proof {
            assert(self.buffer().len() == self.messages@.len());
        }
        self.messages.len()
    }

    /// Take one incoming message. A finalize line (region words resolving
    /// to known regions, optionally trailing tag letters) stamps and
    /// persists the whole buffer as one batch and clears it; a finalize
    /// line with an unknown tag fails and keeps the buffer; short
    /// unclassifiable text is noise, reported when it attempted a region
    /// and ignored otherwise; everything else is buffered.
    pub fn handle_chat(
        &mut self,
        index: &AliasIndex,
        validator: &TagValidator,
        store: &mut MessageStore,
        chat_id: i64,
        message_id: i32,
        text: Option<&str>,
        now: i64,
    ) -> (r: Result<HandleChat, Error>)
        requires
            index.wf(),
            old(store).wf(),
            old(store).msgs().len() + old(self).buffer().len() <= u64::MAX,
        ensures
            final(store).wf(),
            match chat_decision(index, validator, old(self).buffer().len() as int, text_view(text)) {
                ChatDecision::RejectedTag(t) => final(self).buffer() == old(self).buffer()
                    && final(store).msgs() == old(store).msgs() && match r {
                    Err(Error::BadTag(raw)) => raw@ == t,
                    _ => false,
                },
                ChatDecision::Classified { count, regions, tags } => final(self).buffer().len() == 0
                    && final(store).msgs() == old(store).msgs() + classified_batch(
                    old(self).buffer(),
                    regions,
                    tags,
                    old(store).spec_next_id(),
                    now as int,
                ) && match r {
                    Ok(HandleChat::Saved { count: c, regions: rv, tags: tv }) => c == count
                        && views_of(rv@) == regions && views_of(tv@) == tags,
                    _ => false,
                },
                ChatDecision::RejectedRegion { token, matches } => final(self).buffer() == old(self).buffer() && final(store).msgs() == old(store).msgs() && match r {
                    Err(Error::BadRegion { region, matches: mv }) => region@ == token
                        && sorted_unique(views_of(mv@)) && views_of(mv@).to_set() == matches,
                    _ => false,
                },
                ChatDecision::Dropped => final(self).buffer() == old(self).buffer() && final(store).msgs() == old(
                    store,
                ).msgs() && r == Ok::<HandleChat, Error>(HandleChat::Ignored(message_id)),
                ChatDecision::Buffered => final(self).buffer() == old(self).buffer().push(
                    pending_view(chat_id as int, message_id as int),
                ) && final(store).msgs() == old(store).msgs() && match r {
                    Ok(HandleChat::Remembered(c)) => c == old(self).buffer().len() + 1,
                    _ => false,
                },
            },
    {
        let text_s = match text {
            Some(s) => s,
            None => {
                return Ok(self.remember(chat_id, message_id));
            },
        };
        let ghost ts = tokens_of(text_s@);
        let ghost k = region_prefix_len(ts);
        let mut finalize_regions: Option<Vec<String>> = None;
        let mut tag_tokens: Option<Vec<String>> = None;
        match parse_chat_line(text_s) {
            Some(cl) => {
                match cl.regions {
                    Some(rtoks) => {
                        assert(views_of(rtoks@) == ts.take(k));
                        match index.resolve_list(&rtoks) {
                            Regions::Regions(cv) => {
                                finalize_regions = Some(cv);
                                tag_tokens = cl.tags;
                            },
                            _ => {},
                        }
                    },
                    None => {},
                }
            },
            None => {},
        }
        let ghost rr = resolve_tokens(
            index.spec_pairs(),
            index.spec_keyword(),
            index.spec_codes(),
            ts.take(k),
        );
        match finalize_regions {
            Some(cv) => {
                assert(chat_line_matches(ts) && k > 0 && rr is Picked);
                assert(views_of(cv@) == rr->Picked_0);
                let tag_list: Vec<String> = match tag_tokens {
                    Some(ttoks) => {
                        assert(views_of(ttoks@) == ts.skip(k));
                        match validator.resolve_list(&ttoks) {
                            Tags::Tags(tv) => tv,
                            Tags::BadTag(t) => {
                                return Err(Error::BadTag(t));
                            },
                        }
                    },
                    None => {
                        assert(k == ts.len());
                        let e: Vec<String> = Vec::new();
                        assert(views_of(e@) =~= Seq::<Seq<char>>::empty());
                        e
                    },
                };
                let ghost g_regions = views_of(cv@);
                let ghost g_tags = views_of(tag_list@);
                let count = self.messages.len();
                assert(count == self.buffer().len());
                if count > 0 {
                    let batch = self.build_batch(&cv, &tag_list);
                    proof {
                        crate::catalog::lemma_picked_codes_known(
                            index,
                            ts.take(k),
                            g_regions,
                        );
                        crate::tags::lemma_tagged_known(
                            validator,
                            ts.skip(k),
                            g_tags,
                        );
                        lemma_uniform_batch_valid(
                            index.spec_codes(),
                            validator.spec_tags(),
                            new_msg_views(batch@),
                            g_regions,
                            g_tags,
                        );
                        crate::catalog::lemma_picked_len(
                            index.spec_pairs(),
                            index.spec_keyword(),
                            index.spec_codes(),
                            ts.take(k),
                            g_regions,
                        );
                        assert(g_regions.len() == k);
                        assert forall|j: int| 0 <= j < batch@.len() implies (#[trigger] batch@[j]@).regions.len()
                            > 0 by {
                            assert(batch@[j]@ == new_msg_views(batch@)[j]);
                        }
                    }
                    let res = store.insert_messages(index, validator, &batch, now);
                    match res {
                        Ok(()) => {},
                        Err(e) => {
                            proof {
                                assert(false);
                            }
                            return Err(e);
                        },
                    }
                    proof {
                        assert(vstd::seq::Seq::new(
                            new_msg_views(batch@).len(),
                            |i: int|
                                crate::store::stamped(
                                    new_msg_views(batch@)[i],
                                    old(store).spec_next_id() + i,
                                    now as int,
                                ),
                        ) =~= classified_batch(
                            old(self).buffer(),
                            g_regions,
                            g_tags,
                            old(store).spec_next_id(),
                            now as int,
                        ));
                    }
                    self.messages = Vec::new();
                    assert(self.buffer() =~= Seq::<NewMsgView>::empty());
                } else {
                    proof {
                        assert(classified_batch(
                            old(self).buffer(),
                            g_regions,
                            g_tags,
                            old(store).spec_next_id(),
                            now as int,
                        ) =~= Seq::<MsgView>::empty());
                        assert(old(store).msgs() + Seq::<MsgView>::empty() =~= old(store).msgs());
                    }
                }
                return Ok(HandleChat::Saved { count, regions: cv, tags: tag_list });
            },
            None => {},
        }
        let n_chars = text_s.unicode_len();
        if 0 < n_chars && n_chars < 20 {
            match index.extract_regions(text_s) {
                Regions::BadRegion { region, matches } => {
                    return Err(Error::BadRegion { region, matches });
                },
                _ => {
                    return Ok(HandleChat::Ignored(message_id));
                },
            }
        }
        Ok(self.remember(chat_id, message_id))
    }

    /// Append one pending message and answer with the new count.
    fn remember(&mut self, chat_id: i64, message_id: i32) -> (r: HandleChat)
        ensures
            final(self).buffer() == old(self).buffer().push(
                pending_view(chat_id as int, message_id as int),
            ),
            match r {
                HandleChat::Remembered(c) => c == old(self).buffer().len() + 1,
                _ => false,
            },
    {
        let ghost pre = self.messages@;
        self.messages.push(
            NewMessage { regions: Vec::new(), chat_id, message_id, tags: Vec::new() },
        );
        proof {
            assert(new_msg_views(pre).len() == pre.len());
            assert(self.buffer().len() == self.messages@.len());
            assert(forall|q: int|
                0 <= q < pre.len() ==> #[trigger] self.buffer()[q] == new_msg_views(pre)[q]);
            assert(self.buffer()[pre.len() as int].regions =~= Seq::<Seq<char>>::empty());
            assert(self.buffer()[pre.len() as int].tags =~= Seq::<Seq<char>>::empty());
            assert(self.buffer()[pre.len() as int] == pending_view(
                chat_id as int,
                message_id as int,
            ));
            assert(self.buffer() =~= new_msg_views(pre).push(
                pending_view(chat_id as int, message_id as int),
            ));
        }
        HandleChat::Remembered(self.messages.len())
    }

    /// The buffer stamped with one region list and one tag list, in order.
    fn build_batch(&self, regions: &Vec<String>, tags: &Vec<String>) -> (r: Vec<NewMessage>)
        ensures
            new_msg_views(r@) == Seq::new(
                self.buffer().len(),
                |i: int|
                    NewMsgView {
                        regions: views_of(regions@),
                        chat_id: self.buffer()[i].chat_id,
                        message_id: self.buffer()[i].message_id,
                        tags: views_of(tags@),
                    },
            ),
    {
        let ghost target = Seq::new(
            self.buffer().len(),
            |i: int|
                NewMsgView {
                    regions: views_of(regions@),
                    chat_id: self.buffer()[i].chat_id,
                    message_id: self.buffer()[i].message_id,
                    tags: views_of(tags@),
                },
        );
        let n = self.messages.len();
        let mut r: Vec<NewMessage> = Vec::new();
        let mut i: usize = 0;
        assert(new_msg_views(r@) =~= target.take(0));
        while i < n
            invariant
                i <= n,
                n == self.messages@.len(),
                target == Seq::new(
                    self.buffer().len(),
                    |j: int|
                        NewMsgView {
                            regions: views_of(regions@),
                            chat_id: self.buffer()[j].chat_id,
                            message_id: self.buffer()[j].message_id,
                            tags: views_of(tags@),
                        },
                ),
                new_msg_views(r@) == target.take(i as int),
            decreases n - i,
        {
            let m = &self.messages[i];
            let stamped_msg = NewMessage {
                regions: crate::catalog::clone_strings(regions),
                chat_id: m.chat_id,
                message_id: m.message_id,
                tags: crate::catalog::clone_strings(tags),
            };
            let ghost pre = r@;
            r.push(stamped_msg);
            proof {
                assert(new_msg_views(r@).len() == r@.len());
                assert(new_msg_views(pre).len() == pre.len());
                assert(forall|q: int|
                    0 <= q < pre.len() ==> #[trigger] new_msg_views(r@)[q] == new_msg_views(
                        pre,
                    )[q]);
                assert(self.buffer()[i as int] == self.messages@[i as int]@);
                assert(new_msg_views(r@)[pre.len() as int] == target[i as int]);
                assert(new_msg_views(r@) =~= target.take(i + 1));
            }
            i += 1;
        }
        assert(target.take(n as int) =~= target);
        r
    }
}

/// A value list all of whose entries the catalog knows has no first
/// unknown.
proof fn lemma_first_not_in_none(all: Seq<Seq<char>>, xs: Seq<Seq<char>>)
    requires
        forall|k: int| 0 <= k < xs.len() ==> all.contains(#[trigger] xs[k]),
    ensures
        first_not_in(all, xs) is None,
    decreases xs.len(),
{
    if xs.len() > 0 {
        assert(forall|k: int| 0 <= k < xs.drop_first().len() ==> xs.drop_first()[k] == xs[k + 1]);
        lemma_first_not_in_none(all, xs.drop_first());
    }
}

/// A batch whose messages all carry one cataloged region list and one
/// cataloged tag list passes validation.
proof fn lemma_uniform_batch_valid(
    all_regions: Seq<Seq<char>>,
    all_tags: Seq<Seq<char>>,
    ms: Seq<NewMsgView>,
    regions: Seq<Seq<char>>,
    tags: Seq<Seq<char>>,
)
    requires
        forall|k: int| 0 <= k < regions.len() ==> all_regions.contains(#[trigger] regions[k]),
        forall|k: int| 0 <= k < tags.len() ==> all_tags.contains(#[trigger] tags[k]),
        forall|j: int|
            0 <= j < ms.len() ==> (#[trigger] ms[j]).regions == regions && ms[j].tags == tags,
    ensures
        batch_bad_region(all_regions, ms) is None,
        batch_bad_tag(all_tags, ms) is None,
    decreases ms.len(),
{
    if ms.len() > 0 {
        lemma_first_not_in_none(all_regions, ms[0].regions);
        lemma_first_not_in_none(all_tags, ms[0].tags);
        assert(forall|j: int| 0 <= j < ms.drop_first().len() ==> ms.drop_first()[j] == ms[j + 1]);
        lemma_uniform_batch_valid(all_regions, all_tags, ms.drop_first(), regions, tags);
    }
}

} // verus!
