//! Chunked, unbounded-append message store.
//!
//! A channel's history is sliced into chunks, paths `category/channel/k` for
//! k = 0, 1, 2, ... . The current write/read frontier is discovered by a
//! linear scan from chunk 0: the first chunk with no links. The scan is
//! redone from zero on every call and has no cache; that cost is accepted
//! for the admin/debug endpoints that use it.

use vstd::prelude::*;
use crate::seq_util::{
    lemma_filter_all_false, lemma_filter_congruent, lemma_filter_disjoint_union, lemma_filter_push,
};
use crate::store::{
    has_path, info_links, link_ok, links_at, msg_links, node_links, path_id, sel_match, wf,
    LinkEdge, LinkSelector, LinkV, PathKey, PathV, RecordV, Store, StoreV, StoredRecord, Tag,
    TagV,
};
use crate::types::{
    copy_channel, copy_message, ChatError, Channel, ChannelV, IdentityKey, Message, MessageData,
    MessageV, Timestamp,
};
use crate::validation::MAX_MESSAGE_BYTES;

verus! {

/// All links on one chunk of a channel's history.
pub open spec fn chunk_links(s: StoreV, ch: ChannelV, k: u32) -> Seq<LinkV> {
    node_links(s, PathV::Chunk(ch, k))
}

/// Message links on one chunk of a channel's history.
pub open spec fn chunk_msg_links(s: StoreV, ch: ChannelV, k: u32) -> Seq<LinkV> {
    if has_path(s, PathV::Chunk(ch, k)) {
        msg_links(s, path_id(s, PathV::Chunk(ch, k)))
    } else {
        Seq::empty()
    }
}

/// `n` is the write/read frontier: the first chunk holding no links.
pub open spec fn is_frontier(s: StoreV, ch: ChannelV, n: u32) -> bool {
    &&& chunk_links(s, ch, n).len() == 0
    &&& forall|i: u32| i < n ==> chunk_links(s, ch, i).len() > 0
}

/// The frontier, where one exists.
pub open spec fn frontier_of(s: StoreV, ch: ChannelV) -> u32 {
    choose|n: u32| is_frontier(s, ch, n)
}

/// The frontier is unique: chunk discovery is a function of the store alone,
/// so discovering it twice with no intervening writes gives the same index.
pub proof fn lemma_frontier_unique(s: StoreV, ch: ChannelV, n1: u32, n2: u32)
    requires
        is_frontier(s, ch, n1),
        is_frontier(s, ch, n2),
    ensures
        n1 == n2,
{
    if n1 < n2 {
        assert(chunk_links(s, ch, n1).len() > 0);
    }
    if n2 < n1 {
        assert(chunk_links(s, ch, n2).len() > 0);
    }
}

/// Whether a link sits on one of the first `n` chunks of a channel.
pub open spec fn on_early_chunk(s: StoreV, ch: ChannelV, n: u32, l: LinkV) -> bool {
    exists|k: u32|
        k < n && has_path(s, PathV::Chunk(ch, k)) && l.source == #[trigger] path_id(
            s,
            PathV::Chunk(ch, k),
        )
}

/// How many links sit on the first `n` chunks.
pub open spec fn early_chunk_link_count(s: StoreV, ch: ChannelV, n: u32) -> nat {
    s.links.filter(|l: LinkV| on_early_chunk(s, ch, n, l)).len()
}

/// Adding one more nonempty chunk to the window grows the count by at least
/// that chunk's links: chunk paths are distinct, so their link sets are
/// disjoint.
pub proof fn lemma_early_count_step(s: StoreV, ch: ChannelV, n: u32)
    requires
        wf(s),
        n < u32::MAX,
        chunk_links(s, ch, n).len() > 0,
    ensures
        early_chunk_link_count(s, ch, (n + 1) as u32) >= early_chunk_link_count(s, ch, n)
            + chunk_links(s, ch, n).len(),
{
    assert(has_path(s, PathV::Chunk(ch, n)));
    let id_n = path_id(s, PathV::Chunk(ch, n));
    let p = |l: LinkV| on_early_chunk(s, ch, n, l);
    let q = |l: LinkV| l.source == id_n;
    let u = |l: LinkV| on_early_chunk(s, ch, (n + 1) as u32, l);
    assert forall|l: LinkV| #[trigger] u(l) == (p(l) || q(l)) by {
        if u(l) {
            let k = choose|k: u32|
                k < n + 1 && has_path(s, PathV::Chunk(ch, k)) && l.source == #[trigger] path_id(
                    s,
                    PathV::Chunk(ch, k),
                );
            if k < n {
                assert(p(l));
            } else {
                assert(q(l));
            }
        }
        if p(l) {
            let k = choose|k: u32|
                k < n && has_path(s, PathV::Chunk(ch, k)) && l.source == #[trigger] path_id(
                    s,
                    PathV::Chunk(ch, k),
                );
            assert(k < n + 1);
            assert(u(l));
        }
        if q(l) {
            assert((n as u32) < n + 1 && has_path(s, PathV::Chunk(ch, n)) && l.source == path_id(
                s,
                PathV::Chunk(ch, n),
            ));
            assert(u(l));
        }
    }
    assert forall|l: LinkV| !(#[trigger] p(l) && q(l)) by {
        if p(l) && q(l) {
            let k = choose|k: u32|
                k < n && has_path(s, PathV::Chunk(ch, k)) && l.source == #[trigger] path_id(
                    s,
                    PathV::Chunk(ch, k),
                );
            assert(s.paths[path_id(s, PathV::Chunk(ch, k))] == PathV::Chunk(ch, k));
            assert(s.paths[id_n] == PathV::Chunk(ch, n));
            assert(path_id(s, PathV::Chunk(ch, k)) != id_n);
        }
    }
    lemma_filter_disjoint_union(s.links, p, q, u);
    assert(chunk_links(s, ch, n) == links_at(s, id_n));
    lemma_filter_congruent(s.links, |l: LinkV| l.source == id_n, q);
}

/// The early-chunk link count never exceeds the store's link count.
pub proof fn lemma_early_count_bound(s: StoreV, ch: ChannelV, n: u32)
    ensures
        early_chunk_link_count(s, ch, n) <= s.links.len(),
{
    Seq::<LinkV>::lemma_filter_len(s.links, |l: LinkV| on_early_chunk(s, ch, n, l));
}

impl Store {
    /// The link edges of one chunk, in store order: empty if the chunk path
    /// was never materialized.
    pub fn chunk_link_edges(&self, channel: &Channel, chunk: u32) -> (r: Vec<LinkEdge>)
        requires
            wf(self@),
        ensures
            r.deep_view() == chunk_links(self@, channel@, chunk),
    {
        let key = PathKey::Chunk(copy_channel(channel), chunk);
        let found = self.lookup_path(&key);
        match found {
            Option::Some(id) => {
                let r = self.get_links(id, LinkSelector::AllLinks);
                proof {
                    Store::lemma_lookup_is_path_id(self@, key@, id as int);
                    lemma_filter_congruent(
                        self@.links,
                        |l: LinkV| sel_match(LinkSelector::AllLinks, id as int, l),
                        |l: LinkV| l.source == path_id(self@, PathV::Chunk(channel@, chunk)),
                    );
                }
                r
            },
            Option::None => {
                proof {
                    assert(chunk_links(self@, channel@, chunk) =~= Seq::<LinkV>::empty());
                }
                Vec::new()
            },
        }
    }

    /// The message links of one chunk, in store order.
    pub fn chunk_message_links(&self, channel: &Channel, chunk: u32) -> (r: Vec<LinkEdge>)
        requires
            wf(self@),
        ensures
            r.deep_view() == chunk_msg_links(self@, channel@, chunk),
    {
        let key = PathKey::Chunk(copy_channel(channel), chunk);
        let found = self.lookup_path(&key);
        match found {
            Option::Some(id) => {
                let r = self.get_links(id, LinkSelector::MsgLinks);
                proof {
                    Store::lemma_lookup_is_path_id(self@, key@, id as int);
                    lemma_filter_congruent(
                        self@.links,
                        |l: LinkV| sel_match(LinkSelector::MsgLinks, id as int, l),
                        |l: LinkV| l.source == path_id(self@, PathV::Chunk(channel@, chunk))
                            && l.tag is MessageMarker,
                    );
                }
                r
            },
            Option::None => {
                proof {
                    assert(chunk_msg_links(self@, channel@, chunk) =~= Seq::<LinkV>::empty());
                }
                Vec::new()
            },
        }
    }
}

/// Discover the current frontier of a channel by the linear scan from chunk
/// zero. Pure: two calls on the same store return the same index.
pub fn discover_frontier(store: &Store, channel: &Channel) -> (r: u32)
    requires
        wf(store@),
        store@.links.len() < u32::MAX as nat,
    ensures
        is_frontier(store@, channel@, r),
{
    let mut chunk: u32 = 0;
    loop
        invariant
            wf(store@),
            store@.links.len() < u32::MAX as nat,
            forall|i: u32| i < chunk ==> chunk_links(store@, channel@, i).len() > 0,
            early_chunk_link_count(store@, channel@, chunk) >= chunk,
        decreases store@.links.len() - chunk,
    {
        proof {
            lemma_early_count_bound(store@, channel@, chunk);
        }
        let links = store.chunk_link_edges(channel, chunk);
        if links.len() == 0 {
            proof {
                assert(links.deep_view().len() == 0);
            }
            return chunk;
        }
        proof {
            assert(chunk_links(store@, channel@, chunk).len() > 0);
            lemma_early_count_step(store@, channel@, chunk);
            lemma_early_count_bound(store@, channel@, (chunk + 1) as u32);
        }
        chunk = chunk + 1;
    }
}

/// The message payloads reachable from a sequence of links, in link order;
/// targets that are not message records are skipped.
pub open spec fn msgs_of(s: StoreV, ls: Seq<LinkV>) -> Seq<MessageV>
    decreases ls.len(),
{
    if ls.len() == 0 {
        Seq::empty()
    } else {
        let rest = msgs_of(s, ls.drop_last());
        let l = ls.last();
        if 0 <= l.target < s.records.len() {
            match s.records[l.target] {
                RecordV::Msg(m) => rest.push(m),
                RecordV::Info(_) => rest,
            }
        } else {
            rest
        }
    }
}

/// The messages of one chunk of a channel, in the store's native link order.
/// No ordering beyond that is guaranteed; causal ordering, if required, must
/// be layered by the caller using record timestamps.
pub fn list_messages(store: &Store, channel: &Channel, chunk: u32) -> (r: Vec<Message>)
    requires
        wf(store@),
    ensures
        r.deep_view() == msgs_of(store@, chunk_msg_links(store@, channel@, chunk)),
{
    let links = store.chunk_message_links(channel, chunk);
    let ghost ls = chunk_msg_links(store@, channel@, chunk);
    let mut out: Vec<Message> = Vec::new();
    let mut i: usize = 0;
    while i < links.len()
        invariant
            i <= links@.len(),
            links.deep_view() == ls,
            out.deep_view() == msgs_of(store@, ls.take(i as int)),
        decreases links@.len() - i,
    {
        proof {
            assert(ls.take(i + 1).drop_last() =~= ls.take(i as int));
            assert(ls.take(i + 1).last() == ls[i as int]);
            assert(links@[i as int]@ == ls[i as int]);
        }
        let l = &links[i];
        if l.target < store.records.len() {
            let rec = &store.records[l.target];
            match rec {
                StoredRecord::Msg(m) => {
                    let c = copy_message(m);
                    out.push(c);
                    proof {
                        assert(out.deep_view() =~= msgs_of(store@, ls.take(i + 1)));
                    }
                },
                StoredRecord::Info(_) => {
                    proof {
                        assert(store@.records[ls[i as int].target] is Info);
                    }
                },
            }
        }
        i += 1;
    }
    proof {
        assert(ls.take(ls.len() as int) =~= ls);
    }
    out
}

/// Store a message record and link it under the designated chunk of the
/// channel, materializing the chunk path as needed.
///
/// Content over [`MAX_MESSAGE_BYTES`] is rejected with `ContentTooLarge` and
/// the store is untouched; admissible content is always stored, appended to
/// exactly that chunk's message links and to nothing else.
pub fn create_message(
    store: &mut Store,
    channel: &Channel,
    chunk: u32,
    content: Vec<u8>,
    author: IdentityKey,
    now: Timestamp,
) -> (r: Result<MessageData, ChatError>)
    requires
        wf(old(store)@),
    ensures
        wf(final(store)@),
        final(store)@.links.len() <= old(store)@.links.len() + 3,
        content@.len() > MAX_MESSAGE_BYTES ==> r == Result::<MessageData, ChatError>::Err(
            ChatError::ContentTooLarge,
        ) && final(store)@ == old(store)@,
        content@.len() <= MAX_MESSAGE_BYTES ==> {
            &&& r is Ok
            &&& r->Ok_0.message@.content == content@
            &&& r->Ok_0.created_by == author
            &&& r->Ok_0.created_at == now
            &&& r->Ok_0.record_hash == old(store)@.records.len()
            &&& final(store)@.records == old(store)@.records.push(
                RecordV::Msg(MessageV { content: content@ }),
            )
            &&& chunk_msg_links(final(store)@, channel@, chunk) == chunk_msg_links(
                old(store)@,
                channel@,
                chunk,
            ).push(
                LinkV {
                    source: path_id(final(store)@, PathV::Chunk(channel@, chunk)),
                    target: old(store)@.records.len() as int,
                    tag: TagV::MessageMarker,
                    timestamp: now,
                },
            )
            &&& forall|c: ChannelV, k: u32|
                !(c == channel@ && k == chunk) ==> chunk_msg_links(final(store)@, c, k)
                    == chunk_msg_links(old(store)@, c, k)
            &&& forall|src: int| info_links(final(store)@, src) == info_links(old(store)@, src)
            &&& has_path(final(store)@, PathV::Chunk(channel@, chunk))
        },
{
    if content.len() > MAX_MESSAGE_BYTES {
        return Result::Err(ChatError::ContentTooLarge);
    }
    let ghost s0 = store@;
    let chunk_id = store.ensure_chunk(channel, chunk, now);
    let ghost s1 = store@;
    let message = Message { content };
    let m2 = copy_message(&message);
    let rec = store.put_record(StoredRecord::Msg(message));
    let ghost s2 = store@;
    store.create_record_link(chunk_id, rec, Tag::MessageMarker, now);
    let ghost s3 = store@;
    proof {
        let ckv = PathV::Chunk(channel@, chunk);
        let lv = LinkV {
            source: chunk_id as int,
            target: rec as int,
            tag: TagV::MessageMarker,
            timestamp: now,
        };
        assert(s3.links == s1.links.push(lv));
        // The freshly linked chunk's message links grow by exactly this link.
        assert(msg_links(s3, chunk_id as int) == msg_links(s1, chunk_id as int).push(lv)) by {
            lemma_filter_push(
                s1.links,
                |l: LinkV| l.source == chunk_id as int && l.tag is MessageMarker,
                lv,
            );
        }
        assert(path_id(s3, ckv) == chunk_id);
        if !has_path(s0, ckv) {
            // A fresh chunk node starts with no message links: every link of
            // the old store originates at an old path, and the fresh node's
            // hash lies beyond them all.
            if (chunk_id as int) < s0.paths.len() {
                assert(s0.paths[chunk_id as int] == s1.paths[chunk_id as int]);
                assert(has_path(s0, ckv));
            }
            let mpred = |l: LinkV| l.source == chunk_id as int && l.tag is MessageMarker;
            assert forall|k: int| 0 <= k < s0.links.len() implies !mpred(#[trigger] s0.links[k]) by {
                assert(link_ok(s0, s0.links[k]));
            }
            lemma_filter_all_false(s0.links, mpred);
            assert(msg_links(s0, chunk_id as int).len() == 0);
            assert(msg_links(s1, chunk_id as int) == msg_links(s0, chunk_id as int));
            assert(chunk_msg_links(s0, channel@, chunk) =~= Seq::<LinkV>::empty());
            assert(chunk_msg_links(s3, channel@, chunk) =~= chunk_msg_links(
                s0,
                channel@,
                chunk,
            ).push(lv));
        } else {
            assert(path_id(s0, ckv) == chunk_id as int);
            assert(msg_links(s1, chunk_id as int) == msg_links(s0, chunk_id as int));
        }
        // Message links of every other chunk are untouched.
        assert forall|c: ChannelV, k: u32|
            !(c == channel@ && k == chunk) implies #[trigger] chunk_msg_links(s3, c, k)
            == chunk_msg_links(s0, c, k) by {
            let pv = PathV::Chunk(c, k);
            assert(pv != PathV::Chunk(channel@, chunk));
            if has_path(s0, pv) {
                let pid = path_id(s0, pv);
                assert(has_path(s3, pv) && path_id(s3, pv) == pid);
                assert(s3.paths[pid] == pv);
                assert(pid != chunk_id as int);
                lemma_filter_push(
                    s1.links,
                    |l: LinkV| l.source == pid && l.tag is MessageMarker,
                    lv,
                );
                assert(msg_links(s1, pid) == msg_links(s0, pid));
            } else {
                if has_path(s3, pv) {
                    assert(pv == PathV::Chunk(channel@, chunk) || pv == PathV::Channel(channel@)
                        || pv == PathV::Category(channel@.category));
                }
                assert(chunk_msg_links(s3, c, k) =~= Seq::<LinkV>::empty());
                assert(chunk_msg_links(s0, c, k) =~= Seq::<LinkV>::empty());
            }
        }
        // Channel-info links are untouched everywhere.
        assert forall|src: int| #[trigger] info_links(s3, src) == info_links(s0, src) by {
            lemma_filter_push(s1.links, |l: LinkV| l.source == src && l.tag is InfoMarker, lv);
            assert(info_links(s1, src) == info_links(s0, src));
        }
    }
    Result::Ok(MessageData { message: m2, record_hash: rec, created_by: author, created_at: now })
}

} // verus!
