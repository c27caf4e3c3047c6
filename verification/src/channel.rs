//! Channel directory: creation and latest-wins metadata resolution.
//!
//! A channel is not stored as a record of its own; it is implied by its path
//! plus at least one `ChannelInfo` linked to it. Creation never checks
//! uniqueness: two concurrent creators both succeed and leave two info
//! records on the same path, resolved at read time by picking the link with
//! the greatest timestamp (earliest-seen wins a tie).

use vstd::prelude::*;
use crate::message::{
    chunk_links, frontier_of, is_frontier, lemma_early_count_bound, lemma_early_count_step,
    early_chunk_link_count, lemma_frontier_unique,
};
use crate::seq_util::{lemma_filter_all_false, lemma_filter_congruent, lemma_filter_push};
use crate::store::{
    copy_link, child_links, child_links_tagged, has_path, info_links, link_ok, msg_links, path_id,
    sel_match, selected_links, wf, LinkEdge, LinkSelector, LinkV, PathKey, PathV, RecordV, Store,
    StoreV, StoredRecord, Tag, TagV,
};
use crate::types::{
    copy_bytes, copy_channel, copy_info, Channel, ChannelData, ChannelDataV, ChannelInfo,
    ChannelInfoV, ChannelV, IdentityKey, Timestamp,
};

verus! {

/// Whether a link edge announces a channel of this category.
pub open spec fn is_channel_child(cat: Seq<u8>, l: LinkV) -> bool {
    match l.tag {
        TagV::ChildPath(PathV::Channel(ch)) => ch.category == cat,
        _ => false,
    }
}

/// The channels a category path can enumerate, in store order.
pub open spec fn category_children(s: StoreV, cat: Seq<u8>) -> Seq<LinkV> {
    s.links.filter(|l: LinkV| is_channel_child(cat, l))
}

/// The info links of a channel; empty while its path is unmaterialized.
pub open spec fn node_info_links(s: StoreV, ch: ChannelV) -> Seq<LinkV> {
    if has_path(s, PathV::Channel(ch)) {
        info_links(s, path_id(s, PathV::Channel(ch)))
    } else {
        Seq::empty()
    }
}

/// The child links of a channel path (its chunks); empty while
/// unmaterialized.
pub open spec fn node_child_links(s: StoreV, ch: ChannelV) -> Seq<LinkV> {
    if has_path(s, PathV::Channel(ch)) {
        child_links(s, path_id(s, PathV::Channel(ch)))
    } else {
        Seq::empty()
    }
}

/// Latest-wins selection over a link sequence: the greatest timestamp, ties
/// broken for the earliest link seen.
pub open spec fn latest_of(ls: Seq<LinkV>) -> Option<LinkV>
    decreases ls.len(),
{
    if ls.len() == 0 {
        Option::None
    } else {
        match latest_of(ls.drop_last()) {
            Option::None => Option::Some(ls.last()),
            Option::Some(p) => if ls.last().timestamp > p.timestamp {
                Option::Some(ls.last())
            } else {
                Option::Some(p)
            },
        }
    }
}

/// The channel metadata a reader resolves: the record behind the winning
/// info link, or nothing when the channel has no info links or the winning
/// record is not channel info.
pub open spec fn resolve_info(s: StoreV, ch: ChannelV) -> Option<ChannelInfoV> {
    match latest_of(node_info_links(s, ch)) {
        Option::None => Option::None,
        Option::Some(l) => if 0 <= l.target < s.records.len() {
            match s.records[l.target] {
                RecordV::Info(i) => Option::Some(i),
                RecordV::Msg(_) => Option::None,
            }
        } else {
            Option::None
        },
    }
}

/// The greatest chunk index among chunk child links; 0 with no chunks.
pub open spec fn max_chunk_of(ls: Seq<LinkV>) -> u32
    decreases ls.len(),
{
    if ls.len() == 0 {
        0
    } else {
        let m = max_chunk_of(ls.drop_last());
        match ls.last().tag {
            TagV::ChildPath(PathV::Chunk(_, k)) => if k > m {
                k
            } else {
                m
            },
            _ => m,
        }
    }
}

/// The highest chunk index reachable from a channel's path.
pub open spec fn latest_chunk_of(s: StoreV, ch: ChannelV) -> u32 {
    max_chunk_of(node_child_links(s, ch))
}

/// The directory entry a channel resolves to, if any.
pub open spec fn entry_for(s: StoreV, ch: ChannelV) -> Option<ChannelDataV> {
    match resolve_info(s, ch) {
        Option::Some(i) => Option::Some(
            ChannelDataV { channel: ch, info: i, latest_chunk: latest_chunk_of(s, ch) },
        ),
        Option::None => Option::None,
    }
}

/// The entry contributed by one enumerated link.
pub open spec fn entry_of(s: StoreV, l: LinkV) -> Option<ChannelDataV> {
    match l.tag {
        TagV::ChildPath(PathV::Channel(ch)) => entry_for(s, ch),
        _ => Option::None,
    }
}

/// The listing built from a sequence of enumerated links: channels that
/// resolve no entry are skipped, the rest keep enumeration order.
pub open spec fn listing_of(s: StoreV, ls: Seq<LinkV>) -> Seq<ChannelDataV>
    decreases ls.len(),
{
    if ls.len() == 0 {
        Seq::empty()
    } else {
        let rest = listing_of(s, ls.drop_last());
        match entry_of(s, ls.last()) {
            Option::Some(e) => rest.push(e),
            Option::None => rest,
        }
    }
}

/// What `list_channels` returns on a category.
pub open spec fn channel_listing(s: StoreV, cat: Seq<u8>) -> Seq<ChannelDataV> {
    listing_of(s, category_children(s, cat))
}

/// Under well-formedness, scanning the child links of a category path is the
/// same as collecting every channel child link of that category.
pub proof fn lemma_category_children_eq(s: StoreV, cat: Seq<u8>)
    requires
        wf(s),
    ensures
        has_path(s, PathV::Category(cat)) ==> selected_links(
            s,
            path_id(s, PathV::Category(cat)),
            LinkSelector::ChildLinks,
        ) == category_children(s, cat),
        !has_path(s, PathV::Category(cat)) ==> category_children(s, cat) == Seq::<LinkV>::empty(),
{
    let catv = PathV::Category(cat);
    let ccp = |l: LinkV| is_channel_child(cat, l);
    if has_path(s, catv) {
        let cid = path_id(s, catv);
        assert(s.paths[cid] == catv);
        assert forall|k: int| 0 <= k < s.links.len() implies sel_match(
            LinkSelector::ChildLinks,
            cid,
            #[trigger] s.links[k],
        ) == ccp(s.links[k]) by {
            let l = s.links[k];
            assert(link_ok(s, l));
            if sel_match(LinkSelector::ChildLinks, cid, l) {
                match l.tag {
                    TagV::ChildPath(c) => {
                        assert(parent_of_is_category(c, cat));
                    },
                    _ => {},
                }
            }
            if ccp(l) {
                match l.tag {
                    TagV::ChildPath(c) => {
                        assert(crate::store::parent_of(c) == Option::Some(catv));
                        assert(s.paths[l.source] == catv);
                        Store::lemma_lookup_is_path_id(s, catv, l.source);
                    },
                    _ => {},
                }
            }
        }
        lemma_filter_congruent(
            s.links,
            |l: LinkV| sel_match(LinkSelector::ChildLinks, cid, l),
            ccp,
        );
    } else {
        assert forall|k: int| 0 <= k < s.links.len() implies !ccp(#[trigger] s.links[k]) by {
            let l = s.links[k];
            assert(link_ok(s, l));
            if ccp(l) {
                assert(s.paths[l.source] == catv);
            }
        }
        lemma_filter_all_false(s.links, ccp);
        assert(category_children(s, cat) =~= Seq::<LinkV>::empty());
    }
}

/// A child link of a category path carries a channel of that category.
spec fn parent_of_is_category(c: PathV, cat: Seq<u8>) -> bool {
    crate::store::parent_of(c) == Option::Some(PathV::Category(cat)) ==> is_channel_child(
        cat,
        LinkV { source: 0, target: 0, tag: TagV::ChildPath(c), timestamp: 0 },
    )
}

/// Create a channel: ensure its path, store the info record, link it to the
/// path under the channel-info marker.
///
/// Exactly one info link is appended, on this channel and no other; no
/// message or chunk state changes, so a fresh channel reports chunk 0.
pub fn create_channel(
    store: &mut Store,
    channel: Channel,
    name: Vec<u8>,
    author: IdentityKey,
    now: Timestamp,
) -> (r: ChannelData)
    requires
        wf(old(store)@),
    ensures
        wf(final(store)@),
        r.channel@ == channel@,
        r.info@ == (ChannelInfoV { created_by: author, created_at: now, name: name@ }),
        r.latest_chunk == 0,
        final(store)@.records == old(store)@.records.push(RecordV::Info(r.info@)),
        final(store)@.links.len() <= old(store)@.links.len() + 2,
        has_path(final(store)@, PathV::Channel(channel@)),
        node_info_links(final(store)@, channel@) == node_info_links(old(store)@, channel@).push(
            LinkV {
                source: path_id(final(store)@, PathV::Channel(channel@)),
                target: old(store)@.records.len() as int,
                tag: TagV::InfoMarker,
                timestamp: now,
            },
        ),
        forall|c: ChannelV|
            c != channel@ ==> node_info_links(final(store)@, c) == node_info_links(old(store)@, c),
        node_child_links(final(store)@, channel@) == node_child_links(old(store)@, channel@),
        forall|src: int| msg_links(final(store)@, src) == msg_links(old(store)@, src),
        forall|c: PathV|
            c != PathV::Channel(channel@) ==> child_links_tagged(final(store)@, c)
                == child_links_tagged(old(store)@, c),
        !has_path(old(store)@, PathV::Channel(channel@)) ==> child_links_tagged(
            final(store)@,
            PathV::Channel(channel@),
        ).len() == 1,
        has_path(old(store)@, PathV::Channel(channel@)) ==> child_links_tagged(
            final(store)@,
            PathV::Channel(channel@),
        ) == child_links_tagged(old(store)@, PathV::Channel(channel@)),
{
    let ghost s0 = store@;
    let chan_id = store.ensure_channel(&channel, now);
    let ghost s1 = store@;
    let info = ChannelInfo { created_by: author, created_at: now, name };
    let info_copy = copy_info(&info);
    let rec = store.put_record(StoredRecord::Info(info));
    let ghost s2 = store@;
    store.create_record_link(chan_id, rec, Tag::InfoMarker, now);
    let ghost s3 = store@;
    proof {
        let chv = PathV::Channel(channel@);
        let lv = LinkV {
            source: chan_id as int,
            target: rec as int,
            tag: TagV::InfoMarker,
            timestamp: now,
        };
        assert(s3.links == s1.links.push(lv));
        assert(info_links(s3, chan_id as int) == info_links(s1, chan_id as int).push(lv)) by {
            lemma_filter_push(
                s1.links,
                |l: LinkV| l.source == chan_id as int && l.tag is InfoMarker,
                lv,
            );
        }
        assert(path_id(s3, chv) == chan_id);
        if !has_path(s0, chv) {
            if (chan_id as int) < s0.paths.len() {
                assert(s0.paths[chan_id as int] == s1.paths[chan_id as int]);
                assert(has_path(s0, chv));
            }
            let ipred = |l: LinkV| l.source == chan_id as int && l.tag is InfoMarker;
            assert forall|k: int| 0 <= k < s0.links.len() implies !ipred(#[trigger] s0.links[k]) by {
                assert(link_ok(s0, s0.links[k]));
            }
            lemma_filter_all_false(s0.links, ipred);
            assert(info_links(s0, chan_id as int).len() == 0);
            assert(info_links(s1, chan_id as int) == info_links(s0, chan_id as int));
            assert(node_info_links(s0, channel@) =~= Seq::<LinkV>::empty());
            assert(node_info_links(s3, channel@) =~= node_info_links(s0, channel@).push(lv));
        } else {
            assert(path_id(s0, chv) == chan_id as int);
            assert(info_links(s1, chan_id as int) == info_links(s0, chan_id as int));
        }
        // Other channels' info links are untouched.
        assert forall|c: ChannelV|
            c != channel@ implies #[trigger] node_info_links(s3, c) == node_info_links(s0, c) by {
            let pv = PathV::Channel(c);
            assert(pv != chv);
            if has_path(s0, pv) {
                let pid = path_id(s0, pv);
                assert(has_path(s3, pv) && path_id(s3, pv) == pid);
                assert(s3.paths[pid] == pv);
                assert(pid != chan_id as int);
                lemma_filter_push(s1.links, |l: LinkV| l.source == pid && l.tag is InfoMarker, lv);
                assert(info_links(s1, pid) == info_links(s0, pid));
            } else {
                if has_path(s3, pv) {
                    assert(pv == chv || pv == PathV::Category(channel@.category));
                }
                assert(node_info_links(s3, c) =~= Seq::<LinkV>::empty());
                assert(node_info_links(s0, c) =~= Seq::<LinkV>::empty());
            }
        }
        // The channel's chunk listing is untouched: the one appended link is
        // an info link, and a fresh channel node has no child links at all.
        assert(child_links(s3, chan_id as int) == child_links(s1, chan_id as int)) by {
            lemma_filter_push(
                s1.links,
                |l: LinkV| l.source == chan_id as int && l.tag is ChildPath,
                lv,
            );
        }
        if !has_path(s0, chv) {
            let cpred = |l: LinkV| l.source == chan_id as int && l.tag is ChildPath;
            assert forall|k: int| 0 <= k < s0.links.len() implies !cpred(#[trigger] s0.links[k]) by {
                assert(link_ok(s0, s0.links[k]));
            }
            lemma_filter_all_false(s0.links, cpred);
            let catv = PathV::Category(channel@.category);
            let lv0 = LinkV {
                source: path_id(s1, catv),
                target: chan_id as int,
                tag: TagV::ChildPath(chv),
                timestamp: now,
            };
            assert(s1.links == s0.links.push(lv0));
            assert(s1.paths[path_id(s1, catv)] == catv);
            assert(!cpred(lv0));
            lemma_filter_push(s0.links, cpred, lv0);
            assert(child_links(s1, chan_id as int) == child_links(s0, chan_id as int));
            assert(node_child_links(s0, channel@) =~= Seq::<LinkV>::empty());
            assert(node_child_links(s3, channel@) =~= node_child_links(s0, channel@));
        } else {
            assert(child_links(s1, chan_id as int) == child_links(s0, chan_id as int));
        }
        // Message links are untouched everywhere.
        assert forall|src: int| #[trigger] msg_links(s3, src) == msg_links(s0, src) by {
            lemma_filter_push(s1.links, |l: LinkV| l.source == src && l.tag is MessageMarker, lv);
            assert(msg_links(s1, src) == msg_links(s0, src));
        }
        // Parent-link chains are untouched but for this channel's own.
        assert forall|c: PathV|
            c != chv implies #[trigger] child_links_tagged(s3, c) == child_links_tagged(s0, c) by {
            lemma_filter_push(s1.links, |l: LinkV| l.tag == TagV::ChildPath(c), lv);
            assert(child_links_tagged(s1, c) == child_links_tagged(s0, c));
        }
        lemma_filter_push(s1.links, |l: LinkV| l.tag == TagV::ChildPath(chv), lv);
        assert(child_links_tagged(s3, chv) == child_links_tagged(s1, chv));
    }
    ChannelData { channel, info: info_copy, latest_chunk: 0 }
}


/// The index of the winning (latest; earliest on tie) link, if any.
fn latest_link_index(links: &Vec<LinkEdge>) -> (r: Option<usize>)
    ensures
        match r {
            Option::Some(ix) => ix < links@.len() && latest_of(links.deep_view())
                == Option::Some(links.deep_view()[ix as int]),
            Option::None => links@.len() == 0,
        },
{
    if links.len() == 0 {
        return Option::None;
    }
    let ghost dv = links.deep_view();
    let mut cur: usize = 0;
    let mut j: usize = 1;
    proof {
        assert(dv.take(1).drop_last() =~= dv.take(0));
        assert(dv.take(0).len() == 0);
        assert(latest_of(dv.take(0)) == Option::<LinkV>::None);
        assert(dv.take(1).last() == dv[0]);
        assert(latest_of(dv.take(1)) == Option::Some(dv[0]));
    }
    while j < links.len()
        invariant
            1 <= j <= links@.len(),
            cur < j,
            dv == links.deep_view(),
            latest_of(dv.take(j as int)) == Option::Some(dv[cur as int]),
        decreases links@.len() - j,
    {
        proof {
            assert(dv.take(j + 1).drop_last() =~= dv.take(j as int));
            assert(dv.take(j + 1).last() == dv[j as int]);
            assert(links@[j as int]@ == dv[j as int]);
        }
        if links[j].timestamp > links[cur].timestamp {
            cur = j;
        }
        j += 1;
    }
    proof {
        assert(dv.take(dv.len() as int) =~= dv);
    }
    Option::Some(cur)
}

/// The greatest chunk index announced by these child links.
fn max_chunk_index(links: &Vec<LinkEdge>) -> (r: u32)
    ensures
        r == max_chunk_of(links.deep_view()),
{
    let ghost dv = links.deep_view();
    let mut mx: u32 = 0;
    let mut j: usize = 0;
    while j < links.len()
        invariant
            j <= links@.len(),
            dv == links.deep_view(),
            mx == max_chunk_of(dv.take(j as int)),
        decreases links@.len() - j,
    {
        proof {
            assert(dv.take(j + 1).drop_last() =~= dv.take(j as int));
            assert(dv.take(j + 1).last() == dv[j as int]);
            assert(links@[j as int]@ == dv[j as int]);
        }
        match &links[j].tag {
            Tag::ChildPath(PathKey::Chunk(_, k)) => {
                if *k > mx {
                    mx = *k;
                }
            },
            _ => {},
        }
        j += 1;
    }
    proof {
        assert(dv.take(dv.len() as int) =~= dv);
    }
    mx
}

/// Resolve one channel to its directory entry: the latest-wins info record
/// plus the highest reachable chunk; nothing if the channel has no info
/// links or the winning record does not decode as channel info.
fn resolve_channel_entry(store: &Store, channel: &Channel) -> (r: Option<ChannelData>)
    requires
        wf(store@),
    ensures
        r.deep_view() == entry_for(store@, channel@),
{
    let key = PathKey::Channel(copy_channel(channel));
    let found = store.lookup_path(&key);
    match found {
        Option::None => {
            proof {
                assert(node_info_links(store@, channel@) =~= Seq::<LinkV>::empty());
            }
            Option::None
        },
        Option::Some(chan_id) => {
            proof {
                Store::lemma_lookup_is_path_id(store@, key@, chan_id as int);
            }
            let infos = store.get_links(chan_id, LinkSelector::InfoLinks);
            proof {
                lemma_filter_congruent(
                    store@.links,
                    |l: LinkV| sel_match(LinkSelector::InfoLinks, chan_id as int, l),
                    |l: LinkV| l.source == path_id(store@, PathV::Channel(channel@))
                        && l.tag is InfoMarker,
                );
                assert(infos.deep_view() == node_info_links(store@, channel@));
            }
            let win = latest_link_index(&infos);
            match win {
                Option::None => {
                    proof {
                        assert(node_info_links(store@, channel@).len() == 0);
                    }
                    Option::None
                },
                Option::Some(ix) => {
                    let chunks = store.get_links(chan_id, LinkSelector::ChildLinks);
                    proof {
                        lemma_filter_congruent(
                            store@.links,
                            |l: LinkV| sel_match(LinkSelector::ChildLinks, chan_id as int, l),
                            |l: LinkV| l.source == path_id(store@, PathV::Channel(channel@))
                                && l.tag is ChildPath,
                        );
                        assert(chunks.deep_view() == node_child_links(store@, channel@));
                    }
                    let mx = max_chunk_index(&chunks);
                    let lt = &infos[ix];
                    proof {
                        assert(lt@ == infos.deep_view()[ix as int]);
                        assert(latest_of(node_info_links(store@, channel@)) == Option::Some(lt@));
                    }
                    if lt.target < store.records.len() {
                        let rec = &store.records[lt.target];
                        match rec {
                            StoredRecord::Info(info) => {
                                let d = ChannelData {
                                    channel: copy_channel(channel),
                                    info: copy_info(info),
                                    latest_chunk: mx,
                                };
                                proof {
                                    assert(store@.records[lt@.target] == RecordV::Info(info@));
                                    assert(d@ =~= entry_for(store@, channel@)->Some_0);
                                }
                                Option::Some(d)
                            },
                            StoredRecord::Msg(_) => {
                                proof {
                                    assert(store@.records[lt@.target] is Msg);
                                }
                                Option::None
                            },
                        }
                    } else {
                        Option::None
                    }
                },
            }
        },
    }
}

/// Enumerate every channel of a category that resolves to an entry, in the
/// order the store enumerates its links. Channels with no info links are
/// skipped entirely, as are channels whose winning record cannot be read
/// back as channel info: listings degrade instead of failing.
pub fn list_channels(store: &Store, category: &Vec<u8>) -> (r: Vec<ChannelData>)
    requires
        wf(store@),
    ensures
        r.deep_view() == channel_listing(store@, category@),
{
    proof {
        lemma_category_children_eq(store@, category@);
    }
    let key = PathKey::Category(copy_bytes(category));
    let found = store.lookup_path(&key);
    let ghost cc = category_children(store@, category@);
    match found {
        Option::None => {
            proof {
                assert(channel_listing(store@, category@) =~= Seq::<ChannelDataV>::empty());
            }
            Vec::new()
        },
        Option::Some(cat_id) => {
            proof {
                Store::lemma_lookup_is_path_id(store@, key@, cat_id as int);
            }
            let children = store.get_links(cat_id, LinkSelector::ChildLinks);
            proof {
                assert(children.deep_view() == cc);
            }
            let mut out: Vec<ChannelData> = Vec::new();
            let mut i: usize = 0;
            while i < children.len()
                invariant
                    i <= children@.len(),
                    children.deep_view() == cc,
                    out.deep_view() == listing_of(store@, cc.take(i as int)),
                decreases children@.len() - i,
            {
                proof {
                    assert(cc.take(i + 1).drop_last() =~= cc.take(i as int));
                    assert(cc.take(i + 1).last() == cc[i as int]);
                    assert(children@[i as int]@ == cc[i as int]);
                }
                let l = &children[i];
                match &l.tag {
                    Tag::ChildPath(PathKey::Channel(ch)) => {
                        let entry = resolve_channel_entry(store, ch);
                        match entry {
                            Option::Some(d) => {
                                out.push(d);
                                proof {
                                    assert(out.deep_view() =~= listing_of(
                                        store@,
                                        cc.take(i + 1),
                                    ));
                                }
                            },
                            Option::None => {
                                proof {
                                    assert(entry_of(store@, cc[i as int]) is None);
                                }
                            },
                        }
                    },
                    _ => {
                        proof {
                            assert(entry_of(store@, cc[i as int]) is None);
                        }
                    },
                }
                i += 1;
            }
            proof {
                assert(cc.take(cc.len() as int) =~= cc);
            }
            out
        },
    }
}

/// The total message count of one channel: every link on every chunk up to
/// (excluding) the frontier.
pub open spec fn sum_chunks(s: StoreV, ch: ChannelV, n: u32) -> nat
    decreases n,
{
    if n == 0 {
        0
    } else {
        sum_chunks(s, ch, (n - 1) as u32) + chunk_links(s, ch, (n - 1) as u32).len()
    }
}

/// The message total of one channel, summed to its frontier.
pub open spec fn channel_msg_total(s: StoreV, ch: ChannelV) -> nat {
    sum_chunks(s, ch, frontier_of(s, ch))
}

/// The message total over a sequence of enumerated category children.
pub open spec fn stats_total(s: StoreV, ls: Seq<LinkV>) -> nat
    decreases ls.len(),
{
    if ls.len() == 0 {
        0
    } else {
        stats_total(s, ls.drop_last()) + match ls.last().tag {
            TagV::ChildPath(PathV::Channel(ch)) => channel_msg_total(s, ch),
            _ => 0,
        }
    }
}

/// Directory statistics: how many channels a category lists, and the total
/// link count across every chunk of every one of them, found by the linear
/// chunk scan. This scan grows with history and is meant for admin/debug
/// use, not a steady-state API.
pub fn channel_stats(store: &Store, category: &Vec<u8>) -> (r: (usize, usize))
    requires
        wf(store@),
        store@.links.len() < u32::MAX as nat,
    ensures
        r.0 == category_children(store@, category@).len(),
        r.1 == stats_total(store@, category_children(store@, category@)),
{
    proof {
        lemma_category_children_eq(store@, category@);
    }
    let key = PathKey::Category(copy_bytes(category));
    let found = store.lookup_path(&key);
    let ghost cc = category_children(store@, category@);
    match found {
        Option::None => {
            (0, 0)
        },
        Option::Some(cat_id) => {
            proof {
                Store::lemma_lookup_is_path_id(store@, key@, cat_id as int);
            }
            let children = store.get_links(cat_id, LinkSelector::ChildLinks);
            proof {
                assert(children.deep_view() == cc);
            }
            let mut msg_count: Vec<LinkEdge> = Vec::new();
            let mut i: usize = 0;
            while i < children.len()
                invariant
                    i <= children@.len(),
                    children.deep_view() == cc,
                    msg_count@.len() == stats_total(store@, cc.take(i as int)),
                decreases children@.len() - i,
            {
                proof {
                    assert(cc.take(i + 1).drop_last() =~= cc.take(i as int));
                    assert(cc.take(i + 1).last() == cc[i as int]);
                    assert(children@[i as int]@ == cc[i as int]);
                }
                let l = &children[i];
                match &l.tag {
                    Tag::ChildPath(PathKey::Channel(ch)) => {
                        let ghost chv = ch@;
                        let ghost base = msg_count@.len();
                        let mut chunk: u32 = 0;
                        let mut cl = store.chunk_link_edges(ch, chunk);
                        while cl.len() > 0
                            invariant
                                forall|q: u32|
                                    q < chunk ==> chunk_links(store@, chv, q).len() > 0,
                                early_chunk_link_count(store@, chv, chunk) >= chunk,
                                msg_count@.len() == base + sum_chunks(store@, chv, chunk),
                                cl.deep_view() == chunk_links(store@, chv, chunk),
                            decreases store@.links.len() - chunk,
                        {
                            proof {
                                assert(chunk_links(store@, chv, chunk).len() > 0);
                                lemma_early_count_step(store@, chv, chunk);
                                lemma_early_count_bound(store@, chv, (chunk + 1) as u32);
                            }
                            let mut j: usize = 0;
                            while j < cl.len()
                                invariant
                                    j <= cl@.len(),
                                    msg_count@.len() == base + sum_chunks(store@, chv, chunk)
                                        + j,
                                decreases cl@.len() - j,
                            {
                                let e = copy_link(&cl[j]);
                                msg_count.push(e);
                                j += 1;
                            }
                            proof {
                                assert(chunk_links(store@, chv, chunk).len() == cl@.len());
                            }
                            chunk = chunk + 1;
                            cl = store.chunk_link_edges(ch, chunk);
                        }
                        proof {
                            assert(is_frontier(store@, chv, chunk));
                            lemma_frontier_unique(store@, chv, chunk, frontier_of(store@, chv));
                            assert(channel_msg_total(store@, chv) == sum_chunks(
                                store@,
                                chv,
                                chunk,
                            ));
                        }
                    },
                    _ => {},
                }
                i += 1;
            }
            proof {
                assert(cc.take(cc.len() as int) =~= cc);
            }
            (children.len(), msg_count.len())
        },
    }
}


/// Latest-wins selection returns a link of the sequence whose timestamp no
/// other link exceeds.
pub proof fn lemma_latest_is_max(ls: Seq<LinkV>)
    requires
        ls.len() > 0,
    ensures
        latest_of(ls) is Some,
        exists|i: int| 0 <= i < ls.len() && ls[i] == latest_of(ls)->Some_0,
        forall|i: int| 0 <= i < ls.len() ==> ls[i].timestamp <= latest_of(ls)->Some_0.timestamp,
    decreases ls.len(),
{
    if ls.len() == 1 {
        assert(ls[0] == ls.last());
    } else {
        lemma_latest_is_max(ls.drop_last());
        let p = latest_of(ls.drop_last())->Some_0;
        let w = choose|i: int| 0 <= i < ls.drop_last().len() && ls.drop_last()[i] == p;
        assert(ls[w] == p);
        if ls.last().timestamp > p.timestamp {
            assert(ls[ls.len() - 1] == ls.last());
        }
        assert forall|i: int|
            0 <= i < ls.len() implies ls[i].timestamp <= latest_of(ls)->Some_0.timestamp by {
            if i < ls.len() - 1 {
                assert(ls.drop_last()[i] == ls[i]);
            }
        }
    }
}

/// With pairwise-distinct timestamps the maximum-timestamp link wins,
/// regardless of where enumeration put it.
pub proof fn lemma_latest_info_wins(ls: Seq<LinkV>, i: int)
    requires
        0 <= i < ls.len(),
        forall|j: int| 0 <= j < ls.len() && j != i ==> ls[j].timestamp < ls[i].timestamp,
    ensures
        latest_of(ls) == Option::Some(ls[i]),
    decreases ls.len(),
{
    if i == ls.len() - 1 {
        assert(ls.last() == ls[i]);
        if ls.len() > 1 {
            lemma_latest_is_max(ls.drop_last());
            let p = latest_of(ls.drop_last())->Some_0;
            let w = choose|j: int| 0 <= j < ls.drop_last().len() && ls.drop_last()[j] == p;
            assert(ls[w] == p);
            assert(p.timestamp < ls[i].timestamp);
        }
    } else {
        assert forall|j: int|
            0 <= j < ls.drop_last().len() && j != i implies ls.drop_last()[j].timestamp
            < ls.drop_last()[i].timestamp by {
            assert(ls.drop_last()[j] == ls[j]);
        }
        lemma_latest_info_wins(ls.drop_last(), i);
        assert(ls.last().timestamp < ls[i].timestamp);
        assert(ls.drop_last()[i] == ls[i]);
    }
}

/// The latest-wins rule as the reader sees it: with distinct timestamps,
/// resolution follows the maximum-timestamp info link's target, whatever
/// order the links were created or enumerated in.
pub proof fn lemma_resolution_picks_max(s: StoreV, ch: ChannelV, i: int)
    requires
        0 <= i < node_info_links(s, ch).len(),
        forall|j: int|
            0 <= j < node_info_links(s, ch).len() && j != i ==> node_info_links(s, ch)[j].timestamp
                < node_info_links(s, ch)[i].timestamp,
    ensures
        ({
            let l = node_info_links(s, ch)[i];
            resolve_info(s, ch) == if 0 <= l.target < s.records.len() {
                match s.records[l.target] {
                    RecordV::Info(v) => Option::Some(v),
                    RecordV::Msg(_) => Option::<ChannelInfoV>::None,
                }
            } else {
                Option::<ChannelInfoV>::None
            }
        }),
{
    lemma_latest_info_wins(node_info_links(s, ch), i);
}

/// No listing entry ever carries a channel that resolves no entry.
proof fn lemma_listing_skips(s: StoreV, ls: Seq<LinkV>, ch: ChannelV)
    requires
        entry_for(s, ch) is None,
    ensures
        forall|k: int|
            0 <= k < listing_of(s, ls).len() ==> #[trigger] listing_of(s, ls)[k].channel != ch,
    decreases ls.len(),
{
    if ls.len() > 0 {
        lemma_listing_skips(s, ls.drop_last(), ch);
        match entry_of(s, ls.last()) {
            Option::Some(e) => {
                if e.channel == ch {
                    assert(entry_for(s, ch) == Option::Some(e));
                }
                assert forall|k: int|
                    0 <= k < listing_of(s, ls).len() implies #[trigger] listing_of(
                    s,
                    ls,
                )[k].channel != ch by {
                    if k < listing_of(s, ls).len() - 1 {
                        assert(listing_of(s, ls)[k] == listing_of(s, ls.drop_last())[k]);
                    }
                }
            },
            Option::None => {},
        }
    }
}

/// A channel with no info links is excluded from the listing entirely, even
/// though its path may exist.
pub proof fn lemma_channel_without_info_unlisted(s: StoreV, ch: ChannelV)
    requires
        node_info_links(s, ch).len() == 0,
    ensures
        forall|k: int|
            0 <= k < channel_listing(s, ch.category).len() ==> #[trigger] channel_listing(
                s,
                ch.category,
            )[k].channel != ch,
{
    assert(node_info_links(s, ch) =~= Seq::<LinkV>::empty());
    assert(latest_of(node_info_links(s, ch)) is None);
    lemma_listing_skips(s, category_children(s, ch.category), ch);
}

/// A link sequence with no announcement of this channel contributes no
/// listing entry for it.
proof fn lemma_listing_no_tagged(s: StoreV, ls: Seq<LinkV>, ch: ChannelV)
    requires
        ls.filter(|l: LinkV| l.tag == TagV::ChildPath(PathV::Channel(ch))).len() == 0,
    ensures
        listing_of(s, ls).filter(|d: ChannelDataV| d.channel == ch).len() == 0,
    decreases ls.len(),
{
    reveal(Seq::filter);
    let tagp = |l: LinkV| l.tag == TagV::ChildPath(PathV::Channel(ch));
    let chp = |d: ChannelDataV| d.channel == ch;
    if ls.len() == 0 {
        assert(listing_of(s, ls).len() == 0);
        lemma_filter_all_false(listing_of(s, ls), chp);
    } else {
        assert(!tagp(ls.last()));
        assert(ls.drop_last().filter(tagp).len() == 0);
        lemma_listing_no_tagged(s, ls.drop_last(), ch);
        match entry_of(s, ls.last()) {
            Option::Some(d) => {
                assert(d.channel != ch);
                crate::seq_util::lemma_filter_push(
                    listing_of(s, ls.drop_last()),
                    chp,
                    d,
                );
            },
            Option::None => {},
        }
    }
}

/// A link sequence announcing this channel exactly once, through a link that
/// resolves to an entry, yields a listing holding that entry exactly once.
proof fn lemma_listing_one_tagged(s: StoreV, ls: Seq<LinkV>, ch: ChannelV, e: ChannelDataV)
    requires
        ls.filter(|l: LinkV| l.tag == TagV::ChildPath(PathV::Channel(ch))).len() == 1,
        entry_for(s, ch) == Option::Some(e),
    ensures
        listing_of(s, ls).filter(|d: ChannelDataV| d.channel == ch) == seq![e],
    decreases ls.len(),
{
    reveal(Seq::filter);
    let tagp = |l: LinkV| l.tag == TagV::ChildPath(PathV::Channel(ch));
    let chp = |d: ChannelDataV| d.channel == ch;
    if ls.len() == 0 {
        assert(ls.filter(tagp).len() == 0);
    } else {
        if tagp(ls.last()) {
            assert(ls.drop_last().filter(tagp).len() == 0);
            lemma_listing_no_tagged(s, ls.drop_last(), ch);
            assert(entry_of(s, ls.last()) == Option::Some(e));
            crate::seq_util::lemma_filter_push(listing_of(s, ls.drop_last()), chp, e);
            assert(listing_of(s, ls.drop_last()).filter(chp) =~= Seq::<ChannelDataV>::empty());
            assert(listing_of(s, ls).filter(chp) =~= seq![e]);
        } else {
            assert(ls.drop_last().filter(tagp).len() == 1);
            lemma_listing_one_tagged(s, ls.drop_last(), ch, e);
            match entry_of(s, ls.last()) {
                Option::Some(d) => {
                    assert(d.channel != ch);
                    crate::seq_util::lemma_filter_push(
                        listing_of(s, ls.drop_last()),
                        chp,
                        d,
                    );
                },
                Option::None => {},
            }
        }
    }
}

/// Creating a channel and then listing its category yields exactly one entry
/// for it, with the new info record and chunk 0. The premises are exactly
/// what `create_channel` establishes on a store where the channel's path did
/// not yet exist.
pub proof fn lemma_create_then_list(
    s: StoreV,
    ch: ChannelV,
    info: ChannelInfoV,
    lstar: LinkV,
    ilink: LinkV,
)
    requires
        wf(s),
        child_links_tagged(s, PathV::Channel(ch)) == seq![lstar],
        node_info_links(s, ch) == seq![ilink],
        0 <= ilink.target < s.records.len(),
        s.records[ilink.target] == RecordV::Info(info),
        node_child_links(s, ch).len() == 0,
    ensures
        channel_listing(s, ch.category).filter(|d: ChannelDataV| d.channel == ch) == seq![
            ChannelDataV { channel: ch, info, latest_chunk: 0 },
        ],
{
    let tagp = |l: LinkV| l.tag == TagV::ChildPath(PathV::Channel(ch));
    let ccp = |l: LinkV| is_channel_child(ch.category, l);
    // The channel resolves to its single info record at chunk 0.
    assert(seq![ilink].drop_last() =~= Seq::<LinkV>::empty());
    assert(latest_of(Seq::<LinkV>::empty()) == Option::<LinkV>::None);
    assert(node_info_links(s, ch).len() == 1);
    assert(node_info_links(s, ch).last() == ilink);
    assert(node_info_links(s, ch).drop_last() =~= Seq::<LinkV>::empty());
    assert(latest_of(node_info_links(s, ch)) == Option::Some(ilink));
    assert(resolve_info(s, ch) == Option::Some(info));
    assert(node_child_links(s, ch) =~= Seq::<LinkV>::empty());
    assert(latest_chunk_of(s, ch) == 0);
    let e = ChannelDataV { channel: ch, info, latest_chunk: 0 };
    assert(entry_for(s, ch) == Option::Some(e));
    // The single parent link is the only announcement of this channel.
    let c = PathV::Channel(ch);
    assert(s.links.filter(|l: LinkV| l.tag == TagV::ChildPath(c)) == seq![lstar]);
    assert forall|l: LinkV| #[trigger] tagp(l) == (|l: LinkV| l.tag == TagV::ChildPath(c))(l) by {}
    lemma_filter_congruent(s.links, |l: LinkV| l.tag == TagV::ChildPath(c), tagp);
    assert(s.links.filter(tagp) == seq![lstar]);
    assert forall|x: LinkV| #[trigger] tagp(x) implies ccp(x) by {}
    crate::seq_util::lemma_filter_subsume(s.links, ccp, tagp);
    assert(category_children(s, ch.category).filter(tagp) == seq![lstar]);
    lemma_listing_one_tagged(s, category_children(s, ch.category), ch, e);
}

} // verus!
