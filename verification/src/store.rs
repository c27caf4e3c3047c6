//! The path index over the content-addressed graph store.
//!
//! The store has no native "list directory" primitive, so every hierarchical
//! enumeration is link-edge creation at write time plus link-edge scanning at
//! read time. A path node's hash is a pure function of its component
//! sequence; this model keeps one node per distinct path and uses its index
//! as the hash, so equal paths always resolve to the same hash. Records and
//! link edges are write-once: the store only ever appends.

use vstd::prelude::*;
use crate::seq_util::{lemma_filter_push, lemma_filter_sub};
use crate::types::{
    bytes_eq, channel_eq, copy_bytes, copy_channel, Channel, ChannelInfo, ChannelInfoV, ChannelV,
    Message, MessageV, Timestamp,
};
use crate::validation::MAX_MESSAGE_BYTES;

verus! {

/// A hierarchical key: category, channel under a category, or numbered chunk
/// under a channel.
pub enum PathKey {
    Category(Vec<u8>),
    Channel(Channel),
    Chunk(Channel, u32),
}

#[verifier::ext_equal]
pub enum PathV {
    Category(Seq<u8>),
    Channel(ChannelV),
    Chunk(ChannelV, u32),
}

impl View for PathKey {
    type V = PathV;

    open spec fn view(&self) -> PathV {
        match self {
            PathKey::Category(c) => PathV::Category(c@),
            PathKey::Channel(ch) => PathV::Channel(ch@),
            PathKey::Chunk(ch, k) => PathV::Chunk(ch@, *k),
        }
    }
}

impl DeepView for PathKey {
    type V = PathV;

    open spec fn deep_view(&self) -> PathV {
        self.view()
    }
}

/// The immediate parent of a path, if it has one.
pub open spec fn parent_of(p: PathV) -> Option<PathV> {
    match p {
        PathV::Category(_) => Option::None,
        PathV::Channel(ch) => Option::Some(PathV::Category(ch.category)),
        PathV::Chunk(ch, _) => Option::Some(PathV::Channel(ch)),
    }
}

/// The opaque tag on a link edge: either the full component sequence of a
/// child path (so a scan can reconstruct the child without another lookup),
/// or a fixed marker for channel-info and message links.
pub enum Tag {
    ChildPath(PathKey),
    InfoMarker,
    MessageMarker,
}

#[verifier::ext_equal]
pub enum TagV {
    ChildPath(PathV),
    InfoMarker,
    MessageMarker,
}

impl View for Tag {
    type V = TagV;

    open spec fn view(&self) -> TagV {
        match self {
            Tag::ChildPath(p) => TagV::ChildPath(p@),
            Tag::InfoMarker => TagV::InfoMarker,
            Tag::MessageMarker => TagV::MessageMarker,
        }
    }
}

/// A directed, tagged, timestamped edge between two hashes. Never deleted.
pub struct LinkEdge {
    pub source: usize,
    pub target: usize,
    pub tag: Tag,
    pub timestamp: Timestamp,
}

#[verifier::ext_equal]
pub struct LinkV {
    pub source: int,
    pub target: int,
    pub tag: TagV,
    pub timestamp: Timestamp,
}

impl View for LinkEdge {
    type V = LinkV;

    open spec fn view(&self) -> LinkV {
        LinkV {
            source: self.source as int,
            target: self.target as int,
            tag: self.tag@,
            timestamp: self.timestamp,
        }
    }
}

impl DeepView for LinkEdge {
    type V = LinkV;

    open spec fn deep_view(&self) -> LinkV {
        self.view()
    }
}

/// An immutable record payload held in the store.
pub enum StoredRecord {
    Info(ChannelInfo),
    Msg(Message),
}

#[verifier::ext_equal]
pub enum RecordV {
    Info(ChannelInfoV),
    Msg(MessageV),
}

impl View for StoredRecord {
    type V = RecordV;

    open spec fn view(&self) -> RecordV {
        match self {
            StoredRecord::Info(i) => RecordV::Info(i@),
            StoredRecord::Msg(m) => RecordV::Msg(m@),
        }
    }
}

impl DeepView for StoredRecord {
    type V = RecordV;

    open spec fn deep_view(&self) -> RecordV {
        self.view()
    }
}

/// Observable state of the graph store: path nodes, records, link edges.
/// A node's or record's index plays the role of its content hash.
pub struct Store {
    pub paths: Vec<PathKey>,
    pub records: Vec<StoredRecord>,
    pub links: Vec<LinkEdge>,
}

#[verifier::ext_equal]
pub struct StoreV {
    pub paths: Seq<PathV>,
    pub records: Seq<RecordV>,
    pub links: Seq<LinkV>,
}

impl View for Store {
    type V = StoreV;

    open spec fn view(&self) -> StoreV {
        StoreV {
            paths: self.paths.deep_view(),
            records: self.records.deep_view(),
            links: self.links.deep_view(),
        }
    }
}

/// Whether this path has been materialized.
pub open spec fn has_path(s: StoreV, p: PathV) -> bool {
    exists|i: int| 0 <= i < s.paths.len() && s.paths[i] == p
}

/// The hash of a materialized path.
pub open spec fn path_id(s: StoreV, p: PathV) -> int {
    choose|i: int| 0 <= i < s.paths.len() && s.paths[i] == p
}

/// A record admissible into the store: messages respect the content limit.
pub open spec fn record_ok(r: RecordV) -> bool {
    match r {
        RecordV::Info(_) => true,
        RecordV::Msg(m) => m.content.len() <= MAX_MESSAGE_BYTES,
    }
}

/// A link consistent with the store it sits in.
pub open spec fn link_ok(s: StoreV, l: LinkV) -> bool {
    &&& 0 <= l.source < s.paths.len()
    &&& match l.tag {
        TagV::ChildPath(c) => {
            &&& 0 <= l.target < s.paths.len()
            &&& s.paths[l.target] == c
            &&& parent_of(c) == Option::Some(s.paths[l.source])
        },
        TagV::InfoMarker => 0 <= l.target < s.records.len() && s.paths[l.source] is Channel,
        TagV::MessageMarker => 0 <= l.target < s.records.len() && s.paths[l.source] is Chunk,
    }
}

/// Store well-formedness: paths are content-unique, links are consistent,
/// the parent-link chain is never duplicated, and only admissible records
/// are present.
pub open spec fn wf(s: StoreV) -> bool {
    &&& forall|i: int, j: int| 0 <= i < j < s.paths.len() ==> s.paths[i] != s.paths[j]
    &&& forall|i: int|
        0 <= i < s.paths.len() ==> match parent_of(#[trigger] s.paths[i]) {
            Option::Some(q) => has_path(s, q),
            Option::None => true,
        }
    &&& forall|k: int| 0 <= k < s.links.len() ==> link_ok(s, #[trigger] s.links[k])
    &&& forall|k1: int, k2: int|
        0 <= k1 < k2 < s.links.len() && #[trigger] s.links[k1].tag is ChildPath ==> s.links[k1].tag
            != #[trigger] s.links[k2].tag
    &&& forall|k: int| 0 <= k < s.records.len() ==> record_ok(#[trigger] s.records[k])
}

/// All link edges whose source is this hash.
pub open spec fn links_at(s: StoreV, src: int) -> Seq<LinkV> {
    s.links.filter(|l: LinkV| l.source == src)
}

/// Channel-info link edges on this hash.
pub open spec fn info_links(s: StoreV, src: int) -> Seq<LinkV> {
    s.links.filter(|l: LinkV| l.source == src && l.tag is InfoMarker)
}

/// Message link edges on this hash.
pub open spec fn msg_links(s: StoreV, src: int) -> Seq<LinkV> {
    s.links.filter(|l: LinkV| l.source == src && l.tag is MessageMarker)
}

/// Child link edges on this hash: the materialized "directory listing".
pub open spec fn child_links(s: StoreV, src: int) -> Seq<LinkV> {
    s.links.filter(|l: LinkV| l.source == src && l.tag is ChildPath)
}

/// All child link edges pointing at one particular child path, anywhere in
/// the store. Well-formedness keeps this at most one long.
pub open spec fn child_links_tagged(s: StoreV, c: PathV) -> Seq<LinkV> {
    s.links.filter(|l: LinkV| l.tag == TagV::ChildPath(c))
}

/// All links on a path that may or may not have been materialized yet: a
/// never-ensured path has no hash and therefore no links.
pub open spec fn node_links(s: StoreV, p: PathV) -> Seq<LinkV> {
    if has_path(s, p) {
        links_at(s, path_id(s, p))
    } else {
        Seq::empty()
    }
}

/// A materialized path's hash is injective: distinct paths never share one.
pub proof fn lemma_path_id_injective(s: StoreV, p: PathV, q: PathV)
    requires
        has_path(s, p),
        has_path(s, q),
        p != q,
    ensures
        path_id(s, p) != path_id(s, q),
{
}

/// An unmaterialized path has no child link pointing at it.
pub proof fn lemma_no_path_no_child_links(s: StoreV, c: PathV)
    requires
        wf(s),
        !has_path(s, c),
    ensures
        child_links_tagged(s, c).len() == 0,
{
    let pred = |l: LinkV| l.tag == TagV::ChildPath(c);
    if child_links_tagged(s, c).len() > 0 {
        let l = child_links_tagged(s, c)[0];
        assert(pred(l)) by {
            Seq::<LinkV>::lemma_filter_pred(s.links, pred, 0);
        }
        assert(s.links.contains(l)) by {
            lemma_filter_sub(s.links, pred, 0);
        }
        let k = choose|k: int| 0 <= k < s.links.len() && s.links[k] == l;
        assert(link_ok(s, l));
        assert(s.paths[l.target] == c);
    }
}

/// Exec equality of path keys, decided on views.
pub fn path_key_eq(a: &PathKey, b: &PathKey) -> (r: bool)
    ensures
        r == (a@ == b@),
{
    match (a, b) {
        (PathKey::Category(x), PathKey::Category(y)) => bytes_eq(x, y),
        (PathKey::Channel(x), PathKey::Channel(y)) => {
            let r = channel_eq(x, y);
            proof {
                if x@ == y@ {
                    assert(a@ =~= b@);
                }
            }
            r
        },
        (PathKey::Chunk(x, k1), PathKey::Chunk(y, k2)) => {
            let r = channel_eq(x, y) && *k1 == *k2;
            proof {
                if x@ == y@ && k1 == k2 {
                    assert(a@ =~= b@);
                }
            }
            r
        },
        _ => {
            proof {
                assert(a@ != b@);
            }
            false
        },
    }
}

/// Copy of a path key with the same view.
pub fn copy_path_key(a: &PathKey) -> (r: PathKey)
    ensures
        r@ == a@,
{
    match a {
        PathKey::Category(c) => PathKey::Category(copy_bytes(c)),
        PathKey::Channel(ch) => PathKey::Channel(copy_channel(ch)),
        PathKey::Chunk(ch, k) => PathKey::Chunk(copy_channel(ch), *k),
    }
}

/// Copy of a tag with the same view.
pub fn copy_tag(a: &Tag) -> (r: Tag)
    ensures
        r@ == a@,
{
    match a {
        Tag::ChildPath(p) => Tag::ChildPath(copy_path_key(p)),
        Tag::InfoMarker => Tag::InfoMarker,
        Tag::MessageMarker => Tag::MessageMarker,
    }
}

/// Copy of a link edge with the same view.
pub fn copy_link(a: &LinkEdge) -> (r: LinkEdge)
    ensures
        r@ == a@,
{
    let r = LinkEdge {
        source: a.source,
        target: a.target,
        tag: copy_tag(&a.tag),
        timestamp: a.timestamp,
    };
    proof {
        assert(r@ =~= a@);
    }
    r
}

/// Which link edges a scan asks for.
#[derive(Clone, Copy, PartialEq, Eq, Structural)]
pub enum LinkSelector {
    AllLinks,
    ChildLinks,
    InfoLinks,
    MsgLinks,
}

/// Whether a link matches a selector at a source hash.
pub open spec fn sel_match(sel: LinkSelector, src: int, l: LinkV) -> bool {
    l.source == src && match sel {
        LinkSelector::AllLinks => true,
        LinkSelector::ChildLinks => l.tag is ChildPath,
        LinkSelector::InfoLinks => l.tag is InfoMarker,
        LinkSelector::MsgLinks => l.tag is MessageMarker,
    }
}

/// The links a scan returns, in store (creation) order.
pub open spec fn selected_links(s: StoreV, src: int, sel: LinkSelector) -> Seq<LinkV> {
    s.links.filter(|l: LinkV| sel_match(sel, src, l))
}

impl Store {
    /// An empty store.
    pub fn new() -> (r: Store)
        ensures
            wf(r@),
            r@.paths.len() == 0,
            r@.records.len() == 0,
            r@.links.len() == 0,
    {
        Store { paths: Vec::new(), records: Vec::new(), links: Vec::new() }
    }

    /// The hash of a path, if the path has been materialized. Pure and
    /// deterministic: equal component sequences always resolve identically.
    pub fn lookup_path(&self, key: &PathKey) -> (r: Option<usize>)
        ensures
            match r {
                Option::Some(i) => i < self@.paths.len() && self@.paths[i as int] == key@,
                Option::None => !has_path(self@, key@),
            },
    {
        let mut i: usize = 0;
        while i < self.paths.len()
            invariant
                i <= self.paths@.len(),
                forall|j: int| 0 <= j < i ==> self@.paths[j] != key@,
            decreases self.paths@.len() - i,
        {
            if path_key_eq(&self.paths[i], key) {
                return Option::Some(i);
            }
            i += 1;
        }
        Option::None
    }

    /// The identified hash of a materialized path.
    pub proof fn lemma_lookup_is_path_id(s: StoreV, p: PathV, i: int)
        requires
            wf(s),
            0 <= i < s.paths.len(),
            s.paths[i] == p,
        ensures
            path_id(s, p) == i,
            has_path(s, p),
    {
        let j = path_id(s, p);
        if i != j {
            assert(s.paths[i] != s.paths[j]);
        }
    }

    /// All links on a source hash that match the selector, in store order.
    pub fn get_links(&self, source: usize, sel: LinkSelector) -> (r: Vec<LinkEdge>)
        ensures
            r.deep_view() == selected_links(self@, source as int, sel),
    {
        let ghost pred = |l: LinkV| sel_match(sel, source as int, l);
        let mut out: Vec<LinkEdge> = Vec::new();
        let mut i: usize = 0;
        while i < self.links.len()
            invariant
                i <= self.links@.len(),
                out.deep_view() == self@.links.take(i as int).filter(pred),
            decreases self.links@.len() - i,
        {
            proof {
                crate::seq_util::lemma_filter_take_step(self@.links, pred, i as int);
                assert(self@.links[i as int] == self.links@[i as int]@);
            }
            let l = &self.links[i];
            let keep = match sel {
                LinkSelector::AllLinks => l.source == source,
                LinkSelector::ChildLinks => l.source == source && (match &l.tag {
                    Tag::ChildPath(_) => true,
                    _ => false,
                }),
                LinkSelector::InfoLinks => l.source == source && (match &l.tag {
                    Tag::InfoMarker => true,
                    _ => false,
                }),
                LinkSelector::MsgLinks => l.source == source && (match &l.tag {
                    Tag::MessageMarker => true,
                    _ => false,
                }),
            };
            if keep {
                let c = copy_link(l);
                out.push(c);
                proof {
                    assert(out.deep_view() =~= self@.links.take(i + 1).filter(pred));
                }
            } else {
                proof {
                    assert(!pred(self@.links[i as int]));
                }
            }
            i += 1;
        }
        proof {
            assert(self@.links.take(self@.links.len() as int) =~= self@.links);
        }
        out
    }

    /// Fetch a record by its hash, if it exists.
    pub fn get_record(&self, hash: usize) -> (r: Option<&StoredRecord>)
        ensures
            match r {
                Option::Some(rec) => hash < self@.records.len() && rec@ == self@.records[hash as int],
                Option::None => hash >= self@.records.len(),
            },
    {
        if hash < self.records.len() {
            Option::Some(&self.records[hash])
        } else {
            Option::None
        }
    }

    /// Record a payload; its index is its content hash handle.
    pub fn put_record(&mut self, r: StoredRecord) -> (id: usize)
        requires
            wf(old(self)@),
            record_ok(r@),
        ensures
            wf(final(self)@),
            final(self)@.paths == old(self)@.paths,
            final(self)@.links == old(self)@.links,
            final(self)@.records == old(self)@.records.push(r@),
            id == old(self)@.records.len(),
    {
        let id = self.records.len();
        self.records.push(r);
        proof {
            assert(final(self)@.records =~= old(self)@.records.push(r@));
            assert(final(self)@.paths =~= old(self)@.paths);
            assert(final(self)@.links =~= old(self)@.links);
            assert forall|k: int|
                0 <= k < final(self)@.links.len() implies link_ok(
                final(self)@,
                #[trigger] final(self)@.links[k],
            ) by {
                assert(link_ok(old(self)@, old(self)@.links[k]));
            }
        }
        id
    }

    /// Create a marker-tagged link edge from a materialized path to a record.
    pub fn create_record_link(
        &mut self,
        source: usize,
        target: usize,
        tag: Tag,
        timestamp: Timestamp,
    )
        requires
            wf(old(self)@),
            !(tag is ChildPath),
            source < old(self)@.paths.len(),
            target < old(self)@.records.len(),
            tag is InfoMarker ==> old(self)@.paths[source as int] is Channel,
            tag is MessageMarker ==> old(self)@.paths[source as int] is Chunk,
        ensures
            wf(final(self)@),
            final(self)@.paths == old(self)@.paths,
            final(self)@.records == old(self)@.records,
            final(self)@.links == old(self)@.links.push(
                LinkV { source: source as int, target: target as int, tag: tag@, timestamp },
            ),
    {
        let ghost lv = LinkV { source: source as int, target: target as int, tag: tag@, timestamp };
        self.links.push(LinkEdge { source, target, tag, timestamp });
        proof {
            assert(final(self)@.links =~= old(self)@.links.push(lv));
            assert(final(self)@.paths =~= old(self)@.paths);
            assert(final(self)@.records =~= old(self)@.records);
            assert forall|k: int|
                0 <= k < final(self)@.links.len() implies link_ok(
                final(self)@,
                #[trigger] final(self)@.links[k],
            ) by {
                if k < old(self)@.links.len() {
                    assert(link_ok(old(self)@, old(self)@.links[k]));
                } else {
                    assert(final(self)@.links[k] == lv);
                }
            }
        }
    }
}

/// A freshly materialized path node extends the store without disturbing
/// records or links.
proof fn lemma_push_path_wf(s0: StoreV, s1: StoreV, p: PathV)
    requires
        wf(s0),
        !has_path(s0, p),
        match parent_of(p) {
            Option::Some(q) => has_path(s0, q),
            Option::None => true,
        },
        s1.paths == s0.paths.push(p),
        s1.records == s0.records,
        s1.links == s0.links,
    ensures
        wf(s1),
        has_path(s1, p),
        path_id(s1, p) == s0.paths.len(),
        forall|q: PathV| has_path(s0, q) ==> has_path(s1, q) && path_id(s1, q) == path_id(s0, q),
        forall|q: PathV| has_path(s1, q) ==> has_path(s0, q) || q == p,
{
    assert(s1.paths[s0.paths.len() as int] == p);
    assert forall|i: int, j: int| 0 <= i < j < s1.paths.len() implies s1.paths[i] != s1.paths[j] by {
        if j == s0.paths.len() {
            assert(s1.paths[i] == s0.paths[i]);
            if s1.paths[i] == p {
                assert(has_path(s0, p));
            }
        }
    }
    assert forall|k: int|
        0 <= k < s1.links.len() implies link_ok(s1, #[trigger] s1.links[k]) by {
        assert(link_ok(s0, s0.links[k]));
    }
    assert forall|i: int|
        0 <= i < s1.paths.len() implies match parent_of(#[trigger] s1.paths[i]) {
        Option::Some(q) => has_path(s1, q),
        Option::None => true,
    } by {
        if i < s0.paths.len() {
            assert(s1.paths[i] == s0.paths[i]);
            match parent_of(s0.paths[i]) {
                Option::Some(q) => {
                    let j = choose|j: int| 0 <= j < s0.paths.len() && s0.paths[j] == q;
                    assert(s1.paths[j] == q);
                },
                Option::None => {},
            }
        } else {
            match parent_of(p) {
                Option::Some(q) => {
                    let j = choose|j: int| 0 <= j < s0.paths.len() && s0.paths[j] == q;
                    assert(s1.paths[j] == q);
                },
                Option::None => {},
            }
        }
    }
    Store::lemma_lookup_is_path_id(s1, p, s0.paths.len() as int);
    assert forall|q: PathV| has_path(s0, q) implies has_path(s1, q) && path_id(s1, q) == path_id(
        s0,
        q,
    ) by {
        let i = path_id(s0, q);
        assert(s0.paths[i] == q);
        assert(s1.paths[i] == q);
        Store::lemma_lookup_is_path_id(s1, q, i);
    }
    assert forall|q: PathV| has_path(s1, q) implies has_path(s0, q) || q == p by {
        let i = choose|i: int| 0 <= i < s1.paths.len() && s1.paths[i] == q;
        if i < s0.paths.len() {
            assert(s0.paths[i] == q);
        }
    }
}

impl Store {
    /// Materialize one path node whose parent (if any) is already
    /// materialized, linking it under the parent exactly once.
    fn ensure_node(&mut self, key: &PathKey, parent: Option<usize>, now: Timestamp) -> (id: usize)
        requires
            wf(old(self)@),
            match parent {
                Option::Some(pid) => pid < old(self)@.paths.len() && parent_of(key@)
                    == Option::Some(old(self)@.paths[pid as int]),
                Option::None => parent_of(key@) is None,
            },
        ensures
            wf(final(self)@),
            final(self)@.records == old(self)@.records,
            id < final(self)@.paths.len(),
            final(self)@.paths[id as int] == key@,
            path_id(final(self)@, key@) == id,
            has_path(final(self)@, key@),
            old(self)@.paths.is_prefix_of(final(self)@.paths),
            old(self)@.links.is_prefix_of(final(self)@.links),
            final(self)@.links.len() <= old(self)@.links.len() + 1,
            forall|q: PathV|
                has_path(old(self)@, q) ==> has_path(final(self)@, q) && path_id(final(self)@, q)
                    == path_id(old(self)@, q),
            forall|q: PathV| has_path(final(self)@, q) ==> has_path(old(self)@, q) || q == key@,
            has_path(old(self)@, key@) ==> final(self)@ == old(self)@,
            !has_path(old(self)@, key@) ==> final(self)@.paths == old(self)@.paths.push(key@),
            !has_path(old(self)@, key@) ==> match parent {
                Option::Some(pid) => final(self)@.links == old(self)@.links.push(
                    LinkV {
                        source: pid as int,
                        target: old(self)@.paths.len() as int,
                        tag: TagV::ChildPath(key@),
                        timestamp: now,
                    },
                ),
                Option::None => final(self)@.links == old(self)@.links,
            },
    {
        let existing = self.lookup_path(key);
        match existing {
            Option::Some(i) => {
                proof {
                    Store::lemma_lookup_is_path_id(self@, key@, i as int);
                    assert(final(self)@ =~= old(self)@);
                }
                i
            },
            Option::None => {
                let id = self.paths.len();
                let k2 = copy_path_key(key);
                self.paths.push(k2);
                proof {
                    assert(self@.paths =~= old(self)@.paths.push(key@));
                    assert(self@.records =~= old(self)@.records);
                    assert(self@.links =~= old(self)@.links);
                    match parent {
                        Option::Some(pid) => {
                            assert(old(self)@.paths[pid as int] == parent_of(key@)->Some_0);
                        },
                        Option::None => {},
                    }
                    lemma_push_path_wf(old(self)@, self@, key@);
                }
                match parent {
                    Option::Some(pid) => {
                        let ghost mid = self@;
                        let tag = Tag::ChildPath(copy_path_key(key));
                        let ghost lv = LinkV {
                            source: pid as int,
                            target: id as int,
                            tag: TagV::ChildPath(key@),
                            timestamp: now,
                        };
                        self.links.push(
                            LinkEdge { source: pid, target: id, tag, timestamp: now },
                        );
                        proof {
                            assert(self@.links =~= mid.links.push(lv));
                            assert(self@.paths =~= mid.paths);
                            assert(self@.records =~= mid.records);
                            assert(link_ok(self@, lv));
                            assert forall|k: int|
                                0 <= k < self@.links.len() implies link_ok(
                                self@,
                                #[trigger] self@.links[k],
                            ) by {
                                if k < mid.links.len() {
                                    assert(link_ok(mid, mid.links[k]));
                                }
                            }
                            assert forall|k1: int, k2: int|
                                0 <= k1 < k2 < self@.links.len() && #[trigger] self@.links[k1].tag
                                    is ChildPath implies self@.links[k1].tag
                                != #[trigger] self@.links[k2].tag by {
                                if k2 == self@.links.len() - 1 {
                                    if self@.links[k1].tag == TagV::ChildPath(key@) {
                                        assert(link_ok(mid, mid.links[k1]));
                                        assert(mid.paths[mid.links[k1].target] == key@);
                                        assert(has_path(old(self)@, key@));
                                    }
                                }
                            }
                        }
                        id
                    },
                    Option::None => id,
                }
            },
        }
    }

    /// Idempotently materialize a category path.
    pub fn ensure_category(&mut self, category: &Vec<u8>, now: Timestamp) -> (id: usize)
        requires
            wf(old(self)@),
        ensures
            wf(final(self)@),
            final(self)@.records == old(self)@.records,
            id < final(self)@.paths.len(),
            final(self)@.paths[id as int] == PathV::Category(category@),
            path_id(final(self)@, PathV::Category(category@)) == id,
            has_path(final(self)@, PathV::Category(category@)),
            old(self)@.paths.is_prefix_of(final(self)@.paths),
            final(self)@.links == old(self)@.links,
            forall|q: PathV|
                has_path(old(self)@, q) ==> has_path(final(self)@, q) && path_id(final(self)@, q)
                    == path_id(old(self)@, q),
            forall|q: PathV|
                has_path(final(self)@, q) ==> has_path(old(self)@, q) || q == PathV::Category(
                    category@,
                ),
            has_path(old(self)@, PathV::Category(category@)) ==> final(self)@ == old(self)@,
    {
        let key = PathKey::Category(copy_bytes(category));
        self.ensure_node(&key, Option::None, now)
    }
}


impl Store {
    /// Idempotently materialize a channel path and the parent-link chain that
    /// lets its category enumerate it as a child.
    pub fn ensure_channel(&mut self, channel: &Channel, now: Timestamp) -> (id: usize)
        requires
            wf(old(self)@),
        ensures
            wf(final(self)@),
            final(self)@.records == old(self)@.records,
            id < final(self)@.paths.len(),
            final(self)@.paths[id as int] == PathV::Channel(channel@),
            path_id(final(self)@, PathV::Channel(channel@)) == id,
            has_path(final(self)@, PathV::Channel(channel@)),
            old(self)@.paths.is_prefix_of(final(self)@.paths),
            old(self)@.links.is_prefix_of(final(self)@.links),
            final(self)@.links.len() <= old(self)@.links.len() + 1,
            forall|q: PathV|
                has_path(old(self)@, q) ==> has_path(final(self)@, q) && path_id(final(self)@, q)
                    == path_id(old(self)@, q),
            forall|q: PathV|
                has_path(final(self)@, q) ==> has_path(old(self)@, q) || q == PathV::Channel(
                    channel@,
                ) || q == PathV::Category(channel@.category),
            forall|src: int| info_links(final(self)@, src) == info_links(old(self)@, src),
            forall|src: int| msg_links(final(self)@, src) == msg_links(old(self)@, src),
            forall|c: PathV|
                c != PathV::Channel(channel@) ==> child_links_tagged(final(self)@, c)
                    == child_links_tagged(old(self)@, c),
            has_path(old(self)@, PathV::Channel(channel@)) ==> final(self)@ == old(self)@,
            !has_path(old(self)@, PathV::Channel(channel@)) ==> child_links_tagged(
                final(self)@,
                PathV::Channel(channel@),
            ) == seq![
                LinkV {
                    source: path_id(final(self)@, PathV::Category(channel@.category)),
                    target: id as int,
                    tag: TagV::ChildPath(PathV::Channel(channel@)),
                    timestamp: now,
                },
            ],
            !has_path(old(self)@, PathV::Channel(channel@)) ==> final(self)@.links == old(
                self,
            )@.links.push(
                LinkV {
                    source: path_id(final(self)@, PathV::Category(channel@.category)),
                    target: id as int,
                    tag: TagV::ChildPath(PathV::Channel(channel@)),
                    timestamp: now,
                },
            ),
    {
        let ghost s0 = self@;
        let cat_id = self.ensure_category(&channel.category, now);
        let ghost s1 = self@;
        let key = PathKey::Channel(copy_channel(channel));
        let id = self.ensure_node(&key, Option::Some(cat_id), now);
        proof {
            let chv = PathV::Channel(channel@);
            let catv = PathV::Category(channel@.category);
            // If the channel path pre-existed, so did its category, and both
            // ensure steps were no-ops.
            if has_path(s0, chv) {
                let i = choose|i: int| 0 <= i < s0.paths.len() && s0.paths[i] == chv;
                assert(parent_of(s0.paths[i]) == Option::Some(catv));
                assert(has_path(s0, catv));
                assert(s1 == s0);
                assert(has_path(s1, chv));
                assert(final(self)@ == s1);
            }
            // Link frames: at most one child link was appended.
            if !has_path(s1, chv) {
                let lv = LinkV {
                    source: cat_id as int,
                    target: s1.paths.len() as int,
                    tag: TagV::ChildPath(chv),
                    timestamp: now,
                };
                assert(final(self)@.links == s1.links.push(lv));
                assert forall|src: int| #[trigger] info_links(final(self)@, src) == info_links(
                    old(self)@,
                    src,
                ) by {
                    lemma_filter_push(
                        s1.links,
                        |l: LinkV| l.source == src && l.tag is InfoMarker,
                        lv,
                    );
                }
                assert forall|src: int| #[trigger] msg_links(final(self)@, src) == msg_links(
                    old(self)@,
                    src,
                ) by {
                    lemma_filter_push(
                        s1.links,
                        |l: LinkV| l.source == src && l.tag is MessageMarker,
                        lv,
                    );
                }
                assert forall|c: PathV|
                    c != chv implies #[trigger] child_links_tagged(final(self)@, c)
                    == child_links_tagged(old(self)@, c) by {
                    lemma_filter_push(s1.links, |l: LinkV| l.tag == TagV::ChildPath(c), lv);
                }
                lemma_no_path_no_child_links(s0, chv);
                lemma_filter_push(s1.links, |l: LinkV| l.tag == TagV::ChildPath(chv), lv);
                assert(child_links_tagged(s1, chv).len() == 0);
                assert(child_links_tagged(final(self)@, chv) =~= seq![lv]);
                assert(path_id(final(self)@, catv) == cat_id);
                assert(id == s1.paths.len());
                assert(s1.links == s0.links);
                assert(final(self)@.links == s0.links.push(lv));
            } else {
                assert(final(self)@ == s1);
                assert(s1.links == s0.links);
            }
        }
        id
    }

    /// Idempotently materialize a chunk path, its channel, and the
    /// parent-link chain for both.
    pub fn ensure_chunk(&mut self, channel: &Channel, chunk: u32, now: Timestamp) -> (id: usize)
        requires
            wf(old(self)@),
        ensures
            wf(final(self)@),
            final(self)@.records == old(self)@.records,
            id < final(self)@.paths.len(),
            final(self)@.paths[id as int] == PathV::Chunk(channel@, chunk),
            path_id(final(self)@, PathV::Chunk(channel@, chunk)) == id,
            has_path(final(self)@, PathV::Chunk(channel@, chunk)),
            has_path(final(self)@, PathV::Channel(channel@)),
            old(self)@.paths.is_prefix_of(final(self)@.paths),
            old(self)@.links.is_prefix_of(final(self)@.links),
            final(self)@.links.len() <= old(self)@.links.len() + 2,
            forall|q: PathV|
                has_path(old(self)@, q) ==> has_path(final(self)@, q) && path_id(final(self)@, q)
                    == path_id(old(self)@, q),
            forall|q: PathV|
                has_path(final(self)@, q) ==> has_path(old(self)@, q) || q == PathV::Chunk(
                    channel@,
                    chunk,
                ) || q == PathV::Channel(channel@) || q == PathV::Category(channel@.category),
            forall|src: int| info_links(final(self)@, src) == info_links(old(self)@, src),
            forall|src: int| msg_links(final(self)@, src) == msg_links(old(self)@, src),
            forall|c: PathV|
                c != PathV::Channel(channel@) && c != PathV::Chunk(channel@, chunk)
                    ==> child_links_tagged(final(self)@, c) == child_links_tagged(old(self)@, c),
            has_path(old(self)@, PathV::Chunk(channel@, chunk)) ==> final(self)@ == old(self)@,
            !has_path(old(self)@, PathV::Chunk(channel@, chunk)) ==> child_links_tagged(
                final(self)@,
                PathV::Chunk(channel@, chunk),
            ) == seq![
                LinkV {
                    source: path_id(final(self)@, PathV::Channel(channel@)),
                    target: id as int,
                    tag: TagV::ChildPath(PathV::Chunk(channel@, chunk)),
                    timestamp: now,
                },
            ],
    {
        let ghost s0 = self@;
        let chan_id = self.ensure_channel(channel, now);
        let ghost s1 = self@;
        let key = PathKey::Chunk(copy_channel(channel), chunk);
        let id = self.ensure_node(&key, Option::Some(chan_id), now);
        proof {
            let ckv = PathV::Chunk(channel@, chunk);
            let chv = PathV::Channel(channel@);
            if has_path(s0, ckv) {
                let i = choose|i: int| 0 <= i < s0.paths.len() && s0.paths[i] == ckv;
                assert(parent_of(s0.paths[i]) == Option::Some(chv));
                assert(has_path(s0, chv));
                assert(s1 == s0);
                assert(has_path(s1, ckv));
                assert(final(self)@ == s1);
            }
            if !has_path(s1, ckv) {
                let lv = LinkV {
                    source: chan_id as int,
                    target: s1.paths.len() as int,
                    tag: TagV::ChildPath(ckv),
                    timestamp: now,
                };
                assert(final(self)@.links == s1.links.push(lv));
                assert forall|src: int| #[trigger] info_links(final(self)@, src) == info_links(
                    old(self)@,
                    src,
                ) by {
                    lemma_filter_push(
                        s1.links,
                        |l: LinkV| l.source == src && l.tag is InfoMarker,
                        lv,
                    );
                    assert(info_links(s1, src) == info_links(s0, src));
                }
                assert forall|src: int| #[trigger] msg_links(final(self)@, src) == msg_links(
                    old(self)@,
                    src,
                ) by {
                    lemma_filter_push(
                        s1.links,
                        |l: LinkV| l.source == src && l.tag is MessageMarker,
                        lv,
                    );
                    assert(msg_links(s1, src) == msg_links(s0, src));
                }
                assert forall|c: PathV|
                    c != chv && c != ckv implies #[trigger] child_links_tagged(final(self)@, c)
                    == child_links_tagged(old(self)@, c) by {
                    lemma_filter_push(s1.links, |l: LinkV| l.tag == TagV::ChildPath(c), lv);
                    assert(child_links_tagged(s1, c) == child_links_tagged(s0, c));
                }
                lemma_no_path_no_child_links(s1, ckv);
                lemma_filter_push(s1.links, |l: LinkV| l.tag == TagV::ChildPath(ckv), lv);
                assert(child_links_tagged(final(self)@, ckv) =~= seq![lv]);
                assert(path_id(final(self)@, chv) == chan_id);
            } else {
                assert(final(self)@ == s1);
                assert forall|c: PathV|
                    c != chv && c != ckv implies #[trigger] child_links_tagged(final(self)@, c)
                    == child_links_tagged(old(self)@, c) by {
                    assert(child_links_tagged(s1, c) == child_links_tagged(s0, c));
                }
            }
        }
        id
    }
}

} // verus!
