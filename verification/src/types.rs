//! Core data model: identities, channels, records, and their ghost views.
//!
//! Every exec type that carries byte strings has a ghost mirror over `Seq<u8>`
//! so that contracts can speak of mathematical values.

use vstd::prelude::*;

verus! {

/// Opaque public-key identifier of a participant, assigned externally.
pub type IdentityKey = u64;

/// Timestamp from a writer's local clock; never validated against global order.
pub type Timestamp = u64;

/// Logical identity of a chat room: `(category, channel_id)`.
#[derive(Debug)]
pub struct Channel {
    pub category: Vec<u8>,
    pub channel_id: Vec<u8>,
}

#[verifier::ext_equal]
pub struct ChannelV {
    pub category: Seq<u8>,
    pub channel_id: Seq<u8>,
}

impl View for Channel {
    type V = ChannelV;

    open spec fn view(&self) -> ChannelV {
        ChannelV { category: self.category@, channel_id: self.channel_id@ }
    }
}

impl DeepView for Channel {
    type V = ChannelV;

    open spec fn deep_view(&self) -> ChannelV {
        self.view()
    }
}

/// Immutable channel metadata record; "updates" are new records linked
/// alongside old ones and resolved latest-wins at read time.
#[derive(Debug)]
pub struct ChannelInfo {
    pub created_by: IdentityKey,
    pub created_at: Timestamp,
    pub name: Vec<u8>,
}

#[verifier::ext_equal]
pub struct ChannelInfoV {
    pub created_by: IdentityKey,
    pub created_at: Timestamp,
    pub name: Seq<u8>,
}

impl View for ChannelInfo {
    type V = ChannelInfoV;

    open spec fn view(&self) -> ChannelInfoV {
        ChannelInfoV {
            created_by: self.created_by,
            created_at: self.created_at,
            name: self.name@,
        }
    }
}

/// Immutable message record payload.
#[derive(Debug)]
pub struct Message {
    pub content: Vec<u8>,
}

#[verifier::ext_equal]
pub struct MessageV {
    pub content: Seq<u8>,
}

impl View for Message {
    type V = MessageV;

    open spec fn view(&self) -> MessageV {
        MessageV { content: self.content@ }
    }
}

impl DeepView for Message {
    type V = MessageV;

    open spec fn deep_view(&self) -> MessageV {
        self.view()
    }
}

/// Read-time projection of a channel: its identity, the winning metadata
/// record, and the highest chunk index reachable from its path. Never stored.
#[derive(Debug)]
pub struct ChannelData {
    pub channel: Channel,
    pub info: ChannelInfo,
    pub latest_chunk: u32,
}

#[verifier::ext_equal]
pub struct ChannelDataV {
    pub channel: ChannelV,
    pub info: ChannelInfoV,
    pub latest_chunk: u32,
}

impl View for ChannelData {
    type V = ChannelDataV;

    open spec fn view(&self) -> ChannelDataV {
        ChannelDataV { channel: self.channel@, info: self.info@, latest_chunk: self.latest_chunk }
    }
}

impl DeepView for ChannelData {
    type V = ChannelDataV;

    open spec fn deep_view(&self) -> ChannelDataV {
        self.view()
    }
}

/// A stored message together with its record hash and authorship data.
#[derive(Debug)]
pub struct MessageData {
    pub message: Message,
    pub record_hash: usize,
    pub created_by: IdentityKey,
    pub created_at: Timestamp,
}

#[verifier::ext_equal]
pub struct MessageDataV {
    pub message: MessageV,
    pub record_hash: usize,
    pub created_by: IdentityKey,
    pub created_at: Timestamp,
}

impl View for MessageData {
    type V = MessageDataV;

    open spec fn view(&self) -> MessageDataV {
        MessageDataV {
            message: self.message@,
            record_hash: self.record_hash,
            created_by: self.created_by,
            created_at: self.created_at,
        }
    }
}

/// Typed failures of the direct write paths. Listing endpoints degrade
/// gracefully (skip bad items) instead of raising these.
#[derive(PartialEq, Eq, Structural, Clone, Copy, Debug)]
pub enum ChatError {
    /// A payload could not be decoded.
    DecodeError,
    /// Message content exceeds the admissible limit.
    ContentTooLarge,
}

// --- byte-string helpers -------------------------------------------------

/// Structural equality of two byte strings.
pub fn bytes_eq(a: &Vec<u8>, b: &Vec<u8>) -> (r: bool)
    ensures
        r == (a@ == b@),
{
    if a.len() != b.len() {
        return false;
    }
    let mut i: usize = 0;
    while i < a.len()
        invariant
            i <= a.len(),
            a@.len() == b@.len(),
            forall|j: int| 0 <= j < i ==> a@[j] == b@[j],
        decreases a.len() - i,
    {
        if a[i] != b[i] {
            return false;
        }
        i += 1;
    }
    proof {
        assert(a@ =~= b@);
    }
    true
}

/// Copy of a byte string with the same view.
pub fn copy_bytes(a: &Vec<u8>) -> (r: Vec<u8>)
    ensures
        r@ == a@,
{
    let mut r: Vec<u8> = Vec::new();
    let mut i: usize = 0;
    while i < a.len()
        invariant
            i <= a.len(),
            r@ =~= a@.take(i as int),
        decreases a.len() - i,
    {
        r.push(a[i]);
        i += 1;
    }
    proof {
        assert(r@ =~= a@);
    }
    r
}

/// Structural equality of two channel identities.
pub fn channel_eq(a: &Channel, b: &Channel) -> (r: bool)
    ensures
        r == (a@ == b@),
{
    let r = bytes_eq(&a.category, &b.category) && bytes_eq(&a.channel_id, &b.channel_id);
    proof {
        if a.category@ == b.category@ && a.channel_id@ == b.channel_id@ {
            assert(a@ =~= b@);
        }
    }
    r
}

/// Copy of a channel identity with the same view.
pub fn copy_channel(a: &Channel) -> (r: Channel)
    ensures
        r@ == a@,
{
    let r = Channel { category: copy_bytes(&a.category), channel_id: copy_bytes(&a.channel_id) };
    proof {
        assert(r@ =~= a@);
    }
    r
}

/// Copy of a channel-info record with the same view.
pub fn copy_info(a: &ChannelInfo) -> (r: ChannelInfo)
    ensures
        r@ == a@,
{
    let r = ChannelInfo {
        created_by: a.created_by,
        created_at: a.created_at,
        name: copy_bytes(&a.name),
    };
    proof {
        assert(r@ =~= a@);
    }
    r
}

/// Copy of a message payload with the same view.
pub fn copy_message(a: &Message) -> (r: Message)
    ensures
        r@ == a@,
{
    let r = Message { content: copy_bytes(&a.content) };
    proof {
        assert(r@ =~= a@);
    }
    r
}

} // verus!
