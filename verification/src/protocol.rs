//! The messages that client and server exchange, and how they are framed.

use vstd::prelude::*;
use crate::bytes;
use crate::diff::SyncItem;
use crate::manifest::FileEntry;
use crate::signature;
use crate::signature::{ChunkSignature, SignatureView};

verus! {

pub const PROTOCOL_VERSION: u16 = 1;

/// A signature on its way.
#[derive(Debug, Clone, Copy)]
pub struct SerializableChunkSignature {
    pub offset: u64,
    pub length: usize,
    pub weak_hash: u64,
    pub strong_hash: [u8; 32],
}

impl View for SerializableChunkSignature {
    type V = SignatureView;

    open spec fn view(&self) -> SignatureView {
        SignatureView {
            offset: self.offset,
            length: self.length,
            weak_hash: self.weak_hash,
            strong_hash: self.strong_hash@,
        }
    }
}

pub open spec fn packet_views(signatures: Seq<SerializableChunkSignature>) -> Seq<SignatureView> {
    Seq::new(signatures.len(), |i: int| signatures[i]@)
}

impl From<ChunkSignature> for SerializableChunkSignature {
    fn from(sig: ChunkSignature) -> (res: Self) {
        SerializableChunkSignature {
            offset: sig.offset,
            length: sig.length,
            weak_hash: sig.weak_hash,
            strong_hash: sig.strong_hash,
        }
    }
}

impl vstd::std_specs::convert::FromSpecImpl<ChunkSignature> for SerializableChunkSignature {
    open spec fn obeys_from_spec() -> bool {
        true
    }

    open spec fn from_spec(sig: ChunkSignature) -> Self {
        SerializableChunkSignature {
            offset: sig.offset,
            length: sig.length,
            weak_hash: sig.weak_hash,
            strong_hash: sig.strong_hash,
        }
    }
}

impl From<SerializableChunkSignature> for ChunkSignature {
    fn from(sig: SerializableChunkSignature) -> (res: Self) {
        ChunkSignature {
            offset: sig.offset,
            length: sig.length,
            weak_hash: sig.weak_hash,
            strong_hash: sig.strong_hash,
        }
    }
}

impl vstd::std_specs::convert::FromSpecImpl<SerializableChunkSignature> for ChunkSignature {
    open spec fn obeys_from_spec() -> bool {
        true
    }

    open spec fn from_spec(sig: SerializableChunkSignature) -> Self {
        ChunkSignature {
            offset: sig.offset,
            length: sig.length,
            weak_hash: sig.weak_hash,
            strong_hash: sig.strong_hash,
        }
    }
}

/// What client and server say to each other.
#[derive(Debug)]
pub enum NetMessage {
    /// The client names the file that it wants to bring up to date.
    Handshake { filename: String, file_size: u64, protocol_version: u16 },
    /// The server says whether it has an old version.
    HandshakeAck { has_old_file: bool },
    /// The server is about to send signatures.
    RequestSignature,
    SignaturePacket { signatures: Vec<SerializableChunkSignature> },
    SignatureEnd,
    /// The client is about to send instructions.
    StartPatch,
    PatchDone,
    VerifyRequest,
    /// The server says whether it holds the new version, and its checksum.
    VerifyResult { matches: bool, checksum: [u8; 32] },
    Error { message: String },
    /// The client is about to send a manifest.
    ManifestRequest,
    ManifestPacket { entries: Vec<FileEntry> },
    ManifestEnd,
    /// The server says what is to be done with each file.
    SyncPlan { items: Vec<SyncItem> },
    /// The client is about to send a whole file, compressed.
    SendFullCompressed { filename: String, original_size: u64 },
    /// The client is about to send a whole file, compressed and encrypted.
    SendFullEncrypted { filename: String, original_size: u64, encrypted_size: u64 },
    /// The client names the file that it wants to send encrypted.
    HandshakeEncrypted { filename: String, file_size: u64, protocol_version: u16 },
}

impl NetMessage {
    pub fn handshake(filename: String, file_size: u64) -> (res: Self)
        ensures
            res == (NetMessage::Handshake {
                filename,
                file_size,
                protocol_version: PROTOCOL_VERSION,
            }),
    {
        NetMessage::Handshake { filename, file_size, protocol_version: PROTOCOL_VERSION }
    }

    pub fn handshake_encrypted(filename: String, file_size: u64) -> (res: Self)
        ensures
            res == (NetMessage::HandshakeEncrypted {
                filename,
                file_size,
                protocol_version: PROTOCOL_VERSION,
            }),
    {
        NetMessage::HandshakeEncrypted { filename, file_size, protocol_version: PROTOCOL_VERSION }
    }

    pub fn handshake_ack(has_old_file: bool) -> (res: Self)
        ensures
            res == (NetMessage::HandshakeAck { has_old_file }),
    {
        NetMessage::HandshakeAck { has_old_file }
    }

    pub fn signature_packet(signatures: Vec<ChunkSignature>) -> (res: Self)
        ensures
            res matches NetMessage::SignaturePacket { signatures: sent } && packet_views(sent@)
                == signature::views(signatures@),
    {
        let mut sent: Vec<SerializableChunkSignature> = Vec::new();
        let ghost all = signature::views(signatures@);
        let mut i: usize = 0;
        assert(packet_views(sent@) =~= all.take(0));
        while i < signatures.len()
            invariant
                i <= signatures@.len(),
                all == signature::views(signatures@),
                packet_views(sent@) == all.take(i as int),
            decreases signatures@.len() - i,
        {
            let ghost before = packet_views(sent@);
            sent.push(SerializableChunkSignature::from(signatures[i]));
            proof {
                assert(packet_views(sent@) =~= before.push(all[i as int]));
                assert(all.take(i + 1) =~= all.take(i as int).push(all[i as int]));
            }
            i = i + 1;
        }
        assert(all.take(i as int) =~= all);
        NetMessage::SignaturePacket { signatures: sent }
    }

    pub fn verify_result(matches: bool, checksum: [u8; 32]) -> (res: Self)
        ensures
            res == (NetMessage::VerifyResult { matches, checksum }),
    {
        NetMessage::VerifyResult { matches, checksum }
    }

    pub fn error(message: String) -> (res: Self)
        ensures
            res == (NetMessage::Error { message }),
    {
        NetMessage::Error { message }
    }

    pub fn manifest_packet(entries: Vec<FileEntry>) -> (res: Self)
        ensures
            res == (NetMessage::ManifestPacket { entries }),
    {
        NetMessage::ManifestPacket { entries }
    }

    pub fn sync_plan(items: Vec<SyncItem>) -> (res: Self)
        ensures
            res == (NetMessage::SyncPlan { items }),
    {
        NetMessage::SyncPlan { items }
    }

    pub fn get_protocol_version() -> (res: u16)
        ensures
            res == PROTOCOL_VERSION,
    {
        PROTOCOL_VERSION
    }
}

/// A message as it goes over the wire: its length in four bytes, then the message.
pub open spec fn framed(message: Seq<u8>) -> Seq<u8> {
    bytes::le_bytes(message.len(), 4) + message
}

/// Puts the length of a message before it.
pub fn frame(message: &[u8]) -> (res: Vec<u8>)
    ensures
        res@ == framed(message@),
{
    let mut res: Vec<u8> = Vec::new();
    let low: u32 = (message.len() as u64 % 0x1_0000_0000) as u32;
    proof {
        bytes::lemma_le_ranges();
        bytes::lemma_le_bytes_truncate(message@.len(), 4);
    }
    bytes::push_u32(&mut res, low);
    bytes::push_all(&mut res, message);
    assert(res@ =~= framed(message@));
    res
}

/// The length that stands before a message.
pub fn frame_len(prefix: &[u8]) -> (res: usize)
    requires
        prefix@.len() == 4,
    ensures
        res == bytes::le_value(prefix@) as usize,
{
    assert(prefix@.subrange(0, 4) =~= prefix@);
    bytes::read_u32(prefix, 0) as usize
}

/// The length that stands before a message leads to the message and what follows it.
pub proof fn law_frame_round_trip(message: Seq<u8>, rest: Seq<u8>)
    requires
        message.len() <= u32::MAX,
    ensures
        ({
            let wire = framed(message) + rest;
            let len = bytes::le_value(wire.take(4));
            &&& len == message.len()
            &&& wire.subrange(4, (4 + len) as int) == message
            &&& wire.skip((4 + len) as int) == rest
        }),
{
    let wire = framed(message) + rest;
    bytes::lemma_le_ranges();
    bytes::lemma_le_bytes_len(message.len(), 4);
    bytes::lemma_le_round_trip(message.len(), 4);
    assert(wire.take(4) =~= bytes::le_bytes(message.len(), 4));
    assert(wire.subrange(4, (4 + message.len()) as int) =~= message);
    assert(wire.skip((4 + message.len()) as int) =~= rest);
}

/// A signature on its way has what the signature has, and a packet is known one by one.
pub proof fn law_packet_is_known(signatures: Seq<SerializableChunkSignature>, i: int)
    requires
        0 <= i < signatures.len(),
    ensures
        packet_views(signatures).len() == signatures.len(),
        packet_views(signatures)[i].offset == signatures[i].offset,
        packet_views(signatures)[i].length == signatures[i].length,
        packet_views(signatures)[i].weak_hash == signatures[i].weak_hash,
        packet_views(signatures)[i].strong_hash == signatures[i].strong_hash@,
{
}

} // verus!
