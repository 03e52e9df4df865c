//! Sending long lists in packets of limited length.

use vstd::prelude::*;
use crate::manifest;
use crate::manifest::{EntryView, FileEntry, Manifest};
use crate::protocol;
use crate::protocol::NetMessage;
use crate::signature;
use crate::signature::{ChunkSignature, SignatureView};

verus! {

/// A packet has at most so many signatures.
pub const SIGNATURE_BATCH_SIZE: usize = 100;

/// A packet has at most so many entries of a manifest.
pub const MANIFEST_BATCH_SIZE: usize = 100;

/// A list in parts of `size` items, the last with what is left.
pub open spec fn batches<T>(list: Seq<T>, size: nat) -> Seq<Seq<T>>
    decreases list.len(),
{
    if list.len() == 0 || size == 0 {
        Seq::empty()
    } else if list.len() <= size {
        seq![list]
    } else {
        seq![list.take(size as int)] + batches(list.skip(size as int), size)
    }
}

/// The parts, one after the other, are the list.
pub proof fn law_batches_concatenate<T>(list: Seq<T>, size: nat)
    requires
        size > 0,
    ensures
        batches(list, size).flatten() == list,
    decreases list.len(),
{
    let parts = batches(list, size);
    if list.len() == 0 {
        assert(parts.flatten() =~= list);
    } else if list.len() <= size {
        parts.lemma_flatten_one_element();
    } else {
        let rest = batches(list.skip(size as int), size);
        law_batches_concatenate(list.skip(size as int), size);
        assert(parts.drop_first() =~= rest);
        assert(list.take(size as int) + list.skip(size as int) =~= list);
    }
}

/// No part is empty, and none has more than `size` items.
pub proof fn law_batch_sizes<T>(list: Seq<T>, size: nat, i: int)
    requires
        size > 0,
        0 <= i < batches(list, size).len(),
    ensures
        0 < batches(list, size)[i].len() <= size,
    decreases list.len(),
{
    if list.len() > size && i > 0 {
        law_batch_sizes(list.skip(size as int), size, i - 1);
    }
}

/// Whether a message is a packet of these signatures.
pub open spec fn is_signature_packet(message: NetMessage, part: Seq<SignatureView>) -> bool {
    message matches NetMessage::SignaturePacket { signatures } && protocol::packet_views(
        signatures@,
    ) == part
}

/// Whether messages are how these signatures are sent: an announcement, packets, an end.
pub open spec fn is_signature_stream(
    messages: Seq<NetMessage>,
    signatures: Seq<SignatureView>,
) -> bool {
    let parts = batches(signatures, SIGNATURE_BATCH_SIZE as nat);
    &&& messages.len() == parts.len() + 2
    &&& messages[0] is RequestSignature
    &&& forall|i: int|
        0 <= i < parts.len() ==> is_signature_packet(#[trigger] messages[i + 1], parts[i])
    &&& messages.last() is SignatureEnd
}

/// Whether a message is a packet of these entries.
pub open spec fn is_manifest_packet(message: NetMessage, part: Seq<EntryView>) -> bool {
    message matches NetMessage::ManifestPacket { entries } && manifest::views(entries@) == part
}

/// Whether messages are how these entries are sent: an announcement, packets, an end.
pub open spec fn is_manifest_stream(messages: Seq<NetMessage>, entries: Seq<EntryView>) -> bool {
    let parts = batches(entries, MANIFEST_BATCH_SIZE as nat);
    &&& messages.len() == parts.len() + 2
    &&& messages[0] is ManifestRequest
    &&& forall|i: int|
        0 <= i < parts.len() ==> is_manifest_packet(#[trigger] messages[i + 1], parts[i])
    &&& messages.last() is ManifestEnd
}

/// Every part but the last is full.
pub proof fn law_batches_are_full<T>(list: Seq<T>, size: nat, i: int)
    requires
        size > 0,
        0 <= i < batches(list, size).len() - 1,
    ensures
        batches(list, size)[i].len() == size,
    decreases list.len(),
{
    if list.len() > size && i > 0 {
        law_batches_are_full(list.skip(size as int), size, i - 1);
    }
}

/// How signatures are sent: an announcement first, an end last, and between them packets with one
/// to a hundred signatures each, a hundred but in the last.
pub proof fn law_signature_packets(
    messages: Seq<NetMessage>,
    signatures: Seq<SignatureView>,
    i: int,
)
    requires
        is_signature_stream(messages, signatures),
        0 < i < messages.len() - 1,
    ensures
        messages[0] is RequestSignature,
        messages.last() is SignatureEnd,
        messages[i] matches NetMessage::SignaturePacket { signatures: sent } && 0 < sent@.len()
            <= 100 && (i < messages.len() - 2 ==> sent@.len() == 100),
{
    let parts = batches(signatures, SIGNATURE_BATCH_SIZE as nat);
    assert(is_signature_packet(messages[i - 1 + 1], parts[i - 1]));
    law_batch_sizes(signatures, SIGNATURE_BATCH_SIZE as nat, i - 1);
    if i < messages.len() - 2 {
        law_batches_are_full(signatures, SIGNATURE_BATCH_SIZE as nat, i - 1);
    }
}

/// How a manifest is sent: an announcement first, an end last, and between them packets with one
/// to a hundred entries each, a hundred but in the last.
pub proof fn law_manifest_packets(messages: Seq<NetMessage>, entries: Seq<EntryView>, i: int)
    requires
        is_manifest_stream(messages, entries),
        0 < i < messages.len() - 1,
    ensures
        messages[0] is ManifestRequest,
        messages.last() is ManifestEnd,
        messages[i] matches NetMessage::ManifestPacket { entries: sent } && 0 < sent@.len() <= 100
            && (i < messages.len() - 2 ==> sent@.len() == 100),
{
    let parts = batches(entries, MANIFEST_BATCH_SIZE as nat);
    assert(is_manifest_packet(messages[i - 1 + 1], parts[i - 1]));
    law_batch_sizes(entries, MANIFEST_BATCH_SIZE as nat, i - 1);
    if i < messages.len() - 2 {
        law_batches_are_full(entries, MANIFEST_BATCH_SIZE as nat, i - 1);
    }
}

proof fn lemma_next_batch<T>(rest: Seq<T>, size: nat, count: int)
    requires
        size > 0,
        rest.len() > 0,
        count == (if rest.len() < size {
            rest.len() as int
        } else {
            size as int
        }),
    ensures
        batches(rest, size) == seq![rest.take(count)] + batches(rest.skip(count), size),
{
    if rest.len() <= size {
        assert(rest.take(count) =~= rest);
        assert(rest.skip(count).len() == 0);
        assert(seq![rest.take(count)] + Seq::<Seq<T>>::empty() =~= seq![rest]);
    }
}

/// The messages that send signatures.
pub fn signature_messages(signatures: &[ChunkSignature]) -> (messages: Vec<NetMessage>)
    ensures
        is_signature_stream(messages@, signature::views(signatures@)),
{
    let size: usize = signatures.len();
    let ghost all = signature::views(signatures@);
    let ghost parts = batches(all, SIGNATURE_BATCH_SIZE as nat);
    let mut messages: Vec<NetMessage> = Vec::new();
    messages.push(NetMessage::RequestSignature);
    let mut at: usize = 0;
    assert(all.skip(0) =~= all);
    assert(parts.skip(0) =~= parts);
    while at < size
        invariant
            at <= size == signatures@.len(),
            all == signature::views(signatures@),
            parts == batches(all, SIGNATURE_BATCH_SIZE as nat),
            1 <= messages@.len() <= parts.len() + 1,
            batches(all.skip(at as int), SIGNATURE_BATCH_SIZE as nat) == parts.skip(
                messages@.len() - 1,
            ),
            messages@[0] is RequestSignature,
            forall|i: int|
                0 <= i < messages@.len() - 1 ==> is_signature_packet(
                    #[trigger] messages@[i + 1],
                    parts[i],
                ),
        decreases size - at,
    {
        let count: usize = if size - at < SIGNATURE_BATCH_SIZE {
            size - at
        } else {
            SIGNATURE_BATCH_SIZE
        };
        let mut part: Vec<ChunkSignature> = Vec::new();
        let mut i: usize = 0;
        while i < count
            invariant
                i <= count,
                at + count <= size == signatures@.len(),
                part@ == signatures@.subrange(at as int, at + i),
            decreases count - i,
        {
            part.push(signatures[at + i]);
            assert(part@ =~= signatures@.subrange(at as int, at + i + 1));
            i = i + 1;
        }
        let ghost rest = all.skip(at as int);
        let ghost done = messages@;
        proof {
            lemma_next_batch(rest, SIGNATURE_BATCH_SIZE as nat, count as int);
            let tail = parts.skip(messages@.len() - 1);
            assert(tail[0] == parts[messages@.len() - 1]);
            assert(signature::views(part@) =~= rest.take(count as int));
            assert(rest.skip(count as int) =~= all.skip(at + count));
            assert(tail.skip(1) =~= batches(rest.skip(count as int), SIGNATURE_BATCH_SIZE as nat));
            assert(tail.skip(1) =~= parts.skip(messages@.len() as int));
        }
        messages.push(NetMessage::signature_packet(part));
        assert forall|i: int| 0 <= i < messages@.len() - 1 implies is_signature_packet(
            #[trigger] messages@[i + 1],
            parts[i],
        ) by {
            if i < done.len() - 1 {
                assert(messages@[i + 1] == done[i + 1]);
            }
        }
        at = at + count;
    }
    assert(all.skip(at as int).len() == 0);
    assert(parts.skip(messages@.len() - 1).len() == 0);
    let ghost done = messages@;
    messages.push(NetMessage::SignatureEnd);
    assert forall|i: int| 0 <= i < parts.len() implies is_signature_packet(
        #[trigger] messages@[i + 1],
        parts[i],
    ) by {
        assert(messages@[i + 1] == done[i + 1]);
    }
    messages
}

/// The messages that send a manifest.
pub fn manifest_messages(manifest: &Manifest) -> (messages: Vec<NetMessage>)
    ensures
        is_manifest_stream(messages@, manifest.listed()),
{
    let entries: &Vec<FileEntry> = &manifest.entries;
    let size: usize = entries.len();
    let ghost all = manifest.listed();
    let ghost parts = batches(all, MANIFEST_BATCH_SIZE as nat);
    let mut messages: Vec<NetMessage> = Vec::new();
    messages.push(NetMessage::ManifestRequest);
    let mut at: usize = 0;
    assert(all.skip(0) =~= all);
    assert(parts.skip(0) =~= parts);
    while at < size
        invariant
            at <= size == entries@.len(),
            all == manifest::views(entries@),
            parts == batches(all, MANIFEST_BATCH_SIZE as nat),
            1 <= messages@.len() <= parts.len() + 1,
            batches(all.skip(at as int), MANIFEST_BATCH_SIZE as nat) == parts.skip(
                messages@.len() - 1,
            ),
            messages@[0] is ManifestRequest,
            forall|i: int|
                0 <= i < messages@.len() - 1 ==> is_manifest_packet(
                    #[trigger] messages@[i + 1],
                    parts[i],
                ),
        decreases size - at,
    {
        let count: usize = if size - at < MANIFEST_BATCH_SIZE {
            size - at
        } else {
            MANIFEST_BATCH_SIZE
        };
        let mut part: Vec<FileEntry> = Vec::new();
        let mut i: usize = 0;
        assert(manifest::views(part@) =~= all.subrange(at as int, at + 0));
        while i < count
            invariant
                i <= count,
                at + count <= size == entries@.len(),
                all == manifest::views(entries@),
                manifest::views(part@) == all.subrange(at as int, at + i),
            decreases count - i,
        {
            let ghost before = manifest::views(part@);
            let entry: FileEntry = entries[at + i].clone();
            let ghost shown = entry@;
            part.push(entry);
            assert(manifest::views(part@) =~= before.push(shown));
            assert(all.subrange(at as int, at + i + 1) =~= before.push(shown));
            i = i + 1;
        }
        let ghost rest = all.skip(at as int);
        let ghost done = messages@;
        proof {
            lemma_next_batch(rest, MANIFEST_BATCH_SIZE as nat, count as int);
            let tail = parts.skip(messages@.len() - 1);
            assert(tail[0] == parts[messages@.len() - 1]);
            assert(manifest::views(part@) =~= rest.take(count as int));
            assert(rest.skip(count as int) =~= all.skip(at + count));
            assert(tail.skip(1) =~= batches(rest.skip(count as int), MANIFEST_BATCH_SIZE as nat));
            assert(tail.skip(1) =~= parts.skip(messages@.len() as int));
        }
        messages.push(NetMessage::manifest_packet(part));
        assert forall|i: int| 0 <= i < messages@.len() - 1 implies is_manifest_packet(
            #[trigger] messages@[i + 1],
            parts[i],
        ) by {
            if i < done.len() - 1 {
                assert(messages@[i + 1] == done[i + 1]);
            }
        }
        at = at + count;
    }
    assert(all.skip(at as int).len() == 0);
    assert(parts.skip(messages@.len() - 1).len() == 0);
    let ghost done = messages@;
    messages.push(NetMessage::ManifestEnd);
    assert forall|i: int| 0 <= i < parts.len() implies is_manifest_packet(
        #[trigger] messages@[i + 1],
        parts[i],
    ) by {
        assert(messages@[i + 1] == done[i + 1]);
    }
    messages
}

} // verus!
