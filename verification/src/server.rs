//! The server's side of a conversation: what to answer, what to store, and when to give up.

use vstd::prelude::*;
use crate::batch;
use crate::bytes;
use crate::client;
use crate::delta;
use crate::diff;
use crate::diff::{ItemView, SyncAction, SyncPlan};
use crate::instruction;
use crate::instruction::{Instr, PatchFormatError, PatchInstruction};
use crate::manifest;
use crate::manifest::{EntryView, FileEntry, Manifest};
use crate::pipeline;
use crate::pipeline::{CompressedPipeline, DataPipeline, PipelineError};
use crate::protocol::{NetMessage, PROTOCOL_VERSION};
use crate::signature;
use crate::signature::{ChunkSignature, SignatureView};

verus! {

/// What the server has heard.
#[derive(Debug, Clone, Copy, PartialEq, Eq, Structural)]
pub enum ServerStage {
    /// Nothing yet.
    Handshake,
    /// The handshake; now it looks for an old version.
    Lookup,
    /// It has an old version, and signatures are out.
    StartPatch,
    /// Instructions are coming in.
    Patch,
    /// It has no old version, and the file is coming in.
    Upload,
    /// The handshake of a file that comes encrypted; now it looks for an old version.
    EncryptedLookup,
    /// The size of the encrypted data is to be announced.
    Announcement,
    /// The encrypted data is coming in.
    Blob,
    /// The compressed file is coming in.
    Compressed,
    /// A manifest is coming in.
    Manifest,
    /// The manifest has come in; it looks at what it has itself.
    OwnManifest,
    /// The plan is out, and its files come in conversations of their own.
    Planned,
    /// The new version is stored; its checksum is to go out.
    Stored,
    Finished,
    Failed,
}

/// Why the server gave up.
#[derive(Debug, Clone, Copy, PartialEq, Eq, Structural)]
pub enum ServerError {
    /// The client speaks another version.
    VersionMismatch { found: u16 },
    /// The first message is no handshake.
    InvalidHandshake,
    /// Something else came in place of the start of a patch.
    ExpectedStartPatch,
    /// Something else came in place of the announcement of encrypted data for the file.
    ExpectedEncrypted,
    /// Something else came among the packets of a manifest.
    ExpectedManifest,
    /// What came is not compressed as it should be.
    DecompressionFailed,
    /// The file that came has another size than was announced.
    SizeMismatch { expected: u64, received: u64 },
}

/// What follows from an event.
#[derive(Debug)]
pub enum ServerAction {
    /// See whether there is a file with this name.
    FindFile { filename: String },
    /// This message goes out, and the conversation is over.
    Refuse { reply: NetMessage, error: ServerError },
    /// The conversation is over.
    Fail { error: ServerError },
    /// These messages go out; then the start of a patch is to come.
    SendSignatures { messages: Vec<NetMessage> },
    /// This message goes out; then the file is to come.
    ReceiveFile { reply: NetMessage },
    /// This message goes out; then the encrypted data is to be announced.
    ReceiveAnnouncement { reply: NetMessage },
    /// The encrypted data for this file is to come.
    ReceiveEncrypted { filename: String },
    /// The file with this name is to come, compressed.
    ReceiveCompressed { filename: String },
    /// Another message of a manifest is to come.
    ReceiveManifest,
    /// See what is stored.
    ListFiles,
    /// This message goes out; then the client brings the files up to date.
    SendPlan { reply: NetMessage },
    /// The files at these paths go, and the conversation is over.
    Remove { paths: Vec<String> },
    /// The instructions are to come.
    ReceivePatch,
    /// What came takes the place of the file.
    Store,
    /// This content takes the place of the file.
    StoreContent { content: Vec<u8> },
    /// This message goes out, and the conversation is over.
    Finish { reply: NetMessage },
}

/// The decimal digits of a number.
pub open spec fn decimal(n: nat) -> Seq<char>
    decreases n,
{
    let last = seq![('0' as int + (n % 10) as int) as char];
    if n < 10 {
        last
    } else {
        decimal(n / 10) + last
    }
}

/// The text of a decimal digit.
fn digit_text(n: u16) -> (res: &'static str)
    requires
        n < 10,
    ensures
        res@ == seq![('0' as int + n) as char],
{
    proof {
        reveal_strlit("0");
        reveal_strlit("1");
        reveal_strlit("2");
        reveal_strlit("3");
        reveal_strlit("4");
        reveal_strlit("5");
        reveal_strlit("6");
        reveal_strlit("7");
        reveal_strlit("8");
        reveal_strlit("9");
    }
    match n {
        0 => "0",
        1 => "1",
        2 => "2",
        3 => "3",
        4 => "4",
        5 => "5",
        6 => "6",
        7 => "7",
        8 => "8",
        _ => "9",
    }
}

/// Appends the decimal digits of a number.
fn append_decimal(text: &mut String, n: u16)
    ensures
        final(text)@ == old(text)@ + decimal(n as nat),
    decreases n,
{
    let ghost before = text@;
    if n >= 10 {
        append_decimal(text, n / 10);
    }
    text.append(digit_text(n % 10));
    assert(text@ =~= before + decimal(n as nat));
}

/// The text that answers a client with another version.
pub fn version_error(version: u16) -> (res: String)
    ensures
        res@ == "Unsupported protocol version: "@ + decimal(version as nat),
{
    let mut text: String = "Unsupported protocol version: ".to_owned();
    append_decimal(&mut text, version);
    text
}

/// Whether a client is refused with this text, for this reason.
pub open spec fn is_refusal(action: ServerAction, text: Seq<char>, reason: ServerError) -> bool {
    match action {
        ServerAction::Refuse { reply: NetMessage::Error { message }, error } => message@ == text
            && error == reason,
        _ => false,
    }
}

/// Whether the content of a file is kept where it has the announced size, and given up where it
/// has another or there is none.
pub open spec fn is_content_taken(
    content: Result<Seq<u8>, PipelineError>,
    file_size: u64,
    stage: ServerStage,
    action: ServerAction,
) -> bool {
    match content {
        Ok(data) => if data.len() == file_size {
            &&& stage == ServerStage::Stored
            &&& action matches ServerAction::StoreContent { content } && content@ == data
        } else {
            &&& stage == ServerStage::Failed
            &&& action == (ServerAction::Fail {
                error: ServerError::SizeMismatch {
                    expected: file_size,
                    received: data.len() as u64,
                },
            })
        },
        Err(_) => stage == ServerStage::Failed && action == (ServerAction::Fail {
            error: ServerError::DecompressionFailed,
        }),
    }
}

/// The paths of the files that a plan lets go.
pub open spec fn removals(plan: Seq<ItemView>) -> Seq<Seq<char>> {
    diff::paths(plan.filter(|item: ItemView| item.action == SyncAction::Delete))
}

/// A conversation about one file, or about what a directory holds.
pub struct ServerSession {
    stage: ServerStage,
    filename: String,
    file_size: u64,
    entries: Vec<FileEntry>,
    doomed: Vec<String>,
}

impl ServerSession {
    pub closed spec fn stage(&self) -> ServerStage {
        self.stage
    }

    /// The name of the file.
    pub closed spec fn filename(&self) -> Seq<char> {
        self.filename@
    }

    /// The size that was announced of what is to come.
    pub closed spec fn file_size(&self) -> u64 {
        self.file_size
    }

    /// The entries of the client's manifest that have come in.
    pub closed spec fn gathered(&self) -> Seq<EntryView> {
        manifest::views(self.entries@)
    }

    /// The paths of the files that go once the client is done.
    pub closed spec fn doomed(&self) -> Seq<Seq<char>> {
        diff::texts(self.doomed@)
    }

    pub fn new() -> (res: Self)
        ensures
            res.stage() == ServerStage::Handshake,
    {
        ServerSession {
            stage: ServerStage::Handshake,
            filename: String::new(),
            file_size: 0,
            entries: Vec::new(),
            doomed: Vec::new(),
        }
    }

    fn refuse_version(&mut self, found: u16) -> (action: ServerAction)
        ensures
            final(self).stage() == ServerStage::Failed,
            is_refusal(
                action,
                "Unsupported protocol version: "@ + decimal(found as nat),
                ServerError::VersionMismatch { found },
            ),
    {
        self.stage = ServerStage::Failed;
        ServerAction::Refuse {
            reply: NetMessage::error(version_error(found)),
            error: ServerError::VersionMismatch { found },
        }
    }

    fn refuse(&mut self, text: &str, error: ServerError) -> (action: ServerAction)
        ensures
            final(self).filename() == old(self).filename(),
            final(self).stage() == ServerStage::Failed,
            is_refusal(action, text@, error),
    {
        self.stage = ServerStage::Failed;
        ServerAction::Refuse { reply: NetMessage::error(text.to_owned()), error }
    }

    /// Takes the first message. A handshake of the right version, a file that is sent at once
    /// and a manifest are taken; all else is refused, with an answer that says why.
    pub fn on_handshake(&mut self, message: NetMessage) -> (action: ServerAction)
        requires
            old(self).stage() == ServerStage::Handshake,
        ensures
            match message {
                NetMessage::Handshake { filename, file_size, protocol_version } => {
                    if protocol_version == PROTOCOL_VERSION {
                        &&& final(self).stage() == ServerStage::Lookup
                        &&& final(self).filename() == filename@
                        &&& final(self).file_size() == file_size
                        &&& action matches ServerAction::FindFile { filename: name } && name@
                            == filename@
                    } else {
                        &&& final(self).stage() == ServerStage::Failed
                        &&& is_refusal(
                            action,
                            "Unsupported protocol version: "@ + decimal(protocol_version as nat),
                            ServerError::VersionMismatch { found: protocol_version },
                        )
                    }
                },
                NetMessage::HandshakeEncrypted { filename, file_size, protocol_version } => {
                    if protocol_version == PROTOCOL_VERSION {
                        &&& final(self).stage() == ServerStage::EncryptedLookup
                        &&& final(self).filename() == filename@
                        &&& final(self).file_size() == file_size
                        &&& action matches ServerAction::FindFile { filename: name } && name@
                            == filename@
                    } else {
                        &&& final(self).stage() == ServerStage::Failed
                        &&& is_refusal(
                            action,
                            "Unsupported protocol version: "@ + decimal(protocol_version as nat),
                            ServerError::VersionMismatch { found: protocol_version },
                        )
                    }
                },
                NetMessage::SendFullCompressed { filename, original_size } => {
                    &&& final(self).stage() == ServerStage::Compressed
                    &&& final(self).filename() == filename@
                    &&& final(self).file_size() == original_size
                    &&& action matches ServerAction::ReceiveCompressed { filename: name }
                        && name@ == filename@
                },
                NetMessage::SendFullEncrypted { filename, original_size, encrypted_size } => {
                    &&& final(self).stage() == ServerStage::Blob
                    &&& final(self).filename() == filename@
                    &&& final(self).file_size() == encrypted_size
                    &&& action matches ServerAction::ReceiveEncrypted { filename: name }
                        && name@ == filename@
                },
                NetMessage::ManifestRequest => {
                    &&& final(self).stage() == ServerStage::Manifest
                    &&& final(self).gathered() == Seq::<EntryView>::empty()
                    &&& action == ServerAction::ReceiveManifest
                },
                _ => {
                    &&& final(self).stage() == ServerStage::Failed
                    &&& is_refusal(
                        action,
                        "Expected Handshake message"@,
                        ServerError::InvalidHandshake,
                    )
                },
            },
    {
        match message {
            NetMessage::Handshake { filename, file_size, protocol_version } => {
                if protocol_version != PROTOCOL_VERSION {
                    return self.refuse_version(protocol_version);
                }
                self.stage = ServerStage::Lookup;
                self.filename = filename.clone();
                self.file_size = file_size;
                ServerAction::FindFile { filename }
            },
            NetMessage::HandshakeEncrypted { filename, file_size, protocol_version } => {
                if protocol_version != PROTOCOL_VERSION {
                    return self.refuse_version(protocol_version);
                }
                self.stage = ServerStage::EncryptedLookup;
                self.filename = filename.clone();
                self.file_size = file_size;
                ServerAction::FindFile { filename }
            },
            NetMessage::SendFullCompressed { filename, original_size } => {
                self.stage = ServerStage::Compressed;
                self.filename = filename.clone();
                self.file_size = original_size;
                ServerAction::ReceiveCompressed { filename }
            },
            NetMessage::SendFullEncrypted { filename, original_size, encrypted_size } => {
                self.stage = ServerStage::Blob;
                self.filename = filename.clone();
                self.file_size = encrypted_size;
                ServerAction::ReceiveEncrypted { filename }
            },
            NetMessage::ManifestRequest => {
                self.stage = ServerStage::Manifest;
                self.entries = Vec::new();
                assert(manifest::views(self.entries@) =~= Seq::empty());
                ServerAction::ReceiveManifest
            },
            _ => self.refuse("Expected Handshake message", ServerError::InvalidHandshake),
        }
    }

    /// Takes a message of the client's manifest. Packets gather until the end comes; all else is
    /// refused.
    pub fn on_manifest(&mut self, message: NetMessage) -> (action: ServerAction)
        requires
            old(self).stage() == ServerStage::Manifest,
        ensures
            match message {
                NetMessage::ManifestPacket { entries } => {
                    &&& final(self).stage() == ServerStage::Manifest
                    &&& final(self).gathered() == old(self).gathered() + manifest::views(entries@)
                    &&& action == ServerAction::ReceiveManifest
                },
                NetMessage::ManifestEnd => {
                    &&& final(self).stage() == ServerStage::OwnManifest
                    &&& final(self).gathered() == old(self).gathered()
                    &&& action == ServerAction::ListFiles
                },
                _ => {
                    &&& final(self).stage() == ServerStage::Failed
                    &&& is_refusal(
                        action,
                        "Expected ManifestPacket or ManifestEnd message"@,
                        ServerError::ExpectedManifest,
                    )
                },
            },
    {
        match message {
            NetMessage::ManifestPacket { entries } => {
                let mut packet: Vec<FileEntry> = entries;
                let ghost before = self.entries@;
                let ghost more = packet@;
                self.entries.append(&mut packet);
                assert(manifest::views(self.entries@) =~= manifest::views(before)
                    + manifest::views(more));
                ServerAction::ReceiveManifest
            },
            NetMessage::ManifestEnd => {
                self.stage = ServerStage::OwnManifest;
                ServerAction::ListFiles
            },
            _ => self.refuse(
                "Expected ManifestPacket or ManifestEnd message",
                ServerError::ExpectedManifest,
            ),
        }
    }

    /// Takes the manifest of what is stored: the plan that brings it to what the client holds
    /// goes out.
    pub fn on_own_manifest(&mut self, own: &Manifest) -> (action: ServerAction)
        requires
            old(self).stage() == ServerStage::OwnManifest,
        ensures
            final(self).stage() == ServerStage::Planned,
            final(self).doomed() == removals(
                diff::difference(old(self).gathered(), own.listed()),
            ),
            action matches ServerAction::SendPlan { reply } && reply
                matches NetMessage::SyncPlan { items } && diff::views(items@) == diff::difference(
                old(self).gathered(),
                own.listed(),
            ),
    {
        let mut entries: Vec<FileEntry> = Vec::new();
        core::mem::swap(&mut entries, &mut self.entries);
        let theirs: Manifest = Manifest::new(entries);
        let plan: SyncPlan = diff::diff(&theirs, own);
        self.doomed = client::files_to_delete(&plan);
        self.stage = ServerStage::Planned;
        ServerAction::SendPlan { reply: NetMessage::sync_plan(plan.items) }
    }

    /// The client has brought all files up to date: those that it does not have go.
    pub fn on_sync_end(&mut self) -> (action: ServerAction)
        requires
            old(self).stage() == ServerStage::Planned,
        ensures
            final(self).stage() == ServerStage::Finished,
            action matches ServerAction::Remove { paths } && diff::texts(paths@) == old(
                self,
            ).doomed(),
    {
        let mut paths: Vec<String> = Vec::new();
        core::mem::swap(&mut paths, &mut self.doomed);
        self.stage = ServerStage::Finished;
        ServerAction::Remove { paths }
    }

    /// Whether the file that is looked for comes encrypted.
    pub fn awaits_encrypted(&self) -> (res: bool)
        ensures
            res == (self.stage() == ServerStage::EncryptedLookup),
    {
        self.stage == ServerStage::EncryptedLookup
    }

    /// Takes whether there is an old version of a file that comes encrypted; the whole of it
    /// comes all the same.
    pub fn on_presence(&mut self, has_old_file: bool) -> (action: ServerAction)
        requires
            old(self).stage() == ServerStage::EncryptedLookup,
        ensures
            final(self).filename() == old(self).filename(),
            final(self).file_size() == old(self).file_size(),
            final(self).stage() == ServerStage::Announcement,
            action == (ServerAction::ReceiveAnnouncement {
                reply: NetMessage::HandshakeAck { has_old_file },
            }),
    {
        self.stage = ServerStage::Announcement;
        ServerAction::ReceiveAnnouncement { reply: NetMessage::handshake_ack(has_old_file) }
    }

    /// Takes the announcement of the encrypted data for the file of the handshake; all else is
    /// refused.
    pub fn on_announcement(&mut self, message: NetMessage) -> (action: ServerAction)
        requires
            old(self).stage() == ServerStage::Announcement,
        ensures
            final(self).filename() == old(self).filename(),
            match message {
                NetMessage::SendFullEncrypted { filename, original_size, encrypted_size }
                    if filename@ == old(self).filename() => {
                    &&& final(self).stage() == ServerStage::Blob
                    &&& final(self).file_size() == encrypted_size
                    &&& action matches ServerAction::ReceiveEncrypted { filename: name }
                        && name@ == filename@
                },
                _ => {
                    &&& final(self).stage() == ServerStage::Failed
                    &&& is_refusal(
                        action,
                        "Expected SendFullEncrypted message"@,
                        ServerError::ExpectedEncrypted,
                    )
                },
            },
    {
        match message {
            NetMessage::SendFullEncrypted { filename, original_size, encrypted_size } => {
                if filename == self.filename {
                    self.stage = ServerStage::Blob;
                    self.file_size = encrypted_size;
                    return ServerAction::ReceiveEncrypted { filename };
                }
            },
            _ => {},
        }
        self.refuse("Expected SendFullEncrypted message", ServerError::ExpectedEncrypted)
    }

    /// The compressed file has come in. Its content is kept where it has the size that was
    /// announced.
    pub fn on_compressed(&mut self, data: &[u8]) -> (action: ServerAction)
        requires
            old(self).stage() == ServerStage::Compressed,
        ensures
            final(self).filename() == old(self).filename(),
            final(self).file_size() == old(self).file_size(),
            is_content_taken(
                pipeline::decompressed(data@),
                old(self).file_size(),
                final(self).stage(),
                action,
            ),
    {
        let content: Result<Vec<u8>, PipelineError> = CompressedPipeline::new(
            pipeline::DEFAULT_COMPRESSION_LEVEL,
        ).reverse(data);
        self.on_decompressed(content)
    }

    /// Takes what decompressing the file gave.
    pub fn on_decompressed(&mut self, content: Result<Vec<u8>, PipelineError>) -> (action:
        ServerAction)
        requires
            old(self).stage() == ServerStage::Compressed,
        ensures
            final(self).filename() == old(self).filename(),
            final(self).file_size() == old(self).file_size(),
            is_content_taken(
                match content {
                    Ok(data) => Ok(data@),
                    Err(e) => Err(e),
                },
                old(self).file_size(),
                final(self).stage(),
                action,
            ),
    {
        match content {
            Ok(content) => {
                let received: u64 = content.len() as u64;
                if received != self.file_size {
                    self.stage = ServerStage::Failed;
                    return ServerAction::Fail {
                        error: ServerError::SizeMismatch { expected: self.file_size, received },
                    };
                }
                self.stage = ServerStage::Stored;
                ServerAction::StoreContent { content }
            },
            Err(_) => {
                self.stage = ServerStage::Failed;
                ServerAction::Fail { error: ServerError::DecompressionFailed }
            },
        }
    }

    /// Takes the signatures of the old version, if there is one: with them a delta is wanted,
    /// without the whole file. The answer to the handshake comes first.
    pub fn on_lookup(&mut self, signatures: Option<Vec<ChunkSignature>>) -> (action: ServerAction)
        requires
            old(self).stage() == ServerStage::Lookup,
        ensures
            final(self).filename() == old(self).filename(),
            final(self).file_size() == old(self).file_size(),
            match signatures {
                Some(list) => {
                    &&& final(self).stage() == ServerStage::StartPatch
                    &&& action matches ServerAction::SendSignatures { messages }
                        && messages@.len() > 0 && messages@[0] == (NetMessage::HandshakeAck {
                        has_old_file: true,
                    }) && batch::is_signature_stream(
                        messages@.skip(1),
                        signature::views(list@),
                    )
                },
                None => {
                    &&& final(self).stage() == ServerStage::Upload
                    &&& action matches ServerAction::ReceiveFile { reply } && reply == (
                    NetMessage::HandshakeAck { has_old_file: false })
                },
            },
    {
        match signatures {
            Some(list) => {
                self.stage = ServerStage::StartPatch;
                let mut rest: Vec<NetMessage> = batch::signature_messages(list.as_slice());
                let ghost stream = rest@;
                let mut messages: Vec<NetMessage> = Vec::new();
                messages.push(NetMessage::handshake_ack(true));
                messages.append(&mut rest);
                assert(messages@.skip(1) =~= stream);
                ServerAction::SendSignatures { messages }
            },
            None => {
                self.stage = ServerStage::Upload;
                ServerAction::ReceiveFile { reply: NetMessage::handshake_ack(false) }
            },
        }
    }

    /// Takes the message before the instructions.
    pub fn on_patch_start(&mut self, message: &NetMessage) -> (action: ServerAction)
        requires
            old(self).stage() == ServerStage::StartPatch,
        ensures
            final(self).filename() == old(self).filename(),
            final(self).file_size() == old(self).file_size(),
            if message is StartPatch {
                final(self).stage() == ServerStage::Patch && action == ServerAction::ReceivePatch
            } else {
                final(self).stage() == ServerStage::Failed && action == (ServerAction::Fail {
                    error: ServerError::ExpectedStartPatch,
                })
            },
    {
        match message {
            NetMessage::StartPatch => {
                self.stage = ServerStage::Patch;
                ServerAction::ReceivePatch
            },
            _ => {
                self.stage = ServerStage::Failed;
                ServerAction::Fail { error: ServerError::ExpectedStartPatch }
            },
        }
    }

    /// All instructions have been carried out.
    pub fn on_patch_applied(&mut self) -> (action: ServerAction)
        requires
            old(self).stage() == ServerStage::Patch,
        ensures
            final(self).filename() == old(self).filename(),
            final(self).file_size() == old(self).file_size(),
            final(self).stage() == ServerStage::Stored,
            action == ServerAction::Store,
    {
        self.stage = ServerStage::Stored;
        ServerAction::Store
    }

    /// The file, or the encrypted data for it, has come in, with so many bytes; it is kept only
    /// if they are as many as were announced.
    pub fn on_upload_end(&mut self, received: u64) -> (action: ServerAction)
        requires
            old(self).stage() == ServerStage::Upload || old(self).stage() == ServerStage::Blob,
        ensures
            final(self).filename() == old(self).filename(),
            final(self).file_size() == old(self).file_size(),
            if received == old(self).file_size() {
                final(self).stage() == ServerStage::Stored && action == ServerAction::Store
            } else {
                final(self).stage() == ServerStage::Failed && action == (ServerAction::Fail {
                    error: ServerError::SizeMismatch {
                        expected: old(self).file_size(),
                        received,
                    },
                })
            },
    {
        if received != self.file_size {
            self.stage = ServerStage::Failed;
            return ServerAction::Fail {
                error: ServerError::SizeMismatch { expected: self.file_size, received },
            };
        }
        self.stage = ServerStage::Stored;
        ServerAction::Store
    }

    /// The new version has taken the place of the file; its checksum goes out.
    pub fn on_stored(&mut self, checksum: [u8; 32]) -> (action: ServerAction)
        requires
            old(self).stage() == ServerStage::Stored,
        ensures
            final(self).filename() == old(self).filename(),
            final(self).file_size() == old(self).file_size(),
            final(self).stage() == ServerStage::Finished,
            action == (ServerAction::Finish {
                reply: NetMessage::VerifyResult { matches: true, checksum },
            }),
    {
        self.stage = ServerStage::Finished;
        ServerAction::Finish { reply: NetMessage::verify_result(true, checksum) }
    }
}

/// What gathers from the packets among messages.
pub open spec fn packets_joined(messages: Seq<NetMessage>) -> Seq<EntryView>
    decreases messages.len(),
{
    if messages.len() == 0 {
        Seq::empty()
    } else {
        packets_joined(messages.drop_last()) + match messages.last() {
            NetMessage::ManifestPacket { entries } => manifest::views(entries@),
            _ => Seq::empty(),
        }
    }
}

proof fn lemma_packets_joined(messages: Seq<NetMessage>, entries: Seq<EntryView>, n: int)
    requires
        batch::is_manifest_stream(messages, entries),
        0 <= n <= messages.len() - 2,
    ensures
        packets_joined(messages.subrange(1, 1 + n)) == batch::batches(
            entries,
            batch::MANIFEST_BATCH_SIZE as nat,
        ).take(n).flatten(),
    decreases n,
{
    let parts = batch::batches(entries, batch::MANIFEST_BATCH_SIZE as nat);
    if n == 0 {
        assert(messages.subrange(1, 1) =~= Seq::empty());
        assert(parts.take(0) =~= Seq::empty());
    } else {
        lemma_packets_joined(messages, entries, n - 1);
        assert(batch::is_manifest_packet(messages[n - 1 + 1], parts[n - 1]));
        assert(messages.subrange(1, 1 + n).drop_last() =~= messages.subrange(1, n));
        assert(parts.take(n) =~= parts.take(n - 1).push(parts[n - 1]));
        parts.take(n - 1).lemma_flatten_push(parts[n - 1]);
    }
}

/// The messages that send a manifest open a conversation, bring packets and end them, and what
/// gathers from the packets is the manifest.
pub proof fn law_manifest_arrives(messages: Seq<NetMessage>, entries: Seq<EntryView>)
    requires
        batch::is_manifest_stream(messages, entries),
    ensures
        messages[0] is ManifestRequest,
        forall|i: int| 0 < i < messages.len() - 1 ==> #[trigger] messages[i] is ManifestPacket,
        messages.last() is ManifestEnd,
        packets_joined(messages.subrange(1, messages.len() - 1)) == entries,
{
    let parts = batch::batches(entries, batch::MANIFEST_BATCH_SIZE as nat);
    lemma_packets_joined(messages, entries, messages.len() - 2);
    assert(parts.take(parts.len() as int) =~= parts);
    batch::law_batches_concatenate(entries, batch::MANIFEST_BATCH_SIZE as nat);
    assert forall|i: int| 0 < i < messages.len() - 1 implies #[trigger] messages[i]
        is ManifestPacket by {
        assert(batch::is_manifest_packet(messages[i - 1 + 1], parts[i - 1]));
    }
}

/// The files that go are those that the server has and the client has nothing in place of.
pub proof fn law_removed_files(client: Seq<EntryView>, server: Seq<EntryView>, path: Seq<char>)
    ensures
        removals(diff::difference(client, server)).contains(path) <==> diff::has_file(server, path)
            && !diff::has_file(client, path) && !diff::has_dir(client, path),
{
    let plan = diff::difference(client, server);
    let goes = |item: ItemView| item.action == SyncAction::Delete;
    let item = ItemView { path, action: SyncAction::Delete };
    diff::law_difference_items(client, server, item);
    if plan.contains(item) {
        let i = choose|i: int| 0 <= i < plan.len() && plan[i] == item;
        plan.lemma_filter_contains(goes, i);
        let k = choose|k: int| 0 <= k < plan.filter(goes).len() && plan.filter(goes)[k] == item;
        assert(removals(plan)[k] == path);
    }
    if removals(plan).contains(path) {
        let k = choose|k: int| 0 <= k < removals(plan).len() && removals(plan)[k] == path;
        plan.lemma_filter_pred(goes, k);
        assert(plan.filter(goes)[k] == item);
        assert(plan.filter(goes).contains(item));
        plan.lemma_filter_contains_rev(goes, item);
    }
}

/// The tag of an instruction that only streams know.
pub const TAG_SKIP: u8 = 0x04;

/// An instruction as it comes in a stream.
#[derive(Debug)]
pub enum StreamInstruction {
    Patch { instruction: PatchInstruction },
    Skip { length: u64 },
}

/// An instruction of a stream, with its bytes as a sequence.
#[verifier::ext_equal]
pub enum StreamInstr {
    Patch { instr: Instr },
    Skip { length: u64 },
}

impl View for StreamInstruction {
    type V = StreamInstr;

    open spec fn view(&self) -> StreamInstr {
        match self {
            StreamInstruction::Patch { instruction } => StreamInstr::Patch {
                instr: instruction@,
            },
            StreamInstruction::Skip { length } => StreamInstr::Skip { length: *length },
        }
    }
}

/// How many bytes of numbers follow a tag in a stream.
pub open spec fn spec_stream_header_len(tag: u8) -> Option<nat> {
    if tag == TAG_SKIP {
        Some(8)
    } else {
        instruction::spec_header_len(tag)
    }
}

/// How many bytes of data the numbers behind a tag announce.
pub open spec fn spec_stream_payload_len(tag: u8, header: Seq<u8>) -> usize {
    if tag == TAG_SKIP {
        0
    } else {
        instruction::spec_payload_len(tag, header)
    }
}

/// The instruction that a tag, its numbers and its data make.
pub open spec fn stream_assembled(tag: u8, header: Seq<u8>, payload: Seq<u8>) -> StreamInstr {
    if tag == TAG_SKIP {
        StreamInstr::Skip { length: bytes::le_value(header) as u64 }
    } else {
        StreamInstr::Patch { instr: instruction::assembled(tag, header, payload) }
    }
}

/// How many bytes to read behind a tag.
pub fn stream_header_len(tag: u8) -> (res: Result<usize, PatchFormatError>)
    ensures
        match res {
            Ok(n) => spec_stream_header_len(tag) == Some(n as nat),
            Err(e) => spec_stream_header_len(tag) == None::<nat> && e
                == PatchFormatError::UnknownTag(tag),
        },
{
    if tag == TAG_SKIP {
        return Ok(8);
    }
    match instruction::header_len(tag) {
        Some(n) => Ok(n),
        None => Err(PatchFormatError::UnknownTag(tag)),
    }
}

/// How many bytes to read behind the numbers.
pub fn stream_payload_len(tag: u8, header: &[u8]) -> (res: usize)
    requires
        spec_stream_header_len(tag) == Some(header@.len()),
    ensures
        res == spec_stream_payload_len(tag, header@),
{
    if tag == TAG_SKIP {
        0
    } else {
        instruction::payload_len(tag, header)
    }
}

/// The instruction that a tag, its numbers and its data make.
pub fn stream_assemble(tag: u8, header: &[u8], payload: Vec<u8>) -> (res: StreamInstruction)
    requires
        spec_stream_header_len(tag) == Some(header@.len()),
    ensures
        res@ == stream_assembled(tag, header@, payload@),
{
    if tag == TAG_SKIP {
        assert(header@.subrange(0, 8) =~= header@);
        StreamInstruction::Skip { length: bytes::read_u64(header, 0) }
    } else {
        StreamInstruction::Patch { instruction: instruction::assemble(tag, header, payload) }
    }
}

/// The instructions that a stream holds, or what is wrong with the first that is none.
pub open spec fn stream_instrs(wire: Seq<u8>) -> Result<Seq<StreamInstr>, PatchFormatError>
    decreases wire.len(),
{
    if wire.len() == 0 {
        Ok(Seq::empty())
    } else {
        match spec_stream_header_len(wire[0]) {
            None => Err(PatchFormatError::UnknownTag(wire[0])),
            Some(header_len) => {
                let header = wire.skip(1).take(header_len as int);
                let payload_len = spec_stream_payload_len(wire[0], header);
                let end = 1 + header_len + payload_len;
                if wire.len() < 1 + header_len || wire.len() < end {
                    Err(PatchFormatError::UnexpectedEof)
                } else {
                    match stream_instrs(wire.skip(end)) {
                        Err(e) => Err(e),
                        Ok(rest) => Ok(
                            seq![
                                stream_assembled(
                                    wire[0],
                                    header,
                                    wire.subrange(1 + header_len as int, end),
                                ),
                            ] + rest,
                        ),
                    }
                }
            },
        }
    }
}

/// Instructions of a patch as a stream has them.
pub open spec fn streamed(list: Seq<Instr>) -> Seq<StreamInstr> {
    Seq::new(list.len(), |i: int| StreamInstr::Patch { instr: list[i] })
}

/// Reading instructions from a stream tag by tag, number by number, gives what was written.
pub proof fn law_stream_round_trip(list: Seq<Instr>)
    requires
        forall|i: int| 0 <= i < list.len() ==> instruction::fits(#[trigger] list[i]),
    ensures
        stream_instrs(instruction::all_bytes(list)) == Ok::<Seq<StreamInstr>, PatchFormatError>(
            streamed(list),
        ),
    decreases list.len(),
{
    if list.len() == 0 {
        assert(streamed(list) =~= Seq::empty());
    } else {
        let wire = instruction::all_bytes(list);
        let first = instruction::instr_bytes(list[0]);
        let tail = instruction::all_bytes(list.skip(1));
        assert forall|i: int| 0 <= i < list.skip(1).len() implies instruction::fits(
            #[trigger] list.skip(1)[i],
        ) by {
            assert(instruction::fits(list[i + 1]));
        }
        law_stream_round_trip(list.skip(1));
        assert(instruction::fits(list[0]));
        instruction::lemma_instr_round_trip(list[0], tail);
        let data = first.skip(1) + tail;
        assert(wire.skip(1) =~= data);
        let header_len = instruction::spec_header_len(first[0])->0 as int;
        let header = data.take(header_len);
        let end = header_len + instruction::spec_payload_len(first[0], header);
        assert(wire.skip(1).take(header_len) == header);
        assert(wire.subrange(1 + header_len, 1 + end) =~= data.subrange(header_len, end));
        assert(wire.skip(1 + end) =~= tail);
        assert(streamed(list) =~= seq![StreamInstr::Patch { instr: list[0] }] + streamed(
            list.skip(1),
        ));
    }
}

/// The instructions of a delta, written one after the other, are read from the stream as they
/// were.
pub proof fn law_delta_arrives(signatures: Seq<SignatureView>, new_data: Seq<u8>)
    ensures
        stream_instrs(instruction::all_bytes(delta::raw_delta(signatures, new_data))) == Ok::<
            Seq<StreamInstr>,
            PatchFormatError,
        >(streamed(delta::raw_delta(signatures, new_data))),
{
    let list = delta::raw_delta(signatures, new_data);
    assert forall|i: int| 0 <= i < list.len() implies instruction::fits(#[trigger] list[i]) by {
        delta::lemma_delta_fits(signatures, new_data, i);
    }
    law_stream_round_trip(list);
}

/// The digits of a number: those of a tenth of it, and then the last one; a number below ten has
/// one digit.
pub proof fn law_decimal_digits(n: nat, last: nat)
    requires
        last < 10,
    ensures
        decimal(last) == seq![(48 + last) as char],
        n > 0 ==> decimal(10 * n + last) == decimal(n).push((48 + last) as char),
{
    if n > 0 {
        assert((10 * n + last) / 10 == n);
        assert((10 * n + last) % 10 == last);
        assert(decimal(n) + seq![(48 + last) as char] =~= decimal(n).push((48 + last) as char));
    }
}

/// The content of a compressed file is stored exactly where there is one and it has as many bytes
/// as were announced; otherwise the conversation fails, and says why.
pub proof fn law_announced_size_is_kept(
    content: Result<Seq<u8>, PipelineError>,
    file_size: u64,
    stage: ServerStage,
    action: ServerAction,
)
    requires
        is_content_taken(content, file_size, stage, action),
    ensures
        stage == ServerStage::Stored <==> (content matches Ok(data) && data.len() == file_size),
        stage == ServerStage::Stored || stage == ServerStage::Failed,
        stage == ServerStage::Stored ==> (action matches ServerAction::StoreContent {
            content: stored,
        } && content == Ok::<Seq<u8>, PipelineError>(stored@)),
        stage == ServerStage::Failed ==> action == (ServerAction::Fail {
            error: match content {
                Ok(data) => ServerError::SizeMismatch {
                    expected: file_size,
                    received: data.len() as u64,
                },
                Err(_) => ServerError::DecompressionFailed,
            },
        }),
{
}

/// A refusal sends the client an error with the text, and ends the conversation for the reason.
pub proof fn law_refusal_says_why(action: ServerAction, text: Seq<char>, reason: ServerError)
    requires
        is_refusal(action, text, reason),
    ensures
        match action {
            ServerAction::Refuse { reply: NetMessage::Error { message }, error } => message@ == text
                && error == reason,
            _ => false,
        },
{
}

/// A skip in a stream is read with its length, and the rest of the stream after it.
pub proof fn law_skip_is_read(length: u64, rest: Seq<u8>)
    ensures
        stream_instrs(seq![4u8] + bytes::le_bytes(length as nat, 8) + rest) == match stream_instrs(
            rest,
        ) {
            Ok(list) => Ok::<Seq<StreamInstr>, PatchFormatError>(
                seq![StreamInstr::Skip { length }] + list,
            ),
            Err(e) => Err::<Seq<StreamInstr>, PatchFormatError>(e),
        },
{
    let wire = seq![4u8] + bytes::le_bytes(length as nat, 8) + rest;
    bytes::lemma_le_bytes_len(length as nat, 8);
    bytes::lemma_le_ranges();
    bytes::lemma_le_round_trip(length as nat, 8);
    assert(wire.skip(1).take(8) =~= bytes::le_bytes(length as nat, 8));
    assert(wire.skip(9) =~= rest);
}

/// A stream is refused at a tag that stands for nothing.
pub proof fn law_unknown_stream_tag_is_refused(tag: u8, rest: Seq<u8>)
    requires
        tag == 0 || tag > 4,
    ensures
        stream_instrs(seq![tag] + rest) == Err::<Seq<StreamInstr>, PatchFormatError>(
            PatchFormatError::UnknownTag(tag),
        ),
{
    assert((seq![tag] + rest)[0] == tag);
}

/// What is known of an instruction of a stream is which it is and what it holds.
pub proof fn law_stream_instructions_are_known(instruction: StreamInstruction)
    ensures
        match instruction {
            StreamInstruction::Patch { instruction: inner } => instruction@ == (
            StreamInstr::Patch { instr: inner@ }),
            StreamInstruction::Skip { length } => instruction@ == (StreamInstr::Skip { length }),
        },
{
}

/// Instructions of a patch are in a stream one for one.
pub proof fn law_streamed_one_for_one(list: Seq<Instr>, i: int)
    requires
        0 <= i < list.len(),
    ensures
        streamed(list).len() == list.len(),
        streamed(list)[i] == (StreamInstr::Patch { instr: list[i] }),
{
}

} // verus!
