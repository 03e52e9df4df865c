//! The client's side of a conversation: what to send, what to wait for, and when a file is up to
//! date. The bytes are moved elsewhere; here is decided what moves.

use vstd::prelude::*;
use crate::batch;
use crate::bytes;
use crate::compression;
use crate::crypto;
use crate::crypto::KeyContext;
use crate::diff;
use crate::diff::{ItemView, SyncAction, SyncItem, SyncPlan};
use crate::digest;
use crate::instruction;
use crate::instruction::PatchInstruction;
use crate::optimize;
use crate::pipeline;
use crate::pipeline::{CompressedPipeline, DataPipeline, PipelineError, SecurePipeline};
use crate::protocol;
use crate::protocol::{NetMessage, SerializableChunkSignature, PROTOCOL_VERSION};
use crate::signature;
use crate::signature::{ChunkSignature, SignatureView};

verus! {

/// Files with fewer bytes are sent whole when a directory is brought up to date.
pub const SMALL_FILE_THRESHOLD: u64 = 102400;

/// So many of the errors of a directory are shown.
pub const SHOWN_ERRORS: usize = 5;

/// So many files of a directory are on their way at once.
pub const PARALLEL_FILES: usize = 50;

/// Why a conversation failed.
#[derive(Debug)]
pub enum ClientError {
    /// The server says what is wrong.
    Server { message: String },
    /// The answer to the handshake is none.
    UnexpectedResponse,
    /// Signatures were not announced.
    ExpectedRequestSignature,
    /// Something else came among the signatures.
    UnexpectedWhileReceivingSignatures,
    /// The server does not hold what was sent.
    VerificationFailed,
    /// Something else came in place of the verification.
    ExpectedVerification,
    /// Something else came in place of the plan.
    ExpectedSyncPlan,
}

/// What is to be done for a file, and for how.
#[derive(Debug, Clone, Copy, PartialEq, Eq, Structural)]
pub enum Stage {
    /// Nothing has been said.
    Begin,
    /// The handshake is out.
    Ack,
    /// The server is to announce signatures.
    SignatureRequest,
    /// Signatures are coming in.
    Signatures,
    /// The server is to say what it holds.
    Verification,
    Finished,
    Failed,
}

/// How a conversation opens.
#[derive(Debug)]
pub enum Opening {
    /// This message goes out, and an answer comes.
    Handshake { message: NetMessage },
    /// This message goes out, then the file, compressed.
    Compressed { message: NetMessage },
    /// The file goes out, compressed and encrypted, under this name.
    Encrypted { filename: String },
}

/// What follows from a message.
#[derive(Debug)]
pub enum Action {
    /// Another message is to come.
    Receive,
    /// The file goes out from here on.
    UploadFull { resume_offset: u64 },
    /// The file goes out from here on, compressed and encrypted, under this name.
    UploadEncrypted { filename: String, resume_offset: u64 },
    /// The delta against the signatures that came goes out.
    SendPatch,
    /// The server holds the file, with this checksum.
    Finish { checksum: [u8; 32] },
    Fail { error: ClientError },
}

/// A conversation about one file.
pub struct ClientSession {
    stage: Stage,
    /// The name that the server knows the file by.
    filename: String,
    file_size: u64,
    /// The digest of what the server is to hold in the end.
    checksum: [u8; 32],
    /// Whether there is a key.
    is_encrypted: bool,
    /// Whether the file is one of a directory; then a plan says whether a delta is wanted.
    in_directory: bool,
    use_delta: bool,
    signatures: Vec<ChunkSignature>,
}

/// A conversation, with its texts as sequences.
#[verifier::ext_equal]
pub struct SessionView {
    pub stage: Stage,
    pub filename: Seq<char>,
    pub file_size: u64,
    pub checksum: Seq<u8>,
    pub is_encrypted: bool,
    pub in_directory: bool,
    pub use_delta: bool,
    pub signatures: Seq<SignatureView>,
}

impl View for ClientSession {
    type V = SessionView;

    closed spec fn view(&self) -> SessionView {
        SessionView {
            stage: self.stage,
            filename: self.filename@,
            file_size: self.file_size,
            checksum: self.checksum@,
            is_encrypted: self.is_encrypted,
            in_directory: self.in_directory,
            use_delta: self.use_delta,
            signatures: signature::views(self.signatures@),
        }
    }
}

/// What follows from a message, with its texts as sequences.
pub enum ActionView {
    Receive,
    UploadFull { resume_offset: u64 },
    UploadEncrypted { filename: Seq<char>, resume_offset: u64 },
    SendPatch,
    Finish { checksum: Seq<u8> },
    Fail { error: ErrorView },
}

/// Why a conversation failed, with its text as a sequence.
pub enum ErrorView {
    Server { message: Seq<char> },
    UnexpectedResponse,
    ExpectedRequestSignature,
    UnexpectedWhileReceivingSignatures,
    VerificationFailed,
    ExpectedVerification,
    ExpectedSyncPlan,
}

impl View for ClientError {
    type V = ErrorView;

    open spec fn view(&self) -> ErrorView {
        match self {
            ClientError::Server { message } => ErrorView::Server { message: message@ },
            ClientError::UnexpectedResponse => ErrorView::UnexpectedResponse,
            ClientError::ExpectedRequestSignature => ErrorView::ExpectedRequestSignature,
            ClientError::UnexpectedWhileReceivingSignatures => {
                ErrorView::UnexpectedWhileReceivingSignatures
            },
            ClientError::VerificationFailed => ErrorView::VerificationFailed,
            ClientError::ExpectedVerification => ErrorView::ExpectedVerification,
            ClientError::ExpectedSyncPlan => ErrorView::ExpectedSyncPlan,
        }
    }
}

impl View for Action {
    type V = ActionView;

    open spec fn view(&self) -> ActionView {
        match self {
            Action::Receive => ActionView::Receive,
            Action::UploadFull { resume_offset } => ActionView::UploadFull {
                resume_offset: *resume_offset,
            },
            Action::UploadEncrypted { filename, resume_offset } => ActionView::UploadEncrypted {
                filename: filename@,
                resume_offset: *resume_offset,
            },
            Action::SendPatch => ActionView::SendPatch,
            Action::Finish { checksum } => ActionView::Finish { checksum: checksum@ },
            Action::Fail { error } => ActionView::Fail { error: error@ },
        }
    }
}

/// Whether a file is sent whole without asking: the small ones of a directory are.
pub open spec fn is_sent_at_once(session: SessionView) -> bool {
    session.in_directory && session.file_size < SMALL_FILE_THRESHOLD
}

/// Whether a message names the file of a session, and says whether it comes encrypted.
pub open spec fn is_handshake_of(message: NetMessage, session: SessionView) -> bool {
    match message {
        NetMessage::Handshake { filename, file_size, protocol_version } => !session.is_encrypted
            && filename@ == session.filename && file_size == session.file_size
            && protocol_version == PROTOCOL_VERSION,
        NetMessage::HandshakeEncrypted { filename, file_size, protocol_version } =>
            session.is_encrypted && filename@ == session.filename && file_size
            == session.file_size && protocol_version == PROTOCOL_VERSION,
        _ => false,
    }
}

pub open spec fn failed(session: SessionView, error: ErrorView) -> (SessionView, ActionView) {
    (SessionView { stage: Stage::Failed, ..session }, ActionView::Fail { error })
}

/// What follows from the answer to the handshake.
pub open spec fn after_ack(session: SessionView, has_old_file: bool, resume_offset: u64) -> (
    SessionView,
    ActionView,
) {
    let wants_delta = has_old_file && (!session.in_directory || session.use_delta);
    if session.is_encrypted {
        (
            SessionView { stage: Stage::Verification, ..session },
            ActionView::UploadEncrypted {
                filename: session.filename,
                resume_offset: if wants_delta {
                    0
                } else {
                    resume_offset
                },
            },
        )
    } else if wants_delta {
        (SessionView { stage: Stage::SignatureRequest, ..session }, ActionView::Receive)
    } else {
        (
            SessionView { stage: Stage::Verification, ..session },
            ActionView::UploadFull { resume_offset },
        )
    }
}

/// What follows from a message.
pub open spec fn after_message(
    session: SessionView,
    message: NetMessage,
    resume_offset: u64,
) -> (SessionView, ActionView) {
    match session.stage {
        Stage::Ack => match message {
            NetMessage::HandshakeAck { has_old_file } => after_ack(
                session,
                has_old_file,
                resume_offset,
            ),
            NetMessage::Error { message } => failed(
                session,
                ErrorView::Server { message: message@ },
            ),
            _ => failed(session, ErrorView::UnexpectedResponse),
        },
        Stage::SignatureRequest => match message {
            NetMessage::RequestSignature => (
                SessionView { stage: Stage::Signatures, ..session },
                ActionView::Receive,
            ),
            _ => failed(session, ErrorView::ExpectedRequestSignature),
        },
        Stage::Signatures => match message {
            NetMessage::SignaturePacket { signatures } => (
                SessionView {
                    signatures: session.signatures + protocol::packet_views(signatures@),
                    ..session
                },
                ActionView::Receive,
            ),
            NetMessage::SignatureEnd => (
                SessionView { stage: Stage::Verification, ..session },
                ActionView::SendPatch,
            ),
            _ => failed(session, ErrorView::UnexpectedWhileReceivingSignatures),
        },
        Stage::Verification => match message {
            NetMessage::VerifyResult { matches, checksum } => if matches && checksum@
                == session.checksum {
                (
                    SessionView { stage: Stage::Finished, ..session },
                    ActionView::Finish { checksum: checksum@ },
                )
            } else {
                failed(session, ErrorView::VerificationFailed)
            },
            _ => failed(session, ErrorView::ExpectedVerification),
        },
        _ => failed(session, ErrorView::UnexpectedResponse),
    }
}

fn append_signatures(all: &mut Vec<ChunkSignature>, packet: &Vec<SerializableChunkSignature>)
    ensures
        signature::views(final(all)@) == signature::views(old(all)@) + protocol::packet_views(
            packet@,
        ),
{
    let ghost first = signature::views(all@);
    let ghost more = protocol::packet_views(packet@);
    let mut i: usize = 0;
    assert(first + more.take(0) =~= first);
    while i < packet.len()
        invariant
            i <= packet@.len(),
            more == protocol::packet_views(packet@),
            signature::views(all@) == first + more.take(i as int),
        decreases packet@.len() - i,
    {
        let ghost before = signature::views(all@);
        all.push(ChunkSignature::from(packet[i]));
        proof {
            assert(signature::views(all@) =~= before.push(more[i as int]));
            assert(first + more.take(i + 1) =~= before.push(more[i as int]));
        }
        i = i + 1;
    }
    assert(more.take(i as int) =~= more);
}

impl ClientSession {
    /// A conversation about a file on its own, with the digest of its content.
    pub fn for_file(filename: String, file_size: u64, checksum: [u8; 32], is_encrypted: bool) -> (
        res: Self)
        ensures
            res@ == (SessionView {
                stage: Stage::Begin,
                filename: filename@,
                file_size,
                checksum: checksum@,
                is_encrypted,
                in_directory: false,
                use_delta: true,
                signatures: Seq::empty(),
            }),
    {
        let res = ClientSession {
            stage: Stage::Begin,
            filename,
            file_size,
            checksum,
            is_encrypted,
            in_directory: false,
            use_delta: true,
            signatures: Vec::new(),
        };
        assert(signature::views(res.signatures@) =~= Seq::empty());
        res
    }

    /// A conversation about a file of a directory, with the digest of its content, which a plan
    /// says to send whole or in part.
    pub fn for_directory_file(
        relative_path: String,
        file_size: u64,
        checksum: [u8; 32],
        use_delta: bool,
        is_encrypted: bool,
    ) -> (res: Self)
        ensures
            res@ == (SessionView {
                stage: Stage::Begin,
                filename: relative_path@,
                file_size,
                checksum: checksum@,
                is_encrypted,
                in_directory: true,
                use_delta,
                signatures: Seq::empty(),
            }),
    {
        let res = ClientSession {
            stage: Stage::Begin,
            filename: relative_path,
            file_size,
            checksum,
            is_encrypted,
            in_directory: true,
            use_delta,
            signatures: Vec::new(),
        };
        assert(signature::views(res.signatures@) =~= Seq::empty());
        res
    }

    /// Takes the encrypted data that goes out in place of the file: the server, which has no
    /// key, is to hold these bytes in the end.
    pub fn on_encrypted(&mut self, data: &[u8])
        ensures
            final(self)@ == (SessionView { checksum: digest::blake3_digest(data@), ..old(self)@ }),
    {
        self.checksum = digest::blake3_hash(data);
    }

    /// Opens the conversation.
    pub fn begin(&mut self) -> (res: Opening)
        requires
            old(self)@.stage == Stage::Begin,
        ensures
            ({
                let session = old(self)@;
                if !is_sent_at_once(session) {
                    &&& final(self)@ == (SessionView { stage: Stage::Ack, ..session })
                    &&& res matches Opening::Handshake { message } && is_handshake_of(
                        message,
                        session,
                    )
                } else {
                    &&& final(self)@ == (SessionView {
                        stage: Stage::Verification,
                        ..session
                    })
                    &&& if session.is_encrypted {
                        res matches Opening::Encrypted { filename } && filename@
                            == session.filename
                    } else {
                        res matches Opening::Compressed { message } && message
                            matches NetMessage::SendFullCompressed { filename, original_size }
                            && filename@ == session.filename && original_size
                            == session.file_size
                    }
                }
            }),
    {
        if self.in_directory && self.file_size < SMALL_FILE_THRESHOLD {
            self.stage = Stage::Verification;
            if self.is_encrypted {
                Opening::Encrypted { filename: self.filename.clone() }
            } else {
                Opening::Compressed {
                    message: NetMessage::SendFullCompressed {
                        filename: self.filename.clone(),
                        original_size: self.file_size,
                    },
                }
            }
        } else {
            self.stage = Stage::Ack;
            let filename: String = self.filename.clone();
            let message: NetMessage = if self.is_encrypted {
                NetMessage::handshake_encrypted(filename, self.file_size)
            } else {
                NetMessage::handshake(filename, self.file_size)
            };
            Opening::Handshake { message }
        }
    }

    /// Takes a message. The offset says from where on the server wants a file that it has in
    /// part.
    pub fn on_message(&mut self, message: NetMessage, resume_offset: u64) -> (action: Action)
        ensures
            (final(self)@, action@) == after_message(old(self)@, message, resume_offset),
    {
        match self.stage {
            Stage::Ack => match message {
                NetMessage::HandshakeAck { has_old_file } => {
                    let wants_delta: bool = has_old_file && (!self.in_directory || self.use_delta);
                    if self.is_encrypted {
                        self.stage = Stage::Verification;
                        Action::UploadEncrypted {
                            filename: self.filename.clone(),
                            resume_offset: if wants_delta {
                                0
                            } else {
                                resume_offset
                            },
                        }
                    } else if wants_delta {
                        self.stage = Stage::SignatureRequest;
                        Action::Receive
                    } else {
                        self.stage = Stage::Verification;
                        Action::UploadFull { resume_offset }
                    }
                },
                NetMessage::Error { message } => self.fail(ClientError::Server { message }),
                _ => self.fail(ClientError::UnexpectedResponse),
            },
            Stage::SignatureRequest => match message {
                NetMessage::RequestSignature => {
                    self.stage = Stage::Signatures;
                    Action::Receive
                },
                _ => self.fail(ClientError::ExpectedRequestSignature),
            },
            Stage::Signatures => match message {
                NetMessage::SignaturePacket { signatures } => {
                    append_signatures(&mut self.signatures, &signatures);
                    Action::Receive
                },
                NetMessage::SignatureEnd => {
                    self.stage = Stage::Verification;
                    Action::SendPatch
                },
                _ => self.fail(ClientError::UnexpectedWhileReceivingSignatures),
            },
            Stage::Verification => match message {
                NetMessage::VerifyResult { matches, checksum } => {
                    if matches && bytes::same_bytes(
                        checksum.as_slice(),
                        self.checksum.as_slice(),
                    ) {
                        self.stage = Stage::Finished;
                        Action::Finish { checksum }
                    } else {
                        self.fail(ClientError::VerificationFailed)
                    }
                },
                _ => self.fail(ClientError::ExpectedVerification),
            },
            _ => self.fail(ClientError::UnexpectedResponse),
        }
    }

    fn fail(&mut self, error: ClientError) -> (action: Action)
        ensures
            (final(self)@, action@) == failed(old(self)@, error@),
    {
        self.stage = Stage::Failed;
        Action::Fail { error }
    }

    /// The signatures that came, for a delta against them.
    pub fn take_signatures(&mut self) -> (res: Vec<ChunkSignature>)
        ensures
            signature::views(res@) == old(self)@.signatures,
            final(self)@ == (SessionView { signatures: Seq::empty(), ..old(self)@ }),
    {
        let mut res: Vec<ChunkSignature> = Vec::new();
        core::mem::swap(&mut res, &mut self.signatures);
        assert(signature::views(self.signatures@) =~= Seq::empty());
        res
    }
}

/// A conversation about a file ends well only with a verification that the server holds it: the
/// checksum that came is the digest of what was to be sent.
pub proof fn law_finish_needs_verification(
    session: SessionView,
    message: NetMessage,
    resume_offset: u64,
)
    requires
        after_message(session, message, resume_offset).1 is Finish,
    ensures
        message matches NetMessage::VerifyResult { matches: true, checksum } && checksum@
            == session.checksum,
        after_message(session, message, resume_offset).0.stage == Stage::Finished,
{
}

/// Whether a conversation with a key is at a stage that one with a key can be at.
pub open spec fn keeps_secret(session: SessionView) -> bool {
    session.is_encrypted ==> session.stage != Stage::SignatureRequest && session.stage
        != Stage::Signatures
}

/// With a key the content of a file goes out encrypted, and in no other way, whatever the
/// server says.
pub proof fn law_encrypted_sends_no_plain_data(
    session: SessionView,
    message: NetMessage,
    resume_offset: u64,
)
    requires
        session.is_encrypted,
        keeps_secret(session),
    ensures
        !(after_message(session, message, resume_offset).1 is UploadFull),
        !(after_message(session, message, resume_offset).1 is SendPatch),
        keeps_secret(after_message(session, message, resume_offset).0),
        after_message(session, message, resume_offset).0.is_encrypted,
{
}

/// Without a key, a server that has an old version is sent a delta, whatever the size of the file:
/// the signatures are waited for where the file is on its own, or its plan asks for a delta.
pub proof fn law_old_version_leads_to_delta(session: SessionView, resume_offset: u64)
    requires
        session.stage == Stage::Ack,
        !session.is_encrypted,
        !session.in_directory || session.use_delta,
    ensures
        ({
            let (next, action) = after_message(
                session,
                NetMessage::HandshakeAck { has_old_file: true },
                resume_offset,
            );
            &&& next == (SessionView { stage: Stage::SignatureRequest, ..session })
            &&& action == ActionView::Receive
        }),
{
}

/// Without a key, the file goes out whole, from where the server wants it, where the server has no
/// old version or the plan of a directory asks for the whole file; then the server is to say what
/// it holds.
pub proof fn law_whole_file_goes_out(session: SessionView, has_old_file: bool, resume_offset: u64)
    requires
        session.stage == Stage::Ack,
        !session.is_encrypted,
        !has_old_file || (session.in_directory && !session.use_delta),
    ensures
        ({
            let (next, action) = after_message(
                session,
                NetMessage::HandshakeAck { has_old_file },
                resume_offset,
            );
            &&& next == (SessionView { stage: Stage::Verification, ..session })
            &&& action == (ActionView::UploadFull { resume_offset })
        }),
{
}

/// With a key, the file goes out encrypted under its name, whatever the server has: the whole of
/// it where a delta would do without a key, and otherwise from where the server wants it.
pub proof fn law_encrypted_file_goes_out(
    session: SessionView,
    has_old_file: bool,
    resume_offset: u64,
)
    requires
        session.stage == Stage::Ack,
        session.is_encrypted,
    ensures
        ({
            let (next, action) = after_message(
                session,
                NetMessage::HandshakeAck { has_old_file },
                resume_offset,
            );
            &&& next == (SessionView { stage: Stage::Verification, ..session })
            &&& action matches ActionView::UploadEncrypted { filename, resume_offset: from }
                && filename == session.filename && from == (if has_old_file && (
            !session.in_directory || session.use_delta) {
                0
            } else {
                resume_offset
            })
        }),
{
}

/// A message that answers something else than what was said ends the conversation, and what the
/// server says is wrong is handed on; nothing else is given up for.
pub proof fn law_unexpected_messages_fail(
    session: SessionView,
    message: NetMessage,
    resume_offset: u64,
)
    ensures
        ({
            let (next, action) = after_message(session, message, resume_offset);
            let is_expected = match session.stage {
                Stage::Ack => message is HandshakeAck,
                Stage::SignatureRequest => message is RequestSignature,
                Stage::Signatures => message is SignaturePacket || message is SignatureEnd,
                Stage::Verification => message matches NetMessage::VerifyResult {
                    matches,
                    checksum,
                } && matches && checksum@ == session.checksum,
                _ => false,
            };
            &&& is_expected <==> !(action is Fail)
            &&& is_expected <==> next.stage != Stage::Failed
            &&& !is_expected ==> next == (SessionView { stage: Stage::Failed, ..session })
            &&& !is_expected ==> action == (ActionView::Fail {
                error: match session.stage {
                    Stage::Ack => match message {
                        NetMessage::Error { message } => ErrorView::Server { message: message@ },
                        _ => ErrorView::UnexpectedResponse,
                    },
                    Stage::SignatureRequest => ErrorView::ExpectedRequestSignature,
                    Stage::Signatures => ErrorView::UnexpectedWhileReceivingSignatures,
                    Stage::Verification => if message is VerifyResult {
                        ErrorView::VerificationFailed
                    } else {
                        ErrorView::ExpectedVerification
                    },
                    _ => ErrorView::UnexpectedResponse,
                },
            })
        }),
{
}

/// Where the server says that it holds the file, with the checksum of what was to be sent, the
/// conversation ends well.
pub proof fn law_verified_file_is_finished(
    session: SessionView,
    checksum: [u8; 32],
    resume_offset: u64,
)
    requires
        session.stage == Stage::Verification,
        checksum@ == session.checksum,
    ensures
        after_message(
            session,
            NetMessage::VerifyResult { matches: true, checksum },
            resume_offset,
        ) == (
            SessionView { stage: Stage::Finished, ..session },
            ActionView::Finish { checksum: session.checksum },
        ),
{
}

/// No message changes which file a conversation is about, what the server is to hold in the end,
/// or whether there is a key; signatures only gather.
pub proof fn law_conversation_keeps_its_file(
    session: SessionView,
    message: NetMessage,
    resume_offset: u64,
)
    ensures
        ({
            let next = after_message(session, message, resume_offset).0;
            &&& next.filename == session.filename
            &&& next.file_size == session.file_size
            &&& next.checksum == session.checksum
            &&& next.is_encrypted == session.is_encrypted
            &&& next.in_directory == session.in_directory
            &&& next.use_delta == session.use_delta
            &&& next.signatures.len() >= session.signatures.len()
            &&& next.signatures.take(session.signatures.len() as int) == session.signatures
        }),
{
    let next = after_message(session, message, resume_offset).0;
    assert(next.signatures.take(session.signatures.len() as int) =~= session.signatures);
}

/// Without an answer, only a file of a directory with fewer than 100 KiB goes out.
pub proof fn law_small_files_go_at_once(session: SessionView)
    ensures
        is_sent_at_once(session) <==> session.in_directory && session.file_size < 100 * 1024,
{
}

/// A handshake names the file and its size, in the first version of the protocol, and says by its
/// kind whether there is a key.
pub proof fn law_handshake_names_the_file(message: NetMessage, session: SessionView)
    ensures
        is_handshake_of(message, session) <==> match message {
            NetMessage::Handshake { filename, file_size, protocol_version } =>
                !session.is_encrypted && filename@ == session.filename && file_size
                == session.file_size && protocol_version == 1,
            NetMessage::HandshakeEncrypted { filename, file_size, protocol_version } =>
                session.is_encrypted && filename@ == session.filename && file_size
                == session.file_size && protocol_version == 1,
            _ => false,
        },
{
}

/// What is known of an action is which it is and what it holds.
pub proof fn law_actions_are_known(action: Action)
    ensures
        match action {
            Action::Receive => action@ is Receive,
            Action::UploadFull { resume_offset } => action@ == (ActionView::UploadFull {
                resume_offset,
            }),
            Action::UploadEncrypted { filename, resume_offset } => action@ == (
            ActionView::UploadEncrypted { filename: filename@, resume_offset }),
            Action::SendPatch => action@ is SendPatch,
            Action::Finish { checksum } => action@ == (ActionView::Finish { checksum: checksum@ }),
            Action::Fail { error } => action@ == (ActionView::Fail {
                error: match error {
                    ClientError::Server { message } => ErrorView::Server { message: message@ },
                    ClientError::UnexpectedResponse => ErrorView::UnexpectedResponse,
                    ClientError::ExpectedRequestSignature => ErrorView::ExpectedRequestSignature,
                    ClientError::UnexpectedWhileReceivingSignatures => {
                        ErrorView::UnexpectedWhileReceivingSignatures
                    },
                    ClientError::VerificationFailed => ErrorView::VerificationFailed,
                    ClientError::ExpectedVerification => ErrorView::ExpectedVerification,
                    ClientError::ExpectedSyncPlan => ErrorView::ExpectedSyncPlan,
                },
            }),
        },
{
}

/// Where messages lead, one after the other.
pub open spec fn after_messages(session: SessionView, messages: Seq<NetMessage>) -> SessionView
    decreases messages.len(),
{
    if messages.len() == 0 {
        session
    } else {
        after_message(after_messages(session, messages.drop_last()), messages.last(), 0).0
    }
}

proof fn lemma_packets_gather(
    session: SessionView,
    messages: Seq<NetMessage>,
    signatures: Seq<SignatureView>,
    n: int,
)
    requires
        session.stage == Stage::SignatureRequest,
        batch::is_signature_stream(messages, signatures),
        0 <= n <= messages.len() - 2,
    ensures
        after_messages(session, messages.take(n + 1)) == (SessionView {
            stage: Stage::Signatures,
            signatures: session.signatures + batch::batches(
                signatures,
                batch::SIGNATURE_BATCH_SIZE as nat,
            ).take(n).flatten(),
            ..session
        }),
    decreases n,
{
    let parts = batch::batches(signatures, batch::SIGNATURE_BATCH_SIZE as nat);
    let now = messages.take(n + 1);
    assert(now.drop_last() =~= messages.take(n));
    if n == 0 {
        assert(messages.take(0) =~= Seq::empty());
        assert(parts.take(0) =~= Seq::empty());
        assert(session.signatures + parts.take(0).flatten() =~= session.signatures);
        reveal_with_fuel(after_messages, 2);
    } else {
        lemma_packets_gather(session, messages, signatures, n - 1);
        assert(batch::is_signature_packet(messages[n - 1 + 1], parts[n - 1]));
        assert(parts.take(n) =~= parts.take(n - 1).push(parts[n - 1]));
        parts.take(n - 1).lemma_flatten_push(parts[n - 1]);
        assert((session.signatures + parts.take(n - 1).flatten()) + parts[n - 1]
            =~= session.signatures + parts.take(n).flatten());
    }
}

/// A client that waits for signatures has, once the messages that send them are in, exactly the
/// signatures that were sent.
pub proof fn law_signatures_arrive(
    session: SessionView,
    messages: Seq<NetMessage>,
    signatures: Seq<SignatureView>,
)
    requires
        session.stage == Stage::SignatureRequest,
        session.signatures.len() == 0,
        batch::is_signature_stream(messages, signatures),
    ensures
        after_messages(session, messages) == (SessionView {
            stage: Stage::Verification,
            signatures,
            ..session
        }),
        after_message(after_messages(session, messages.drop_last()), messages.last(), 0).1
            is SendPatch,
{
    let parts = batch::batches(signatures, batch::SIGNATURE_BATCH_SIZE as nat);
    lemma_packets_gather(session, messages, signatures, messages.len() - 2);
    assert(messages.take(messages.len() - 1) =~= messages.drop_last());
    assert(parts.take(parts.len() as int) =~= parts);
    batch::law_batches_concatenate(signatures, batch::SIGNATURE_BATCH_SIZE as nat);
    assert(session.signatures + signatures =~= signatures);
}

proof fn lemma_after_messages_concat(
    session: SessionView,
    front: Seq<NetMessage>,
    back: Seq<NetMessage>,
)
    ensures
        after_messages(session, front + back) == after_messages(
            after_messages(session, front),
            back,
        ),
    decreases back.len(),
{
    if back.len() == 0 {
        assert(front + back =~= front);
    } else {
        lemma_after_messages_concat(session, front, back.drop_last());
        assert((front + back).drop_last() =~= front + back.drop_last());
    }
}

/// What a server with an old version sends leads a client without a key, once its handshake is
/// out, through the signatures to the patch: it waits for one message after the other, has in the
/// end the signatures that were sent, and sends the patch at the last message.
pub proof fn law_server_leads_client_to_patch(
    session: SessionView,
    messages: Seq<NetMessage>,
    signatures: Seq<SignatureView>,
)
    requires
        session.stage == Stage::Ack,
        !session.is_encrypted,
        !session.in_directory || session.use_delta,
        session.signatures.len() == 0,
        messages.len() > 0,
        messages[0] == (NetMessage::HandshakeAck { has_old_file: true }),
        batch::is_signature_stream(messages.skip(1), signatures),
    ensures
        after_messages(session, messages) == (SessionView {
            stage: Stage::Verification,
            signatures,
            ..session
        }),
        forall|n: int|
            0 <= n < messages.len() - 1 ==> after_message(
                after_messages(session, #[trigger] messages.take(n)),
                messages[n],
                0,
            ).1 == ActionView::Receive,
        after_message(after_messages(session, messages.drop_last()), messages.last(), 0).1
            == ActionView::SendPatch,
{
    let stream = messages.skip(1);
    let waiting = SessionView { stage: Stage::SignatureRequest, ..session };
    let one = messages.take(1);
    assert(one.drop_last() =~= Seq::empty());
    reveal_with_fuel(after_messages, 2);
    assert(after_messages(session, one) == waiting);
    law_signatures_arrive(waiting, stream, signatures);
    assert(messages =~= one + stream);
    assert(messages.drop_last() =~= one + stream.drop_last());
    lemma_after_messages_concat(session, one, stream);
    lemma_after_messages_concat(session, one, stream.drop_last());
    assert forall|n: int| 0 <= n < messages.len() - 1 implies after_message(
        after_messages(session, #[trigger] messages.take(n)),
        messages[n],
        0,
    ).1 == ActionView::Receive by {
        if n == 0 {
            assert(messages.take(0) =~= Seq::empty());
        } else {
            assert(messages.take(n) =~= one + stream.take(n - 1));
            lemma_after_messages_concat(session, one, stream.take(n - 1));
            if n == 1 {
                assert(stream.take(0) =~= Seq::empty());
            } else {
                lemma_packets_gather(waiting, stream, signatures, n - 2);
                let parts = batch::batches(signatures, batch::SIGNATURE_BATCH_SIZE as nat);
                assert(batch::is_signature_packet(stream[n - 2 + 1], parts[n - 2]));
                assert(messages[n] == stream[n - 1]);
            }
        }
    }
}

/// What goes out for a file that is sent compressed.
pub fn compressed_upload(data: &[u8]) -> (res: Result<Vec<u8>, PipelineError>)
    ensures
        res matches Ok(out) ==> compression::zstd_encoded(data@, 3) == Some(out@),
        match res {
            Ok(out) => compression::zstd_encoded(
                data@,
                pipeline::DEFAULT_COMPRESSION_LEVEL as int,
            ) == Some(out@) && pipeline::decompressed(out@) == Ok::<Seq<u8>, PipelineError>(data@),
            Err(e) => compression::zstd_encoded(
                data@,
                pipeline::DEFAULT_COMPRESSION_LEVEL as int,
            ) == None::<Seq<u8>> && e == PipelineError::CompressionFailed,
        },
{
    CompressedPipeline::new(pipeline::DEFAULT_COMPRESSION_LEVEL).process(data)
}

/// What goes out for a file that is sent encrypted: the announcement, with the size of the whole
/// file and of what follows, and then the data, which the same key turns back.
pub fn encrypted_upload(filename: String, original_size: u64, data: &[u8], key: &KeyContext) -> (
    res: Result<(NetMessage, Vec<u8>), PipelineError>)
    ensures
        match res {
            Ok((message, out)) => {
                &&& message matches NetMessage::SendFullEncrypted {
                    filename: name,
                    original_size: whole,
                    encrypted_size,
                } && name@ == filename@ && whole == original_size && encrypted_size == out@.len()
                &&& pipeline::unsealed(key@, out@) == Ok::<Seq<u8>, PipelineError>(data@)
                &&& compression::zstd_encoded(
                    data@,
                    pipeline::DEFAULT_COMPRESSION_LEVEL as int,
                ) matches Some(compressed) && out@ == crypto::blob_of(
                    key@,
                    out@.take(crypto::NONCE_SIZE as int),
                    compressed,
                )
            },
            Err(e) => match compression::zstd_encoded(
                data@,
                pipeline::DEFAULT_COMPRESSION_LEVEL as int,
            ) {
                None => e == PipelineError::CompressionFailed,
                Some(compressed) => crypto::encryption_error(compressed.len()) matches Some(cause)
                    && e == PipelineError::Crypto(cause),
            },
        },
{
    let copy: KeyContext = KeyContext::from_bytes(*key.key_bytes());
    let secure: SecurePipeline = SecurePipeline::with_default_compression(copy);
    match secure.process(data) {
        Ok(out) => {
            let message = NetMessage::SendFullEncrypted {
                filename,
                original_size,
                encrypted_size: out.len() as u64,
            };
            Ok((message, out))
        },
        Err(e) => Err(e),
    }
}

/// The plan in the server's answer to a manifest.
pub fn receive_plan(message: NetMessage) -> (res: Result<SyncPlan, ClientError>)
    ensures
        match message {
            NetMessage::SyncPlan { items } => res matches Ok(plan) && plan.items == items,
            NetMessage::Error { message } => res matches Err(e) && e@ == (ErrorView::Server {
                message: message@,
            }),
            _ => res matches Err(e) && e@ == ErrorView::ExpectedSyncPlan,
        },
{
    match message {
        NetMessage::SyncPlan { items } => Ok(SyncPlan::new(items)),
        NetMessage::Error { message } => Err(ClientError::Server { message }),
        _ => Err(ClientError::ExpectedSyncPlan),
    }
}

/// The action of the first item with a path.
pub open spec fn first_action(items: Seq<ItemView>, path: Seq<char>) -> Option<SyncAction>
    decreases items.len(),
{
    if items.len() == 0 {
        None
    } else if items[0].path == path {
        Some(items[0].action)
    } else {
        first_action(items.skip(1), path)
    }
}

/// What is found for a path is the action of an item with it, and no item before it has the path;
/// nothing is found only where no item has it.
pub proof fn law_first_action(items: Seq<ItemView>, path: Seq<char>)
    ensures
        match first_action(items, path) {
            Some(action) => exists|n: int|
                0 <= n < items.len() && #[trigger] items[n] == (ItemView { path, action })
                    && forall|m: int| 0 <= m < n ==> (#[trigger] items[m]).path != path,
            None => forall|n: int| 0 <= n < items.len() ==> (#[trigger] items[n]).path != path,
        },
    decreases items.len(),
{
    if items.len() > 0 && items[0].path != path {
        let rest = items.skip(1);
        law_first_action(rest, path);
        match first_action(rest, path) {
            Some(action) => {
                let k = choose|k: int|
                    0 <= k < rest.len() && #[trigger] rest[k] == (ItemView { path, action })
                        && forall|m: int| 0 <= m < k ==> (#[trigger] rest[m]).path != path;
                assert(items[k + 1] == (ItemView { path, action }));
                assert forall|m: int| 0 <= m < k + 1 implies (#[trigger] items[m]).path != path by {
                    if m > 0 {
                        assert(rest[m - 1] == items[m]);
                    }
                }
            },
            None => {
                assert forall|n: int| 0 <= n < items.len() implies (#[trigger] items[n]).path
                    != path by {
                    if n > 0 {
                        assert(rest[n - 1] == items[n]);
                    }
                }
            },
        }
    } else if items.len() > 0 {
        assert(items[0] == (ItemView { path, action: items[0].action }));
    }
}

/// How a file of a plan is sent: whole, in part, or not at all.
pub fn transfer_for(plan: &SyncPlan, path: &str) -> (use_delta: Option<bool>)
    ensures
        use_delta == (match first_action(plan.listed(), path@) {
            Some(SyncAction::SendFull) => Some(false),
            Some(SyncAction::SendDelta) => Some(true),
            _ => None,
        }),
{
    let wanted: String = path.to_owned();
    let ghost all = plan.listed();
    let mut i: usize = 0;
    assert(all.skip(0) =~= all);
    while i < plan.items.len()
        invariant
            i <= plan.items@.len(),
            wanted@ == path@,
            all == plan.listed(),
            first_action(all, path@) == first_action(all.skip(i as int), path@),
        decreases plan.items@.len() - i,
    {
        let item: &SyncItem = &plan.items[i];
        assert(all.skip(i as int)[0] == item@);
        if item.path == wanted {
            return match item.action {
                SyncAction::SendFull => Some(false),
                SyncAction::SendDelta => Some(true),
                _ => None,
            };
        }
        assert(all.skip(i as int).skip(1) =~= all.skip(i + 1));
        i = i + 1;
    }
    None
}

/// The paths of the files that go.
pub fn files_to_delete(plan: &SyncPlan) -> (res: Vec<String>)
    ensures
        diff::texts(res@) == diff::paths(
            plan.listed().filter(|item: ItemView| item.action == SyncAction::Delete),
        ),
{
    let ghost all = plan.listed();
    let ghost gone = |item: ItemView| item.action == SyncAction::Delete;
    let mut files: Vec<String> = Vec::new();
    let mut i: usize = 0;
    proof {
        reveal(Seq::filter);
        assert(all.take(0) =~= Seq::empty());
        assert(diff::texts(files@) =~= diff::paths(all.take(0).filter(gone)));
    }
    while i < plan.items.len()
        invariant
            i <= plan.items@.len(),
            all == plan.listed(),
            gone == (|item: ItemView| item.action == SyncAction::Delete),
            diff::texts(files@) == diff::paths(all.take(i as int).filter(gone)),
        decreases plan.items@.len() - i,
    {
        let ghost kept = all.take(i as int).filter(gone);
        proof {
            reveal(Seq::filter);
            assert(all.take(i + 1).drop_last() =~= all.take(i as int));
        }
        if plan.items[i].action == SyncAction::Delete {
            let ghost before = diff::texts(files@);
            let path: String = plan.items[i].path.clone();
            let ghost shown = path@;
            files.push(path);
            proof {
                assert(diff::texts(files@) =~= before.push(shown));
                assert(diff::paths(kept.push(all[i as int])) =~= diff::paths(kept).push(shown));
            }
        }
        i = i + 1;
    }
    assert(all.take(i as int) =~= all);
    files
}

/// Of so many errors, how many are shown and how many more there are.
pub fn error_summary(count: usize) -> (res: (usize, usize))
    ensures
        res.0 + res.1 == count,
        res.0 == (if count < SHOWN_ERRORS {
            count
        } else {
            SHOWN_ERRORS
        }),
        SHOWN_ERRORS == 5,
{
    if count < SHOWN_ERRORS {
        (count, 0)
    } else {
        (SHOWN_ERRORS, count - SHOWN_ERRORS)
    }
}

proof fn lemma_all_bytes_step(list: Seq<instruction::Instr>, i: int)
    requires
        0 <= i < list.len(),
    ensures
        instruction::all_bytes(list.skip(i)).len() == instruction::instr_bytes(list[i]).len()
            + instruction::all_bytes(list.skip(i + 1)).len(),
{
    assert(list.skip(i).skip(1) =~= list.skip(i + 1));
}

proof fn lemma_instr_bytes_len(instr: instruction::Instr)
    ensures
        instruction::instr_bytes(instr).len() == match instr {
            instruction::Instr::Copy { .. } => 17,
            instruction::Instr::Literal { data } => 9 + data.len(),
            instruction::Instr::CompressedLiteral { compressed, .. } => 13 + compressed.len(),
        },
{
    match instr {
        instruction::Instr::Copy { offset, length } => {
            bytes::lemma_le_bytes_len(offset as nat, 8);
            bytes::lemma_le_bytes_len(length as nat, 8);
        },
        instruction::Instr::Literal { data } => {
            bytes::lemma_le_bytes_len(data.len(), 8);
        },
        instruction::Instr::CompressedLiteral { decompressed_len, compressed } => {
            bytes::lemma_le_bytes_len(decompressed_len as nat, 8);
            bytes::lemma_le_bytes_len(compressed.len(), 4);
        },
    }
}

/// How many bytes an instruction takes on the wire.
fn instruction_size(instruction: &PatchInstruction) -> (res: usize)
    requires
        instruction::instr_bytes(instruction@).len() <= usize::MAX,
    ensures
        res == instruction::instr_bytes(instruction@).len(),
{
    proof {
        lemma_instr_bytes_len(instruction@);
    }
    match instruction {
        PatchInstruction::Copy(_, _) => 17,
        PatchInstruction::Literal(data) => 9 + data.len(),
        PatchInstruction::CompressedLiteral { compressed_data, .. } => 13 + compressed_data.len(),
    }
}

/// Whether a patch can be measured: the numbers of its bytes are numbers.
pub fn can_measure_patch(instructions: &[PatchInstruction]) -> (res: bool)
    ensures
        res == (instruction::all_bytes(instruction::instrs(instructions@)).len() <= usize::MAX
            && optimize::copy_total(instruction::instrs(instructions@)) <= usize::MAX),
{
    let ghost all = instruction::instrs(instructions@);
    let mut size: usize = 0;
    let mut matched: usize = 0;
    let mut i: usize = 0;
    assert(all.skip(0) =~= all);
    assert(all.take(0) =~= Seq::empty());
    while i < instructions.len()
        invariant
            i <= instructions@.len(),
            all == instruction::instrs(instructions@),
            size + instruction::all_bytes(all.skip(i as int)).len() == instruction::all_bytes(
                all,
            ).len(),
            matched == optimize::copy_total(all.take(i as int)),
        decreases instructions@.len() - i,
    {
        proof {
            lemma_all_bytes_step(all, i as int);
            lemma_instr_bytes_len(all[i as int]);
            optimize::lemma_copy_total_step(all, i as int);
        }
        let (fixed, data, copied): (usize, usize, usize) = match &instructions[i] {
            PatchInstruction::Copy(_, length) => (17, 0, *length),
            PatchInstruction::Literal(data) => (9, data.len(), 0),
            PatchInstruction::CompressedLiteral { compressed_data, .. } => (
                13,
                compressed_data.len(),
                0,
            ),
        };
        if data > usize::MAX - fixed || size > usize::MAX - fixed - data || matched > usize::MAX
            - copied {
            return false;
        }
        size = size + fixed + data;
        matched = matched + copied;
        i = i + 1;
    }
    assert(all.take(i as int) =~= all);
    true
}

/// How many bytes a patch takes on the wire, and how many bytes of the new file it copies.
pub fn measure_patch(instructions: &[PatchInstruction]) -> (res: (usize, usize))
    requires
        instruction::all_bytes(instruction::instrs(instructions@)).len() <= usize::MAX,
        optimize::copy_total(instruction::instrs(instructions@)) <= usize::MAX,
    ensures
        res.0 == instruction::all_bytes(instruction::instrs(instructions@)).len(),
        res.1 == optimize::copy_total(instruction::instrs(instructions@)),
{
    let ghost all = instruction::instrs(instructions@);
    let mut size: usize = 0;
    let mut matched: usize = 0;
    let mut i: usize = 0;
    assert(all.skip(0) =~= all);
    assert(all.take(0) =~= Seq::empty());
    while i < instructions.len()
        invariant
            i <= instructions@.len(),
            all == instruction::instrs(instructions@),
            instruction::all_bytes(all).len() <= usize::MAX,
            optimize::copy_total(all) <= usize::MAX,
            size + instruction::all_bytes(all.skip(i as int)).len() == instruction::all_bytes(
                all,
            ).len(),
            matched == optimize::copy_total(all.take(i as int)),
        decreases instructions@.len() - i,
    {
        proof {
            lemma_all_bytes_step(all, i as int);
            optimize::lemma_copy_total_step(all, i as int);
        }
        size = size + instruction_size(&instructions[i]);
        if let PatchInstruction::Copy(_, length) = &instructions[i] {
            matched = matched + *length;
        }
        i = i + 1;
    }
    assert(all.take(i as int) =~= all);
    (size, matched)
}

/// What is wrong with a path that a file is to be read from.
#[derive(Debug, Clone, Copy, PartialEq, Eq, Structural)]
pub enum InputProblem {
    Missing,
    NotAFile,
}

/// Whether a file can be read from a path.
pub fn validate_file_exists(exists: bool, is_file: bool) -> (res: Result<(), InputProblem>)
    ensures
        res == (if !exists {
            Err::<(), InputProblem>(InputProblem::Missing)
        } else if !is_file {
            Err::<(), InputProblem>(InputProblem::NotAFile)
        } else {
            Ok::<(), InputProblem>(())
        }),
{
    if !exists {
        Err(InputProblem::Missing)
    } else if !is_file {
        Err(InputProblem::NotAFile)
    } else {
        Ok(())
    }
}

/// What is wrong with a path that a directory is to be read from.
#[derive(Debug, Clone, Copy, PartialEq, Eq, Structural)]
pub enum DirectoryProblem {
    Missing,
    NotADirectory,
}

/// Whether a directory can be read from a path.
pub fn validate_directory(exists: bool, is_dir: bool) -> (res: Result<(), DirectoryProblem>)
    ensures
        res == (if !exists {
            Err::<(), DirectoryProblem>(DirectoryProblem::Missing)
        } else if !is_dir {
            Err::<(), DirectoryProblem>(DirectoryProblem::NotADirectory)
        } else {
            Ok::<(), DirectoryProblem>(())
        }),
{
    if !exists {
        Err(DirectoryProblem::Missing)
    } else if !is_dir {
        Err(DirectoryProblem::NotADirectory)
    } else {
        Ok(())
    }
}

/// Whether a file can be written to a path: the directory that it names has to be there.
pub fn validate_output_path(names_directory: bool, directory_exists: bool) -> (res: bool)
    ensures
        res == (names_directory ==> directory_exists),
{
    !names_directory || directory_exists
}

} // verus!
