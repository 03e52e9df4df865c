use r_delta::batch::{manifest_messages, signature_messages};
use r_delta::client::{
    can_measure_patch, compressed_upload, encrypted_upload, error_summary, files_to_delete,
    measure_patch, receive_plan, transfer_for, validate_directory, validate_file_exists,
    validate_output_path, Action, ClientError, ClientSession, DirectoryProblem, InputProblem,
    Opening,
};
use r_delta::crypto::KeyContext;
use r_delta::delta::{DeltaGenerator, PatchInstruction};
use r_delta::diff::{diff, SyncAction, SyncItem, SyncPlan};
use r_delta::instruction::PatchFormatError;
use r_delta::manifest::{FileEntry, Manifest};
use r_delta::patch::StreamingPatchBuilder;
use r_delta::pipeline::{CompressedPipeline, DataPipeline, SecurePipeline};
use r_delta::protocol::{frame, frame_len, NetMessage, SerializableChunkSignature};
use r_delta::server::{
    stream_assemble, stream_header_len, stream_payload_len, version_error, ServerAction,
    ServerError, ServerSession, StreamInstruction,
};
use r_delta::signature::{compute_strong_hash, generate_signature, ChunkSignature};
use r_delta::verify::{verify_files, Comparison, VerificationResult};

fn data(count: u32, factor: u32) -> Vec<u8> {
    (0..count).map(|i| (i.wrapping_mul(factor) >> 11) as u8).collect()
}

/// Reads the instructions of a stream and applies them to `old`.
fn apply_stream(old: &[u8], mut wire: &[u8]) -> Vec<u8> {
    let mut builder = StreamingPatchBuilder::new();
    while !wire.is_empty() {
        let tag = wire[0];
        let header_len = stream_header_len(tag).unwrap();
        let header = &wire[1..1 + header_len];
        let payload_len = stream_payload_len(tag, header);
        let end = 1 + header_len + payload_len;
        match stream_assemble(tag, header, wire[1 + header_len..end].to_vec()) {
            StreamInstruction::Patch { instruction } => {
                builder.apply_to(old, &instruction).unwrap()
            }
            StreamInstruction::Skip { .. } => panic!("nothing sends this"),
        }
        wire = &wire[end..];
    }
    builder.finalize().0
}

#[test]
fn a_file_is_brought_up_to_date() {
    let old = data(200_000, 2654435761);
    let mut new = old[..100_000].to_vec();
    new.extend_from_slice(&[7u8; 4000]);
    new.extend_from_slice(&old[100_000..]);

    let digest = compute_strong_hash(&new);
    let mut client =
        ClientSession::for_file("f.bin".to_string(), new.len() as u64, digest, false);
    let mut server = ServerSession::new();
    let handshake = match client.begin() {
        Opening::Handshake { message } => message,
        other => panic!("unexpected {:?}", other),
    };
    match server.on_handshake(handshake) {
        ServerAction::FindFile { filename } => assert_eq!(filename, "f.bin"),
        other => panic!("unexpected {:?}", other),
    }
    let messages = match server.on_lookup(Some(generate_signature(&old))) {
        ServerAction::SendSignatures { messages } => messages,
        other => panic!("unexpected {:?}", other),
    };
    let mut last = None;
    for message in messages {
        last = Some(client.on_message(message, 0));
    }
    assert!(matches!(last, Some(Action::SendPatch)));

    let generator = DeltaGenerator::new(client.take_signatures());
    let instructions = generator.generate_delta_instructions(&new);
    let mut wire = Vec::new();
    for instruction in &instructions {
        wire.extend_from_slice(&instruction.to_bytes());
    }
    let (patch_size, matched) = measure_patch(&instructions);
    assert_eq!(patch_size, wire.len());
    assert!(matched > 100_000 && matched < new.len());

    assert!(matches!(
        server.on_patch_start(&NetMessage::StartPatch),
        ServerAction::ReceivePatch
    ));
    let made = apply_stream(&old, &wire);
    assert_eq!(made, new);
    assert!(verify_files(&made, &new).are_equal);
    assert!(matches!(server.on_patch_applied(), ServerAction::Store));
    let reply = match server.on_stored(compute_strong_hash(&made)) {
        ServerAction::Finish { reply } => reply,
        other => panic!("unexpected {:?}", other),
    };
    match client.on_message(reply, 0) {
        Action::Finish { checksum } => assert_eq!(checksum, digest),
        other => panic!("unexpected {:?}", other),
    }
}

#[test]
fn a_new_file_is_uploaded() {
    let mut client = ClientSession::for_file("f".to_string(), 10, [3; 32], false);
    let mut server = ServerSession::new();
    if let Opening::Handshake { message } = client.begin() {
        server.on_handshake(message);
    }
    let reply = match server.on_lookup(None) {
        ServerAction::ReceiveFile { reply } => reply,
        other => panic!("unexpected {:?}", other),
    };
    assert!(matches!(client.on_message(reply, 4), Action::UploadFull { resume_offset: 4 }));
    assert!(matches!(server.on_upload_end(10), ServerAction::Store));
}

#[test]
fn uploads_of_the_wrong_size_are_refused() {
    let mut server = ServerSession::new();
    server.on_handshake(NetMessage::handshake("f".to_string(), 10));
    server.on_lookup(None);
    match server.on_upload_end(9) {
        ServerAction::Fail { error } => {
            assert_eq!(error, ServerError::SizeMismatch { expected: 10, received: 9 })
        }
        other => panic!("unexpected {:?}", other),
    }
}

#[test]
fn handshakes_that_are_refused() {
    let mut server = ServerSession::new();
    let message = NetMessage::Handshake {
        filename: "f".to_string(),
        file_size: 1,
        protocol_version: 207,
    };
    match server.on_handshake(message) {
        ServerAction::Refuse { reply: NetMessage::Error { message }, error } => {
            assert_eq!(message, "Unsupported protocol version: 207");
            assert_eq!(error, ServerError::VersionMismatch { found: 207 });
        }
        other => panic!("unexpected {:?}", other),
    }
    let mut server = ServerSession::new();
    match server.on_handshake(NetMessage::StartPatch) {
        ServerAction::Refuse { reply: NetMessage::Error { message }, error } => {
            assert_eq!(message, "Expected Handshake message");
            assert_eq!(error, ServerError::InvalidHandshake);
        }
        other => panic!("unexpected {:?}", other),
    }
    assert_eq!(version_error(0), "Unsupported protocol version: 0");
    assert_eq!(version_error(65535), "Unsupported protocol version: 65535");
}

#[test]
fn patches_have_to_be_announced() {
    let mut server = ServerSession::new();
    server.on_handshake(NetMessage::handshake("f".to_string(), 10));
    server.on_lookup(Some(vec![]));
    match server.on_patch_start(&NetMessage::PatchDone) {
        ServerAction::Fail { error } => assert_eq!(error, ServerError::ExpectedStartPatch),
        other => panic!("unexpected {:?}", other),
    }
}

fn after_ack(mut client: ClientSession, has_old_file: bool, resume: u64) -> (ClientSession, Action) {
    assert!(matches!(client.begin(), Opening::Handshake { .. }));
    let action = client.on_message(NetMessage::handshake_ack(has_old_file), resume);
    (client, action)
}

#[test]
fn answers_to_the_handshake() {
    let single = |encrypted| ClientSession::for_file("f".to_string(), 5, [3; 32], encrypted);
    let listed = |use_delta, encrypted| {
        let path = "d/f".to_string();
        ClientSession::for_directory_file(path, 102400, [3; 32], use_delta, encrypted)
    };
    assert!(matches!(after_ack(single(false), true, 3).1, Action::Receive));
    assert!(matches!(
        after_ack(single(false), false, 3).1,
        Action::UploadFull { resume_offset: 3 }
    ));
    assert!(matches!(after_ack(listed(true, false), true, 0).1, Action::Receive));
    assert!(matches!(
        after_ack(listed(false, false), true, 0).1,
        Action::UploadFull { resume_offset: 0 }
    ));
    match after_ack(single(true), false, 3).1 {
        Action::UploadEncrypted { filename, resume_offset } => {
            assert_eq!((filename.as_str(), resume_offset), ("f", 3))
        }
        other => panic!("unexpected {:?}", other),
    }
    match after_ack(listed(false, true), true, 3).1 {
        Action::UploadEncrypted { filename, resume_offset } => {
            assert_eq!((filename.as_str(), resume_offset), ("d/f", 3))
        }
        other => panic!("unexpected {:?}", other),
    }
    // With a key an old version is sent anew, as a whole.
    match after_ack(listed(true, true), true, 3).1 {
        Action::UploadEncrypted { filename, resume_offset } => {
            assert_eq!((filename.as_str(), resume_offset), ("d/f", 0))
        }
        other => panic!("unexpected {:?}", other),
    }
}

fn error_of(action: Action) -> ClientError {
    match action {
        Action::Fail { error } => error,
        other => panic!("unexpected {:?}", other),
    }
}

#[test]
fn conversations_that_fail() {
    let start = || {
        let mut client = ClientSession::for_file("f".to_string(), 5, [3; 32], false);
        client.begin();
        client
    };
    match error_of(start().on_message(NetMessage::error("no".to_string()), 0)) {
        ClientError::Server { message } => assert_eq!(message, "no"),
        other => panic!("unexpected {:?}", other),
    }
    assert!(matches!(
        error_of(start().on_message(NetMessage::StartPatch, 0)),
        ClientError::UnexpectedResponse
    ));
    let (mut client, _) = after_ack(ClientSession::for_file("f".to_string(), 5, [3; 32], false), true, 0);
    assert!(matches!(
        error_of(client.on_message(NetMessage::SignatureEnd, 0)),
        ClientError::ExpectedRequestSignature
    ));
    let (mut client, _) = after_ack(ClientSession::for_file("f".to_string(), 5, [3; 32], false), true, 0);
    client.on_message(NetMessage::RequestSignature, 0);
    assert!(matches!(
        error_of(client.on_message(NetMessage::RequestSignature, 0)),
        ClientError::UnexpectedWhileReceivingSignatures
    ));
    let (mut client, _) = after_ack(ClientSession::for_file("f".to_string(), 5, [3; 32], false), false, 0);
    assert!(matches!(
        error_of(client.on_message(NetMessage::verify_result(false, [0; 32]), 0)),
        ClientError::VerificationFailed
    ));
    let (mut client, _) = after_ack(ClientSession::for_file("f".to_string(), 5, [3; 32], false), false, 0);
    assert!(matches!(
        error_of(client.on_message(NetMessage::SignatureEnd, 0)),
        ClientError::ExpectedVerification
    ));
    // Nothing follows a failure.
    assert!(matches!(
        error_of(client.on_message(NetMessage::verify_result(true, [0; 32]), 0)),
        ClientError::UnexpectedResponse
    ));
}

#[test]
fn small_files_of_a_directory_are_sent_at_once() {
    let session = |size, encrypted| {
        ClientSession::for_directory_file("d/f".to_string(), size, [3; 32], true, encrypted)
    };
    match session(102399, false).begin() {
        Opening::Compressed { message: NetMessage::SendFullCompressed { filename, original_size } } => {
            assert_eq!((filename.as_str(), original_size), ("d/f", 102399))
        }
        other => panic!("unexpected {:?}", other),
    }
    match session(102399, true).begin() {
        Opening::Encrypted { filename } => assert_eq!(filename, "d/f"),
        other => panic!("unexpected {:?}", other),
    }
    assert!(matches!(session(102400, false).begin(), Opening::Handshake { .. }));
    // A file on its own is never sent without asking.
    assert!(matches!(
        ClientSession::for_file("f".to_string(), 1, [3; 32], false).begin(),
        Opening::Handshake { .. }
    ));
}

#[test]
fn a_wrong_checksum_is_not_accepted() {
    let content = b"small".to_vec();
    let open = |encrypted| {
        let path = "d/f".to_string();
        let digest = compute_strong_hash(&content);
        let mut session = ClientSession::for_directory_file(path, 5, digest, false, encrypted);
        session.begin();
        session
    };
    assert!(matches!(
        error_of(open(false).on_message(NetMessage::verify_result(true, [1; 32]), 0)),
        ClientError::VerificationFailed
    ));
    let right = NetMessage::verify_result(true, compute_strong_hash(&content));
    assert!(matches!(open(false).on_message(right, 0), Action::Finish { .. }));
    // Of encrypted data the server can only have the digest of what it was sent.
    let mut session = open(true);
    session.on_encrypted(b"blob");
    let right = NetMessage::verify_result(true, compute_strong_hash(b"blob"));
    assert!(matches!(session.on_message(right, 0), Action::Finish { .. }));
    let mut session = open(true);
    session.on_encrypted(b"blob");
    let wrong = NetMessage::verify_result(true, compute_strong_hash(&content));
    assert!(matches!(
        error_of(session.on_message(wrong, 0)),
        ClientError::VerificationFailed
    ));
}

#[test]
fn an_encrypted_file_is_stored_as_it_comes() {
    let key = KeyContext::from_bytes([6; 32]);
    let content = data(150_000, 31);
    let digest = compute_strong_hash(&content);
    let path = "d/f".to_string();
    let mut client = ClientSession::for_directory_file(path, 150_000, digest, true, true);
    let mut server = ServerSession::new();
    let handshake = match client.begin() {
        Opening::Handshake { message } => message,
        other => panic!("unexpected {:?}", other),
    };
    assert!(matches!(&handshake, NetMessage::HandshakeEncrypted { file_size: 150_000, .. }));
    assert!(matches!(server.on_handshake(handshake), ServerAction::FindFile { .. }));
    let ack = match server.on_presence(true) {
        ServerAction::ReceiveAnnouncement { reply } => reply,
        other => panic!("unexpected {:?}", other),
    };
    let filename = match client.on_message(ack, 0) {
        Action::UploadEncrypted { filename, resume_offset: 0 } => filename,
        other => panic!("unexpected {:?}", other),
    };
    let (message, sent) = encrypted_upload(filename, 150_000, &content, &key).unwrap();
    client.on_encrypted(&sent);
    match server.on_announcement(message) {
        ServerAction::ReceiveEncrypted { filename } => assert_eq!(filename, "d/f"),
        other => panic!("unexpected {:?}", other),
    }
    assert!(matches!(server.on_upload_end(sent.len() as u64), ServerAction::Store));
    let reply = match server.on_stored(compute_strong_hash(&sent)) {
        ServerAction::Finish { reply } => reply,
        other => panic!("unexpected {:?}", other),
    };
    assert!(matches!(client.on_message(reply, 0), Action::Finish { .. }));
}

fn announced() -> ServerSession {
    let mut server = ServerSession::new();
    server.on_handshake(NetMessage::handshake_encrypted("f".to_string(), 5));
    server.on_presence(false);
    server
}

fn encrypted_message(filename: &str) -> NetMessage {
    NetMessage::SendFullEncrypted {
        filename: filename.to_string(),
        original_size: 5,
        encrypted_size: 60,
    }
}

#[test]
fn announcements_that_are_refused() {
    for message in [NetMessage::StartPatch, encrypted_message("g")] {
        match announced().on_announcement(message) {
            ServerAction::Refuse { reply: NetMessage::Error { message }, error } => {
                assert_eq!(message, "Expected SendFullEncrypted message");
                assert_eq!(error, ServerError::ExpectedEncrypted);
            }
            other => panic!("unexpected {:?}", other),
        }
    }
    let mut server = announced();
    server.on_announcement(encrypted_message("f"));
    match server.on_upload_end(59) {
        ServerAction::Fail { error } => {
            assert_eq!(error, ServerError::SizeMismatch { expected: 60, received: 59 })
        }
        other => panic!("unexpected {:?}", other),
    }
    let mut server = ServerSession::new();
    let message = NetMessage::HandshakeEncrypted {
        filename: "f".to_string(),
        file_size: 1,
        protocol_version: 2,
    };
    assert!(matches!(
        server.on_handshake(message),
        ServerAction::Refuse { error: ServerError::VersionMismatch { found: 2 }, .. }
    ));
}

#[test]
fn files_that_are_sent_at_once() {
    let content = vec![b'x'; 5000];
    let digest = compute_strong_hash(&content);
    let path = "d/f".to_string();
    let mut client = ClientSession::for_directory_file(path, 5000, digest, false, false);
    let mut server = ServerSession::new();
    let opening = match client.begin() {
        Opening::Compressed { message } => message,
        other => panic!("unexpected {:?}", other),
    };
    match server.on_handshake(opening) {
        ServerAction::ReceiveCompressed { filename } => assert_eq!(filename, "d/f"),
        other => panic!("unexpected {:?}", other),
    }
    let kept = match server.on_compressed(&compressed_upload(&content).unwrap()) {
        ServerAction::StoreContent { content } => content,
        other => panic!("unexpected {:?}", other),
    };
    assert_eq!(kept, content);
    let reply = match server.on_stored(compute_strong_hash(&kept)) {
        ServerAction::Finish { reply } => reply,
        other => panic!("unexpected {:?}", other),
    };
    assert!(matches!(client.on_message(reply, 0), Action::Finish { .. }));

    let mut server = ServerSession::new();
    match server.on_handshake(encrypted_message("g")) {
        ServerAction::ReceiveEncrypted { filename } => assert_eq!(filename, "g"),
        other => panic!("unexpected {:?}", other),
    }
    assert!(matches!(server.on_upload_end(60), ServerAction::Store));
}

#[test]
fn compressed_files_that_are_given_up() {
    let open = || {
        let mut server = ServerSession::new();
        server.on_handshake(NetMessage::SendFullCompressed {
            filename: "f".to_string(),
            original_size: 3,
        });
        server
    };
    match open().on_compressed(b"no frame") {
        ServerAction::Fail { error } => assert_eq!(error, ServerError::DecompressionFailed),
        other => panic!("unexpected {:?}", other),
    }
    match open().on_decompressed(Ok(vec![1, 2])) {
        ServerAction::Fail { error } => {
            assert_eq!(error, ServerError::SizeMismatch { expected: 3, received: 2 })
        }
        other => panic!("unexpected {:?}", other),
    }
    assert!(matches!(
        open().on_decompressed(Ok(vec![1, 2, 3])),
        ServerAction::StoreContent { .. }
    ));
}

#[test]
fn a_directory_is_planned_and_cleared() {
    let entry = |path: &str, size| FileEntry::new(path.to_string(), size, 1, false);
    let mut listed: Vec<FileEntry> = (0..150).map(|i| entry(&format!("f{}", i), 7)).collect();
    listed.push(entry("same", 1));
    listed.push(entry("changed", 2));
    let theirs = Manifest::new(listed);
    let own = Manifest::new(vec![entry("changed", 3), entry("old", 1), entry("same", 1)]);

    let mut server = ServerSession::new();
    let mut messages = manifest_messages(&theirs).into_iter();
    let first = server.on_handshake(messages.next().unwrap());
    assert!(matches!(first, ServerAction::ReceiveManifest));
    let mut last = None;
    for message in messages {
        last = Some(server.on_manifest(message));
    }
    assert!(matches!(last, Some(ServerAction::ListFiles)));
    let plan = match server.on_own_manifest(&own) {
        ServerAction::SendPlan { reply } => receive_plan(reply).ok().unwrap(),
        other => panic!("unexpected {:?}", other),
    };
    let expected = diff(&theirs, &own);
    assert_eq!(plan.len(), expected.len());
    for (a, b) in plan.items.iter().zip(expected.items.iter()) {
        assert_eq!((&a.path, a.action), (&b.path, b.action));
    }
    assert_eq!(transfer_for(&plan, "changed"), Some(true));
    assert_eq!(transfer_for(&plan, "f149"), Some(false));
    assert_eq!(transfer_for(&plan, "same"), None);
    match server.on_sync_end() {
        ServerAction::Remove { paths } => assert_eq!(paths, vec!["old".to_string()]),
        other => panic!("unexpected {:?}", other),
    }
}

#[test]
fn manifests_that_are_refused() {
    let mut server = ServerSession::new();
    server.on_handshake(NetMessage::ManifestRequest);
    match server.on_manifest(NetMessage::SignatureEnd) {
        ServerAction::Refuse { reply: NetMessage::Error { message }, error } => {
            assert_eq!(message, "Expected ManifestPacket or ManifestEnd message");
            assert_eq!(error, ServerError::ExpectedManifest);
        }
        other => panic!("unexpected {:?}", other),
    }
}

#[test]
fn signatures_go_in_packets() {
    let signatures: Vec<ChunkSignature> =
        (0..250).map(|i| ChunkSignature::new(i, i as usize, i * 3, [i as u8; 32])).collect();
    let messages = signature_messages(&signatures);
    assert_eq!(messages.len(), 5);
    assert!(matches!(messages[0], NetMessage::RequestSignature));
    assert!(matches!(messages[4], NetMessage::SignatureEnd));
    let lengths: Vec<usize> = messages[1..4]
        .iter()
        .map(|m| match m {
            NetMessage::SignaturePacket { signatures } => signatures.len(),
            _ => panic!("no packet"),
        })
        .collect();
    assert_eq!(lengths, vec![100, 100, 50]);

    let (mut client, _) = after_ack(ClientSession::for_file("f".to_string(), 5, [3; 32], false), true, 0);
    for message in messages {
        client.on_message(message, 0);
    }
    assert_eq!(client.take_signatures(), signatures);
    assert_eq!(signature_messages(&[]).len(), 2);
    assert_eq!(signature_messages(&signatures[..100]).len(), 3);
    assert_eq!(signature_messages(&signatures[..101]).len(), 4);
}

#[test]
fn manifests_go_in_packets() {
    let entries: Vec<FileEntry> =
        (0..201).map(|i| FileEntry::new(format!("f{}", i), i, 0, false)).collect();
    let messages = manifest_messages(&Manifest::new(entries.clone()));
    assert_eq!(messages.len(), 5);
    assert!(matches!(messages[0], NetMessage::ManifestRequest));
    assert!(matches!(messages[4], NetMessage::ManifestEnd));
    let mut sent = Vec::new();
    for message in messages {
        if let NetMessage::ManifestPacket { entries } = message {
            assert!(entries.len() <= 100);
            sent.extend(entries);
        }
    }
    assert_eq!(sent, entries);
}

#[test]
fn signatures_on_their_way() {
    let signature = ChunkSignature::new(1, 2, 3, [4; 32]);
    let sent = SerializableChunkSignature::from(signature);
    assert_eq!((sent.offset, sent.length, sent.weak_hash, sent.strong_hash), (1, 2, 3, [4; 32]));
    assert_eq!(ChunkSignature::from(sent), signature);
}

#[test]
fn messages_that_are_built() {
    assert_eq!(NetMessage::get_protocol_version(), 1);
    match NetMessage::handshake("a".to_string(), 9) {
        NetMessage::Handshake { filename, file_size, protocol_version } => {
            assert_eq!((filename.as_str(), file_size, protocol_version), ("a", 9, 1))
        }
        other => panic!("unexpected {:?}", other),
    }
    assert!(matches!(
        NetMessage::handshake_ack(true),
        NetMessage::HandshakeAck { has_old_file: true }
    ));
    match NetMessage::verify_result(true, [42; 32]) {
        NetMessage::VerifyResult { matches, checksum } => {
            assert!(matches);
            assert_eq!(checksum, [42; 32]);
        }
        other => panic!("unexpected {:?}", other),
    }
    match NetMessage::sync_plan(vec![SyncItem::new("x".to_string(), SyncAction::Skip)]) {
        NetMessage::SyncPlan { items } => assert_eq!(items[0].path, "x"),
        other => panic!("unexpected {:?}", other),
    }
}

#[test]
fn frames() {
    let framed = frame(b"hello");
    assert_eq!(framed, b"\x05\x00\x00\x00hello");
    assert_eq!(frame_len(&framed[..4]), 5);
    assert_eq!(frame(&[]), vec![0; 4]);
    assert_eq!(frame_len(&[0, 1, 0, 0]), 256);
}

#[test]
fn plans_that_come() {
    let items = vec![SyncItem::new("a".to_string(), SyncAction::SendFull)];
    assert_eq!(receive_plan(NetMessage::sync_plan(items)).ok().unwrap().len(), 1);
    assert!(matches!(
        receive_plan(NetMessage::error("e".to_string())),
        Err(ClientError::Server { .. })
    ));
    assert!(matches!(
        receive_plan(NetMessage::ManifestEnd),
        Err(ClientError::ExpectedSyncPlan)
    ));
}

#[test]
fn what_a_plan_asks_for() {
    let item = |path: &str, action| SyncItem::new(path.to_string(), action);
    let plan = SyncPlan::new(vec![
        item("a", SyncAction::SendFull),
        item("b", SyncAction::SendDelta),
        item("c", SyncAction::Skip),
        item("d", SyncAction::Delete),
        item("a", SyncAction::SendDelta),
    ]);
    assert_eq!(transfer_for(&plan, "a"), Some(false));
    assert_eq!(transfer_for(&plan, "b"), Some(true));
    assert_eq!(transfer_for(&plan, "c"), None);
    assert_eq!(transfer_for(&plan, "d"), None);
    assert_eq!(transfer_for(&plan, "e"), None);
    assert_eq!(files_to_delete(&plan), vec!["d".to_string()]);
}

#[test]
fn errors_that_are_shown() {
    assert_eq!(error_summary(0), (0, 0));
    assert_eq!(error_summary(5), (5, 0));
    assert_eq!(error_summary(12), (5, 7));
}

#[test]
fn sizes_on_the_wire() {
    let list = vec![
        PatchInstruction::Copy(0, 100),
        PatchInstruction::Literal(vec![0; 7]),
        PatchInstruction::CompressedLiteral { decompressed_len: 80, compressed_data: vec![0; 20] },
        PatchInstruction::Copy(9, 1),
    ];
    assert_eq!(measure_patch(&list), (17 + 16 + 33 + 17, 101));
    assert_eq!(measure_patch(&[]), (0, 0));
}

#[test]
fn uploads() {
    let content = vec![b'x'; 5000];
    let compressed = compressed_upload(&content).unwrap();
    assert!(compressed.len() < 100);
    assert_eq!(CompressedPipeline::new(3).reverse(&compressed).unwrap(), content);
    let key = KeyContext::from_bytes([6; 32]);
    let (message, sent) = encrypted_upload("n".to_string(), 9000, &content, &key).unwrap();
    match message {
        NetMessage::SendFullEncrypted { filename, original_size, encrypted_size } => {
            assert_eq!((filename.as_str(), original_size), ("n", 9000));
            assert_eq!(encrypted_size, sent.len() as u64);
        }
        other => panic!("unexpected {:?}", other),
    }
    let secure = SecurePipeline::with_default_compression(KeyContext::from_bytes([6; 32]));
    assert_eq!(secure.reverse(&sent).unwrap(), content);
}

#[test]
fn paths_that_will_do() {
    assert_eq!(validate_file_exists(true, true), Ok(()));
    assert_eq!(validate_file_exists(false, false), Err(InputProblem::Missing));
    assert_eq!(validate_file_exists(true, false), Err(InputProblem::NotAFile));
    assert!(validate_output_path(false, false));
    assert!(validate_output_path(true, true));
    assert!(!validate_output_path(true, false));
}

#[test]
fn tags_of_a_stream() {
    assert_eq!(stream_header_len(1), Ok(16));
    assert_eq!(stream_header_len(2), Ok(8));
    assert_eq!(stream_header_len(3), Ok(12));
    assert_eq!(stream_header_len(4), Ok(8));
    assert_eq!(stream_header_len(5), Err(PatchFormatError::UnknownTag(5)));
    let header = [3, 1, 0, 0, 0, 0, 0, 0];
    assert_eq!(stream_payload_len(4, &header), 0);
    assert_eq!(stream_payload_len(2, &header), 259);
    match stream_assemble(4, &header, vec![]) {
        StreamInstruction::Skip { length } => assert_eq!(length, 259),
        other => panic!("unexpected {:?}", other),
    }
}

#[test]
fn files_that_differ() {
    let result = |are_equal, a, b, at| VerificationResult {
        are_equal,
        file_a_size: a,
        file_b_size: b,
        first_mismatch_offset: at,
    };
    let a = data(200_000, 977);
    let mut b = a.clone();
    assert_eq!(verify_files(&a, &b), result(true, 200_000, 200_000, None));
    b[150_001] ^= 1;
    b[199_999] ^= 1;
    assert_eq!(verify_files(&a, &b), result(false, 200_000, 200_000, Some(150_001)));
    assert_eq!(verify_files(&a, &b[..10]), result(false, 200_000, 10, None));
    assert_eq!(verify_files(&[], &[]), result(true, 0, 0, None));
    assert_eq!(verify_files(&[1], &[2]), result(false, 1, 1, Some(0)));
}

#[test]
fn comparing_in_reads() {
    let mut comparison = Comparison::new(6, 6);
    assert_eq!(comparison.by_size(), None);
    assert_eq!(comparison.step(b"abc", b"abc"), None);
    let result = comparison.step(b"dxf", b"def").unwrap();
    assert_eq!(result.first_mismatch_offset, Some(4));
    assert!(!result.are_equal);
    let mut short = Comparison::new(6, 6);
    assert_eq!(short.step(b"abc", b"abc"), None);
    assert_eq!(short.step(b"de", b"def").unwrap().first_mismatch_offset, Some(3));
    let mut same = Comparison::new(1, 1);
    assert_eq!(same.step(b"a", b"a"), None);
    assert!(same.step(b"", b"").unwrap().are_equal);
    assert!(!Comparison::new(1, 2).by_size().unwrap().are_equal);
}

#[test]
fn directories_that_can_be_read() {
    assert_eq!(validate_directory(false, false), Err(DirectoryProblem::Missing));
    assert_eq!(validate_directory(false, true), Err(DirectoryProblem::Missing));
    assert_eq!(validate_directory(true, false), Err(DirectoryProblem::NotADirectory));
    assert_eq!(validate_directory(true, true), Ok(()));
}

#[test]
fn patches_that_can_be_measured() {
    assert!(can_measure_patch(&[]));
    let copy = |length| PatchInstruction::Copy(0, length);
    assert!(can_measure_patch(&[copy(usize::MAX)]));
    assert!(can_measure_patch(&[copy(usize::MAX - 1), copy(1)]));
    assert!(!can_measure_patch(&[copy(usize::MAX), copy(1)]));
    let mixed = [copy(5), PatchInstruction::Literal(vec![1, 2, 3])];
    assert!(can_measure_patch(&mixed));
    assert_eq!(measure_patch(&mixed), (29, 5));
}
