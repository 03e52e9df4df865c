use r_delta::fixed::delta::{
    apply_patch, read_patch_file, write_patch_file, DeltaGenerator, DeltaStats, PatchInstruction,
    SignatureMap,
};
use r_delta::fixed::patch;
use r_delta::fixed::patch::{ApplyError, PatchBuilder, PatchError, StreamingPatchBuilder};
use r_delta::fixed::signature::{
    compute_strong_hash, generate_signature, read_signature_file, write_signature_file, Adler32,
    ChunkSignature, CHUNK_SIZE,
};
use r_delta::instruction::PatchFormatError;
use r_delta::signature::UnexpectedEof;

fn match_percentage(stats: &DeltaStats) -> f64 {
    (stats.copy_bytes as f64 / stats.new_file_size as f64) * 100.0
}

#[test]
fn delta_test_patch_instruction_serialization() {
    let copy_inst = PatchInstruction::Copy(5, 4096);
    let bytes = copy_inst.to_bytes();
    assert_eq!(bytes[0], 0x01);

    let literal_inst = PatchInstruction::Literal(vec![1, 2, 3, 4]);
    let bytes = literal_inst.to_bytes();
    assert_eq!(bytes[0], 0x02);
}

#[test]
fn delta_test_signature_map() {
    let sig1 = ChunkSignature::new(0, 0x1234, [0u8; 32]);
    let sig2 = ChunkSignature::new(1, 0x5678, [1u8; 32]);
    let sig3 = ChunkSignature::new(2, 0x1234, [2u8; 32]);

    let map = SignatureMap::new(vec![sig1, sig2, sig3]);

    assert_eq!(map.unique_weak_hashes(), 2);
    assert_eq!(map.total_signatures(), 3);

    let matches = map.lookup(0x1234).unwrap();
    assert_eq!(matches.len(), 2);
    assert!(map.lookup(0x9999).is_none());
}

#[test]
fn delta_test_delta_generation_identical_files() {
    let content = b"Hello, World! ".repeat(1000);
    let generator = DeltaGenerator::new(generate_signature(&content));
    let (_, stats) = generator.generate_delta(&content);
    assert!(match_percentage(&stats) > 90.0);
}

#[test]
fn delta_test_delta_generation_completely_different() {
    let old = b"AAAA".repeat(1000);
    let new = b"BBBB".repeat(1000);
    let generator = DeltaGenerator::new(generate_signature(&old));
    let (_, stats) = generator.generate_delta(&new);
    assert!(stats.literal_bytes > 0);
}

#[test]
fn test_apply_patch() {
    let old_content = b"Hello, World! ".repeat(500);
    let new_content = b"Hello, World! Goodbye, World! ".repeat(300);
    let generator = DeltaGenerator::new(generate_signature(&old_content));
    let (patch_file, _) = generator.generate_delta(&new_content);
    let output_content = apply_patch(&old_content, &patch_file).unwrap();
    assert_eq!(output_content, new_content);
}

#[test]
fn test_patch_builder_copy() {
    let mut builder = PatchBuilder::new(b"Hello, World!".to_vec());

    builder.apply_instruction(&PatchInstruction::Copy(0, 5)).unwrap();
    let (output, stats) = builder.finalize();

    assert_eq!(stats.copy_instructions, 1);
    assert_eq!(stats.bytes_copied, 5);
    assert_eq!(&output, b"Hello");
}

#[test]
fn test_patch_builder_literal() {
    let mut builder = PatchBuilder::new(b"dummy".to_vec());

    builder.apply_instruction(&PatchInstruction::Literal(b"New data!".to_vec())).unwrap();
    let (output, stats) = builder.finalize();

    assert_eq!(stats.literal_instructions, 1);
    assert_eq!(stats.bytes_literal, 9);
    assert_eq!(&output, b"New data!");
}

#[test]
fn test_patch_builder_mixed() {
    let mut builder = PatchBuilder::new(b"ABCDEFGHIJKLMNOP".to_vec());

    builder.apply_instruction(&PatchInstruction::Copy(0, 4)).unwrap();
    builder.apply_instruction(&PatchInstruction::Literal(b"123".to_vec())).unwrap();
    builder.apply_instruction(&PatchInstruction::Copy(0, 4)).unwrap();
    let (output, stats) = builder.finalize();

    assert_eq!(stats.total_instructions, 3);
    assert_eq!(stats.copy_instructions, 2);
    assert_eq!(stats.literal_instructions, 1);
    assert_eq!(stats.bytes_copied, 8);
    assert_eq!(stats.bytes_literal, 3);
    assert_eq!(&output, b"ABCD123ABCD");
}

#[test]
fn adler_values() {
    assert_eq!(Adler32::hash(b""), 1);
    assert_eq!(Adler32::hash(b"Wikipedia"), 0x11E60398);
    assert_eq!(Adler32::hash(&[0xFF; 10000]), {
        let (mut a, mut b) = (1u64, 0u64);
        for _ in 0..10000 {
            a = (a + 255) % 65521;
            b = (b + a) % 65521;
        }
        (b * 65536 + a) as u32
    });
    let mut hasher = Adler32::default();
    hasher.update(b"Wiki");
    hasher.update(b"pedia");
    assert_eq!(hasher.finalize(), 0x11E60398);
    hasher.reset();
    assert_eq!(hasher.finalize(), 1);
}

#[test]
fn rolling_is_hashing_the_next_window() {
    let data: Vec<u8> = (0..500u32).map(|i| (i * i % 251) as u8).collect();
    let mut hasher = Adler32::new();
    hasher.update(&data[..64]);
    for start in 1..data.len() - 64 {
        hasher.roll(data[start - 1], data[start + 63], 64);
        assert_eq!(hasher.finalize(), Adler32::hash(&data[start..start + 64]));
    }
}

#[test]
fn signatures_of_blocks() {
    let data: Vec<u8> = (0..10000u32).map(|i| (i % 253) as u8).collect();
    let signatures = generate_signature(&data);
    assert_eq!(signatures.len(), 3);
    for (i, signature) in signatures.iter().enumerate() {
        let block = &data[i * CHUNK_SIZE..((i + 1) * CHUNK_SIZE).min(data.len())];
        assert_eq!(signature.index, i as u64);
        assert_eq!(signature.weak_hash, Adler32::hash(block));
        assert_eq!(signature.strong_hash, compute_strong_hash(block));
    }
    assert_eq!(generate_signature(&data[..8192]).len(), 2);
    assert!(generate_signature(&[]).is_empty());
    let signature = ChunkSignature::new(0, 0, compute_strong_hash(b"abc"));
    assert_eq!(
        signature.strong_hash_hex(),
        "ba7816bf8f01cfea414140de5dae2223b00361a396177a9cb410ff61f20015ad"
    );
}

#[test]
fn fixed_signature_file() {
    let signatures =
        vec![ChunkSignature::new(1, 0x01020304, [9; 32]), ChunkSignature::new(2, 5, [8; 32])];
    let file = write_signature_file(&signatures);
    assert_eq!(file.len(), 8 + 2 * 44);
    assert_eq!(&file[8..20], &[1, 0, 0, 0, 0, 0, 0, 0, 4, 3, 2, 1]);
    assert_eq!(read_signature_file(&file), Ok(signatures));
    assert_eq!(read_signature_file(&file[..95]), Err(UnexpectedEof));
    assert_eq!(read_signature_file(&[1]), Err(UnexpectedEof));
}

#[test]
fn fixed_patch_file() {
    let list = vec![PatchInstruction::Copy(3, 4096), PatchInstruction::Literal(vec![1, 2])];
    let file = write_patch_file(&list);
    assert_eq!(read_patch_file(&file), Ok(list));
    assert_eq!(read_patch_file(&file[..20]), Err(PatchFormatError::UnexpectedEof));
    // Frames are not known here.
    let mut foreign = vec![1, 0, 0, 0, 0, 0, 0, 0, 3];
    foreign.extend_from_slice(&[0; 12]);
    assert_eq!(read_patch_file(&foreign), Err(PatchFormatError::UnknownTag(3)));
    assert_eq!(
        PatchInstruction::from_bytes(7, &[]),
        Err(PatchFormatError::UnknownTag(7))
    );
}

/// Makes a delta, applies it in all three ways, and holds the results against the new file.
fn fixed_cycle(old: &[u8], new: &[u8]) -> DeltaStats {
    let file = write_signature_file(&generate_signature(old));
    let generator = DeltaGenerator::new(read_signature_file(&file).unwrap());
    let (patch_file, stats) = generator.generate_delta(new);
    assert_eq!(apply_patch(old, &patch_file).unwrap(), new);
    let (built, built_stats) = patch::apply_patch(old.to_vec(), &patch_file).unwrap();
    assert_eq!(built, new);
    let mut streaming = StreamingPatchBuilder::new();
    for instruction in read_patch_file(&patch_file).unwrap().iter() {
        assert!(streaming.can_take(instruction));
        streaming.apply_to(old, instruction).unwrap();
    }
    let (streamed, streamed_stats) = streaming.finalize();
    assert_eq!(streamed, new);
    assert_eq!(built_stats, streamed_stats);
    assert_eq!(patch::apply_patch_streaming(old, &patch_file), Ok((streamed, streamed_stats)));
    assert_eq!(stats.copy_bytes + stats.literal_bytes, new.len());
    stats
}

#[test]
fn fixed_round_trips() {
    let base: Vec<u8> = (0..30000u32).map(|i| (i.wrapping_mul(2654435761) >> 11) as u8).collect();
    let mut shifted = vec![0x58];
    shifted.extend_from_slice(&base);
    let stats = fixed_cycle(&base, &shifted);
    // The rolling checksum finds the chunks at their new places.
    assert_eq!(stats.literal_bytes, 1);
    assert_eq!(stats.copy_bytes, 30000);
    let mut edited = base.clone();
    edited[15000] ^= 1;
    let stats = fixed_cycle(&base, &edited);
    assert_eq!(stats.literal_bytes, 4096);
    assert_eq!(fixed_cycle(&base, &base).literal_bytes, 0);
    assert_eq!(fixed_cycle(&base, &[]), DeltaStats::new());
    fixed_cycle(&[], &base[..5000]);
    fixed_cycle(&base[..100], &base[..100]);
}

#[test]
fn copies_at_the_end() {
    let old = vec![7u8; 4096];
    let empty_at_end = write_patch_file(&[PatchInstruction::Copy(1, 0)]);
    assert_eq!(apply_patch(&old, &empty_at_end), Ok(vec![]));
    assert_eq!(
        patch::apply_patch(old.clone(), &empty_at_end),
        Err(ApplyError::Instruction(PatchError::ChunkOutOfBounds { index: 1 }))
    );
    let too_long = write_patch_file(&[PatchInstruction::Copy(0, 4097)]);
    let error = PatchError::RangeOutOfBounds { index: 0, length: 4097 };
    assert_eq!(apply_patch(&old, &too_long), Err(ApplyError::Instruction(error)));
    assert_eq!(patch::apply_patch(old.clone(), &too_long), Err(ApplyError::Instruction(error)));
    let far = PatchInstruction::Copy(u64::MAX, 1);
    assert_eq!(
        apply_patch(&old, &write_patch_file(&[far.clone()])),
        Err(ApplyError::Instruction(PatchError::RangeOutOfBounds { index: u64::MAX, length: 1 }))
    );
    let mut streaming = StreamingPatchBuilder::new();
    assert_eq!(
        streaming.apply_instruction(&far),
        Err(PatchError::RangeOutOfBounds { index: u64::MAX, length: 1 })
    );
    streaming.apply_instruction(&PatchInstruction::Copy(u64::MAX, 0)).unwrap();
    streaming.apply_instruction(&PatchInstruction::Copy(0, 4097)).unwrap();
    assert_eq!(streaming.next_read(), Some((0, 4097)));
    streaming.supply(&old).unwrap();
    assert_eq!(streaming.next_read(), Some((4096, 1)));
    assert_eq!(streaming.supply(&[]), Err(error));
    assert_eq!(streaming.take_output(), old);
    assert_eq!(streaming.stats().copy_instructions, 1);
    assert_eq!(
        apply_patch(&old, &[0]),
        Err(ApplyError::Format(PatchFormatError::UnexpectedEof))
    );
}

#[test]
fn reads_are_small() {
    let old = vec![3u8; 20000];
    let mut streaming = StreamingPatchBuilder::new();
    streaming.apply_instruction(&PatchInstruction::Copy(1, 10000)).unwrap();
    assert_eq!(streaming.next_read(), Some((4096, 8192)));
    streaming.supply(&old[4096..5096]).unwrap();
    assert_eq!(streaming.next_read(), Some((5096, 8192)));
    streaming.supply(&old[5096..13288]).unwrap();
    assert_eq!(streaming.next_read(), Some((13288, 808)));
    streaming.supply(&old[13288..14096]).unwrap();
    assert_eq!(streaming.next_read(), None);
    assert_eq!(streaming.finalize().0, vec![3u8; 10000]);
}

#[test]
fn a_streamed_copy_leaves_what_there_is() {
    let old: Vec<u8> = (0..10000u32).map(|i| (i % 256) as u8).collect();
    let list = vec![
        PatchInstruction::Literal(vec![1, 2]),
        PatchInstruction::Copy(2, usize::MAX),
        PatchInstruction::Literal(vec![3]),
    ];
    let error = PatchError::RangeOutOfBounds { index: 2, length: usize::MAX };
    let mut builder = StreamingPatchBuilder::new();
    // So long a range lies beyond what any file can hold.
    assert_eq!(builder.apply_instructions(&old, &list), Err(error));
    assert_eq!(builder.take_output(), vec![1, 2]);
    let mut builder = StreamingPatchBuilder::new();
    let list = vec![
        PatchInstruction::Literal(vec![1, 2]),
        PatchInstruction::Copy(2, 5000),
        PatchInstruction::Literal(vec![3]),
    ];
    let error = PatchError::RangeOutOfBounds { index: 2, length: 5000 };
    assert_eq!(builder.apply_instructions(&old, &list), Err(error));
    assert_eq!(builder.stats().total_instructions, 2);
    assert_eq!(builder.stats().bytes_written, 2);
    let mut left = vec![1, 2];
    left.extend_from_slice(&old[8192..]);
    assert_eq!(builder.take_output(), left);
    assert_eq!(
        patch::apply_patch_streaming(&old, &write_patch_file(&list)),
        Err(ApplyError::Instruction(error))
    );
    // Ranges of no bytes are read nowhere.
    let nothing = write_patch_file(&[PatchInstruction::Copy(9, 0)]);
    assert_eq!(patch::apply_patch_streaming(&old, &nothing).unwrap().0, vec![]);
    assert_eq!(
        patch::apply_patch_streaming(&old, &[1]),
        Err(ApplyError::Format(PatchFormatError::UnexpectedEof))
    );
    assert!(builder.can_take_read(usize::MAX - 1810));
    assert!(!builder.can_take_read(usize::MAX - 1809));
}
