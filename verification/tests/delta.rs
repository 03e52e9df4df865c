use r_delta::delta::{
    literal_instruction, read_patch_file, write_patch_file, DeltaGenerator, DeltaSession,
    DeltaStats, PatchFormatError, PatchInstruction, SignatureMap,
};
use r_delta::optimize::optimize_instructions;
use r_delta::patch::{
    apply_patch, ApplyError, PatchBuilder, PatchError, PatchStats, StreamingPatchBuilder,
};
use r_delta::signature::{
    compute_strong_hash, compute_weak_hash, generate_signature, read_signature_file,
    write_signature_file, ChunkSignature, SignatureGenerator, UnexpectedEof,
};

/// Signs the old file, makes a delta for the new one through both files, applies it, and says
/// whether the new file came out.
fn run_delta_cycle(old_data: &[u8], new_data: &[u8]) -> Result<bool, String> {
    let sig_file = write_signature_file(&generate_signature(old_data));
    let signatures = read_signature_file(&sig_file).map_err(|e| format!("{:?}", e))?;
    let generator = DeltaGenerator::new(signatures);
    let (patch, _) = generator.generate_delta(new_data);
    let (restored, _) =
        apply_patch(old_data.to_vec(), &patch).map_err(|e| format!("{:?}", e))?;
    Ok(restored == new_data)
}

fn match_percentage(stats: &DeltaStats) -> f64 {
    (stats.copy_bytes as f64 / stats.new_file_size as f64) * 100.0
}

#[test]
fn test_patch_instruction_serialization() {
    let copy_inst = PatchInstruction::Copy(5, 4096);
    let bytes = copy_inst.to_bytes();
    assert_eq!(bytes[0], 0x01);

    let literal_inst = PatchInstruction::Literal(vec![1, 2, 3, 4]);
    let bytes = literal_inst.to_bytes();
    assert_eq!(bytes[0], 0x02);
}

#[test]
fn test_signature_map() {
    let sig1 = ChunkSignature::new(0, 1000, 0x1234, [0u8; 32]);
    let sig2 = ChunkSignature::new(1000, 2000, 0x5678, [1u8; 32]);
    let sig3 = ChunkSignature::new(3000, 1500, 0x1234, [2u8; 32]);

    let map = SignatureMap::new(vec![sig1, sig2, sig3]);

    let matches = map.lookup(0x1234).unwrap();
    assert_eq!(matches.len(), 2);
}

#[test]
fn test_delta_generation_identical_files() {
    let content = b"Hello, World! This is a test for content-defined chunking. ".repeat(200);
    let generator = DeltaGenerator::new(generate_signature(&content));
    let (_, stats) = generator.generate_delta(&content);
    assert!(match_percentage(&stats) > 90.0);
}

#[test]
fn test_delta_generation_completely_different() {
    let old = b"AAAA".repeat(1000);
    let new = b"BBBB".repeat(1000);
    let generator = DeltaGenerator::new(generate_signature(&old));
    let (_, stats) = generator.generate_delta(&new);
    assert!(stats.literal_bytes > 0);
}

#[test]
fn chaos_large_identical() {
    let data = vec![0x42u8; 100 * 1024];
    let result = run_delta_cycle(&data, &data);
    assert!(result.is_ok());
    assert!(result.unwrap());
}

#[test]
fn chaos_compressible_pattern() {
    let old_data = b"AAAA".repeat(1000);
    let new_data = b"BBBB".repeat(1000);
    let result = run_delta_cycle(&old_data, &new_data);
    assert!(result.is_ok());
    assert!(result.unwrap());
}

#[test]
fn chaos_empty_to_nonempty() {
    let old_data = vec![];
    let new_data = vec![1, 2, 3, 4, 5];
    let result = run_delta_cycle(&old_data, &new_data);
    assert!(result.is_ok());
    assert!(result.unwrap());
}

#[test]
fn chaos_nonempty_to_empty() {
    let old_data = vec![1, 2, 3, 4, 5];
    let new_data = vec![];
    let result = run_delta_cycle(&old_data, &new_data);
    assert!(result.is_ok());
    assert!(result.unwrap());
}

#[test]
fn chaos_edge_cases() {
    let test_cases = vec![
        ("empty_to_empty", vec![], vec![]),
        ("empty_to_data", vec![], vec![1, 2, 3, 4, 5]),
        ("data_to_empty", vec![1, 2, 3, 4, 5], vec![]),
        ("single_byte", vec![42], vec![43]),
        ("identical_large", vec![0xAA; 50000], vec![0xAA; 50000]),
        ("all_zeros", vec![0; 10000], vec![0; 10000]),
        ("all_ones", vec![0xFF; 10000], vec![0xFF; 10000]),
    ];

    for (name, old_data, new_data) in test_cases {
        match run_delta_cycle(&old_data, &new_data) {
            Ok(true) => {}
            Ok(false) => panic!("Test '{}' failed: data mismatch", name),
            Err(e) => panic!("Test '{}' failed: {}", name, e),
        }
    }
}

#[test]
fn chaos_pathological_patterns() {
    let patterns = vec![
        (0..10000).map(|i| if i % 2 == 0 { 0xAA } else { 0x55 }).collect::<Vec<u8>>(),
        (0..10000).map(|i| (i % 256) as u8).collect::<Vec<u8>>(),
        {
            let mut v = vec![0u8; 10000];
            for i in 0..14 {
                let pos = 2usize.pow(i);
                if pos < v.len() {
                    v[pos] = 0xFF;
                }
            }
            v
        },
    ];

    for (idx, old_data) in patterns.iter().enumerate() {
        match run_delta_cycle(old_data, old_data) {
            Ok(true) => {}
            Ok(false) => panic!("Pathological pattern {} (identity) failed: data mismatch", idx),
            Err(e) => panic!("Pathological pattern {} (identity) failed: {}", idx, e),
        }

        let mut new_data = old_data.clone();
        if !new_data.is_empty() {
            let mid_idx = new_data.len() / 2;
            new_data[mid_idx] ^= 0xFF;
        }

        match run_delta_cycle(old_data, &new_data) {
            Ok(true) => {}
            Ok(false) => panic!("Pathological pattern {} (modified) failed: data mismatch", idx),
            Err(e) => panic!("Pathological pattern {} (modified) failed: {}", idx, e),
        }
    }
}

#[test]
fn chaos_boundary_sizes() {
    let sizes = vec![
        0, 1, 2, 63, 64, 65, 8191, 8192, 8193, 16383, 16384, 16385, 32767, 32768, 32769, 65536,
    ];

    for size in sizes {
        let old_data = vec![0xAA; size];
        let new_data = vec![0x55; size];

        match run_delta_cycle(&old_data, &new_data) {
            Ok(true) => {}
            Ok(false) => panic!("Boundary size {} failed: data mismatch", size),
            Err(e) => panic!("Boundary size {} failed: {}", size, e),
        }
    }
}

#[test]
fn chaos_compression_patterns() {
    let old_repeating = vec![b'A'; 10000];
    let new_repeating = vec![b'B'; 10000];
    match run_delta_cycle(&old_repeating, &new_repeating) {
        Ok(true) => {}
        Ok(false) => panic!("Compression test 'repeating' failed: data mismatch"),
        Err(e) => panic!("Compression test 'repeating' failed: {}", e),
    }

    let old_random: Vec<u8> = (0..10000).map(|i| ((i * 31337) % 256) as u8).collect();
    let new_random: Vec<u8> = (0..10000).map(|i| ((i * 48271) % 256) as u8).collect();

    match run_delta_cycle(&old_random, &new_random) {
        Ok(true) => {}
        Ok(false) => panic!("Compression test 'random' failed: data mismatch"),
        Err(e) => panic!("Compression test 'random' failed: {}", e),
    }
}

/// Numbers that look random and are the same every time.
fn noise(count: usize, mut seed: u64) -> Vec<u8> {
    let mut out = Vec::with_capacity(count);
    while out.len() < count {
        seed ^= seed << 13;
        seed ^= seed >> 7;
        seed ^= seed << 17;
        out.push((seed >> 24) as u8);
    }
    out
}

#[test]
fn edits_are_restored() {
    let base = noise(200_000, 1);
    let mut edits = vec![base.clone()];
    let mut inserted = base[..70_000].to_vec();
    inserted.extend_from_slice(&noise(1000, 2));
    inserted.extend_from_slice(&base[70_000..]);
    edits.push(inserted);
    let mut deleted = base[..50_000].to_vec();
    deleted.extend_from_slice(&base[90_000..]);
    edits.push(deleted);
    let mut appended = base.clone();
    appended.extend_from_slice(&noise(5000, 3));
    edits.push(appended);
    let mut prepended = vec![0x58];
    prepended.extend_from_slice(&base);
    edits.push(prepended);
    let mut changed = base.clone();
    changed[123_456] ^= 0xFF;
    edits.push(changed);
    for edit in &edits {
        assert_eq!(run_delta_cycle(&base, edit), Ok(true));
    }
}

#[test]
fn an_insertion_costs_little() {
    let base = noise(500_000, 4);
    let mut new = vec![0x58];
    new.extend_from_slice(&base);
    let generator = DeltaGenerator::new(generate_signature(&base));
    let (patch, stats) = generator.generate_delta(&new);
    assert!(stats.copy_bytes > 400_000);
    assert!(patch.len() < 100_000);
}

#[test]
fn same_file_is_all_copies() {
    let data = noise(100_000, 5);
    let generator = DeltaGenerator::new(generate_signature(&data));
    let instructions = generator.generate_delta_instructions(&data);
    assert!(!instructions.is_empty());
    assert!(instructions.iter().all(|i| matches!(i, PatchInstruction::Copy(_, _))));
    let (patch, stats) = generator.generate_delta(&data);
    assert_eq!(stats.literal_bytes, 0);
    assert_eq!(stats.copy_bytes, data.len());
    // The copies go on where the one before ends, so one is left.
    assert_eq!(read_patch_file(&patch).unwrap(), vec![PatchInstruction::Copy(0, data.len())]);
    assert_eq!(stats.total_instructions, 1);
    assert_eq!(stats.copy_instructions, instructions.len());
    assert_eq!(stats.patch_file_size, 8 + 17);
}

#[test]
fn statistics_of_an_empty_file() {
    let generator = DeltaGenerator::new(generate_signature(&noise(10_000, 6)));
    let (patch, stats) = generator.generate_delta(&[]);
    assert_eq!(patch, vec![0u8; 8]);
    assert_eq!(stats, DeltaStats::new());
    assert_eq!(stats, DeltaStats::default());
}

#[test]
fn statistics_add_up() {
    let base = noise(120_000, 7);
    let mut new = base[..60_000].to_vec();
    new.extend_from_slice(&[0u8; 30_000]);
    new.extend_from_slice(&base[60_000..]);
    let generator = DeltaGenerator::new(generate_signature(&base));
    let (patch, stats) = generator.generate_delta(&new);
    assert_eq!(stats.new_file_size, new.len());
    assert_eq!(stats.patch_file_size, patch.len());
    assert_eq!(stats.copy_bytes + stats.literal_bytes, new.len());
    assert_eq!(
        stats.uncompressed_literal_bytes + stats.compressed_literal_bytes,
        stats.literal_bytes
    );
    assert_eq!(stats.matches_found, stats.copy_instructions);
    assert!(stats.compressed_instructions > 0);
}

#[test]
fn short_literals_are_not_compressed() {
    let generator = DeltaGenerator::new(Vec::new());
    assert_eq!(
        generator.generate_delta_instructions(&[9u8; 63]),
        vec![PatchInstruction::Literal(vec![9u8; 63])]
    );
    match &generator.generate_delta_instructions(&[9u8; 64])[..] {
        [PatchInstruction::CompressedLiteral { decompressed_len, compressed_data }] => {
            assert_eq!(*decompressed_len, 64);
            assert!(compressed_data.len() < 64);
            // A frame starts with its magic number.
            assert_eq!(&compressed_data[..4], &[0x28, 0xB5, 0x2F, 0xFD]);
        }
        other => panic!("unexpected {:?}", other),
    }
    // Noise gets no smaller.
    let data = noise(100, 8);
    assert_eq!(
        generator.generate_delta_instructions(&data),
        vec![PatchInstruction::Literal(data)]
    );
}

#[test]
fn literal_instructions() {
    let data = vec![1u8; 100];
    assert_eq!(
        literal_instruction(data.clone(), None),
        PatchInstruction::Literal(data.clone())
    );
    assert_eq!(
        literal_instruction(data.clone(), Some(vec![0; 100])),
        PatchInstruction::Literal(data.clone())
    );
    assert_eq!(
        literal_instruction(data.clone(), Some(vec![0; 99])),
        PatchInstruction::CompressedLiteral { decompressed_len: 100, compressed_data: vec![0; 99] }
    );
    assert_eq!(
        literal_instruction(vec![1u8; 63], Some(vec![0; 2])),
        PatchInstruction::Literal(vec![1u8; 63])
    );
}

#[test]
fn long_literals_are_split() {
    let generator = DeltaGenerator::new(Vec::new());
    let instructions = generator.generate_delta_instructions(&vec![0u8; 9 * 1024 * 1024]);
    assert_eq!(instructions.len(), 2);
    let lengths: Vec<u64> = instructions
        .iter()
        .map(|i| match i {
            PatchInstruction::CompressedLiteral { decompressed_len, .. } => *decompressed_len,
            _ => panic!("not compressed"),
        })
        .collect();
    assert!(lengths[0] <= 8 * 1024 * 1024 && lengths[0] > 8 * 1024 * 1024 - 65536);
    assert_eq!(lengths[0] + lengths[1], 9 * 1024 * 1024);
    let instructions = generator.generate_delta_instructions(&vec![0u8; 8390655]);
    assert_eq!(instructions.len(), 2);
}

#[test]
fn first_of_equal_signatures_is_used() {
    let data = b"some chunk".to_vec();
    let weak = compute_weak_hash(&data);
    let strong = compute_strong_hash(&data);
    let generator = DeltaGenerator::new(vec![
        ChunkSignature::new(5, 11, weak, strong),
        ChunkSignature::new(7, 10, weak, [0; 32]),
        ChunkSignature::new(20, 10, weak, strong),
        ChunkSignature::new(40, 10, weak, strong),
    ]);
    assert_eq!(generator.find_match(&data), Some((20, 10)));
    assert_eq!(generator.find_match(b"other"), None);
}

#[test]
fn delta_in_reads_is_the_same() {
    let old = noise(150_000, 9);
    let mut new = old[..80_000].to_vec();
    new.extend_from_slice(&noise(3000, 10));
    new.extend_from_slice(&old[80_000..]);

    let mut signing = SignatureGenerator::new();
    for part in old.chunks(777) {
        signing.feed(part);
    }
    signing.feed(&[]);
    let signatures = signing.finish();
    assert_eq!(signatures, generate_signature(&old));

    let generator = DeltaGenerator::new(signatures);
    let mut session = DeltaSession::new(&generator);
    for part in new.chunks(5000) {
        session.feed(part);
    }
    assert_eq!(session.finish(), generator.generate_delta(&new));
}

#[test]
fn hashes() {
    assert_eq!(compute_weak_hash(b""), 0);
    assert_eq!(compute_weak_hash(b"abc"), 97 * 961 + 98 * 31 + 99);
    let signature = ChunkSignature::new(0, 3, 0, compute_strong_hash(b"abc"));
    assert_eq!(
        signature.strong_hash_hex(),
        "6437b3ac38465133ffb63b75273a8db548c558465d79db03fd359c6cd5bd9d85"
    );
}

#[test]
fn signature_file_format() {
    let signatures = vec![
        ChunkSignature::new(1, 2, 3, [4; 32]),
        ChunkSignature::new(0x0102030405060708, 300, u64::MAX, [0xAB; 32]),
    ];
    let file = write_signature_file(&signatures);
    assert_eq!(file.len(), 8 + 2 * 56);
    assert_eq!(&file[..8], &[2, 0, 0, 0, 0, 0, 0, 0]);
    assert_eq!(&file[8..32], &[1, 0, 0, 0, 0, 0, 0, 0, 2, 0, 0, 0, 0, 0, 0, 0, 3, 0, 0, 0, 0, 0, 0, 0]);
    assert_eq!(&file[64..72], &[8, 7, 6, 5, 4, 3, 2, 1]);
    assert_eq!(read_signature_file(&file), Ok(signatures.clone()));
    // What follows is of no account; what is missing is.
    let mut longer = file.clone();
    longer.push(0);
    assert_eq!(read_signature_file(&longer), Ok(signatures));
    assert_eq!(read_signature_file(&file[..file.len() - 1]), Err(UnexpectedEof));
    assert_eq!(read_signature_file(&file[..7]), Err(UnexpectedEof));
    assert_eq!(read_signature_file(&[0xFF; 100]), Err(UnexpectedEof));
}

#[test]
fn instruction_bytes() {
    assert_eq!(
        PatchInstruction::Copy(5, 4096).to_bytes(),
        vec![1, 5, 0, 0, 0, 0, 0, 0, 0, 0, 16, 0, 0, 0, 0, 0, 0]
    );
    assert_eq!(
        PatchInstruction::Literal(vec![7, 8]).to_bytes(),
        vec![2, 2, 0, 0, 0, 0, 0, 0, 0, 7, 8]
    );
    assert_eq!(
        PatchInstruction::CompressedLiteral { decompressed_len: 300, compressed_data: vec![9] }
            .to_bytes(),
        vec![3, 44, 1, 0, 0, 0, 0, 0, 0, 1, 0, 0, 0, 9]
    );
}

#[test]
fn patch_file_round_trip() {
    let instructions = vec![
        PatchInstruction::Copy(u64::MAX, 3),
        PatchInstruction::Literal(vec![]),
        PatchInstruction::CompressedLiteral { decompressed_len: 9, compressed_data: vec![1, 2, 3] },
        PatchInstruction::Literal(vec![5; 1000]),
    ];
    let file = write_patch_file(&instructions);
    assert_eq!(read_patch_file(&file), Ok(instructions.clone()));
    let mut longer = file.clone();
    longer.extend_from_slice(&[1, 2, 3]);
    assert_eq!(read_patch_file(&longer), Ok(instructions));
    assert_eq!(read_patch_file(&file[..file.len() - 1]), Err(PatchFormatError::UnexpectedEof));
    assert_eq!(read_patch_file(&[]), Err(PatchFormatError::UnexpectedEof));
    assert_eq!(
        read_patch_file(&[1, 0, 0, 0, 0, 0, 0, 0]),
        Err(PatchFormatError::UnexpectedEof)
    );
    assert_eq!(
        read_patch_file(&[1, 0, 0, 0, 0, 0, 0, 0, 9]),
        Err(PatchFormatError::UnknownTag(9))
    );
    assert_eq!(
        PatchInstruction::from_bytes(1, &[0; 15]),
        Err(PatchFormatError::UnexpectedEof)
    );
    assert_eq!(
        PatchInstruction::from_bytes(2, &[1, 0, 0, 0, 0, 0, 0, 0, 77, 78]),
        Ok((PatchInstruction::Literal(vec![77]), 9))
    );
}

#[test]
fn copies_that_go_on_are_merged() {
    let copy = PatchInstruction::Copy;
    assert_eq!(
        optimize_instructions(vec![copy(0, 10), copy(10, 5), copy(15, 1)]),
        vec![copy(0, 16)]
    );
    // Two are left as they are.
    let two = vec![copy(0, 10), copy(10, 5), copy(100, 1)];
    assert_eq!(optimize_instructions(two.clone()), two);
    // A literal ends a run.
    let parted = vec![copy(0, 1), copy(1, 1), PatchInstruction::Literal(vec![0]), copy(2, 1)];
    assert_eq!(optimize_instructions(parted.clone()), parted);
    // Short runs are not summed, and neither are runs with each other.
    let wide = vec![copy(0, usize::MAX), copy(u64::MAX, 1), PatchInstruction::Literal(vec![1])];
    assert_eq!(optimize_instructions(wide.clone()), wide);
    // An end that cannot be counted is followed by nothing.
    let far = vec![copy(u64::MAX, 1), copy(0, 1), copy(1, 1)];
    assert_eq!(optimize_instructions(far.clone()), far);
    assert_eq!(optimize_instructions(vec![]), vec![]);
}

#[test]
fn merging_changes_nothing() {
    let old = noise(1000, 11);
    let list = vec![
        PatchInstruction::Copy(0, 100),
        PatchInstruction::Copy(100, 50),
        PatchInstruction::Copy(150, 850),
        PatchInstruction::Literal(vec![1, 2, 3]),
        PatchInstruction::Copy(10, 5),
        PatchInstruction::Copy(15, 5),
    ];
    let merged = optimize_instructions(list.clone());
    assert_eq!(merged.len(), 4);
    let plain = apply_patch(old.clone(), &write_patch_file(&list)).unwrap().0;
    let short = apply_patch(old, &write_patch_file(&merged)).unwrap().0;
    assert_eq!(plain, short);
}

#[test]
fn patch_builder_counts() {
    let mut builder = PatchBuilder::new(b"ABCDEFGHIJKLMNOP".to_vec());
    builder.apply_instruction(&PatchInstruction::Copy(2, 4)).unwrap();
    builder.apply_instruction(&PatchInstruction::Literal(b"123".to_vec())).unwrap();
    builder.apply_instruction(&PatchInstruction::Copy(16, 0)).unwrap();
    assert_eq!(
        builder.apply_instruction(&PatchInstruction::Copy(13, 4)),
        Err(PatchError::CopyOutOfRange { offset: 13, length: 4 })
    );
    assert_eq!(
        *builder.stats(),
        PatchStats {
            total_instructions: 4,
            copy_instructions: 2,
            literal_instructions: 1,
            bytes_written: 7,
            bytes_copied: 4,
            bytes_literal: 3,
        }
    );
    assert_eq!(builder.finalize().0, b"CDEF123");
}

#[test]
fn first_error_stops_a_patch() {
    let mut builder = PatchBuilder::new(vec![1, 2, 3]);
    let list = vec![
        PatchInstruction::Copy(0, 3),
        PatchInstruction::Copy(u64::MAX, 1),
        PatchInstruction::Literal(vec![4]),
    ];
    assert_eq!(
        builder.apply_instructions(&list),
        Err(PatchError::CopyOutOfRange { offset: u64::MAX, length: 1 })
    );
    let (out, stats) = builder.finalize();
    assert_eq!(out, vec![1, 2, 3]);
    assert_eq!(stats.total_instructions, 2);
}

#[test]
fn compressed_literals() {
    let generator = DeltaGenerator::new(Vec::new());
    let mut instructions = generator.generate_delta_instructions(&[5u8; 1000]);
    let (out, stats) = apply_patch(vec![], &write_patch_file(&instructions)).unwrap();
    assert_eq!(out, vec![5u8; 1000]);
    assert_eq!(stats.bytes_literal, 1000);
    if let PatchInstruction::CompressedLiteral { decompressed_len, .. } = &mut instructions[0] {
        *decompressed_len = 999;
    }
    assert_eq!(
        apply_patch(vec![], &write_patch_file(&instructions)),
        Err(ApplyError::Instruction(PatchError::LengthMismatch))
    );
    let broken = vec![PatchInstruction::CompressedLiteral {
        decompressed_len: 4,
        compressed_data: vec![1, 2, 3, 4],
    }];
    assert_eq!(
        apply_patch(vec![], &write_patch_file(&broken)),
        Err(ApplyError::Instruction(PatchError::BadFrame))
    );
    assert_eq!(
        apply_patch(vec![], &[1]),
        Err(ApplyError::Format(PatchFormatError::UnexpectedEof))
    );
}

/// Applies instructions while the old file is read in small steps.
fn apply_in_reads(old: &[u8], list: &[PatchInstruction]) -> Result<(Vec<u8>, PatchStats), PatchError> {
    let mut builder = StreamingPatchBuilder::new();
    let mut out = Vec::new();
    for instruction in list {
        assert!(builder.can_take(instruction));
        builder.apply_instruction(instruction)?;
        while let Some((position, length)) = builder.next_read() {
            let start = (position as usize).min(old.len());
            let end = (start + length).min(old.len());
            builder.supply(&old[start..end])?;
            out.extend_from_slice(&builder.take_output());
        }
    }
    let (rest, stats) = builder.finalize();
    out.extend_from_slice(&rest);
    Ok((out, stats))
}

#[test]
fn streaming_is_the_same() {
    let old = noise(100_000, 12);
    let mut new = old[..30_000].to_vec();
    new.extend_from_slice(&[3u8; 5000]);
    new.extend_from_slice(&old[30_000..]);
    let generator = DeltaGenerator::new(generate_signature(&old));
    let (patch, _) = generator.generate_delta(&new);
    let list = read_patch_file(&patch).unwrap();
    let (out, stats) = apply_in_reads(&old, &list).unwrap();
    assert_eq!(out, new);
    let (whole, whole_stats) = apply_patch(old.clone(), &patch).unwrap();
    assert_eq!(whole, new);
    assert_eq!(stats, whole_stats);

    let mut builder = StreamingPatchBuilder::new();
    for instruction in &list {
        builder.apply_to(&old, instruction).unwrap();
    }
    assert_eq!(builder.stats(), whole_stats);
    assert_eq!(builder.take_output(), new);
}

#[test]
fn streaming_errors() {
    let error = |offset, length| Err(PatchError::CopyOutOfRange { offset, length });
    assert_eq!(apply_in_reads(&[1, 2, 3], &[PatchInstruction::Copy(2, 2)]), error(2, 2));
    assert_eq!(apply_in_reads(&[], &[PatchInstruction::Copy(0, 1)]), error(0, 1));
    assert_eq!(
        apply_in_reads(&[1], &[PatchInstruction::Copy(u64::MAX, 1)]),
        error(u64::MAX, 1)
    );
    assert_eq!(apply_in_reads(&[1], &[PatchInstruction::Copy(9, 0)]).unwrap().0, vec![]);
}
