use r_delta::chunker::{
    compute_mask, generate_gear_table, Chunk, Chunker, NeedsInput, MAX_CHUNK_SIZE, MIN_CHUNK_SIZE,
};

/// The chunks of `data`, read `step` bytes at a time.
fn chunks_in_steps(mut chunker: Chunker, data: &[u8], step: usize) -> Vec<Chunk> {
    let mut out = Vec::new();
    let mut at = 0;
    loop {
        match chunker.next_chunk() {
            Ok(Some(chunk)) => out.push(chunk),
            Ok(None) => return out,
            Err(NeedsInput) => {
                let end = (at + step).min(data.len());
                chunker.fill_buffer(&data[at..end]);
                at = end;
            }
        }
    }
}

fn chunks_of(data: &[u8]) -> Vec<Chunk> {
    chunks_in_steps(Chunker::new(), data, 65536)
}

#[test]
fn test_chunker_empty() {
    let mut chunker = Chunker::new();
    chunker.fill_buffer(&[]);
    assert!(chunker.next_chunk().unwrap().is_none());
}

#[test]
fn test_chunker_small() {
    let data = vec![0u8; 1024];
    let mut chunker = Chunker::new();
    chunker.fill_buffer(&data);
    chunker.fill_buffer(&[]);
    let chunk = chunker.next_chunk().unwrap();
    assert!(chunk.is_some());
    let chunk = chunk.unwrap();
    assert_eq!(chunk.length, 1024);
    assert_eq!(chunk.offset, 0);
}

#[test]
fn test_chunker_respects_max_size() {
    let data = vec![0xFFu8; 100000];
    for chunk in chunks_of(&data) {
        assert!(chunk.length <= MAX_CHUNK_SIZE);
        assert!(chunk.length >= MIN_CHUNK_SIZE || chunk.length < MAX_CHUNK_SIZE);
    }
}

#[test]
fn test_chunker_deterministic() {
    let data = (0..50000).map(|i| (i % 256) as u8).collect::<Vec<u8>>();
    let chunks1 = chunks_of(&data);
    let chunks2 = chunks_of(&data);
    assert_eq!(chunks1.len(), chunks2.len());
    for (c1, c2) in chunks1.iter().zip(chunks2.iter()) {
        assert_eq!(c1.offset, c2.offset);
        assert_eq!(c1.length, c2.length);
        assert_eq!(c1.data, c2.data);
    }
}

#[test]
fn test_chunker_shift_resistance() {
    let base_data: Vec<u8> = (0..20000).map(|i| ((i / 100) % 256) as u8).collect();
    let mut shifted_data = vec![0xAB; 500];
    shifted_data.extend_from_slice(&base_data);

    let chunks_base = chunks_of(&base_data);
    let chunks_shifted = chunks_of(&shifted_data);

    let mut matched = 0;
    for chunk_shifted in &chunks_shifted {
        for chunk_base in &chunks_base {
            if chunk_shifted.data == chunk_base.data {
                matched += chunk_shifted.length;
                break;
            }
        }
    }

    let match_ratio = matched as f64 / base_data.len() as f64;
    assert!(match_ratio > 0.5, "Match ratio too low: {:.2}%", match_ratio * 100.0);
}

#[test]
fn chunk_lengths_are_exact() {
    let base: Vec<u8> = (0..20000).map(|i| ((i / 100) % 256) as u8).collect();
    let lengths: Vec<usize> = chunks_of(&base).iter().map(|c| c.length).collect();
    assert_eq!(lengths, vec![3268, 3201, 13531]);

    let mut shifted = vec![0xAB; 500];
    shifted.extend_from_slice(&base);
    let lengths: Vec<usize> = chunks_of(&shifted).iter().map(|c| c.length).collect();
    assert_eq!(lengths, vec![2167, 4802, 13531]);

    let lengths: Vec<usize> = chunks_of(&[0u8; 10000]).iter().map(|c| c.length).collect();
    assert_eq!(lengths, vec![2049, 2049, 2049, 2049, 1804]);
}

#[test]
fn borders_fall_into_step_behind_an_edit() {
    let base: Vec<u8> = (0..20000).map(|i| ((i / 100) % 256) as u8).collect();
    let mut shifted = vec![0xAB; 500];
    shifted.extend_from_slice(&base);
    let base_chunks = chunks_of(&base);
    let shifted_chunks = chunks_of(&shifted);
    assert_eq!(base_chunks[2].data, shifted_chunks[2].data);
    assert_eq!(base_chunks[2].offset + 500, shifted_chunks[2].offset);
}

#[test]
fn chunks_are_the_input_however_it_is_read() {
    let data: Vec<u8> = (0..300000u32).map(|i| (i.wrapping_mul(2654435761) >> 13) as u8).collect();
    let whole = chunks_of(&data);
    let joined: Vec<u8> = whole.iter().flat_map(|c| c.data.iter().copied()).collect();
    assert_eq!(joined, data);
    for step in [1000, 4096, 70000, 300000] {
        let parts = chunks_in_steps(Chunker::new(), &data, step);
        assert_eq!(parts.len(), whole.len());
        let mut at = 0u64;
        for (a, b) in parts.iter().zip(whole.iter()) {
            assert_eq!(a.offset, at);
            assert_eq!(a.length, a.data.len());
            assert_eq!(a.data, b.data);
            at += a.length as u64;
        }
    }
}

#[test]
fn chunker_waits_for_input() {
    let mut chunker = Chunker::new();
    assert!(chunker.needs_input());
    assert!(chunker.next_chunk().is_err());
    chunker.fill_buffer(&[7u8; 10]);
    assert!(chunker.next_chunk().is_err());
    assert_eq!(chunker.taken(), 10);
    chunker.fill_buffer(&[]);
    assert!(!chunker.needs_input());
    // Behind the end nothing is taken any more.
    chunker.fill_buffer(&[1, 2, 3]);
    assert_eq!(chunker.next_chunk().unwrap().unwrap().data, vec![7u8; 10]);
    assert!(chunker.next_chunk().unwrap().is_none());
}

#[test]
fn other_sizes() {
    let data: Vec<u8> = (0..5000u32).map(|i| (i % 251) as u8).collect();
    let chunks = chunks_in_steps(Chunker::with_sizes(16, 64, 256), &data, 100);
    let joined: Vec<u8> = chunks.iter().flat_map(|c| c.data.iter().copied()).collect();
    assert_eq!(joined, data);
    for chunk in &chunks[..chunks.len() - 1] {
        assert!(chunk.length > 16 && chunk.length <= 256);
    }
    // A smallest size at the largest one leaves no place to look for borders.
    let chunks = chunks_in_steps(Chunker::with_sizes(256, 64, 256), &data, 100);
    assert!(chunks[..chunks.len() - 1].iter().all(|c| c.length == 256));
}

#[test]
fn gear_numbers() {
    let table = generate_gear_table();
    assert_eq!(table.len(), 256);
    assert_eq!(table[0], 0);
    assert_eq!(table[1], 7849785752466618629);
    assert_eq!(table[255], 465219751342423222);
}

#[test]
fn masks() {
    assert_eq!(compute_mask(8192), 8191);
    assert_eq!(compute_mask(1), 0);
    assert_eq!(compute_mask(3), 0);
    assert_eq!(compute_mask(12), 3);
    assert_eq!(compute_mask(96), 31);
}
