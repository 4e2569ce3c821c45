//! Scanning for store-path references follows Nix's whole-NAR semantics.

use nix_archive::nar::{
    hash_tree, ByteSink, IoError, IoErrorKind, NamedNode, Node, ReferencePattern,
    ReferencePatternError, REFERENCE_LENGTH,
};

const HASH_1: &str = "dc04vv14dak1c1r48qa0m23vr9jy8sm0";
const HASH_2: &str = "zc842j0rz61mjsp3h3wp5ly71ak6qgdn";

const NAME_HASH: &str = "dc04vv14dak1c1r48qa0m23vr9jy8sm0";
const CONTENT_HASH: &str = "zc842j0rz61mjsp3h3wp5ly71ak6qgdn";
const TARGET_HASH: &str = "a5cn2i4b83gnsm60d38l3kgb8qfplm11";
const MISSING_HASH: &str = "fn7zvafq26f0c8b17brs7s95s10ibfzs";

fn pattern_of(candidates: &[&str]) -> ReferencePattern {
    let bytes: Vec<&[u8]> = candidates.iter().map(|c| c.as_bytes()).collect();
    ReferencePattern::new(&bytes).unwrap()
}

fn rejected(candidates: &[&[u8]]) -> ReferencePatternError {
    match ReferencePattern::new(candidates) {
        Err(error) => error,
        Ok(_) => panic!("the candidates were accepted"),
    }
}

#[test]
fn empty_pattern_is_immediately_complete() {
    let pattern = ReferencePattern::new(&[]).unwrap();
    assert!(pattern.is_empty());

    let mut scanner = pattern.scanner();
    assert!(scanner.is_complete());
    scanner.scan(HASH_1.as_bytes());
    assert_eq!(scanner.matched_count(), 0);
    assert_eq!(scanner.into_matches(), Vec::<usize>::new());
}

#[test]
fn accepts_the_complete_nix_base32_alphabet() {
    let alphabet = b"0123456789abcdfghijklmnpqrsvwxyz";
    let pattern = ReferencePattern::new(&[&alphabet[..]]).unwrap();
    let mut scanner = pattern.scanner();
    scanner.scan(alphabet);
    assert_eq!(scanner.into_matches(), [0]);
}

#[test]
fn matches_nix_and_lix_chunk_cases() {
    let pattern = pattern_of(&[HASH_1, HASH_2]);

    let mut scanner = pattern.scanner();
    scanner.scan(b"foobar");
    assert_eq!(scanner.matches(), Vec::<usize>::new());

    let bytes = format!("foobar{HASH_1}xyzzy{HASH_2}");
    let mut scanner = pattern.scanner();
    let mut offset = 0;
    for length in [10, 5, 5] {
        scanner.scan(&bytes.as_bytes()[offset..offset + length]);
        offset += length;
    }
    scanner.scan(&bytes.as_bytes()[offset..]);
    assert_eq!(scanner.matches(), [0, 1]);

    let mut scanner = pattern.scanner();
    for byte in bytes.as_bytes() {
        scanner.scan(std::slice::from_ref(byte));
    }
    assert_eq!(scanner.into_matches(), [0, 1]);
}

#[test]
fn finds_references_at_every_chunk_boundary() {
    let pattern = pattern_of(&[HASH_1, HASH_2]);
    let bytes = format!("prefix-{HASH_1}-middle-{HASH_2}-suffix");

    for split in 0..=bytes.len() {
        let mut scanner = pattern.scanner();
        scanner.scan(&bytes.as_bytes()[..split]);
        scanner.scan(&bytes.as_bytes()[split..]);
        assert_eq!(scanner.into_matches(), [0, 1], "split at {split}");
    }
}

#[test]
fn empty_chunks_do_not_disturb_a_partial_reference() {
    let pattern = pattern_of(&[HASH_1]);
    let mut scanner = pattern.scanner();

    scanner.scan(&HASH_1.as_bytes()[..16]);
    scanner.scan(&[]);
    scanner.scan(&[]);
    scanner.scan(&HASH_1.as_bytes()[16..]);

    assert_eq!(scanner.into_matches(), [0]);
}

#[test]
fn reports_overlapping_and_duplicate_candidates() {
    let first = "aaaaaaaaaaaaaaaaaaaaaaaaaaaaaaaa";
    let second = "aaaaaaaaaaaaaaaaaaaaaaaaaaaaaaab";
    let pattern = pattern_of(&[first, second, first]);
    let mut scanner = pattern.scanner();
    scanner.scan(b"aaaaaaaaaaaaaaaaaaaaaaaaaaaaaaaab");

    assert!(scanner.is_complete());
    assert_eq!(scanner.into_matches(), [0, 1, 2]);
}

#[test]
fn rejects_non_store_hash_candidates() {
    assert_eq!(
        rejected(&[b"short"]),
        ReferencePatternError::InvalidLength {
            index: 0,
            length: 5,
        }
    );
    assert_eq!(
        rejected(&[b"eeeeeeeeeeeeeeeeeeeeeeeeeeeeeeee"]),
        ReferencePatternError::InvalidByte {
            index: 0,
            offset: 0,
            byte: b'e',
        }
    );

    for invalid in [b'e', b'o', b't', b'u', b'A', 0xff] {
        let mut candidate = [b'0'; REFERENCE_LENGTH];
        candidate[17] = invalid;
        assert_eq!(
            rejected(&[&candidate]),
            ReferencePatternError::InvalidByte {
                index: 0,
                offset: 17,
                byte: invalid,
            }
        );
    }

    for length in [0, REFERENCE_LENGTH - 1, REFERENCE_LENGTH + 1] {
        let candidate = vec![b'0'; length];
        assert_eq!(
            rejected(&[&candidate]),
            ReferencePatternError::InvalidLength { index: 0, length }
        );
    }

    let candidates: [&[u8]; 2] = [HASH_1.as_bytes(), b"bad"];
    assert_eq!(
        rejected(&candidates),
        ReferencePatternError::InvalidLength {
            index: 1,
            length: 3,
        }
    );
}

#[test]
fn pattern_errors_say_what_is_wrong() {
    assert_eq!(
        rejected(&[b"short"]).message(),
        "reference candidate 0 has length 5; expected 32 bytes"
    );
    assert_eq!(
        rejected(&[
            HASH_1.as_bytes(),
            b"0000000000000000000000000e000000"
        ])
        .message(),
        "reference candidate 1 contains non-Nix-base32 byte 101 at offset 25"
    );
}

#[test]
fn patterns_know_their_length() {
    let pattern = pattern_of(&[HASH_1, HASH_2, HASH_1]);
    assert_eq!(pattern.len(), 3);
    assert!(!pattern.is_empty());
}

struct ShortWriter {
    bytes: Vec<u8>,
    limit: usize,
}

impl ByteSink for ShortWriter {
    fn write(&mut self, bytes: &[u8]) -> Result<usize, IoError> {
        let written = bytes.len().min(self.limit);
        self.bytes.extend_from_slice(&bytes[..written]);
        Ok(written)
    }

    fn flush(&mut self) -> Result<(), IoError> {
        Ok(())
    }
}

#[test]
fn writer_scans_only_successfully_written_bytes() {
    let pattern = pattern_of(&[HASH_1]);
    let bytes = format!("before-{HASH_1}-after");
    let mut writer = pattern.writer(ShortWriter {
        bytes: Vec::new(),
        limit: 3,
    });
    writer.write_all(bytes.as_bytes()).unwrap();
    let (inner, scanner) = writer.into_parts();

    assert_eq!(inner.bytes, bytes.as_bytes());
    assert_eq!(scanner.into_matches(), [0]);
}

struct FailAfter {
    bytes: Vec<u8>,
    remaining: usize,
}

impl ByteSink for FailAfter {
    fn write(&mut self, bytes: &[u8]) -> Result<usize, IoError> {
        if self.remaining == 0 {
            return Err(IoError::new(IoErrorKind::Other, "injected writer failure"));
        }
        let written = bytes.len().min(self.remaining);
        self.bytes.extend_from_slice(&bytes[..written]);
        self.remaining -= written;
        Ok(written)
    }

    fn flush(&mut self) -> Result<(), IoError> {
        Ok(())
    }
}

#[test]
fn writer_error_preserves_matches_from_the_accepted_prefix() {
    let pattern = pattern_of(&[HASH_1]);
    let bytes = format!("x{HASH_1}-unwritten-suffix");
    let accepted = 1 + REFERENCE_LENGTH;
    let mut writer = pattern.writer(FailAfter {
        bytes: Vec::new(),
        remaining: accepted,
    });

    let error = writer.write_all(bytes.as_bytes()).unwrap_err();
    assert_eq!(error.kind(), IoErrorKind::Other);
    let (inner, scanner) = writer.into_parts();
    assert_eq!(inner.bytes, bytes.as_bytes()[..accepted]);
    assert_eq!(scanner.into_matches(), [0]);
}

struct ZeroWriter;

impl ByteSink for ZeroWriter {
    fn write(&mut self, _bytes: &[u8]) -> Result<usize, IoError> {
        Ok(0)
    }

    fn flush(&mut self) -> Result<(), IoError> {
        Err(IoError::new(IoErrorKind::Other, "injected flush failure"))
    }
}

#[test]
fn zero_writes_and_flush_errors_are_forwarded_without_false_matches() {
    let pattern = pattern_of(&[HASH_1]);
    let mut writer = pattern.writer(ZeroWriter);

    assert_eq!(
        writer.write_all(HASH_1.as_bytes()).unwrap_err().kind(),
        IoErrorKind::WriteZero
    );
    assert_eq!(writer.flush().unwrap_err().kind(), IoErrorKind::Other);
    let (_, scanner) = writer.into_parts();
    assert_eq!(scanner.into_matches(), Vec::<usize>::new());
}

#[test]
fn writer_gives_access_to_its_parts() {
    let pattern = pattern_of(&[HASH_1]);
    let mut writer = pattern.writer(Vec::new());
    writer.write_all(b"before").unwrap();
    assert_eq!(writer.get_ref(), b"before");
    writer.get_mut().push(b'!');
    writer.write_all(HASH_1.as_bytes()).unwrap();
    assert_eq!(writer.scanner().matches(), [0]);
    let (bytes, _) = writer.into_parts();
    assert_eq!(bytes, format!("before!{HASH_1}").as_bytes());
}

#[test]
fn borrowed_tree_scan_covers_names_contents_and_symlink_targets() {
    let content = format!("points at /nix/store/{CONTENT_HASH}-contents");
    let target = format!("/nix/store/{TARGET_HASH}-target");
    let children = [
        NamedNode {
            name: b"contents",
            node: Node::Regular {
                executable: false,
                contents: content.as_bytes(),
            },
        },
        NamedNode {
            name: NAME_HASH.as_bytes(),
            node: Node::Regular {
                executable: false,
                contents: b"",
            },
        },
        NamedNode {
            name: b"symlink",
            node: Node::Symlink {
                target: target.as_bytes(),
            },
        },
    ];
    let tree = Node::Directory(&children);
    let pattern = pattern_of(&[NAME_HASH, CONTENT_HASH, TARGET_HASH, MISSING_HASH]);

    let scan = pattern.scan_tree(&tree).unwrap();
    let nar_hash = hash_tree(&tree).unwrap();

    assert_eq!(scan.matches, [0, 1, 2]);
    assert_eq!(scan.nar_size, nar_hash.size);
    assert_eq!(scan.nar_sha256, nar_hash.sha256);
}

#[test]
fn empty_pattern_still_produces_standard_nar_metadata() {
    let tree = Node::Regular {
        executable: false,
        contents: CONTENT_HASH.as_bytes(),
    };
    let pattern = ReferencePattern::new(&[]).unwrap();

    let scan = pattern.scan_tree(&tree).unwrap();

    assert!(scan.matches.is_empty());
    let nar_hash = hash_tree(&tree).unwrap();
    assert_eq!(scan.nar_size, nar_hash.size);
    assert_eq!(scan.nar_sha256, nar_hash.sha256);
}

#[test]
fn scanning_an_invalid_tree_fails() {
    let children = [NamedNode {
        name: b"a/b",
        node: Node::Directory(&[]),
    }];
    let pattern = pattern_of(&[HASH_1]);
    assert!(pattern.scan_tree(&Node::Directory(&children)).is_err());
}

#[test]
fn patterns_are_shared_by_their_clones() {
    let pattern = pattern_of(&[HASH_1]);
    let clone = pattern.clone();
    drop(pattern);
    let mut scanner = clone.scanner();
    scanner.scan(HASH_1.as_bytes());
    assert_eq!(scanner.into_matches(), [0]);
}

const NIX_BASE32: &[u8; 32] = b"0123456789abcdfghijklmnpqrsvwxyz";
const SCENARIO_COUNT: usize = 128;

/// A reproducible stream of decisions.
struct Decisions(u64);

impl Decisions {
    fn next(&mut self) -> u64 {
        self.0 ^= self.0 << 13;
        self.0 ^= self.0 >> 7;
        self.0 ^= self.0 << 17;
        self.0.wrapping_mul(0x2545_f491_4f6c_dd1d)
    }

    fn below(&mut self, exclusive_end: usize) -> usize {
        if exclusive_end == 0 {
            0
        } else {
            ((self.next() >> 16) % exclusive_end as u64) as usize
        }
    }

    fn pick<T: Copy>(&mut self, choices: &[T]) -> T {
        choices[self.below(choices.len())]
    }

    fn reference(&mut self) -> [u8; REFERENCE_LENGTH] {
        std::array::from_fn(|_| self.pick(NIX_BASE32))
    }

    fn bytes(&mut self, length: usize) -> Vec<u8> {
        (0..length).map(|_| (self.next() >> 32) as u8).collect()
    }
}

fn inject(bytes: &mut Vec<u8>, reference: &[u8; REFERENCE_LENGTH], offset: usize) {
    let required = offset + REFERENCE_LENGTH;
    if bytes.len() < required {
        bytes.resize(required, 0xff);
    }
    bytes[offset..required].copy_from_slice(reference);
}

fn scenario(decisions: &mut Decisions, kind: usize) -> (Vec<[u8; REFERENCE_LENGTH]>, Vec<u8>) {
    let count = decisions.pick(&[1, 2, 3, 8, 32]);
    let mut candidates: Vec<_> = (0..count).map(|_| decisions.reference()).collect();
    let length = decisions.pick(&[0, 1, 30, 31, 32, 33, 63, 64, 255, 4_096]);
    let mut bytes = decisions.bytes(length);

    match kind {
        // Empty candidate set and empty/non-empty streams.
        0 => candidates.clear(),
        // Guaranteed miss, including lengths around the 32-byte boundary.
        1 => bytes.fill(0xff),
        // One candidate at an arbitrary byte offset.
        2 => {
            let offset = decisions.below(bytes.len().saturating_add(1));
            inject(&mut bytes, &candidates[0], offset);
        }
        // Every candidate occurs, separated by gaps.
        3 => {
            bytes.clear();
            for candidate in &candidates {
                let gap = decisions.below(34);
                bytes.extend(decisions.bytes(gap));
                bytes.extend_from_slice(candidate);
            }
        }
        // Duplicate input candidates must report every corresponding index.
        4 => {
            let duplicate = candidates[0];
            candidates.push(duplicate);
            let offset = decisions.below(bytes.len().saturating_add(1));
            inject(&mut bytes, &duplicate, offset);
        }
        // Two distinct matches overlap by 31 bytes.
        5 => {
            let run: [u8; REFERENCE_LENGTH + 1] =
                std::array::from_fn(|_| decisions.pick(NIX_BASE32));
            let first = run[..REFERENCE_LENGTH].try_into().unwrap();
            let second = run[1..].try_into().unwrap();
            candidates = vec![first, second, decisions.reference()];
            let before = decisions.below(34);
            let after = decisions.below(34);
            bytes = decisions.bytes(before);
            bytes.extend_from_slice(&run);
            bytes.extend(decisions.bytes(after));
        }
        // Matches exactly at the beginning and end of a stream.
        6 => {
            bytes = vec![0xff; REFERENCE_LENGTH * 2 + decisions.below(65)];
            inject(&mut bytes, &candidates[0], 0);
            let end = bytes.len() - REFERENCE_LENGTH;
            let last = *candidates.last().unwrap();
            inject(&mut bytes, &last, end);
        }
        // Fully arbitrary stream with independently chosen candidate insertion.
        _ => {
            for candidate in &candidates {
                if decisions.pick(&[false, true]) {
                    let offset = decisions.below(bytes.len().saturating_add(1));
                    inject(&mut bytes, candidate, offset);
                }
            }
        }
    }

    (candidates, bytes)
}

fn naive_matches(candidates: &[[u8; REFERENCE_LENGTH]], bytes: &[u8]) -> Vec<usize> {
    candidates
        .iter()
        .enumerate()
        .filter_map(|(index, candidate)| {
            bytes
                .windows(REFERENCE_LENGTH)
                .any(|window| window == candidate)
                .then_some(index)
        })
        .collect()
}

fn chunk_ends(decisions: &mut Decisions, length: usize) -> Vec<usize> {
    let mut ends = Vec::new();
    let mut offset = 0;
    while offset < length {
        let remaining = length - offset;
        let requested = decisions.pick(&[1, 2, 3, 7, 15, 31, 32, 33, 63, 64, 127, remaining]);
        offset += requested.min(remaining);
        ends.push(offset);
    }
    ends
}

fn match_spans_boundary(
    candidates: &[[u8; REFERENCE_LENGTH]],
    bytes: &[u8],
    ends: &[usize],
) -> bool {
    ends.iter()
        .copied()
        .filter(|&end| end < bytes.len())
        .any(|end| {
            candidates.iter().any(|candidate| {
                bytes
                    .windows(REFERENCE_LENGTH)
                    .enumerate()
                    .any(|(offset, window)| {
                        window == candidate && offset < end && end < offset + REFERENCE_LENGTH
                    })
            })
        })
}

#[test]
fn antithesis_streaming_reference_properties() {
    let mut decisions = Decisions(0x9e37_79b9_7f4a_7c15);
    let mut saw_empty_candidates = false;
    let mut saw_no_match = false;
    let mut saw_all_matches = false;
    let mut saw_duplicate = false;
    let mut saw_overlap = false;
    let mut saw_one_byte_chunk = false;
    let mut saw_boundary_match = false;

    for iteration in 0..SCENARIO_COUNT {
        let kind = iteration % 8;
        let (candidates, bytes) = scenario(&mut decisions, kind);
        let expected = naive_matches(&candidates, &bytes);
        let borrowed: Vec<&[u8]> = candidates.iter().map(|c| &c[..]).collect();
        let pattern = ReferencePattern::new(&borrowed).unwrap();

        let mut ends = chunk_ends(&mut decisions, bytes.len());
        if kind == 6 && bytes.len() > 1 {
            // Guarantee a match split after its first byte.
            ends = vec![1, bytes.len()];
        }

        let mut single = pattern.scanner();
        single.scan(&bytes);
        let single_matches = single.into_matches();

        let mut chunked = pattern.scanner();
        let mut start = 0;
        for &end in &ends {
            chunked.scan(&bytes[start..end]);
            start = end;
        }
        if bytes.is_empty() {
            chunked.scan(&[]);
        }
        let complete = chunked.is_complete();
        let matched_count = chunked.matched_count();
        let chunked_matches = chunked.into_matches();

        let mut writer = pattern.writer(Vec::new());
        let mut start = 0;
        for &end in &ends {
            writer.write_all(&bytes[start..end]).unwrap();
            start = end;
        }
        writer.write_all(&bytes[start..]).unwrap();
        let (written, writer_scanner) = writer.into_parts();
        let writer_matches = writer_scanner.into_matches();

        assert!(
            single_matches == expected,
            "Single-chunk scanning agrees with the naive reference oracle"
        );
        assert!(
            chunked_matches == expected,
            "Arbitrary chunking agrees with the naive reference oracle"
        );
        assert!(
            writer_matches == expected,
            "Writer decoration agrees with the naive reference oracle"
        );
        assert!(
            written == bytes,
            "Reference writer preserves every accepted byte"
        );
        assert!(
            matched_count == expected.len(),
            "Matched count equals the number of oracle matches"
        );
        assert!(
            complete == (expected.len() == candidates.len()),
            "Scanner completion means every candidate index was found"
        );

        let empty_candidates = candidates.is_empty();
        saw_empty_candidates |= empty_candidates;
        saw_no_match |= !empty_candidates && expected.is_empty();
        saw_all_matches |= !empty_candidates && expected.len() == candidates.len();
        saw_duplicate |= kind == 4;
        saw_overlap |= kind == 5;
        saw_one_byte_chunk |= ends
            .iter()
            .copied()
            .scan(0, |start, end| {
                let length = end - *start;
                *start = end;
                Some(length)
            })
            .any(|length| length == 1);
        saw_boundary_match |= match_spans_boundary(&candidates, &bytes, &ends);
    }

    assert!(saw_empty_candidates);
    assert!(saw_no_match);
    assert!(saw_all_matches);
    assert!(saw_duplicate);
    assert!(saw_overlap);
    assert!(saw_one_byte_chunk);
    assert!(saw_boundary_match);
}

/// Counts how often it is flushed.
#[derive(Default)]
struct CountingWriter {
    flushes: usize,
}

impl ByteSink for CountingWriter {
    fn write(&mut self, bytes: &[u8]) -> Result<usize, IoError> {
        Ok(bytes.len())
    }

    fn flush(&mut self) -> Result<(), IoError> {
        self.flushes += 1;
        Ok(())
    }
}

#[test]
fn flushing_the_writer_flushes_what_is_inside_it() {
    let mut writer = pattern_of(&[HASH_1]).writer(CountingWriter::default());
    writer.write_all(HASH_1.as_bytes()).unwrap();
    writer.flush().unwrap();
    assert_eq!(writer.get_ref().flushes, 1);
    assert_eq!(writer.scanner().matches(), [0]);
}
