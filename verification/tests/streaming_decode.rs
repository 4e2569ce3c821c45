//! Streaming decode must see exactly what the borrowing decoder sees, and must
//! reject everything the borrowing decoder rejects.

use nix_archive::nar::{
    decode_events, decode_events_reader, encode_regular, encode_tree, ByteSink, ByteSource, Error,
    Event, EventVisitor, FileContents, IoError, IoErrorKind, NamedNode, Node, ReadEvent,
    ReadVisitor,
};
use nix_archive::wire::{expect_word, read_control};

/// Hands each event of a slice to a closure.
struct OnEvent<F>(F);

impl<'a, F: FnMut(Event<'a>) -> Result<(), Error>> EventVisitor<'a> for OnEvent<F> {
    fn visit(&mut self, event: Event<'a>) -> Result<(), Error> {
        (self.0)(event)
    }
}

/// Hands each event of a stream to a closure.
struct OnReadEvent<F>(F);

impl<R, F> ReadVisitor<R> for OnReadEvent<F>
where
    R: ByteSource,
    F: for<'e> FnMut(ReadEvent<'e, R>) -> Result<(), Error>,
{
    fn visit<'e>(&mut self, event: ReadEvent<'e, R>) -> Result<(), Error> {
        (self.0)(event)
    }
}

fn decode_stream<R, F>(reader: &mut R, visit: F) -> Result<(), Error>
where
    R: ByteSource,
    F: for<'e> FnMut(ReadEvent<'e, R>) -> Result<(), Error>,
{
    decode_events_reader(reader, &mut OnReadEvent(visit))
}

fn read_to_end<R: ByteSource>(contents: &mut FileContents<'_, R>) -> Result<Vec<u8>, Error> {
    let mut bytes = Vec::new();
    let mut chunk = [0; 7];
    loop {
        let count = contents.read(&mut chunk).map_err(Error::Io)?;
        if count == 0 {
            return Ok(bytes);
        }
        bytes.extend_from_slice(&chunk[..count]);
    }
}

/// A NAR of one small tree with a directory, an executable, a symlink and a
/// name that is not valid UTF-8.
fn sample_nar() -> Vec<u8> {
    let bin = [NamedNode {
        name: b"tool",
        node: Node::Regular {
            executable: true,
            contents: b"#!/bin/sh\necho tool\n",
        },
    }];
    let root = [
        NamedNode {
            name: b"bin",
            node: Node::Directory(&bin),
        },
        NamedNode {
            name: b"data",
            node: Node::Regular {
                executable: false,
                contents: b"contents of data\n",
            },
        },
        NamedNode {
            name: b"link",
            node: Node::Symlink {
                target: b"bin/tool",
            },
        },
        NamedNode {
            name: b"raw\xff",
            node: Node::Regular {
                executable: false,
                contents: b"byte safe\n",
            },
        },
    ];
    let mut nar = Vec::new();
    encode_tree(&mut nar, &Node::Directory(&root)).expect("encode");
    nar
}

/// Both decoders described as comparable text, so a mismatch reads as a diff
/// rather than as two unrelated failures.
fn borrowed_events(nar: &[u8]) -> Vec<String> {
    let mut seen = Vec::new();
    decode_events(
        nar,
        &mut OnEvent(|event| {
            seen.push(match event {
                Event::DirectoryStart { name } => format!("dir-start {name:?}"),
                Event::DirectoryEnd { name } => format!("dir-end {name:?}"),
                Event::Regular {
                    name,
                    executable,
                    contents,
                } => format!("regular {name:?} exec={executable} {contents:?}"),
                Event::Symlink { name, target } => format!("symlink {name:?} -> {target:?}"),
            });
            Ok(())
        }),
    )
    .expect("decode_events");
    seen
}

fn streamed_events(nar: &[u8]) -> Vec<String> {
    let mut seen = Vec::new();
    let mut reader = nar;
    decode_stream(&mut reader, |event| {
        seen.push(match event {
            Event::DirectoryStart { name } => format!("dir-start {name:?}"),
            Event::DirectoryEnd { name } => format!("dir-end {name:?}"),
            Event::Regular {
                name,
                executable,
                mut contents,
            } => {
                let size = contents.size();
                let bytes = read_to_end(&mut contents)?;
                assert_eq!(bytes.len() as u64, size, "declared size matches contents");
                format!("regular {name:?} exec={executable} {bytes:?}")
            }
            Event::Symlink { name, target } => format!("symlink {name:?} -> {target:?}"),
        });
        Ok(())
    })
    .expect("decode_events_reader");
    seen
}

/// A reader allowed to fail on an empty buffer, so payload readers cannot
/// accidentally probe it after reaching their declared end.
struct RejectEmptyReads<R>(R);

impl<R: ByteSource> ByteSource for RejectEmptyReads<R> {
    fn read(&mut self, buf: &mut [u8]) -> Result<usize, IoError> {
        if buf.is_empty() {
            return Err(IoError::new(IoErrorKind::Other, "empty read"));
        }
        self.0.read(buf)
    }
}

/// Accepts whatever it is given.
struct Sink;

impl ByteSink for Sink {
    fn write(&mut self, buf: &[u8]) -> Result<usize, IoError> {
        Ok(buf.len())
    }

    fn flush(&mut self) -> Result<(), IoError> {
        Ok(())
    }
}

/// Decode `nar`, draining every payload, and return whatever went wrong.
fn streamed_error(nar: &[u8]) -> Error {
    let mut reader = nar;
    decode_stream(&mut reader, |event| {
        if let Event::Regular { mut contents, .. } = event {
            contents.copy_to(&mut Sink).map_err(Error::Io)?;
        }
        Ok(())
    })
    .expect_err("expected a rejection")
}

fn borrowed_error(nar: &[u8]) -> Error {
    decode_events(nar, &mut OnEvent(|_| Ok(()))).expect_err("expected a rejection")
}

// Hand-built archives, for shapes the encoder is not willing to produce.

fn token(nar: &mut Vec<u8>, bytes: &[u8]) {
    nar.extend_from_slice(&(bytes.len() as u64).to_le_bytes());
    nar.extend_from_slice(bytes);
    nar.resize(nar.len() + (8 - bytes.len() % 8) % 8, 0);
}

fn append(nar: &mut Vec<u8>, parts: &[&[u8]]) {
    for part in parts {
        token(nar, part);
    }
}

/// A directory whose entries are `names` in exactly the order given, each an
/// empty regular file.
fn directory_of(names: &[&[u8]]) -> Vec<u8> {
    let mut nar = Vec::new();
    append(&mut nar, &[b"nix-archive-1", b"(", b"type", b"directory"]);
    for name in names {
        append(&mut nar, &[b"entry", b"(", b"name", name, b"node"]);
        append(
            &mut nar,
            &[b"(", b"type", b"regular", b"contents", b"", b")"],
        );
        append(&mut nar, &[b")"]);
    }
    append(&mut nar, &[b")"]);
    nar
}

/// `depth` directories nested one inside the next, innermost holding a file.
fn nested_directories(depth: usize) -> Vec<u8> {
    let mut nar = Vec::new();
    append(&mut nar, &[b"nix-archive-1"]);
    for _ in 0..depth {
        append(&mut nar, &[b"(", b"type", b"directory"]);
        append(&mut nar, &[b"entry", b"(", b"name", b"d", b"node"]);
    }
    append(
        &mut nar,
        &[b"(", b"type", b"regular", b"contents", b"", b")"],
    );
    for _ in 0..depth {
        append(&mut nar, &[b")", b")"]);
    }
    nar
}

#[test]
fn streaming_and_borrowing_decoders_agree() {
    let nar = sample_nar();
    assert_eq!(streamed_events(&nar), borrowed_events(&nar));
}

#[test]
fn exhausted_contents_do_not_probe_the_archive_reader() {
    let nar = sample_nar();
    let mut reader = RejectEmptyReads(&nar[..]);

    decode_stream(&mut reader, |event| {
        if let Event::Regular { mut contents, .. } = event {
            read_to_end(&mut contents)?;
        }
        Ok(())
    })
    .expect("complete payloads must report EOF without touching the archive reader");
}

/// One routine over both decoders, which is the whole point of the two of them
/// sharing an event type.
fn describe<C>(event: &Event<'_, C>) -> String {
    match event {
        Event::DirectoryStart { name } => format!("dir-start {name:?}"),
        Event::DirectoryEnd { name } => format!("dir-end {name:?}"),
        Event::Regular {
            name, executable, ..
        } => format!("regular {name:?} exec={executable}"),
        Event::Symlink { name, target } => format!("symlink {name:?} -> {target:?}"),
    }
}

#[test]
fn one_routine_serves_both_decoders() {
    let nar = sample_nar();

    let mut from_slice = Vec::new();
    decode_events(
        &nar,
        &mut OnEvent(|event| {
            from_slice.push(describe(&event));
            Ok(())
        }),
    )
    .expect("decode_events");

    let mut from_stream = Vec::new();
    let mut reader = &nar[..];
    decode_stream(&mut reader, |event| {
        from_stream.push(describe(&event));
        Ok(())
    })
    .expect("decode_events_reader");

    assert_eq!(from_slice, from_stream);
    assert_eq!(
        from_slice.len(),
        8,
        "root, bin, tool, /bin, data, link, raw, /root"
    );
}

#[test]
fn contents_left_unread_are_skipped() {
    let nar = sample_nar();
    let mut reader = &nar[..];
    let mut names = Vec::new();
    decode_stream(&mut reader, |event| {
        if let Event::Regular { name, .. } = event {
            // Deliberately read nothing: the decoder owes the caller the rest
            // of the archive regardless.
            names.push(name.map(<[u8]>::to_vec));
        }
        Ok(())
    })
    .expect("decode_events_reader");
    assert_eq!(
        names,
        [
            Some(b"tool".to_vec()),
            Some(b"data".to_vec()),
            Some(b"raw\xff".to_vec()),
        ]
    );
}

#[test]
fn a_partially_read_file_still_leaves_the_stream_positioned() {
    let nar = sample_nar();
    let mut reader = &nar[..];
    let mut heads = Vec::new();
    decode_stream(&mut reader, |event| {
        if let Event::Regular { mut contents, .. } = event {
            let mut first = [0; 4];
            assert_eq!(contents.read(&mut first).map_err(Error::Io)?, 4);
            heads.push(first);
        }
        Ok(())
    })
    .expect("decode_events_reader");
    // Reaching the third file at all is the positioning claim; the bytes prove
    // the decoder resumed on a token boundary rather than mid-payload.
    assert_eq!(heads, [*b"#!/b", *b"cont", *b"byte"]);
}

/// A destination that takes `budget` bytes and then refuses the rest, standing
/// in for a filesystem that fills up mid-payload.
struct FailingSink {
    budget: usize,
    accepted: Vec<u8>,
}

impl ByteSink for FailingSink {
    fn write(&mut self, buf: &[u8]) -> Result<usize, IoError> {
        if self.budget == 0 {
            return Err(IoError::new(IoErrorKind::Other, "destination is full"));
        }
        let count = self.budget.min(buf.len());
        self.accepted.extend_from_slice(&buf[..count]);
        self.budget -= count;
        Ok(count)
    }

    fn flush(&mut self) -> Result<(), IoError> {
        Ok(())
    }
}

/// `copy_to` pulls bytes out of the archive before it hands them to a writer
/// that may refuse them, so a failed write has to leave the decoder's counter
/// describing what was actually consumed. Carrying the pre-copy figure instead
/// makes the decoder skip those bytes a second time and resume inside whatever
/// follows the file.
#[test]
fn a_failed_destination_write_leaves_the_stream_positioned() {
    const PAYLOAD: usize = 200 * 1024;
    const BUDGET: usize = 4096;

    let payload = vec![b'x'; PAYLOAD];
    let root = [
        NamedNode {
            name: b"big",
            node: Node::Regular {
                executable: false,
                contents: &payload,
            },
        },
        NamedNode {
            name: b"tail",
            node: Node::Regular {
                executable: false,
                contents: b"tail-marker",
            },
        },
    ];
    let mut nar = Vec::new();
    encode_tree(&mut nar, &Node::Directory(&root)).expect("encode");

    let mut sink = FailingSink {
        budget: BUDGET,
        accepted: Vec::new(),
    };
    let mut refusals = 0;
    let mut tail = Vec::new();
    let mut reader = &nar[..];
    decode_stream(&mut reader, |event| {
        if let Event::Regular {
            name, mut contents, ..
        } = event
        {
            if name == Some(b"big".as_slice()) {
                // The visitor treats a dead destination as its own business
                // and keeps decoding, which the API explicitly allows.
                assert!(
                    contents.copy_to(&mut sink).is_err(),
                    "the sink was supposed to give out"
                );
                refusals += 1;
            } else {
                tail = read_to_end(&mut contents)?;
            }
        }
        Ok(())
    })
    .expect("the archive after the failed file is still decodable");

    assert_eq!(refusals, 1, "the large file should have been offered once");
    assert_eq!(
        sink.accepted,
        vec![b'x'; BUDGET],
        "the sink took payload bytes, not framing"
    );
    assert_eq!(
        tail,
        b"tail-marker".as_slice(),
        "the file after the failed one arrived intact"
    );
}

#[test]
fn every_truncation_of_an_archive_is_an_error() {
    let nar = sample_nar();
    for end in 0..nar.len() {
        let error = streamed_error(&nar[..end]);
        assert!(
            matches!(error, Error::UnexpectedEof | Error::BadMagic),
            "truncating to {end} of {} bytes gave {error:?}",
            nar.len()
        );
    }
}

#[test]
fn truncation_inside_the_magic_is_bad_magic_and_behind_it_an_early_end() {
    let nar = sample_nar();
    for end in 0..nar.len() {
        let slice = borrowed_error(&nar[..end]);
        let stream = streamed_error(&nar[..end]);
        if end < 24 {
            assert!(matches!(slice, Error::BadMagic));
            assert!(matches!(stream, Error::BadMagic));
        } else {
            assert!(matches!(slice, Error::UnexpectedEof));
            assert!(matches!(stream, Error::UnexpectedEof));
        }
    }
}

#[test]
fn trailing_bytes_are_rejected() {
    let mut nar = sample_nar();
    nar.extend_from_slice(b"junk");
    assert!(
        matches!(streamed_error(&nar), Error::TrailingBytes),
        "expected trailing bytes"
    );
}

#[test]
fn a_visitor_error_stops_the_decode() {
    let nar = sample_nar();
    let mut reader = &nar[..];
    let error = decode_stream(&mut reader, |_| {
        Err(Error::Io(IoError::new(
            IoErrorKind::Other,
            "visitor said no",
        )))
    })
    .unwrap_err();
    assert!(matches!(error, Error::Io(_)), "got {error:?}");
    assert_eq!(error.message(), "visitor said no");
}

/// The grammar checks are written out a second time for the streaming decoder,
/// so every one of them is pinned against the borrowing decoder's verdict.
#[test]
fn malformed_archives_are_rejected_exactly_as_the_borrowing_decoder_rejects_them() {
    let unsorted = directory_of(&[b"b", b"a"]);
    assert!(
        matches!(streamed_error(&unsorted), Error::UnsortedEntries(..)),
        "descending entries: {:?}",
        streamed_error(&unsorted)
    );

    let duplicate = directory_of(&[b"a", b"a"]);
    assert!(
        matches!(streamed_error(&duplicate), Error::UnsortedEntries(..)),
        "repeated entry: {:?}",
        streamed_error(&duplicate)
    );

    for name in [b"..".as_slice(), b".", b"", b"a/b", b"a\0b"] {
        let nar = directory_of(&[name]);
        assert!(
            matches!(streamed_error(&nar), Error::InvalidName(_)),
            "name {name:?}: {:?}",
            streamed_error(&nar)
        );
    }

    // Nix rejects a node at depth 64; one below the limit still decodes.
    let too_deep = nested_directories(64);
    assert!(
        matches!(streamed_error(&too_deep), Error::MaxDepth(64)),
        "depth 64: {:?}",
        streamed_error(&too_deep)
    );
    let deep_enough = nested_directories(63);
    streamed_events(&deep_enough);

    for nar in [&unsorted, &duplicate, &too_deep] {
        assert_eq!(
            format!("{:?}", streamed_error(nar)),
            format!("{:?}", borrowed_error(nar)),
            "the two decoders disagree about a malformed archive"
        );
    }
}

#[test]
fn every_single_byte_corruption_gets_the_same_verdict_from_both_decoders() {
    let nar = sample_nar();
    for at in 0..nar.len() {
        let mut corrupted = nar.clone();
        corrupted[at] ^= 0x01;
        let slice = decode_events(&corrupted, &mut OnEvent(|_| Ok(())));
        let mut reader = &corrupted[..];
        let stream = decode_stream(&mut reader, |_| Ok(()));
        match (slice, stream) {
            (Ok(()), Ok(())) => {}
            (_, Err(Error::TokenTooLarge { .. })) => {}
            (_, Err(Error::UnexpectedToken { got, .. })) if got.ends_with("-byte token>") => {}
            (Err(slice), Err(stream)) => {
                assert_eq!(slice.message(), stream.message(), "byte {at}")
            }
            (slice, stream) => panic!("byte {at}: {slice:?} and {stream:?}"),
        }
    }
}

#[test]
fn nonzero_padding_is_rejected_after_the_payload_is_delivered() {
    let mut nar = Vec::new();
    append(&mut nar, &[b"nix-archive-1"]);
    append(
        &mut nar,
        &[b"(", b"type", b"regular", b"contents", b"hello", b")"],
    );
    // "hello" is five bytes, so the last three bytes of its token are padding.
    let payload_end = nar.len() - 8 - 8;
    nar[payload_end - 1] = 1;

    assert!(
        matches!(streamed_error(&nar), Error::BadPadding),
        "got {:?}",
        streamed_error(&nar)
    );
    assert!(matches!(borrowed_error(&nar), Error::BadPadding));
}

#[test]
fn oversized_metadata_tokens_are_refused_before_they_are_allocated() {
    let mut nar = Vec::new();
    append(&mut nar, &[b"nix-archive-1"]);
    append(&mut nar, &[b"(", b"type", b"symlink", b"target"]);
    let length_prefix = nar.len();
    append(&mut nar, &[b"target", b")"]);
    // Claim two megabytes without supplying them: the limit has to be checked
    // against the declared length, not against what actually arrives.
    nar[length_prefix..length_prefix + 8].copy_from_slice(&(2u64 * 1024 * 1024).to_le_bytes());

    match streamed_error(&nar) {
        Error::TokenTooLarge { size, limit } => {
            assert_eq!(size, 2 * 1024 * 1024);
            assert_eq!(limit, 1024 * 1024);
        }
        other => panic!("expected TokenTooLarge, got {other:?}"),
    }
}

#[test]
fn only_the_stream_decoder_limits_metadata() {
    let target = vec![b'x'; 1024 * 1024 + 1];
    let mut nar = Vec::new();
    encode_tree(&mut nar, &Node::Symlink { target: &target }).unwrap();
    decode_events(&nar, &mut OnEvent(|_| Ok(()))).unwrap();
    assert!(matches!(
        streamed_error(&nar),
        Error::TokenTooLarge {
            size: 1048577,
            limit: 1048576
        }
    ));

    let mut nar = Vec::new();
    encode_tree(
        &mut nar,
        &Node::Symlink {
            target: &target[1..],
        },
    )
    .unwrap();
    assert_eq!(streamed_events(&nar), borrowed_events(&nar));
}

/// A corrupt length prefix must not turn the error message into a window onto
/// the rest of the archive.
#[test]
fn error_messages_do_not_quote_unbounded_stretches_of_the_archive() {
    let secret = b"SECRET".repeat(600);
    let mut nar = Vec::new();
    append(&mut nar, &[b"nix-archive-1"]);
    append(
        &mut nar,
        &[b"(", b"type", b"regular", b"contents", &secret, b")"],
    );
    // Inflate the length of the "type" token so the cursor loses alignment and
    // lands inside the payload while looking for a control word.
    let type_length_prefix = 24 + 16;
    nar[type_length_prefix..type_length_prefix + 8].copy_from_slice(&4096u64.to_le_bytes());

    let message = streamed_error(&nar).message();
    assert!(
        !message.contains("SECRET"),
        "error quoted archive payload: {message}"
    );
    assert!(
        message.len() < 128,
        "error message is {} bytes long: {message}",
        message.len()
    );
    assert_eq!(message, "expected \"type\", got \"<4096-byte token>\"");
}

#[test]
fn read_events_are_printable() {
    let nar = sample_nar();
    let mut reader = &nar[..];
    let mut printed = Vec::new();
    decode_stream(&mut reader, |event| {
        printed.push(format!("{event:?}"));
        Ok(())
    })
    .expect("decode_events_reader");
    assert!(printed[0].starts_with("DirectoryStart"), "{:?}", printed[0]);
    assert!(
        printed.iter().any(|line| line.contains("size: 20")),
        "a Regular event should show its declared size: {printed:?}"
    );
}

/// Counts what it is given and checks it is the payload, without keeping any
/// of it.
#[derive(Default)]
struct Verifier {
    bytes: u64,
    corrupt: bool,
    largest_write: usize,
}

impl ByteSink for Verifier {
    fn write(&mut self, buf: &[u8]) -> Result<usize, IoError> {
        self.corrupt |= buf.iter().any(|&byte| byte != b'x');
        self.bytes += buf.len() as u64;
        self.largest_write = self.largest_write.max(buf.len());
        Ok(buf.len())
    }

    fn flush(&mut self) -> Result<(), IoError> {
        Ok(())
    }
}

#[test]
fn a_large_file_passes_through_in_small_pieces() {
    const PAYLOAD: usize = 4 * 1024 * 1024;

    let mut nar = Vec::new();
    encode_regular(&mut nar, &vec![b'x'; PAYLOAD], false).expect("encode");

    let mut reader = &nar[..];
    let mut verifier = Verifier::default();
    decode_stream(&mut reader, |event| {
        if let Event::Regular { mut contents, .. } = event {
            assert_eq!(contents.size(), PAYLOAD as u64, "declared size");
            assert_eq!(
                contents.copy_to(&mut verifier).map_err(Error::Io)?,
                PAYLOAD as u64
            );
        }
        Ok(())
    })
    .expect("decode_events_reader");

    assert_eq!(verifier.bytes, PAYLOAD as u64, "whole payload delivered");
    assert!(!verifier.corrupt, "payload bytes were not the ones encoded");
    assert!(verifier.largest_write <= 64 * 1024);
}

/// Delivers one byte at a time, and is interrupted before each of them.
struct Trickle<'a> {
    bytes: &'a [u8],
    interrupted: bool,
}

impl ByteSource for Trickle<'_> {
    fn read(&mut self, buf: &mut [u8]) -> Result<usize, IoError> {
        if !self.interrupted {
            self.interrupted = true;
            return Err(IoError::new(IoErrorKind::Interrupted, "interrupted"));
        }
        self.interrupted = false;
        if buf.is_empty() || self.bytes.is_empty() {
            return Ok(0);
        }
        buf[0] = self.bytes[0];
        self.bytes = &self.bytes[1..];
        Ok(1)
    }
}

#[test]
fn interrupted_and_short_reads_change_nothing() {
    let nar = sample_nar();
    let mut seen = Vec::new();
    let mut reader = Trickle {
        bytes: &nar,
        interrupted: false,
    };
    decode_stream(&mut reader, |event| {
        seen.push(describe(&event));
        if let Event::Regular { mut contents, .. } = event {
            let mut copied = Vec::new();
            let size = contents.size();
            assert_eq!(contents.copy_to(&mut copied).map_err(Error::Io)?, size);
            assert_eq!(copied.len() as u64, size);
        }
        Ok(())
    })
    .expect("decode_events_reader");
    assert_eq!(seen.len(), 8);
}

/// Fails for good once its bytes are used up.
struct Broken<'a>(&'a [u8]);

impl ByteSource for Broken<'_> {
    fn read(&mut self, buf: &mut [u8]) -> Result<usize, IoError> {
        if self.0.is_empty() {
            return Err(IoError::new(IoErrorKind::PermissionDenied, "gone"));
        }
        self.0.read(buf)
    }
}

#[test]
fn a_broken_source_is_reported_as_it_is() {
    let nar = sample_nar();
    for end in [100, 200, nar.len() - 1] {
        let mut reader = Broken(&nar[..end]);
        let error = decode_stream(&mut reader, |_| Ok(())).unwrap_err();
        match error {
            Error::Io(error) => assert_eq!(error.kind(), IoErrorKind::PermissionDenied),
            other => panic!("expected the failure of the source, got {other:?}"),
        }
    }
}

#[test]
fn a_stream_is_read_to_its_end_and_one_byte_further() {
    let nar = sample_nar();
    let mut reader = &nar[..];
    decode_stream(&mut reader, |_| Ok(())).unwrap();
    assert!(reader.is_empty());

    let mut longer = nar.clone();
    longer.extend_from_slice(b"junk");
    let mut reader = &longer[..];
    assert!(matches!(
        decode_stream(&mut reader, |_| Ok(())),
        Err(Error::TrailingBytes)
    ));
    assert_eq!(reader, b"unk");
}

#[test]
fn refused_tokens_leave_the_source_at_a_known_place() {
    // A token that is too long for a word is refused by its length alone.
    let mut bytes = Vec::new();
    token(&mut bytes, b"seventeen letters");
    let mut reader = &bytes[..];
    match read_control(&mut reader, "node") {
        Err(Error::UnexpectedToken { expected, got }) => {
            assert_eq!(expected, "node");
            assert_eq!(got, "<17-byte token>");
        }
        _ => panic!("expected an oversized token"),
    }
    assert_eq!(reader, &bytes[8..]);

    // Another word, and bad padding, are read to the end of the token.
    let mut bytes = Vec::new();
    append(&mut bytes, &[b"type", b"rest"]);
    let mut reader = &bytes[..];
    assert!(expect_word(&mut reader, "node").is_err());
    assert_eq!(reader, &bytes[16..]);
    bytes[15] = 1;
    let mut reader = &bytes[..];
    assert!(matches!(
        read_control(&mut reader, "node"),
        Err(Error::BadPadding)
    ));
    assert_eq!(reader, &bytes[16..]);

    // An early end uses up what there is.
    let mut reader = &bytes[..13];
    assert!(matches!(
        read_control(&mut reader, "node"),
        Err(Error::UnexpectedEof)
    ));
    assert!(reader.is_empty());
}

#[test]
fn copying_counts_what_there_is_and_hands_on_what_fails() {
    let mut nar = Vec::new();
    encode_regular(&mut nar, b"0123456789", false).unwrap();
    let body = nar.len() - 16 - 16;

    // The archive breaks off four bytes into the contents.
    let mut copied = Vec::new();
    let mut reader = &nar[..body + 4];
    let error = decode_stream(&mut reader, |event| {
        if let Event::Regular { mut contents, .. } = event {
            assert_eq!(contents.size(), 10);
            assert_eq!(contents.copy_to(&mut copied).unwrap(), 4);
        }
        Ok(())
    })
    .unwrap_err();
    assert!(matches!(error, Error::UnexpectedEof));
    assert_eq!(copied, b"0123");

    // The source fails there instead.
    let mut copied = Vec::new();
    let mut reader = Broken(&nar[..body + 4]);
    let error = decode_stream(&mut reader, |event| {
        if let Event::Regular { mut contents, .. } = event {
            let error = contents.copy_to(&mut copied).unwrap_err();
            assert_eq!(error.kind(), IoErrorKind::PermissionDenied);
            assert_eq!(error.message, "gone");
        }
        Ok(())
    })
    .unwrap_err();
    assert!(matches!(error, Error::Io(error) if error.message == "gone"));
    assert_eq!(copied, b"0123");
}
