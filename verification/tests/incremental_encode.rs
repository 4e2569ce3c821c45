//! The incremental encoder writes what the tree encoder writes, and refuses
//! everything else.

use std::sync::atomic::{AtomicBool, Ordering};
use std::sync::{Arc, Mutex};

use nix_archive::nar::{
    encode_tree, ByteSink, Encoder, Error, IoError, IoErrorKind, NamedNode, Node,
};

/// The tokens that stand for each part of an archive, padded to eight bytes.
fn tokens(parts: &[&[u8]]) -> Vec<u8> {
    let mut out = Vec::new();
    for part in parts {
        out.extend_from_slice(&(part.len() as u64).to_le_bytes());
        out.extend_from_slice(part);
        out.resize(out.len() + (8 - part.len() % 8) % 8, 0);
    }
    out
}

fn regular_golden() -> Vec<u8> {
    tokens(&[
        b"nix-archive-1",
        b"(",
        b"type",
        b"regular",
        b"contents",
        b"hi\n",
        b")",
    ])
}

fn executable_golden() -> Vec<u8> {
    tokens(&[
        b"nix-archive-1",
        b"(",
        b"type",
        b"regular",
        b"executable",
        b"",
        b"contents",
        b"#!/bin/bash\n\ngcc -o hello hello.c\n",
        b")",
    ])
}

fn symlink_golden() -> Vec<u8> {
    tokens(&[
        b"nix-archive-1",
        b"(",
        b"type",
        b"symlink",
        b"target",
        b"hello.c",
        b")",
    ])
}

fn directory_golden() -> Vec<u8> {
    tokens(&[
        b"nix-archive-1",
        b"(",
        b"type",
        b"directory",
        b"entry",
        b"(",
        b"name",
        b"build.sh",
        b"node",
        b"(",
        b"type",
        b"regular",
        b"executable",
        b"",
        b"contents",
        b"#!/bin/bash\n\ngcc -o hello hello.c\n",
        b")",
        b")",
        b"entry",
        b"(",
        b"name",
        b"hello.c",
        b"node",
        b"(",
        b"type",
        b"regular",
        b"contents",
        b"#include <stdio.h>\n\nint main(int argc, char *argv[]){ exit 0; }\n",
        b")",
        b")",
        b"entry",
        b"(",
        b"name",
        b"hi.c",
        b"node",
        b"(",
        b"type",
        b"symlink",
        b"target",
        b"hello.c",
        b")",
        b")",
        b")",
    ])
}

#[test]
fn the_smallest_file_is_these_very_bytes() {
    let mut expected = Vec::new();
    expected.extend_from_slice(b"\x0d\0\0\0\0\0\0\0nix-archive-1\0\0\0");
    expected.extend_from_slice(b"\x01\0\0\0\0\0\0\0(\0\0\0\0\0\0\0");
    expected.extend_from_slice(b"\x04\0\0\0\0\0\0\0type\0\0\0\0");
    expected.extend_from_slice(b"\x07\0\0\0\0\0\0\0regular\0");
    expected.extend_from_slice(b"\x08\0\0\0\0\0\0\0contents");
    expected.extend_from_slice(b"\x03\0\0\0\0\0\0\0hi\n\0\0\0\0\0");
    expected.extend_from_slice(b"\x01\0\0\0\0\0\0\0)\0\0\0\0\0\0\0");
    let mut encoder = Encoder::new(Vec::new()).unwrap();
    encoder.regular(None, false, b"hi\n").unwrap();
    assert_eq!(encoder.finish().unwrap(), expected);
    assert_eq!(regular_golden(), expected);
}

#[test]
fn matches_borrowed_tree_for_nested_byte_oriented_archive() {
    let nested_children = [NamedNode {
        name: b"link",
        node: Node::Symlink {
            target: b"target-\xff-bytes",
        },
    }];
    let children = [
        NamedNode {
            name: b"empty",
            node: Node::Directory(&[]),
        },
        NamedNode {
            name: b"file",
            node: Node::Regular {
                executable: true,
                contents: b"streamed payload",
            },
        },
        NamedNode {
            name: b"nested",
            node: Node::Directory(&nested_children),
        },
        NamedNode {
            name: b"weird-\xff-name",
            node: Node::Regular {
                executable: false,
                contents: b"non UTF-8 name",
            },
        },
    ];
    let tree = Node::Directory(&children);
    let mut expected = Vec::new();
    encode_tree(&mut expected, &tree).unwrap();

    let mut encoder = Encoder::new(Vec::new()).unwrap();
    encoder.start_directory(None).unwrap();
    encoder.start_directory(Some(b"empty")).unwrap();
    encoder.end_directory().unwrap();
    let mut file = encoder.start_regular(Some(b"file"), true, 16).unwrap();
    file.write_all(b"streamed ").unwrap();
    file.write_all(b"payload").unwrap();
    file.finish().unwrap();
    encoder.start_directory(Some(b"nested")).unwrap();
    encoder
        .symlink(Some(b"link"), b"target-\xff-bytes")
        .unwrap();
    encoder.end_directory().unwrap();
    encoder
        .regular(Some(b"weird-\xff-name"), false, b"non UTF-8 name")
        .unwrap();
    encoder.end_directory().unwrap();

    assert_eq!(encoder.finish().unwrap(), expected);
}

#[test]
fn matches_nix_store_goldens() {
    let mut regular = Encoder::new(Vec::new()).unwrap();
    regular.regular(None, false, b"hi\n").unwrap();
    assert_eq!(regular.finish().unwrap(), regular_golden());

    let executable_contents = b"#!/bin/bash\n\ngcc -o hello hello.c\n";
    let mut executable = Encoder::new(Vec::new()).unwrap();
    executable.regular(None, true, executable_contents).unwrap();
    assert_eq!(executable.finish().unwrap(), executable_golden());

    let mut symlink = Encoder::new(Vec::new()).unwrap();
    symlink.symlink(None, b"hello.c").unwrap();
    assert_eq!(symlink.finish().unwrap(), symlink_golden());

    let mut directory = Encoder::new(Vec::new()).unwrap();
    directory.start_directory(None).unwrap();
    directory
        .regular(
            Some(b"build.sh"),
            true,
            b"#!/bin/bash\n\ngcc -o hello hello.c\n",
        )
        .unwrap();
    directory
        .regular(
            Some(b"hello.c"),
            false,
            b"#include <stdio.h>\n\nint main(int argc, char *argv[]){ exit 0; }\n",
        )
        .unwrap();
    directory.symlink(Some(b"hi.c"), b"hello.c").unwrap();
    directory.end_directory().unwrap();
    assert_eq!(directory.finish().unwrap(), directory_golden());
}

#[test]
fn rejects_bad_names_and_noncanonical_order_before_writing_nodes() {
    for name in [&b""[..], &b"."[..], &b".."[..], &b"a/b"[..], &b"a\0b"[..]] {
        let mut encoder = Encoder::new(Vec::new()).unwrap();
        encoder.start_directory(None).unwrap();
        assert!(matches!(
            encoder.regular(Some(name), false, b""),
            Err(Error::InvalidName(_))
        ));
    }

    for (first, second) in [(b"b", b"a"), (b"a", b"a")] {
        let mut encoder = Encoder::new(Vec::new()).unwrap();
        encoder.start_directory(None).unwrap();
        encoder.regular(Some(first), false, b"").unwrap();
        assert!(matches!(
            encoder.regular(Some(second), false, b""),
            Err(Error::UnsortedEntries(..))
        ));
    }
}

#[test]
fn refused_events_leave_the_archive_as_it_was() {
    let mut encoder = Encoder::new(Vec::new()).unwrap();
    encoder.start_directory(None).unwrap();
    encoder.symlink(Some(b"b"), b"x").unwrap();
    assert!(encoder.symlink(Some(b"a"), b"x").is_err());
    assert!(encoder.start_directory(Some(b"..")).is_err());
    assert!(encoder.start_regular(None, false, 3).is_err());
    encoder.end_directory().unwrap();

    let children = [NamedNode {
        name: b"b",
        node: Node::Symlink { target: b"x" },
    }];
    let mut expected = Vec::new();
    encode_tree(&mut expected, &Node::Directory(&children)).unwrap();
    assert_eq!(encoder.finish().unwrap(), expected);
}

#[test]
fn enforces_root_and_balanced_directory_events() {
    let mut named_root = Encoder::new(Vec::new()).unwrap();
    assert!(matches!(
        named_root.regular(Some(b"named"), false, b""),
        Err(Error::InvalidEncoderEvent(_))
    ));
    named_root.regular(None, false, b"").unwrap();
    assert!(matches!(
        named_root.symlink(None, b"second"),
        Err(Error::InvalidEncoderEvent(_))
    ));

    let mut unmatched = Encoder::new(Vec::new()).unwrap();
    assert!(matches!(
        unmatched.end_directory(),
        Err(Error::InvalidEncoderEvent(_))
    ));
    unmatched.start_directory(None).unwrap();
    assert!(matches!(
        unmatched.regular(None, false, b""),
        Err(Error::InvalidEncoderEvent(_))
    ));

    let empty = Encoder::new(Vec::new()).unwrap();
    assert!(matches!(empty.finish(), Err(Error::UnfinishedArchive)));

    let mut unfinished = Encoder::new(Vec::new()).unwrap();
    unfinished.start_directory(None).unwrap();
    assert!(matches!(unfinished.finish(), Err(Error::UnfinishedArchive)));
}

#[test]
fn usage_errors_say_what_is_wrong() {
    fn reason(result: Result<(), Error>) -> &'static str {
        match result {
            Err(Error::InvalidEncoderEvent(reason)) => reason,
            other => panic!("expected a usage error, got {other:?}"),
        }
    }

    let mut encoder = Encoder::new(Vec::new()).unwrap();
    assert_eq!(reason(encoder.end_directory()), "no directory is open");
    assert_eq!(
        reason(encoder.symlink(Some(b"named"), b"")),
        "the root must be unnamed"
    );
    encoder.start_directory(None).unwrap();
    assert_eq!(
        reason(encoder.symlink(None, b"")),
        "a node inside a directory must have a name"
    );
    encoder.end_directory().unwrap();
    assert_eq!(
        reason(encoder.symlink(None, b"")),
        "archive is already complete"
    );
    assert_eq!(
        reason(encoder.end_directory()),
        "archive is already complete"
    );
}

#[test]
fn enforces_the_same_maximum_depth_as_tree_encoding() {
    let mut encoder = Encoder::new(Vec::new()).unwrap();
    encoder.start_directory(None).unwrap();
    for _ in 1..64 {
        encoder.start_directory(Some(b"d")).unwrap();
    }
    assert!(matches!(
        encoder.start_directory(Some(b"too-deep")),
        Err(Error::MaxDepth(64))
    ));
    for _ in 0..64 {
        encoder.end_directory().unwrap();
    }
    encoder.finish().unwrap();
}

#[derive(Clone, Default)]
struct SharedWriter(Arc<Mutex<Vec<u8>>>);

impl SharedWriter {
    fn bytes(&self) -> Vec<u8> {
        self.0.lock().unwrap().clone()
    }
}

impl ByteSink for SharedWriter {
    fn write(&mut self, buf: &[u8]) -> Result<usize, IoError> {
        self.0.lock().unwrap().extend_from_slice(buf);
        Ok(buf.len())
    }

    fn flush(&mut self) -> Result<(), IoError> {
        Ok(())
    }
}

#[test]
fn regular_writer_requires_exact_size_and_only_finish_closes_the_node() {
    let output = SharedWriter::default();
    let mut short = Encoder::new(output.clone()).unwrap();
    let mut file = short.start_regular(None, false, 4).unwrap();
    file.write_all(b"abc").unwrap();
    let before_finish = output.bytes();
    assert!(matches!(
        file.finish(),
        Err(Error::RegularSizeMismatch {
            expected: 4,
            actual: 3
        })
    ));
    assert_eq!(output.bytes(), before_finish);
    assert!(matches!(short.finish(), Err(Error::EncoderPoisoned)));

    let output = SharedWriter::default();
    let mut oversized = Encoder::new(output.clone()).unwrap();
    let mut file = oversized.start_regular(None, false, 3).unwrap();
    let before_write = output.bytes();
    assert_eq!(
        file.write(b"four").unwrap_err().kind(),
        IoErrorKind::InvalidInput
    );
    drop(file);
    assert_eq!(output.bytes(), before_write);
    assert!(matches!(oversized.finish(), Err(Error::EncoderPoisoned)));
}

#[test]
fn a_file_that_is_given_up_poisons_the_encoder() {
    let mut encoder = Encoder::new(Vec::new()).unwrap();
    encoder.start_directory(None).unwrap();
    drop(encoder.start_regular(Some(b"a"), false, 0).unwrap());
    assert!(matches!(
        encoder.symlink(Some(b"b"), b""),
        Err(Error::EncoderPoisoned)
    ));
    assert!(matches!(
        encoder.end_directory(),
        Err(Error::EncoderPoisoned)
    ));
    assert!(matches!(encoder.finish(), Err(Error::EncoderPoisoned)));
}

#[test]
fn a_broken_file_takes_nothing_more() {
    let mut encoder = Encoder::new(Vec::new()).unwrap();
    let mut file = encoder.start_regular(None, false, 3).unwrap();
    assert!(file.write(b"four").is_err());
    let error = file.write(b"abc").unwrap_err();
    assert_eq!(error.kind(), IoErrorKind::Other);
    assert_eq!(error.message, "NAR encoder is poisoned");
    assert_eq!(file.flush().unwrap_err().kind(), IoErrorKind::Other);
    assert!(matches!(file.finish(), Err(Error::EncoderPoisoned)));
}

struct SwitchWriter {
    bytes: Arc<Mutex<Vec<u8>>>,
    fail: Arc<Mutex<bool>>,
}

impl ByteSink for SwitchWriter {
    fn write(&mut self, buf: &[u8]) -> Result<usize, IoError> {
        if *self.fail.lock().unwrap() {
            Err(IoError::new(IoErrorKind::Other, "injected writer failure"))
        } else {
            self.bytes.lock().unwrap().extend_from_slice(buf);
            Ok(buf.len())
        }
    }

    fn flush(&mut self) -> Result<(), IoError> {
        self.write(&[]).map(|_| ())
    }
}

struct InterruptOnceWriter {
    bytes: Arc<Mutex<Vec<u8>>>,
    interrupt_next: Arc<AtomicBool>,
}

impl ByteSink for InterruptOnceWriter {
    fn write(&mut self, buf: &[u8]) -> Result<usize, IoError> {
        if self.interrupt_next.swap(false, Ordering::SeqCst) {
            Err(IoError::new(
                IoErrorKind::Interrupted,
                "injected interruption",
            ))
        } else {
            self.bytes.lock().unwrap().extend_from_slice(buf);
            Ok(buf.len())
        }
    }

    fn flush(&mut self) -> Result<(), IoError> {
        Ok(())
    }
}

#[test]
fn interrupted_regular_write_is_retried_without_poisoning_the_encoder() {
    let bytes = Arc::new(Mutex::new(Vec::new()));
    let interrupt_next = Arc::new(AtomicBool::new(false));
    let writer = InterruptOnceWriter {
        bytes: bytes.clone(),
        interrupt_next: interrupt_next.clone(),
    };
    let mut encoder = Encoder::new(writer).unwrap();
    let mut file = encoder.start_regular(None, false, 3).unwrap();

    interrupt_next.store(true, Ordering::SeqCst);
    file.write_all(b"hi\n").unwrap();
    file.finish().unwrap();
    encoder.finish().unwrap();

    assert_eq!(*bytes.lock().unwrap(), regular_golden());
}

#[test]
fn writer_failures_permanently_poison_the_encoder() {
    let fail = Arc::new(Mutex::new(false));
    let writer = SwitchWriter {
        bytes: Arc::default(),
        fail: fail.clone(),
    };
    let mut encoder = Encoder::new(writer).unwrap();
    encoder.start_directory(None).unwrap();
    *fail.lock().unwrap() = true;
    assert!(matches!(
        encoder.symlink(Some(b"link"), b"target"),
        Err(Error::Io(_))
    ));
    *fail.lock().unwrap() = false;
    assert!(matches!(
        encoder.regular(Some(b"recovery"), false, b""),
        Err(Error::EncoderPoisoned)
    ));
    assert!(matches!(encoder.finish(), Err(Error::EncoderPoisoned)));

    let fail = Arc::new(Mutex::new(false));
    let writer = SwitchWriter {
        bytes: Arc::default(),
        fail: fail.clone(),
    };
    let mut encoder = Encoder::new(writer).unwrap();
    let mut file = encoder.start_regular(None, false, 3).unwrap();
    *fail.lock().unwrap() = true;
    assert!(file.write_all(b"abc").is_err());
    drop(file);
    *fail.lock().unwrap() = false;
    assert!(matches!(encoder.finish(), Err(Error::EncoderPoisoned)));
}

#[test]
fn an_archive_cannot_start_on_a_failing_writer() {
    let writer = SwitchWriter {
        bytes: Arc::default(),
        fail: Arc::new(Mutex::new(true)),
    };
    assert!(matches!(Encoder::new(writer), Err(Error::Io(_))));
}

#[test]
fn regular_writer_is_send_across_an_async_suspension() {
    fn assert_send<T: Send>(_: T) {}

    let future = async {
        let mut encoder = Encoder::new(Vec::new()).unwrap();
        let mut file = encoder.start_regular(None, false, 3).unwrap();
        std::future::ready(()).await;
        file.write_all(b"abc").unwrap();
        file.finish().unwrap();
        encoder.finish().unwrap()
    };
    assert_send(future);
}

/// Holds back what it is given until it is flushed.
#[derive(Clone, Default)]
struct HoldingWriter {
    held: Arc<Mutex<Vec<u8>>>,
    out: Arc<Mutex<Vec<u8>>>,
}

impl ByteSink for HoldingWriter {
    fn write(&mut self, buf: &[u8]) -> Result<usize, IoError> {
        self.held.lock().unwrap().extend_from_slice(buf);
        Ok(buf.len())
    }

    fn flush(&mut self) -> Result<(), IoError> {
        let held = std::mem::take(&mut *self.held.lock().unwrap());
        self.out.lock().unwrap().extend_from_slice(&held);
        Ok(())
    }
}

#[test]
fn a_file_is_a_sink_that_passes_on_bytes_and_flushes() {
    let output = HoldingWriter::default();
    let mut encoder = Encoder::new(output.clone()).unwrap();
    let mut file = encoder.start_regular(None, false, 3).unwrap();
    assert_eq!(ByteSink::write(&mut file, b"hi\n").unwrap(), 3);
    ByteSink::flush(&mut file).unwrap();
    assert!(output.held.lock().unwrap().is_empty());
    assert!(output.out.lock().unwrap().ends_with(b"hi\n"));
    assert_eq!(
        ByteSink::write(&mut file, b"!").unwrap_err().kind(),
        IoErrorKind::InvalidInput
    );
    assert_eq!(
        ByteSink::flush(&mut file).unwrap_err().kind(),
        IoErrorKind::Other
    );
}

#[test]
fn no_event_of_an_archive_can_be_missing() {
    for count in 0..6 {
        let mut encoder = Encoder::new(Vec::new()).unwrap();
        let mut given = 0;
        let mut due = || {
            given += 1;
            given <= count
        };
        if due() {
            encoder.start_directory(None).unwrap();
        }
        if due() {
            encoder.start_directory(Some(b"a")).unwrap();
        }
        if due() {
            encoder.regular(Some(b"b"), false, b"contents").unwrap();
        }
        if due() {
            encoder.end_directory().unwrap();
        }
        if due() {
            encoder.end_directory().unwrap();
        }
        match encoder.finish() {
            Ok(_) => assert_eq!(count, 5),
            Err(error) => {
                assert!(count < 5);
                assert!(matches!(error, Error::UnfinishedArchive));
            }
        }
    }
}

#[test]
fn what_a_writer_fails_with_is_what_is_reported() {
    let fail = Arc::new(Mutex::new(false));
    let writer = SwitchWriter {
        bytes: Arc::default(),
        fail: fail.clone(),
    };
    let mut encoder = Encoder::new(writer).unwrap();
    encoder.start_directory(None).unwrap();
    *fail.lock().unwrap() = true;
    match encoder.symlink(Some(b"link"), b"target") {
        Err(Error::Io(error)) => {
            assert_eq!(error.kind(), IoErrorKind::Other);
            assert_eq!(error.message, "injected writer failure");
        }
        other => panic!("expected the writer's failure, got {other:?}"),
    }

    let fail = Arc::new(Mutex::new(false));
    let writer = SwitchWriter {
        bytes: Arc::default(),
        fail: fail.clone(),
    };
    let mut encoder = Encoder::new(writer).unwrap();
    let mut file = encoder.start_regular(None, false, 3).unwrap();
    *fail.lock().unwrap() = true;
    assert_eq!(
        file.write_all(b"abc").unwrap_err().message,
        "injected writer failure"
    );
}

/// Claims one byte more than it was given, once its flag is set.
struct Boastful {
    bytes: Vec<u8>,
    boast: Arc<AtomicBool>,
}

impl ByteSink for Boastful {
    fn write(&mut self, buf: &[u8]) -> Result<usize, IoError> {
        if self.boast.load(Ordering::SeqCst) {
            return Ok(buf.len() + 1);
        }
        self.bytes.extend_from_slice(buf);
        Ok(buf.len())
    }

    fn flush(&mut self) -> Result<(), IoError> {
        Ok(())
    }
}

#[test]
fn a_writer_that_claims_too_much_poisons_the_encoder() {
    let boast = Arc::new(AtomicBool::new(false));
    let writer = Boastful {
        bytes: Vec::new(),
        boast: boast.clone(),
    };
    let mut encoder = Encoder::new(writer).unwrap();
    let mut file = encoder.start_regular(None, false, 3).unwrap();
    boast.store(true, Ordering::SeqCst);
    let error = file.write(b"ab").unwrap_err();
    assert_eq!(error.kind(), IoErrorKind::InvalidData);
    assert_eq!(
        error.message,
        "underlying writer reported writing more bytes than supplied"
    );
    boast.store(false, Ordering::SeqCst);
    assert_eq!(
        file.write_all(b"abc").unwrap_err().message,
        "NAR encoder is poisoned"
    );
    assert!(matches!(file.finish(), Err(Error::EncoderPoisoned)));
    assert!(matches!(encoder.finish(), Err(Error::EncoderPoisoned)));

    let boast = Arc::new(AtomicBool::new(false));
    let writer = Boastful {
        bytes: Vec::new(),
        boast: boast.clone(),
    };
    let mut encoder = Encoder::new(writer).unwrap();
    boast.store(true, Ordering::SeqCst);
    match encoder.symlink(None, b"target") {
        Err(Error::Io(error)) => assert_eq!(error.kind(), IoErrorKind::InvalidData),
        other => panic!("expected a refusal, got {other:?}"),
    }
    assert!(matches!(encoder.finish(), Err(Error::EncoderPoisoned)));
}

#[test]
fn a_file_whose_writer_failed_cannot_be_finished() {
    let fail = Arc::new(Mutex::new(false));
    let bytes = Arc::new(Mutex::new(Vec::new()));
    let writer = SwitchWriter {
        bytes: bytes.clone(),
        fail: fail.clone(),
    };
    let mut encoder = Encoder::new(writer).unwrap();
    let mut file = encoder.start_regular(None, false, 6).unwrap();
    file.write_all(b"abc").unwrap();
    *fail.lock().unwrap() = true;
    assert!(file.write_all(b"def").is_err());
    *fail.lock().unwrap() = false;
    let sent = bytes.lock().unwrap().clone();
    assert!(file.write_all(b"def").is_err());
    assert!(matches!(file.finish(), Err(Error::EncoderPoisoned)));
    assert_eq!(*bytes.lock().unwrap(), sent);
    assert!(matches!(encoder.finish(), Err(Error::EncoderPoisoned)));
}

/// Takes what its budget allows and then nothing, without failing.
struct Stalling {
    budget: usize,
}

impl ByteSink for Stalling {
    fn write(&mut self, buf: &[u8]) -> Result<usize, IoError> {
        let count = buf.len().min(self.budget);
        self.budget -= count;
        Ok(count)
    }

    fn flush(&mut self) -> Result<(), IoError> {
        Ok(())
    }
}

#[test]
fn a_writer_that_stalls_leaves_the_file_short() {
    // The magic and the head of the file take 96 bytes.
    let mut encoder = Encoder::new(Stalling { budget: 98 }).unwrap();
    let mut file = encoder.start_regular(None, false, 3).unwrap();
    let error = file.write_all(b"abc").unwrap_err();
    assert_eq!(error.kind(), IoErrorKind::WriteZero);
    assert!(matches!(
        file.finish(),
        Err(Error::RegularSizeMismatch {
            expected: 3,
            actual: 2
        })
    ));
}
