//! What the decoder accepts, and how it refuses the rest.

use nix_archive::nar::{
    decode, decode_events, decode_for, encode_regular, encode_tree, hash_regular, hash_tree, Entry,
    Error, Event, EventVisitor, NamedNode, Node,
};

fn tok(out: &mut Vec<u8>, bytes: &[u8]) {
    out.extend_from_slice(&(bytes.len() as u64).to_le_bytes());
    out.extend_from_slice(bytes);
    out.resize(out.len() + (8 - bytes.len() % 8) % 8, 0);
}

fn token_nar(tokens: &[&[u8]]) -> Vec<u8> {
    let mut nar = Vec::new();
    tok(&mut nar, b"nix-archive-1");
    for token in tokens {
        tok(&mut nar, token);
    }
    nar
}

fn encoded(tree: &Node<'_>) -> Vec<u8> {
    let mut nar = Vec::new();
    encode_tree(&mut nar, tree).unwrap();
    nar
}

fn regular_golden() -> Vec<u8> {
    token_nar(&[b"(", b"type", b"regular", b"contents", b"hi\n", b")"])
}

fn executable_golden() -> Vec<u8> {
    token_nar(&[
        b"(",
        b"type",
        b"regular",
        b"executable",
        b"",
        b"contents",
        b"#!/bin/bash\n\ngcc -o hello hello.c\n",
        b")",
    ])
}

fn directory_golden() -> Vec<u8> {
    token_nar(&[
        b"(",
        b"type",
        b"directory",
        b"entry",
        b"(",
        b"name",
        b"build.sh",
        b"node",
        b"(",
        b"type",
        b"regular",
        b"executable",
        b"",
        b"contents",
        b"#!/bin/bash\n\ngcc -o hello hello.c\n",
        b")",
        b")",
        b"entry",
        b"(",
        b"name",
        b"hello.c",
        b"node",
        b"(",
        b"type",
        b"regular",
        b"contents",
        b"#include <stdio.h>\n\nint main(int argc, char *argv[]){ exit 0; }\n",
        b")",
        b")",
        b"entry",
        b"(",
        b"name",
        b"hi.c",
        b"node",
        b"(",
        b"type",
        b"symlink",
        b"target",
        b"hello.c",
        b")",
        b")",
        b")",
    ])
}

fn assert_unexpected(nar: &[u8], expected: &'static str, got: &str) {
    match decode(nar) {
        Err(Error::UnexpectedToken {
            expected: actual_expected,
            got: actual_got,
        }) => {
            assert_eq!(actual_expected, expected);
            assert_eq!(actual_got, got);
        }
        other => panic!("expected {expected:?}/{got:?} token error, got {other:?}"),
    }
}

#[test]
fn strict_field_order_and_tags_are_enforced() {
    assert_unexpected(
        &token_nar(&[b"(", b"type", b"regular", b"AAAAAAAA"]),
        "contents",
        "AAAAAAAA",
    );

    // `executable` is optional, but only before `contents`.
    assert_unexpected(
        &token_nar(&[
            b"(",
            b"type",
            b"regular",
            b"contents",
            b"payload",
            b"executable",
            b"",
            b")",
        ]),
        ")",
        "executable",
    );

    // Directory entries are exactly `name`, then `node`.
    assert_unexpected(
        &token_nar(&[b"(", b"type", b"directory", b"entry", b"(", b"node"]),
        "name",
        "node",
    );

    assert_unexpected(
        &token_nar(&[b"(", b"type", b"regular", b"executable", b"yes"]),
        "",
        "yes",
    );
    assert_unexpected(
        &token_nar(&[b"(", b"type", b"symlink", b"contents"]),
        "target",
        "contents",
    );
}

#[test]
fn unknown_node_types_and_entry_tags_are_refused() {
    assert_unexpected(
        &token_nar(&[b"(", b"type", b"fifo"]),
        "regular, symlink or directory",
        "fifo",
    );
    assert_unexpected(
        &token_nar(&[b"(", b"type", b"directory", b"entries"]),
        "entry or )",
        "entries",
    );
}

/// Exercise values immediately below, at, and above an eight-byte wire block,
/// both at the root and under nested directories.
#[test]
fn alignment_boundary_matrix_round_trips() {
    for contents in [&b""[..], &b"short"[..], &b"block000"[..], &b"block0001"[..]] {
        for executable in [false, true] {
            let regular = Node::Regular {
                executable,
                contents,
            };
            let mut nar = Vec::new();
            encode_tree(&mut nar, &regular).unwrap();
            assert_eq!(nar.len() % 8, 0);
            assert!(matches!(
                decode(&nar).unwrap().as_slice(),
                [Entry::Regular {
                    path,
                    executable: actual_executable,
                    contents: actual_contents,
                }] if path.is_empty()
                    && *actual_executable == executable
                    && *actual_contents == contents
            ));

            let leaf = [NamedNode {
                name: b"a",
                node: regular,
            }];
            let middle = [NamedNode {
                name: b"d",
                node: Node::Directory(&leaf),
            }];
            let nested = Node::Directory(&middle);
            let mut nar = Vec::new();
            encode_tree(&mut nar, &nested).unwrap();
            assert_eq!(nar.len() % 8, 0);
            assert!(decode(&nar).unwrap().iter().any(|entry| matches!(
                entry,
                Entry::Regular {
                    path,
                    executable: actual_executable,
                    contents: actual_contents,
                } if path == b"d/a"
                    && *actual_executable == executable
                    && *actual_contents == contents
            )));
        }

        let symlink = Node::Symlink { target: contents };
        let mut nar = Vec::new();
        encode_tree(&mut nar, &symlink).unwrap();
        assert_eq!(nar.len() % 8, 0);
        assert!(matches!(
            decode(&nar).unwrap().as_slice(),
            [Entry::Symlink { path, target }]
                if path.is_empty() && *target == contents
        ));

        let leaf = [NamedNode {
            name: b"a",
            node: symlink,
        }];
        let nested = [NamedNode {
            name: b"d",
            node: Node::Directory(&leaf),
        }];
        let mut nar = Vec::new();
        encode_tree(&mut nar, &Node::Directory(&nested)).unwrap();
        assert_eq!(nar.len() % 8, 0);
        assert!(decode(&nar).unwrap().iter().any(|entry| matches!(
            entry,
            Entry::Symlink { path, target }
                if path == b"d/a" && *target == contents
        )));
    }
}

#[test]
fn a_fixed_tree_has_its_fixed_size_and_hash() {
    let nested = [NamedNode {
        name: b".keep",
        node: Node::Regular {
            executable: false,
            contents: b"",
        },
    }];
    let children = [
        NamedNode {
            name: b".keep",
            node: Node::Regular {
                executable: false,
                contents: b"",
            },
        },
        NamedNode {
            name: b"aa",
            node: Node::Symlink {
                target: b"/nix/store/somewhereelse",
            },
        },
        NamedNode {
            name: b"keep",
            node: Node::Directory(&nested),
        },
    ];
    let tree = Node::Directory(&children);

    let hash = hash_tree(&tree).unwrap();
    let (size, sha256) = hash.into_parts();
    assert_eq!(size, 840);
    assert_eq!(
        sha256,
        [
            0xeb, 0xd5, 0x22, 0x79, 0xa8, 0xdf, 0x02, 0x4c, 0x9f, 0xd5, 0x71, 0x8d, 0xe4, 0x10,
            0x3b, 0xf5, 0xe7, 0x60, 0xdc, 0x7f, 0x2c, 0xf4, 0x90, 0x44, 0xee, 0x7d, 0xea, 0x87,
            0xab, 0x16, 0x91, 0x1a,
        ]
    );

    let nar = encoded(&tree);
    assert_eq!(nar.len(), 840);
    let entries = decode(&nar).unwrap();
    assert_eq!(entries.len(), 5);
    assert!(matches!(
        &entries[0],
        Entry::Regular { path, executable: false, contents }
            if path == b".keep" && contents.is_empty()
    ));
    assert!(matches!(
        &entries[1],
        Entry::Symlink { path, target }
            if path == b"aa" && *target == b"/nix/store/somewhereelse"
    ));
    assert!(matches!(
        &entries[2],
        Entry::Regular { path, executable: false, contents }
            if path == b"keep/.keep" && contents.is_empty()
    ));
    assert!(matches!(&entries[3], Entry::Directory { path } if path == b"keep"));
    assert!(matches!(&entries[4], Entry::Directory { path } if path.is_empty()));
}

#[test]
fn hashing_a_file_hashes_its_archive() {
    for executable in [false, true] {
        let node = Node::Regular {
            executable,
            contents: b"hello\n",
        };
        let hash = hash_regular(b"hello\n", executable);
        assert_eq!(hash, hash_tree(&node).unwrap());
        assert_eq!(hash.size, encoded(&node).len() as u64);
    }
    assert_ne!(
        hash_regular(b"hello\n", false).sha256,
        hash_regular(b"hello\n", true).sha256
    );
}

#[test]
fn borrowed_tree_encoder_rejects_invalid_and_noncanonical_names() {
    for name in [&b""[..], &b"."[..], &b".."[..], &b"a/b"[..], &b"a\0b"[..]] {
        let children = [NamedNode {
            name,
            node: Node::Directory(&[]),
        }];
        let mut nar = Vec::new();
        assert!(matches!(
            encode_tree(&mut nar, &Node::Directory(&children)),
            Err(Error::InvalidName(_))
        ));
    }

    for names in [[&b"b"[..], &b"a"[..]], [&b"a"[..], &b"a"[..]]] {
        let children = names.map(|name| NamedNode {
            name,
            node: Node::Directory(&[]),
        });
        let mut nar = Vec::new();
        assert!(matches!(
            encode_tree(&mut nar, &Node::Directory(&children)),
            Err(Error::UnsortedEntries(..))
        ));
    }
}

#[test]
fn tree_encoding_has_the_depth_limit_of_decoding() {
    fn depth_of(levels: usize, node: Node<'_>) -> Result<(), Error> {
        if levels == 0 {
            return encode_tree(&mut Vec::new(), &node);
        }
        let children = [NamedNode { name: b"d", node }];
        depth_of(levels - 1, Node::Directory(&children))
    }

    assert!(depth_of(63, Node::Directory(&[])).is_ok());
    assert!(matches!(
        depth_of(64, Node::Directory(&[])),
        Err(Error::MaxDepth(64))
    ));
}

#[test]
fn nonzero_padding_is_rejected_at_every_alignment() {
    for target_len in 1..8 {
        let target = vec![b'x'; target_len];
        let mut nar = token_nar(&[b"(", b"type", b"symlink", b"target"]);
        let padding_start = nar.len() + 8 + target.len();
        tok(&mut nar, &target);
        tok(&mut nar, b")");

        for padding_offset in 0..8 - target_len {
            let mut corrupted = nar.clone();
            corrupted[padding_start + padding_offset] = 1;
            assert!(matches!(decode(&corrupted), Err(Error::BadPadding)));
        }
    }
}

#[test]
fn offline_regular_and_executable_goldens_match() {
    let mut regular = Vec::new();
    encode_regular(&mut regular, b"hi\n", false).unwrap();
    assert_eq!(regular, regular_golden());

    let executable_contents = b"#!/bin/bash\n\ngcc -o hello hello.c\n";
    let mut executable = Vec::new();
    encode_regular(&mut executable, executable_contents, true).unwrap();
    assert_eq!(executable, executable_golden());

    for (nar, expected_executable, expected_contents) in [
        (regular, false, &b"hi\n"[..]),
        (executable, true, &executable_contents[..]),
    ] {
        let entries = decode(&nar).unwrap();
        assert!(matches!(
            entries.as_slice(),
            [Entry::Regular { path, executable, contents }]
                if path.is_empty()
                    && *executable == expected_executable
                    && *contents == expected_contents
        ));
    }
}

fn parent_of(path: &[u8]) -> Option<&[u8]> {
    if path.is_empty() {
        return None;
    }
    match path.iter().rposition(|&byte| byte == b'/') {
        Some(slash) => Some(&path[..slash]),
        None => Some(b""),
    }
}

#[test]
fn entries_are_post_order_with_root_last() {
    let deeper = [NamedNode {
        name: b"file",
        node: Node::Regular {
            executable: false,
            contents: b"nested\n",
        },
    }];
    let sub = [
        NamedNode {
            name: b"deeper",
            node: Node::Directory(&deeper),
        },
        NamedNode {
            name: b"empty-dir",
            node: Node::Directory(&[]),
        },
    ];
    let children = [
        NamedNode {
            name: b"a",
            node: Node::Regular {
                executable: false,
                contents: b"1",
            },
        },
        NamedNode {
            name: b"a-b",
            node: Node::Regular {
                executable: false,
                contents: b"2",
            },
        },
        NamedNode {
            name: b"badlink",
            node: Node::Symlink {
                target: b"target-\xff-bytes",
            },
        },
        NamedNode {
            name: b"sub",
            node: Node::Directory(&sub),
        },
        NamedNode {
            name: b"weird-\xff\xfe-name",
            node: Node::Regular {
                executable: false,
                contents: b"attack of the bytes",
            },
        },
    ];
    let dump = encoded(&Node::Directory(&children));
    let entries = decode(&dump).expect("decode");

    let last = entries.last().expect("nonempty");
    assert!(matches!(last, Entry::Directory { path } if path.is_empty()));

    // Every entry must precede the Directory entry of its parent.
    for (i, entry) in entries.iter().enumerate() {
        let Some(parent) = parent_of(entry.path()) else {
            continue;
        };
        let parent_pos = entries
            .iter()
            .position(|e| matches!(e, Entry::Directory { path } if path == parent))
            .expect("parent directory entry exists");
        assert!(
            i < parent_pos,
            "{:?} does not precede its parent",
            entry.path()
        );
    }
    assert!(entries
        .iter()
        .any(|e| e.path() == b"weird-\xff\xfe-name"));
    assert!(entries.iter().any(
        |e| matches!(e, Entry::Symlink { target, .. } if *target == b"target-\xff-bytes")
    ));
}

fn directory_nar(names: &[&[u8]]) -> Vec<u8> {
    let mut nar = Vec::new();
    tok(&mut nar, b"nix-archive-1");
    tok(&mut nar, b"(");
    tok(&mut nar, b"type");
    tok(&mut nar, b"directory");
    for name in names {
        tok(&mut nar, b"entry");
        tok(&mut nar, b"(");
        tok(&mut nar, b"name");
        tok(&mut nar, name);
        tok(&mut nar, b"node");
        tok(&mut nar, b"(");
        tok(&mut nar, b"type");
        tok(&mut nar, b"regular");
        tok(&mut nar, b"contents");
        tok(&mut nar, b"x");
        tok(&mut nar, b")");
        tok(&mut nar, b")");
    }
    tok(&mut nar, b")");
    nar
}

fn nested_directory_nar(node_count: usize) -> Vec<u8> {
    fn node(out: &mut Vec<u8>, remaining: usize) {
        tok(out, b"(");
        tok(out, b"type");
        tok(out, b"directory");
        if remaining > 1 {
            tok(out, b"entry");
            tok(out, b"(");
            tok(out, b"name");
            tok(out, b"x");
            tok(out, b"node");
            node(out, remaining - 1);
            tok(out, b")");
        }
        tok(out, b")");
    }

    let mut nar = Vec::new();
    tok(&mut nar, b"nix-archive-1");
    node(&mut nar, node_count);
    nar
}

#[test]
fn rejects_malformed_input_without_panicking() {
    let dump = directory_golden();

    // Every proper prefix must error, never panic.
    for cut in 0..dump.len() {
        assert!(
            decode(&dump[..cut]).is_err(),
            "truncation at {cut} accepted"
        );
    }

    assert!(matches!(decode(b"not a nar"), Err(Error::BadMagic)));

    let mut trailing = dump.clone();
    trailing.extend_from_slice(&[0u8; 8]);
    assert!(matches!(decode(&trailing), Err(Error::TrailingBytes)));

    // Corrupt the padding after the root "(" token.
    let mut bad_padding = regular_golden();
    assert_eq!(bad_padding[33], 0);
    bad_padding[33] = 1;
    assert!(matches!(decode(&bad_padding), Err(Error::BadPadding)));

    // A hostile length must be rejected before conversion or allocation.
    let mut huge_length = Vec::new();
    tok(&mut huge_length, b"nix-archive-1");
    huge_length.extend_from_slice(&u64::MAX.to_le_bytes());
    assert!(matches!(decode(&huge_length), Err(Error::UnexpectedEof)));

    // Error reporting must not copy an attacker-sized unexpected token.
    let mut huge_token = Vec::new();
    tok(&mut huge_token, b"nix-archive-1");
    tok(&mut huge_token, &vec![0xff; 1024 * 1024]);
    match decode(&huge_token) {
        Err(Error::UnexpectedToken { got, .. }) => {
            assert!(got.ends_with('…'));
            assert!(
                got.len() < 4096,
                "unexpected-token preview was {} bytes",
                got.len()
            );
        }
        other => panic!("expected bounded unexpected-token error, got {other:?}"),
    }
}

#[test]
fn rejects_unsorted_and_duplicate_entries() {
    // A directory whose entries arrive as "b" then "a", and one with "a" twice.
    for (first, second) in [(b"b", b"a"), (b"a", b"a")] {
        let nar = directory_nar(&[first, second]);
        assert!(matches!(decode(&nar), Err(Error::UnsortedEntries(..))));
    }
}

#[test]
fn rejects_invalid_entry_names() {
    for name in [&b""[..], &b"."[..], &b".."[..], &b"a/b"[..], &b"a\0b"[..]] {
        let nar = directory_nar(&[name]);
        assert!(
            matches!(decode(&nar), Err(Error::InvalidName(..))),
            "invalid name {name:?} was accepted"
        );
    }
}

#[test]
fn directory_depth_matches_nix_limit() {
    assert!(decode(&nested_directory_nar(64)).is_ok());
    assert!(matches!(
        decode(&nested_directory_nar(65)),
        Err(Error::MaxDepth(64))
    ));
}

#[test]
fn case_distinct_names_remain_distinct() {
    let nar = directory_nar(&[b"A", b"a"]);
    let entries = decode(&nar).unwrap();
    let names: Vec<_> = entries
        .iter()
        .filter_map(|entry| match entry {
            Entry::Regular { path, .. } => Some(path.clone()),
            _ => None,
        })
        .collect();
    assert_eq!(names, [b"A".to_vec(), b"a".to_vec()]);
}

#[test]
fn names_sort_by_raw_bytes() {
    // '-' (0x2d) < 'b' (0x62), and a name precedes what it is the start of.
    assert!(decode(&directory_nar(&[b"a", b"a-b", b"ab", b"\xff"])).is_ok());
    assert!(decode(&directory_nar(&[b"ab", b"a-b"])).is_err());
    assert!(decode(&directory_nar(&[b"ab", b"a"])).is_err());
}

/// Hands each event to a closure.
struct OnEvent<F>(F);

impl<'a, F: FnMut(Event<'a>) -> Result<(), Error>> EventVisitor<'a> for OnEvent<F> {
    fn visit(&mut self, event: Event<'a>) -> Result<(), Error> {
        (self.0)(event)
    }
}

#[test]
fn events_borrow_from_the_archive_and_come_root_first() {
    let nar = directory_golden();
    let mut events = Vec::new();
    decode_events(
        &nar,
        &mut OnEvent(|event| {
            events.push(event);
            Ok(())
        }),
    )
    .unwrap();
    assert_eq!(
        events,
        [
            Event::DirectoryStart { name: None },
            Event::Regular {
                name: Some(b"build.sh"),
                executable: true,
                contents: &b"#!/bin/bash\n\ngcc -o hello hello.c\n"[..],
            },
            Event::Regular {
                name: Some(b"hello.c"),
                executable: false,
                contents: &b"#include <stdio.h>\n\nint main(int argc, char *argv[]){ exit 0; }\n"[..],
            },
            Event::Symlink {
                name: Some(b"hi.c"),
                target: b"hello.c",
            },
            Event::DirectoryEnd { name: None },
        ]
    );
}

#[test]
fn a_visitor_can_stop_the_slice_decoder() {
    let nar = directory_golden();
    let mut count = 0;
    let result = decode_events(
        &nar,
        &mut OnEvent(|_| {
            count += 1;
            if count == 2 {
                Err(Error::UnfinishedArchive)
            } else {
                Ok(())
            }
        }),
    );
    assert!(matches!(result, Err(Error::UnfinishedArchive)));
    assert_eq!(count, 2);
}

#[test]
fn whatever_decodes_encodes_to_the_same_bytes() {
    let nar = directory_golden();
    let mut encoder = nix_archive::nar::Encoder::new(Vec::new()).unwrap();
    decode_events(
        &nar,
        &mut OnEvent(|event| match event {
            Event::DirectoryStart { name } => encoder.start_directory(name),
            Event::DirectoryEnd { .. } => encoder.end_directory(),
            Event::Regular {
                name,
                executable,
                contents,
            } => encoder.regular(name, executable, contents),
            Event::Symlink { name, target } => encoder.symlink(name, target),
        }),
    )
    .unwrap();
    assert_eq!(encoder.finish().unwrap(), nar);
}

#[test]
fn different_trees_have_different_archives() {
    let trees = [
        Node::Directory(&[]),
        Node::Symlink { target: b"" },
        Node::Regular {
            executable: false,
            contents: b"",
        },
        Node::Regular {
            executable: true,
            contents: b"",
        },
        Node::Regular {
            executable: false,
            contents: b"\0",
        },
    ];
    for (i, a) in trees.iter().enumerate() {
        for (j, b) in trees.iter().enumerate() {
            assert_eq!(encoded(a) == encoded(b), i == j);
        }
    }
}

#[test]
fn error_texts_are_exact() {
    let name_error = decode(&directory_nar(&[b"a/b"])).unwrap_err();
    assert_eq!(name_error.message(), "invalid entry name \"a/b\"");
    let order_error = decode(&directory_nar(&[b"b", b"a"])).unwrap_err();
    assert_eq!(
        order_error.message(),
        "directory entries not sorted: \"a\" after \"b\""
    );
    let token_error = decode(&token_nar(&[b"(", b"type", b"fi\nfo"])).unwrap_err();
    assert_eq!(
        token_error.message(),
        "expected \"regular, symlink or directory\", got \"fi\\nfo\""
    );
    assert_eq!(
        decode(&nested_directory_nar(65)).unwrap_err().message(),
        "NAR directory nesting exceeds maximum depth of 64"
    );
    assert_eq!(Error::BadMagic.message(), "not a NAR: bad magic");
    assert_eq!(Error::UnexpectedEof.message(), "unexpected end of archive");
    assert_eq!(Error::BadPadding.message(), "padding bytes were not zero");
    assert_eq!(
        Error::TrailingBytes.message(),
        "trailing bytes after archive end"
    );
    assert_eq!(
        Error::CaseHackEncodeCollision(b"d/a".to_vec(), b"d/\xff".to_vec()).message(),
        "file name collision between d/a and d/\u{fffd} after removing the Nix case-hack suffix"
    );
    assert_eq!(
        Error::CaseHackCounterOverflow.message(),
        "too many case-colliding names in one directory"
    );
    assert_eq!(
        Error::TokenTooLarge {
            size: 2097152,
            limit: 1048576
        }
        .message(),
        "NAR metadata token is 2097152 bytes, exceeding the streaming limit of 1048576"
    );
    assert_eq!(
        Error::FileChanged(b"x".to_vec()).message(),
        "file changed size while encoding: x"
    );
    assert_eq!(
        Error::InvalidEncoderEvent("no directory is open").message(),
        "invalid incremental encoder event: no directory is open"
    );
    assert_eq!(
        Error::UnfinishedArchive.message(),
        "incremental encoder has an unfinished archive"
    );
    assert_eq!(
        Error::RegularSizeMismatch {
            expected: 4,
            actual: 3
        }
        .message(),
        "regular file declared 4 bytes but received 3"
    );
    assert_eq!(
        Error::EncoderPoisoned.message(),
        "incremental encoder is poisoned after a writer failure"
    );
    assert_eq!(
        Error::UnsupportedFileType(b"fifo".to_vec()).message(),
        "unsupported file type: fifo"
    );
}

#[test]
fn events_nest_even_where_the_archive_breaks_off() {
    let nar = directory_golden();
    for end in 0..=nar.len() {
        let mut depth = 0usize;
        let result = decode_events(
            &nar[..end],
            &mut OnEvent(|event| {
                match event {
                    Event::DirectoryStart { name } => {
                        assert_eq!(name.is_none(), depth == 0);
                        depth += 1;
                    }
                    Event::DirectoryEnd { name } => {
                        assert_eq!(name.is_none(), depth == 1);
                        depth -= 1;
                    }
                    Event::Regular { name, .. } | Event::Symlink { name, .. } => {
                        assert_eq!(name.is_none(), depth == 0);
                    }
                }
                Ok(())
            }),
        );
        if result.is_ok() {
            assert_eq!(depth, 0);
        }
    }
}

#[test]
fn collected_decode_rejects_names_that_are_windows_path_syntax() {
    for name in [&b"nested\\escape"[..], &b"C:drive"[..], &b"\xff"[..]] {
        let children = [NamedNode {
            name,
            node: Node::Regular {
                executable: false,
                contents: b"payload",
            },
        }];
        let nar = encoded(&Node::Directory(&children));
        assert!(matches!(
            decode_for(&nar, "windows"),
            Err(Error::InvalidName(_))
        ));
        assert_eq!(decode_for(&nar, "linux").unwrap(), decode(&nar).unwrap());
    }
}

#[test]
fn windows_takes_other_names_and_reports_what_comes_first() {
    let nar = directory_golden();
    assert_eq!(decode_for(&nar, "windows").unwrap(), decode(&nar).unwrap());

    let children = [
        NamedNode {
            name: b"a",
            node: Node::Symlink { target: b"C:\\" },
        },
        NamedNode {
            name: b"b:c",
            node: Node::Directory(&[]),
        },
        NamedNode {
            name: b"d\\e",
            node: Node::Directory(&[]),
        },
    ];
    let nar = encoded(&Node::Directory(&children));
    match decode_for(&nar, "windows") {
        Err(Error::InvalidName(name)) => assert_eq!(name, "b:c"),
        other => panic!("{other:?}"),
    }

    // An archive that goes wrong before such a name is reported as it is.
    let cut = &nar[..nar.len() / 3];
    assert!(matches!(
        decode_for(cut, "windows"),
        Err(Error::UnexpectedEof)
    ));
}
