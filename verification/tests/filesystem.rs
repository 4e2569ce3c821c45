//! Walking and restoring trees, on a filesystem that is a value.

use nix_archive::case_hack::{archive_name_len, build_hacked_name, find_subslice};
use nix_archive::hash::HashSink;
use nix_archive::listing::Listing;
use nix_archive::nar::{
    decode, decode_events, decode_events_reader, encode_regular, encode_tree, hash_tree, ByteSink,
    ByteSource, CaseHack, Entry, Error, Event, EventVisitor, IoError, IoErrorKind, NamedNode, Node,
    ReadEvent, ReadVisitor, ReferencePattern, CASE_HACK_SUFFIX,
};
use nix_archive::refscan::finish_nar_scan;
use nix_archive::restore::{CaseFold, Destination, Place, RestoreAction, RestoreVisitor};
use nix_archive::walk::{FileKind, PathAction, PathEncoder, Permissions};

/// The permissions of an ordinary file.
const PLAIN: Permissions = Permissions::Unix { mode: 0o644 };

/// An object on disk.
#[derive(Clone, Debug, PartialEq, Eq)]
enum Object {
    File { mode: u32, contents: Vec<u8> },
    Link(Vec<u8>),
    Directory(Vec<(Vec<u8>, Object)>),
    Fifo,
}

fn file(contents: &[u8]) -> Object {
    Object::File {
        mode: 0o644,
        contents: contents.to_vec(),
    }
}

fn directory(entries: &[(&[u8], Object)]) -> Object {
    Object::Directory(
        entries
            .iter()
            .map(|(name, object)| (name.to_vec(), object.clone()))
            .collect(),
    )
}

impl Object {
    fn kind(&self) -> FileKind {
        match self {
            Object::File { .. } => FileKind::Regular,
            Object::Link(_) => FileKind::Symlink,
            Object::Directory(_) => FileKind::Directory,
            Object::Fifo => FileKind::Other,
        }
    }

    fn child(&self, name: &[u8]) -> Option<&Object> {
        match self {
            Object::Directory(entries) => entries
                .iter()
                .find(|(entry, _)| entry == name)
                .map(|(_, object)| object),
            _ => None,
        }
    }
}

/// Serialize the object at `path`, answering what the encoder asks.
fn dump_to<W: ByteSink>(
    writer: W,
    path: &[u8],
    root: &Object,
    case_hack: CaseHack,
) -> Result<W, Error> {
    let mut encoder = PathEncoder::new(writer, path, case_hack)?;
    let mut open: Vec<&Object> = Vec::new();
    let mut current = root;
    let mut offset = 0;
    let mut action = encoder.found(current.kind())?;
    loop {
        action = match action {
            PathAction::Lookup { depth, name } => {
                open.truncate(depth);
                current = open[depth - 1].child(&name).expect("listed entries exist");
                encoder.found(current.kind())?
            }
            PathAction::ReadLink => match current {
                Object::Link(target) => encoder.target(target)?,
                other => panic!("{other:?} is no link"),
            },
            PathAction::Open { directory } => match current {
                Object::File { mode, contents } => {
                    assert!(!directory);
                    offset = 0;
                    encoder.opened(
                        FileKind::Regular,
                        contents.len() as u64,
                        Permissions::Unix { mode: *mode },
                    )?
                }
                other => {
                    assert!(directory);
                    encoder.opened(other.kind(), 0, Permissions::Unix { mode: 0o755 })?
                }
            },
            PathAction::Read { limit } => match current {
                Object::File { contents, .. } => {
                    let count = (limit as usize).min(5);
                    let chunk = &contents[offset..offset + count];
                    offset += count;
                    encoder.read(chunk)?
                }
                other => panic!("{other:?} is no file"),
            },
            PathAction::Probe => match current {
                Object::File { contents, .. } => encoder.probed(offset < contents.len())?,
                other => panic!("{other:?} is no file"),
            },
            PathAction::List => match current {
                Object::Directory(entries) => {
                    open.push(current);
                    let mut names: Vec<Vec<u8>> =
                        entries.iter().rev().map(|(name, _)| name.clone()).collect();
                    names.push(b".".to_vec());
                    names.push(b"..".to_vec());
                    encoder.listed(names)?
                }
                other => panic!("{other:?} is no directory"),
            },
            PathAction::Done => return encoder.finish(),
        };
    }
}

fn dump(root: &Object, case_hack: CaseHack) -> Result<Vec<u8>, Error> {
    dump_to(Vec::new(), b"root", root, case_hack)
}

/// ASCII letters of different case are one.
fn ascii_fold() -> CaseFold {
    let mut table = [0; 256];
    for (byte, folded) in table.iter_mut().enumerate() {
        *folded = (byte as u8).to_ascii_lowercase();
    }
    CaseFold { table }
}

/// Recreates objects as a restore visitor says.
struct Restore {
    visitor: RestoreVisitor,
    /// The directories under way, each with its name on disk.
    open: Vec<(Vec<u8>, Vec<(Vec<u8>, Object)>)>,
    root: Option<Object>,
}

impl Restore {
    fn put(&mut self, place: Place, object: Object) -> Result<(), Error> {
        match place {
            Place::Root => {
                assert!(self.root.is_none());
                self.root = Some(object);
            }
            Place::Child(name) => {
                let entries = &mut self.open.last_mut().unwrap().1;
                if entries.iter().any(|(entry, _)| *entry == name) {
                    return Err(Error::Io(IoError::new(
                        IoErrorKind::AlreadyExists,
                        "file exists",
                    )));
                }
                entries.push((name, object));
            }
        }
        Ok(())
    }
}

impl<'a> EventVisitor<'a> for Restore {
    fn visit(&mut self, event: Event<'a>) -> Result<(), Error> {
        match self.visitor.visit(&event)? {
            RestoreAction::CreateDirectory(place) => {
                let name = match place {
                    Place::Root => Vec::new(),
                    Place::Child(name) => name,
                };
                self.open.push((name, Vec::new()));
            }
            RestoreAction::LeaveDirectory => {
                let (name, entries) = self.open.pop().unwrap();
                let place = if self.open.is_empty() {
                    Place::Root
                } else {
                    Place::Child(name)
                };
                self.put(place, Object::Directory(entries))?;
            }
            RestoreAction::CreateRegular { place, mode } => {
                if let Event::Regular { contents, .. } = event {
                    self.put(
                        place,
                        Object::File {
                            mode,
                            contents: contents.to_vec(),
                        },
                    )?;
                }
            }
            RestoreAction::CreateSymlink(place) => {
                if let Event::Symlink { target, .. } = event {
                    self.put(place, Object::Link(target.to_vec()))?;
                }
            }
        }
        assert_eq!(self.visitor.depth(), self.open.len());
        Ok(())
    }
}

fn restored(nar: &[u8], case_hack: CaseHack) -> Result<Object, Error> {
    let mut restore = Restore {
        visitor: RestoreVisitor::new(case_hack, ascii_fold()),
        open: Vec::new(),
        root: None,
    };
    decode_events(nar, &mut restore)?;
    Ok(restore.root.expect("an archive has a root"))
}

fn three_way_case_collision_nar() -> Vec<u8> {
    let children = [
        NamedNode {
            name: b"FOO",
            node: Node::Regular {
                executable: false,
                contents: b"upper",
            },
        },
        NamedNode {
            name: b"Foo",
            node: Node::Directory(&[]),
        },
        NamedNode {
            name: b"foo",
            node: Node::Symlink { target: b"FOO" },
        },
    ];
    let mut nar = Vec::new();
    encode_tree(&mut nar, &Node::Directory(&children)).unwrap();
    nar
}

#[test]
fn native_default_matches_nix_platform_default() {
    assert_eq!(CaseHack::native("macos"), CaseHack::Enabled);
    for os in ["linux", "freebsd", "windows", "macOS", ""] {
        assert_eq!(CaseHack::native(os), CaseHack::Disabled);
    }
    assert!(CaseHack::Enabled.is_enabled());
    assert!(!CaseHack::Disabled.is_enabled());
}

#[test]
fn restore_numbers_case_collisions_and_dump_undoes_them() {
    let nar = three_way_case_collision_nar();

    let restored = restored(&nar, CaseHack::Enabled).unwrap();

    assert_eq!(restored.child(b"FOO"), Some(&file(b"upper")));
    assert_eq!(
        restored.child(b"Foo~nix~case~hack~1"),
        Some(&directory(&[]))
    );
    assert_eq!(
        restored.child(b"foo~nix~case~hack~2"),
        Some(&Object::Link(b"FOO".to_vec()))
    );

    let dumped = dump(&restored, CaseHack::Enabled).unwrap();
    assert_eq!(dumped, nar, "case-hack restore/dump did not round trip");
}

#[test]
fn restore_without_the_hack_keeps_every_name() {
    let nar = three_way_case_collision_nar();
    let restored = restored(&nar, CaseHack::Disabled).unwrap();
    for name in [b"FOO", b"Foo", b"foo"] {
        assert!(restored.child(name).is_some());
    }
    assert_eq!(dump(&restored, CaseHack::Disabled).unwrap(), nar);
}

#[test]
fn restore_rejects_a_generated_name_that_collides_with_an_explicit_name() {
    let children = [
        NamedNode {
            name: b"Test",
            node: Node::Regular {
                executable: false,
                contents: b"first",
            },
        },
        NamedNode {
            name: b"Test~nix~case~hack~1",
            node: Node::Regular {
                executable: false,
                contents: b"explicit",
            },
        },
        NamedNode {
            name: b"test",
            node: Node::Regular {
                executable: false,
                contents: b"collision",
            },
        },
    ];
    let mut nar = Vec::new();
    encode_tree(&mut nar, &Node::Directory(&children)).unwrap();

    let error = restored(&nar, CaseHack::Enabled).unwrap_err();
    assert!(matches!(error, Error::CaseHackRestoreCollision { .. }));
    assert_eq!(
        error.message(),
        "archive name \"test\" maps to \"test~nix~case~hack~1\", which collides with explicit \
         name \"Test~nix~case~hack~1\""
    );
}

#[test]
fn dump_strips_from_first_suffix_and_sorts_by_the_unhacked_name() {
    let root = directory(&[
        (b"a0", file(b"plain")),
        (b"a~nix~case~hack~99ignored", file(b"hacked")),
    ]);

    let nar = dump(&root, CaseHack::Enabled).unwrap();
    let entries = decode(&nar).unwrap();
    let regular: Vec<_> = entries
        .iter()
        .filter_map(|entry| match entry {
            Entry::Regular { path, contents, .. } => Some((path.clone(), contents.to_vec())),
            _ => None,
        })
        .collect();
    assert_eq!(
        regular,
        [
            (b"a".to_vec(), b"hacked".to_vec()),
            (b"a0".to_vec(), b"plain".to_vec()),
        ]
    );
}

#[test]
fn dump_rejects_true_collision_after_suffix_removal() {
    let mut hacked = b"name".to_vec();
    hacked.extend_from_slice(&CASE_HACK_SUFFIX);
    hacked.extend_from_slice(b"1");
    let root = directory(&[(b"name", file(b"one")), (&hacked, file(b"two"))]);

    match dump(&root, CaseHack::Enabled) {
        Err(Error::CaseHackEncodeCollision(a, b)) => {
            let mut paths = [a, b];
            paths.sort();
            assert_eq!(
                paths,
                [
                    b"root/name".to_vec(),
                    b"root/name~nix~case~hack~1".to_vec(),
                ]
            );
        }
        other => panic!("expected a collision, got {other:?}"),
    }
    dump(&root, CaseHack::Disabled).unwrap();
}

#[test]
fn the_hack_changes_only_trees_with_the_suffix() {
    let plain = directory(&[(b"notes", file(b"mine")), (b"other", Object::Link(b"x".to_vec()))]);
    assert_eq!(
        dump(&plain, CaseHack::Enabled).unwrap(),
        dump(&plain, CaseHack::Disabled).unwrap()
    );

    let suffixed = directory(&[(b"notes~nix~case~hack~1", file(b"mine"))]);
    let on = dump(&suffixed, CaseHack::Enabled).unwrap();
    let off = dump(&suffixed, CaseHack::Disabled).unwrap();
    assert_eq!(off.len(), 304);
    assert_eq!(on.len(), 288);
}

#[test]
fn complex_tree_golden_decodes_restores_and_reencodes() {
    let nested = [NamedNode {
        name: b".keep",
        node: Node::Regular {
            executable: false,
            contents: b"",
        },
    }];
    let children = [
        NamedNode {
            name: b".keep",
            node: Node::Regular {
                executable: false,
                contents: b"",
            },
        },
        NamedNode {
            name: b"aa",
            node: Node::Symlink {
                target: b"/nix/store/somewhereelse",
            },
        },
        NamedNode {
            name: b"keep",
            node: Node::Directory(&nested),
        },
    ];
    let tree = Node::Directory(&children);

    let (size, sha256) = hash_tree(&tree).unwrap().into_parts();
    assert_eq!(size, 840);
    assert_eq!(
        sha256,
        [
            0xeb, 0xd5, 0x22, 0x79, 0xa8, 0xdf, 0x02, 0x4c, 0x9f, 0xd5, 0x71, 0x8d, 0xe4, 0x10,
            0x3b, 0xf5, 0xe7, 0x60, 0xdc, 0x7f, 0x2c, 0xf4, 0x90, 0x44, 0xee, 0x7d, 0xea, 0x87,
            0xab, 0x16, 0x91, 0x1a,
        ]
    );

    let mut nar = Vec::new();
    encode_tree(&mut nar, &tree).unwrap();
    let entries = decode(&nar).unwrap();
    assert_eq!(entries.len(), 5);
    assert!(matches!(
        &entries[0],
        Entry::Regular { path, executable: false, contents }
            if path == b".keep" && contents.is_empty()
    ));
    assert!(matches!(
        &entries[1],
        Entry::Symlink { path, target }
            if path == b"aa" && *target == b"/nix/store/somewhereelse"
    ));
    assert!(matches!(
        &entries[2],
        Entry::Regular { path, executable: false, contents }
            if path == b"keep/.keep" && contents.is_empty()
    ));
    assert!(matches!(&entries[3], Entry::Directory { path } if path == b"keep"));
    assert!(matches!(&entries[4], Entry::Directory { path } if path.is_empty()));

    let restored = restored(&nar, CaseHack::Disabled).unwrap();
    assert_eq!(
        restored.child(b"aa"),
        Some(&Object::Link(b"/nix/store/somewhereelse".to_vec()))
    );
    assert_eq!(dump(&restored, CaseHack::Disabled).unwrap(), nar);
}

#[test]
fn encoder_encode_regular_matches_encode_path() {
    for (contents, executable) in [(&b"hello\n"[..], false), (&b"#!/bin/sh\n"[..], true)] {
        let mut direct = Vec::new();
        encode_regular(&mut direct, contents, executable).unwrap();
        let object = Object::File {
            mode: if executable { 0o755 } else { 0o644 },
            contents: contents.to_vec(),
        };
        assert_eq!(dump(&object, CaseHack::Disabled).unwrap(), direct);
    }
}

#[test]
fn only_owner_execute_bit_marks_a_regular_file_executable() {
    for (execute_bits, expected) in [
        (0o000, false),
        (0o001, false),
        (0o010, false),
        (0o100, true),
        (0o111, true),
    ] {
        let mode = 0o600 | execute_bits;
        let object = Object::File {
            mode,
            contents: b"contents".to_vec(),
        };
        let nar = dump(&object, CaseHack::Disabled).unwrap();
        assert!(
            matches!(
                decode(&nar).unwrap().as_slice(),
                [Entry::Regular { executable, .. }] if *executable == expected
            ),
            "wrong executable flag for execute bits {execute_bits:03o}"
        );
        assert_eq!(Permissions::Unix { mode }.executable(), expected);
    }
}

#[test]
fn type_and_special_bits_do_not_make_a_file_executable() {
    assert!(!Permissions::Unix { mode: 0o107677 }.executable());
    assert!(Permissions::Unix { mode: 0o100700 }.executable());
    assert!(!Permissions::Windows.executable());
}

#[test]
fn thousand_file_directory_is_sorted() {
    let entries: Vec<(Vec<u8>, Object)> = (0..1001)
        .map(|index| (format!("{:08}", (index * 709) % 1001).into_bytes(), file(b"hi\n")))
        .collect();
    let nar = dump(&Object::Directory(entries), CaseHack::Disabled).unwrap();
    let decoded = decode(&nar).unwrap();
    assert_eq!(decoded.len(), 1002);
    for (index, entry) in decoded.iter().take(1001).enumerate() {
        assert_eq!(entry.path(), format!("{index:08}").as_bytes());
    }
}

#[test]
fn nested_directories_end_where_they_should() {
    let root = directory(&[
        (
            b"a",
            directory(&[(b"b", directory(&[(b"c", file(b"deep"))]))]),
        ),
        (b"d", directory(&[])),
        (b"e", Object::Link(b"a/b".to_vec())),
    ]);
    let nar = dump(&root, CaseHack::Disabled).unwrap();
    assert_eq!(restored(&nar, CaseHack::Disabled).unwrap(), root);
    let paths: Vec<Vec<u8>> = decode(&nar)
        .unwrap()
        .iter()
        .map(|entry| entry.path().to_vec())
        .collect();
    assert_eq!(
        paths,
        [
            b"a/b/c".to_vec(),
            b"a/b".to_vec(),
            b"a".to_vec(),
            b"d".to_vec(),
            b"e".to_vec(),
            b"".to_vec(),
        ]
    );
}

#[test]
fn unsupported_objects_are_refused_with_their_path() {
    let root = directory(&[(b"sub", directory(&[(b"pipe", Object::Fifo)]))]);
    match dump(&root, CaseHack::Disabled) {
        Err(Error::UnsupportedFileType(path)) => assert_eq!(path, b"root/sub/pipe"),
        other => panic!("expected a refusal, got {other:?}"),
    }
}

#[test]
fn files_that_change_size_are_refused() {
    let mut shrunk = PathEncoder::new(Vec::new(), b"file", CaseHack::Disabled).unwrap();
    shrunk.found(FileKind::Regular).unwrap();
    assert!(matches!(
        shrunk.opened(FileKind::Regular, 10, PLAIN).unwrap(),
        PathAction::Read { limit: 10 }
    ));
    assert!(matches!(
        shrunk.read(b"12345").unwrap(),
        PathAction::Read { limit: 5 }
    ));
    match shrunk.read(b"") {
        Err(Error::FileChanged(path)) => assert_eq!(path, b"file"),
        other => panic!("expected a changed file, got {other:?}"),
    }

    let mut grown = PathEncoder::new(Vec::new(), b"file", CaseHack::Disabled).unwrap();
    grown.found(FileKind::Regular).unwrap();
    grown.opened(FileKind::Regular, 5, PLAIN).unwrap();
    assert!(matches!(grown.read(b"12345").unwrap(), PathAction::Probe));
    assert!(matches!(grown.probed(true), Err(Error::FileChanged(_))));
}

#[test]
fn objects_replaced_while_they_are_opened_are_seen_as_what_was_opened() {
    let mut swapped = PathEncoder::new(Vec::new(), b"x", CaseHack::Disabled).unwrap();
    swapped.found(FileKind::Regular).unwrap();
    assert!(matches!(
        swapped.opened(FileKind::Other, 0, PLAIN),
        Err(Error::UnsupportedFileType(_))
    ));

    let mut unfinished = PathEncoder::new(Vec::new(), b"x", CaseHack::Disabled).unwrap();
    unfinished.found(FileKind::Directory).unwrap();
    unfinished.opened(FileKind::Directory, 0, PLAIN).unwrap();
    assert!(matches!(unfinished.finish(), Err(Error::UnfinishedArchive)));
}

#[test]
fn a_walk_that_is_too_deep_is_refused() {
    let mut root = directory(&[]);
    for _ in 0..64 {
        root = directory(&[(b"d", root)]);
    }
    assert!(matches!(
        dump(&root, CaseHack::Disabled),
        Err(Error::MaxDepth(64))
    ));
}

const NAME_HASH: &str = "dc04vv14dak1c1r48qa0m23vr9jy8sm0";
const CONTENT_HASH: &str = "zc842j0rz61mjsp3h3wp5ly71ak6qgdn";
const TARGET_HASH: &str = "a5cn2i4b83gnsm60d38l3kgb8qfplm11";
const MISSING_HASH: &str = "fn7zvafq26f0c8b17brs7s95s10ibfzs";

#[test]
fn explicit_case_hack_modes_scan_the_exact_nar_they_hash() {
    let root = directory(&[(
        format!("{NAME_HASH}~nix~case~hack~1").as_bytes(),
        file(CONTENT_HASH.as_bytes()),
    )]);
    let pattern = ReferencePattern::new(&[NAME_HASH.as_bytes(), CONTENT_HASH.as_bytes()]).unwrap();
    let mut sizes = Vec::new();
    for case_hack in [CaseHack::Disabled, CaseHack::Enabled] {
        let writer = dump_to(pattern.writer(HashSink::new()), b"root", &root, case_hack).unwrap();
        let scan = finish_nar_scan(writer);
        let expected = dump_to(HashSink::new(), b"root", &root, case_hack)
            .unwrap()
            .finish();

        assert_eq!(scan.matches, [0, 1]);
        assert_eq!(scan.nar_size, expected.size);
        assert_eq!(scan.nar_sha256, expected.sha256);
        assert_eq!(
            expected.size,
            dump(&root, case_hack).unwrap().len() as u64
        );
        sizes.push(expected.size);
    }
    assert_eq!(sizes[0], sizes[1] + 16);
}

#[test]
fn filesystem_scan_hashes_and_scans_in_one_nar_pass() {
    let root = directory(&[
        (
            NAME_HASH.as_bytes(),
            file(format!("/nix/store/{CONTENT_HASH}-contents").as_bytes()),
        ),
        (
            b"symlink",
            Object::Link(format!("/nix/store/{TARGET_HASH}-target").into_bytes()),
        ),
    ]);
    let pattern = ReferencePattern::new(&[
        NAME_HASH.as_bytes(),
        CONTENT_HASH.as_bytes(),
        TARGET_HASH.as_bytes(),
        MISSING_HASH.as_bytes(),
    ])
    .unwrap();
    for case_hack in [CaseHack::Disabled, CaseHack::Enabled] {
        let writer = dump_to(pattern.writer(HashSink::new()), b"root", &root, case_hack).unwrap();
        let scan = finish_nar_scan(writer);
        let nar_hash = dump_to(HashSink::new(), b"root", &root, CaseHack::Disabled)
            .unwrap()
            .finish();
        assert_eq!(scan.matches, [0, 1, 2]);
        assert_eq!(scan.nar_size, nar_hash.size);
        assert_eq!(scan.nar_sha256, nar_hash.sha256);
    }
}

#[test]
fn filesystem_encoding_matches_the_portable_tree_encoder() {
    let root = directory(&[
        (b"alpha", file(b"hello")),
        (b"nested", directory(&[(b"zeta", file(b"world"))])),
    ]);
    let filesystem = dump(&root, CaseHack::Disabled).unwrap();

    let nested = [NamedNode {
        name: b"zeta",
        node: Node::Regular {
            executable: false,
            contents: b"world",
        },
    }];
    let children = [
        NamedNode {
            name: b"alpha",
            node: Node::Regular {
                executable: false,
                contents: b"hello",
            },
        },
        NamedNode {
            name: b"nested",
            node: Node::Directory(&nested),
        },
    ];
    let mut portable = Vec::new();
    encode_tree(&mut portable, &Node::Directory(&children)).unwrap();

    assert_eq!(filesystem, portable);
    assert!(decode(&filesystem).unwrap().iter().any(|entry| matches!(
        entry,
        Entry::Regular { path, contents, executable: false }
            if path == b"nested/zeta" && *contents == b"world"
    )));
}

#[test]
fn a_name_that_is_listed_twice_collides_with_itself() {
    for case_hack in [CaseHack::Disabled, CaseHack::Enabled] {
        let names = vec![b"a".to_vec(), b"b".to_vec(), b"a".to_vec()];
        match Listing::new(names, case_hack, b"dir") {
            Err(Error::CaseHackEncodeCollision(first, second)) => {
                assert_eq!(first, b"dir/a");
                assert_eq!(second, b"dir/a");
            }
            _ => panic!("expected a collision"),
        }
    }
}

#[test]
fn a_walk_refuses_a_name_that_is_listed_twice() {
    let mut encoder = PathEncoder::new(Vec::new(), b"dir", CaseHack::Disabled).unwrap();
    encoder.found(FileKind::Directory).unwrap();
    encoder.opened(FileKind::Directory, 0, PLAIN).unwrap();
    match encoder.listed(vec![b"a".to_vec(), b"b".to_vec(), b"a".to_vec()]) {
        Err(Error::CaseHackEncodeCollision(first, second)) => {
            assert_eq!(first, b"dir/a");
            assert_eq!(second, b"dir/a");
        }
        other => panic!("expected a collision, got {other:?}"),
    }
}

/// Notes what a restore visitor asks for, from either decoder.
struct Asked {
    visitor: RestoreVisitor,
    actions: Vec<String>,
}

impl Asked {
    fn new(case_hack: CaseHack) -> Self {
        Asked {
            visitor: RestoreVisitor::new(case_hack, ascii_fold()),
            actions: Vec::new(),
        }
    }

    fn take<C>(&mut self, event: Event<'_, C>) -> Result<(), Error> {
        assert!(self.visitor.accepts(&event));
        let action = self.visitor.visit(&event)?;
        self.actions.push(format!("{action:?}"));
        Ok(())
    }
}

impl<'a> EventVisitor<'a> for Asked {
    fn visit(&mut self, event: Event<'a>) -> Result<(), Error> {
        self.take(event)
    }
}

impl<R: ByteSource> ReadVisitor<R> for Asked {
    fn visit<'e>(&mut self, event: ReadEvent<'e, R>) -> Result<(), Error> {
        self.take(event)
    }
}

#[test]
fn slices_and_streams_ask_for_the_same() {
    let nar = three_way_case_collision_nar();
    for case_hack in [CaseHack::Disabled, CaseHack::Enabled] {
        for end in 0..=nar.len() {
            let mut sliced = Asked::new(case_hack);
            let from_slice = decode_events(&nar[..end], &mut sliced);
            let mut streamed = Asked::new(case_hack);
            let from_stream = decode_events_reader(&mut &nar[..end], &mut streamed);
            assert_eq!(from_slice.is_ok(), from_stream.is_ok());
            assert_eq!(from_slice.is_ok(), end == nar.len());
            let common = sliced.actions.len();
            assert_eq!(streamed.actions[..common], sliced.actions[..]);
            assert!(streamed.actions.len() <= common + 1);
            if end == nar.len() {
                assert_eq!(streamed.actions.len(), common);
                assert_eq!(common, 6);
            }
        }
    }
}

#[test]
fn only_events_that_nest_are_accepted() {
    let mut visitor = RestoreVisitor::new(CaseHack::Disabled, ascii_fold());
    let root: Event<'_> = Event::DirectoryStart { name: None };
    let child: Event<'_> = Event::Symlink {
        name: Some(b"a"),
        target: b"b",
    };
    let nameless: Event<'_> = Event::Symlink {
        name: None,
        target: b"b",
    };
    let end: Event<'_> = Event::DirectoryEnd { name: None };
    let named_end: Event<'_> = Event::DirectoryEnd { name: Some(b"a") };
    assert!(visitor.accepts(&root));
    assert!(visitor.accepts(&nameless));
    assert!(!visitor.accepts(&child));
    assert!(!visitor.accepts(&end));
    visitor.visit(&root).unwrap();
    assert!(!visitor.accepts(&root));
    assert!(!visitor.accepts(&nameless));
    assert!(visitor.accepts(&child));
    assert!(visitor.accepts(&end));
    assert!(!visitor.accepts(&named_end));
}

#[test]
fn a_walk_reports_the_failure_of_its_destination() {
    let root = directory(&[(b"a", file(b"some contents"))]);
    for budget in [0, 30, 120, 200] {
        match dump_to(Full { budget }, b"root", &root, CaseHack::Disabled) {
            Err(Error::Io(error)) => {
                assert_eq!(error.kind(), IoErrorKind::Other);
                assert_eq!(error.message, "full");
            }
            _ => panic!("expected the failure of the destination"),
        }
    }
}

#[test]
fn restore_rejects_invalid_destination_names() {
    let bad_destinations: [&[u8]; 7] = [b"", b".", b"..", b"tmp/out/.", b"tmp/out/..", b"/", b"///"];
    for destination in bad_destinations {
        match Destination::new(destination) {
            Err(error) => assert_eq!(error.kind(), IoErrorKind::InvalidInput),
            Ok(_) => panic!("invalid destination {destination:?} was accepted"),
        }
    }
}

#[test]
fn destinations_are_taken_apart() {
    for (path, parent, name) in [
        (&b"out"[..], &b"."[..], &b"out"[..]),
        (b"./out", b"./", b"out"),
        (b"a/b/out//", b"a/b/", b"out"),
        (b"/out", b"/", b"out"),
        (b"../out", b"../", b"out"),
    ] {
        let destination = Destination::new(path).unwrap();
        assert_eq!(destination.parent, parent);
        assert_eq!(destination.name, name);
    }
}

#[test]
fn executable_files_get_their_mode_back() {
    for (executable, mode) in [(false, 0o644), (true, 0o755)] {
        let mut nar = Vec::new();
        encode_regular(&mut nar, b"x", executable).unwrap();
        assert_eq!(
            restored(&nar, CaseHack::Enabled).unwrap(),
            Object::File {
                mode,
                contents: b"x".to_vec()
            }
        );
    }
}

#[test]
fn names_on_disk_and_in_the_archive() {
    assert_eq!(build_hacked_name(b"foo", 12), b"foo~nix~case~hack~12");
    assert_eq!(archive_name_len(b"foo~nix~case~hack~12", CaseHack::Enabled), 3);
    assert_eq!(archive_name_len(b"foo~nix~case~hack~12", CaseHack::Disabled), 20);
    assert_eq!(archive_name_len(b"foo~nix~case", CaseHack::Enabled), 12);
    assert_eq!(find_subslice(b"ababc", b"abc"), Some(2));
    assert_eq!(find_subslice(b"ab", b"abc"), None);
    assert_eq!(ascii_fold().fold_name(b"FoO~1\xff"), b"foo~1\xff");
}

#[test]
fn a_name_made_for_a_collision_can_meet_a_later_one() {
    // Such an archive is stopped by the filesystem rather than by the names.
    let children = [
        NamedNode {
            name: b"X",
            node: Node::Directory(&[]),
        },
        NamedNode {
            name: b"x",
            node: Node::Directory(&[]),
        },
        NamedNode {
            name: b"x~nix~case~hack~1",
            node: Node::Directory(&[]),
        },
    ];
    let mut nar = Vec::new();
    encode_tree(&mut nar, &Node::Directory(&children)).unwrap();
    match restored(&nar, CaseHack::Enabled) {
        Err(Error::Io(error)) => assert_eq!(error.kind(), IoErrorKind::AlreadyExists),
        other => panic!("expected a clash, got {other:?}"),
    }
}

#[test]
fn listings_are_sorted_by_archive_name() {
    let names = vec![
        b"b".to_vec(),
        b"..".to_vec(),
        b"a~nix~case~hack~1".to_vec(),
        b"A".to_vec(),
        b".".to_vec(),
    ];
    let mut listing = Listing::new(names, CaseHack::Enabled, b"dir").unwrap();
    assert_eq!(listing.take(), Some((b"A".to_vec(), b"A".to_vec())));
    assert_eq!(
        listing.take(),
        Some((b"a~nix~case~hack~1".to_vec(), b"a".to_vec()))
    );
    assert_eq!(listing.take(), Some((b"b".to_vec(), b"b".to_vec())));
    assert_eq!(listing.take(), None);
}

/// Takes `budget` bytes and then fails.
struct Full {
    budget: usize,
}

impl ByteSink for Full {
    fn write(&mut self, buf: &[u8]) -> Result<usize, IoError> {
        if self.budget == 0 {
            return Err(IoError::new(IoErrorKind::Other, "full"));
        }
        let count = buf.len().min(self.budget);
        self.budget -= count;
        Ok(count)
    }

    fn flush(&mut self) -> Result<(), IoError> {
        Ok(())
    }
}

#[test]
fn a_full_destination_stops_the_walk() {
    let root = directory(&[(b"a", file(b"some contents")), (b"b", Object::Link(b"a".to_vec()))]);
    let length = dump(&root, CaseHack::Disabled).unwrap().len();
    for budget in 0..length {
        assert!(matches!(
            dump_to(Full { budget }, b"root", &root, CaseHack::Disabled),
            Err(Error::Io(_))
        ));
    }
    assert!(dump_to(Full { budget: length }, b"root", &root, CaseHack::Disabled).is_ok());
}

#[test]
fn restored_names_differ_and_read_back() {
    // Every spelling of three letters, in byte order.
    let mut spellings: Vec<Vec<u8>> = Vec::new();
    for first in [b'A', b'a'] {
        for second in [b'B', b'b'] {
            for third in [b'C', b'c'] {
                spellings.push(vec![first, second, third]);
            }
        }
    }
    let children: Vec<NamedNode<'_>> = spellings
        .iter()
        .map(|name| NamedNode {
            name,
            node: Node::Symlink { target: name },
        })
        .collect();
    let mut nar = Vec::new();
    encode_tree(&mut nar, &Node::Directory(&children)).unwrap();

    let root = restored(&nar, CaseHack::Enabled).unwrap();
    let Object::Directory(entries) = &root else {
        panic!("expected a directory");
    };
    let mut folded: Vec<Vec<u8>> = entries
        .iter()
        .map(|(name, _)| ascii_fold().fold_name(name))
        .collect();
    folded.sort();
    folded.dedup();
    assert_eq!(folded.len(), spellings.len());
    assert_eq!(entries[7].0, b"abc~nix~case~hack~7");
    for ((disk, _), name) in entries.iter().zip(&spellings) {
        assert_eq!(&disk[..archive_name_len(disk, CaseHack::Enabled)], name);
    }
    assert_eq!(dump(&root, CaseHack::Enabled).unwrap(), nar);
}

#[test]
fn a_name_that_ends_in_most_of_the_suffix_is_cut_short() {
    // Behind such a name the suffix begins one byte early.
    let disk = build_hacked_name(b"x~nix~case~hack", 1);
    assert_eq!(disk, b"x~nix~case~hack~nix~case~hack~1");
    assert_eq!(archive_name_len(&disk, CaseHack::Enabled), 1);
}
