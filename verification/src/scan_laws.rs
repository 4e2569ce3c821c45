//! Encoding, hashing and scanning a filesystem tree agree.
//!
//! Each of the three is a [`PathEncoder`](crate::walk::PathEncoder) over a sink
//! of its own: what was written to the sinks is compared here.

use vstd::prelude::*;

use crate::case_hack;
use crate::case_hack::{CaseHack, CASE_HACK_SUFFIX};
use crate::decimal;
use crate::disk_laws;
use crate::hash::NarHash;
use crate::listing;
use crate::model;
use crate::model::{EventView, Tree};
use crate::refscan;
use crate::refscan::ReferenceScan;
use crate::restored_names;
use crate::runs;
use crate::walk;
use crate::walk_laws;

verus! {

// ---------------------------------------------------------------------------
// One walk, several sinks
// ---------------------------------------------------------------------------

/// Walks that tell the same write the same archive, each behind what its sink
/// held before.
pub proof fn law_walks_that_tell_the_same_write_the_same(
    one: Seq<EventView>,
    one_start: Seq<u8>,
    one_written: Seq<u8>,
    other: Seq<EventView>,
    other_start: Seq<u8>,
    other_written: Seq<u8>,
) -> (nar: Seq<u8>)
    requires
        walk::wrote(one_start, one, one_written),
        walk::wrote(other_start, other, other_written),
        runs::all_told(one) == runs::all_told(other),
    ensures
        one_written == one_start + nar,
        other_written == other_start + nar,
{
    let a = choose|tree: Tree|
        {
            &&& model::valid(tree, 0)
            &&& one_written == one_start + #[trigger] model::archive(tree)
            &&& runs::all_told(one) == runs::all_told(model::events(tree, None))
        };
    let b = choose|tree: Tree|
        {
            &&& model::valid(tree, 0)
            &&& other_written == other_start + #[trigger] model::archive(tree)
            &&& runs::all_told(other) == runs::all_told(model::events(tree, None))
        };
    walk_laws::lemma_valid_is_sized(a, 0);
    walk_laws::law_told_trees_are_one(a, b);
    model::archive(a)
}

/// Scanning a tree reports the size and the digest that hashing it reports, and
/// the references in the archive that encoding it writes.
pub proof fn law_scanning_agrees_with_hashing(
    encoded: Seq<EventView>,
    nar: Seq<u8>,
    hashed: Seq<EventView>,
    hashed_bytes: Seq<u8>,
    hash: NarHash,
    scanned: Seq<EventView>,
    scanned_bytes: Seq<u8>,
    scan: ReferenceScan,
    candidates: Seq<Seq<u8>>,
)
    requires
        walk::wrote(Seq::empty(), encoded, nar),
        walk::wrote(Seq::empty(), hashed, hashed_bytes),
        walk::wrote(Seq::empty(), scanned, scanned_bytes),
        runs::all_told(hashed) == runs::all_told(encoded),
        runs::all_told(scanned) == runs::all_told(encoded),
        hash.describes(hashed_bytes),
        scan.describes(scanned_bytes, candidates),
    ensures
        hash.describes(nar),
        scan.describes(nar, candidates),
        scan.nar_size == hash.size,
        scan.nar_sha256@ == hash.sha256@,
{
    let none = Seq::<u8>::empty();
    let a = law_walks_that_tell_the_same_write_the_same(
        hashed,
        none,
        hashed_bytes,
        encoded,
        none,
        nar,
    );
    let b = law_walks_that_tell_the_same_write_the_same(
        scanned,
        none,
        scanned_bytes,
        encoded,
        none,
        nar,
    );
    assert(none + a =~= a);
    assert(none + b =~= b);
}

// ---------------------------------------------------------------------------
// One tree on disk, two settings
// ---------------------------------------------------------------------------

/// No name in `disk` holds the suffix of the hack.
pub open spec fn without_suffix(disk: Tree) -> bool
    decreases disk,
{
    match disk {
        Tree::Directory(entries) => entries_without_suffix(entries),
        _ => true,
    }
}

pub open spec fn entries_without_suffix(entries: Seq<(Seq<u8>, Tree)>) -> bool
    decreases entries,
{
    entries.len() > 0 ==> {
        &&& !refscan::occurs(entries[0].0, CASE_HACK_SUFFIX@)
        &&& without_suffix(entries[0].1)
        &&& entries_without_suffix(entries.skip(1))
    }
}

proof fn lemma_names_without_suffix(entries: Seq<(Seq<u8>, Tree)>, k: int)
    requires
        entries_without_suffix(entries),
        0 <= k < entries.len(),
    ensures
        !refscan::occurs(entries[k].0, CASE_HACK_SUFFIX@),
    decreases k,
{
    if k > 0 {
        lemma_names_without_suffix(entries.skip(1), k - 1);
    }
}

/// A tree on disk reads as one tree only.
pub proof fn law_trees_read_one_way(disk: Tree, a: Tree, b: Tree, case_hack: CaseHack)
    requires
        disk_laws::reads_as(disk, a, case_hack),
        disk_laws::reads_as(disk, b, case_hack),
    ensures
        a == b,
    decreases a, 0nat,
{
    if let (Tree::Directory(entries), Tree::Directory(one), Tree::Directory(other)) = (disk, a, b) {
        lemma_entries_read_one_way(entries, one, other, case_hack);
    }
}

proof fn lemma_entries_read_one_way(
    entries: Seq<(Seq<u8>, Tree)>,
    a: Seq<(Seq<u8>, Tree)>,
    b: Seq<(Seq<u8>, Tree)>,
    case_hack: CaseHack,
)
    requires
        disk_laws::entries_read_as(entries, a, case_hack),
        disk_laws::entries_read_as(entries, b, case_hack),
    ensures
        a == b,
    decreases a, 1nat,
{
    if a.len() > 0 {
        law_trees_read_one_way(entries[0].1, a[0].1, b[0].1, case_hack);
        lemma_entries_read_one_way(entries.skip(1), a.skip(1), b.skip(1), case_hack);
        assert(a =~= seq![a[0]] + a.skip(1));
        assert(b =~= seq![b[0]] + b.skip(1));
    } else {
        assert(a =~= b);
    }
}

/// A tree on disk none of whose names holds the suffix reads the same with the
/// hack and without it, and so has one archive, one hash and one set of
/// references.
pub proof fn law_settings_agree_on_plain_trees(disk: Tree, tree: Tree)
    requires
        without_suffix(disk),
    ensures
        disk_laws::reads_as(disk, tree, CaseHack::Enabled) == disk_laws::reads_as(
            disk,
            tree,
            CaseHack::Disabled,
        ),
    decreases tree, 0nat,
{
    if let (Tree::Directory(entries), Tree::Directory(children)) = (disk, tree) {
        let on_disk = disk_laws::disk_names(entries);
        let with = disk_laws::listed(entries, CaseHack::Enabled);
        let without = disk_laws::listed(entries, CaseHack::Disabled);
        assert forall|k: int| 0 <= k < on_disk.len() implies !refscan::occurs(
            #[trigger] on_disk[k],
            CASE_HACK_SUFFIX@,
        ) by {
            lemma_names_without_suffix(entries, k);
        }
        assert(with =~= without) by {
            assert forall|k: int| 0 <= k < with.len() implies with[k] == without[k] by {
                lemma_names_without_suffix(entries, k);
            }
        }
        restored_names::law_settings_agree_without_suffix(on_disk, with);
        lemma_settings_agree_on_entries(entries, children);
    }
}

proof fn lemma_settings_agree_on_entries(
    entries: Seq<(Seq<u8>, Tree)>,
    children: Seq<(Seq<u8>, Tree)>,
)
    requires
        entries_without_suffix(entries),
    ensures
        disk_laws::entries_read_as(entries, children, CaseHack::Enabled)
            == disk_laws::entries_read_as(entries, children, CaseHack::Disabled),
    decreases children, 1nat,
{
    if children.len() > 0 && entries.len() == children.len() {
        law_settings_agree_on_plain_trees(entries[0].1, children[0].1);
        lemma_settings_agree_on_entries(entries.skip(1), children.skip(1));
    }
}

/// Walks over one tree on disk tell the same: twice with one setting, and with
/// either setting where no name holds the suffix.
pub proof fn law_walks_over_one_tree_tell_the_same(
    disk: Tree,
    one: Seq<EventView>,
    one_tree: Tree,
    one_setting: CaseHack,
    other: Seq<EventView>,
    other_tree: Tree,
    other_setting: CaseHack,
)
    requires
        disk_laws::reads_as(disk, one_tree, one_setting),
        disk_laws::reads_as(disk, other_tree, other_setting),
        one_setting == other_setting || without_suffix(disk),
        runs::all_told(one) == runs::all_told(model::events(one_tree, None)),
        runs::all_told(other) == runs::all_told(model::events(other_tree, None)),
    ensures
        one_tree == other_tree,
        runs::all_told(one) == runs::all_told(other),
{
    if one_setting != other_setting {
        law_settings_agree_on_plain_trees(disk, one_tree);
    }
    law_trees_read_one_way(disk, one_tree, other_tree, other_setting);
}

// ---------------------------------------------------------------------------
// Names and contents are found
// ---------------------------------------------------------------------------

/// What stands in a part stands in the whole.
proof fn lemma_occurs_within(a: Seq<u8>, b: Seq<u8>, c: Seq<u8>, needle: Seq<u8>)
    requires
        refscan::occurs(b, needle),
    ensures
        refscan::occurs(a + b + c, needle),
{
    let at = choose|at: int| refscan::occurs_at(b, needle, at);
    let whole = a + b + c;
    assert(whole.subrange(a.len() + at, a.len() + at + needle.len()) =~= b.subrange(
        at,
        at + needle.len(),
    ));
    assert(refscan::occurs_at(whole, needle, a.len() + at));
}

proof fn lemma_occurs_in_token(bytes: Seq<u8>, needle: Seq<u8>)
    requires
        refscan::occurs(bytes, needle),
    ensures
        refscan::occurs(model::token(bytes), needle),
{
    reveal(model::token);
    lemma_occurs_within(
        model::le64(bytes.len()),
        bytes,
        model::zeros(model::padding(bytes.len())),
        needle,
    );
}

/// What stands in the name or in the contents of a file stands in the archive
/// of a directory that holds the file.
pub proof fn law_names_and_contents_are_in_the_archive(
    name: Seq<u8>,
    executable: bool,
    contents: Seq<u8>,
    needle: Seq<u8>,
)
    requires
        refscan::occurs(name, needle) || refscan::occurs(contents, needle),
    ensures
        refscan::occurs(
            model::archive(
                Tree::Directory(seq![(name, Tree::Regular { executable, contents })]),
            ),
            needle,
        ),
{
    let file = Tree::Regular { executable, contents };
    let children = seq![(name, file)];
    let tree = Tree::Directory(children);
    let end = model::word(")");
    let before_name = model::word("entry") + model::word("(") + model::word("name");
    let after_name = model::word("node");
    let head = model::regular_head(executable);
    assert(model::entry_head(name) =~= before_name + model::token(name) + after_name);
    assert(children.skip(1) =~= Seq::<(Seq<u8>, Tree)>::empty());
    let more = model::entries(children.skip(1));
    if refscan::occurs(name, needle) {
        lemma_occurs_in_token(name, needle);
        lemma_occurs_within(before_name, model::token(name), after_name, needle);
        lemma_occurs_within(
            Seq::empty(),
            model::entry_head(name),
            model::node(file) + end + more,
            needle,
        );
        assert(Seq::<u8>::empty() + model::entry_head(name) + (model::node(file) + end + more)
            =~= model::entries(children));
    } else {
        lemma_occurs_in_token(contents, needle);
        lemma_occurs_within(head, model::token(contents), end, needle);
        lemma_occurs_within(model::entry_head(name), model::node(file), end + more, needle);
        assert(model::entry_head(name) + model::node(file) + (end + more) =~= model::entries(
            children,
        ));
    }
    lemma_occurs_within(model::node_head("directory"), model::entries(children), end, needle);
    lemma_occurs_within(
        model::token(model::magic()),
        model::node(tree),
        Seq::empty(),
        needle,
    );
    assert(model::token(model::magic()) + model::node(tree) + Seq::<u8>::empty()
        =~= model::archive(tree));
}

/// A directory that holds one file.
pub open spec fn lone_file(name: Seq<u8>, contents: Seq<u8>) -> Tree {
    Tree::Directory(seq![(name, Tree::Regular { executable: false, contents })])
}

/// A directory that holds one file, under the name that the hack gives to the
/// first collision with a reference, reads as one that holds it under the
/// reference with the hack, and as it is without.
pub proof fn law_lone_file_reads_by_setting(name: Seq<u8>, contents: Seq<u8>)
    requires
        refscan::is_reference(name),
    ensures
        disk_laws::reads_as(
            lone_file(case_hack::hacked_name(name, 1), contents),
            lone_file(name, contents),
            CaseHack::Enabled,
        ),
        disk_laws::reads_as(
            lone_file(case_hack::hacked_name(name, 1), contents),
            lone_file(case_hack::hacked_name(name, 1), contents),
            CaseHack::Disabled,
        ),
{
    let file = Tree::Regular { executable: false, contents };
    lemma_hacked_reference(name);
    lemma_lone_file_reads_as(case_hack::hacked_name(name, 1), file, CaseHack::Enabled);
    lemma_lone_file_reads_as(case_hack::hacked_name(name, 1), file, CaseHack::Disabled);
}

/// Both settings scan the very archive that they hash: in the archives of such a
/// directory the reference in the name and one that is the contents are found
/// either way, though the suffix makes one archive the longer.
pub proof fn law_both_settings_scan_what_they_hash(name: Seq<u8>, contents: Seq<u8>)
    requires
        refscan::is_reference(name),
        refscan::is_reference(contents),
    ensures
        ({
            let with = model::archive(lone_file(name, contents));
            let without = model::archive(lone_file(case_hack::hacked_name(name, 1), contents));
            let candidates = seq![name, contents];
            &&& refscan::found_indices(refscan::occurring(with, candidates)) == seq![
                0usize,
                1usize,
            ]
            &&& refscan::found_indices(refscan::occurring(without, candidates)) == seq![
                0usize,
                1usize,
            ]
            &&& without.len() == with.len() + 16
        }),
{
    let file = Tree::Regular { executable: false, contents };
    let hacked = case_hack::hacked_name(name, 1);
    lemma_name_occurs(name, Seq::empty());
    lemma_name_occurs(name, CASE_HACK_SUFFIX@ + decimal::digits(1));
    assert(name + Seq::<u8>::empty() =~= name);
    assert(name + (CASE_HACK_SUFFIX@ + decimal::digits(1)) =~= hacked);
    lemma_both_found(name, name, contents);
    lemma_both_found(hacked, name, contents);
    lemma_hacked_length(name);
    lemma_lone_file_length(name, file);
    lemma_lone_file_length(hacked, file);
}

proof fn lemma_name_occurs(name: Seq<u8>, behind: Seq<u8>)
    ensures
        refscan::occurs(name + behind, name),
{
    assert((name + behind).subrange(0, name.len() as int) =~= name);
    assert(refscan::occurs_at(name + behind, name, 0));
}

proof fn lemma_hacked_reference(name: Seq<u8>)
    requires
        refscan::is_reference(name),
    ensures
        case_hack::archive_name(case_hack::hacked_name(name, 1), CaseHack::Enabled) == name,
        case_hack::hacked_name(name, 1).len() == 48,
        listing::is_entry(case_hack::hacked_name(name, 1)),
{
    let suffix = CASE_HACK_SUFFIX@;
    lemma_reference_has_no_tilde(name, suffix);
    case_hack::law_hacked_name_stands_for_its_name(name, 1);
    lemma_hacked_length(name);
}

/// The suffix neither stands in a reference nor begins in one.
proof fn lemma_reference_has_no_tilde(name: Seq<u8>, suffix: Seq<u8>)
    requires
        refscan::is_reference(name),
        suffix.len() == 15,
        suffix[0] == 0x7e,
    ensures
        !refscan::occurs(name, suffix),
        name.skip(name.len() - 14) != suffix.take(14),
{
    assert forall|at: int| !refscan::occurs_at(name, suffix, at) by {
        if refscan::occurs_at(name, suffix, at) {
            assert(name.subrange(at, at + 15)[0] == name[at]);
            assert(refscan::base32(name[at]));
        }
    }
    assert(name.skip(name.len() - 14)[0] == name[18]);
    assert(refscan::base32(name[18]));
    assert(suffix.take(14)[0] == suffix[0]);
}

proof fn lemma_hacked_length(name: Seq<u8>)
    requires
        name.len() == 32,
    ensures
        case_hack::hacked_name(name, 1).len() == 48,
        listing::is_entry(case_hack::hacked_name(name, 1)),
{
    assert(decimal::digits(1).len() == 1);
    reveal_strlit(".");
    reveal_strlit("..");
    vstd::utf8::is_ascii_chars_encode_utf8("."@);
    vstd::utf8::is_ascii_chars_encode_utf8(".."@);
}

/// A directory that holds one file reads as one that holds it under the name
/// that its name on disk stands for.
proof fn lemma_lone_file_reads_as(disk: Seq<u8>, file: Tree, case_hack: CaseHack)
    requires
        listing::is_entry(disk),
        file is Regular,
    ensures
        disk_laws::reads_as(
            Tree::Directory(seq![(disk, file)]),
            Tree::Directory(seq![(case_hack::archive_name(disk, case_hack), file)]),
            case_hack,
        ),
{
    let entries = seq![(disk, file)];
    let children = seq![(case_hack::archive_name(disk, case_hack), file)];
    let on_disk = disk_laws::disk_names(entries);
    let list = disk_laws::listed(entries, case_hack);
    assert(on_disk[0] == disk);
    assert(list[0] == listing::entry_of(disk, case_hack));
    assert forall|i: int|
        0 <= i < on_disk.len() && listing::is_entry(#[trigger] on_disk[i]) implies list.contains(
        listing::entry_of(on_disk[i], case_hack),
    ) by {
        assert(list[i] == listing::entry_of(on_disk[i], case_hack));
    }
    assert(listing::is_listing(on_disk, case_hack, list));
    assert(entries.skip(1) =~= Seq::<(Seq<u8>, Tree)>::empty());
    assert(children.skip(1) =~= Seq::<(Seq<u8>, Tree)>::empty());
    assert(disk_laws::entries_read_as(entries.skip(1), children.skip(1), case_hack));
    assert(disk_laws::reads_as(entries[0].1, children[0].1, case_hack));
    assert(disk_laws::entries_read_as(entries, children, case_hack));
}

/// A reference in the name of a lone file and one that is its contents are both
/// found.
proof fn lemma_both_found(disk: Seq<u8>, name: Seq<u8>, contents: Seq<u8>)
    requires
        refscan::occurs(disk, name),
    ensures
        ({
            let nar = model::archive(lone_file(disk, contents));
            refscan::found_indices(refscan::occurring(nar, seq![name, contents])) == seq![
                0usize,
                1usize,
            ]
        }),
{
    let nar = model::archive(lone_file(disk, contents));
    assert(refscan::occurs_at(contents, contents, 0)) by {
        assert(contents.subrange(0, contents.len() as int) =~= contents);
    }
    law_names_and_contents_are_in_the_archive(disk, false, contents, name);
    law_names_and_contents_are_in_the_archive(disk, false, contents, contents);
    let found = refscan::occurring(nar, seq![name, contents]);
    assert(found =~= seq![true, true]);
    lemma_two_found(found);
}

proof fn lemma_two_found(found: Seq<bool>)
    requires
        found == seq![true, true],
    ensures
        refscan::found_indices(found) == seq![0usize, 1usize],
{
    assert(found.drop_last() =~= seq![true]);
    assert(found.drop_last().drop_last() =~= Seq::<bool>::empty());
    reveal_with_fuel(refscan::found_indices, 3);
    assert(refscan::found_indices(found) =~= seq![0usize, 1usize]);
}

/// All but the name of a lone file is as long whatever the name.
spec fn frame_length(file: Tree) -> nat {
    (model::token(model::magic()).len() + model::node_head("directory").len() + model::word(
        "entry",
    ).len() + model::word("(").len() + model::word("name").len() + model::word("node").len()
        + model::node(file).len() + 2 * model::word(")").len()) as nat
}

proof fn lemma_lone_file_length(name: Seq<u8>, file: Tree)
    ensures
        model::archive(Tree::Directory(seq![(name, file)])).len() == frame_length(file) + 8
            + name.len() + model::padding(name.len()),
{
    let children = seq![(name, file)];
    reveal(model::token);
    assert(model::token(name).len() == 8 + name.len() + model::padding(name.len()));
    assert(children.skip(1) =~= Seq::<(Seq<u8>, Tree)>::empty());
    assert(model::entries(children.skip(1)).len() == 0);
    assert(model::entries(children).len() == model::entry_head(name).len() + model::node(file).len()
        + model::word(")").len());
}

}
