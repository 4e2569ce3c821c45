//! What each event does to a filesystem, and with which mode.

use vstd::prelude::*;

use crate::case_hack::CaseHack;
use crate::disk_laws;
use crate::model::{EventView, Tree};
use crate::nar::ErrorView;
use crate::restore;
use crate::restore::{ActionView, CaseFold, OpenView, Place, RestoreAction};
use crate::walk;
use crate::walk::Permissions;

verus! {

/// Everyone may read a restored file and its owner may write it; where it is
/// executable everyone may execute it, and otherwise nobody may. So it is
/// archived again as what it was.
pub proof fn law_modes_keep_the_flag(executable: bool)
    ensures
        restore::restored_mode(true) == 0o755,
        restore::restored_mode(false) == 0o644,
        restore::restored_mode(executable) & 0o111 == (if executable {
            0o111u32
        } else {
            0
        }),
        restore::restored_mode(executable) & 0o666 == 0o644,
        walk::may_execute(Permissions::Unix { mode: restore::restored_mode(executable) })
            == executable,
{
    assert(0o755u32 & 0o111 == 0o111u32) by (bit_vector);
    assert(0o644u32 & 0o111 == 0u32) by (bit_vector);
    assert(0o755u32 & 0o666 == 0o644u32) by (bit_vector);
    assert(0o644u32 & 0o666 == 0o644u32) by (bit_vector);
    assert(0o755u32 & 0o100 != 0) by (bit_vector);
    assert(0o644u32 & 0o100 == 0) by (bit_vector);
}

/// What kind of object there is decides what is created, and its name alone
/// decides where. A file gets its mode from its flag, whatever its contents.
pub proof fn law_objects_are_created_alike(
    open: OpenView,
    name: Option<Seq<u8>>,
    executable: bool,
    size: nat,
    contents: Seq<u8>,
    target: Seq<u8>,
    case_hack: CaseHack,
    fold: CaseFold,
)
    ensures
        ({
            let (opened, directory) = restore::restore_step(
                open,
                EventView::DirectoryStart { name },
                case_hack,
                fold,
            );
            let (with_file, file) = restore::restore_step(
                open,
                EventView::Regular { name, executable, size, contents },
                case_hack,
                fold,
            );
            let (with_link, link) = restore::restore_step(
                open,
                EventView::Symlink { name, target },
                case_hack,
                fold,
            );
            &&& with_file == with_link
            &&& match link {
                Ok(action) => {
                    let place = action->CreateSymlink_0;
                    &&& action is CreateSymlink
                    &&& directory == Ok::<_, ErrorView>(ActionView::CreateDirectory(place))
                    &&& file == Ok::<_, ErrorView>(
                        ActionView::CreateRegular {
                            place,
                            mode: if executable {
                                0o755
                            } else {
                                0o644
                            },
                        },
                    )
                    &&& opened == with_link.push(Map::empty())
                },
                Err(e) => {
                    &&& directory == Err::<ActionView, _>(e)
                    &&& file == Err::<ActionView, _>(e)
                    &&& opened == with_link
                },
            }
        }),
{
}

/// What has no name is created at the root, and no directory gets to hold
/// anything by that.
pub proof fn law_roots_are_created_at_the_root(
    open: OpenView,
    target: Seq<u8>,
    case_hack: CaseHack,
    fold: CaseFold,
)
    ensures
        restore::restore_step(open, EventView::Symlink { name: None, target }, case_hack, fold) == (
            open,
            Ok::<_, ErrorView>(ActionView::CreateSymlink(None)),
        ),
{
}

/// What has a name is created under the name that it gets in the innermost open
/// directory, which alone holds more by that. Without the hack that is its own.
pub proof fn law_objects_are_created_in_the_innermost_directory(
    open: OpenView,
    name: Seq<u8>,
    target: Seq<u8>,
    case_hack: CaseHack,
    fold: CaseFold,
)
    requires
        open.len() > 0,
    ensures
        ({
            let (after, link) = restore::restore_step(
                open,
                EventView::Symlink { name: Some(name), target },
                case_hack,
                fold,
            );
            let (held, disk) = restore::disk_name(
                open[open.len() - 1],
                name,
                case_hack,
                fold,
            );
            &&& after == open.update(open.len() - 1, held)
            &&& match disk {
                Ok(d) => link == Ok::<_, ErrorView>(ActionView::CreateSymlink(Some(d))),
                Err(e) => link == Err::<ActionView, _>(e),
            }
            &&& case_hack == CaseHack::Disabled ==> after == open && link == Ok::<_, ErrorView>(
                ActionView::CreateSymlink(Some(name)),
            )
        }),
{
    let (after, _) = restore::restore_step(
        open,
        EventView::Symlink { name: Some(name), target },
        case_hack,
        fold,
    );
    let (held, _) = restore::disk_name(open[open.len() - 1], name, case_hack, fold);
    assert(after =~= open.update(open.len() - 1, held));
    if case_hack == CaseHack::Disabled {
        assert(after =~= open);
    }
}

/// The end of a directory leaves the innermost one, under whatever name, and
/// creates nothing.
pub proof fn law_ends_leave_the_innermost_directory(
    open: OpenView,
    name: Option<Seq<u8>>,
    case_hack: CaseHack,
    fold: CaseFold,
)
    requires
        open.len() > 0,
    ensures
        restore::restore_step(open, EventView::DirectoryEnd { name }, case_hack, fold) == (
            open.take(open.len() - 1),
            Ok::<_, ErrorView>(ActionView::LeaveDirectory),
        ),
{
    assert(open.drop_last() =~= open.take(open.len() - 1));
}

/// An action says what it holds, and a place is the root or a name.
pub proof fn law_actions_say_what_they_hold(place: Place, name: Vec<u8>, mode: u32)
    ensures
        Place::Root@ is None,
        Place::Child(name)@ == Some(name@),
        RestoreAction::CreateDirectory(place)@ == ActionView::CreateDirectory(place@),
        RestoreAction::CreateSymlink(place)@ == ActionView::CreateSymlink(place@),
        RestoreAction::LeaveDirectory@ == ActionView::LeaveDirectory,
        (RestoreAction::CreateRegular { place, mode })@ == (ActionView::CreateRegular {
            place: place@,
            mode,
        }),
{
}

/// Files and links are restored as they are, and a directory as a directory of
/// as many entries, each of them what the child in its place is restored as.
pub proof fn law_objects_are_restored_in_their_places(
    tree: Tree,
    case_hack: CaseHack,
    fold: CaseFold,
    i: int,
)
    ensures
        !(tree is Directory) ==> disk_laws::restored_tree(tree, case_hack, fold) == Ok::<
            _,
            ErrorView,
        >(tree),
        tree is Directory && disk_laws::restored_tree(tree, case_hack, fold) is Ok ==> {
            let children = tree->Directory_0;
            let disk = disk_laws::restored_tree(tree, case_hack, fold)->Ok_0;
            &&& disk is Directory
            &&& disk->Directory_0.len() == children.len()
            &&& 0 <= i < children.len() ==> disk_laws::restored_tree(
                children[i].1,
                case_hack,
                fold,
            ) == Ok::<_, ErrorView>(disk->Directory_0[i].1)
        },
{
    if let Tree::Directory(children) = tree {
        if disk_laws::restored_tree(tree, case_hack, fold) is Ok {
            lemma_entries_in_place(children, Map::empty(), case_hack, fold, i);
        }
    }
}

proof fn lemma_entries_in_place(
    children: Seq<(Seq<u8>, Tree)>,
    held: restore::NamesView,
    case_hack: CaseHack,
    fold: CaseFold,
    i: int,
)
    requires
        disk_laws::restored_entries(children, held, case_hack, fold) is Ok,
    ensures
        ({
            let entries = disk_laws::restored_entries(children, held, case_hack, fold)->Ok_0;
            &&& entries.len() == children.len()
            &&& 0 <= i < children.len() ==> disk_laws::restored_tree(
                children[i].1,
                case_hack,
                fold,
            ) == Ok::<_, ErrorView>(entries[i].1)
        }),
    decreases children.len(),
{
    if children.len() > 0 {
        let (next, _) = restore::disk_name(held, children[0].0, case_hack, fold);
        lemma_entries_in_place(children.skip(1), next, case_hack, fold, i - 1);
        if 0 < i < children.len() {
            assert(children.skip(1)[i - 1] == children[i]);
        }
    }
}

}
