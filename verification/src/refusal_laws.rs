//! Which events an encoder refuses, and what the others come to.

use vstd::prelude::*;

use crate::encoder;
use crate::encoder::{EncoderView, RootState, Run, Step};
use crate::model::EventView;
use crate::names;
use crate::nar::ErrorView;
use crate::tree;

verus! {

/// Once a write has failed every event is refused for that, and once the archive
/// is complete every event is refused for that.
pub proof fn law_no_event_is_taken_at_the_end(v: EncoderView, event: EventView)
    ensures
        v.poisoned ==> encoder::step(v, event) == Err::<(EncoderView, Seq<u8>), _>(
            ErrorView::EncoderPoisoned,
        ),
        !v.poisoned && v.root == RootState::Complete ==> encoder::step(v, event) == Err::<
            (EncoderView, Seq<u8>),
            _,
        >(ErrorView::InvalidEncoderEvent("archive is already complete"@)),
{
}

/// Files, links and directories of one name are refused alike.
pub proof fn law_nodes_are_refused_alike(
    v: EncoderView,
    name: Option<Seq<u8>>,
    executable: bool,
    size: nat,
    contents: Seq<u8>,
    target: Seq<u8>,
    error: ErrorView,
)
    ensures
        ({
            let refused = Err::<(EncoderView, Seq<u8>), ErrorView>(error);
            let directory = encoder::step(v, EventView::DirectoryStart { name });
            let file = encoder::step(v, EventView::Regular { name, executable, size, contents });
            let link = encoder::step(v, EventView::Symlink { name, target });
            let streamed = encoder::file_started(v, name, executable, size);
            &&& directory == refused <==> file == refused
            &&& file == refused <==> link == refused
            &&& link == refused <==> streamed == refused
        }),
{
}

/// The root comes first and has no name, and there is no second one.
pub proof fn law_there_is_one_root(v: EncoderView, name: Seq<u8>)
    requires
        !v.poisoned,
        v.open.len() == 0,
    ensures
        v.root == RootState::Empty ==> encoder::step(v, EventView::DirectoryStart { name: None })
            is Ok,
        v.root == RootState::Open ==> encoder::step(
            v,
            EventView::DirectoryStart { name: None },
        ) == Err::<(EncoderView, Seq<u8>), _>(
            ErrorView::InvalidEncoderEvent("archive already has a root"@),
        ),
        v.root != RootState::Complete ==> encoder::step(
            v,
            EventView::DirectoryStart { name: Some(name) },
        ) == Err::<(EncoderView, Seq<u8>), _>(
            ErrorView::InvalidEncoderEvent("the root must be unnamed"@),
        ),
{
}

/// Within a directory every node has a name, which is valid and comes behind
/// that of the node before it, and at most sixty-four directories are open:
/// whatever is amiss first is reported, and otherwise the node is taken.
pub proof fn law_nodes_of_a_directory(v: EncoderView, name: Seq<u8>)
    requires
        !v.poisoned,
        v.root != RootState::Complete,
        v.open.len() > 0,
    ensures
        ({
            let previous = v.open[v.open.len() - 1];
            let ordered = previous is Some ==> names::less(previous->0, name);
            let named = encoder::step(v, EventView::DirectoryStart { name: Some(name) });
            &&& encoder::step(v, EventView::DirectoryStart { name: None }) == Err::<
                (EncoderView, Seq<u8>),
                _,
            >(ErrorView::InvalidEncoderEvent("a node inside a directory must have a name"@))
            &&& !names::valid_name(name) ==> named == Err::<(EncoderView, Seq<u8>), _>(
                ErrorView::InvalidName(names::describe(name)),
            )
            &&& names::valid_name(name) && !ordered ==> named == Err::<(EncoderView, Seq<u8>), _>(
                ErrorView::UnsortedEntries(names::describe(name), names::describe(previous->0)),
            )
            &&& names::valid_name(name) && ordered && v.open.len() >= 64 ==> named == Err::<
                (EncoderView, Seq<u8>),
                _,
            >(ErrorView::MaxDepth(64))
            &&& names::valid_name(name) && ordered && v.open.len() < 64 ==> named is Ok
        }),
{
}

/// A node that is taken leaves its name with the directory that it is in and
/// nothing else changed, but for a directory, which is then open.
pub proof fn law_what_a_taken_node_leaves(
    v: EncoderView,
    name: Seq<u8>,
    executable: bool,
    size: nat,
    contents: Seq<u8>,
    target: Seq<u8>,
)
    requires
        encoder::step(v, EventView::DirectoryStart { name: Some(name) }) is Ok,
    ensures
        ({
            let after = EncoderView { open: v.open.update(v.open.len() - 1, Some(name)), ..v };
            let directory = encoder::step(v, EventView::DirectoryStart { name: Some(name) });
            let file = encoder::step(
                v,
                EventView::Regular { name: Some(name), executable, size, contents },
            );
            let link = encoder::step(v, EventView::Symlink { name: Some(name), target });
            &&& v.open.len() > 0
            &&& directory->Ok_0.0 == (EncoderView { open: after.open.push(None), ..after })
            &&& file->Ok_0.0 == after
            &&& link->Ok_0.0 == after
        }),
{
    assert(v.open.drop_last().push(Some(name)) =~= v.open.update(v.open.len() - 1, Some(name)));
}

/// A root that is taken makes the archive complete, unless it is a directory,
/// which is then open, with nothing in it.
pub proof fn law_what_a_taken_root_leaves(
    v: EncoderView,
    executable: bool,
    size: nat,
    contents: Seq<u8>,
    target: Seq<u8>,
)
    requires
        encoder::step(v, EventView::DirectoryStart { name: None }) is Ok,
    ensures
        ({
            let directory = encoder::step(v, EventView::DirectoryStart { name: None });
            let file = encoder::step(
                v,
                EventView::Regular { name: None, executable, size, contents },
            );
            let link = encoder::step(v, EventView::Symlink { name: None, target });
            &&& directory->Ok_0.0 == (EncoderView {
                open: seq![None],
                root: RootState::Open,
                poisoned: false,
            })
            &&& file->Ok_0.0 == (EncoderView {
                open: Seq::empty(),
                root: RootState::Complete,
                poisoned: false,
            })
            &&& link->Ok_0.0 == file->Ok_0.0
        }),
{
    assert(v.open =~= Seq::empty());
    assert(Seq::<Option<Seq<u8>>>::empty().push(None) =~= seq![None]);
}

/// The end of a directory ends the innermost one that is open, under whatever
/// name, and with the outermost the archive is complete.
pub proof fn law_what_an_end_leaves(v: EncoderView, name: Option<Seq<u8>>, other: Option<Seq<u8>>)
    requires
        !v.poisoned,
        v.root != RootState::Complete,
    ensures
        ({
            let end = encoder::step(v, EventView::DirectoryEnd { name });
            &&& end == encoder::step(v, EventView::DirectoryEnd { name: other })
            &&& v.open.len() == 0 ==> end == Err::<(EncoderView, Seq<u8>), _>(
                ErrorView::InvalidEncoderEvent("no directory is open"@),
            )
            &&& v.open.len() > 0 ==> end is Ok && end->Ok_0.0 == (EncoderView {
                open: v.open.take(v.open.len() - 1),
                root: if v.open.len() == 1 {
                    RootState::Complete
                } else {
                    v.root
                },
                poisoned: false,
            })
        }),
{
    if v.open.len() > 0 {
        assert(v.open.drop_last() =~= v.open.take(v.open.len() - 1));
    }
}

/// An encoder can be finished exactly if no write has failed and the archive is
/// complete.
pub proof fn law_what_can_be_finished(v: EncoderView)
    ensures
        v.poisoned ==> encoder::finish_error(v) == Some(ErrorView::EncoderPoisoned),
        !v.poisoned && (v.root != RootState::Complete || v.open.len() > 0)
            ==> encoder::finish_error(v) == Some(ErrorView::UnfinishedArchive),
        !v.poisoned && v.root == RootState::Complete && v.open.len() == 0
            ==> encoder::finish_error(v) is None,
        encoder::finish_error(encoder::fresh()) == Some(ErrorView::UnfinishedArchive),
{
}

/// Whatever becomes of an event, nothing that was written is taken back, and
/// nothing is written but the bytes of the event. A refused event writes nothing
/// and changes nothing, and one that is neither refused nor wholly written
/// leaves an encoder that is of no more use.
pub proof fn law_output_only_grows(
    step: Step,
    before: EncoderView,
    after: EncoderView,
    sent: Seq<u8>,
    now: Seq<u8>,
    failure: Option<ErrorView>,
)
    requires
        encoder::stepped(step, before, after, sent, now, failure),
    ensures
        sent.len() <= now.len() && now.take(sent.len() as int) == sent,
        step is Err ==> now == sent && after == before && failure == Some(step->Err_0),
        step is Ok ==> now.len() <= sent.len() + step->Ok_0.1.len() && (sent + step->Ok_0.1).take(
            now.len() as int,
        ) == now,
        step is Ok && failure is None ==> now == sent + step->Ok_0.1 && after == step->Ok_0.0,
        step is Ok && failure is Some ==> after.poisoned && failure->0 is Io,
{
    assert(sent.take(sent.len() as int) =~= sent);
    if let Ok((_, bytes)) = step {
        if failure is None {
            assert(now.take(sent.len() as int) =~= sent);
            assert((sent + bytes).take(now.len() as int) =~= now);
        } else {
            let k = choose|k: int|
                0 <= k <= bytes.len() && now == sent + #[trigger] bytes.take(k);
            assert(now.take(sent.len() as int) =~= sent);
            assert((sent + bytes).take(now.len() as int) =~= now);
        }
    }
}

/// Whatever becomes of a run, nothing that was written is taken back, and
/// nothing is written but the bytes of the run. One that is refused has written
/// what precedes the refused event, and one that the sink cuts short leaves an
/// encoder that is of no more use.
pub proof fn law_runs_only_add(
    run: Run,
    after: EncoderView,
    sent: Seq<u8>,
    now: Seq<u8>,
    failure: Option<ErrorView>,
)
    requires
        tree::ran(run, after, sent, now, failure),
    ensures
        sent.len() <= now.len() <= sent.len() + run.bytes.len(),
        (sent + run.bytes).take(now.len() as int) == now,
        failure is None ==> now == sent + run.bytes && run.end == Ok::<_, ErrorView>(after),
        failure is Some && !(failure->0 is Io) ==> now == sent + run.bytes && run.end == Err::<
            EncoderView,
            _,
        >(failure->0),
        failure is Some && failure->0 is Io ==> after.poisoned,
{
    if failure is Some && failure->0 is Io {
        let bytes = run.bytes;
        let k = choose|k: int| 0 <= k <= bytes.len() && now == sent + #[trigger] bytes.take(k);
        assert((sent + bytes).take(now.len() as int) =~= now);
    } else {
        assert((sent + run.bytes).take(now.len() as int) =~= now);
    }
}

}
