//! Decoding into a collected post-order list of entries.

use vstd::prelude::*;

use crate::dec;
use crate::dec::{decode_events, Event, EventVisitor};
use crate::grammar;
use crate::grammar::Mode;
use crate::model;
use crate::model::{EventView, Tree};
use crate::names;
use crate::names::{describe_bytes, is_utf8, same_bytes};
use crate::nar::{Error, ErrorView};
use crate::paths;
use crate::paths::append_name;
use crate::roundtrip;

verus! {

/// One filesystem object from an archive. Paths are relative to the archive
/// root, with a slash between the names; the root itself has an empty path.
#[derive(Clone, Debug, PartialEq, Eq)]
pub enum Entry<'a> {
    Regular {
        path: Vec<u8>,
        executable: bool,
        /// Borrowed from the archive bytes; never copied.
        contents: &'a [u8],
    },
    Symlink {
        path: Vec<u8>,
        /// Raw target bytes borrowed from the archive.
        /// NAR imposes no UTF-8 constraint.
        target: &'a [u8],
    },
    /// A directory. Emitted **after** all of its children.
    Directory { path: Vec<u8> },
}

/// The model of an [`Entry`].
pub enum EntryView {
    Regular { path: Seq<u8>, executable: bool, contents: Seq<u8> },
    Symlink { path: Seq<u8>, target: Seq<u8> },
    Directory { path: Seq<u8> },
}

impl<'a> View for Entry<'a> {
    type V = EntryView;

    open spec fn view(&self) -> EntryView {
        match *self {
            Entry::Regular { path, executable, contents } => EntryView::Regular {
                path: path@,
                executable,
                contents: contents@,
            },
            Entry::Symlink { path, target } => EntryView::Symlink { path: path@, target: target@ },
            Entry::Directory { path } => EntryView::Directory { path: path@ },
        }
    }
}

impl<'a> Entry<'a> {
    /// The entry's path relative to the archive root.
    pub fn path(&self) -> (r: &[u8])
        ensures
            r@ == match self@ {
                EntryView::Regular { path, .. } => path,
                EntryView::Symlink { path, .. } => path,
                EntryView::Directory { path } => path,
            },
    {
        match self {
            Entry::Regular { path, .. } => path.as_slice(),
            Entry::Symlink { path, .. } => path.as_slice(),
            Entry::Directory { path } => path.as_slice(),
        }
    }
}

/// The entries as their models.
pub open spec fn views(entries: Seq<Entry<'_>>) -> Seq<EntryView> {
    entries.map_values(|e: Entry<'_>| e@)
}

// ---------------------------------------------------------------------------
// Post-order
// ---------------------------------------------------------------------------

/// The entries of the tree at `path`, each directory behind its children.
pub open spec fn post_order(tree: Tree, path: Seq<u8>) -> Seq<EntryView>
    decreases tree,
{
    match tree {
        Tree::Regular { executable, contents } => seq![
            EntryView::Regular { path, executable, contents },
        ],
        Tree::Symlink { target } => seq![EntryView::Symlink { path, target }],
        Tree::Directory(children) => post_order_children(children, path).push(
            EntryView::Directory { path },
        ),
    }
}

/// The entries of the trees in the directory at `path`.
pub open spec fn post_order_children(children: Seq<(Seq<u8>, Tree)>, path: Seq<u8>) -> Seq<
    EntryView,
>
    decreases children,
{
    if children.len() == 0 {
        Seq::empty()
    } else {
        post_order(children[0].1, paths::joined(path, children[0].0)) + post_order_children(
            children.skip(1),
            path,
        )
    }
}

/// What has been gathered from a part of a walk: the paths of the directories
/// around the current one, its own, and the entries so far.
pub struct Gathered {
    pub parents: Seq<Seq<u8>>,
    pub path: Seq<u8>,
    pub entries: Seq<EntryView>,
}

/// The path of a possibly nameless object in the directory at `path`.
pub open spec fn placed(path: Seq<u8>, name: Option<Seq<u8>>) -> Seq<u8> {
    match name {
        Some(n) => paths::joined(path, n),
        None => path,
    }
}

/// Gather one more event.
pub open spec fn gather_one(g: Gathered, event: EventView) -> Gathered {
    match event {
        EventView::DirectoryStart { name: Some(name) } => Gathered {
            parents: g.parents.push(g.path),
            path: paths::joined(g.path, name),
            entries: g.entries,
        },
        EventView::DirectoryStart { name: None } => g,
        EventView::DirectoryEnd { name } => {
            let entries = g.entries.push(EntryView::Directory { path: g.path });
            if name is Some && g.parents.len() > 0 {
                Gathered { parents: g.parents.drop_last(), path: g.parents.last(), entries }
            } else {
                Gathered { entries, ..g }
            }
        },
        EventView::Regular { name, executable, contents, .. } => Gathered {
            entries: g.entries.push(
                EntryView::Regular { path: placed(g.path, name), executable, contents },
            ),
            ..g
        },
        EventView::Symlink { name, target } => Gathered {
            entries: g.entries.push(EntryView::Symlink { path: placed(g.path, name), target }),
            ..g
        },
    }
}

/// Gather a run of events.
pub open spec fn gather(g: Gathered, events: Seq<EventView>) -> Gathered
    decreases events.len(),
{
    if events.len() == 0 {
        g
    } else {
        gather_one(gather(g, events.drop_last()), events.last())
    }
}

/// Nothing gathered yet.
pub open spec fn nothing() -> Gathered {
    Gathered { parents: Seq::empty(), path: Seq::empty(), entries: Seq::empty() }
}

proof fn lemma_gather_push(g: Gathered, events: Seq<EventView>, event: EventView)
    ensures
        gather(g, events.push(event)) == gather_one(gather(g, events), event),
{
    assert(events.push(event).drop_last() =~= events);
}

proof fn lemma_gather_concat(g: Gathered, a: Seq<EventView>, b: Seq<EventView>)
    ensures
        gather(g, a + b) == gather(gather(g, a), b),
    decreases b.len(),
{
    if b.len() == 0 {
        assert(a + b =~= a);
    } else {
        assert((a + b).drop_last() =~= a + b.drop_last());
        lemma_gather_concat(g, a, b.drop_last());
    }
}

/// Gathering the walk over a tree adds the tree's entries in post-order.
pub proof fn lemma_gather_tree(g: Gathered, tree: Tree, name: Option<Seq<u8>>)
    ensures
        gather(g, model::events(tree, name)) == (Gathered {
            entries: g.entries + post_order(tree, placed(g.path, name)),
            ..g
        }),
    decreases tree, 0nat,
{
    reveal_with_fuel(gather, 2);
    let path = placed(g.path, name);
    match tree {
        Tree::Regular { executable, contents } => {
            assert(gather(g, model::events(tree, name)).entries =~= g.entries + post_order(
                tree,
                path,
            ));
        },
        Tree::Symlink { target } => {
            assert(gather(g, model::events(tree, name)).entries =~= g.entries + post_order(
                tree,
                path,
            ));
        },
        Tree::Directory(children) => {
            let start = seq![EventView::DirectoryStart { name }];
            let end = seq![EventView::DirectoryEnd { name }];
            let inside = model::child_events(children);
            lemma_gather_concat(g, start + inside, end);
            lemma_gather_concat(g, start, inside);
            let g1 = gather(g, start);
            assert(start.drop_last() =~= Seq::<EventView>::empty());
            assert(g1 == gather_one(g, start[0]));
            lemma_gather_children(g1, children);
            let g2 = gather(g1, inside);
            assert(end.drop_last() =~= Seq::<EventView>::empty());
            let g3 = gather(g2, end);
            assert(g3 == gather_one(g2, end[0]));
            assert(g3.entries =~= g.entries + post_order(tree, path));
            if name is Some {
                assert(g3.parents =~= g.parents);
            }
        },
    }
}

proof fn lemma_gather_children(g: Gathered, children: Seq<(Seq<u8>, Tree)>)
    ensures
        gather(g, model::child_events(children)) == (Gathered {
            entries: g.entries + post_order_children(children, g.path),
            ..g
        }),
    decreases children, 1nat,
{
    if children.len() == 0 {
        assert(g.entries + post_order_children(children, g.path) =~= g.entries);
    } else {
        let first = model::events(children[0].1, Some(children[0].0));
        lemma_gather_concat(g, first, model::child_events(children.skip(1)));
        lemma_gather_tree(g, children[0].1, Some(children[0].0));
        let g1 = gather(g, first);
        lemma_gather_children(g1, children.skip(1));
        assert(g1.entries + post_order_children(children.skip(1), g.path) =~= g.entries
            + post_order_children(children, g.path));
    }
}

// ---------------------------------------------------------------------------
// Names that a system does not take
// ---------------------------------------------------------------------------

/// `name` is no one component of a path on Windows: it is not UTF-8, or has a
/// backslash or a colon in it.
pub open spec fn windows_syntax(name: Seq<u8>) -> bool {
    !vstd::utf8::valid_utf8(name) || name.contains(0x5c) || name.contains(0x3a)
}

/// The name that an event puts into a path.
pub open spec fn naming(event: EventView) -> Option<Seq<u8>> {
    match event {
        EventView::DirectoryStart { name } => name,
        EventView::DirectoryEnd { .. } => None,
        EventView::Regular { name, .. } => name,
        EventView::Symlink { name, .. } => name,
    }
}

/// The first name among `events` that Windows does not take, if there is one.
pub open spec fn unfit_name(events: Seq<EventView>) -> Option<Seq<u8>>
    decreases events.len(),
{
    if events.len() == 0 {
        None
    } else {
        match naming(events[0]) {
            Some(name) if windows_syntax(name) => Some(name),
            _ => unfit_name(events.skip(1)),
        }
    }
}

proof fn lemma_unfit_concat(a: Seq<EventView>, b: Seq<EventView>)
    ensures
        unfit_name(a + b) == match unfit_name(a) {
            Some(name) => Some(name),
            None => unfit_name(b),
        },
    decreases a.len(),
{
    if a.len() == 0 {
        assert(a + b =~= b);
    } else {
        assert((a + b).skip(1) =~= a.skip(1) + b);
        lemma_unfit_concat(a.skip(1), b);
    }
}

proof fn lemma_unfit_push(events: Seq<EventView>, event: EventView)
    ensures
        unfit_name(events.push(event)) == match unfit_name(events) {
            Some(name) => Some(name),
            None => unfit_name(seq![event]),
        },
        unfit_name(seq![event]) == match naming(event) {
            Some(name) if windows_syntax(name) => Some(name),
            _ => None,
        },
{
    assert(events.push(event) =~= events + seq![event]);
    lemma_unfit_concat(events, seq![event]);
    reveal_with_fuel(unfit_name, 2);
    assert(seq![event].skip(1) =~= Seq::<EventView>::empty());
}

/// Whether `name` is no one component of a path on Windows.
fn is_windows_syntax(name: &[u8]) -> (r: bool)
    ensures
        r == windows_syntax(name@),
{
    if !is_utf8(name) {
        return true;
    }
    let mut i: usize = 0;
    while i < name.len()
        invariant
            i <= name.len(),
            forall|j: int| 0 <= j < i ==> name@[j] != 0x5c && name@[j] != 0x3a,
        decreases name.len() - i,
    {
        if name[i] == 0x5c || name[i] == 0x3a {
            assert(name@.contains(name@[i as int]));
            return true;
        }
        i = i + 1;
    }
    false
}

// ---------------------------------------------------------------------------
// Collecting
// ---------------------------------------------------------------------------

/// The visitor behind [`decode`]. `WINDOWS` says whether paths are to be ones
/// that Windows takes.
struct Collector<'a, const WINDOWS: bool> {
    entries: Vec<Entry<'a>>,
    /// The path of the current directory.
    directory: Vec<u8>,
    /// How long the path of each directory around it is.
    marks: Vec<usize>,
    seen: Ghost<Seq<EventView>>,
    refusal: Ghost<Option<ErrorView>>,
}

/// The error for the first name that Windows does not take.
spec fn unfit_error(events: Seq<EventView>) -> Option<ErrorView> {
    match unfit_name(events) {
        Some(name) => Some(ErrorView::InvalidName(names::describe(name))),
        None => None,
    }
}

/// The name that an event puts into a path.
fn naming_of<'a>(event: &Event<'a>) -> (r: Option<&'a [u8]>)
    ensures
        names::optional(r) == naming(dec::slice_event(*event)),
{
    match event {
        Event::DirectoryStart { name } => *name,
        Event::DirectoryEnd { .. } => None,
        Event::Regular { name, .. } => *name,
        Event::Symlink { name, .. } => *name,
    }
}

/// Each path starts with the one before it, and `path` with the last.
spec fn nested(parents: Seq<Seq<u8>>, path: Seq<u8>) -> bool
    decreases parents.len(),
{
    parents.len() > 0 ==> {
        &&& parents.last().len() <= path.len()
        &&& path.take(parents.last().len() as int) == parents.last()
        &&& nested(parents.drop_last(), parents.last())
    }
}

impl<'a, const WINDOWS: bool> EventVisitor<'a> for Collector<'a, WINDOWS> {
    closed spec fn seen(&self) -> Seq<EventView> {
        self.seen@
    }

    closed spec fn sound(&self) -> bool {
        let g = gather(nothing(), self.seen@);
        &&& self.refusal@ == if WINDOWS {
            unfit_error(self.seen@)
        } else {
            None
        }
        &&& self.refusal@ is None ==> {
            &&& views(self.entries@) == g.entries
            &&& self.directory@ == g.path
            &&& nested(g.parents, g.path)
            &&& self.marks@.len() == g.parents.len()
            &&& forall|i: int|
                0 <= i < g.parents.len() ==> #[trigger] self.marks@[i] == g.parents[i].len()
        }
    }

    closed spec fn refusal(&self) -> Option<ErrorView> {
        self.refusal@
    }

    closed spec fn tireless(&self) -> bool {
        !WINDOWS
    }

    fn visit(&mut self, event: Event<'a>) -> (r: Result<(), Error>) {
        let ghost g = gather(nothing(), self.seen@);
        let ghost before = self.entries@;
        proof {
            lemma_gather_push(nothing(), self.seen@, dec::slice_event(event));
            lemma_unfit_push(self.seen@, dec::slice_event(event));
        }
        if WINDOWS {
            if let Some(name) = naming_of(&event) {
                if is_windows_syntax(name) {
                    let description = describe_bytes(name);
                    proof {
                        self.seen@ = self.seen@.push(dec::slice_event(event));
                        self.refusal@ = Some(ErrorView::InvalidName(description@));
                    }
                    return Err(Error::InvalidName(description));
                }
            }
        }
        match event {
            Event::DirectoryStart { name } => {
                if let Some(name) = name {
                    self.marks.push(self.directory.len());
                    append_name(&mut self.directory, name);
                    proof {
                        let next = gather_one(g, dec::slice_event(event));
                        assert(next.parents.drop_last() =~= g.parents);
                        assert(next.path.take(g.path.len() as int) =~= g.path);
                    }
                }
            },
            Event::DirectoryEnd { name } => {
                self.entries.push(Entry::Directory { path: self.directory.clone() });
                if name.is_some() {
                    if let Some(mark) = self.marks.pop() {
                        self.directory.truncate(mark);
                    }
                }
            },
            Event::Regular { name, executable, contents } => {
                let path = path_for_name(&self.directory, name);
                self.entries.push(Entry::Regular { path, executable, contents });
            },
            Event::Symlink { name, target } => {
                let path = path_for_name(&self.directory, name);
                self.entries.push(Entry::Symlink { path, target });
            },
        }
        proof {
            let next = gather_one(g, dec::slice_event(event));
            assert(views(self.entries@) =~= next.entries);
            self.seen@ = self.seen@.push(dec::slice_event(event));
        }
        Ok(())
    }
}

fn path_for_name(directory: &Vec<u8>, name: Option<&[u8]>) -> (r: Vec<u8>)
    ensures
        r@ == placed(directory@, names::optional(name)),
{
    let mut path = directory.clone();
    assert(path@ =~= directory@);
    if let Some(name) = name {
        append_name(&mut path, name);
    }
    path
}

/// What collecting the archive `nar` comes to where any name may stand in a
/// path.
pub open spec fn collected(nar: Seq<u8>, r: Result<Seq<EntryView>, ErrorView>) -> bool {
    let parse = grammar::parse_archive(nar, Mode::Slice);
    match r {
        Ok(entries) => {
            &&& parse.rest is Ok
            &&& exists|tree: Tree|
                {
                    &&& model::valid(tree, 0)
                    &&& nar == #[trigger] model::archive(tree)
                    &&& entries == post_order(tree, Seq::empty())
                }
        },
        Err(e) => parse.rest == Err::<Seq<u8>, _>(e),
    }
}

/// What collecting the archive `nar` comes to on the system that is called `os`.
pub open spec fn collected_for(
    nar: Seq<u8>,
    os: Seq<char>,
    r: Result<Seq<EntryView>, ErrorView>,
) -> bool {
    match unfit_name(grammar::parse_archive(nar, Mode::Slice).events) {
        Some(name) if os == "windows"@ => r == Err::<Seq<EntryView>, _>(
            ErrorView::InvalidName(names::describe(name)),
        ),
        _ => collected(nar, r),
    }
}

/// The outcome of collecting, as a model.
pub open spec fn collection(r: Result<Vec<Entry<'_>>, Error>) -> Result<Seq<EntryView>, ErrorView> {
    match r {
        Ok(entries) => Ok(views(entries@)),
        Err(e) => Err(e@),
    }
}

fn collect<'a, const WINDOWS: bool>(nar: &'a [u8]) -> (r: Result<Vec<Entry<'a>>, Error>)
    ensures
        match unfit_name(grammar::parse_archive(nar@, Mode::Slice).events) {
            Some(name) if WINDOWS => r matches Err(e) && e@ == ErrorView::InvalidName(
                names::describe(name),
            ),
            _ => collected(nar@, collection(r)),
        },
{
    let mut collector = Collector::<'a, WINDOWS> {
        entries: Vec::new(),
        directory: Vec::new(),
        marks: Vec::new(),
        seen: Ghost(Seq::empty()),
        refusal: Ghost(None),
    };
    let ghost events = grammar::parse_archive(nar@, Mode::Slice).events;
    assert(views(collector.entries@) =~= Seq::empty());
    let decoded = decode_events(nar, &mut collector);
    proof {
        let count = collector.seen@.len() as int;
        assert(collector.seen@ =~= events.take(count));
        assert(events =~= events.take(count) + events.skip(count));
        lemma_unfit_concat(events.take(count), events.skip(count));
        assert(events.take(events.len() as int) =~= events);
    }
    decoded?;
    proof {
        let tree = roundtrip::law_accepted_archives_are_canonical(nar@, Mode::Slice);
        let walk = model::events(tree, None);
        assert(collector.seen@ =~= walk);
        lemma_gather_tree(nothing(), tree, None);
        assert(views(collector.entries@) =~= post_order(tree, Seq::empty()));
    }
    Ok(collector.entries)
}

/// Decode a NAR into allocated entries in **post-order**: every directory
/// follows its children, and the root comes last with an empty path.
///
/// **Choose this when you want the tree as data rather than as a visitor.**
///
/// Pros: no visitor to write, so the result is easy to index, sort, filter, or
/// assert against; contents and symlink targets still borrow from `nar` rather
/// than being copied.
///
/// Cons: allocates the vector and a path per entry, so it costs memory
/// proportional to the number of entries; post-order reports a directory only
/// after its children, which is the reverse of the order the archive is
/// written in. Use [`decode_events`] when decoding must not allocate, or when
/// root-first order matters.
///
/// Names may be any that the archive has. Use [`decode_for`] where the paths
/// are meant for a filesystem that takes fewer.
pub fn decode<'a>(nar: &'a [u8]) -> (r: Result<Vec<Entry<'a>>, Error>)
    ensures
        collected(nar@, collection(r)),
{
    collect::<false>(nar)
}

/// [`decode`] for the operating system `os`, as `std::env::consts::OS` names it.
///
/// On `"windows"` a path is made of UTF-8, and a backslash or a colon in a name
/// would be read as path syntax: the first such name is an
/// [`Error::InvalidName`]. Elsewhere any name will do.
pub fn decode_for<'a>(nar: &'a [u8], os: &str) -> (r: Result<Vec<Entry<'a>>, Error>)
    ensures
        collected_for(nar@, os@, collection(r)),
{
    proof {
        vstd::utf8::encode_utf8_decode_utf8(os@);
        vstd::utf8::encode_utf8_decode_utf8("windows"@);
    }
    if same_bytes(os.as_bytes(), "windows".as_bytes()) {
        collect::<true>(nar)
    } else {
        collect::<false>(nar)
    }
}

}
