//! The two decoders agree, and what they deliver nests.

use vstd::prelude::*;

use crate::grammar;
use crate::grammar::{Mode, Parse};
use crate::laws;
use crate::model;
use crate::model::{EventView, Tree};
use crate::nar::ErrorView;
use crate::roundtrip;

verus! {

// ---------------------------------------------------------------------------
// Slices and streams
// ---------------------------------------------------------------------------

/// The error is one of those that only a stream can have: a token is longer
/// than a stream accepts.
pub open spec fn over_limit(error: ErrorView) -> bool {
    match error {
        ErrorView::TokenTooLarge { size, limit } => limit == model::MAX_METADATA_TOKEN && size
            > limit,
        ErrorView::UnexpectedToken { got, .. } => exists|n: nat|
            n > grammar::MAX_CONTROL_TOKEN && got == #[trigger] grammar::oversized(n),
        _ => false,
    }
}

/// Reading from a stream came to what reading from a slice comes to, or to a
/// limit.
pub open spec fn same<T>(streamed: Result<T, ErrorView>, sliced: Result<T, ErrorView>) -> bool {
    streamed == sliced || (streamed matches Err(e) && over_limit(e))
}

/// `a` is a first part of `b`.
pub open spec fn first_part(a: Seq<EventView>, b: Seq<EventView>) -> bool {
    a.len() <= b.len() && b.take(a.len() as int) == a
}

/// `a` is a first part of `b`, but for a file at its end that `b` may not have.
pub open spec fn first_part_but_a_file(a: Seq<EventView>, b: Seq<EventView>) -> bool {
    first_part(a, b) || (a.len() > 0 && a.last() is Regular && first_part(a.drop_last(), b))
}

/// The same of parsing. A stream delivers a file before it has seen the end of
/// it, so where both fail it may have delivered that one file more. Where a
/// stream comes to a limit, a slice may go on.
pub open spec fn agree(streamed: Parse, sliced: Parse) -> bool {
    &&& same(streamed.rest, sliced.rest)
    &&& first_part_but_a_file(streamed.events, sliced.events)
    &&& streamed.rest is Ok ==> streamed.events == sliced.events
    &&& (streamed.rest matches Err(e) && !over_limit(e)) ==> {
        ||| streamed.events == sliced.events
        ||| streamed.events.len() == sliced.events.len() + 1 && streamed.events.drop_last()
            == sliced.events
    }
}

/// Nothing, and the whole, are first parts.
proof fn lemma_first_parts()
    ensures
        forall|a: Seq<EventView>, b: Seq<EventView>| a.len() == 0 ==> #[trigger] first_part(a, b),
        forall|a: Seq<EventView>| #[trigger] first_part(a, a),
{
    assert forall|a: Seq<EventView>, b: Seq<EventView>| a.len() == 0 implies #[trigger] first_part(
        a,
        b,
    ) by {
        assert(b.take(0) =~= a);
    }
    assert forall|a: Seq<EventView>| #[trigger] first_part(a, a) by {
        assert(a.take(a.len() as int) =~= a);
    }
}

proof fn lemma_same_control(s: Seq<u8>, expected: &str)
    ensures
        same(
            grammar::take_control(s, expected, Mode::Stream),
            grammar::take_control(s, expected, Mode::Slice),
        ),
{
    reveal(grammar::take_control);
    if s.len() >= 8 {
        let n = model::le64_value(s);
        assert(grammar::oversized(n) == grammar::oversized(n));
    }
}

proof fn lemma_same_metadata(s: Seq<u8>)
    ensures
        same(grammar::take_metadata(s, Mode::Stream), grammar::take_metadata(s, Mode::Slice)),
{
    reveal(grammar::take_metadata);
}

proof fn lemma_same_word(s: Seq<u8>, expected: &str)
    ensures
        same(
            grammar::take_word(s, expected, Mode::Stream),
            grammar::take_word(s, expected, Mode::Slice),
        ),
{
    reveal(grammar::take_word);
    lemma_same_control(s, expected);
}

proof fn lemma_same_words(s: Seq<u8>, first: &str, second: &str)
    ensures
        same(
            grammar::take_words(s, first, second, Mode::Stream),
            grammar::take_words(s, first, second, Mode::Slice),
        ),
{
    lemma_same_word(s, first);
    if let Ok(rest) = grammar::take_word(s, first, Mode::Stream) {
        lemma_same_word(rest, second);
    }
}

proof fn lemma_same_flags(s: Seq<u8>)
    ensures
        same(grammar::take_flags(s, Mode::Stream), grammar::take_flags(s, Mode::Slice)),
{
    reveal(grammar::take_flags);
    lemma_same_control(s, "contents");
    if let Ok((_, rest)) = grammar::take_control(s, "contents", Mode::Stream) {
        lemma_same_words(rest, "", "contents");
    }
}

proof fn lemma_same_entry_head(s: Seq<u8>, previous: Option<Seq<u8>>)
    ensures
        same(
            grammar::take_entry_head(s, previous, Mode::Stream),
            grammar::take_entry_head(s, previous, Mode::Slice),
        ),
{
    reveal(grammar::take_entry_head);
    lemma_same_words(s, "(", "name");
    if let Ok(r1) = grammar::take_words(s, "(", "name", Mode::Stream) {
        lemma_same_metadata(r1);
        if let Ok((_, r2)) = grammar::take_metadata(r1, Mode::Stream) {
            lemma_same_word(r2, "node");
        }
    }
}

proof fn lemma_regulars_agree(s: Seq<u8>, name: Option<Seq<u8>>)
    ensures
        agree(
            grammar::parse_regular(s, name, Mode::Stream),
            grammar::parse_regular(s, name, Mode::Slice),
        ),
{
    reveal(grammar::parse_regular);
    reveal(grammar::parse_contents);
    lemma_first_parts();
    lemma_same_flags(s);
    if let Ok((executable, r1)) = grammar::take_flags(s, Mode::Stream) {
        if let Ok((_, r2)) = grammar::take_token(r1) {
            lemma_same_word(r2, ")");
        }
        let streamed = grammar::parse_contents(r1, name, executable, Mode::Stream);
        assert(streamed.events.len() == 1 ==> streamed.events.drop_last() =~= Seq::empty());
    }
}

proof fn lemma_symlinks_agree(s: Seq<u8>, name: Option<Seq<u8>>)
    ensures
        agree(
            grammar::parse_symlink(s, name, Mode::Stream),
            grammar::parse_symlink(s, name, Mode::Slice),
        ),
{
    reveal(grammar::parse_symlink);
    lemma_first_parts();
    lemma_same_word(s, "target");
    if let Ok(r1) = grammar::take_word(s, "target", Mode::Stream) {
        lemma_same_metadata(r1);
        if let Ok((_, r2)) = grammar::take_metadata(r1, Mode::Stream) {
            lemma_same_word(r2, ")");
        }
    }
}

/// Putting the same events in front, or behind what succeeded, changes nothing.
proof fn lemma_agree_behind(before: Seq<EventView>, streamed: Parse, sliced: Parse)
    requires
        agree(streamed, sliced),
    ensures
        agree(
            (Parse { events: before + streamed.events, rest: streamed.rest }),
            (Parse { events: before + sliced.events, rest: sliced.rest }),
        ),
{
    let a = before + streamed.events;
    let b = before + sliced.events;
    if streamed.events.len() > 0 {
        assert(a.drop_last() =~= before + streamed.events.drop_last());
    }
    if first_part(streamed.events, sliced.events) {
        assert(b.take(a.len() as int) =~= before + sliced.events.take(
            streamed.events.len() as int,
        ));
    } else {
        assert(b.take(a.len() - 1) =~= before + sliced.events.take(streamed.events.len() - 1));
    }
}

/// A first part of a first part is a first part.
proof fn lemma_first_part_extended(a: Seq<EventView>, b: Seq<EventView>, c: Seq<EventView>)
    requires
        first_part_but_a_file(a, b),
        first_part(b, c),
    ensures
        first_part_but_a_file(a, c),
{
    if first_part(a, b) {
        assert(c.take(a.len() as int) =~= b.take(a.len() as int));
    } else {
        assert(c.take(a.len() - 1) =~= b.take(a.len() - 1));
    }
}

proof fn lemma_nodes_agree(s: Seq<u8>, name: Option<Seq<u8>>, depth: nat)
    ensures
        agree(
            grammar::parse_node(s, name, depth, Mode::Stream),
            grammar::parse_node(s, name, depth, Mode::Slice),
        ),
    decreases s.len(), 0nat,
{
    let due = "regular, symlink or directory";
    lemma_first_parts();
    lemma_same_words(s, "(", "type");
    if let Ok(r1) = grammar::take_words(s, "(", "type", Mode::Stream) {
        lemma_same_control(r1, due);
        if let Ok((kind, r2)) = grammar::take_control(r1, due, Mode::Stream) {
            grammar::lemma_take_words_shrinks(s, "(", "type", Mode::Stream);
            grammar::lemma_take_control_shrinks(r1, due, Mode::Stream);
            lemma_regulars_agree(r2, name);
            lemma_symlinks_agree(r2, name);
            if kind == model::text("directory") {
                lemma_entries_agree(r2, None, depth);
                let streamed = grammar::parse_entries(r2, None, depth, Mode::Stream);
                let sliced = grammar::parse_entries(r2, None, depth, Mode::Slice);
                let start = seq![EventView::DirectoryStart { name }];
                lemma_agree_behind(start, streamed, sliced);
                let none = Seq::<EventView>::empty();
                assert(start + streamed.events + none =~= start + streamed.events);
                assert(start + sliced.events + none =~= start + sliced.events);
                let whole = grammar::enclosed(name, sliced).events;
                assert(whole.take((start + sliced.events).len() as int) =~= start + sliced.events);
                if streamed.rest is Err {
                    lemma_first_part_extended(
                        start + streamed.events,
                        start + sliced.events,
                        whole,
                    );
                }
            }
        }
    }
}

proof fn lemma_entries_agree(s: Seq<u8>, previous: Option<Seq<u8>>, depth: nat)
    ensures
        agree(
            grammar::parse_entries(s, previous, depth, Mode::Stream),
            grammar::parse_entries(s, previous, depth, Mode::Slice),
        ),
    decreases s.len(), 1nat,
{
    lemma_first_parts();
    lemma_same_control(s, "entry or )");
    if let Ok((got, r1)) = grammar::take_control(s, "entry or )", Mode::Stream) {
        grammar::lemma_take_control_shrinks(s, "entry or )", Mode::Stream);
        if got != model::text(")") && got == model::text("entry") {
            lemma_same_entry_head(r1, previous);
            if let Ok((child, r2)) = grammar::take_entry_head(r1, previous, Mode::Stream) {
                grammar::lemma_take_entry_head_shrinks(r1, previous, Mode::Stream);
                grammar::lemma_parse_one_entry(s, previous, depth, Mode::Stream);
                grammar::lemma_parse_one_entry(s, previous, depth, Mode::Slice);
                lemma_nodes_agree(r2, Some(child), depth + 1);
                let streamed = grammar::parse_node(r2, Some(child), depth + 1, Mode::Stream);
                let sliced = grammar::parse_node(r2, Some(child), depth + 1, Mode::Slice);
                lemma_first_part_extended(
                    streamed.events,
                    sliced.events,
                    grammar::parse_entries(s, previous, depth, Mode::Slice).events,
                );
                if let Ok(r3) = streamed.rest {
                    lemma_same_word(r3, ")");
                    if let Ok(r4) = grammar::take_word(r3, ")", Mode::Stream) {
                        lemma_entries_agree(r4, Some(child), depth);
                        lemma_agree_behind(
                            streamed.events,
                            grammar::parse_entries(r4, Some(child), depth, Mode::Stream),
                            grammar::parse_entries(r4, Some(child), depth, Mode::Slice),
                        );
                    }
                }
            }
        }
    }
}

/// The streaming decoder does what the slice decoder does, or reports that a
/// token is longer than it accepts.
pub proof fn law_decoders_agree(nar: Seq<u8>)
    ensures
        agree(
            grammar::parse_archive(nar, Mode::Stream),
            grammar::parse_archive(nar, Mode::Slice),
        ),
{
    lemma_first_parts();
    if let Ok((got, rest)) = grammar::take_token(nar) {
        lemma_nodes_agree(rest, None, 0);
    }
}

/// A stream refuses the archive of a tree with a name or a symlink target that
/// is longer than it accepts, and no other archive.
pub proof fn law_streams_refuse_what_is_too_long(tree: Tree)
    requires
        model::valid(tree, 0),
    ensures
        match grammar::parse_archive(model::archive(tree), Mode::Stream).rest {
            Ok(_) => model::streamable(tree),
            Err(e) => !model::streamable(tree) && over_limit(e),
        },
{
    let nar = model::archive(tree);
    law_decoders_agree(nar);
    roundtrip::law_decoding_undoes_encoding(tree, Mode::Slice);
    if model::streamable(tree) {
        roundtrip::law_decoding_undoes_encoding(tree, Mode::Stream);
    }
    if grammar::parse_archive(nar, Mode::Stream).rest is Ok {
        let accepted = roundtrip::law_accepted_archives_are_canonical(nar, Mode::Stream);
        laws::law_archives_tell_trees_apart(tree, accepted);
    }
}

// ---------------------------------------------------------------------------
// Nesting
// ---------------------------------------------------------------------------

/// Each of `parse`'s events can come where it does below `depth` open
/// directories, and where it succeeds as many are open after them as before.
pub open spec fn nested(parse: Parse, depth: nat) -> bool {
    &&& model::nesting(parse.events, depth) is Some
    &&& parse.rest is Ok ==> model::nesting(parse.events, depth) == Some(depth)
}

proof fn lemma_leaf_nested(event: EventView, rest: Result<Seq<u8>, ErrorView>, depth: nat)
    requires
        event is Regular || event is Symlink,
        model::nests(event, depth),
    ensures
        nested(grammar::delivered(event, rest), depth),
        nested((Parse { events: Seq::empty(), rest }), depth),
{
    model::lemma_nesting_one(event, depth);
}

proof fn lemma_node_nested(s: Seq<u8>, name: Option<Seq<u8>>, depth: nat, mode: Mode)
    requires
        name is None <==> depth == 0,
    ensures
        nested(grammar::parse_node(s, name, depth, mode), depth),
    decreases s.len(), 0nat,
{
    let due = "regular, symlink or directory";
    if let Ok(r1) = grammar::take_words(s, "(", "type", mode) {
        if let Ok((kind, r2)) = grammar::take_control(r1, due, mode) {
            grammar::lemma_take_words_shrinks(s, "(", "type", mode);
            grammar::lemma_take_control_shrinks(r1, due, mode);
            if kind == model::text("regular") {
                reveal(grammar::parse_regular);
                reveal(grammar::parse_contents);
                if let Ok((executable, r3)) = grammar::take_flags(r2, mode) {
                    let parse = grammar::parse_contents(r3, name, executable, mode);
                    if r3.len() >= 8 {
                        let event = EventView::Regular {
                            name,
                            executable,
                            size: model::le64_value(r3),
                            contents: model::up_to(r3.skip(8), model::le64_value(r3)),
                        };
                        lemma_leaf_nested(event, parse.rest, depth);
                    }
                }
            } else if kind == model::text("symlink") {
                reveal(grammar::parse_symlink);
                let parse = grammar::parse_symlink(r2, name, mode);
                if parse.rest is Ok {
                    lemma_leaf_nested(parse.events[0], parse.rest, depth);
                }
            } else if kind == model::text("directory") {
                lemma_entries_nested(r2, None, depth, mode);
                let inner = grammar::parse_entries(r2, None, depth, mode);
                let start = EventView::DirectoryStart { name };
                let end = EventView::DirectoryEnd { name };
                let tail = if inner.rest is Ok {
                    seq![end]
                } else {
                    Seq::empty()
                };
                model::lemma_nesting_one(start, depth);
                model::lemma_nesting_one(end, depth + 1);
                model::lemma_nesting_concat(seq![start] + inner.events, tail, depth);
                model::lemma_nesting_concat(seq![start], inner.events, depth);
            }
        }
    }
}

proof fn lemma_entries_nested(s: Seq<u8>, previous: Option<Seq<u8>>, depth: nat, mode: Mode)
    ensures
        nested(grammar::parse_entries(s, previous, depth, mode), depth + 1),
    decreases s.len(), 1nat,
{
    if let Ok((got, r1)) = grammar::take_control(s, "entry or )", mode) {
        grammar::lemma_take_control_shrinks(s, "entry or )", mode);
        if got != model::text(")") && got == model::text("entry") {
            if let Ok((child, r2)) = grammar::take_entry_head(r1, previous, mode) {
                grammar::lemma_take_entry_head_shrinks(r1, previous, mode);
                grammar::lemma_parse_one_entry(s, previous, depth, mode);
                lemma_node_nested(r2, Some(child), depth + 1, mode);
                let inner = grammar::parse_node(r2, Some(child), depth + 1, mode);
                if let Ok(r3) = inner.rest {
                    if let Ok(r4) = grammar::take_word(r3, ")", mode) {
                        lemma_entries_nested(r4, Some(child), depth, mode);
                        let more = grammar::parse_entries(r4, Some(child), depth, mode);
                        model::lemma_nesting_concat(inner.events, more.events, depth + 1);
                    }
                }
            }
        }
    }
}

/// Whatever the bytes are, what a decoder delivers nests: the root and nothing
/// else has no name, a directory ends only where one is open, and in an archive
/// that is accepted every directory has ended.
pub proof fn law_events_nest(nar: Seq<u8>, mode: Mode)
    ensures
        nested(grammar::parse_archive(nar, mode), 0),
{
    if let Ok((got, rest)) = grammar::take_token(nar) {
        lemma_node_nested(rest, None, 0, mode);
    }
}

/// Whatever has been delivered so far nests, too.
pub proof fn law_events_nest_as_they_come(nar: Seq<u8>, mode: Mode, k: int)
    requires
        0 <= k < grammar::parse_archive(nar, mode).events.len(),
    ensures
        ({
            let events = grammar::parse_archive(nar, mode).events;
            model::nesting(events.take(k), 0) matches Some(depth) && model::nests(
                events[k],
                depth,
            )
        }),
{
    let events = grammar::parse_archive(nar, mode).events;
    law_events_nest(nar, mode);
    assert(events =~= events.take(k) + events.skip(k));
    model::lemma_nesting_concat(events.take(k), events.skip(k), 0);
}

}
