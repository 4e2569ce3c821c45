//! Encoding and decoding undo each other.

use vstd::prelude::*;

use crate::grammar;
use crate::grammar::{Mode, Parse};
use crate::model;
use crate::model::Tree;
use crate::nar::ErrorView;

verus! {

/// The words of the grammar are short, and told apart where it matters.
pub proof fn lemma_words()
    ensures
        model::text("(").len() == 1,
        model::text(")").len() == 1,
        model::text("").len() == 0,
        model::text("type").len() == 4,
        model::text("regular").len() == 7,
        model::text("executable").len() == 10,
        model::text("contents").len() == 8,
        model::text("symlink").len() == 7,
        model::text("target").len() == 6,
        model::text("directory").len() == 9,
        model::text("entry").len() == 5,
        model::text("name").len() == 4,
        model::text("node").len() == 4,
        model::text("regular") != model::text("symlink"),
{
    reveal_strlit("(");
    reveal_strlit(")");
    reveal_strlit("");
    reveal_strlit("type");
    reveal_strlit("regular");
    reveal_strlit("executable");
    reveal_strlit("contents");
    reveal_strlit("symlink");
    reveal_strlit("target");
    reveal_strlit("directory");
    reveal_strlit("entry");
    reveal_strlit("name");
    reveal_strlit("node");
    vstd::utf8::is_ascii_chars_encode_utf8("("@);
    vstd::utf8::is_ascii_chars_encode_utf8(")"@);
    vstd::utf8::is_ascii_chars_encode_utf8(""@);
    vstd::utf8::is_ascii_chars_encode_utf8("type"@);
    vstd::utf8::is_ascii_chars_encode_utf8("regular"@);
    vstd::utf8::is_ascii_chars_encode_utf8("executable"@);
    vstd::utf8::is_ascii_chars_encode_utf8("contents"@);
    vstd::utf8::is_ascii_chars_encode_utf8("symlink"@);
    vstd::utf8::is_ascii_chars_encode_utf8("target"@);
    vstd::utf8::is_ascii_chars_encode_utf8("directory"@);
    vstd::utf8::is_ascii_chars_encode_utf8("entry"@);
    vstd::utf8::is_ascii_chars_encode_utf8("name"@);
    vstd::utf8::is_ascii_chars_encode_utf8("node"@);
    assert(model::text("regular")[0] == 0x72);
    assert(model::text("symlink")[0] == 0x73);
}

proof fn lemma_control_taken(bytes: Seq<u8>, rest: Seq<u8>, expected: &str, mode: Mode)
    requires
        bytes.len() <= grammar::MAX_CONTROL_TOKEN,
    ensures
        grammar::take_control(model::token(bytes) + rest, expected, mode) == Ok::<_, ErrorView>(
            (bytes, rest),
        ),
{
    reveal(grammar::take_control);
    grammar::lemma_token_taken(bytes, rest);
}

proof fn lemma_word_taken(word: &str, rest: Seq<u8>, mode: Mode)
    requires
        model::text(word).len() <= grammar::MAX_CONTROL_TOKEN,
    ensures
        grammar::take_word(model::word(word) + rest, word, mode) == Ok::<_, ErrorView>(rest),
{
    reveal(grammar::take_word);
    lemma_control_taken(model::text(word), rest, word, mode);
}

proof fn lemma_words_taken(first: &str, second: &str, rest: Seq<u8>, mode: Mode)
    requires
        model::text(first).len() <= grammar::MAX_CONTROL_TOKEN,
        model::text(second).len() <= grammar::MAX_CONTROL_TOKEN,
    ensures
        grammar::take_words(
            model::word(first) + (model::word(second) + rest),
            first,
            second,
            mode,
        ) == Ok::<_, ErrorView>(rest),
{
    lemma_word_taken(first, model::word(second) + rest, mode);
    lemma_word_taken(second, rest, mode);
}

proof fn lemma_metadata_taken(bytes: Seq<u8>, rest: Seq<u8>, mode: Mode)
    requires
        model::fits(bytes),
        mode == Mode::Stream ==> bytes.len() <= model::MAX_METADATA_TOKEN,
    ensures
        grammar::take_metadata(model::token(bytes) + rest, mode) == Ok::<_, ErrorView>(
            (bytes, rest),
        ),
{
    reveal(grammar::take_metadata);
    grammar::lemma_token_taken(bytes, rest);
}

/// A node's type is read.
proof fn lemma_head_taken(kind: &str, rest: Seq<u8>, mode: Mode)
    requires
        model::text(kind).len() <= grammar::MAX_CONTROL_TOKEN,
    ensures
        ({
            let s = model::node_head(kind) + rest;
            let r1 = model::word(kind) + rest;
            &&& grammar::take_words(s, "(", "type", mode) == Ok::<_, ErrorView>(r1)
            &&& grammar::take_control(r1, "regular, symlink or directory", mode) == Ok::<
                _,
                ErrorView,
            >((model::text(kind), rest))
            &&& rest.len() < s.len()
        }),
{
    lemma_words();
    let s = model::node_head(kind) + rest;
    let r1 = model::word(kind) + rest;
    assert(s =~= model::word("(") + (model::word("type") + r1));
    lemma_words_taken("(", "type", r1, mode);
    lemma_control_taken(model::text(kind), rest, "regular, symlink or directory", mode);
    grammar::lemma_take_words_shrinks(s, "(", "type", mode);
    grammar::lemma_take_control_shrinks(r1, "regular, symlink or directory", mode);
}

proof fn lemma_flags_taken(executable: bool, rest: Seq<u8>, mode: Mode)
    ensures
        grammar::take_flags(
            (if executable {
                model::word("executable") + model::word("")
            } else {
                Seq::empty()
            }) + model::word("contents") + rest,
            mode,
        ) == Ok::<_, ErrorView>((executable, rest)),
{
    reveal(grammar::take_flags);
    lemma_words();
    if executable {
        let r1 = model::word("") + (model::word("contents") + rest);
        assert(model::word("executable") + model::word("") + model::word("contents") + rest
            =~= model::word("executable") + r1);
        lemma_control_taken(model::text("executable"), r1, "contents", mode);
        lemma_words_taken("", "contents", rest, mode);
    } else {
        assert(Seq::<u8>::empty() + model::word("contents") + rest =~= model::word("contents")
            + rest);
        lemma_control_taken(model::text("contents"), rest, "contents", mode);
    }
}

proof fn lemma_contents_parsed(
    name: Option<Seq<u8>>,
    executable: bool,
    contents: Seq<u8>,
    rest: Seq<u8>,
    mode: Mode,
)
    requires
        model::fits(contents),
    ensures
        grammar::parse_contents(
            model::token(contents) + (model::word(")") + rest),
            name,
            executable,
            mode,
        ) == grammar::delivered(model::regular_event(name, executable, contents), Ok(rest)),
{
    reveal(grammar::parse_contents);
    lemma_words();
    let after = model::word(")") + rest;
    let s = model::token(contents) + after;
    grammar::lemma_token_taken(contents, after);
    lemma_word_taken(")", rest, mode);
    assert(model::up_to(s.skip(8), contents.len()) =~= contents) by {
        reveal(grammar::take_token);
    }
}

/// The node of a valid tree decodes to the walk over that tree, and what
/// follows the node is left.
pub proof fn lemma_node_parsed(
    tree: Tree,
    name: Option<Seq<u8>>,
    depth: nat,
    rest: Seq<u8>,
    mode: Mode,
)
    requires
        model::valid(tree, depth),
        mode == Mode::Stream ==> model::streamable(tree),
    ensures
        grammar::parse_node(model::node(tree) + rest, name, depth, mode) == (Parse {
            events: model::events(tree, name),
            rest: Ok(rest),
        }),
    decreases tree, 0nat,
{
    lemma_words();
    let s = model::node(tree) + rest;
    match tree {
        Tree::Regular { executable, contents } => {
            let flags = (if executable {
                model::word("executable") + model::word("")
            } else {
                Seq::empty()
            });
            let r2 = model::token(contents) + (model::word(")") + rest);
            let r1 = flags + model::word("contents") + r2;
            assert(s =~= model::node_head("regular") + r1);
            lemma_head_taken("regular", r1, mode);
            lemma_flags_taken(executable, r2, mode);
            lemma_contents_parsed(name, executable, contents, rest, mode);
            reveal(grammar::parse_regular);
        },
        Tree::Symlink { target } => {
            let r3 = model::word(")") + rest;
            let r2 = model::token(target) + r3;
            let r1 = model::word("target") + r2;
            assert(s =~= model::node_head("symlink") + r1);
            lemma_head_taken("symlink", r1, mode);
            lemma_word_taken("target", r2, mode);
            lemma_metadata_taken(target, r3, mode);
            lemma_word_taken(")", rest, mode);
            reveal(grammar::parse_symlink);
        },
        Tree::Directory(children) => {
            let r1 = model::entries(children) + (model::word(")") + rest);
            assert(s =~= model::node_head("directory") + r1);
            lemma_head_taken("directory", r1, mode);
            lemma_entries_parsed(children, None, depth, rest, mode);
        },
    }
}

/// One entry, taken apart from the front.
pub proof fn lemma_entry_split(name: Seq<u8>, node: Seq<u8>, more: Seq<u8>, rest: Seq<u8>)
    ensures
        model::entry_head(name) + node + model::word(")") + more + rest == model::word("entry") + (
        model::word("(") + (model::word("name") + (model::token(name) + (model::word("node") + (node
            + (model::word(")") + (more + rest))))))),
{
    let tail = node + (model::word(")") + (more + rest));
    assert(model::entry_head(name) + node + model::word(")") + more + rest =~= model::entry_head(
        name,
    ) + tail);
    lemma_entry_regrouped(name, tail);
}

/// The head of an entry, put together.
pub proof fn lemma_entry_regrouped(name: Seq<u8>, rest: Seq<u8>)
    ensures
        model::entry_head(name) + rest == model::word("entry") + (model::word("(") + (model::word(
            "name",
        ) + (model::token(name) + (model::word("node") + rest)))),
{
    assert(model::entry_head(name) + rest =~= model::word("entry") + (model::word("(") + (
    model::word("name") + (model::token(name) + (model::word("node") + rest)))));
}

/// The entries of a directory decode to the walks over them.
pub proof fn lemma_entries_parsed(
    children: Seq<(Seq<u8>, Tree)>,
    previous: Option<Seq<u8>>,
    depth: nat,
    rest: Seq<u8>,
    mode: Mode,
)
    requires
        model::valid_children(children, previous, depth + 1),
        mode == Mode::Stream ==> model::streamable_children(children),
    ensures
        grammar::parse_entries(
            model::entries(children) + (model::word(")") + rest),
            previous,
            depth,
            mode,
        ) == (Parse { events: model::child_events(children), rest: Ok(rest) }),
    decreases children, 1nat,
{
    lemma_words();
    let s = model::entries(children) + (model::word(")") + rest);
    if children.len() == 0 {
        assert(s =~= model::word(")") + rest);
        lemma_control_taken(model::text(")"), rest, "entry or )", mode);
    } else {
        let name = children[0].0;
        let tree = children[0].1;
        let more = children.skip(1);
        let r4 = model::entries(more) + (model::word(")") + rest);
        let r3 = model::word(")") + r4;
        let r2 = model::node(tree) + r3;
        let r1 = model::word("(") + (model::word("name") + (model::token(name) + (model::word(
            "node",
        ) + r2)));
        lemma_entry_split(name, model::node(tree), model::entries(more), model::word(")") + rest);
        lemma_control_taken(model::text("entry"), r1, "entry or )", mode);
        assert(grammar::take_entry_head(r1, previous, mode) == Ok::<_, ErrorView>((name, r2))) by {
            reveal(grammar::take_entry_head);
            lemma_words_taken("(", "name", model::token(name) + (model::word("node") + r2), mode);
            lemma_metadata_taken(name, model::word("node") + r2, mode);
            lemma_word_taken("node", r2, mode);
        }
        lemma_node_parsed(tree, Some(name), depth + 1, r3, mode);
        lemma_word_taken(")", r4, mode);
        lemma_entries_parsed(more, Some(name), depth, rest, mode);
        grammar::lemma_parse_one_entry(s, previous, depth, mode);
    }
}

/// Decoding an archive gives back what was encoded.
///
/// From a slice this holds of every valid tree, and from a stream of every
/// valid tree whose names and symlink targets are within the streaming limit.
pub proof fn law_decoding_undoes_encoding(tree: Tree, mode: Mode)
    requires
        model::valid(tree, 0),
        mode == Mode::Stream ==> model::streamable(tree),
    ensures
        grammar::parse_archive(model::archive(tree), mode) == (Parse {
            events: model::events(tree, None),
            rest: Ok(Seq::empty()),
        }),
{
    model::lemma_magic_length();
    grammar::lemma_token_taken(model::magic(), model::node(tree));
    lemma_node_parsed(tree, None, 0, Seq::empty(), mode);
    assert(model::node(tree) + Seq::<u8>::empty() =~= model::node(tree));
}

/// Whatever decodes as a node is the node of a valid tree.
pub proof fn lemma_parsed_node(s: Seq<u8>, name: Option<Seq<u8>>, depth: nat, mode: Mode) -> (tree:
    Tree)
    requires
        grammar::parse_node(s, name, depth, mode).rest is Ok,
    ensures
        model::valid(tree, depth),
        mode == Mode::Stream ==> model::streamable(tree),
        grammar::parse_node(s, name, depth, mode).events == model::events(tree, name),
        s == model::node(tree) + grammar::parse_node(s, name, depth, mode).rest->Ok_0,
    decreases s.len(), 0nat,
{
    let rest = grammar::parse_node(s, name, depth, mode).rest->Ok_0;
    grammar::lemma_take_words_shrinks(s, "(", "type", mode);
    let r1 = grammar::take_words(s, "(", "type", mode)->Ok_0;
    grammar::lemma_take_control_shrinks(r1, "regular, symlink or directory", mode);
    let (kind, r2) = grammar::take_control(r1, "regular, symlink or directory", mode)->Ok_0;
    if kind == model::text("regular") {
        assert(s =~= model::node_head("regular") + r2);
        lemma_parsed_regular(r2, name, mode)
    } else if kind == model::text("symlink") {
        assert(s =~= model::node_head("symlink") + r2);
        lemma_parsed_symlink(r2, name, mode)
    } else {
        assert(s =~= model::node_head("directory") + r2);
        let children = lemma_parsed_entries(r2, None, depth, mode);
        let tree = Tree::Directory(children);
        assert(s =~= model::node(tree) + rest);
        assert(grammar::parse_node(s, name, depth, mode).events =~= model::events(tree, name));
        tree
    }
}

proof fn lemma_parsed_regular(s: Seq<u8>, name: Option<Seq<u8>>, mode: Mode) -> (tree: Tree)
    requires
        grammar::parse_regular(s, name, mode).rest is Ok,
    ensures
        tree is Regular,
        model::fits(tree->contents),
        grammar::parse_regular(s, name, mode).events == model::events(tree, name),
        model::node_head("regular") + s == model::node(tree) + grammar::parse_regular(
            s,
            name,
            mode,
        ).rest->Ok_0,
{
    reveal(grammar::parse_regular);
    reveal(grammar::parse_contents);
    let rest = grammar::parse_regular(s, name, mode).rest->Ok_0;
    grammar::lemma_take_flags_shrinks(s, mode);
    let (executable, r1) = grammar::take_flags(s, mode)->Ok_0;
    grammar::lemma_taken_token(r1);
    let (contents, r2) = grammar::take_token(r1)->Ok_0;
    grammar::lemma_take_word_shrinks(r2, ")", mode);
    assert(model::up_to(r1.skip(8), model::le64_value(r1)) == contents && model::le64_value(r1)
        == contents.len()) by {
        reveal(grammar::take_token);
    }
    let tree = Tree::Regular { executable, contents };
    assert(model::node_head("regular") + s =~= model::node(tree) + rest);
    tree
}

proof fn lemma_parsed_symlink(s: Seq<u8>, name: Option<Seq<u8>>, mode: Mode) -> (tree: Tree)
    requires
        grammar::parse_symlink(s, name, mode).rest is Ok,
    ensures
        tree is Symlink,
        model::fits(tree->target),
        mode == Mode::Stream ==> model::streamable(tree),
        grammar::parse_symlink(s, name, mode).events == model::events(tree, name),
        model::node_head("symlink") + s == model::node(tree) + grammar::parse_symlink(
            s,
            name,
            mode,
        ).rest->Ok_0,
{
    reveal(grammar::parse_symlink);
    let rest = grammar::parse_symlink(s, name, mode).rest->Ok_0;
    grammar::lemma_take_word_shrinks(s, "target", mode);
    let r1 = grammar::take_word(s, "target", mode)->Ok_0;
    grammar::lemma_take_metadata_shrinks(r1, mode);
    let (target, r2) = grammar::take_metadata(r1, mode)->Ok_0;
    grammar::lemma_take_word_shrinks(r2, ")", mode);
    let tree = Tree::Symlink { target };
    assert(model::node_head("symlink") + s =~= model::node(tree) + rest);
    tree
}

/// Whatever decodes as the entries of a directory are those of valid trees.
pub proof fn lemma_parsed_entries(
    s: Seq<u8>,
    previous: Option<Seq<u8>>,
    depth: nat,
    mode: Mode,
) -> (children: Seq<(Seq<u8>, Tree)>)
    requires
        grammar::parse_entries(s, previous, depth, mode).rest is Ok,
    ensures
        model::valid_children(children, previous, depth + 1),
        mode == Mode::Stream ==> model::streamable_children(children),
        grammar::parse_entries(s, previous, depth, mode).events == model::child_events(children),
        s == model::entries(children) + (model::word(")") + grammar::parse_entries(
            s,
            previous,
            depth,
            mode,
        ).rest->Ok_0),
    decreases s.len(), 1nat,
{
    let rest = grammar::parse_entries(s, previous, depth, mode).rest->Ok_0;
    grammar::lemma_take_control_shrinks(s, "entry or )", mode);
    let (got, r1) = grammar::take_control(s, "entry or )", mode)->Ok_0;
    if got == model::text(")") {
        let children: Seq<(Seq<u8>, Tree)> = Seq::empty();
        assert(s =~= model::entries(children) + (model::word(")") + rest));
        children
    } else {
        grammar::lemma_take_entry_head_shrinks(r1, previous, mode);
        grammar::lemma_parse_one_entry(s, previous, depth, mode);
        let (child, r2) = grammar::take_entry_head(r1, previous, mode)->Ok_0;
        let tree = lemma_parsed_node(r2, Some(child), depth + 1, mode);
        let r3 = grammar::parse_node(r2, Some(child), depth + 1, mode).rest->Ok_0;
        grammar::lemma_take_word_shrinks(r3, ")", mode);
        let r4 = grammar::take_word(r3, ")", mode)->Ok_0;
        let more = lemma_parsed_entries(r4, Some(child), depth, mode);
        let children = seq![(child, tree)] + more;
        assert(children.skip(1) =~= more);
        lemma_entry_split(child, model::node(tree), model::entries(more), model::word(")") + rest);
        assert(r1 =~= model::word("(") + (model::word("name") + (model::token(child) + (model::word(
            "node",
        ) + r2))));
        children
    }
}

/// Whatever decodes is an archive, so an archive has one encoding only.
///
/// The decoder accepts nothing but the encoding of a valid tree, and what it
/// delivers is the walk over that tree.
pub proof fn law_accepted_archives_are_canonical(nar: Seq<u8>, mode: Mode) -> (tree: Tree)
    requires
        grammar::parse_archive(nar, mode).rest is Ok,
    ensures
        model::valid(tree, 0),
        mode == Mode::Stream ==> model::streamable(tree),
        nar == model::archive(tree),
        grammar::parse_archive(nar, mode).events == model::events(tree, None),
{
    grammar::lemma_taken_token(nar);
    let (got, rest) = grammar::take_token(nar)->Ok_0;
    let tree = lemma_parsed_node(rest, None, 0, mode);
    let end = grammar::parse_node(rest, None, 0, mode).rest->Ok_0;
    assert(model::node(tree) + end =~= model::node(tree));
    tree
}

}
