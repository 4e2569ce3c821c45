//! An archive that breaks off is told from one that does not.

use vstd::prelude::*;

use crate::grammar;
use crate::grammar::{Mode, Taken};
use crate::model;
use crate::nar::ErrorView;

verus! {

/// `got` is what reading comes to where `s` breaks off after `k` bytes, given
/// that of all of `s` it left `rest`: the end comes too early, or not.
pub open spec fn cut(
    s: Seq<u8>,
    rest: Seq<u8>,
    k: int,
    got: Result<Seq<u8>, ErrorView>,
) -> bool {
    let n = s.len() - rest.len();
    if k < n {
        got == Err::<Seq<u8>, _>(ErrorView::UnexpectedEof)
    } else {
        got == Ok::<_, ErrorView>(rest.take(k - n))
    }
}

/// The same of a reading that gives `bytes`.
pub open spec fn cut_taking(
    s: Seq<u8>,
    bytes: Seq<u8>,
    rest: Seq<u8>,
    k: int,
    got: Taken,
) -> bool {
    let n = s.len() - rest.len();
    if k < n {
        got == Err::<(Seq<u8>, Seq<u8>), _>(ErrorView::UnexpectedEof)
    } else {
        got == Ok::<_, ErrorView>((bytes, rest.take(k - n)))
    }
}

proof fn lemma_token_cut(s: Seq<u8>, k: int)
    requires
        grammar::take_token(s) is Ok,
        0 <= k <= s.len(),
    ensures
        cut_taking(
            s,
            grammar::take_token(s)->Ok_0.0,
            grammar::take_token(s)->Ok_0.1,
            k,
            grammar::take_token(s.take(k)),
        ),
        k >= 8 ==> model::le64_value(s.take(k)) == model::le64_value(s),
{
    reveal(grammar::take_token);
    let (bytes, rest) = grammar::take_token(s)->Ok_0;
    let n = model::le64_value(s);
    let p = model::padding(n);
    let body = s.skip(8);
    let after = body.skip(n as int);
    let short = s.take(k);
    if k >= 8 {
        assert(short[0] == s[0] && short[1] == s[1] && short[2] == s[2] && short[3] == s[3]
            && short[4] == s[4] && short[5] == s[5] && short[6] == s[6] && short[7] == s[7]);
        assert(model::le64_value(short) == n);
        let short_body = short.skip(8);
        assert(short_body =~= body.take(k - 8));
        if short_body.len() >= n {
            assert(short_body.take(n as int) =~= body.take(n as int));
            let short_after = short_body.skip(n as int);
            assert(short_after =~= after.take(k - 8 - n));
            if short_after.len() >= p {
                assert(short_after.take(p as int) =~= after.take(p as int));
                assert(short_after.skip(p as int) =~= rest.take(k - 8 - n - p));
            }
        }
    }
}

proof fn lemma_control_cut(s: Seq<u8>, expected: &str, mode: Mode, k: int)
    requires
        grammar::take_control(s, expected, mode) is Ok,
        0 <= k <= s.len(),
    ensures
        cut_taking(
            s,
            grammar::take_control(s, expected, mode)->Ok_0.0,
            grammar::take_control(s, expected, mode)->Ok_0.1,
            k,
            grammar::take_control(s.take(k), expected, mode),
        ),
{
    reveal(grammar::take_control);
    lemma_token_cut(s, k);
    grammar::lemma_taken_token(s);
}

proof fn lemma_metadata_cut(s: Seq<u8>, mode: Mode, k: int)
    requires
        grammar::take_metadata(s, mode) is Ok,
        0 <= k <= s.len(),
    ensures
        cut_taking(
            s,
            grammar::take_metadata(s, mode)->Ok_0.0,
            grammar::take_metadata(s, mode)->Ok_0.1,
            k,
            grammar::take_metadata(s.take(k), mode),
        ),
{
    reveal(grammar::take_metadata);
    lemma_token_cut(s, k);
    grammar::lemma_taken_token(s);
}

proof fn lemma_word_cut(s: Seq<u8>, expected: &str, mode: Mode, k: int)
    requires
        grammar::take_word(s, expected, mode) is Ok,
        0 <= k <= s.len(),
    ensures
        cut(
            s,
            grammar::take_word(s, expected, mode)->Ok_0,
            k,
            grammar::take_word(s.take(k), expected, mode),
        ),
{
    reveal(grammar::take_word);
    lemma_control_cut(s, expected, mode, k);
}

proof fn lemma_words_cut(s: Seq<u8>, first: &str, second: &str, mode: Mode, k: int)
    requires
        grammar::take_words(s, first, second, mode) is Ok,
        0 <= k <= s.len(),
    ensures
        cut(
            s,
            grammar::take_words(s, first, second, mode)->Ok_0,
            k,
            grammar::take_words(s.take(k), first, second, mode),
        ),
{
    let r1 = grammar::take_word(s, first, mode)->Ok_0;
    let n = s.len() - r1.len();
    grammar::lemma_take_word_shrinks(s, first, mode);
    grammar::lemma_take_word_shrinks(r1, second, mode);
    lemma_word_cut(s, first, mode, k);
    if k >= n {
        lemma_word_cut(r1, second, mode, k - n);
    }
}

proof fn lemma_flags_cut(s: Seq<u8>, mode: Mode, k: int)
    requires
        grammar::take_flags(s, mode) is Ok,
        0 <= k <= s.len(),
    ensures
        ({
            let (executable, rest) = grammar::take_flags(s, mode)->Ok_0;
            let n = s.len() - rest.len();
            grammar::take_flags(s.take(k), mode) == (if k < n {
                Err::<(bool, Seq<u8>), _>(ErrorView::UnexpectedEof)
            } else {
                Ok((executable, rest.take(k - n)))
            })
        }),
{
    reveal(grammar::take_flags);
    let (got, r1) = grammar::take_control(s, "contents", mode)->Ok_0;
    let n = s.len() - r1.len();
    grammar::lemma_take_control_shrinks(s, "contents", mode);
    lemma_control_cut(s, "contents", mode, k);
    if got == model::text("executable") {
        grammar::lemma_take_words_shrinks(r1, "", "contents", mode);
        if k >= n {
            lemma_words_cut(r1, "", "contents", mode, k - n);
        }
    }
}

proof fn lemma_entry_head_cut(s: Seq<u8>, previous: Option<Seq<u8>>, mode: Mode, k: int)
    requires
        grammar::take_entry_head(s, previous, mode) is Ok,
        0 <= k <= s.len(),
    ensures
        cut_taking(
            s,
            grammar::take_entry_head(s, previous, mode)->Ok_0.0,
            grammar::take_entry_head(s, previous, mode)->Ok_0.1,
            k,
            grammar::take_entry_head(s.take(k), previous, mode),
        ),
{
    reveal(grammar::take_entry_head);
    let r1 = grammar::take_words(s, "(", "name", mode)->Ok_0;
    let n1 = s.len() - r1.len();
    let (child, r2) = grammar::take_metadata(r1, mode)->Ok_0;
    let n2 = r1.len() - r2.len();
    grammar::lemma_take_words_shrinks(s, "(", "name", mode);
    grammar::lemma_take_metadata_shrinks(r1, mode);
    grammar::lemma_take_word_shrinks(r2, "node", mode);
    lemma_words_cut(s, "(", "name", mode, k);
    if k >= n1 {
        lemma_metadata_cut(r1, mode, k - n1);
        if k >= n1 + n2 {
            lemma_word_cut(r2, "node", mode, k - n1 - n2);
        }
    }
}

proof fn lemma_regular_cut(s: Seq<u8>, name: Option<Seq<u8>>, mode: Mode, k: int)
    requires
        grammar::parse_regular(s, name, mode).rest is Ok,
        0 <= k <= s.len(),
    ensures
        cut(
            s,
            grammar::parse_regular(s, name, mode).rest->Ok_0,
            k,
            grammar::parse_regular(s.take(k), name, mode).rest,
        ),
{
    reveal(grammar::parse_regular);
    reveal(grammar::parse_contents);
    let (executable, r1) = grammar::take_flags(s, mode)->Ok_0;
    let n1 = s.len() - r1.len();
    let (contents, r2) = grammar::take_token(r1)->Ok_0;
    let n2 = r1.len() - r2.len();
    grammar::lemma_take_flags_shrinks(s, mode);
    grammar::lemma_taken_token(r1);
    grammar::lemma_take_word_shrinks(r2, ")", mode);
    lemma_flags_cut(s, mode, k);
    if k >= n1 {
        lemma_token_cut(r1, k - n1);
        if k >= n1 + n2 {
            lemma_word_cut(r2, ")", mode, k - n1 - n2);
        }
    }
}

proof fn lemma_symlink_cut(s: Seq<u8>, name: Option<Seq<u8>>, mode: Mode, k: int)
    requires
        grammar::parse_symlink(s, name, mode).rest is Ok,
        0 <= k <= s.len(),
    ensures
        cut(
            s,
            grammar::parse_symlink(s, name, mode).rest->Ok_0,
            k,
            grammar::parse_symlink(s.take(k), name, mode).rest,
        ),
{
    reveal(grammar::parse_symlink);
    let r1 = grammar::take_word(s, "target", mode)->Ok_0;
    let n1 = s.len() - r1.len();
    let (target, r2) = grammar::take_metadata(r1, mode)->Ok_0;
    let n2 = r1.len() - r2.len();
    grammar::lemma_take_word_shrinks(s, "target", mode);
    grammar::lemma_take_metadata_shrinks(r1, mode);
    grammar::lemma_take_word_shrinks(r2, ")", mode);
    lemma_word_cut(s, "target", mode, k);
    if k >= n1 {
        lemma_metadata_cut(r1, mode, k - n1);
        if k >= n1 + n2 {
            lemma_word_cut(r2, ")", mode, k - n1 - n2);
        }
    }
}

proof fn lemma_node_cut(s: Seq<u8>, name: Option<Seq<u8>>, depth: nat, mode: Mode, k: int)
    requires
        grammar::parse_node(s, name, depth, mode).rest is Ok,
        0 <= k <= s.len(),
    ensures
        cut(
            s,
            grammar::parse_node(s, name, depth, mode).rest->Ok_0,
            k,
            grammar::parse_node(s.take(k), name, depth, mode).rest,
        ),
    decreases s.len(), 0nat,
{
    let r1 = grammar::take_words(s, "(", "type", mode)->Ok_0;
    let n1 = s.len() - r1.len();
    let (kind, r2) = grammar::take_control(r1, "regular, symlink or directory", mode)->Ok_0;
    let n2 = r1.len() - r2.len();
    grammar::lemma_take_words_shrinks(s, "(", "type", mode);
    grammar::lemma_take_control_shrinks(r1, "regular, symlink or directory", mode);
    grammar::lemma_parse_node_shrinks(s, name, depth, mode);
    lemma_words_cut(s, "(", "type", mode, k);
    if k >= n1 {
        lemma_control_cut(r1, "regular, symlink or directory", mode, k - n1);
        if k >= n1 + n2 {
            let m = k - n1 - n2;
            if kind == model::text("regular") {
                lemma_regular_cut(r2, name, mode, m);
            } else if kind == model::text("symlink") {
                lemma_symlink_cut(r2, name, mode, m);
            } else {
                lemma_entries_cut(r2, None, depth, mode, m);
            }
        } else {
            lemma_leaves_less(r2, name, depth, mode);
        }
    } else {
        lemma_leaves_less(r2, name, depth, mode);
    }
}

/// What a node's contents leave is no more than what they start from.
proof fn lemma_leaves_less(s: Seq<u8>, name: Option<Seq<u8>>, depth: nat, mode: Mode)
    ensures
        grammar::parse_regular(s, name, mode).rest matches Ok(rest) ==> rest.len() <= s.len(),
        grammar::parse_symlink(s, name, mode).rest matches Ok(rest) ==> rest.len() <= s.len(),
        grammar::parse_entries(s, None, depth, mode).rest matches Ok(rest) ==> rest.len()
            <= s.len(),
{
    grammar::lemma_parse_entries_shrinks(s, None, depth, mode);
    reveal(grammar::parse_regular);
    reveal(grammar::parse_contents);
    reveal(grammar::parse_symlink);
    grammar::lemma_take_flags_shrinks(s, mode);
    if let Ok((_, r1)) = grammar::take_flags(s, mode) {
        grammar::lemma_taken_token(r1);
        if let Ok((_, r2)) = grammar::take_token(r1) {
            grammar::lemma_take_word_shrinks(r2, ")", mode);
        }
    }
    grammar::lemma_take_word_shrinks(s, "target", mode);
    if let Ok(r1) = grammar::take_word(s, "target", mode) {
        grammar::lemma_take_metadata_shrinks(r1, mode);
        if let Ok((_, r2)) = grammar::take_metadata(r1, mode) {
            grammar::lemma_take_word_shrinks(r2, ")", mode);
        }
    }
}

proof fn lemma_entries_cut(
    s: Seq<u8>,
    previous: Option<Seq<u8>>,
    depth: nat,
    mode: Mode,
    k: int,
)
    requires
        grammar::parse_entries(s, previous, depth, mode).rest is Ok,
        0 <= k <= s.len(),
    ensures
        cut(
            s,
            grammar::parse_entries(s, previous, depth, mode).rest->Ok_0,
            k,
            grammar::parse_entries(s.take(k), previous, depth, mode).rest,
        ),
    decreases s.len(), 1nat,
{
    let (got, r1) = grammar::take_control(s, "entry or )", mode)->Ok_0;
    let n1 = s.len() - r1.len();
    grammar::lemma_take_control_shrinks(s, "entry or )", mode);
    lemma_control_cut(s, "entry or )", mode, k);
    if got != model::text(")") {
        let (child, r2) = grammar::take_entry_head(r1, previous, mode)->Ok_0;
        let n2 = r1.len() - r2.len();
        let inner = grammar::parse_node(r2, Some(child), depth + 1, mode);
        grammar::lemma_parse_one_entry(s, previous, depth, mode);
        grammar::lemma_take_entry_head_shrinks(r1, previous, mode);
        grammar::lemma_parse_node_shrinks(r2, Some(child), depth + 1, mode);
        let r3 = inner.rest->Ok_0;
        let n3 = r2.len() - r3.len();
        grammar::lemma_take_word_shrinks(r3, ")", mode);
        let r4 = grammar::take_word(r3, ")", mode)->Ok_0;
        let n4 = r3.len() - r4.len();
        grammar::lemma_parse_entries_shrinks(r4, Some(child), depth, mode);
        if k >= n1 {
            lemma_entry_head_cut(r1, previous, mode, k - n1);
            if k >= n1 + n2 {
                lemma_node_cut(r2, Some(child), depth + 1, mode, k - n1 - n2);
                let short = s.take(k);
                grammar::lemma_parse_one_entry(short, previous, depth, mode);
                if k >= n1 + n2 + n3 {
                    lemma_word_cut(r3, ")", mode, k - n1 - n2 - n3);
                    if k >= n1 + n2 + n3 + n4 {
                        lemma_entries_cut(r4, Some(child), depth, mode, k - n1 - n2 - n3 - n4);
                    }
                }
            }
        }
    }
}

/// Every truncation of an accepted archive is an error: it ends too early, or
/// within its magic.
pub proof fn law_truncated_archives_are_rejected(nar: Seq<u8>, mode: Mode, k: int)
    requires
        grammar::parse_archive(nar, mode).rest is Ok,
        0 <= k < nar.len(),
    ensures
        grammar::parse_archive(nar.take(k), mode).rest == Err::<Seq<u8>, _>(
            if k < model::token(model::magic()).len() {
                ErrorView::BadMagic
            } else {
                ErrorView::UnexpectedEof
            },
        ),
{
    let (magic, rest) = grammar::take_token(nar)->Ok_0;
    let n = nar.len() - rest.len();
    grammar::lemma_taken_token(nar);
    lemma_token_cut(nar, k);
    if k >= n {
        lemma_node_cut(rest, None, 0, mode, k - n);
    }
}

}
