//! The token stream as a whole: the sequence of steps the scanner takes
//! over an input, and the laws that hold of it — the spans of the produced
//! tokens partition the consumed input, maximal runs collapse into single
//! tokens, and input made of recognized characters with well-formed
//! numeric runs tokenizes without error.
use crate::input::line_col_of;
use crate::lex::{
    is_num_char, is_recognized_char, is_space_char, is_sym_char, is_sym_start_char,
    lemma_run_end, lemma_step_bounds, run_end, spec_step, valid_num_text, ErrorModel, KindModel,
    LexStep, RunClass,
};
use vstd::prelude::*;

verus! {

/// One item of the token stream: a classified token with its extent, or
/// the error that ended scanning, with the extent the failing step
/// consumed.
pub enum ItemModel {
    Tok(KindModel, nat, nat),
    Fail(ErrorModel, nat, nat),
}

/// The offset where the item's extent begins.
pub open spec fn item_start(it: ItemModel) -> nat {
    match it {
        ItemModel::Tok(k, st, en) => st,
        ItemModel::Fail(e, st, en) => st,
    }
}

/// The offset just past the item's extent.
pub open spec fn item_end(it: ItemModel) -> nat {
    match it {
        ItemModel::Tok(k, st, en) => en,
        ItemModel::Fail(e, st, en) => en,
    }
}

/// The stream of tokens of `s` from offset `i` on: one item per scanning
/// step, ending with the end of the input or with the first error.
pub open spec fn spec_tokenize(s: Seq<char>, i: nat) -> Seq<ItemModel>
    decreases s.len() - i,
{
    match spec_step(s, i) {
        LexStep::End => Seq::empty(),
        LexStep::Tok(k, st, en) => {
            proof {
                lemma_step_bounds(s, i);
            }
            seq![ItemModel::Tok(k, st, en)] + spec_tokenize(s, en)
        },
        LexStep::Fail(e, st, en) => seq![ItemModel::Fail(e, st, en)],
    }
}

/// The shape of every token stream: the first item starts where scanning
/// started; each item ends exactly where the next begins, so a character
/// that ends a run is never consumed by the run's token but opens the next
/// item; extents are non-empty and stay inside the input; only the last
/// item can be an error; and a stream that ends without error reaches the
/// end of the input.
pub proof fn lemma_stream_structure(s: Seq<char>, i: nat)
    requires
        i <= s.len(),
    ensures
        ({
            let items = spec_tokenize(s, i);
            &&& (items.len() == 0 <==> i == s.len())
            &&& (items.len() > 0 ==> item_start(items[0]) == i)
            &&& (forall|j: int|
                0 <= j < items.len() ==> i <= item_start(#[trigger] items[j]) < item_end(
                    items[j],
                ) <= s.len())
            &&& (forall|j: int|
                0 <= j < items.len() - 1 ==> item_end(#[trigger] items[j]) == item_start(
                    items[j + 1],
                ))
            &&& (forall|j: int| 0 <= j < items.len() - 1 ==> #[trigger] items[j] is Tok)
            &&& (items.len() > 0 && items.last() is Tok ==> item_end(items.last()) == s.len())
        }),
    decreases s.len() - i,
{
    lemma_step_bounds(s, i);
    let items = spec_tokenize(s, i);
    match spec_step(s, i) {
        LexStep::End => {},
        LexStep::Tok(k, st, en) => {
            lemma_stream_structure(s, en);
            let rest = spec_tokenize(s, en);
            assert(items == seq![ItemModel::Tok(k, st, en)] + rest);
            assert forall|j: int| 0 <= j < items.len() implies i <= item_start(
                #[trigger] items[j],
            ) < item_end(items[j]) <= s.len() by {
                if j > 0 {
                    assert(items[j] == rest[j - 1]);
                }
            }
            assert forall|j: int| 0 <= j < items.len() - 1 implies item_end(
                #[trigger] items[j],
            ) == item_start(items[j + 1]) by {
                if j > 0 {
                    assert(items[j] == rest[j - 1]);
                    assert(items[j + 1] == rest[j]);
                } else {
                    if rest.len() > 0 {
                        assert(items[1] == rest[0]);
                    }
                }
            }
            assert forall|j: int| 0 <= j < items.len() - 1 implies #[trigger] items[j] is Tok by {
                if j > 0 {
                    assert(items[j] == rest[j - 1]);
                }
            }
            if items.last() is Tok {
                if rest.len() > 0 {
                    assert(items.last() == rest.last());
                }
            }
        },
        LexStep::Fail(e, st, en) => {},
    }
}

/// The source substrings denoted by the spans of the stream's tokens, in
/// order; an error item contributes nothing and ends the walk.
pub open spec fn cat_token_texts(s: Seq<char>, items: Seq<ItemModel>) -> Seq<char>
    decreases items.len(),
{
    if items.len() == 0 {
        Seq::empty()
    } else {
        match items[0] {
            ItemModel::Tok(k, st, en) => s.subrange(st as int, en as int) + cat_token_texts(
                s,
                items.drop_first(),
            ),
            ItemModel::Fail(e, st, en) => Seq::empty(),
        }
    }
}

/// Walking any chain of adjacent items concatenates their substrings into
/// one contiguous substring of the input.
proof fn lemma_cat_texts_chain(s: Seq<char>, items: Seq<ItemModel>, i: nat)
    requires
        i <= s.len(),
        items.len() > 0 ==> item_start(items[0]) == i,
        forall|j: int|
            0 <= j < items.len() ==> item_start(#[trigger] items[j]) < item_end(items[j])
                <= s.len(),
        forall|j: int|
            0 <= j < items.len() - 1 ==> item_end(#[trigger] items[j]) == item_start(
                items[j + 1],
            ),
        forall|j: int| 0 <= j < items.len() - 1 ==> #[trigger] items[j] is Tok,
    ensures
        items.len() == 0 ==> cat_token_texts(s, items) == Seq::<char>::empty(),
        items.len() > 0 ==> i <= item_start(items.last()) && i < item_end(items.last()),
        items.len() > 0 && items.last() is Tok ==> cat_token_texts(s, items) == s.subrange(
            i as int,
            item_end(items.last()) as int,
        ),
        items.len() > 0 && items.last() is Fail ==> cat_token_texts(s, items) == s.subrange(
            i as int,
            item_start(items.last()) as int,
        ),
    decreases items.len(),
{
    if items.len() > 0 {
        let rest = items.drop_first();
        match items[0] {
            ItemModel::Fail(e, st, en) => {
                assert(items.len() == 1);
                assert(s.subrange(i as int, i as int) =~= Seq::<char>::empty());
            },
            ItemModel::Tok(k, st, en) => {
                assert forall|j: int|
                    0 <= j < rest.len() implies item_start(#[trigger] rest[j]) < item_end(
                    rest[j],
                ) <= s.len() by {
                    assert(rest[j] == items[j + 1]);
                }
                assert forall|j: int|
                    0 <= j < rest.len() - 1 implies item_end(#[trigger] rest[j]) == item_start(
                    rest[j + 1],
                ) by {
                    assert(rest[j] == items[j + 1]);
                    assert(rest[j + 1] == items[j + 2]);
                }
                assert forall|j: int| 0 <= j < rest.len() - 1 implies #[trigger] rest[j] is Tok by {
                    assert(rest[j] == items[j + 1]);
                }
                if rest.len() > 0 {
                    assert(rest[0] == items[1]);
                    assert(item_end(items[0]) == item_start(items[1]));
                }
                lemma_cat_texts_chain(s, rest, en);
                if rest.len() == 0 {
                    assert(items.last() == items[0]);
                    assert(cat_token_texts(s, rest) == Seq::<char>::empty());
                    assert(s.subrange(i as int, en as int) + Seq::<char>::empty() =~= s.subrange(
                        i as int,
                        en as int,
                    ));
                } else {
                    assert(items.last() == rest.last());
                    if rest.last() is Tok {
                        assert(s.subrange(i as int, en as int) + s.subrange(
                            en as int,
                            item_end(rest.last()) as int,
                        ) =~= s.subrange(i as int, item_end(rest.last()) as int));
                    } else {
                        assert(s.subrange(i as int, en as int) + s.subrange(
                            en as int,
                            item_start(rest.last()) as int,
                        ) =~= s.subrange(i as int, item_start(rest.last()) as int));
                    }
                }
            },
        }
    }
}

/// Concatenating the source substrings denoted by the tokens' spans, in
/// order, reproduces the input from the point scanning started: in full
/// when no error occurs, and up to the failure point when the stream ends
/// in an error.
pub proof fn lemma_span_partition(s: Seq<char>, i: nat)
    requires
        i <= s.len(),
    ensures
        ({
            let items = spec_tokenize(s, i);
            &&& ((forall|j: int| 0 <= j < items.len() ==> #[trigger] items[j] is Tok)
                ==> cat_token_texts(s, items) == s.subrange(i as int, s.len() as int))
            &&& (items.len() > 0 && items.last() is Fail ==> cat_token_texts(s, items)
                == s.subrange(i as int, item_start(items.last()) as int))
        }),
{
    let items = spec_tokenize(s, i);
    lemma_stream_structure(s, i);
    lemma_cat_texts_chain(s, items, i);
    if items.len() == 0 {
        assert(i == s.len());
        assert(s.subrange(i as int, s.len() as int) =~= Seq::<char>::empty());
    } else {
        if forall|j: int| 0 <= j < items.len() ==> #[trigger] items[j] is Tok {
            assert(items.last() is Tok);
            assert(item_end(items.last()) == s.len());
        }
    }
}

/// The spans of a whole tokenization partition the input: their substrings
/// concatenate back to the input itself, or, when scanning ends in an
/// error, to the input up to the failure point.
pub proof fn lemma_tokens_cover_input(s: Seq<char>)
    ensures
        ({
            let items = spec_tokenize(s, 0);
            &&& ((forall|j: int| 0 <= j < items.len() ==> #[trigger] items[j] is Tok)
                ==> cat_token_texts(s, items) == s)
            &&& (items.len() > 0 && items.last() is Fail ==> cat_token_texts(s, items)
                == s.subrange(0, item_start(items.last()) as int))
        }),
{
    lemma_span_partition(s, 0);
    assert(s.subrange(0, s.len() as int) =~= s);
}

/// A maximal run of whitespace other than newline collapses into exactly
/// one Space token, however long it is: the token's extent holds only such
/// whitespace, and whatever follows it does not continue the run.
pub proof fn lemma_space_collapsing(s: Seq<char>, i: nat)
    requires
        i < s.len(),
        is_space_char(s[i as int]),
    ensures
        ({
            let en = run_end(s, (i + 1) as nat, RunClass::Space);
            &&& spec_step(s, i) == LexStep::Tok(KindModel::Space, i, en)
            &&& forall|j: int| i <= j < en ==> is_space_char(#[trigger] s[j])
            &&& (en == s.len() || !is_space_char(s[en as int]))
        }),
{
    lemma_run_end(s, (i + 1) as nat, RunClass::Space);
}

/// A `#` opens exactly one Comment token running to the next newline or
/// the end of the input: its text excludes both the `#` and the
/// terminating newline, and holds no newline at all.
pub proof fn lemma_comment_collapsing(s: Seq<char>, i: nat)
    requires
        i < s.len(),
        s[i as int] == '#',
    ensures
        ({
            let en = run_end(s, (i + 1) as nat, RunClass::Comment);
            let text = s.subrange(i + 1 as int, en as int);
            &&& spec_step(s, i) == LexStep::Tok(KindModel::Comment(text), i, en)
            &&& forall|j: int| 0 <= j < text.len() ==> #[trigger] text[j] != '\n'
            &&& (en == s.len() || s[en as int] == '\n')
        }),
{
    lemma_run_end(s, (i + 1) as nat, RunClass::Comment);
    let en = run_end(s, (i + 1) as nat, RunClass::Comment);
    let text = s.subrange(i + 1 as int, en as int);
    assert forall|j: int| 0 <= j < text.len() implies #[trigger] text[j] != '\n' by {
        assert(text[j] == s[i + 1 + j]);
    }
}

/// A digit or dot opens a maximal digit/dot run: a well-formed run yields
/// one Num token whose raw text covers exactly the run, and a malformed
/// one fails with InvalidNum at the run's start, carrying the whole run as
/// its raw text.
pub proof fn lemma_num_token(s: Seq<char>, i: nat)
    requires
        i < s.len(),
        is_num_char(s[i as int]),
    ensures
        ({
            let en = run_end(s, (i + 1) as nat, RunClass::Num);
            let text = s.subrange(i as int, en as int);
            &&& (valid_num_text(text) ==> spec_step(s, i) == LexStep::Tok(
                KindModel::Num(text),
                i,
                en,
            ))
            &&& (!valid_num_text(text) ==> spec_step(s, i) == LexStep::Fail(
                ErrorModel::InvalidNum(line_col_of(s, i as int), text),
                i,
                en,
            ))
            &&& forall|j: int| i <= j < en ==> is_num_char(#[trigger] s[j])
            &&& (en == s.len() || !is_num_char(s[en as int]))
        }),
{
    lemma_run_end(s, (i + 1) as nat, RunClass::Num);
}

/// Whether every character of `s` belongs to some recognized lexical
/// class.
pub open spec fn all_recognized(s: Seq<char>) -> bool {
    forall|j: int| 0 <= j < s.len() ==> is_recognized_char(#[trigger] s[j])
}

/// Whether the item records an unrecognized-character failure.
pub open spec fn is_char_fail(it: ItemModel) -> bool {
    it matches ItemModel::Fail(e, st, en) && e is InvalidChar
}

/// Input made only of recognized characters never fails on a character:
/// the stream can still end in an InvalidNum error, but never in an
/// InvalidChar one.
pub proof fn lemma_recognized_no_invalid_char(s: Seq<char>, i: nat)
    requires
        i <= s.len(),
        all_recognized(s),
    ensures
        forall|j: int|
            0 <= j < spec_tokenize(s, i).len() ==> !is_char_fail(
                #[trigger] spec_tokenize(s, i)[j],
            ),
    decreases s.len() - i,
{
    lemma_step_bounds(s, i);
    let items = spec_tokenize(s, i);
    match spec_step(s, i) {
        LexStep::End => {},
        LexStep::Tok(k, st, en) => {
            lemma_recognized_no_invalid_char(s, en);
            let rest = spec_tokenize(s, en);
            assert forall|j: int| 0 <= j < items.len() implies !is_char_fail(
                #[trigger] items[j],
            ) by {
                if j > 0 {
                    assert(items[j] == rest[j - 1]);
                }
            }
        },
        LexStep::Fail(e, st, en) => {
            assert(is_recognized_char(s[i as int]));
        },
    }
}

/// Whether the scanner could open a numeric run at offset `j`: the start
/// of the input, a spot no numeric run reaches from the left, or a dot
/// directly after a symbol run.
pub open spec fn num_start_boundary(s: Seq<char>, j: int) -> bool {
    j == 0 || !is_num_char(s[j - 1]) || (s[j] == '.' && is_sym_char(s[j - 1]))
}

/// Whether every numeric run the scanner could open in `s` is a
/// well-formed literal.
pub open spec fn num_runs_ok(s: Seq<char>) -> bool {
    forall|j: int|
        0 <= j < s.len() && is_num_char(#[trigger] s[j]) && num_start_boundary(s, j)
            ==> valid_num_text(
            s.subrange(j, run_end(s, (j + 1) as nat, RunClass::Num) as int),
        )
}

proof fn lemma_clean_rec(s: Seq<char>, i: nat)
    requires
        i <= s.len(),
        all_recognized(s),
        num_runs_ok(s),
        i < s.len() && is_num_char(s[i as int]) ==> num_start_boundary(s, i as int),
    ensures
        forall|j: int|
            0 <= j < spec_tokenize(s, i).len() ==> #[trigger] spec_tokenize(s, i)[j] is Tok,
    decreases s.len() - i,
{
    lemma_step_bounds(s, i);
    let items = spec_tokenize(s, i);
    match spec_step(s, i) {
        LexStep::End => {},
        LexStep::Tok(k, st, en) => {
            let c = s[i as int];
            if c == '#' {
                lemma_run_end(s, (i + 1) as nat, RunClass::Comment);
            } else if is_num_char(c) {
                lemma_run_end(s, (i + 1) as nat, RunClass::Num);
            } else if is_sym_start_char(c) {
                lemma_run_end(s, (i + 1) as nat, RunClass::Sym);
                if en < s.len() && is_num_char(s[en as int]) {
                    assert(!is_sym_char(s[en as int]));
                    assert(s[en as int] == '.');
                    if en - 1 > i {
                        assert(is_sym_char(s[en - 1]));
                    }
                }
            } else if is_space_char(c) {
                lemma_run_end(s, (i + 1) as nat, RunClass::Space);
                if en < s.len() && en - 1 > i {
                    assert(is_space_char(s[en - 1]));
                }
            }
            lemma_clean_rec(s, en);
            let rest = spec_tokenize(s, en);
            assert forall|j: int| 0 <= j < items.len() implies #[trigger] items[j] is Tok by {
                if j > 0 {
                    assert(items[j] == rest[j - 1]);
                }
            }
        },
        LexStep::Fail(e, st, en) => {
            assert(is_recognized_char(s[i as int]));
            assert(is_num_char(s[i as int]));
            assert(false);
        },
    }
}

/// Input made only of recognized characters, in which every numeric run
/// the scanner could open is a well-formed literal, tokenizes without
/// error: the stream holds tokens only.
pub proof fn lemma_clean_input_all_ok(s: Seq<char>)
    requires
        all_recognized(s),
        num_runs_ok(s),
    ensures
        forall|j: int|
            0 <= j < spec_tokenize(s, 0).len() ==> #[trigger] spec_tokenize(s, 0)[j] is Tok,
{
    lemma_clean_rec(s, 0);
}

} // verus!
