//! What holds of the arguments of every text, and of every state of them.
use crate::args::{arguments, held_in, in_order, is_argument, ArgsView};
use crate::error::Error;
use crate::lexer::{
    end_at, lemma_end_at, lemma_token_at, literals, token_at, tokens, tokens_from,
};
use crate::parse::FromText;
use crate::text::byte_offset;
use crate::token::TokenView;
use vstd::prelude::*;

verus! {

/// Every token of a text, delimiters included, stands in the text at its position, byte for
/// byte and between two character boundaries, whatever the width of the characters around it;
/// and a quoted token holds both its quotes.
pub proof fn lemma_tokens_lie_in_text(text: Seq<char>, delims: Set<char>, from: int)
    ensures
        forall|i: int|
            0 <= i < tokens_from(text, delims, from).len() ==> {
                let token = #[trigger] tokens_from(text, delims, from)[i];
                token.lies_in(text) && token.well_quoted()
            },
    decreases text.len() - from,
{
    if 0 <= from < text.len() {
        lemma_end_at(text, delims, from);
        lemma_token_at(text, delims, from);
        lemma_tokens_lie_in_text(text, delims, end_at(text, delims, from));
    }
}

/// The tokens of a text, delimiters included, make up the text: their literals, one after the
/// other, are the text, with nothing lost and nothing added.
pub proof fn lemma_tokens_cover_text(text: Seq<char>, delims: Set<char>, from: int)
    requires
        0 <= from <= text.len(),
    ensures
        literals(tokens_from(text, delims, from)) == text.skip(from),
    decreases text.len() - from,
{
    if from < text.len() {
        let next = end_at(text, delims, from);
        let all = tokens_from(text, delims, from);
        lemma_end_at(text, delims, from);
        lemma_tokens_cover_text(text, delims, next);
        assert(all.drop_first() =~= tokens_from(text, delims, next));
    }
}

/// The tokens of a text stand in it one after the other, none before the character that
/// they are read from.
pub proof fn lemma_tokens_in_order(text: Seq<char>, delims: Set<char>, from: int)
    ensures
        in_order(tokens_from(text, delims, from)),
        forall|i: int|
            0 <= i < tokens_from(text, delims, from).len() ==> byte_offset(text, from) <= (
            #[trigger] tokens_from(text, delims, from)[i]).pos,
    decreases text.len() - from,
{
    if 0 <= from < text.len() {
        lemma_end_at(text, delims, from);
        lemma_token_at(text, delims, from);
        lemma_tokens_in_order(text, delims, end_at(text, delims, from));
    }
}

/// What is left of tokens in order is in order.
pub proof fn lemma_filter_in_order(tokens: Seq<TokenView>, keep: spec_fn(TokenView) -> bool)
    requires
        in_order(tokens),
    ensures
        in_order(tokens.filter(keep)),
    decreases tokens.len(),
{
    reveal(Seq::filter);
    if tokens.len() > 0 {
        let front = tokens.drop_last();
        let kept = front.filter(keep);
        lemma_filter_in_order(front, keep);
        if keep(tokens.last()) {
            let all = kept.push(tokens.last());
            assert forall|i: int, j: int| 0 <= i < j < all.len() implies (#[trigger] all[i]).end()
                <= (#[trigger] all[j]).pos by {
                if j >= kept.len() {
                    front.lemma_filter_contains_rev(keep, kept[i]);
                }
            }
        }
    }
}

/// No argument of a text is a delimiter, every argument stands in the text at its position,
/// byte for byte and between two character boundaries, and the arguments are in the order of
/// the text.
pub proof fn lemma_arguments_held(text: Seq<char>, delims: Set<char>)
    ensures
        forall|i: int|
            0 <= i < arguments(text, delims).len() ==> held_in(
                #[trigger] arguments(text, delims)[i],
                text,
            ),
        ArgsView::initial(text, delims).wf(),
{
    let all = tokens(text, delims);
    let kept = arguments(text, delims);
    lemma_tokens_lie_in_text(text, delims, 0);
    lemma_tokens_in_order(text, delims, 0);
    lemma_filter_in_order(all, is_argument());
    assert forall|i: int| 0 <= i < kept.len() implies held_in(#[trigger] kept[i], text) by {
        all.lemma_filter_contains_rev(is_argument(), kept[i]);
    }
}

/// The first token of a text that starts with no delimiter is its first argument.
pub proof fn lemma_first_argument(text: Seq<char>, delims: Set<char>)
    requires
        text.len() > 0,
        !delims.contains(text[0]),
    ensures
        arguments(text, delims).len() > 0,
        arguments(text, delims)[0] == token_at(text, delims, 0),
{
    reveal_with_fuel(Seq::filter, 2);
}

/// Right after the arguments of a text were made, the rest is the whole text: if the text is
/// empty or starts with no delimiter.
pub proof fn lemma_rest_of_initial(text: Seq<char>, delims: Set<char>)
    requires
        text.len() == 0 || !delims.contains(text[0]),
    ensures
        ArgsView::initial(text, delims).rest() == text,
{
    if text.len() > 0 {
        lemma_first_argument(text, delims);
    }
}

/// Reading the argument under the cursor in place can give but one result: what it gives once
/// it gives again, as long as the arguments stay as they are.
pub proof fn lemma_read_repeats<T: FromText>(
    before: ArgsView,
    after: ArgsView,
    quoted: bool,
    first: Result<T::V, Error<<T::Err as View>::V>>,
    second: Result<T::V, Error<<T::Err as View>::V>>,
)
    requires
        first == before.read::<T>(quoted),
        after == before,
        second == after.read::<T>(quoted),
    ensures
        first == second,
{
}

/// A search that takes nothing out can give but one result: what it gives once it gives
/// again, as long as the arguments stay as they are.
pub proof fn lemma_find_repeats<T: FromText>(
    before: ArgsView,
    after: ArgsView,
    first: Result<T::V, Error<<T::Err as View>::V>>,
    second: Result<T::V, Error<<T::Err as View>::V>>,
)
    requires
        first == before.find::<T>(),
        after == before,
        second == after.find::<T>(),
    ensures
        first == second,
{
}

/// A step back from the first argument changes nothing.
pub proof fn lemma_rewind_at_start(args: ArgsView)
    requires
        args.cursor == 0,
    ensures
        args.rewind() == args,
{
}

/// Where a search finds an argument, that argument is the first that the type accepts, and
/// taking it out leaves one argument less, all the others in their order, and a valid state.
pub proof fn lemma_after_find<T: FromText>(args: ArgsView)
    requires
        args.wf(),
    ensures
        args.after_find::<T>().wf(),
        args.find::<T>() is Ok <==> exists|i: int|
            0 <= i < args.tokens.len() && T::parse_spec(#[trigger] args.tokens[i].unquoted()) is Ok,
        args.find::<T>() is Ok ==> args.after_find::<T>().tokens.len() + 1 == args.tokens.len(),
        args.find::<T>() is Ok ==> args.after_find::<T>().cursor == 0,
        !(args.find::<T>() is Ok) ==> args.after_find::<T>() == args && args.find::<T>() == Err::<
            T::V,
            Error<<T::Err as View>::V>,
        >(Error::Eos),
{
    lemma_first_accepted::<T>(args, 0);
}

/// What [`ArgsView::first_accepted`] gives is an argument that the type accepts, and the type
/// accepts none before it.
pub proof fn lemma_first_accepted<T: FromText>(args: ArgsView, from: int)
    requires
        0 <= from <= args.tokens.len(),
    ensures
        from <= args.first_accepted::<T>(from) <= args.tokens.len(),
        args.first_accepted::<T>(from) < args.tokens.len() ==> T::parse_spec(
            args.tokens[args.first_accepted::<T>(from)].unquoted(),
        ) is Ok,
        forall|k: int|
            from <= k < args.first_accepted::<T>(from) ==> !(T::parse_spec(
                #[trigger] args.tokens[k].unquoted(),
            ) is Ok),
    decreases args.tokens.len() - from,
{
    if from < args.tokens.len() && !(T::parse_spec(args.tokens[from].unquoted()) is Ok) {
        lemma_first_accepted::<T>(args, from + 1);
    }
}

} // verus!
