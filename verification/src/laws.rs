//! What holds of every rewrite, stated over the mathematical trees and proved.

use crate::highlight::Request;
use crate::rewrite::{is_rewrite_of, lemma_request_of_code_block, requests, substituted};
use crate::tree::{
    lemma_same_shape_symmetric, lemma_same_shape_transitive, lemma_shape_and_values_determine,
    preorder, Tree, Value,
};
use vstd::prelude::*;

verus! {

/// How many code blocks stand before position `i` in a pre-order of values.
/// This is the index of the request, and of the answer, of a code block at `i`.
pub open spec fn code_blocks_before(values: Seq<Value>, i: int) -> int {
    requests(values.take(i)).len() as int
}

/// The request at index `k` is that of a code block among the values.
pub open spec fn answers_code_block(values: Seq<Value>, k: int) -> bool {
    exists|i: int|
        0 <= i < values.len() && values[i] is CodeBlock && #[trigger] code_blocks_before(values, i)
            == k
}

/// A tree without code blocks gives the highlighter nothing to do and is
/// rewritten to itself, so whatever serializer follows gives the text that it
/// gives for the tree as it was.
pub proof fn law_identity_without_code_blocks(
    source: Tree,
    markups: Seq<Seq<char>>,
    result: Tree,
    serialize: spec_fn(Tree) -> Seq<char>,
)
    requires
        forall|i: int| 0 <= i < preorder(source).len() ==> !(preorder(source)[i] is CodeBlock),
        is_rewrite_of(result, source, markups),
    ensures
        requests(preorder(source)).len() == 0,
        result == source,
        serialize(result) == serialize(source),
{
    if requests(preorder(source)).len() > 0 {
        let i = lemma_code_block_of_request(preorder(source), 0);
    }
    assert(substituted(preorder(source), markups) =~= preorder(source));
    lemma_shape_and_values_determine(result, source);
}

/// After a rewrite no code block is left at any position of the tree: where
/// one stood there is raw markup, and every other value is what it was.
pub proof fn law_exhaustive_conversion(source: Tree, markups: Seq<Seq<char>>, result: Tree)
    requires
        is_rewrite_of(result, source, markups),
    ensures
        preorder(result).len() == preorder(source).len(),
        forall|i: int|
            0 <= i < preorder(result).len() ==> !(#[trigger] preorder(result)[i] is CodeBlock),
        forall|i: int|
            0 <= i < preorder(source).len() && preorder(source)[i] is CodeBlock ==> (
            #[trigger] preorder(result)[i]) is HtmlBlock,
        forall|i: int|
            0 <= i < preorder(source).len() && !(preorder(source)[i] is CodeBlock)
                ==> #[trigger] preorder(result)[i] == preorder(source)[i],
{
}

/// The highlighter is asked once for each code block and for nothing else,
/// in document order, with the literal and the info of that block: the code
/// block at position `i` has the request at index `code_blocks_before(i)`,
/// a later code block has a later request, and every request is that of some
/// code block.
pub proof fn law_call_fidelity(values: Seq<Value>)
    ensures
        forall|i: int|
            0 <= i < values.len() && values[i] is CodeBlock ==> {
                &&& 0 <= #[trigger] code_blocks_before(values, i) < requests(values).len()
                &&& requests(values)[code_blocks_before(values, i)] == (Request {
                    code: values[i]->CodeBlock_literal,
                    language_tag: values[i]->info,
                })
            },
        forall|i: int, j: int|
            0 <= i < j < values.len() && values[i] is CodeBlock ==> #[trigger] code_blocks_before(
                values,
                i,
            ) < #[trigger] code_blocks_before(values, j),
        forall|k: int| 0 <= k < requests(values).len() ==> #[trigger] answers_code_block(values, k),
{
    assert forall|i: int| 0 <= i < values.len() && values[i] is CodeBlock implies {
        &&& 0 <= #[trigger] code_blocks_before(values, i) < requests(values).len()
        &&& requests(values)[code_blocks_before(values, i)] == (Request {
            code: values[i]->CodeBlock_literal,
            language_tag: values[i]->info,
        })
    } by {
        lemma_request_of_code_block(values, i);
    }
    assert forall|i: int, j: int|
        0 <= i < j < values.len() && values[i] is CodeBlock implies #[trigger] code_blocks_before(
        values,
        i,
    ) < #[trigger] code_blocks_before(values, j) by {
        let upto = values.take(j);
        assert(upto.take(i) =~= values.take(i));
        lemma_request_of_code_block(upto, i);
    }
    assert forall|k: int| 0 <= k < requests(values).len() implies #[trigger] answers_code_block(
        values,
        k,
    ) by {
        let i = lemma_code_block_of_request(values, k);
        assert(code_blocks_before(values, i) == k);
    }
}

/// Every request is that of a code block: finds the position of the block
/// that the request at index `k` stands for.
pub proof fn lemma_code_block_of_request(values: Seq<Value>, k: int) -> (i: int)
    requires
        0 <= k < requests(values).len(),
    ensures
        0 <= i < values.len(),
        values[i] is CodeBlock,
        code_blocks_before(values, i) == k,
    decreases values.len(),
{
    let shorter = values.drop_last();
    let last = values.len() - 1;
    assert(values.take(last) =~= shorter);
    if k < requests(shorter).len() {
        let i = lemma_code_block_of_request(shorter, k);
        assert(shorter.take(i) =~= values.take(i));
        i
    } else {
        last
    }
}

/// The markup that the highlighter returned for a code block stands in the
/// rewritten tree at the block's position exactly as it came.
pub proof fn law_verbatim_markup(
    source: Tree,
    markups: Seq<Seq<char>>,
    result: Tree,
    i: int,
)
    requires
        is_rewrite_of(result, source, markups),
        0 <= i < preorder(source).len(),
        preorder(source)[i] is CodeBlock,
    ensures
        preorder(result)[i] == (Value::HtmlBlock {
            block_type: 0,
            literal: markups[code_blocks_before(preorder(source), i)],
        }),
{
}

/// A code block with an empty info is not skipped: it has its request like
/// any other, and the request's language tag is empty.
pub proof fn law_empty_tag_is_requested(values: Seq<Value>, i: int)
    requires
        0 <= i < values.len(),
        values[i] is CodeBlock,
        values[i]->info.len() == 0,
    ensures
        0 <= code_blocks_before(values, i) < requests(values).len(),
        requests(values)[code_blocks_before(values, i)].code == values[i]->CodeBlock_literal,
        requests(values)[code_blocks_before(values, i)].language_tag.len() == 0,
{
    lemma_request_of_code_block(values, i);
}

/// There is one rewrite of a tree with given markups, and no other.
pub proof fn law_rewrite_is_determined(
    source: Tree,
    markups: Seq<Seq<char>>,
    first: Tree,
    second: Tree,
)
    requires
        is_rewrite_of(first, source, markups),
        is_rewrite_of(second, source, markups),
    ensures
        first == second,
{
    lemma_same_shape_symmetric(second, source);
    lemma_same_shape_transitive(first, source, second);
    lemma_shape_and_values_determine(first, second);
}

} // verus!
