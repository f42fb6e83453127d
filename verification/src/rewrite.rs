//! The tree rewriter: every code block becomes a block of raw markup that the
//! highlighter made from it; nothing else changes.
//!
//! The highlighter is an external process, so the rewrite is cut where it
//! would call it. [`start`] walks the tree and either finishes at once or
//! waits on the first request; [`Pending::resume`] takes the highlighter's
//! answer and moves on. The caller runs the loop between the two.

use crate::highlight::{string_views, HighlightError, HighlightRequest, Request};
use crate::tree::{
    forest_preorder, lemma_forest_preorder_step, lemma_same_shape_reflexive, lemma_view_unfold,
    node_views, preorder, same_shape, Node, NodeValue, Tree, Value,
};
use vstd::prelude::*;

verus! {

/// The requests that a pre-order of values gives rise to: one for each code
/// block, in order, with the block's own literal and info.
pub open spec fn requests(values: Seq<Value>) -> Seq<Request>
    decreases values.len(),
{
    if values.len() == 0 {
        Seq::empty()
    } else {
        let earlier = requests(values.drop_last());
        match values.last() {
            Value::CodeBlock { literal, info } => earlier.push(
                Request { code: literal, language_tag: info },
            ),
            _ => earlier,
        }
    }
}

/// The values after the rewrite, where the code blocks take their markup from
/// `markups` starting at index `start`: the code block that has `k` code
/// blocks before it becomes raw markup holding `markups[start + k]`, and every
/// other value stays.
pub open spec fn substituted_from(
    values: Seq<Value>,
    markups: Seq<Seq<char>>,
    start: int,
) -> Seq<Value> {
    Seq::new(
        values.len(),
        |i: int|
            match values[i] {
                Value::CodeBlock { .. } => Value::HtmlBlock {
                    block_type: 0,
                    literal: markups[start + requests(values.take(i)).len()],
                },
                other => other,
            },
    )
}

/// The values after the rewrite with the answers `markups`, one for each code
/// block in pre-order.
pub open spec fn substituted(values: Seq<Value>, markups: Seq<Seq<char>>) -> Seq<Value> {
    substituted_from(values, markups, 0)
}

/// `result` is `source` rewritten with `markups`: the shape is kept, and in
/// pre-order the values are those of `source` with each code block replaced
/// by its markup.
pub open spec fn is_rewrite_of(result: Tree, source: Tree, markups: Seq<Seq<char>>) -> bool {
    &&& same_shape(result, source)
    &&& preorder(result) == substituted(preorder(source), markups)
}

/// The views of a sequence of requests.
pub open spec fn request_views(items: Seq<HighlightRequest>) -> Seq<Request> {
    Seq::new(items.len(), |i: int| items[i]@)
}

/// A single value gives one request if it is a code block, and none otherwise.
pub proof fn lemma_requests_single(value: Value)
    ensures
        requests(seq![value]) == match value {
            Value::CodeBlock { literal, info } => seq![Request { code: literal, language_tag: info }],
            _ => Seq::<Request>::empty(),
        },
{
    let one = seq![value];
    assert(one.drop_last() =~= Seq::<Value>::empty());
    assert(requests(one.drop_last()) =~= Seq::<Request>::empty());
    assert(requests(one) =~= match value {
        Value::CodeBlock { literal, info } => seq![Request { code: literal, language_tag: info }],
        _ => Seq::<Request>::empty(),
    });
}

/// The requests of two runs of values, one after the other, are the requests
/// of the first followed by those of the second.
pub proof fn lemma_requests_concat(a: Seq<Value>, b: Seq<Value>)
    ensures
        requests(a + b) == requests(a) + requests(b),
    decreases b.len(),
{
    if b.len() == 0 {
        assert(a + b =~= a);
        assert(requests(a) + requests(b) =~= requests(a));
    } else {
        assert((a + b).drop_last() =~= a + b.drop_last());
        assert((a + b).last() == b.last());
        lemma_requests_concat(a, b.drop_last());
        assert(requests(a + b) =~= requests(a) + requests(b));
    }
}

/// The code block at position `i` is asked for exactly once: its request
/// stands at the index that counts the code blocks before it, and holds the
/// block's own literal and info.
pub proof fn lemma_request_of_code_block(values: Seq<Value>, i: int)
    requires
        0 <= i < values.len(),
        values[i] is CodeBlock,
    ensures
        requests(values.take(i)).len() < requests(values).len(),
        requests(values)[requests(values.take(i)).len() as int] == (Request {
            code: values[i]->CodeBlock_literal,
            language_tag: values[i]->info,
        }),
{
    let head = values.take(i);
    let tail = values.skip(i + 1);
    let one = seq![values[i]];
    assert(values =~= (head + one) + tail);
    lemma_requests_concat(head + one, tail);
    lemma_requests_concat(head, one);
    lemma_requests_single(values[i]);
}

/// Rewriting two runs of values, one after the other, rewrites the first with
/// the markups from `start` and the second with those that follow.
pub proof fn lemma_substituted_concat(
    a: Seq<Value>,
    b: Seq<Value>,
    markups: Seq<Seq<char>>,
    start: int,
)
    ensures
        substituted_from(a + b, markups, start) == substituted_from(a, markups, start)
            + substituted_from(b, markups, start + requests(a).len()),
{
    let whole = substituted_from(a + b, markups, start);
    let left = substituted_from(a, markups, start);
    let right = substituted_from(b, markups, start + requests(a).len());
    assert forall|i: int| 0 <= i < whole.len() implies whole[i] == (left + right)[i] by {
        if i < a.len() {
            assert((a + b).take(i) =~= a.take(i));
        } else {
            assert((a + b).take(i) =~= a + b.take(i - a.len()));
            lemma_requests_concat(a, b.take(i - a.len()));
        }
    }
    assert(whole =~= left + right);
}

/// Values without a code block are rewritten to themselves.
pub proof fn lemma_substituted_without_code(
    values: Seq<Value>,
    markups: Seq<Seq<char>>,
    start: int,
)
    requires
        requests(values).len() == 0,
    ensures
        substituted_from(values, markups, start) == values,
{
    assert forall|i: int| 0 <= i < values.len() implies !(values[i] is CodeBlock) by {
        if values[i] is CodeBlock {
            lemma_request_of_code_block(values, i);
        }
    }
    assert(substituted_from(values, markups, start) =~= values);
}

/// The requests of a forest's first `i` trees are among those of the forest.
proof fn lemma_forest_requests_prefix(f: Seq<Tree>, i: int)
    requires
        0 <= i <= f.len(),
    ensures
        requests(forest_preorder(f.take(i))).len() <= requests(forest_preorder(f)).len(),
    decreases f.len() - i,
{
    if i == f.len() {
        assert(f.take(i) =~= f);
    } else {
        lemma_forest_preorder_step(f, i);
        lemma_requests_concat(forest_preorder(f.take(i)), preorder(f[i]));
        lemma_forest_requests_prefix(f, i + 1);
    }
}

/// Appends to `out` the requests of the subtree at `node`, in pre-order.
fn collect(node: &Node, out: &mut Vec<HighlightRequest>)
    ensures
        request_views(final(out)@) == request_views(old(out)@) + requests(preorder(node@)),
    decreases node,
{
    let ghost before = request_views(out@);
    let ghost kids = node_views(node.children@);
    let ghost own = seq![node@.value];
    proof {
        lemma_view_unfold(*node);
        lemma_requests_single(node@.value);
    }
    match &node.value {
        NodeValue::CodeBlock { literal, info } => {
            let ghost filled = out@;
            let request = HighlightRequest { code: literal.clone(), language_tag: info.clone() };
            out.push(request);
            assert(request_views(out@) =~= request_views(filled).push(request@));
        },
        _ => {},
    }
    assert(request_views(out@) =~= before + requests(own));
    assert(own + forest_preorder(kids.take(0)) =~= own);
    let n = node.children.len();
    let mut i: usize = 0;
    while i < n
        invariant
            i <= n,
            n == node.children@.len(),
            kids == node_views(node.children@),
            request_views(out@) == before + requests(own + forest_preorder(kids.take(i as int))),
        decreases n - i,
    {
        let ghost filled = request_views(out@);
        let ghost seen = own + forest_preorder(kids.take(i as int));
        collect(&node.children[i], out);
        proof {
            let child = preorder(kids[i as int]);
            lemma_forest_preorder_step(kids, i as int);
            lemma_requests_concat(seen, child);
            assert(own + forest_preorder(kids.take(i + 1)) =~= seen + child);
            assert(filled + requests(child) =~= before + (requests(seen) + requests(child)));
        }
        i = i + 1;
    }
    proof {
        assert(kids.take(n as int) =~= kids);
    }
}

/// The highlighter requests of a tree: one for each code block, in pre-order,
/// each with the literal and the info of its block.
pub fn highlight_requests(root: &Node) -> (list: Vec<HighlightRequest>)
    ensures
        request_views(list@) == requests(preorder(root@)),
{
    let mut list: Vec<HighlightRequest> = Vec::new();
    collect(root, &mut list);
    assert(request_views(list@) =~= requests(preorder(root@)));
    list
}

/// Rewrites the subtree at `node` in place, taking the markup of its code
/// blocks from `markups` in pre-order, the first one at index `next`. Returns
/// the index after the last markup used.
fn apply(node: &mut Node, markups: &Vec<String>, next: usize) -> (after: usize)
    requires
        next + requests(preorder(old(node)@)).len() <= markups@.len(),
    ensures
        same_shape(final(node)@, old(node)@),
        preorder(final(node)@) == substituted_from(
            preorder(old(node)@),
            string_views(markups@),
            next as int,
        ),
        after == next + requests(preorder(old(node)@)).len(),
    decreases *old(node),
{
    let ghost kids = node_views(node.children@);
    let ghost own = seq![node.value@];
    let ghost texts = string_views(markups@);
    proof {
        lemma_view_unfold(*node);
        lemma_requests_single(node.value@);
        lemma_requests_concat(own, forest_preorder(kids));
        assert(own.take(0) =~= Seq::<Value>::empty());
    }
    let mut cur = next;
    let is_code = match &node.value {
        NodeValue::CodeBlock { .. } => true,
        _ => false,
    };
    if is_code {
        assert(next < markups.len());
        node.value = NodeValue::HtmlBlock { block_type: 0, literal: markups[next].clone() };
        cur = next + 1;
    }
    let ghost first = cur as int;
    let ghost value = node.value@;
    assert(substituted_from(own, texts, next as int) =~= seq![value]);
    assert(kids.take(0) =~= Seq::<Tree>::empty());
    assert(substituted_from(Seq::<Value>::empty(), texts, first) =~= Seq::<Value>::empty());
    let n = node.children.len();
    let mut i: usize = 0;
    while i < n
        invariant
            i <= n,
            n == node.children@.len(),
            n == kids.len(),
            n == old(node).children@.len(),
            texts == string_views(markups@),
            node.value@ == value,
            first + requests(forest_preorder(kids)).len() <= markups@.len(),
            cur == first + requests(forest_preorder(kids.take(i as int))).len(),
            forall|j: int|
                0 <= j < i ==> same_shape(#[trigger] node_views(node.children@)[j], kids[j]),
            forall|j: int| i <= j < n ==> #[trigger] node_views(node.children@)[j] == kids[j],
            forall|j: int| i <= j < n ==> #[trigger] node.children@[j] == old(node).children@[j],
            forest_preorder(node_views(node.children@).take(i as int)) == substituted_from(
                forest_preorder(kids.take(i as int)),
                texts,
                first,
            ),
        decreases n - i,
    {
        let ghost now = node_views(node.children@);
        proof {
            lemma_forest_requests_prefix(kids, i + 1);
            lemma_forest_preorder_step(kids, i as int);
            lemma_requests_concat(forest_preorder(kids.take(i as int)), preorder(kids[i as int]));
            assert(now[i as int] == kids[i as int]);
        }
        cur = apply(&mut node.children[i], markups, cur);
        proof {
            let then = node_views(node.children@);
            assert forall|j: int| 0 <= j < i + 1 implies same_shape(#[trigger] then[j], kids[j]) by {
                if j < i {
                    assert(then[j] == now[j]);
                }
            }
            assert forall|j: int| i + 1 <= j < n implies #[trigger] then[j] == kids[j] by {
                assert(then[j] == now[j]);
            }
            assert(then.take(i as int) =~= now.take(i as int));
            lemma_forest_preorder_step(then, i as int);
            lemma_substituted_concat(
                forest_preorder(kids.take(i as int)),
                preorder(kids[i as int]),
                texts,
                first,
            );
        }
        i = i + 1;
    }
    proof {
        let then = node_views(node.children@);
        lemma_view_unfold(*node);
        assert(then.take(n as int) =~= then);
        assert(kids.take(n as int) =~= kids);
        lemma_substituted_concat(own, forest_preorder(kids), texts, next as int);
        assert forall|j: int| 0 <= j < node@.children.len() implies same_shape(
            #[trigger] node@.children[j],
            old(node)@.children[j],
        ) by {
            assert(node@.children[j] == then[j]);
        }
    }
    cur
}

/// A rewrite that waits on the highlighter for the markup of one code block.
pub struct Pending {
    root: Node,
    requests: Vec<HighlightRequest>,
    markups: Vec<String>,
}

/// Where a rewrite stands.
pub enum Rewrite {
    /// The highlighter is to be called with `Pending::request`, and its answer
    /// handed to `Pending::resume`.
    Pending(Pending),
    /// Every code block is converted; the tree is ready to be serialized.
    Done(Node),
    /// The highlighter failed; there is no tree to serialize.
    Failed(HighlightError),
}

/// The state of a rewrite of `source` that has had the answers `answered`,
/// none of them a failure: it waits while a code block is left without an
/// answer, and is done, with the rewritten tree, when none is.
pub open spec fn state_for(source: Tree, answered: Seq<Seq<char>>, state: Rewrite) -> bool {
    if answered.len() < requests(preorder(source)).len() {
        state matches Rewrite::Pending(pending) && pending.source() == source
            && pending.answered() == answered
    } else {
        state matches Rewrite::Done(tree) && is_rewrite_of(tree@, source, answered)
    }
}

impl Pending {
    #[verifier::type_invariant]
    spec fn well_formed(self) -> bool {
        &&& request_views(self.requests@) == requests(preorder(self.root@))
        &&& self.markups@.len() < self.requests@.len()
    }

    /// The tree as it was handed to [`start`].
    pub closed spec fn source(&self) -> Tree {
        self.root@
    }

    /// The markup received so far, one for each of the first code blocks in
    /// pre-order.
    pub closed spec fn answered(&self) -> Seq<Seq<char>> {
        string_views(self.markups@)
    }

    /// What the highlighter is to be called with next: the literal and the
    /// info of the first code block, in pre-order, that has no answer yet.
    pub fn request(&self) -> (request: &HighlightRequest)
        ensures
            self.answered().len() < requests(preorder(self.source())).len(),
            request@ == requests(preorder(self.source()))[self.answered().len() as int],
    {
        proof {
            use_type_invariant(self);
        }
        &self.requests[self.markups.len()]
    }

    /// Takes the highlighter's answer to [`Pending::request`]. Markup is
    /// recorded for that code block as it came, and the rewrite goes on to
    /// the next one or is done. A failure ends the rewrite at once.
    pub fn resume(self, answer: Result<String, HighlightError>) -> (next: Rewrite)
        ensures
            match answer {
                Ok(markup) => state_for(self.source(), self.answered().push(markup@), next),
                Err(error) => next matches Rewrite::Failed(reported) && reported == error,
            },
    {
        proof {
            use_type_invariant(&self);
        }
        match answer {
            Err(error) => Rewrite::Failed(error),
            Ok(markup) => {
                let ghost before = self.markups@;
                let Pending { root, requests, markups } = self;
                let mut root = root;
                let mut markups = markups;
                markups.push(markup);
                assert(string_views(markups@) =~= string_views(before).push(markup@));
                if markups.len() < requests.len() {
                    Rewrite::Pending(Pending { root, requests, markups })
                } else {
                    apply(&mut root, &markups, 0);
                    Rewrite::Done(root)
                }
            },
        }
    }
}

/// Begins the rewrite of a tree. A tree without code blocks is done at once
/// and comes back as it is; otherwise the rewrite waits on the first request.
pub fn start(root: Node) -> (state: Rewrite)
    ensures
        state_for(root@, Seq::empty(), state),
        requests(preorder(root@)).len() == 0 ==> (state matches Rewrite::Done(tree) && tree@
            == root@),
{
    let requests = highlight_requests(&root);
    let markups: Vec<String> = Vec::new();
    assert(string_views(markups@) =~= Seq::<Seq<char>>::empty());
    if requests.len() > 0 {
        Rewrite::Pending(Pending { root, requests, markups })
    } else {
        proof {
            lemma_same_shape_reflexive(root@);
            lemma_substituted_without_code(preorder(root@), Seq::empty(), 0);
        }
        Rewrite::Done(root)
    }
}

} // verus!
