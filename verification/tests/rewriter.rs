use md_highlight::highlight::{HighlightError, HighlightRequest};
use md_highlight::rewrite::{highlight_requests, start, Rewrite};
use md_highlight::tree::{Node, NodeValue};

fn code(literal: &str, info: &str) -> Node {
    Node::leaf(NodeValue::CodeBlock { literal: literal.to_string(), info: info.to_string() })
}

fn html(literal: &str) -> Node {
    Node::leaf(NodeValue::HtmlBlock { block_type: 0, literal: literal.to_string() })
}

fn other(kind: &str, children: Vec<Node>) -> Node {
    Node::new(NodeValue::Other(kind.to_string()), children)
}

fn document(children: Vec<Node>) -> Node {
    Node::new(NodeValue::Document, children)
}

fn asked(code: &str, language_tag: &str) -> HighlightRequest {
    HighlightRequest { code: code.to_string(), language_tag: language_tag.to_string() }
}

/// Runs a rewrite to its end, answering request number `k` with `answers[k]`,
/// and returns what was asked together with how the rewrite ended.
fn drive(
    root: Node,
    answers: Vec<Result<String, HighlightError>>,
) -> (Vec<HighlightRequest>, Result<Node, HighlightError>) {
    let mut seen = Vec::new();
    let mut state = start(root);
    loop {
        state = match state {
            Rewrite::Pending(pending) => {
                let answer = answers[seen.len()].clone();
                seen.push(pending.request().clone());
                pending.resume(answer)
            }
            Rewrite::Done(tree) => return (seen, Ok(tree)),
            Rewrite::Failed(error) => return (seen, Err(error)),
        };
    }
}

fn count_code_blocks(node: &Node) -> usize {
    let own = if matches!(node.value, NodeValue::CodeBlock { .. }) { 1 } else { 0 };
    own + node.children.iter().map(count_code_blocks).sum::<usize>()
}

fn sample() -> Node {
    document(vec![
        other("heading", vec![other("text", vec![])]),
        code("print(1)\n", "python"),
        other("block_quote", vec![Node::new(NodeValue::Paragraph, vec![]), code("ls\n", "sh")]),
        html("<hr>\n"),
        code("fn main() {}\n", "rust"),
    ])
}

#[test]
fn tree_without_code_blocks_is_done_at_once() {
    let tree = || {
        document(vec![
            other("heading", vec![other("text", vec![])]),
            Node::new(NodeValue::Paragraph, vec![other("text", vec![])]),
            html("<b>kept</b>\n"),
        ])
    };
    match start(tree()) {
        Rewrite::Done(result) => assert_eq!(result, tree()),
        _ => panic!("a tree without code blocks has nothing to wait for"),
    }
}

#[test]
fn a_single_node_without_code_is_unchanged() {
    let (seen, result) = drive(Node::leaf(NodeValue::Document), vec![]);
    assert!(seen.is_empty());
    assert_eq!(result, Ok(Node::leaf(NodeValue::Document)));
}

#[test]
fn root_code_block_is_rewritten() {
    let (seen, result) = drive(code("x\n", "c"), vec![Ok("<pre>x</pre>".to_string())]);
    assert_eq!(seen, vec![asked("x\n", "c")]);
    assert_eq!(result, Ok(html("<pre>x</pre>")));
}

#[test]
fn requests_follow_document_order() {
    let list = highlight_requests(&sample());
    assert_eq!(
        list,
        vec![asked("print(1)\n", "python"), asked("ls\n", "sh"), asked("fn main() {}\n", "rust")]
    );
}

#[test]
fn each_code_block_is_asked_for_once_with_its_own_text() {
    let answers = vec![Ok("<1>".to_string()), Ok("<2>".to_string()), Ok("<3>".to_string())];
    let (seen, result) = drive(sample(), answers);
    assert_eq!(
        seen,
        vec![asked("print(1)\n", "python"), asked("ls\n", "sh"), asked("fn main() {}\n", "rust")]
    );
    assert!(result.is_ok());
}

#[test]
fn every_code_block_becomes_raw_markup_in_place() {
    let answers = vec![Ok("<1>".to_string()), Ok("<2>".to_string()), Ok("<3>".to_string())];
    let (_, result) = drive(sample(), answers);
    let expected = document(vec![
        other("heading", vec![other("text", vec![])]),
        html("<1>"),
        other("block_quote", vec![Node::new(NodeValue::Paragraph, vec![]), html("<2>")]),
        html("<hr>\n"),
        html("<3>"),
    ]);
    let tree = result.unwrap();
    assert_eq!(count_code_blocks(&tree), 0);
    assert_eq!(tree, expected);
}

#[test]
fn markup_is_kept_as_it_came() {
    let markup = "<span style=\"color: #008000\">&lt;</span> & \"quoted\" 'text'\n\t<";
    let (_, result) = drive(document(vec![code("<\n", "xml")]), vec![Ok(markup.to_string())]);
    assert_eq!(result, Ok(document(vec![html(markup)])));
}

#[test]
fn empty_markup_still_replaces_the_block() {
    let (_, result) = drive(document(vec![code("x\n", "c")]), vec![Ok(String::new())]);
    assert_eq!(result, Ok(document(vec![html("")])));
}

#[test]
fn code_block_with_empty_info_is_not_skipped() {
    let tree = document(vec![code("plain\n", ""), code("", "")]);
    let (seen, result) = drive(tree, vec![Ok("<a>".to_string()), Ok("<b>".to_string())]);
    assert_eq!(seen, vec![asked("plain\n", ""), asked("", "")]);
    assert_eq!(result, Ok(document(vec![html("<a>"), html("<b>")])));
}

#[test]
fn equal_code_blocks_are_each_asked_for() {
    let tree = document(vec![code("same\n", "c"), code("same\n", "c")]);
    let (seen, result) = drive(tree, vec![Ok("<first>".to_string()), Ok("<second>".to_string())]);
    assert_eq!(seen, vec![asked("same\n", "c"), asked("same\n", "c")]);
    assert_eq!(result, Ok(document(vec![html("<first>"), html("<second>")])));
}

#[test]
fn children_of_a_code_block_are_kept_and_visited() {
    let nested = Node::new(
        NodeValue::CodeBlock { literal: "outer\n".to_string(), info: "a".to_string() },
        vec![other("text", vec![]), code("inner\n", "b")],
    );
    let tree = document(vec![nested, code("after\n", "c")]);
    let answers = vec![Ok("<o>".to_string()), Ok("<i>".to_string()), Ok("<a>".to_string())];
    let (seen, result) = drive(tree, answers);
    assert_eq!(seen, vec![asked("outer\n", "a"), asked("inner\n", "b"), asked("after\n", "c")]);
    let expected = document(vec![
        Node::new(
            NodeValue::HtmlBlock { block_type: 0, literal: "<o>".to_string() },
            vec![other("text", vec![]), html("<i>")],
        ),
        html("<a>"),
    ]);
    assert_eq!(result, Ok(expected));
}

#[test]
fn raw_markup_already_in_the_tree_is_left_alone() {
    let block = || Node::leaf(NodeValue::HtmlBlock { block_type: 6, literal: "<table>\n".to_string() });
    let (seen, result) = drive(document(vec![block(), code("x\n", "c")]), vec![Ok("<x>".to_string())]);
    assert_eq!(seen.len(), 1);
    assert_eq!(result, Ok(document(vec![block(), html("<x>")])));
}

#[test]
fn first_failure_ends_the_rewrite() {
    let answers = vec![
        Ok("<1>".to_string()),
        Err(HighlightError::IoFailure),
        Ok("<never used>".to_string()),
    ];
    let (seen, result) = drive(sample(), answers);
    assert_eq!(seen, vec![asked("print(1)\n", "python"), asked("ls\n", "sh")]);
    assert_eq!(result, Err(HighlightError::IoFailure));
}

#[test]
fn failure_on_the_first_block_reports_that_failure() {
    for error in [
        HighlightError::LaunchFailure,
        HighlightError::IoFailure,
        HighlightError::EncodingFailure,
    ] {
        let (seen, result) = drive(sample(), vec![Err(error)]);
        assert_eq!(seen.len(), 1);
        assert_eq!(result, Err(error));
    }
}

#[test]
fn failure_on_the_last_block_leaves_no_tree() {
    let answers = vec![Ok("<1>".to_string()), Ok("<2>".to_string()), Err(HighlightError::EncodingFailure)];
    let (seen, result) = drive(sample(), answers);
    assert_eq!(seen.len(), 3);
    assert_eq!(result, Err(HighlightError::EncodingFailure));
}

#[test]
fn pending_state_repeats_its_request_until_resumed() {
    match start(document(vec![code("a\n", "x"), code("b\n", "y")])) {
        Rewrite::Pending(pending) => {
            assert_eq!(pending.request(), &asked("a\n", "x"));
            assert_eq!(pending.request(), &asked("a\n", "x"));
            match pending.resume(Ok("<a>".to_string())) {
                Rewrite::Pending(next) => assert_eq!(next.request(), &asked("b\n", "y")),
                _ => panic!("the second code block has no answer yet"),
            }
        }
        _ => panic!("the first code block has no answer yet"),
    }
}

#[test]
fn deep_tree_is_walked_parent_first() {
    let deep = document(vec![other(
        "list",
        vec![
            other("item", vec![code("1\n", "a"), other("list", vec![other("item", vec![code("2\n", "b")])])]),
            other("item", vec![code("3\n", "c")]),
        ],
    )]);
    let list = highlight_requests(&deep);
    assert_eq!(list, vec![asked("1\n", "a"), asked("2\n", "b"), asked("3\n", "c")]);
}

#[test]
fn builders_make_the_tree_they_are_given() {
    let leaf = Node::leaf(NodeValue::Paragraph);
    assert_eq!(leaf.value, NodeValue::Paragraph);
    assert!(leaf.children.is_empty());
    let parent = Node::new(NodeValue::Document, vec![leaf, code("x\n", "c")]);
    assert_eq!(parent.value, NodeValue::Document);
    assert_eq!(parent.children, vec![Node::leaf(NodeValue::Paragraph), code("x\n", "c")]);
}
