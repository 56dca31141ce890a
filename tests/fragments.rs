use flow_construct::construct::InlineFragmentsAccumulator;
use flow_construct::dom::{is_image_data, is_whitespace, DomNode, PseudoElement};
use flow_construct::flow::{Flow, FlowClass};
use flow_construct::fragment::{
    strip_ignorable_whitespace_from_end, strip_ignorable_whitespace_from_start, ElementRange, Fragment,
    InlineFragments, SpecificFragmentInfo,
};
use flow_construct::ftl::{inherit, isEven, synthesize};
use flow_construct::style::{Display, Float, Position, Style, WhiteSpace};

fn st() -> Style {
    Style {
        display: Display::Inline,
        float: Float::FloatNone,
        position: Position::Static,
        white_space: WhiteSpace::Normal,
    }
}

fn text_fragment(node: usize, s: &str) -> Fragment {
    Fragment { node, style: st(), specific: SpecificFragmentInfo::UnscannedText(s.chars().collect()) }
}

fn run(parts: &[&str]) -> InlineFragments {
    let mut f = InlineFragments::new();
    for (i, p) in parts.iter().enumerate() {
        f.push(text_fragment(i, p));
    }
    f
}

fn strings(f: &InlineFragments) -> Vec<String> {
    f.fragments
        .iter()
        .map(|fr| match &fr.specific {
            SpecificFragmentInfo::UnscannedText(t) => t.iter().collect(),
            _ => String::from("?"),
        })
        .collect()
}

fn range(node: usize, begin: usize, end: usize) -> ElementRange {
    ElementRange { node, style: st(), begin, end }
}

#[test]
fn strip_start_removes_leading_whitespace_only() {
    let mut f = run(&["  ", "\n", "a", " ", "b", " "]);
    strip_ignorable_whitespace_from_start(&mut f);
    assert_eq!(strings(&f), vec!["a", " ", "b", " "]);
}

#[test]
fn strip_end_removes_trailing_whitespace_only() {
    let mut f = run(&[" ", "a", " ", "b", "\t", " "]);
    strip_ignorable_whitespace_from_end(&mut f);
    assert_eq!(strings(&f), vec![" ", "a", " ", "b"]);
}

#[test]
fn stripping_twice_changes_nothing() {
    let mut f = run(&[" ", "a", " ", "b", " "]);
    f.ranges.push(range(9, 0, 5));
    f.ranges.push(range(8, 1, 3));
    strip_ignorable_whitespace_from_start(&mut f);
    strip_ignorable_whitespace_from_end(&mut f);
    let once = strings(&f);
    let once_ranges = f.ranges.clone();
    strip_ignorable_whitespace_from_start(&mut f);
    strip_ignorable_whitespace_from_end(&mut f);
    assert_eq!(strings(&f), once);
    assert_eq!(f.ranges, once_ranges);
    assert_eq!(once, vec!["a", " ", "b"]);
}

#[test]
fn strip_all_whitespace_run_leaves_nothing() {
    let mut f = run(&[" ", "\n", "\t"]);
    strip_ignorable_whitespace_from_start(&mut f);
    assert_eq!(f.len(), 0);
    let mut g = run(&[" ", " "]);
    strip_ignorable_whitespace_from_end(&mut g);
    assert_eq!(g.len(), 0);
}

#[test]
fn strip_empty_run() {
    let mut f = InlineFragments::new();
    strip_ignorable_whitespace_from_start(&mut f);
    strip_ignorable_whitespace_from_end(&mut f);
    assert_eq!(f.len(), 0);
}

#[test]
fn strip_moves_ranges() {
    let mut f = run(&[" ", " ", "a", "b", " "]);
    f.ranges.push(range(7, 0, 5));
    f.ranges.push(range(8, 1, 3));
    strip_ignorable_whitespace_from_start(&mut f);
    assert_eq!(f.ranges, vec![range(7, 0, 3), range(8, 0, 1)]);
    strip_ignorable_whitespace_from_end(&mut f);
    assert_eq!(f.ranges, vec![range(7, 0, 2), range(8, 0, 1)]);
}

#[test]
fn non_text_fragments_are_not_whitespace() {
    let img = Fragment { node: 0, style: st(), specific: SpecificFragmentInfo::Generic };
    assert!(!img.is_whitespace_only());
    assert!(text_fragment(0, " \r\n").is_whitespace_only());
    assert!(text_fragment(0, "").is_whitespace_only());
    assert!(!text_fragment(0, " x ").is_whitespace_only());
}

#[test]
fn push_all_shifts_ranges() {
    let mut a = run(&["a", "b"]);
    a.ranges.push(range(1, 0, 2));
    let mut b = run(&["c", "d", "e"]);
    b.ranges.push(range(2, 1, 3));
    a.push_all(b);
    assert_eq!(strings(&a), vec!["a", "b", "c", "d", "e"]);
    assert_eq!(a.ranges, vec![range(1, 0, 2), range(2, 3, 5)]);
}

fn inline_node(key: usize) -> DomNode {
    DomNode {
        key,
        pseudo: PseudoElement::Normal,
        type_id: None,
        style: st(),
        text: Vec::new(),
        image_url: None,
        object_type: None,
        object_data: None,
        children: Vec::new(),
    }
}

#[test]
fn accumulator_closes_enclosing_range() {
    let n = inline_node(4);
    let mut acc = InlineFragmentsAccumulator::from_inline_node(&n);
    acc.fragments.push(text_fragment(5, "x"));
    acc.fragments.push(text_fragment(6, "y"));
    let f = acc.finish();
    assert_eq!(f.ranges, vec![range(4, 0, 2)]);
    let plain = InlineFragmentsAccumulator::new().finish();
    assert_eq!(plain.len(), 0);
    assert!(plain.ranges.is_empty());
}

#[test]
fn whitespace_characters() {
    assert!(is_whitespace(&" \t\n\r\x0c".chars().collect()));
    assert!(is_whitespace(&Vec::new()));
    assert!(!is_whitespace(&" \u{a0}".chars().collect()));
}

#[test]
fn image_data_uris() {
    assert!(is_image_data(&"data:image/png;base64,AA".chars().collect()));
    assert!(is_image_data(&"data:image/gif,x".chars().collect()));
    assert!(is_image_data(&"data:image/jpeg".chars().collect()));
    assert!(!is_image_data(&"data:image/svg+xml,<svg/>".chars().collect()));
    assert!(!is_image_data(&"http://example.com/a.png".chars().collect()));
    assert!(!is_image_data(&"data:image/pn".chars().collect()));
}

#[test]
fn even_numbers() {
    assert!(isEven(0));
    assert!(isEven(-4));
    assert!(!isEven(7));
    assert!(!isEven(-3));
}

fn leaf(class: FlowClass, node: usize) -> Flow {
    Flow::new(class, node, Position::Static, None, None)
}

#[test]
fn pass_orders() {
    // 0 [ 1 [ 3, 4 ], 2 ]
    let mut a = leaf(FlowClass::Block, 1);
    a.add_new_child(leaf(FlowClass::Inline, 3));
    a.add_new_child(leaf(FlowClass::Inline, 4));
    let mut root = leaf(FlowClass::Block, 0);
    root.add_new_child(a);
    root.add_new_child(leaf(FlowClass::Block, 2));
    assert_eq!(inherit(&root), vec![0, 1, 3, 4, 2]);
    assert_eq!(synthesize(&root), vec![3, 4, 1, 2, 0]);
}

#[test]
fn needs_anonymous_rules() {
    let table = leaf(FlowClass::Table, 0);
    assert!(table.need_anonymous_flow(&leaf(FlowClass::TableRow, 1)));
    assert!(table.need_anonymous_flow(&leaf(FlowClass::Inline, 1)));
    assert!(!table.need_anonymous_flow(&leaf(FlowClass::TableRowGroup, 1)));
    assert!(!table.need_anonymous_flow(&leaf(FlowClass::TableColGroup, 1)));
    let row = leaf(FlowClass::TableRow, 0);
    assert!(!row.need_anonymous_flow(&leaf(FlowClass::TableCell, 1)));
    assert!(row.need_anonymous_flow(&leaf(FlowClass::Block, 1)));
    let block = leaf(FlowClass::Block, 0);
    assert!(!block.need_anonymous_flow(&leaf(FlowClass::TableRow, 1)));
}
