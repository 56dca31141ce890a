use flow_construct::construct::FlowConstructor;
use flow_construct::result::{ConstructionItem, ConstructionResult, InlineFragmentsConstructionResult};
use flow_construct::store::ResultStore;
use flow_construct::dom::{DomNode, ElementKind, NodeType, PseudoElement};
use flow_construct::flow::{Flow, FlowClass};
use flow_construct::fragment::SpecificFragmentInfo;
use flow_construct::style::{Display, Float, FloatKind, Position, Style, WhiteSpace};

fn style(display: Display, float: Float, position: Position) -> Style {
    Style { display, float, position, white_space: WhiteSpace::Normal }
}

fn node(key: usize, type_id: Option<NodeType>, st: Style, children: Vec<DomNode>) -> DomNode {
    DomNode {
        key,
        pseudo: PseudoElement::Normal,
        type_id,
        style: st,
        text: Vec::new(),
        image_url: None,
        object_type: None,
        object_data: None,
        children,
    }
}

fn elem(key: usize, kind: ElementKind, display: Display, children: Vec<DomNode>) -> DomNode {
    node(key, Some(NodeType::Element(kind)), style(display, Float::FloatNone, Position::Static), children)
}

fn positioned(key: usize, display: Display, position: Position, children: Vec<DomNode>) -> DomNode {
    node(key, Some(NodeType::Element(ElementKind::Other)), style(display, Float::FloatNone, position), children)
}

fn text(key: usize, s: &str) -> DomNode {
    let mut n = node(
        key,
        Some(NodeType::Text),
        style(Display::Inline, Float::FloatNone, Position::Static),
        Vec::new(),
    );
    n.text = s.chars().collect();
    n
}

fn build(root: &DomNode, nodes: usize) -> FlowConstructor {
    let mut c = FlowConstructor::new(ResultStore::new(nodes));
    c.construct_tree(root);
    c
}

fn slot(c: &FlowConstructor, key: usize) -> &ConstructionResult {
    &c.results.slots[3 * key]
}

fn flow_of(r: &ConstructionResult) -> &Flow {
    match r {
        ConstructionResult::FlowConstructionResult(f, _) => f,
        _ => panic!("expected a box"),
    }
}

fn descendants_of(r: &ConstructionResult) -> Vec<usize> {
    match r {
        ConstructionResult::FlowConstructionResult(_, d) => d.clone(),
        ConstructionResult::ConstructionItemConstructionResult(
            ConstructionItem::InlineFragmentsConstructionItem(i),
        ) => i.abs_descendants.clone(),
        _ => Vec::new(),
    }
}

fn texts(f: &Flow) -> Vec<String> {
    f.fragments
        .fragments
        .iter()
        .map(|fr| match &fr.specific {
            SpecificFragmentInfo::UnscannedText(t) => t.iter().collect(),
            _ => String::from("?"),
        })
        .collect()
}

fn is_empty(r: &ConstructionResult) -> bool {
    matches!(r, ConstructionResult::NoConstructionResult)
}

fn ib_span() -> DomNode {
    // <span>A<div>B</div>C</span>
    elem(
        1,
        ElementKind::Other,
        Display::Inline,
        vec![
            text(2, "A"),
            elem(3, ElementKind::Other, Display::Block, vec![text(4, "B")]),
            text(5, "C"),
        ],
    )
}

#[test]
fn span_with_block_gives_one_split() {
    let span = ib_span();
    let c = build(&span, 6);
    match slot(&c, 1) {
        ConstructionResult::ConstructionItemConstructionResult(
            ConstructionItem::InlineFragmentsConstructionItem(InlineFragmentsConstructionResult {
                splits,
                fragments,
                abs_descendants,
            }),
        ) => {
            assert_eq!(splits.len(), 1);
            assert_eq!(splits[0].predecessors.fragments.len(), 1);
            match &splits[0].predecessors.fragments[0].specific {
                SpecificFragmentInfo::UnscannedText(t) => assert_eq!(t, &vec!['A']),
                _ => panic!("expected text"),
            }
            assert_eq!(splits[0].flow.class, FlowClass::Block);
            assert_eq!(splits[0].flow.node, 3);
            assert_eq!(splits[0].flow.children.len(), 1);
            assert_eq!(texts(&splits[0].flow.children[0]), vec!["B"]);
            assert_eq!(fragments.fragments.len(), 1);
            match &fragments.fragments[0].specific {
                SpecificFragmentInfo::UnscannedText(t) => assert_eq!(t, &vec!['C']),
                _ => panic!("expected text"),
            }
            assert!(abs_descendants.is_empty());
            // the span's range encloses the fragment after the split
            assert_eq!(fragments.ranges[0].node, 1);
            assert_eq!(fragments.ranges[0].end, 1);
        },
        _ => panic!("expected inline fragments"),
    }
}

#[test]
fn block_around_split_span_has_three_children() {
    let root = elem(0, ElementKind::Other, Display::Block, vec![ib_span()]);
    let c = build(&root, 6);
    let f = flow_of(slot(&c, 0));
    assert_eq!(f.class, FlowClass::Block);
    assert_eq!(f.children.len(), 3);
    assert_eq!(f.children[0].class, FlowClass::Inline);
    assert_eq!(texts(&f.children[0]), vec!["A"]);
    assert_eq!(f.children[1].class, FlowClass::Block);
    assert_eq!(f.children[1].node, 3);
    assert_eq!(texts(&f.children[1].children[0]), vec!["B"]);
    assert_eq!(f.children[2].class, FlowClass::Inline);
    assert_eq!(texts(&f.children[2]), vec!["C"]);
    for k in 1..6 {
        assert!(is_empty(slot(&c, k)));
    }
}

fn table(caption_first: bool) -> DomNode {
    let caption = elem(1, ElementKind::Other, Display::TableCaption, vec![text(2, "Cap")]);
    let row = elem(
        3,
        ElementKind::TableRow,
        Display::TableRow,
        vec![elem(4, ElementKind::TableDataCell, Display::TableCell, vec![text(5, "X")])],
    );
    let kids = if caption_first { vec![caption, row] } else { vec![row, caption] };
    elem(0, ElementKind::Table, Display::Table, kids)
}

fn check_wrapper(c: &FlowConstructor) {
    let w = flow_of(slot(c, 0));
    assert_eq!(w.class, FlowClass::TableWrapper);
    assert_eq!(w.children.len(), 2);
    assert_eq!(w.children[0].class, FlowClass::TableCaption);
    assert_eq!(w.children[0].node, 1);
    assert_eq!(w.children[1].class, FlowClass::Table);
}

#[test]
fn caption_before_table_in_wrapper() {
    let c = build(&table(true), 6);
    check_wrapper(&c);
}

#[test]
fn caption_after_row_still_before_table() {
    let c = build(&table(false), 6);
    check_wrapper(&c);
    for k in 1..6 {
        assert!(is_empty(slot(&c, k)));
    }
}

#[test]
fn row_without_group_gets_anonymous_row_group() {
    // <table><tr><td>X</td></tr></table>
    let row = elem(
        1,
        ElementKind::TableRow,
        Display::TableRow,
        vec![elem(2, ElementKind::TableDataCell, Display::TableCell, vec![text(3, "X")])],
    );
    let t = elem(0, ElementKind::Table, Display::Table, vec![row]);
    let c = build(&t, 4);
    let w = flow_of(slot(&c, 0));
    assert_eq!(w.children.len(), 1);
    let tb = &w.children[0];
    assert_eq!(tb.class, FlowClass::Table);
    assert_eq!(tb.children.len(), 1);
    let group = &tb.children[0];
    assert_eq!(group.class, FlowClass::TableRowGroup);
    assert!(group.anonymous);
    assert_eq!(group.children.len(), 1);
    assert_eq!(group.children[0].class, FlowClass::TableRow);
    assert_eq!(group.children[0].node, 1);
    assert!(!group.children[0].anonymous);
    let cell = &group.children[0].children[0];
    assert_eq!(cell.class, FlowClass::TableCell);
    assert_eq!(texts(&cell.children[0]), vec!["X"]);
}

#[test]
fn text_directly_in_table_gets_group_row_and_cell() {
    let t = elem(0, ElementKind::Table, Display::Table, vec![text(1, "loose")]);
    let c = build(&t, 2);
    let tb = &flow_of(slot(&c, 0)).children[0];
    let group = &tb.children[0];
    assert_eq!(group.class, FlowClass::TableRowGroup);
    let row = &group.children[0];
    assert_eq!(row.class, FlowClass::TableRow);
    assert!(row.anonymous);
    let cell = &row.children[0];
    assert_eq!(cell.class, FlowClass::TableCell);
    assert!(cell.anonymous);
    assert_eq!(texts(&cell.children[0]), vec!["loose"]);
}

#[test]
fn absolute_descendant_stops_at_positioned_ancestor() {
    // <div relative (A)><div><p absolute (D)>x</p></div></div>, under a body
    let d = positioned(3, Display::Block, Position::Absolute, vec![text(4, "x")]);
    let mid = elem(2, ElementKind::Other, Display::Block, vec![d]);
    let a = positioned(1, Display::Block, Position::Relative, vec![mid]);
    let body = elem(0, ElementKind::Other, Display::Block, vec![a]);
    let c = build(&body, 5);
    let root = slot(&c, 0);
    assert!(descendants_of(root).is_empty());
    let a_box = &flow_of(root).children[0];
    assert_eq!(a_box.node, 1);
    assert_eq!(a_box.abs_descendants, vec![3]);
    assert!(flow_of(root).abs_descendants.is_empty());
}

#[test]
fn absolute_ancestor_bubbles_only_itself() {
    let d = positioned(3, Display::Block, Position::Fixed, vec![]);
    let a = positioned(1, Display::Block, Position::Absolute, vec![d]);
    let c = build(&a, 4);
    let r = slot(&c, 1);
    assert_eq!(descendants_of(r), vec![1]);
    assert_eq!(flow_of(r).abs_descendants, vec![3]);
}

#[test]
fn unpositioned_boxes_pass_descendants_up() {
    let d = positioned(2, Display::Block, Position::Absolute, vec![]);
    let mid = elem(1, ElementKind::Other, Display::Block, vec![d]);
    let c = build(&mid, 3);
    assert_eq!(descendants_of(slot(&c, 1)), vec![2]);
    assert!(flow_of(slot(&c, 1)).abs_descendants.is_empty());
}

#[test]
fn display_none_discards_children() {
    let hidden = elem(
        0,
        ElementKind::Other,
        Display::DisplayNone,
        vec![elem(1, ElementKind::Other, Display::Block, vec![text(2, "gone")]), text(3, "gone too")],
    );
    let mut c = FlowConstructor::new(ResultStore::new(4));
    c.construct_tree(&hidden.children[0]);
    c.construct_tree(&hidden.children[1]);
    assert!(!is_empty(slot(&c, 1)));
    assert!(!is_empty(slot(&c, 3)));
    c.process(&hidden);
    for k in 0..4 {
        assert!(is_empty(slot(&c, k)));
    }
}

#[test]
fn comment_node_contributes_nothing() {
    let n = node(0, Some(NodeType::Comment), style(Display::Block, Float::FloatNone, Position::Static), vec![]);
    let c = build(&n, 1);
    assert!(is_empty(slot(&c, 0)));
}

#[test]
fn whitespace_text_becomes_whitespace_item() {
    let t = text(0, " \n\t");
    let c = build(&t, 1);
    match slot(&c, 0) {
        ConstructionResult::ConstructionItemConstructionResult(ConstructionItem::WhitespaceConstructionItem(k, _)) => {
            assert_eq!(*k, 0)
        },
        _ => panic!("expected white space"),
    }
}

#[test]
fn preserved_whitespace_is_not_ignorable() {
    let mut t = text(0, "  ");
    t.style.white_space = WhiteSpace::Pre;
    let c = build(&t, 1);
    assert!(matches!(
        slot(&c, 0),
        ConstructionResult::ConstructionItemConstructionResult(ConstructionItem::InlineFragmentsConstructionItem(_))
    ));
}

#[test]
fn whitespace_between_blocks_is_dropped() {
    let root = elem(
        0,
        ElementKind::Other,
        Display::Block,
        vec![
            text(1, " "),
            elem(2, ElementKind::Other, Display::Block, vec![]),
            text(3, "\n"),
            elem(4, ElementKind::Other, Display::Block, vec![]),
            text(5, " "),
        ],
    );
    let c = build(&root, 6);
    let f = flow_of(slot(&c, 0));
    assert_eq!(f.children.len(), 2);
    assert_eq!(f.children[0].node, 2);
    assert_eq!(f.children[1].node, 4);
}

#[test]
fn whitespace_inside_inline_becomes_a_space() {
    // <div>a<span> </span>b</div>
    let span = elem(2, ElementKind::Other, Display::Inline, vec![text(3, " ")]);
    let root = elem(0, ElementKind::Other, Display::Block, vec![text(1, "a"), span, text(4, "b")]);
    let c = build(&root, 5);
    let f = flow_of(slot(&c, 0));
    assert_eq!(f.children.len(), 1);
    assert_eq!(texts(&f.children[0]), vec!["a", " ", "b"]);
}

#[test]
fn floated_block_gets_float_kind() {
    let n = node(
        0,
        Some(NodeType::Element(ElementKind::Other)),
        style(Display::Block, Float::Right, Position::Static),
        vec![],
    );
    let c = build(&n, 1);
    let f = flow_of(slot(&c, 0));
    assert_eq!(f.class, FlowClass::Block);
    assert_eq!(f.float_kind, Some(FloatKind::Right));
}

#[test]
fn floated_inline_becomes_floated_block() {
    let n = node(
        0,
        Some(NodeType::Element(ElementKind::Other)),
        style(Display::Inline, Float::Left, Position::Static),
        vec![],
    );
    let c = build(&n, 1);
    assert_eq!(flow_of(slot(&c, 0)).float_kind, Some(FloatKind::Left));
}

#[test]
fn fixed_inline_becomes_block() {
    let n = node(
        0,
        Some(NodeType::Element(ElementKind::Other)),
        style(Display::Inline, Float::Left, Position::Fixed),
        vec![],
    );
    let c = build(&n, 1);
    let f = flow_of(slot(&c, 0));
    assert_eq!(f.class, FlowClass::Block);
    assert_eq!(f.float_kind, None);
    assert_eq!(descendants_of(slot(&c, 0)), vec![0]);
}

#[test]
fn image_is_replaced_content() {
    let mut img = elem(0, ElementKind::Image, Display::Inline, vec![text(1, "ignored")]);
    img.image_url = Some("http://example.com/a.png".chars().collect());
    let c = build(&img, 2);
    assert!(is_empty(slot(&c, 1)));
    match slot(&c, 0) {
        ConstructionResult::ConstructionItemConstructionResult(ConstructionItem::InlineFragmentsConstructionItem(i)) => {
            assert!(i.splits.is_empty());
            assert_eq!(i.fragments.fragments.len(), 1);
            match &i.fragments.fragments[0].specific {
                SpecificFragmentInfo::Image(u) => {
                    assert_eq!(u.iter().collect::<String>(), "http://example.com/a.png")
                },
                _ => panic!("expected an image"),
            }
        },
        _ => panic!("expected a fragment"),
    }
}

#[test]
fn image_without_url_is_generic() {
    let img = elem(0, ElementKind::Image, Display::Inline, vec![]);
    let c = build(&img, 1);
    match slot(&c, 0) {
        ConstructionResult::ConstructionItemConstructionResult(ConstructionItem::InlineFragmentsConstructionItem(i)) => {
            assert!(matches!(i.fragments.fragments[0].specific, SpecificFragmentInfo::Generic))
        },
        _ => panic!("expected a fragment"),
    }
}

#[test]
fn object_with_image_data_is_replaced() {
    let mut obj = elem(0, ElementKind::Object, Display::Inline, vec![text(1, "fallback")]);
    obj.object_data = Some("data:image/png;base64,AAAA".chars().collect());
    assert!(obj.is_replaced_content());
    let c = build(&obj, 2);
    match slot(&c, 0) {
        ConstructionResult::ConstructionItemConstructionResult(ConstructionItem::InlineFragmentsConstructionItem(i)) => {
            assert_eq!(i.fragments.fragments.len(), 1);
            assert!(matches!(i.fragments.fragments[0].specific, SpecificFragmentInfo::Image(_)));
        },
        _ => panic!("expected a fragment"),
    }
}

#[test]
fn object_with_type_renders_children() {
    let mut obj = elem(0, ElementKind::Object, Display::Inline, vec![text(1, "fallback")]);
    obj.object_type = Some("image/png".chars().collect());
    obj.object_data = Some("data:image/png;base64,AAAA".chars().collect());
    assert!(!obj.has_object_data());
    assert!(!obj.is_replaced_content());
    assert!(obj.get_object_data().is_none());
    let c = build(&obj, 2);
    match slot(&c, 0) {
        ConstructionResult::ConstructionItemConstructionResult(ConstructionItem::InlineFragmentsConstructionItem(i)) => {
            assert_eq!(i.fragments.fragments.len(), 1);
            assert!(matches!(i.fragments.fragments[0].specific, SpecificFragmentInfo::UnscannedText(_)));
        },
        _ => panic!("expected inline content"),
    }
}

#[test]
fn column_group_collects_columns() {
    let group = elem(
        0,
        ElementKind::TableCol,
        Display::TableColumnGroup,
        vec![
            elem(1, ElementKind::TableCol, Display::TableColumn, vec![]),
            text(2, "x"),
            elem(3, ElementKind::TableCol, Display::TableColumn, vec![]),
        ],
    );
    let c = build(&group, 4);
    let f = flow_of(slot(&c, 0));
    assert_eq!(f.class, FlowClass::TableColGroup);
    assert_eq!(f.col_fragments.len(), 2);
    assert_eq!(f.col_fragments[0].node, 1);
    assert_eq!(f.col_fragments[1].node, 3);
}

#[test]
fn empty_column_group_gets_one_column() {
    let group = elem(0, ElementKind::TableCol, Display::TableColumnGroup, vec![]);
    let c = build(&group, 1);
    let f = flow_of(slot(&c, 0));
    assert_eq!(f.col_fragments.len(), 1);
    assert_eq!(f.col_fragments[0].node, 0);
    assert!(matches!(f.col_fragments[0].specific, SpecificFragmentInfo::TableColumn));
}

#[test]
fn column_drops_children_and_is_ignored_by_blocks() {
    let col = elem(1, ElementKind::TableCol, Display::TableColumn, vec![text(2, "x")]);
    let root = elem(0, ElementKind::Other, Display::Block, vec![col]);
    let c = build(&root, 3);
    assert!(flow_of(slot(&c, 0)).children.is_empty());
    assert!(is_empty(slot(&c, 1)));
    assert!(is_empty(slot(&c, 2)));
}

#[test]
fn generated_content_uses_its_own_slot() {
    let mut before = node(
        0,
        None,
        style(Display::Block, Float::FloatNone, Position::Static),
        vec![],
    );
    before.pseudo = PseudoElement::Before;
    before.text = "* ".chars().collect();
    let root = elem(0, ElementKind::Other, Display::Block, vec![before, text(1, "body")]);
    let mut c = FlowConstructor::new(ResultStore::new(2));
    c.construct_tree(&root.children[0]);
    assert!(is_empty(slot(&c, 0)));
    assert!(!is_empty(&c.results.slots[1]));
    c.construct_tree(&root.children[1]);
    c.process(&root);
    let f = flow_of(slot(&c, 0));
    assert_eq!(texts(&f.children[0]), vec!["* ", "body"]);
    assert!(is_empty(&c.results.slots[1]));
}

#[test]
fn row_group_wraps_cells_in_anonymous_row() {
    let group = elem(
        0,
        ElementKind::TableSection,
        Display::TableRowGroup,
        vec![elem(1, ElementKind::TableDataCell, Display::TableCell, vec![])],
    );
    let c = build(&group, 2);
    let f = flow_of(slot(&c, 0));
    assert_eq!(f.class, FlowClass::TableRowGroup);
    assert_eq!(f.children.len(), 1);
    assert_eq!(f.children[0].class, FlowClass::TableRow);
    assert!(f.children[0].anonymous);
    assert_eq!(f.children[0].children[0].node, 1);
}

#[test]
fn store_take_leaves_slot_empty() {
    let mut store = ResultStore::new(2);
    store.set(1, PseudoElement::After, ConstructionResult::FlowConstructionResult(
        Flow::new(FlowClass::Block, 1, Position::Static, None, None),
        vec![7],
    ));
    assert!(!is_empty(&store.slots[5]));
    let r = store.take(1, PseudoElement::AfterBlock);
    assert_eq!(descendants_of(&r), vec![7]);
    assert!(is_empty(&store.slots[5]));
    assert_eq!(store.slots.len(), 6);
}

#[test]
fn positioned_table_wrapper_is_containing_block() {
    let d = positioned(3, Display::Block, Position::Absolute, vec![]);
    let cell = elem(2, ElementKind::TableDataCell, Display::TableCell, vec![d]);
    let mut t = elem(0, ElementKind::Table, Display::Table, vec![elem(1, ElementKind::TableRow, Display::TableRow, vec![cell])]);
    t.style.position = Position::Fixed;
    let c = build(&t, 4);
    let r = slot(&c, 0);
    assert_eq!(descendants_of(r), vec![0]);
    let w = flow_of(r);
    assert_eq!(w.abs_descendants, vec![3]);
    assert!(w.children[0].abs_descendants.is_empty());
}

#[test]
fn text_before_row_is_wrapped_after_it() {
    // the run before a refused row waits until the end of the table
    let row = elem(2, ElementKind::TableRow, Display::TableRow, vec![]);
    let t = elem(0, ElementKind::Table, Display::Table, vec![text(1, "a"), row]);
    let c = build(&t, 3);
    let tb = &flow_of(slot(&c, 0)).children[0];
    assert_eq!(tb.children.len(), 1);
    let group = &tb.children[0];
    assert!(group.anonymous);
    assert_eq!(group.children.len(), 2);
    assert_eq!(group.children[0].node, 2);
    assert!(group.children[1].anonymous);
    let cell = &group.children[1].children[0];
    assert_eq!(cell.class, FlowClass::TableCell);
    assert_eq!(texts(&cell.children[0]), vec!["a"]);
}

#[test]
fn waiting_boxes_wrapped_before_split_box() {
    // <tbody><td/> <span><tr/></span></tbody>: the cell waits, then the
    // row met inside the span first wraps it in an anonymous row
    let cell = elem(1, ElementKind::TableDataCell, Display::TableCell, vec![]);
    let row = elem(3, ElementKind::TableRow, Display::TableRow, vec![]);
    let span = elem(2, ElementKind::Other, Display::Inline, vec![row]);
    let group = elem(0, ElementKind::TableSection, Display::TableRowGroup, vec![cell, span]);
    let c = build(&group, 4);
    let f = flow_of(slot(&c, 0));
    assert_eq!(f.children.len(), 2);
    assert!(f.children[0].anonymous);
    assert_eq!(f.children[0].class, FlowClass::TableRow);
    assert_eq!(f.children[0].children[0].node, 1);
    assert_eq!(f.children[1].node, 3);
    assert!(!f.children[1].anonymous);
}
