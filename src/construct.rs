//! The flow constructor: builds each node's construction result from its
//! children's stored results, bottom-up.

use vstd::prelude::*;
use crate::dom::{DomNode, ElementKind, NodeType, spec_is_ignorable_whitespace, spec_is_replaced_content};
use crate::flow::{Flow, FlowClass, accepts_children, children_wrapped, last_named, runs_grouped, wrapped_ok, all_named, boxes_below, boxes_of, boxes_within, lemma_within_prefix, lemma_within_push, same_box, spec_is_table_kind, spec_needs_anonymous, spec_missing_child, wrapper_depth, lemma_wrapper_depth};
use crate::fragment::{
    ElementRange, Fragment, InlineFragments, SpecificFragmentInfo, leading_whitespace, shifted, cut_to,
    dropped_front,
    trailing_whitespace, strip_ignorable_whitespace_from_start, strip_ignorable_whitespace_from_end,
};
use crate::result::{
    ConstructionItem, ConstructionResult, InlineBlockSplit, InlineFragmentsConstructionResult,
    all_split_boxes, captions_of, column_fragments, flows_of, is_caption_result, is_empty_result,
    result_trailing_fragments, trailing_fragments, is_inline_item, inline_item,
    merged_descendants, result_descendants, result_flow, result_split_boxes, result_wf, split_boxes,
    splits_wf,
};
use crate::store::{ResultStore, in_subtree, is_kid_slot, kids_descendants, kids_fit, kids_results, node_slot, tree_fits};
use crate::style::{Display, Float, FloatKind, Position, Style, spec_float_kind, spec_is_positioned, spec_is_out_of_flow};

verus! {

/// Gathers the inline fragments of one parent.
pub struct InlineFragmentsAccumulator {
    pub fragments: InlineFragments,
    /// Whether the first range encloses the whole run: true when the
    /// accumulator holds an inline element's own content.
    pub has_enclosing_range: bool,
}

impl InlineFragmentsAccumulator {
    pub open spec fn wf(&self) -> bool {
        &&& self.fragments.wf()
        &&& self.has_enclosing_range ==> self.fragments.ranges@.len() > 0
            && self.fragments.ranges@[0].begin == 0
    }

    pub fn new() -> (r: InlineFragmentsAccumulator)
        ensures
            r.fragments.fragments@.len() == 0,
            r.fragments.ranges@.len() == 0,
            !r.has_enclosing_range,
            r.wf(),
    {
        InlineFragmentsAccumulator { fragments: InlineFragments::new(), has_enclosing_range: false }
    }

    /// An accumulator for the content of an inline element, opening the
    /// range that will enclose it.
    pub fn from_inline_node(node: &DomNode) -> (r: InlineFragmentsAccumulator)
        ensures
            r.fragments.fragments@.len() == 0,
            r.fragments.ranges@ == seq![ElementRange { node: node.key, style: node.style, begin: 0, end: 0 }],
            r.has_enclosing_range,
            r.wf(),
    {
        let mut fragments = InlineFragments::new();
        fragments.ranges.push(ElementRange { node: node.key, style: node.style, begin: 0, end: 0 });
        assert(fragments.ranges@ =~= seq![ElementRange { node: node.key, style: node.style, begin: 0, end: 0 }]);
        InlineFragmentsAccumulator { fragments, has_enclosing_range: true }
    }

    /// The gathered run, with its enclosing range closed over all of it.
    pub fn finish(self) -> (r: InlineFragments)
        requires
            self.wf(),
        ensures
            r.fragments@ == self.fragments.fragments@,
            r.ranges@ == (if self.has_enclosing_range {
                self.fragments.ranges@.update(
                    0,
                    ElementRange { end: self.fragments.fragments@.len() as usize, ..self.fragments.ranges@[0] },
                )
            } else {
                self.fragments.ranges@
            }),
            r.wf(),
    {
        let InlineFragmentsAccumulator { mut fragments, has_enclosing_range } = self;
        if has_enclosing_range {
            fragments.close_enclosing_range();
        }
        fragments
    }
}

/// Which edge of a run to strip ignorable white space from.
#[derive(Clone, Copy, Debug, PartialEq, Eq, Structural)]
pub enum WhitespaceStrippingMode {
    NoWhitespaceStripping,
    StripWhitespaceFromStart,
    StripWhitespaceFromEnd,
}

/// A run with its white-space-only edge fragments removed as `m` asks.
pub open spec fn spec_stripped(s: Seq<Fragment>, m: WhitespaceStrippingMode) -> Seq<Fragment> {
    match m {
        WhitespaceStrippingMode::NoWhitespaceStripping => s,
        WhitespaceStrippingMode::StripWhitespaceFromStart => s.subrange(
            leading_whitespace(s) as int,
            s.len() as int,
        ),
        WhitespaceStrippingMode::StripWhitespaceFromEnd => s.subrange(
            0,
            s.len() - trailing_whitespace(s),
        ),
    }
}

/// `c` is an inline box of node `key` holding exactly `frags`.
pub open spec fn is_inline_box_of(c: Flow, frags: Seq<Fragment>, key: usize) -> bool {
    &&& c.class == FlowClass::Inline
    &&& c.node == key
    &&& !c.anonymous
    &&& c.position == Position::Static
    &&& c.float_kind.is_none()
    &&& c.fragment.is_none()
    &&& c.children@.len() == 0
    &&& c.abs_descendants@.len() == 0
    &&& c.fragments.fragments@ == frags
}

/// The ranges of a gathered run once the enclosing range is closed.
pub open spec fn finished_ranges(a: InlineFragmentsAccumulator) -> Seq<ElementRange> {
    if a.has_enclosing_range {
        a.fragments.ranges@.update(
            0,
            ElementRange { end: a.fragments.fragments@.len() as usize, ..a.fragments.ranges@[0] },
        )
    } else {
        a.fragments.ranges@
    }
}

/// The ranges of a run of fragments `frags` once stripped as `m` asks.
pub open spec fn stripped_ranges(
    ranges: Seq<ElementRange>,
    frags: Seq<Fragment>,
    m: WhitespaceStrippingMode,
) -> Seq<ElementRange> {
    match m {
        WhitespaceStrippingMode::NoWhitespaceStripping => ranges,
        WhitespaceStrippingMode::StripWhitespaceFromStart => ranges.map_values(
            |r: ElementRange| dropped_front(r, leading_whitespace(frags)),
        ),
        WhitespaceStrippingMode::StripWhitespaceFromEnd => ranges.map_values(
            |r: ElementRange| cut_to(r, (frags.len() - trailing_whitespace(frags)) as nat),
        ),
    }
}

/// `i` is the inline box flushing accumulator `a` with stripping `m` makes.
pub open spec fn flushed_box(i: Flow, a: InlineFragmentsAccumulator, m: WhitespaceStrippingMode, key: usize) -> bool {
    &&& is_inline_box_of(i, spec_stripped(a.fragments.fragments@, m), key)
    &&& i.fragments.ranges@ == stripped_ranges(finished_ranges(a), a.fragments.fragments@, m)
}

/// Turns the gathered fragments into an inline box, after stripping white
/// space as `mode` asks, and attaches it to `flow` or, where `flow` refuses
/// inline boxes, puts it on `flow_list`. An empty run adds nothing.
fn flush_inline_fragments_to_flow_or_list(
    fragment_accumulator: InlineFragmentsAccumulator,
    flow: &mut Flow,
    flow_list: &mut Vec<Flow>,
    whitespace_stripping: WhitespaceStrippingMode,
    node: &DomNode,
    reduction: Ghost<Reduction>,
)
    requires
        fragment_accumulator.wf(),
        children_match(boxes_of(*old(flow)), reduction@.0, node.key),
        children_match(old(flow_list)@, reduction@.1, node.key),
    ensures
        same_box(*final(flow), *old(flow)),
        children_match(
            boxes_of(*final(flow)),
            put_run(reduction@, (fragment_accumulator.fragments.fragments@, finished_ranges(fragment_accumulator)), whitespace_stripping, old(flow).class).0,
            node.key,
        ),
        children_match(
            final(flow_list)@,
            put_run(reduction@, (fragment_accumulator.fragments.fragments@, finished_ranges(fragment_accumulator)), whitespace_stripping, old(flow).class).1,
            node.key,
        ),
        spec_stripped(fragment_accumulator.fragments.fragments@, whitespace_stripping).len() == 0 ==> {
            &&& *final(flow) == *old(flow)
            &&& final(flow_list)@ == old(flow_list)@
        },
        spec_stripped(fragment_accumulator.fragments.fragments@, whitespace_stripping).len() > 0 ==> exists|i: Flow|
            #[trigger] flushed_box(i, fragment_accumulator, whitespace_stripping, node.key) && if spec_needs_anonymous(
                old(flow).class,
                FlowClass::Inline,
            ) {
                *final(flow) == *old(flow) && final(flow_list)@ == old(flow_list)@.push(i)
            } else {
                final(flow).children@ == old(flow).children@.push(i) && final(flow_list)@ == old(flow_list)@
            },
        final(flow_list)@.len() != old(flow_list)@.len() ==> wrapper_depth(old(flow).class) > 0,
        accepts_children(*old(flow)) ==> accepts_children(*final(flow)),
        children_wrapped(*old(flow)) ==> children_wrapped(*final(flow)),
        runs_grouped(*old(flow)) && last_named(*old(flow)) ==> runs_grouped(*final(flow)) && last_named(*final(flow)),
        all_named(old(flow_list)@) ==> all_named(final(flow_list)@),
        all_named(old(flow).children@) ==> all_named(final(flow).children@),
{
    let ghost s = fragment_accumulator.fragments.fragments@;
    let ghost a0 = fragment_accumulator;
    let mut fragments = fragment_accumulator.finish();
    if fragments.len() == 0 {
        assert(s.subrange(0, 0) =~= s);
        return;
    }
    match whitespace_stripping {
        WhitespaceStrippingMode::NoWhitespaceStripping => {},
        WhitespaceStrippingMode::StripWhitespaceFromStart => {
            strip_ignorable_whitespace_from_start(&mut fragments);
            if fragments.len() == 0 {
                return;
            }
        },
        WhitespaceStrippingMode::StripWhitespaceFromEnd => {
            strip_ignorable_whitespace_from_end(&mut fragments);
            if fragments.len() == 0 {
                return;
            }
        },
    }
    assert(fragments.fragments@ == spec_stripped(s, whitespace_stripping));
    let inline_flow = Flow::from_fragments(node.key, fragments);
    let ghost c = inline_flow;
    assert(flushed_box(c, a0, whitespace_stripping, node.key));
    let ghost piece = run_piece((s, finished_ranges(a0)), whitespace_stripping)[0];
    let ghost flow0 = *flow;
    let ghost list0 = flow_list@;
    proof {
        lemma_wrapper_depth(flow.class, c.class);
        assert(piece_fits(c, piece, node.key));
        assert(piece_class(piece) == FlowClass::Inline);
    }
    if flow.need_anonymous_flow(&inline_flow) {
        flow_list.push(inline_flow);
        proof {
            lemma_match_push(list0, reduction@.1, c, piece, node.key);
        }
    } else {
        flow.add_new_child(inline_flow);
        proof {
            lemma_boxes_push(flow0, *flow, c);
            lemma_match_push(boxes_of(flow0), reduction@.0, c, piece, node.key);
        }
    }
}

/// Wraps a run of boxes that `flow` refuses in the anonymous box `flow` is
/// missing (CSS 2.1 §17.2.1, step 2), nesting further anonymous boxes where
/// that one refuses some of them, and attaches it as `flow`'s last child.
fn generate_anonymous_missing_child(child_flows: Vec<Flow>, flow: &mut Flow, node: &DomNode)
    requires
        wrapper_depth(old(flow).class) > 0,
        all_named(child_flows@),
    ensures
        boxes_below(final(flow).children@.last()) == child_flows@,
        same_box(*final(flow), *old(flow)),
        final(flow).children@.len() == old(flow).children@.len() + 1,
        final(flow).children@.drop_last() == old(flow).children@,
        final(flow).children@.last().class == spec_missing_child(old(flow).class),
        final(flow).children@.last().anonymous,
        final(flow).children@.last().node == node.key,
        accepts_children(final(flow).children@.last()),
        accepts_children(*old(flow)) ==> accepts_children(*final(flow)),
        wrapped_ok(final(flow).children@.last(), old(flow).class),
        children_wrapped(*old(flow)) ==> children_wrapped(*final(flow)),
        runs_grouped(*old(flow)) && (old(flow).children@.len() == 0 || !old(flow).children@.last().anonymous)
            ==> runs_grouped(*final(flow)),
    decreases wrapper_depth(old(flow).class),
{
    let mut anonymous_flow = flow.generate_missing_child_flow(node.key, node.style);
    assert(runs_grouped(anonymous_flow)) by {
        reveal(runs_grouped);
    }
    let ghost anon_class = anonymous_flow.class;
    let ghost run = child_flows@;
    let mut consecutive_siblings: Vec<Flow> = Vec::new();
    assert(boxes_within(anonymous_flow, 0) =~= Seq::<Flow>::empty());
    for kid_flow in it: child_flows.into_iter()
        invariant
            it.seq() == run,
            all_named(run),
            all_named(consecutive_siblings@),
            boxes_within(anonymous_flow, anonymous_flow.children@.len() as int) + consecutive_siblings@
                == run.subrange(0, it.index() as int),
            anonymous_flow.class == anon_class,
            anon_class == spec_missing_child(flow.class),
            anonymous_flow.anonymous,
            anonymous_flow.node == node.key,
            accepts_children(anonymous_flow),
            children_wrapped(anonymous_flow),
            runs_grouped(anonymous_flow),
            anonymous_flow.children@.len() > 0 ==> !anonymous_flow.children@.last().anonymous,
            consecutive_siblings@.len() > 0 ==> wrapper_depth(anon_class) > 0,
            wrapper_depth(anon_class) < wrapper_depth(flow.class),
    {
        let ghost idx = it.index() as int;
        assert(kid_flow == run[idx]);
        assert(run.subrange(0, idx + 1) =~= run.subrange(0, idx).push(kid_flow));
        if anonymous_flow.need_anonymous_flow(&kid_flow) {
            proof {
                lemma_wrapper_depth(anon_class, kid_flow.class);
            }
            let ghost before = consecutive_siblings@;
            consecutive_siblings.push(kid_flow);
            assert(consecutive_siblings@ == before.push(kid_flow));
            assert(boxes_within(anonymous_flow, anonymous_flow.children@.len() as int) + consecutive_siblings@
                =~= run.subrange(0, idx + 1));
        } else {
            if consecutive_siblings.len() > 0 {
                let mut siblings: Vec<Flow> = Vec::new();
                std::mem::swap(&mut consecutive_siblings, &mut siblings);
                let ghost a0 = anonymous_flow;
                generate_anonymous_missing_child(siblings, &mut anonymous_flow, node);
                proof {
                    assert(anonymous_flow.children@ =~= a0.children@.push(anonymous_flow.children@.last()));
                    lemma_within_push(a0, anonymous_flow, anonymous_flow.children@.last());
                    assert(consecutive_siblings@ =~= Seq::<Flow>::empty());
                }
            }
            let ghost a1 = anonymous_flow;
            anonymous_flow.add_new_child(kid_flow);
            proof {
                lemma_within_push(a1, anonymous_flow, kid_flow);
                assert(boxes_below(kid_flow) == seq![kid_flow]);
                assert(boxes_within(anonymous_flow, anonymous_flow.children@.len() as int) + consecutive_siblings@
                    =~= run.subrange(0, idx + 1));
            }
        }
    }
    if consecutive_siblings.len() > 0 {
        let ghost a0 = anonymous_flow;
        generate_anonymous_missing_child(consecutive_siblings, &mut anonymous_flow, node);
        proof {
            assert(anonymous_flow.children@ =~= a0.children@.push(anonymous_flow.children@.last()));
            lemma_within_push(a0, anonymous_flow, anonymous_flow.children@.last());
        }
    } else {
        assert(consecutive_siblings@ =~= Seq::<Flow>::empty());
    }
    assert(run.subrange(0, run.len() as int) =~= run);
    assert(boxes_within(anonymous_flow, anonymous_flow.children@.len() as int) =~= run);
    let ghost anon = anonymous_flow;
    assert(wrapped_ok(anon, flow.class));
    flow.add_new_child(anonymous_flow);
    assert(flow.children@.last() == anon);
}

/// A run of inline fragments with the ranges of the inline elements
/// enclosing them.
pub type Run = (Seq<Fragment>, Seq<ElementRange>);

/// The empty run.
pub open spec fn empty_run() -> Run {
    (Seq::empty(), Seq::empty())
}

/// Run `a` extended by `b`, `b`'s ranges moved along with its fragments.
pub open spec fn run_with(a: Run, b: InlineFragments) -> Run {
    (a.0 + b.fragments@, a.1 + b.ranges@.map_values(|r: ElementRange| shifted(r, a.0.len())))
}

/// What a box built from its children's results receives, in order: a run
/// of inline fragments, `(true, run, _)`, which becomes an inline box; or a
/// finished box, `(false, _, box)`.
pub type Piece = (bool, Run, Flow);

/// The inline box a gathered run gives once stripped as `m` asks, if any.
pub open spec fn run_piece(pending: Run, m: WhitespaceStrippingMode) -> Seq<Piece> {
    if spec_stripped(pending.0, m).len() == 0 {
        Seq::empty()
    } else {
        seq![(true, (spec_stripped(pending.0, m), stripped_ranges(pending.1, pending.0, m)), arbitrary())]
    }
}

/// A finished box, as a piece.
pub open spec fn box_piece(f: Flow) -> Piece {
    (false, empty_run(), f)
}

/// Leading white space is stripped from the first run of a box.
pub open spec fn lead_mode(first: bool) -> WhitespaceStrippingMode {
    if first {
        WhitespaceStrippingMode::StripWhitespaceFromStart
    } else {
        WhitespaceStrippingMode::NoWhitespaceStripping
    }
}

/// A box's reduction of its children's results so far: the pieces placed
/// under it (anonymous boxes looked through), the pieces waiting for an
/// anonymous box because it refuses them, the inline run still open, and
/// whether no box has been placed yet.
pub type Reduction = (Seq<Piece>, Seq<Piece>, Run, bool);

/// The class of the box a piece stands for.
pub open spec fn piece_class(p: Piece) -> FlowClass {
    if p.0 {
        FlowClass::Inline
    } else {
        p.2.class
    }
}

/// `p` placed under a box of class `class`, or left waiting where the class
/// refuses it.
pub open spec fn put(r: Reduction, p: Piece, class: FlowClass) -> Reduction {
    if spec_needs_anonymous(class, piece_class(p)) {
        (r.0, r.1.push(p), r.2, r.3)
    } else {
        (r.0.push(p), r.1, r.2, r.3)
    }
}

/// The inline box of a closed run, if any, placed or left waiting.
pub open spec fn put_run(r: Reduction, run: Run, m: WhitespaceStrippingMode, class: FlowClass) -> Reduction {
    if run_piece(run, m).len() == 0 {
        r
    } else {
        put(r, run_piece(run, m)[0], class)
    }
}

/// Replays {ib} splits onto a box of class `class`: each split's
/// predecessors close the open run (stripped at its start where no box was
/// placed yet), then its block box is taken as a child box is: it waits
/// where the class refuses it, else what was waiting goes under one
/// anonymous box and the block box follows.
pub open spec fn replay(r: Reduction, splits: Seq<InlineBlockSplit>, class: FlowClass) -> Reduction
    decreases splits.len(),
{
    if splits.len() == 0 {
        r
    } else {
        let prev = replay(r, splits.drop_last(), class);
        let full = run_with(prev.2, splits.last().predecessors);
        let closed = put_run((prev.0, prev.1, empty_run(), false), full, lead_mode(prev.3), class);
        let f = splits.last().flow;
        if spec_needs_anonymous(class, f.class) {
            (closed.0, closed.1.push(box_piece(f)), closed.2, closed.3)
        } else {
            (closed.0 + closed.1 + seq![box_piece(f)], Seq::empty(), closed.2, closed.3)
        }
    }
}

/// One child's result consumed by a box of class `class`. A box it refuses
/// waits. A box it takes closes the open run (stripped at its start where it
/// is the first, or where the parent is of the table model), then what was
/// waiting goes under one anonymous box, then the box itself. A table leaves
/// a caption alone. An inline item replays its splits and extends the open
/// run; anything else changes nothing.
pub open spec fn step(r: Reduction, res: ConstructionResult, class: FlowClass) -> Reduction {
    match res {
        ConstructionResult::FlowConstructionResult(f, _) => if class == FlowClass::Table
            && f.class == FlowClass::TableCaption {
            r
        } else if spec_needs_anonymous(class, f.class) {
            (r.0, r.1.push(box_piece(f)), r.2, r.3)
        } else {
            let closed = put_run(
                (r.0, r.1, empty_run(), false),
                r.2,
                lead_mode(spec_is_table_kind(class) || r.3),
                class,
            );
            (closed.0 + closed.1 + seq![box_piece(f)], Seq::empty(), empty_run(), false)
        },
        ConstructionResult::ConstructionItemConstructionResult(
            ConstructionItem::InlineFragmentsConstructionItem(i),
        ) => {
            let q = replay(r, i.splits@, class);
            (q.0, q.1, run_with(q.2, i.fragments), q.3)
        },
        _ => r,
    }
}

/// The children's results consumed in order by a box of class `class`.
pub open spec fn fold_pieces(rs: Seq<ConstructionResult>, class: FlowClass) -> Reduction
    decreases rs.len(),
{
    if rs.len() == 0 {
        (Seq::empty(), Seq::empty(), empty_run(), true)
    } else {
        step(fold_pieces(rs.drop_last(), class), rs.last(), class)
    }
}

/// The boxes below a box of class `class` built from its children's
/// results, anonymous boxes looked through: the pieces placed, the last run
/// stripped at its end, and what still waited, under one anonymous box.
pub open spec fn block_pieces(rs: Seq<ConstructionResult>, class: FlowClass) -> Seq<Piece> {
    let r = fold_pieces(rs, class);
    let last = put_run(r, r.2, WhitespaceStrippingMode::StripWhitespaceFromEnd, class);
    last.0 + last.1
}

/// The box, the boxes waiting for an anonymous box, the open run and the
/// flag of a reduction in progress are those of `r`.
pub open spec fn tracks(
    r: Reduction,
    flow: Flow,
    waiting: Seq<Flow>,
    acc: InlineFragmentsAccumulator,
    first: bool,
    key: usize,
) -> bool {
    &&& children_match(boxes_of(flow), r.0, key)
    &&& children_match(waiting, r.1, key)
    &&& !acc.has_enclosing_range
    &&& acc.fragments.fragments@ == r.2.0
    &&& acc.fragments.ranges@ == r.2.1
    &&& first == r.3
}

/// Child box `c` is what piece `p` stands for.
pub open spec fn piece_fits(c: Flow, p: Piece, key: usize) -> bool {
    if p.0 {
        is_inline_box_of(c, p.1.0, key) && c.fragments.ranges@ == p.1.1
    } else {
        c == p.2
    }
}

/// The boxes `children` are the pieces, one for one.
pub open spec fn children_match(children: Seq<Flow>, pieces: Seq<Piece>, key: usize) -> bool {
    &&& children.len() == pieces.len()
    &&& forall|i: int| 0 <= i < children.len() ==> piece_fits(#[trigger] children[i], pieces[i], key)
}

proof fn lemma_match_push(s: Seq<Flow>, w: Seq<Piece>, c: Flow, p: Piece, key: usize)
    requires
        children_match(s, w, key),
        piece_fits(c, p, key),
    ensures
        children_match(s.push(c), w.push(p), key),
{
    assert forall|i: int| 0 <= i < s.push(c).len() implies piece_fits(#[trigger] s.push(c)[i], w.push(p)[i], key) by {
        if i < s.len() {
            assert(s.push(c)[i] == s[i]);
        }
    }
}

proof fn lemma_match_concat(s1: Seq<Flow>, w1: Seq<Piece>, s2: Seq<Flow>, w2: Seq<Piece>, key: usize)
    requires
        children_match(s1, w1, key),
        children_match(s2, w2, key),
    ensures
        children_match(s1 + s2, w1 + w2, key),
{
    assert forall|i: int| 0 <= i < (s1 + s2).len() implies piece_fits(#[trigger] (s1 + s2)[i], (w1 + w2)[i], key) by {
        if i < s1.len() {
            assert((s1 + s2)[i] == s1[i]);
        } else {
            assert((s1 + s2)[i] == s2[i - s1.len()]);
        }
    }
}

/// A named box added as a last child adds itself to the boxes below.
proof fn lemma_boxes_push(f: Flow, g: Flow, c: Flow)
    requires
        g.children@ == f.children@.push(c),
        !c.anonymous,
    ensures
        boxes_of(g) == boxes_of(f).push(c),
{
    lemma_within_push(f, g, c);
    assert(boxes_below(c) == seq![c]);
    assert(boxes_of(f) + seq![c] =~= boxes_of(f).push(c));
}

/// What a child's slot holds after its parent consumed it: nothing, except
/// that a table leaves a caption's box in place, with no descendants, for
/// the table wrapper to collect.
pub open spec fn left_behind(parent_is_table: bool, before: ConstructionResult, after: ConstructionResult) -> bool {
    if parent_is_table && is_caption_result(before) {
        after is FlowConstructionResult && result_flow(after) == result_flow(before)
            && result_descendants(after).len() == 0
    } else {
        is_empty_result(after)
    }
}

/// A child's result that puts nothing under its parent of class `class`:
/// nothing, white space, a column, or a caption left for a table's wrapper.
pub open spec fn places_nothing(class: FlowClass, r: ConstructionResult) -> bool {
    (!(r is FlowConstructionResult) && !is_inline_item(r)) || (class == FlowClass::Table && is_caption_result(r))
}

/// A child's box that its parent of class `class` refuses.
pub open spec fn refuses_box(class: FlowClass, r: ConstructionResult) -> bool {
    r is FlowConstructionResult && !(class == FlowClass::Table && is_caption_result(r))
        && spec_needs_anonymous(class, result_flow(r).class)
}

/// A child's box that its parent of class `class` takes directly.
pub open spec fn takes_box(class: FlowClass, r: ConstructionResult) -> bool {
    r is FlowConstructionResult && !(class == FlowClass::Table && is_caption_result(r))
        && !spec_needs_anonymous(class, result_flow(r).class)
}

/// An accumulator as `InlineFragmentsAccumulator::new` makes it.
pub open spec fn is_fresh(a: InlineFragmentsAccumulator) -> bool {
    a.fragments.fragments@.len() == 0 && a.fragments.ranges@.len() == 0 && !a.has_enclosing_range
}

/// Builds flows out of document nodes, keeping every node's latest result in
/// its store.
pub struct FlowConstructor {
    pub results: ResultStore,
}

impl FlowConstructor {
    /// A constructor working on the given store.
    pub fn new(results: ResultStore) -> (r: FlowConstructor)
        ensures
            r.results == results,
    {
        FlowConstructor { results }
    }

    /// Consumes one child's result while building `flow`: attaches its boxes,
    /// or buffers those `flow` refuses, gathers its inline fragments, and
    /// collects its absolutely positioned descendants.
    fn build_block_flow_using_children_construction_result(
        &mut self,
        flow: &mut Flow,
        consecutive_siblings: &mut Vec<Flow>,
        node: &DomNode,
        kid: &DomNode,
        inline_fragment_accumulator: &mut InlineFragmentsAccumulator,
        abs_descendants: &mut Vec<usize>,
        first_fragment: &mut bool,
        reduction: Ghost<Reduction>,
    )
        requires
            old(self).results.wf(),
            old(self).results.has(kid.key),
            old(inline_fragment_accumulator).wf(),
            old(consecutive_siblings)@.len() > 0 ==> wrapper_depth(old(flow).class) > 0,
            all_named(old(consecutive_siblings)@),
            tracks(
                reduction@,
                *old(flow),
                old(consecutive_siblings)@,
                *old(inline_fragment_accumulator),
                *old(first_fragment),
                node.key,
            ),
        ensures
            all_named(final(consecutive_siblings)@),
            final(self).results.wf(),
            final(inline_fragment_accumulator).wf(),
            final(consecutive_siblings)@.len() > 0 ==> wrapper_depth(final(flow).class) > 0,
            same_box(*final(flow), *old(flow)),
            accepts_children(*old(flow)) ==> accepts_children(*final(flow)),
            children_wrapped(*old(flow)) ==> children_wrapped(*final(flow)),
            runs_grouped(*old(flow)) && last_named(*old(flow)) ==> runs_grouped(*final(flow)) && last_named(
                *final(flow),
            ),
            wrapper_depth(old(flow).class) == 0 && all_named(old(flow).children@) ==> all_named(
                final(flow).children@,
            ),
            final(abs_descendants)@ == old(abs_descendants)@ + result_descendants(
                old(self).results.slots@[node_slot(*kid)],
            ),
            final(self).results.slots@ == old(self).results.slots@.update(
                node_slot(*kid),
                final(self).results.slots@[node_slot(*kid)],
            ),
            left_behind(
                old(flow).class == FlowClass::Table,
                old(self).results.slots@[node_slot(*kid)],
                final(self).results.slots@[node_slot(*kid)],
            ),
            places_nothing(old(flow).class, old(self).results.slots@[node_slot(*kid)]) ==> {
                &&& *final(flow) == *old(flow)
                &&& final(consecutive_siblings)@ == old(consecutive_siblings)@
                &&& *final(inline_fragment_accumulator) == *old(inline_fragment_accumulator)
                &&& *final(first_fragment) == *old(first_fragment)
            },
            refuses_box(old(flow).class, old(self).results.slots@[node_slot(*kid)]) ==> {
                &&& *final(flow) == *old(flow)
                &&& final(consecutive_siblings)@ == old(consecutive_siblings)@.push(
                    result_flow(old(self).results.slots@[node_slot(*kid)]),
                )
                &&& *final(inline_fragment_accumulator) == *old(inline_fragment_accumulator)
                &&& *final(first_fragment) == *old(first_fragment)
            },
            takes_box(old(flow).class, old(self).results.slots@[node_slot(*kid)]) ==> {
                &&& is_fresh(*final(inline_fragment_accumulator))
                &&& final(consecutive_siblings)@.len() == 0
                &&& final(flow).children@.len() > old(flow).children@.len()
                &&& final(flow).children@.subrange(0, old(flow).children@.len() as int) == old(flow).children@
                &&& final(flow).children@.last() == result_flow(old(self).results.slots@[node_slot(*kid)])
                &&& !*final(first_fragment)
            },
            is_inline_item(old(self).results.slots@[node_slot(*kid)]) && inline_item(
                old(self).results.slots@[node_slot(*kid)],
            ).splits@.len() == 0 ==> {
                let i = inline_item(old(self).results.slots@[node_slot(*kid)]);
                let acc0 = *old(inline_fragment_accumulator);
                let acc1 = *final(inline_fragment_accumulator);
                &&& *final(flow) == *old(flow)
                &&& final(consecutive_siblings)@ == old(consecutive_siblings)@
                &&& *final(first_fragment) == *old(first_fragment)
                &&& acc1.has_enclosing_range == acc0.has_enclosing_range
                &&& acc1.fragments.fragments@ == acc0.fragments.fragments@ + i.fragments.fragments@
                &&& acc1.fragments.ranges@ == acc0.fragments.ranges@ + i.fragments.ranges@.map_values(
                    |r: ElementRange| shifted(r, acc0.fragments.fragments@.len()),
                )
            },
            tracks(
                step(reduction@, old(self).results.slots@[node_slot(*kid)], old(flow).class),
                *final(flow),
                final(consecutive_siblings)@,
                *final(inline_fragment_accumulator),
                *final(first_fragment),
                node.key,
            ),
    {
        let ghost r0 = reduction@;
        let ghost flow0 = *flow;
        match self.results.take(kid.key, kid.pseudo) {
            ConstructionResult::NoConstructionResult => {},
            ConstructionResult::FlowConstructionResult(kid_flow, kid_abs_descendants) => {
                if flow.is_table() && kid_flow.is_table_caption() {
                    // A caption goes under the table wrapper, which collects it later.
                    self.results.set(
                        kid.key,
                        kid.pseudo,
                        ConstructionResult::FlowConstructionResult(kid_flow, Vec::new()),
                    );
                } else if flow.need_anonymous_flow(&kid_flow) {
                    let ghost list0 = consecutive_siblings@;
                    let ghost kf = kid_flow;
                    consecutive_siblings.push(kid_flow);
                    proof {
                        lemma_match_push(list0, r0.1, kf, box_piece(kf), node.key);
                    }
                } else {
                    // Ignorable white space at the start of a box goes (CSS 2.1 §9.2.1.1).
                    let ghost mode = lead_mode(spec_is_table_kind(flow.class) || *first_fragment);
                    let whitespace_stripping = if flow.class.is_table_kind() || *first_fragment {
                        *first_fragment = false;
                        WhitespaceStrippingMode::StripWhitespaceFromStart
                    } else {
                        WhitespaceStrippingMode::NoWhitespaceStripping
                    };
                    assert(whitespace_stripping == mode);
                    let mut acc = InlineFragmentsAccumulator::new();
                    std::mem::swap(inline_fragment_accumulator, &mut acc);
                    assert(inline_fragment_accumulator.fragments.fragments@ =~= Seq::<Fragment>::empty());
                    assert(inline_fragment_accumulator.fragments.ranges@ =~= Seq::<ElementRange>::empty());
                    assert((acc.fragments.fragments@, finished_ranges(acc)) == (acc.fragments.fragments@, acc.fragments.ranges@));
                    let ghost closing: Reduction = (r0.0, r0.1, empty_run(), false);
                    let ghost closed = put_run(closing, r0.2, mode, flow0.class);
                    flush_inline_fragments_to_flow_or_list(
                        acc,
                        flow,
                        consecutive_siblings,
                        whitespace_stripping,
                        node,
                        Ghost(closing),
                    );
                    if consecutive_siblings.len() > 0 {
                        let mut run: Vec<Flow> = Vec::new();
                        std::mem::swap(consecutive_siblings, &mut run);
                        let ghost f1 = *flow;
                        let ghost waiting = run@;
                        generate_anonymous_missing_child(run, flow, node);
                        proof {
                            assert(flow.children@ =~= f1.children@.push(flow.children@.last()));
                            lemma_within_push(f1, *flow, flow.children@.last());
                            lemma_match_concat(boxes_of(f1), closed.0, waiting, closed.1, node.key);
                        }
                    } else {
                        proof {
                            assert(closed.1 =~= Seq::<Piece>::empty());
                            assert(closed.0 + closed.1 =~= closed.0);
                        }
                    }
                    let ghost f2 = *flow;
                    let ghost kf = kid_flow;
                    flow.add_new_child(kid_flow);
                    proof {
                        lemma_boxes_push(f2, *flow, kf);
                        lemma_match_push(boxes_of(f2), closed.0 + closed.1, kf, box_piece(kf), node.key);
                        assert(consecutive_siblings@ =~= Seq::<Flow>::empty());
                    }
                }
                let mut kid_abs_descendants = kid_abs_descendants;
                abs_descendants.append(&mut kid_abs_descendants);
            },
            ConstructionResult::ConstructionItemConstructionResult(
                ConstructionItem::InlineFragmentsConstructionItem(item),
            ) => {
                let InlineFragmentsConstructionResult {
                    splits,
                    fragments: successor_fragments,
                    abs_descendants: kid_abs_descendants,
                } = item;
                let ghost all_splits = splits@;
                let ghost siblings0 = consecutive_siblings@;
                let ghost acc0 = *inline_fragment_accumulator;
                let ghost first0 = *first_fragment;
                for split in it: splits.into_iter()
                    invariant
                        it.seq() == all_splits,
                        it.index() == 0 ==> {
                            &&& *flow == flow0
                            &&& consecutive_siblings@ == siblings0
                            &&& *inline_fragment_accumulator == acc0
                            &&& *first_fragment == first0
                        },
                        splits_wf(all_splits),
                        inline_fragment_accumulator.wf(),
                        same_box(*flow, flow0),
                        accepts_children(flow0) ==> accepts_children(*flow),
                        children_wrapped(flow0) ==> children_wrapped(*flow),
                        runs_grouped(flow0) && last_named(flow0) ==> runs_grouped(*flow) && last_named(*flow),
                        wrapper_depth(flow0.class) == 0 && all_named(flow0.children@) ==> all_named(
                            flow.children@,
                        ),
                        consecutive_siblings@.len() > 0 ==> wrapper_depth(flow.class) > 0,
                        all_named(consecutive_siblings@),
                        tracks(
                            replay(r0, all_splits.subrange(0, it.index() as int), flow0.class),
                            *flow,
                            consecutive_siblings@,
                            *inline_fragment_accumulator,
                            *first_fragment,
                            node.key,
                        ),
                {
                    assert(all_splits[it.index() as int] == split);
                    let ghost idx = it.index() as int;
                    let ghost sp = split;
                    let ghost before = replay(r0, all_splits.subrange(0, idx), flow0.class);
                    proof {
                        assert(all_splits.subrange(0, idx + 1).drop_last() =~= all_splits.subrange(0, idx));
                        assert(all_splits.subrange(0, idx + 1).last() == sp);
                    }
                    let InlineBlockSplit { predecessors, flow: kid_flow } = split;
                    inline_fragment_accumulator.fragments.push_all(predecessors);
                    let ghost mode = lead_mode(*first_fragment);
                    let whitespace_stripping = if *first_fragment {
                        *first_fragment = false;
                        WhitespaceStrippingMode::StripWhitespaceFromStart
                    } else {
                        WhitespaceStrippingMode::NoWhitespaceStripping
                    };
                    let mut acc = InlineFragmentsAccumulator::new();
                    std::mem::swap(inline_fragment_accumulator, &mut acc);
                    assert(inline_fragment_accumulator.fragments.fragments@ =~= Seq::<Fragment>::empty());
                    assert(inline_fragment_accumulator.fragments.ranges@ =~= Seq::<ElementRange>::empty());
                    assert((acc.fragments.fragments@, finished_ranges(acc)) == (acc.fragments.fragments@, acc.fragments.ranges@));
                    let ghost full: Run = (acc.fragments.fragments@, acc.fragments.ranges@);
                    let ghost closing: Reduction = (before.0, before.1, empty_run(), false);
                    let ghost closed = put_run(closing, full, mode, flow0.class);
                    flush_inline_fragments_to_flow_or_list(
                        acc,
                        flow,
                        consecutive_siblings,
                        whitespace_stripping,
                        node,
                        Ghost(closing),
                    );
                    let ghost f1 = *flow;
                    let ghost list1 = consecutive_siblings@;
                    let ghost kf = kid_flow;
                    if flow.need_anonymous_flow(&kid_flow) {
                        proof {
                            lemma_wrapper_depth(flow.class, kid_flow.class);
                        }
                        consecutive_siblings.push(kid_flow);
                        proof {
                            lemma_match_push(list1, closed.1, kf, box_piece(kf), node.key);
                        }
                    } else {
                        // What waits goes under an anonymous box before the block box.
                        if consecutive_siblings.len() > 0 {
                            let mut run: Vec<Flow> = Vec::new();
                            std::mem::swap(consecutive_siblings, &mut run);
                            let ghost waiting = run@;
                            generate_anonymous_missing_child(run, flow, node);
                            proof {
                                assert(flow.children@ =~= f1.children@.push(flow.children@.last()));
                                lemma_within_push(f1, *flow, flow.children@.last());
                                lemma_match_concat(boxes_of(f1), closed.0, waiting, closed.1, node.key);
                            }
                        } else {
                            proof {
                                assert(closed.1 =~= Seq::<Piece>::empty());
                                assert(closed.0 + closed.1 =~= closed.0);
                            }
                        }
                        let ghost f2 = *flow;
                        flow.add_new_child(kid_flow);
                        proof {
                            lemma_boxes_push(f2, *flow, kf);
                            lemma_match_push(boxes_of(f2), closed.0 + closed.1, kf, box_piece(kf), node.key);
                            assert(consecutive_siblings@ =~= Seq::<Flow>::empty());
                        }
                    }
                    proof {
                        assert(full == run_with(before.2, sp.predecessors));
                    }
                }
                proof {
                    assert(all_splits.subrange(0, all_splits.len() as int) =~= all_splits);
                }
                inline_fragment_accumulator.fragments.push_all(successor_fragments);
                let mut kid_abs_descendants = kid_abs_descendants;
                abs_descendants.append(&mut kid_abs_descendants);
            },
            ConstructionResult::ConstructionItemConstructionResult(
                ConstructionItem::WhitespaceConstructionItem(..),
            ) => {
                // Its fragment is made when an inline collects it; a box drops it.
            },
            ConstructionResult::ConstructionItemConstructionResult(
                ConstructionItem::TableColumnFragmentConstructionItem(_),
            ) => {
                // Anonymous table objects for a column with no column group
                // (CSS 2.1 §17.2.1, step 3-2) are not built.
            },
        }
    }

    /// Builds `flow` from the results of `node`'s children, in document
    /// order: boxes become its children (wrapped in anonymous boxes where it
    /// refuses them), inline content becomes inline boxes between them, and
    /// absolutely positioned descendants are collected. A positioned `flow`
    /// becomes their containing block and bubbles up only itself, and that
    /// only when it is absolutely positioned itself.
    fn build_flow_using_children(&mut self, flow: Flow, node: &DomNode) -> (r: ConstructionResult)
        requires
            old(self).results.wf(),
            kids_fit(*node, old(self).results.slots@.len()),
            flow.abs_descendants@.len() == 0,
            flow.children@.len() == 0,
        ensures
            final(self).results.wf(),
            r is FlowConstructionResult,
            accepts_children(result_flow(r)),
            children_wrapped(result_flow(r)),
            runs_grouped(result_flow(r)),
            children_match(
                boxes_of(result_flow(r)),
                block_pieces(kids_results(old(self).results.slots@, node.children@), flow.class),
                node.key,
            ),
            wrapper_depth(flow.class) == 0 ==> all_named(result_flow(r).children@),
            result_flow(r).class == flow.class,
            result_flow(r).node == flow.node,
            result_flow(r).position == flow.position,
            result_flow(r).float_kind == flow.float_kind,
            result_flow(r).anonymous == flow.anonymous,
            anchored(
                flow.position,
                flow.node,
                merged_descendants(kids_results(old(self).results.slots@, node.children@)),
                r,
            ),
            final(self).results.slots@.len() == old(self).results.slots@.len(),
            forall|i: int| 0 <= i < node.children@.len() ==> left_behind(
                flow.class == FlowClass::Table,
                old(self).results.slots@[node_slot(#[trigger] node.children@[i])],
                final(self).results.slots@[node_slot(node.children@[i])],
            ),
            forall|j: int| 0 <= j < old(self).results.slots@.len() && !is_kid_slot(*node, j)
                ==> #[trigger] final(self).results.slots@[j] == old(self).results.slots@[j],
    {
        let mut flow = flow;
        let ghost flow0 = flow;
        let ghost slots0 = self.results.slots@;
        let ghost kids = node.children@;
        let mut inline_fragment_accumulator = InlineFragmentsAccumulator::new();
        let mut consecutive_siblings: Vec<Flow> = Vec::new();
        let mut first_fragment = true;
        let mut abs_descendants: Vec<usize> = Vec::new();
        assert(runs_grouped(flow)) by {
            reveal(runs_grouped);
        }
        proof {
            assert(boxes_of(flow0) =~= Seq::<Flow>::empty());
            assert(consecutive_siblings@ =~= Seq::<Flow>::empty());
            assert(inline_fragment_accumulator.fragments.fragments@ =~= Seq::<Fragment>::empty());
            assert(inline_fragment_accumulator.fragments.ranges@ =~= Seq::<ElementRange>::empty());
            assert(kids.subrange(0, 0) =~= Seq::<DomNode>::empty());
            assert(kids_results(slots0, kids.subrange(0, 0)) =~= Seq::<ConstructionResult>::empty());
        }
        let mut i: usize = 0;
        while i < node.children.len()
            invariant
                i <= kids.len(),
                kids == node.children@,
                kids_fit(*node, slots0.len()),
                self.results.wf(),
                self.results.slots@.len() == slots0.len(),
                inline_fragment_accumulator.wf(),
                same_box(flow, flow0),
                accepts_children(flow),
                children_wrapped(flow),
                runs_grouped(flow),
                last_named(flow),
                consecutive_siblings@.len() > 0 ==> wrapper_depth(flow.class) > 0,
                all_named(consecutive_siblings@),
                flow0.children@.len() == 0,
                wrapper_depth(flow0.class) == 0 ==> all_named(flow.children@),
                tracks(
                    fold_pieces(kids_results(slots0, kids.subrange(0, i as int)), flow0.class),
                    flow,
                    consecutive_siblings@,
                    inline_fragment_accumulator,
                    first_fragment,
                    node.key,
                ),
                abs_descendants@ == merged_descendants(kids_results(slots0, kids.subrange(0, i as int))),
                forall|k: int| 0 <= k < i ==> left_behind(
                    flow0.class == FlowClass::Table,
                    slots0[node_slot(#[trigger] kids[k])],
                    self.results.slots@[node_slot(kids[k])],
                ),
                forall|k: int| i <= k < kids.len() ==>
                    self.results.slots@[node_slot(#[trigger] kids[k])] == slots0[node_slot(kids[k])],
                forall|j: int| 0 <= j < slots0.len() && !is_kid_slot(*node, j)
                    ==> #[trigger] self.results.slots@[j] == slots0[j],
            decreases kids.len() - i,
        {
            let kid = &node.children[i];
            assert(kid == kids[i as int]);
            let ghost before = self.results.slots@;
            let ghost prev = fold_pieces(kids_results(slots0, kids.subrange(0, i as int)), flow0.class);
            self.build_block_flow_using_children_construction_result(
                &mut flow,
                &mut consecutive_siblings,
                node,
                kid,
                &mut inline_fragment_accumulator,
                &mut abs_descendants,
                &mut first_fragment,
                Ghost(prev),
            );
            proof {
                let prefix = kids.subrange(0, i as int);
                let next = kids.subrange(0, i + 1);
                assert(next.drop_last() =~= prefix);
                assert(kids_results(slots0, next).drop_last() =~= kids_results(slots0, prefix));
                assert(kids_results(slots0, next).last() == slots0[node_slot(kids[i as int])]);
                assert forall|k: int| i < k < kids.len() implies
                    self.results.slots@[node_slot(#[trigger] kids[k])] == slots0[node_slot(kids[k])] by {
                    assert(node_slot(kids[k]) != node_slot(kids[i as int]));
                }
                assert forall|k: int| 0 <= k < i implies left_behind(
                    flow0.class == FlowClass::Table,
                    slots0[node_slot(#[trigger] kids[k])],
                    self.results.slots@[node_slot(kids[k])],
                ) by {
                    assert(node_slot(kids[k]) != node_slot(kids[i as int]));
                }
                assert forall|j: int| 0 <= j < slots0.len() && !is_kid_slot(*node, j)
                    implies #[trigger] self.results.slots@[j] == slots0[j] by {
                    if j == node_slot(kids[i as int]) {
                        assert(is_kid_slot(*node, j));
                    }
                }
            }
            i = i + 1;
        }
        assert(kids.subrange(0, i as int) =~= kids);
        let ghost folded = fold_pieces(kids_results(slots0, kids), flow0.class);
        let ghost last = put_run(folded, folded.2, WhitespaceStrippingMode::StripWhitespaceFromEnd, flow0.class);
        flush_inline_fragments_to_flow_or_list(
            inline_fragment_accumulator,
            &mut flow,
            &mut consecutive_siblings,
            WhitespaceStrippingMode::StripWhitespaceFromEnd,
            node,
            Ghost(folded),
        );
        if consecutive_siblings.len() > 0 {
            let ghost f1 = flow;
            let ghost waiting = consecutive_siblings@;
            generate_anonymous_missing_child(consecutive_siblings, &mut flow, node);
            proof {
                assert(flow.children@ =~= f1.children@.push(flow.children@.last()));
                lemma_within_push(f1, flow, flow.children@.last());
                lemma_match_concat(boxes_of(f1), last.0, waiting, last.1, node.key);
            }
        } else {
            proof {
                assert(last.1 =~= Seq::<Piece>::empty());
                assert(last.0 + last.1 =~= last.0);
            }
        }
        anchor_descendants(flow, abs_descendants)
    }

    /// The specific fragment kind of an image: generic where it has no URL.
    fn build_fragment_info_for_image(url: Option<Vec<char>>) -> (r: SpecificFragmentInfo)
        ensures
            url.is_none() ==> r is Generic,
            url.is_some() ==> r is Image && image_url_of(r) == url.unwrap()@,
    {
        match url {
            Option::None => SpecificFragmentInfo::Generic,
            Option::Some(url) => SpecificFragmentInfo::Image(url),
        }
    }

    /// The specific fragment kind for a node's own fragment.
    pub fn build_specific_fragment_info_for_node(&self, node: &DomNode) -> (r: SpecificFragmentInfo)
        ensures
            specific_info_fits(*node, r),
    {
        match node.type_id {
            Option::Some(NodeType::Element(ElementKind::Image)) => {
                let url = match &node.image_url {
                    Option::Some(u) => {
                        let c = u.clone();
                        assert(c@ =~= u@);
                        Option::Some(c)
                    },
                    Option::None => Option::None,
                };
                Self::build_fragment_info_for_image(url)
            },
            Option::Some(NodeType::Element(ElementKind::IFrame)) => SpecificFragmentInfo::Iframe,
            Option::Some(NodeType::Element(ElementKind::Object)) => {
                let data = node.get_object_data();
                Self::build_fragment_info_for_image(data)
            },
            Option::Some(NodeType::Element(ElementKind::Table)) => SpecificFragmentInfo::TableWrapper,
            Option::Some(NodeType::Element(ElementKind::TableCol)) => SpecificFragmentInfo::TableColumn,
            Option::Some(NodeType::Element(ElementKind::TableDataCell))
            | Option::Some(NodeType::Element(ElementKind::TableHeaderCell)) => SpecificFragmentInfo::TableCell,
            Option::Some(NodeType::Element(ElementKind::TableRow))
            | Option::Some(NodeType::Element(ElementKind::TableSection)) => SpecificFragmentInfo::TableRow,
            Option::None | Option::Some(NodeType::Text) => {
                let t = node.text.clone();
                assert(t@ =~= node.text@);
                SpecificFragmentInfo::UnscannedText(t)
            },
            _ => SpecificFragmentInfo::Generic,
        }
    }

    /// A node's own fragment.
    fn fragment_for_node(&self, node: &DomNode) -> (r: Fragment)
        ensures
            r.node == node.key,
            r.style == node.style,
            specific_info_fits(*node, r.specific),
    {
        Fragment { node: node.key, style: node.style, specific: self.build_specific_fragment_info_for_node(node) }
    }

    /// Takes every child's result out of its slot and tears it down.
    fn destroy_children_results(&mut self, node: &DomNode)
        requires
            old(self).results.wf(),
            kids_fit(*node, old(self).results.slots@.len()),
        ensures
            final(self).results.wf(),
            final(self).results.slots@.len() == old(self).results.slots@.len(),
            forall|i: int| 0 <= i < node.children@.len() ==> is_empty_result(
                #[trigger] final(self).results.slots@[node_slot(node.children@[i])],
            ),
            forall|j: int| 0 <= j < old(self).results.slots@.len() && !is_kid_slot(*node, j)
                ==> #[trigger] final(self).results.slots@[j] == old(self).results.slots@[j],
    {
        let ghost slots0 = self.results.slots@;
        let ghost kids = node.children@;
        let mut i: usize = 0;
        while i < node.children.len()
            invariant
                i <= kids.len(),
                kids == node.children@,
                kids_fit(*node, slots0.len()),
                self.results.wf(),
                self.results.slots@.len() == slots0.len(),
                forall|k: int| 0 <= k < i ==> is_empty_result(
                    #[trigger] self.results.slots@[node_slot(kids[k])],
                ),
                forall|j: int| 0 <= j < slots0.len() && !is_kid_slot(*node, j)
                    ==> #[trigger] self.results.slots@[j] == slots0[j],
            decreases kids.len() - i,
        {
            let kid = &node.children[i];
            assert(kid == kids[i as int]);
            let old_result = self.results.take(kid.key, kid.pseudo);
            old_result.destroy();
            proof {
                assert forall|k: int| 0 <= k < i implies is_empty_result(
                    #[trigger] self.results.slots@[node_slot(kids[k])],
                ) by {
                    assert(node_slot(kids[k]) != node_slot(kids[i as int]));
                }
                assert forall|j: int| 0 <= j < slots0.len() && !is_kid_slot(*node, j)
                    implies #[trigger] self.results.slots@[j] == slots0[j] by {
                    if j == node_slot(kids[i as int]) {
                        assert(is_kid_slot(*node, j));
                    }
                }
            }
            i = i + 1;
        }
    }

    /// Empties the slots of all of `node`'s children, dropping what they held.
    fn discard_children_results(&mut self, node: &DomNode)
        requires
            old(self).results.wf(),
            kids_fit(*node, old(self).results.slots@.len()),
        ensures
            final(self).results.wf(),
            final(self).results.slots@.len() == old(self).results.slots@.len(),
            forall|i: int| 0 <= i < node.children@.len() ==> is_empty_result(
                #[trigger] final(self).results.slots@[node_slot(node.children@[i])],
            ),
            forall|j: int| 0 <= j < old(self).results.slots@.len() && !is_kid_slot(*node, j)
                ==> #[trigger] final(self).results.slots@[j] == old(self).results.slots@[j],
    {
        let ghost slots0 = self.results.slots@;
        let ghost kids = node.children@;
        let mut i: usize = 0;
        while i < node.children.len()
            invariant
                i <= kids.len(),
                kids == node.children@,
                kids_fit(*node, slots0.len()),
                self.results.wf(),
                self.results.slots@.len() == slots0.len(),
                forall|k: int| 0 <= k < i ==> is_empty_result(
                    #[trigger] self.results.slots@[node_slot(kids[k])],
                ),
                forall|j: int| 0 <= j < slots0.len() && !is_kid_slot(*node, j)
                    ==> #[trigger] self.results.slots@[j] == slots0[j],
            decreases kids.len() - i,
        {
            let kid = &node.children[i];
            assert(kid == kids[i as int]);
            self.results.set(kid.key, kid.pseudo, ConstructionResult::NoConstructionResult);
            proof {
                assert forall|k: int| 0 <= k < i implies is_empty_result(
                    #[trigger] self.results.slots@[node_slot(kids[k])],
                ) by {
                    assert(node_slot(kids[k]) != node_slot(kids[i as int]));
                }
                assert forall|j: int| 0 <= j < slots0.len() && !is_kid_slot(*node, j)
                    implies #[trigger] self.results.slots@[j] == slots0[j] by {
                    if j == node_slot(kids[i as int]) {
                        assert(is_kid_slot(*node, j));
                    }
                }
            }
            i = i + 1;
        }
    }

    /// The result of replaced content: the children's results are dropped;
    /// ignorable white space becomes a white-space item, anything else one
    /// inline fragment.
    fn build_fragments_for_replaced_inline_content(&mut self, node: &DomNode) -> (r: ConstructionResult)
        requires
            old(self).results.wf(),
            kids_fit(*node, old(self).results.slots@.len()),
        ensures
            final(self).results.wf(),
            final(self).results.slots@.len() == old(self).results.slots@.len(),
            forall|i: int| 0 <= i < node.children@.len() ==> is_empty_result(
                #[trigger] final(self).results.slots@[node_slot(node.children@[i])],
            ),
            forall|j: int| 0 <= j < old(self).results.slots@.len() && !is_kid_slot(*node, j)
                ==> #[trigger] final(self).results.slots@[j] == old(self).results.slots@[j],
            result_wf(r),
            spec_is_ignorable_whitespace(*node) ==> r == ConstructionResult::ConstructionItemConstructionResult(
                ConstructionItem::WhitespaceConstructionItem(node.key, node.style),
            ),
            !spec_is_ignorable_whitespace(*node) ==> is_single_fragment_item(r, *node),
    {
        self.discard_children_results(node);
        if node.is_ignorable_whitespace() {
            return ConstructionResult::ConstructionItemConstructionResult(
                ConstructionItem::WhitespaceConstructionItem(node.key, node.style),
            );
        }
        let mut fragments = InlineFragments::new();
        fragments.push(self.fragment_for_node(node));
        let item = InlineFragmentsConstructionResult {
            splits: Vec::new(),
            fragments,
            abs_descendants: Vec::new(),
        };
        ConstructionResult::ConstructionItemConstructionResult(
            ConstructionItem::InlineFragmentsConstructionItem(item),
        )
    }

    /// The fragment of a `display: table-column` node; its children count as
    /// `display: none` (CSS 2.1 §17.2.1).
    fn build_fragments_for_table_column(&mut self, node: &DomNode) -> (r: ConstructionResult)
        requires
            old(self).results.wf(),
            kids_fit(*node, old(self).results.slots@.len()),
        ensures
            final(self).results.wf(),
            final(self).results.slots@.len() == old(self).results.slots@.len(),
            forall|i: int| 0 <= i < node.children@.len() ==> is_empty_result(
                #[trigger] final(self).results.slots@[node_slot(node.children@[i])],
            ),
            forall|j: int| 0 <= j < old(self).results.slots@.len() && !is_kid_slot(*node, j)
                ==> #[trigger] final(self).results.slots@[j] == old(self).results.slots@[j],
            r == ConstructionResult::ConstructionItemConstructionResult(
                ConstructionItem::TableColumnFragmentConstructionItem(column_fragment(*node)),
            ),
    {
        self.discard_children_results(node);
        ConstructionResult::ConstructionItemConstructionResult(
            ConstructionItem::TableColumnFragmentConstructionItem(
                Fragment { node: node.key, style: node.style, specific: SpecificFragmentInfo::TableColumn },
            ),
        )
    }

    /// The result of an inline element that renders its children: their
    /// fragments concatenated, with an {ib} split for each block box met
    /// (the fragments gathered so far closing into its predecessors), and
    /// their absolutely positioned descendants. Nothing at all gives an
    /// empty result.
    fn build_fragments_for_nonreplaced_inline_content(&mut self, node: &DomNode) -> (r: ConstructionResult)
        requires
            old(self).results.wf(),
            kids_fit(*node, old(self).results.slots@.len()),
        ensures
            final(self).results.wf(),
            final(self).results.slots@.len() == old(self).results.slots@.len(),
            forall|i: int| 0 <= i < node.children@.len() ==> is_empty_result(
                #[trigger] final(self).results.slots@[node_slot(node.children@[i])],
            ),
            forall|j: int| 0 <= j < old(self).results.slots@.len() && !is_kid_slot(*node, j)
                ==> #[trigger] final(self).results.slots@[j] == old(self).results.slots@[j],
            result_wf(r),
            is_empty_result(r) || r is ConstructionItemConstructionResult,
            result_descendants(r) == merged_descendants(kids_results(old(self).results.slots@, node.children@)),
            inline_result(r, kids_results(old(self).results.slots@, node.children@)),
    {
        let ghost slots0 = self.results.slots@;
        let ghost kids = node.children@;
        let mut splits_out: Vec<InlineBlockSplit> = Vec::new();
        let mut fragment_accumulator = InlineFragmentsAccumulator::from_inline_node(node);
        let mut abs_descendants: Vec<usize> = Vec::new();
        let mut i: usize = 0;
        while i < node.children.len()
            invariant
                i <= kids.len(),
                kids == node.children@,
                kids_fit(*node, slots0.len()),
                self.results.wf(),
                self.results.slots@.len() == slots0.len(),
                fragment_accumulator.wf(),
                splits_wf(splits_out@),
                abs_descendants@ == merged_descendants(kids_results(slots0, kids.subrange(0, i as int))),
                split_boxes(splits_out@) == all_split_boxes(kids_results(slots0, kids.subrange(0, i as int))),
                fragment_accumulator.fragments.fragments@.len() == trailing_fragments(
                    kids_results(slots0, kids.subrange(0, i as int)),
                ),
                splits_fit(splits_out@, inline_fold(kids_results(slots0, kids.subrange(0, i as int))).0),
                frags_fit(
                    fragment_accumulator.fragments.fragments@,
                    inline_fold(kids_results(slots0, kids.subrange(0, i as int))).1,
                ),
                forall|k: int| 0 <= k < i ==> is_empty_result(
                    #[trigger] self.results.slots@[node_slot(kids[k])],
                ),
                forall|k: int| i <= k < kids.len() ==>
                    self.results.slots@[node_slot(#[trigger] kids[k])] == slots0[node_slot(kids[k])],
                forall|j: int| 0 <= j < slots0.len() && !is_kid_slot(*node, j)
                    ==> #[trigger] self.results.slots@[j] == slots0[j],
            decreases kids.len() - i,
        {
            let kid = &node.children[i];
            assert(kid == kids[i as int]);
            let ghost taken = self.results.slots@[node_slot(*kid)];
            let ghost splits_before = split_boxes(splits_out@);
            let ghost abs_before = abs_descendants@;
            let ghost runs0 = inline_fold(kids_results(slots0, kids.subrange(0, i as int)));
            let ghost split_seq0 = splits_out@;
            let ghost acc_frags0 = fragment_accumulator.fragments.fragments@;
            match self.results.take(kid.key, kid.pseudo) {
                ConstructionResult::NoConstructionResult => {},
                ConstructionResult::FlowConstructionResult(flow, kid_abs_descendants) => {
                    // An {ib} split: what was gathered so far goes before the block.
                    let mut acc = InlineFragmentsAccumulator::from_inline_node(node);
                    std::mem::swap(&mut fragment_accumulator, &mut acc);
                    let split = InlineBlockSplit { predecessors: acc.finish(), flow };
                    let ghost sp = split;
                    splits_out.push(split);
                    proof {
                        lemma_splits_push(split_seq0, runs0.0, sp, (runs0.1, sp.flow));
                        assert(fragment_accumulator.fragments.fragments@ =~= Seq::<Fragment>::empty());
                        assert(inline_step(runs0, taken).1 =~= Seq::<Expected>::empty());
                    }
                    let mut kid_abs_descendants = kid_abs_descendants;
                    abs_descendants.append(&mut kid_abs_descendants);
                },
                ConstructionResult::ConstructionItemConstructionResult(
                    ConstructionItem::InlineFragmentsConstructionItem(item),
                ) => {
                    let InlineFragmentsConstructionResult {
                        splits,
                        fragments: successors,
                        abs_descendants: kid_abs_descendants,
                    } = item;
                    let ghost all_splits = splits@;
                    let ghost start = split_boxes(splits_out@);
                    let ghost acc_len0 = fragment_accumulator.fragments.fragments@.len();
                    for split in it: splits.into_iter()
                        invariant
                            it.seq() == all_splits,
                            splits_wf(all_splits),
                            fragment_accumulator.wf(),
                            splits_wf(splits_out@),
                            split_boxes(splits_out@) == start + split_boxes(
                                all_splits.subrange(0, it.index() as int),
                            ),
                            it.index() > 0 ==> fragment_accumulator.fragments.fragments@.len() == 0,
                            it.index() == 0 ==> fragment_accumulator.fragments.fragments@.len() == acc_len0,
                            splits_fit(splits_out@, inline_replay(runs0, all_splits.subrange(0, it.index() as int)).0),
                            frags_fit(
                                fragment_accumulator.fragments.fragments@,
                                inline_replay(runs0, all_splits.subrange(0, it.index() as int)).1,
                            ),
                    {
                        assert(all_splits[it.index() as int] == split);
                        let ghost idx = it.index() as int;
                        let ghost prior = splits_out@;
                        let ghost rp = inline_replay(runs0, all_splits.subrange(0, idx));
                        let ghost before_frags = fragment_accumulator.fragments.fragments@;
                        let InlineBlockSplit { predecessors, flow: kid_flow } = split;
                        let ghost pred = predecessors.fragments@;
                        fragment_accumulator.fragments.push_all(predecessors);
                        let mut acc = InlineFragmentsAccumulator::from_inline_node(node);
                        std::mem::swap(&mut fragment_accumulator, &mut acc);
                        let split = InlineBlockSplit { predecessors: acc.finish(), flow: kid_flow };
                        let ghost sp = split;
                        splits_out.push(split);
                        proof {
                            lemma_frags_exact(pred);
                            lemma_frags_concat(before_frags, rp.1, pred, exact_frags(pred));
                            lemma_splits_push(prior, rp.0, sp, (rp.1 + exact_frags(pred), sp.flow));
                            assert(all_splits.subrange(0, idx + 1).drop_last() =~= all_splits.subrange(0, idx));
                            assert(fragment_accumulator.fragments.fragments@ =~= Seq::<Fragment>::empty());
                            assert(inline_replay(runs0, all_splits.subrange(0, idx + 1)).1 =~= Seq::<Expected>::empty());
                            assert(split_boxes(splits_out@) =~= split_boxes(prior).push(all_splits[idx].flow));
                            assert(split_boxes(all_splits.subrange(0, idx + 1)) =~= split_boxes(
                                all_splits.subrange(0, idx),
                            ).push(all_splits[idx].flow));
                        }
                    }
                    proof {
                        assert(all_splits.subrange(0, all_splits.len() as int) =~= all_splits);
                    }
                    let ghost before_frags = fragment_accumulator.fragments.fragments@;
                    let ghost succ = successors.fragments@;
                    fragment_accumulator.fragments.push_all(successors);
                    proof {
                        let rp = inline_replay(runs0, all_splits);
                        lemma_frags_exact(succ);
                        lemma_frags_concat(before_frags, rp.1, succ, exact_frags(succ));
                    }
                    let mut kid_abs_descendants = kid_abs_descendants;
                    abs_descendants.append(&mut kid_abs_descendants);
                },
                ConstructionResult::ConstructionItemConstructionResult(
                    ConstructionItem::WhitespaceConstructionItem(whitespace_node, whitespace_style),
                ) => {
                    // The white space stays, as a single space.
                    let space = vec![' '];
                    assert(space@ =~= seq![' ']);
                    let fragment = Fragment {
                        node: whitespace_node,
                        style: whitespace_style,
                        specific: SpecificFragmentInfo::UnscannedText(space),
                    };
                    let ghost f = fragment;
                    fragment_accumulator.fragments.push(fragment);
                    proof {
                        lemma_frags_push(acc_frags0, runs0.1, f, space_frag(whitespace_node, whitespace_style));
                    }
                },
                ConstructionResult::ConstructionItemConstructionResult(
                    ConstructionItem::TableColumnFragmentConstructionItem(_),
                ) => {
                    // Anonymous table objects for a column with no column group
                    // (CSS 2.1 §17.2.1, step 3-2) are not built.
                },
            }
            proof {
                let prefix = kids.subrange(0, i as int);
                let next = kids.subrange(0, i + 1);
                assert(next.drop_last() =~= prefix);
                assert(kids_results(slots0, next).drop_last() =~= kids_results(slots0, prefix));
                assert(kids_results(slots0, next).last() == taken);
                assert(abs_descendants@ == abs_before + result_descendants(taken));
                assert(split_boxes(splits_out@) =~= splits_before + result_split_boxes(taken));
                assert forall|k: int| i < k < kids.len() implies
                    self.results.slots@[node_slot(#[trigger] kids[k])] == slots0[node_slot(kids[k])] by {
                    assert(node_slot(kids[k]) != node_slot(kids[i as int]));
                }
                assert forall|k: int| 0 <= k < i implies is_empty_result(
                    #[trigger] self.results.slots@[node_slot(kids[k])],
                ) by {
                    assert(node_slot(kids[k]) != node_slot(kids[i as int]));
                }
                assert forall|j: int| 0 <= j < slots0.len() && !is_kid_slot(*node, j)
                    implies #[trigger] self.results.slots@[j] == slots0[j] by {
                    if j == node_slot(kids[i as int]) {
                        assert(is_kid_slot(*node, j));
                    }
                }
            }
            i = i + 1;
        }
        assert(kids.subrange(0, i as int) =~= kids);
        assert(split_boxes(splits_out@).len() == splits_out@.len());
        if splits_out.len() > 0 || fragment_accumulator.fragments.len() > 0 || abs_descendants.len() > 0 {
            let item = InlineFragmentsConstructionResult {
                splits: splits_out,
                fragments: fragment_accumulator.finish(),
                abs_descendants,
            };
            let r = ConstructionResult::ConstructionItemConstructionResult(
                ConstructionItem::InlineFragmentsConstructionItem(item),
            );
            let ghost rs = kids_results(slots0, kids);
            assert(result_descendants(r) == merged_descendants(rs));
            assert(result_split_boxes(r) == all_split_boxes(rs));
            assert(result_trailing_fragments(r).len() == trailing_fragments(rs));
            r
        } else {
            assert(all_split_boxes(kids_results(slots0, kids)) =~= Seq::<Flow>::empty());
            assert(merged_descendants(kids_results(slots0, kids)) =~= Seq::<usize>::empty());
            ConstructionResult::NoConstructionResult
        }
    }

    /// Collects the boxes left in the children's slots (the table's
    /// captions) under the table wrapper, emptying every child's slot.
    fn place_table_caption_under_table_wrapper(&mut self, table_wrapper_flow: &mut Flow, node: &DomNode)
        requires
            old(self).results.wf(),
            kids_fit(*node, old(self).results.slots@.len()),
            forall|i: int| 0 <= i < node.children@.len() ==> ((#[trigger] old(self).results.slots@[node_slot(
                node.children@[i],
            )]) is FlowConstructionResult ==> is_caption_result(old(self).results.slots@[node_slot(node.children@[i])])),
        ensures
            final(self).results.wf(),
            final(self).results.slots@.len() == old(self).results.slots@.len(),
            forall|i: int| 0 <= i < node.children@.len() ==> is_empty_result(
                #[trigger] final(self).results.slots@[node_slot(node.children@[i])],
            ),
            forall|j: int| 0 <= j < old(self).results.slots@.len() && !is_kid_slot(*node, j)
                ==> #[trigger] final(self).results.slots@[j] == old(self).results.slots@[j],
            same_box(*final(table_wrapper_flow), *old(table_wrapper_flow)),
            children_wrapped(*old(table_wrapper_flow)) ==> children_wrapped(*final(table_wrapper_flow)),
            final(table_wrapper_flow).children@ == old(table_wrapper_flow).children@ + flows_of(
                kids_results(old(self).results.slots@, node.children@),
            ),
    {
        let ghost slots0 = self.results.slots@;
        let ghost kids = node.children@;
        let ghost children0 = table_wrapper_flow.children@;
        let ghost w0 = *table_wrapper_flow;
        let mut i: usize = 0;
        while i < node.children.len()
            invariant
                i <= kids.len(),
                kids == node.children@,
                kids_fit(*node, slots0.len()),
                self.results.wf(),
                self.results.slots@.len() == slots0.len(),
                same_box(*table_wrapper_flow, w0),
                children_wrapped(w0) ==> children_wrapped(*table_wrapper_flow),
                table_wrapper_flow.children@ == children0 + flows_of(
                    kids_results(slots0, kids.subrange(0, i as int)),
                ),
                forall|k: int| 0 <= k < i ==> is_empty_result(
                    #[trigger] self.results.slots@[node_slot(kids[k])],
                ),
                forall|k: int| i <= k < kids.len() ==>
                    self.results.slots@[node_slot(#[trigger] kids[k])] == slots0[node_slot(kids[k])],
                forall|j: int| 0 <= j < slots0.len() && !is_kid_slot(*node, j)
                    ==> #[trigger] self.results.slots@[j] == slots0[j],
            decreases kids.len() - i,
        {
            let kid = &node.children[i];
            assert(kid == kids[i as int]);
            let ghost taken = self.results.slots@[node_slot(*kid)];
            let ghost before = table_wrapper_flow.children@;
            match self.results.take(kid.key, kid.pseudo) {
                ConstructionResult::FlowConstructionResult(kid_flow, _) => {
                    table_wrapper_flow.add_new_child(kid_flow);
                },
                _ => {},
            }
            proof {
                let prefix = kids.subrange(0, i as int);
                let next = kids.subrange(0, i + 1);
                assert(next.drop_last() =~= prefix);
                assert(kids_results(slots0, next).drop_last() =~= kids_results(slots0, prefix));
                assert(kids_results(slots0, next).last() == taken);
                if taken is FlowConstructionResult {
                    assert(table_wrapper_flow.children@ =~= children0 + flows_of(kids_results(slots0, next)));
                } else {
                    assert(table_wrapper_flow.children@ =~= children0 + flows_of(kids_results(slots0, next)));
                }
                assert forall|k: int| i < k < kids.len() implies
                    self.results.slots@[node_slot(#[trigger] kids[k])] == slots0[node_slot(kids[k])] by {
                    assert(node_slot(kids[k]) != node_slot(kids[i as int]));
                }
                assert forall|k: int| 0 <= k < i implies is_empty_result(
                    #[trigger] self.results.slots@[node_slot(kids[k])],
                ) by {
                    assert(node_slot(kids[k]) != node_slot(kids[i as int]));
                }
                assert forall|j: int| 0 <= j < slots0.len() && !is_kid_slot(*node, j)
                    implies #[trigger] self.results.slots@[j] == slots0[j] by {
                    if j == node_slot(kids[i as int]) {
                        assert(is_kid_slot(*node, j));
                    }
                }
            }
            i = i + 1;
        }
        assert(kids.subrange(0, i as int) =~= kids);
    }

    /// The result of a `display: table-column-group` node: a column-group
    /// box holding the fragments of its column children (one of its own
    /// where there are none); other children count as `display: none`.
    fn build_flow_for_table_colgroup(&mut self, node: &DomNode) -> (r: ConstructionResult)
        requires
            old(self).results.wf(),
            kids_fit(*node, old(self).results.slots@.len()),
        ensures
            final(self).results.wf(),
            final(self).results.slots@.len() == old(self).results.slots@.len(),
            forall|i: int| 0 <= i < node.children@.len() ==> is_empty_result(
                #[trigger] final(self).results.slots@[node_slot(node.children@[i])],
            ),
            forall|j: int| 0 <= j < old(self).results.slots@.len() && !is_kid_slot(*node, j)
                ==> #[trigger] final(self).results.slots@[j] == old(self).results.slots@[j],
            colgroup_fits(r, *node, kids_results(old(self).results.slots@, node.children@)),
    {
        let ghost slots0 = self.results.slots@;
        let ghost kids = node.children@;
        let mut col_fragments: Vec<Fragment> = Vec::new();
        let mut i: usize = 0;
        while i < node.children.len()
            invariant
                i <= kids.len(),
                kids == node.children@,
                kids_fit(*node, slots0.len()),
                self.results.wf(),
                self.results.slots@.len() == slots0.len(),
                col_fragments@ == column_fragments(kids_results(slots0, kids.subrange(0, i as int))),
                forall|k: int| 0 <= k < i ==> is_empty_result(
                    #[trigger] self.results.slots@[node_slot(kids[k])],
                ),
                forall|k: int| i <= k < kids.len() ==>
                    self.results.slots@[node_slot(#[trigger] kids[k])] == slots0[node_slot(kids[k])],
                forall|j: int| 0 <= j < slots0.len() && !is_kid_slot(*node, j)
                    ==> #[trigger] self.results.slots@[j] == slots0[j],
            decreases kids.len() - i,
        {
            let kid = &node.children[i];
            assert(kid == kids[i as int]);
            let ghost taken = self.results.slots@[node_slot(*kid)];
            match self.results.take(kid.key, kid.pseudo) {
                ConstructionResult::ConstructionItemConstructionResult(
                    ConstructionItem::TableColumnFragmentConstructionItem(fragment),
                ) => {
                    col_fragments.push(fragment);
                },
                _ => {},
            }
            proof {
                let prefix = kids.subrange(0, i as int);
                let next = kids.subrange(0, i + 1);
                assert(next.drop_last() =~= prefix);
                assert(kids_results(slots0, next).drop_last() =~= kids_results(slots0, prefix));
                assert(kids_results(slots0, next).last() == taken);
                assert forall|k: int| i < k < kids.len() implies
                    self.results.slots@[node_slot(#[trigger] kids[k])] == slots0[node_slot(kids[k])] by {
                    assert(node_slot(kids[k]) != node_slot(kids[i as int]));
                }
                assert forall|k: int| 0 <= k < i implies is_empty_result(
                    #[trigger] self.results.slots@[node_slot(kids[k])],
                ) by {
                    assert(node_slot(kids[k]) != node_slot(kids[i as int]));
                }
                assert forall|j: int| 0 <= j < slots0.len() && !is_kid_slot(*node, j)
                    implies #[trigger] self.results.slots@[j] == slots0[j] by {
                    if j == node_slot(kids[i as int]) {
                        assert(is_kid_slot(*node, j));
                    }
                }
            }
            i = i + 1;
        }
        assert(kids.subrange(0, i as int) =~= kids);
        if col_fragments.len() == 0 {
            col_fragments.push(
                Fragment { node: node.key, style: node.style, specific: SpecificFragmentInfo::TableColumn },
            );
            assert(col_fragments@ =~= seq![column_fragment(*node)]);
        }
        let own = Fragment { node: node.key, style: node.style, specific: SpecificFragmentInfo::TableColumn };
        let mut flow = Flow::new(
            FlowClass::TableColGroup,
            node.key,
            node.style.position,
            Option::None,
            Option::Some(own),
        );
        flow.col_fragments = col_fragments;
        ConstructionResult::FlowConstructionResult(flow, Vec::new())
    }
    /// The result of a `display: table` node: a table wrapper box holding
    /// the table's captions, then the table box built from the other
    /// children.
    fn build_flow_for_table_wrapper(&mut self, node: &DomNode) -> (r: ConstructionResult)
        requires
            old(self).results.wf(),
            kids_fit(*node, old(self).results.slots@.len()),
        ensures
            final(self).results.wf(),
            final(self).results.slots@.len() == old(self).results.slots@.len(),
            forall|i: int| 0 <= i < node.children@.len() ==> is_empty_result(
                #[trigger] final(self).results.slots@[node_slot(node.children@[i])],
            ),
            forall|j: int| 0 <= j < old(self).results.slots@.len() && !is_kid_slot(*node, j)
                ==> #[trigger] final(self).results.slots@[j] == old(self).results.slots@[j],
            built_box(r, FlowClass::TableWrapper, *node, Option::None, kids_descendants(old(self).results.slots@, *node)),
            wrapper_children_fit(r, *node, kids_results(old(self).results.slots@, node.children@)),
    {
        let ghost slots0 = self.results.slots@;
        let ghost kids = node.children@;
        let wrapper_fragment = Fragment {
            node: node.key,
            style: node.style,
            specific: SpecificFragmentInfo::TableWrapper,
        };
        let mut wrapper_flow = Flow::new(
            FlowClass::TableWrapper,
            node.key,
            node.style.position,
            Option::None,
            Option::Some(wrapper_fragment),
        );
        let table_fragment = Fragment { node: node.key, style: node.style, specific: SpecificFragmentInfo::Table };
        let table_flow = Flow::new(
            FlowClass::Table,
            node.key,
            Position::Static,
            Option::None,
            Option::Some(table_fragment),
        );
        // The table takes every child but the captions, which it leaves in
        // place; the wrapper then takes those, before the table.
        let construction_result = self.build_flow_using_children(table_flow, node);
        let ghost slots1 = self.results.slots@;
        self.place_table_caption_under_table_wrapper(&mut wrapper_flow, node);
        proof {
            lemma_captions_left_behind(kids_results(slots0, kids), kids_results(slots1, kids));
        }
        let mut abs_descendants: Vec<usize> = Vec::new();
        let ghost captions = wrapper_flow.children@;
        let ghost table_box = result_flow(construction_result);
        match construction_result {
            ConstructionResult::FlowConstructionResult(table_flow, table_abs_descendants) => {
                wrapper_flow.add_new_child(table_flow);
                abs_descendants = table_abs_descendants;
            },
            _ => {},
        }
        assert(captions =~= captions_of(kids_results(slots0, kids)));
        assert(wrapper_flow.children@ == captions.push(table_box));
        assert(wrapper_flow.children@.drop_last() =~= captions);
        anchor_descendants(wrapper_flow, abs_descendants)
    }

    /// Builds the box made for `node`, of class `class`, from its children.
    fn build_box(
        &mut self,
        node: &DomNode,
        class: FlowClass,
        float_kind: Option<FloatKind>,
        fragment: Fragment,
    ) -> (r: ConstructionResult)
        requires
            old(self).results.wf(),
            kids_fit(*node, old(self).results.slots@.len()),
            class != FlowClass::Table,
        ensures
            final(self).results.wf(),
            final(self).results.slots@.len() == old(self).results.slots@.len(),
            forall|i: int| 0 <= i < node.children@.len() ==> is_empty_result(
                #[trigger] final(self).results.slots@[node_slot(node.children@[i])],
            ),
            forall|j: int| 0 <= j < old(self).results.slots@.len() && !is_kid_slot(*node, j)
                ==> #[trigger] final(self).results.slots@[j] == old(self).results.slots@[j],
            built_box(r, class, *node, float_kind, kids_descendants(old(self).results.slots@, *node)),
            pieces_fit(r, class, *node, kids_results(old(self).results.slots@, node.children@)),
    {
        let flow = Flow::new(class, node.key, node.style.position, float_kind, Option::Some(fragment));
        self.build_flow_using_children(flow, node)
    }

    /// The result of a block: a block box with its children's boxes and
    /// inline content below it.
    fn build_flow_for_block(&mut self, node: &DomNode) -> (r: ConstructionResult)
        requires
            old(self).results.wf(),
            kids_fit(*node, old(self).results.slots@.len()),
        ensures
            final(self).results.wf(),
            final(self).results.slots@.len() == old(self).results.slots@.len(),
            forall|i: int| 0 <= i < node.children@.len() ==> is_empty_result(
                #[trigger] final(self).results.slots@[node_slot(node.children@[i])],
            ),
            forall|j: int| 0 <= j < old(self).results.slots@.len() && !is_kid_slot(*node, j)
                ==> #[trigger] final(self).results.slots@[j] == old(self).results.slots@[j],
            built_box(r, FlowClass::Block, *node, Option::None, kids_descendants(old(self).results.slots@, *node)),
            pieces_fit(r, FlowClass::Block, *node, kids_results(old(self).results.slots@, node.children@)),
    {
        let fragment = self.fragment_for_node(node);
        self.build_box(node, FlowClass::Block, Option::None, fragment)
    }

    /// The result of a floated block: a block box floated to `float_kind`'s side.
    fn build_flow_for_floated_block(&mut self, node: &DomNode, float_kind: FloatKind) -> (r: ConstructionResult)
        requires
            old(self).results.wf(),
            kids_fit(*node, old(self).results.slots@.len()),
        ensures
            final(self).results.wf(),
            final(self).results.slots@.len() == old(self).results.slots@.len(),
            forall|i: int| 0 <= i < node.children@.len() ==> is_empty_result(
                #[trigger] final(self).results.slots@[node_slot(node.children@[i])],
            ),
            forall|j: int| 0 <= j < old(self).results.slots@.len() && !is_kid_slot(*node, j)
                ==> #[trigger] final(self).results.slots@[j] == old(self).results.slots@[j],
            built_box(r, FlowClass::Block, *node, Option::Some(float_kind), kids_descendants(old(self).results.slots@, *node)),
            pieces_fit(r, FlowClass::Block, *node, kids_results(old(self).results.slots@, node.children@)),
    {
        let fragment = self.fragment_for_node(node);
        self.build_box(node, FlowClass::Block, Option::Some(float_kind), fragment)
    }

    /// The result of a `display: table-caption` node: a caption box.
    fn build_flow_for_table_caption(&mut self, node: &DomNode) -> (r: ConstructionResult)
        requires
            old(self).results.wf(),
            kids_fit(*node, old(self).results.slots@.len()),
        ensures
            final(self).results.wf(),
            final(self).results.slots@.len() == old(self).results.slots@.len(),
            forall|i: int| 0 <= i < node.children@.len() ==> is_empty_result(
                #[trigger] final(self).results.slots@[node_slot(node.children@[i])],
            ),
            forall|j: int| 0 <= j < old(self).results.slots@.len() && !is_kid_slot(*node, j)
                ==> #[trigger] final(self).results.slots@[j] == old(self).results.slots@[j],
            built_box(r, FlowClass::TableCaption, *node, Option::None, kids_descendants(old(self).results.slots@, *node)),
            pieces_fit(r, FlowClass::TableCaption, *node, kids_results(old(self).results.slots@, node.children@)),
    {
        let fragment = self.fragment_for_node(node);
        self.build_box(node, FlowClass::TableCaption, Option::None, fragment)
    }

    /// The result of a row group (`table-row-group`, `-header-group`,
    /// `-footer-group`): a row-group box, taking rows only.
    fn build_flow_for_table_rowgroup(&mut self, node: &DomNode) -> (r: ConstructionResult)
        requires
            old(self).results.wf(),
            kids_fit(*node, old(self).results.slots@.len()),
        ensures
            final(self).results.wf(),
            final(self).results.slots@.len() == old(self).results.slots@.len(),
            forall|i: int| 0 <= i < node.children@.len() ==> is_empty_result(
                #[trigger] final(self).results.slots@[node_slot(node.children@[i])],
            ),
            forall|j: int| 0 <= j < old(self).results.slots@.len() && !is_kid_slot(*node, j)
                ==> #[trigger] final(self).results.slots@[j] == old(self).results.slots@[j],
            built_box(r, FlowClass::TableRowGroup, *node, Option::None, kids_descendants(old(self).results.slots@, *node)),
            pieces_fit(r, FlowClass::TableRowGroup, *node, kids_results(old(self).results.slots@, node.children@)),
    {
        let fragment = Fragment { node: node.key, style: node.style, specific: SpecificFragmentInfo::TableRow };
        self.build_box(node, FlowClass::TableRowGroup, Option::None, fragment)
    }

    /// The result of a `display: table-row` node: a row box, taking cells only.
    fn build_flow_for_table_row(&mut self, node: &DomNode) -> (r: ConstructionResult)
        requires
            old(self).results.wf(),
            kids_fit(*node, old(self).results.slots@.len()),
        ensures
            final(self).results.wf(),
            final(self).results.slots@.len() == old(self).results.slots@.len(),
            forall|i: int| 0 <= i < node.children@.len() ==> is_empty_result(
                #[trigger] final(self).results.slots@[node_slot(node.children@[i])],
            ),
            forall|j: int| 0 <= j < old(self).results.slots@.len() && !is_kid_slot(*node, j)
                ==> #[trigger] final(self).results.slots@[j] == old(self).results.slots@[j],
            built_box(r, FlowClass::TableRow, *node, Option::None, kids_descendants(old(self).results.slots@, *node)),
            pieces_fit(r, FlowClass::TableRow, *node, kids_results(old(self).results.slots@, node.children@)),
    {
        let fragment = Fragment { node: node.key, style: node.style, specific: SpecificFragmentInfo::TableRow };
        self.build_box(node, FlowClass::TableRow, Option::None, fragment)
    }

    /// The result of a `display: table-cell` node: a cell box.
    fn build_flow_for_table_cell(&mut self, node: &DomNode) -> (r: ConstructionResult)
        requires
            old(self).results.wf(),
            kids_fit(*node, old(self).results.slots@.len()),
        ensures
            final(self).results.wf(),
            final(self).results.slots@.len() == old(self).results.slots@.len(),
            forall|i: int| 0 <= i < node.children@.len() ==> is_empty_result(
                #[trigger] final(self).results.slots@[node_slot(node.children@[i])],
            ),
            forall|j: int| 0 <= j < old(self).results.slots@.len() && !is_kid_slot(*node, j)
                ==> #[trigger] final(self).results.slots@[j] == old(self).results.slots@[j],
            built_box(r, FlowClass::TableCell, *node, Option::None, kids_descendants(old(self).results.slots@, *node)),
            pieces_fit(r, FlowClass::TableCell, *node, kids_results(old(self).results.slots@, node.children@)),
    {
        let fragment = Fragment { node: node.key, style: node.style, specific: SpecificFragmentInfo::TableCell };
        self.build_box(node, FlowClass::TableCell, Option::None, fragment)
    }

    /// The result of an inline node: replaced content gives its own
    /// fragment (or white space), other inlines their children's content.
    fn build_fragments_for_inline(&mut self, node: &DomNode) -> (r: ConstructionResult)
        requires
            old(self).results.wf(),
            kids_fit(*node, old(self).results.slots@.len()),
        ensures
            final(self).results.wf(),
            final(self).results.slots@.len() == old(self).results.slots@.len(),
            forall|i: int| 0 <= i < node.children@.len() ==> is_empty_result(
                #[trigger] final(self).results.slots@[node_slot(node.children@[i])],
            ),
            forall|j: int| 0 <= j < old(self).results.slots@.len() && !is_kid_slot(*node, j)
                ==> #[trigger] final(self).results.slots@[j] == old(self).results.slots@[j],
            result_wf(r),
            spec_is_replaced_content(*node) ==> replaced_result(r, *node),
            !spec_is_replaced_content(*node) ==> inline_result(r, kids_results(old(self).results.slots@, node.children@)),
    {
        if !node.is_replaced_content() {
            self.build_fragments_for_nonreplaced_inline_content(node)
        } else {
            self.build_fragments_for_replaced_inline_content(node)
        }
    }

    /// Builds the result of one node from its children's stored results,
    /// choosing the builder by `display`, `float` and `position` (CSS 2.1
    /// §9.7), and stores it in the node's slot. Every child's slot is left
    /// empty; a `display: none` node drops all its children's results.
    pub fn process(&mut self, node: &DomNode)
        requires
            old(self).results.wf(),
            old(self).results.has(node.key),
            kids_fit(*node, old(self).results.slots@.len()),
            !is_kid_slot(*node, node_slot(*node)),
        ensures
            final(self).results.wf(),
            final(self).results.slots@.len() == old(self).results.slots@.len(),
            result_fits(
                spec_construction(*node),
                *node,
                kids_results(old(self).results.slots@, node.children@),
                final(self).results.slots@[node_slot(*node)],
            ),
            forall|i: int| 0 <= i < node.children@.len() ==> is_empty_result(
                #[trigger] final(self).results.slots@[node_slot(node.children@[i])],
            ),
            forall|j: int| 0 <= j < old(self).results.slots@.len() && !is_kid_slot(*node, j)
                && j != node_slot(*node) ==> #[trigger] final(self).results.slots@[j]
                == old(self).results.slots@[j],
    {
        let (display, float, position) = match node.type_id {
            Option::None => (Display::Inline, node.style.float, node.style.position),
            Option::Some(NodeType::Element(_)) => (node.style.display, node.style.float, node.style.position),
            Option::Some(NodeType::Text) => (Display::Inline, Float::FloatNone, Position::Static),
            Option::Some(_) => (Display::DisplayNone, Float::FloatNone, Position::Static),
        };
        let result = match display {
            Display::DisplayNone => {
                // Nothing below this node is shown: its children's results go.
                self.destroy_children_results(node);
                ConstructionResult::NoConstructionResult
            },
            Display::Table => self.build_flow_for_table_wrapper(node),
            _ => {
                if (matches!(display, Display::Block) && matches!(position, Position::Absolute))
                    || matches!(position, Position::Fixed) {
                    self.build_flow_for_block(node)
                } else if matches!(display, Display::Inline) && matches!(float, Float::FloatNone) {
                    self.build_fragments_for_inline(node)
                } else {
                    match display {
                        Display::TableCaption => self.build_flow_for_table_caption(node),
                        Display::TableColumnGroup => self.build_flow_for_table_colgroup(node),
                        Display::TableColumn => self.build_fragments_for_table_column(node),
                        Display::TableRowGroup | Display::TableHeaderGroup | Display::TableFooterGroup => {
                            self.build_flow_for_table_rowgroup(node)
                        },
                        Display::TableRow => self.build_flow_for_table_row(node),
                        Display::TableCell => self.build_flow_for_table_cell(node),
                        _ => {
                            match float {
                                Float::FloatNone => self.build_flow_for_block(node),
                                _ => {
                                    let float_kind = FloatKind::from_property(float);
                                    self.build_flow_for_floated_block(node, float_kind)
                                },
                            }
                        },
                    }
                }
            },
        };
        proof {
            assert(self.results.slots@.len() == old(self).results.slots@.len());
        }
        self.results.set(node.key, node.pseudo, result);
        proof {
            assert forall|i: int| 0 <= i < node.children@.len() implies is_empty_result(
                #[trigger] self.results.slots@[node_slot(node.children@[i])],
            ) by {
                assert(is_kid_slot(*node, node_slot(node.children@[i])));
            }
        }
    }

    /// Builds the results of a whole subtree, children before parents, and
    /// leaves the root's result in its slot: what the root's builder makes
    /// of the results built for its children. Only slots of the subtree
    /// change.
    pub fn construct_tree(&mut self, node: &DomNode)
        requires
            old(self).results.wf(),
            tree_fits(*node, old(self).results.slots@.len()),
        ensures
            final(self).results.wf(),
            final(self).results.slots@.len() == old(self).results.slots@.len(),
            constructed(*node, final(self).results.slots@[node_slot(*node)]),
            forall|j: int| 0 <= j < old(self).results.slots@.len() && !in_subtree(*node, j)
                ==> #[trigger] final(self).results.slots@[j] == old(self).results.slots@[j],
        decreases node,
    {
        let ghost len = self.results.slots@.len();
        let ghost slots0 = self.results.slots@;
        let ghost kids = node.children@;
        let mut i: usize = 0;
        while i < node.children.len()
            invariant
                i <= kids.len(),
                kids == node.children@,
                self.results.wf(),
                self.results.slots@.len() == len,
                tree_fits(*node, len),
                forall|k: int| 0 <= k < i ==> constructed(
                    #[trigger] kids[k],
                    self.results.slots@[node_slot(kids[k])],
                ),
                forall|j: int| 0 <= j < len && !in_subtree(*node, j)
                    ==> #[trigger] self.results.slots@[j] == slots0[j],
                forall|k: int, j: int| i <= k < kids.len() && 0 <= j < len && #[trigger] in_subtree(kids[k], j)
                    ==> self.results.slots@[j] == slots0[j],
            decreases kids.len() - i,
        {
            assert(tree_fits(kids[i as int], len));
            let ghost before = self.results.slots@;
            self.construct_tree(&node.children[i]);
            proof {
                assert forall|k: int| 0 <= k < i + 1 implies constructed(
                    #[trigger] kids[k],
                    self.results.slots@[node_slot(kids[k])],
                ) by {
                    if k < i {
                        assert(in_subtree(kids[k], node_slot(kids[k])));
                        assert(!in_subtree(kids[i as int], node_slot(kids[k])));
                    }
                }
                assert forall|j: int| 0 <= j < len && !in_subtree(*node, j)
                    implies #[trigger] self.results.slots@[j] == slots0[j] by {
                    if in_subtree(kids[i as int], j) {
                        assert(in_subtree(*node, j));
                    }
                }
                assert forall|k: int, j: int| i + 1 <= k < kids.len() && 0 <= j < len && #[trigger] in_subtree(kids[k], j)
                    implies self.results.slots@[j] == slots0[j] by {
                    assert(!in_subtree(kids[i as int], j));
                }
            }
            i = i + 1;
        }
        let ghost built = self.results.slots@;
        proof {
            assert(!is_kid_slot(*node, node_slot(*node)));
        }
        self.process(node);
        proof {
            let rs = kids_results(built, kids);
            assert forall|k: int| 0 <= k < kids.len() implies constructed(#[trigger] kids[k], rs[k]) by {}
            assert(result_fits(spec_construction(*node), *node, rs, self.results.slots@[node_slot(*node)]));
            assert forall|j: int| 0 <= j < len && !in_subtree(*node, j)
                implies #[trigger] self.results.slots@[j] == slots0[j] by {
                if is_kid_slot(*node, j) {
                    let k = choose|k: int| 0 <= k < kids.len() && node_slot(#[trigger] kids[k]) == j;
                    assert(in_subtree(kids[k], j));
                    assert(in_subtree(*node, j));
                }
            }
        }
    }
}

/// `r` is what construction makes of `node`: its builder applied to results
/// that were themselves constructed for its children, at every level.
pub open spec fn constructed(node: DomNode, r: ConstructionResult) -> bool
    decreases node,
{
    exists|kids: Seq<ConstructionResult>| {
        &&& kids.len() == node.children@.len()
        &&& forall|i: int| 0 <= i < node.children@.len() ==> constructed(#[trigger] node.children@[i], kids[i])
        &&& #[trigger] result_fits(spec_construction(node), node, kids, r)
    }
}

/// The builder `process` uses for a node.
pub enum Construction {
    Nothing,
    TableWrapper,
    Block,
    FloatedBlock(FloatKind),
    ReplacedInline,
    Inline,
    Caption,
    ColumnGroup,
    Column,
    RowGroup,
    Row,
    Cell,
}

/// The (`display`, `float`, `position`) a node is built by: generated
/// content and text are inline, character data other than text is not
/// shown.
pub open spec fn spec_box_triple(node: DomNode) -> (Display, Float, Position) {
    match node.type_id {
        Option::None => (Display::Inline, node.style.float, node.style.position),
        Option::Some(NodeType::Element(_)) => (node.style.display, node.style.float, node.style.position),
        Option::Some(NodeType::Text) => (Display::Inline, Float::FloatNone, Position::Static),
        Option::Some(_) => (Display::DisplayNone, Float::FloatNone, Position::Static),
    }
}

/// The builder for a node, by priority: `display: none`; `table`; blocks
/// that are absolutely positioned and anything fixed; unfloated inlines;
/// the other table values; then blocks, floated or not.
pub open spec fn spec_construction(node: DomNode) -> Construction {
    let (d, f, p) = spec_box_triple(node);
    if d == Display::DisplayNone {
        Construction::Nothing
    } else if d == Display::Table {
        Construction::TableWrapper
    } else if (d == Display::Block && p == Position::Absolute) || p == Position::Fixed {
        Construction::Block
    } else if d == Display::Inline && f == Float::FloatNone {
        if spec_is_replaced_content(node) {
            Construction::ReplacedInline
        } else {
            Construction::Inline
        }
    } else if d == Display::TableCaption {
        Construction::Caption
    } else if d == Display::TableColumnGroup {
        Construction::ColumnGroup
    } else if d == Display::TableColumn {
        Construction::Column
    } else if d == Display::TableRowGroup || d == Display::TableHeaderGroup || d == Display::TableFooterGroup {
        Construction::RowGroup
    } else if d == Display::TableRow {
        Construction::Row
    } else if d == Display::TableCell {
        Construction::Cell
    } else if f == Float::FloatNone {
        Construction::Block
    } else {
        Construction::FloatedBlock(spec_float_kind(f))
    }
}

/// The result of replaced content: white space, or its own fragment.
pub open spec fn replaced_result(r: ConstructionResult, node: DomNode) -> bool {
    if spec_is_ignorable_whitespace(node) {
        r == ConstructionResult::ConstructionItemConstructionResult(
            ConstructionItem::WhitespaceConstructionItem(node.key, node.style),
        )
    } else {
        is_single_fragment_item(r, node)
    }
}

/// A fragment an inline run is known to hold: exactly a given fragment,
/// `(false, f, _, _)`, or the single space a white-space item becomes,
/// `(true, _, node, style)`.
pub type Expected = (bool, Fragment, usize, Style);

/// Fragments taken over as they are.
pub open spec fn exact_frags(fs: Seq<Fragment>) -> Seq<Expected> {
    fs.map_values(|f: Fragment| (false, f, f.node, f.style))
}

/// The single space of white-space node `n` with style `st`.
pub open spec fn space_frag(n: usize, st: Style) -> Expected {
    (true, arbitrary(), n, st)
}

/// Fragment `f` is what `e` says it is.
pub open spec fn frag_fits(f: Fragment, e: Expected) -> bool {
    if e.0 {
        f.node == e.2 && f.style == e.3 && f.specific is UnscannedText && text_of(f.specific) == seq![' ']
    } else {
        f == e.1
    }
}

/// The run `fs` is, fragment for fragment, what `es` says.
pub open spec fn frags_fit(fs: Seq<Fragment>, es: Seq<Expected>) -> bool {
    &&& fs.len() == es.len()
    &&& forall|i: int| 0 <= i < fs.len() ==> frag_fits(#[trigger] fs[i], es[i])
}

/// The splits `ss` are, one for one, the predecessor runs and block boxes
/// `es` says.
pub open spec fn splits_fit(ss: Seq<InlineBlockSplit>, es: Seq<(Seq<Expected>, Flow)>) -> bool {
    &&& ss.len() == es.len()
    &&& forall|i: int| 0 <= i < ss.len() ==> frags_fit((#[trigger] ss[i]).predecessors.fragments@, es[i].0)
        && ss[i].flow == es[i].1
}

/// The splits made and the run gathered so far by an inline.
pub type InlineRuns = (Seq<(Seq<Expected>, Flow)>, Seq<Expected>);

/// Splits bubbled up from a child's inline item, replayed: each closes the
/// run gathered so far, extended by its own predecessors.
pub open spec fn inline_replay(st: InlineRuns, splits: Seq<InlineBlockSplit>) -> InlineRuns
    decreases splits.len(),
{
    if splits.len() == 0 {
        st
    } else {
        let prev = inline_replay(st, splits.drop_last());
        (
            prev.0.push((prev.1 + exact_frags(splits.last().predecessors.fragments@), splits.last().flow)),
            Seq::empty(),
        )
    }
}

/// One child's result consumed by an inline: a box closes the run into a
/// split, an item replays its splits and extends the run, white space adds
/// a single space, anything else nothing.
pub open spec fn inline_step(st: InlineRuns, r: ConstructionResult) -> InlineRuns {
    match r {
        ConstructionResult::FlowConstructionResult(f, _) => (st.0.push((st.1, f)), Seq::empty()),
        ConstructionResult::ConstructionItemConstructionResult(
            ConstructionItem::InlineFragmentsConstructionItem(i),
        ) => {
            let q = inline_replay(st, i.splits@);
            (q.0, q.1 + exact_frags(i.fragments.fragments@))
        },
        ConstructionResult::ConstructionItemConstructionResult(
            ConstructionItem::WhitespaceConstructionItem(n, style),
        ) => (st.0, st.1.push(space_frag(n, style))),
        _ => st,
    }
}

/// The children's results consumed in order by an inline.
pub open spec fn inline_fold(rs: Seq<ConstructionResult>) -> InlineRuns
    decreases rs.len(),
{
    if rs.len() == 0 {
        (Seq::empty(), Seq::empty())
    } else {
        inline_step(inline_fold(rs.drop_last()), rs.last())
    }
}

proof fn lemma_frags_concat(a: Seq<Fragment>, ea: Seq<Expected>, b: Seq<Fragment>, eb: Seq<Expected>)
    requires
        frags_fit(a, ea),
        frags_fit(b, eb),
    ensures
        frags_fit(a + b, ea + eb),
{
    assert forall|i: int| 0 <= i < (a + b).len() implies frag_fits(#[trigger] (a + b)[i], (ea + eb)[i]) by {
        if i < a.len() {
            assert((a + b)[i] == a[i]);
        } else {
            assert((a + b)[i] == b[i - a.len()]);
        }
    }
}

proof fn lemma_frags_exact(fs: Seq<Fragment>)
    ensures
        frags_fit(fs, exact_frags(fs)),
{
}

proof fn lemma_frags_push(a: Seq<Fragment>, ea: Seq<Expected>, f: Fragment, e: Expected)
    requires
        frags_fit(a, ea),
        frag_fits(f, e),
    ensures
        frags_fit(a.push(f), ea.push(e)),
{
    assert forall|i: int| 0 <= i < a.push(f).len() implies frag_fits(#[trigger] a.push(f)[i], ea.push(e)[i]) by {
        if i < a.len() {
            assert(a.push(f)[i] == a[i]);
        }
    }
}

proof fn lemma_splits_push(
    ss: Seq<InlineBlockSplit>,
    es: Seq<(Seq<Expected>, Flow)>,
    sp: InlineBlockSplit,
    e: (Seq<Expected>, Flow),
)
    requires
        splits_fit(ss, es),
        frags_fit(sp.predecessors.fragments@, e.0),
        sp.flow == e.1,
    ensures
        splits_fit(ss.push(sp), es.push(e)),
{
    assert forall|i: int| 0 <= i < ss.push(sp).len() implies frags_fit(
        (#[trigger] ss.push(sp)[i]).predecessors.fragments@,
        es.push(e)[i].0,
    ) && ss.push(sp)[i].flow == es.push(e)[i].1 by {
        if i < ss.len() {
            assert(ss.push(sp)[i] == ss[i]);
        }
    }
}

/// The result of an inline that renders its children, whose results were
/// `kids`: an inline item, with an {ib} split for each block box they hold,
/// the fragments gathered after the last one, and what they collected; or
/// nothing, exactly when there is none of these. Each split's predecessor
/// run and the trailing run are, fragment for fragment and in order, what
/// the children contributed (`inline_fold`).
pub open spec fn inline_result(r: ConstructionResult, kids: Seq<ConstructionResult>) -> bool {
    &&& is_empty_result(r) || r is ConstructionItemConstructionResult
    &&& result_descendants(r) == merged_descendants(kids)
    &&& result_split_boxes(r) == all_split_boxes(kids)
    &&& result_trailing_fragments(r).len() == trailing_fragments(kids)
    &&& is_empty_result(r) <==> (all_split_boxes(kids).len() == 0 && trailing_fragments(kids) == 0
        && merged_descendants(kids).len() == 0)
    &&& !is_empty_result(r) ==> splits_fit(inline_item(r).splits@, inline_fold(kids).0)
    &&& !is_empty_result(r) ==> frags_fit(inline_item(r).fragments.fragments@, inline_fold(kids).1)
}

/// `r` is what builder `c` makes of `node`, whose children's results were
/// `kids`.
pub open spec fn result_fits(c: Construction, node: DomNode, kids: Seq<ConstructionResult>, r: ConstructionResult) -> bool {
    let collected = merged_descendants(kids);
    match c {
        Construction::Nothing => is_empty_result(r),
        Construction::TableWrapper => built_box(r, FlowClass::TableWrapper, node, Option::None, collected)
            && wrapper_children_fit(r, node, kids),
        Construction::Block => built_box(r, FlowClass::Block, node, Option::None, collected)
            && pieces_fit(r, FlowClass::Block, node, kids),
        Construction::FloatedBlock(k) => built_box(r, FlowClass::Block, node, Option::Some(k), collected)
            && pieces_fit(r, FlowClass::Block, node, kids),
        Construction::ReplacedInline => replaced_result(r, node),
        Construction::Inline => inline_result(r, kids),
        Construction::Caption => built_box(r, FlowClass::TableCaption, node, Option::None, collected)
            && pieces_fit(r, FlowClass::TableCaption, node, kids),
        Construction::ColumnGroup => colgroup_fits(r, node, kids),
        Construction::Column => r == ConstructionResult::ConstructionItemConstructionResult(
            ConstructionItem::TableColumnFragmentConstructionItem(column_fragment(node)),
        ),
        Construction::RowGroup => built_box(r, FlowClass::TableRowGroup, node, Option::None, collected)
            && pieces_fit(r, FlowClass::TableRowGroup, node, kids),
        Construction::Row => built_box(r, FlowClass::TableRow, node, Option::None, collected)
            && pieces_fit(r, FlowClass::TableRow, node, kids),
        Construction::Cell => built_box(r, FlowClass::TableCell, node, Option::None, collected)
            && pieces_fit(r, FlowClass::TableCell, node, kids),
    }
}

/// A column group is a childless box bubbling nothing up, holding the
/// column fragments among its children's results `kids`, in order, or one
/// of its own where there are none.
pub open spec fn colgroup_fits(r: ConstructionResult, node: DomNode, kids: Seq<ConstructionResult>) -> bool {
    &&& r is FlowConstructionResult
    &&& result_descendants(r).len() == 0
    &&& result_flow(r).class == FlowClass::TableColGroup
    &&& result_flow(r).node == node.key
    &&& !result_flow(r).anonymous
    &&& result_flow(r).children@.len() == 0
    &&& result_flow(r).col_fragments@ == if column_fragments(kids).len() == 0 {
        seq![column_fragment(node)]
    } else {
        column_fragments(kids)
    }
}

/// A table wrapper holds the captions among its children's results `kids`,
/// in order, then the table box; wherever the captions stood among the
/// other children.
pub open spec fn wrapper_children_fit(r: ConstructionResult, node: DomNode, kids: Seq<ConstructionResult>) -> bool {
    &&& result_flow(r).children@.len() == captions_of(kids).len() + 1
    &&& result_flow(r).children@.drop_last() == captions_of(kids)
    &&& result_flow(r).children@.last().class == FlowClass::Table
    &&& result_flow(r).children@.last().node == node.key
    &&& children_match(boxes_of(result_flow(r).children@.last()), block_pieces(kids, FlowClass::Table), node.key)
    &&& accepts_children(result_flow(r).children@.last())
    &&& children_wrapped(result_flow(r).children@.last())
    &&& runs_grouped(result_flow(r).children@.last())
}

/// The boxes below a box built from its children's results `kids`,
/// anonymous boxes looked through, are the pieces those results give, one
/// for one; a box of a class that takes every child has no anonymous child,
/// so those are its children.
pub open spec fn pieces_fit(r: ConstructionResult, class: FlowClass, node: DomNode, kids: Seq<ConstructionResult>) -> bool {
    &&& children_match(boxes_of(result_flow(r)), block_pieces(kids, class), node.key)
    &&& runs_grouped(result_flow(r))
    &&& wrapper_depth(class) == 0 ==> all_named(result_flow(r).children@)
}

/// `collected` are the descendants gathered below a box of position `p` and
/// node `key`; a positioned box keeps them and bubbles up only itself, and
/// that only when it is absolutely positioned; any other passes them on.
pub open spec fn anchored(p: Position, key: usize, collected: Seq<usize>, r: ConstructionResult) -> bool {
    if spec_is_positioned(p) {
        &&& result_flow(r).abs_descendants@ == collected
        &&& result_descendants(r) == if spec_is_out_of_flow(p) {
            seq![key]
        } else {
            Seq::<usize>::empty()
        }
    } else {
        &&& result_flow(r).abs_descendants@.len() == 0
        &&& result_descendants(r) == collected
    }
}

/// `r` is the box of class `class` made for `node`, positioned and floated
/// as its style says, its descendants anchored as `anchored` says.
pub open spec fn built_box(
    r: ConstructionResult,
    class: FlowClass,
    node: DomNode,
    float_kind: Option<FloatKind>,
    collected: Seq<usize>,
) -> bool {
    &&& r is FlowConstructionResult
    &&& result_flow(r).class == class
    &&& result_flow(r).node == node.key
    &&& !result_flow(r).anonymous
    &&& result_flow(r).position == node.style.position
    &&& result_flow(r).float_kind == float_kind
    &&& accepts_children(result_flow(r))
    &&& children_wrapped(result_flow(r))
    &&& anchored(node.style.position, node.key, collected, r)
}

/// Finishes a box: a positioned box becomes the containing block of the
/// descendants collected below it.
fn anchor_descendants(flow: Flow, abs_descendants: Vec<usize>) -> (r: ConstructionResult)
    requires
        flow.abs_descendants@.len() == 0,
    ensures
        r is FlowConstructionResult,
        result_flow(r).class == flow.class,
        result_flow(r).node == flow.node,
        result_flow(r).anonymous == flow.anonymous,
        result_flow(r).position == flow.position,
        result_flow(r).float_kind == flow.float_kind,
        result_flow(r).children == flow.children,
        boxes_of(result_flow(r)) == boxes_of(flow),
        runs_grouped(flow) ==> runs_grouped(result_flow(r)),
        anchored(flow.position, flow.node, abs_descendants@, r),
{
    proof {
        reveal(runs_grouped);
    }
    let mut flow = flow;
    let ghost flow0 = flow;
    if flow.position.is_positioned() {
        let node = flow.node;
        flow.set_abs_descendants(abs_descendants);
        let mut bubbled: Vec<usize> = Vec::new();
        if flow.position.is_out_of_flow() {
            // Still looking for its own containing block.
            bubbled.push(node);
            assert(bubbled@ =~= seq![node]);
        } else {
            assert(bubbled@ =~= Seq::<usize>::empty());
        }
        proof {
            assert(flow.children@.subrange(0, flow.children@.len() as int) =~= flow0.children@.subrange(
                0,
                flow.children@.len() as int,
            ));
            lemma_within_prefix(flow, flow0, flow.children@.len() as int);
        }
        ConstructionResult::FlowConstructionResult(flow, bubbled)
    } else {
        ConstructionResult::FlowConstructionResult(flow, abs_descendants)
    }
}

/// Where a table left each caption in place and emptied every other slot,
/// the boxes left are the captions, in order.
proof fn lemma_captions_left_behind(before: Seq<ConstructionResult>, after: Seq<ConstructionResult>)
    requires
        before.len() == after.len(),
        forall|i: int| 0 <= i < before.len() ==> left_behind(true, #[trigger] before[i], after[i]),
    ensures
        flows_of(after) == captions_of(before),
    decreases before.len(),
{
    if before.len() > 0 {
        let n = before.len() - 1;
        assert(left_behind(true, before[n], after[n]));
        lemma_captions_left_behind(before.drop_last(), after.drop_last());
    }
}

/// The URL of an image fragment kind.
pub open spec fn image_url_of(i: SpecificFragmentInfo) -> Seq<char> {
    match i {
        SpecificFragmentInfo::Image(u) => u@,
        _ => Seq::empty(),
    }
}

/// The text of a text fragment kind.
pub open spec fn text_of(i: SpecificFragmentInfo) -> Seq<char> {
    match i {
        SpecificFragmentInfo::UnscannedText(t) => t@,
        _ => Seq::empty(),
    }
}

/// An image fragment for `url` where there is one, a generic one otherwise.
pub open spec fn image_info_fits(url: Option<Seq<char>>, i: SpecificFragmentInfo) -> bool {
    match url {
        Option::None => i is Generic,
        Option::Some(u) => i is Image && image_url_of(i) == u,
    }
}

/// The fragment kind a node's own fragment has.
pub open spec fn specific_info_fits(node: DomNode, i: SpecificFragmentInfo) -> bool {
    match node.type_id {
        Option::Some(NodeType::Element(ElementKind::Image)) => image_info_fits(
            match node.image_url { Option::Some(u) => Option::Some(u@), Option::None => Option::None },
            i,
        ),
        Option::Some(NodeType::Element(ElementKind::IFrame)) => i is Iframe,
        Option::Some(NodeType::Element(ElementKind::Object)) => image_info_fits(
            if crate::dom::spec_has_object_data(node) { Option::Some(node.object_data.unwrap()@) } else { Option::None },
            i,
        ),
        Option::Some(NodeType::Element(ElementKind::Table)) => i is TableWrapper,
        Option::Some(NodeType::Element(ElementKind::TableCol)) => i is TableColumn,
        Option::Some(NodeType::Element(ElementKind::TableDataCell))
        | Option::Some(NodeType::Element(ElementKind::TableHeaderCell)) => i is TableCell,
        Option::Some(NodeType::Element(ElementKind::TableRow))
        | Option::Some(NodeType::Element(ElementKind::TableSection)) => i is TableRow,
        Option::None | Option::Some(NodeType::Text) => i is UnscannedText && text_of(i) == node.text@,
        _ => i is Generic,
    }
}

/// The fragment of a table column node.
pub open spec fn column_fragment(node: DomNode) -> Fragment {
    Fragment { node: node.key, style: node.style, specific: SpecificFragmentInfo::TableColumn }
}

/// `r` is an inline item with no splits and no descendants whose only
/// fragment is `node`'s own.
pub open spec fn is_single_fragment_item(r: ConstructionResult, node: DomNode) -> bool {
    match r {
        ConstructionResult::ConstructionItemConstructionResult(
            ConstructionItem::InlineFragmentsConstructionItem(i),
        ) => {
            &&& i.splits@.len() == 0
            &&& i.abs_descendants@.len() == 0
            &&& i.fragments.fragments@.len() == 1
            &&& i.fragments.ranges@.len() == 0
            &&& i.fragments.fragments@[0].node == node.key
            &&& i.fragments.fragments@[0].style == node.style
            &&& specific_info_fits(node, i.fragments.fragments@[0].specific)
        },
        _ => false,
    }
}

/// Whatever one result bubbles up is among the merged descendants of a
/// sequence of results holding it.
proof fn lemma_merged_holds(rs: Seq<ConstructionResult>, i: int, d: usize)
    requires
        0 <= i < rs.len(),
        result_descendants(rs[i]).contains(d),
    ensures
        merged_descendants(rs).contains(d),
    decreases rs.len(),
{
    let last = rs.len() - 1;
    if i == last {
        let k = choose|k: int| 0 <= k < result_descendants(rs[i]).len() && result_descendants(rs[i])[k] == d;
        assert(merged_descendants(rs)[merged_descendants(rs.drop_last()).len() + k] == d);
    } else {
        assert(rs.drop_last()[i] == rs[i]);
        lemma_merged_holds(rs.drop_last(), i, d);
        let k = choose|k: int| 0 <= k < merged_descendants(rs.drop_last()).len()
            && merged_descendants(rs.drop_last())[k] == d;
        assert(merged_descendants(rs)[k] == d);
    }
}

/// An absolutely positioned box `d` bubbled up by one of a box's children
/// reaches the nearest positioned ancestor: where the box built from those
/// children is positioned, `d` is in its descendant list and in nothing it
/// bubbles further up.
pub proof fn lemma_descendant_stops_at_containing_block(
    kids: Seq<ConstructionResult>,
    i: int,
    d: usize,
    node: DomNode,
    class: FlowClass,
    float_kind: Option<FloatKind>,
    r: ConstructionResult,
)
    requires
        0 <= i < kids.len(),
        result_descendants(kids[i]).contains(d),
        built_box(r, class, node, float_kind, merged_descendants(kids)),
        spec_is_positioned(node.style.position),
        d != node.key,
    ensures
        result_flow(r).abs_descendants@.contains(d),
        !result_descendants(r).contains(d),
{
    lemma_merged_holds(kids, i, d);
    if spec_is_out_of_flow(node.style.position) {
        assert(result_descendants(r) == seq![node.key]);
    }
}

/// A box that is not positioned passes every descendant its children
/// bubbled up on to its own parent.
pub proof fn lemma_descendant_passes_unpositioned_box(
    kids: Seq<ConstructionResult>,
    i: int,
    d: usize,
    node: DomNode,
    class: FlowClass,
    float_kind: Option<FloatKind>,
    r: ConstructionResult,
)
    requires
        0 <= i < kids.len(),
        result_descendants(kids[i]).contains(d),
        built_box(r, class, node, float_kind, merged_descendants(kids)),
        !spec_is_positioned(node.style.position),
    ensures
        result_descendants(r).contains(d),
{
    lemma_merged_holds(kids, i, d);
}

} // verus!
