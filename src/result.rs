//! What flow construction makes of a node: a finished box, content that has
//! not found its box yet, or nothing; and what a sequence of such results
//! holds.

use vstd::prelude::*;
use crate::flow::{Flow, FlowClass};
use crate::fragment::{Fragment, InlineFragments};
use crate::style::Style;

verus! {

/// What flow construction made of a node.
pub enum ConstructionResult {
    /// The node contributes nothing (`display: none`, or not built yet).
    NoConstructionResult,
    /// A finished box, with the absolutely positioned boxes below it that
    /// have not reached their containing block yet.
    FlowConstructionResult(Flow, Vec<usize>),
    /// Content that has not found the box it belongs to yet.
    ConstructionItemConstructionResult(ConstructionItem),
}

/// Content that bubbles up until it finds its box.
pub enum ConstructionItem {
    /// Inline fragments with the {ib} splits before them.
    InlineFragmentsConstructionItem(InlineFragmentsConstructionResult),
    /// White space that may collapse away: the text node and its style.
    WhitespaceConstructionItem(usize, Style),
    /// The fragment of a table column.
    TableColumnFragmentConstructionItem(Fragment),
}

/// Inline fragments and {ib} splits bubbling up from an inline.
pub struct InlineFragmentsConstructionResult {
    /// The {ib} splits, in order.
    pub splits: Vec<InlineBlockSplit>,
    /// The fragments after the last split.
    pub fragments: InlineFragments,
    /// The absolutely positioned boxes bubbling up with them.
    pub abs_descendants: Vec<usize>,
}

/// An {ib} split: the inline fragments before a block box met inside an
/// inline, and that block box.
///
/// For `<span>A<div>B</div>C</span>` the span contributes one split, with
/// the fragment `A` before the block box of the `div`, followed by the
/// fragment `C`.
pub struct InlineBlockSplit {
    pub predecessors: InlineFragments,
    pub flow: Flow,
}

impl ConstructionResult {
    /// Tears down whatever boxes the result holds.
    pub fn destroy(self) {
        match self {
            ConstructionResult::NoConstructionResult => {},
            ConstructionResult::FlowConstructionResult(flow, _) => flow.destroy(),
            ConstructionResult::ConstructionItemConstructionResult(item) => item.destroy(),
        }
    }
}

impl ConstructionItem {
    /// Tears down the block boxes of the item's {ib} splits.
    pub fn destroy(self) {
        match self {
            ConstructionItem::InlineFragmentsConstructionItem(result) => {
                for split in result.splits.into_iter() {
                    split.destroy();
                }
            },
            ConstructionItem::WhitespaceConstructionItem(..) => {},
            ConstructionItem::TableColumnFragmentConstructionItem(_) => {},
        }
    }
}

impl InlineBlockSplit {
    /// Tears down the split's block box.
    pub fn destroy(self) {
        self.flow.destroy()
    }
}

/// The predecessor runs of a list of {ib} splits are well formed, and
/// their block boxes are not anonymous.
pub open spec fn splits_wf(splits: Seq<InlineBlockSplit>) -> bool {
    forall|i: int| 0 <= i < splits.len() ==> (#[trigger] splits[i]).predecessors.wf() && !splits[i].flow.anonymous
}

/// The fragment runs a result holds are well formed, and the boxes it holds
/// are not anonymous.
pub open spec fn result_wf(r: ConstructionResult) -> bool {
    match r {
        ConstructionResult::FlowConstructionResult(f, _) => !f.anonymous,
        ConstructionResult::ConstructionItemConstructionResult(
            ConstructionItem::InlineFragmentsConstructionItem(i),
        ) => i.fragments.wf() && splits_wf(i.splits@),
        _ => true,
    }
}

/// The absolutely positioned boxes a result bubbles up.
pub open spec fn result_descendants(r: ConstructionResult) -> Seq<usize> {
    match r {
        ConstructionResult::FlowConstructionResult(_, d) => d@,
        ConstructionResult::ConstructionItemConstructionResult(
            ConstructionItem::InlineFragmentsConstructionItem(i),
        ) => i.abs_descendants@,
        _ => Seq::empty(),
    }
}

/// The bubbled boxes of a sequence of results, in order.
pub open spec fn merged_descendants(rs: Seq<ConstructionResult>) -> Seq<usize>
    decreases rs.len(),
{
    if rs.len() == 0 {
        Seq::empty()
    } else {
        merged_descendants(rs.drop_last()) + result_descendants(rs.last())
    }
}

/// The result of a node that contributes nothing.
pub open spec fn is_empty_result(r: ConstructionResult) -> bool {
    r is NoConstructionResult
}

/// The box a result holds, where it holds one.
pub open spec fn result_flow(r: ConstructionResult) -> Flow {
    match r {
        ConstructionResult::FlowConstructionResult(f, _) => f,
        _ => arbitrary(),
    }
}

/// A result holding a caption box.
pub open spec fn is_caption_result(r: ConstructionResult) -> bool {
    r is FlowConstructionResult && result_flow(r).class == FlowClass::TableCaption
}

/// The boxes among a sequence of results, in order.
pub open spec fn flows_of(rs: Seq<ConstructionResult>) -> Seq<Flow>
    decreases rs.len(),
{
    if rs.len() == 0 {
        Seq::empty()
    } else if rs.last() is FlowConstructionResult {
        flows_of(rs.drop_last()).push(result_flow(rs.last()))
    } else {
        flows_of(rs.drop_last())
    }
}

/// The caption boxes among a sequence of results, in order.
pub open spec fn captions_of(rs: Seq<ConstructionResult>) -> Seq<Flow>
    decreases rs.len(),
{
    if rs.len() == 0 {
        Seq::empty()
    } else if is_caption_result(rs.last()) {
        captions_of(rs.drop_last()).push(result_flow(rs.last()))
    } else {
        captions_of(rs.drop_last())
    }
}

/// The column fragments among a sequence of results, in order.
pub open spec fn column_fragments(rs: Seq<ConstructionResult>) -> Seq<Fragment>
    decreases rs.len(),
{
    if rs.len() == 0 {
        Seq::empty()
    } else {
        match rs.last() {
            ConstructionResult::ConstructionItemConstructionResult(
                ConstructionItem::TableColumnFragmentConstructionItem(f),
            ) => column_fragments(rs.drop_last()).push(f),
            _ => column_fragments(rs.drop_last()),
        }
    }
}

/// The block boxes of a list of {ib} splits, in order.
pub open spec fn split_boxes(splits: Seq<InlineBlockSplit>) -> Seq<Flow> {
    splits.map_values(|sp: InlineBlockSplit| sp.flow)
}

/// The block boxes an inline takes from a result as {ib} splits: a box
/// itself, or the splits of an inline item.
pub open spec fn result_split_boxes(r: ConstructionResult) -> Seq<Flow> {
    match r {
        ConstructionResult::FlowConstructionResult(f, _) => seq![f],
        ConstructionResult::ConstructionItemConstructionResult(
            ConstructionItem::InlineFragmentsConstructionItem(i),
        ) => split_boxes(i.splits@),
        _ => Seq::empty(),
    }
}

/// The {ib}-split block boxes of a sequence of results, in order.
pub open spec fn all_split_boxes(rs: Seq<ConstructionResult>) -> Seq<Flow>
    decreases rs.len(),
{
    if rs.len() == 0 {
        Seq::empty()
    } else {
        all_split_boxes(rs.drop_last()) + result_split_boxes(rs.last())
    }
}

/// How many fragments an inline gathers after the last {ib} split, from a
/// sequence of its children's results: a box closes the run, an item's
/// fragments extend it (or start it anew after the item's own splits), and
/// white space adds a single space.
pub open spec fn trailing_fragments(rs: Seq<ConstructionResult>) -> nat
    decreases rs.len(),
{
    if rs.len() == 0 {
        0
    } else {
        let prev = trailing_fragments(rs.drop_last());
        match rs.last() {
            ConstructionResult::FlowConstructionResult(_, _) => 0,
            ConstructionResult::ConstructionItemConstructionResult(
                ConstructionItem::InlineFragmentsConstructionItem(i),
            ) => if i.splits@.len() > 0 {
                i.fragments.fragments@.len()
            } else {
                prev + i.fragments.fragments@.len()
            },
            ConstructionResult::ConstructionItemConstructionResult(
                ConstructionItem::WhitespaceConstructionItem(_, _),
            ) => prev + 1,
            _ => prev,
        }
    }
}

/// The fragments of an inline item after its splits.
pub open spec fn result_trailing_fragments(r: ConstructionResult) -> Seq<Fragment> {
    match r {
        ConstructionResult::ConstructionItemConstructionResult(
            ConstructionItem::InlineFragmentsConstructionItem(i),
        ) => i.fragments.fragments@,
        _ => Seq::empty(),
    }
}

/// A result holding an inline item.
pub open spec fn is_inline_item(r: ConstructionResult) -> bool {
    match r {
        ConstructionResult::ConstructionItemConstructionResult(
            ConstructionItem::InlineFragmentsConstructionItem(_),
        ) => true,
        _ => false,
    }
}

/// The inline item a result holds, where it holds one.
pub open spec fn inline_item(r: ConstructionResult) -> InlineFragmentsConstructionResult {
    match r {
        ConstructionResult::ConstructionItemConstructionResult(
            ConstructionItem::InlineFragmentsConstructionItem(i),
        ) => i,
        _ => arbitrary(),
    }
}

} // verus!
