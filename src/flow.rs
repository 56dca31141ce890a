//! Layout boxes ("flows"): a closed set of box classes, the structural rules
//! saying which children a box takes, and the boxes synthesized when it
//! refuses one.

use vstd::prelude::*;
use crate::fragment::{Fragment, InlineFragments, SpecificFragmentInfo};
use crate::style::{FloatKind, Position, Style};

verus! {

/// The class of a box.
#[derive(Clone, Copy, Debug, PartialEq, Eq, Structural)]
pub enum FlowClass {
    Block,
    Inline,
    TableWrapper,
    Table,
    TableColGroup,
    TableRowGroup,
    TableRow,
    TableCaption,
    TableCell,
}

/// A box of the layout tree.
///
/// `node` is the key of the document node the box was built for (for an
/// anonymous box, the node under which it was synthesized). `abs_descendants`
/// lists, by node key, the absolutely positioned boxes below this one whose
/// containing block it is; it is filled only on positioned boxes.
pub struct Flow {
    pub class: FlowClass,
    pub node: usize,
    pub anonymous: bool,
    pub position: Position,
    pub float_kind: Option<FloatKind>,
    /// The box's own fragment; `None` for inline boxes.
    pub fragment: Option<Fragment>,
    /// The content of an inline box.
    pub fragments: InlineFragments,
    /// The columns of a column group.
    pub col_fragments: Vec<Fragment>,
    pub children: Vec<Flow>,
    pub abs_descendants: Vec<usize>,
}

/// Whether a box of class `parent` refuses a child of class `child`, which
/// then needs an anonymous box in between (CSS 2.1 §17.2.1).
pub open spec fn spec_needs_anonymous(parent: FlowClass, child: FlowClass) -> bool {
    match parent {
        FlowClass::Table => !(child == FlowClass::TableRowGroup || child == FlowClass::TableColGroup
            || child == FlowClass::TableCaption),
        FlowClass::TableRowGroup => child != FlowClass::TableRow,
        FlowClass::TableRow => child != FlowClass::TableCell,
        _ => false,
    }
}

/// The class of the anonymous box synthesized under a box of class `parent`.
pub open spec fn spec_missing_child(parent: FlowClass) -> FlowClass {
    match parent {
        FlowClass::Table => FlowClass::TableRowGroup,
        FlowClass::TableRowGroup => FlowClass::TableRow,
        _ => FlowClass::TableCell,
    }
}

/// How many levels of anonymous boxes a box of this class may need below it.
pub open spec fn wrapper_depth(c: FlowClass) -> nat {
    match c {
        FlowClass::Table => 3,
        FlowClass::TableRowGroup => 2,
        FlowClass::TableRow => 1,
        _ => 0,
    }
}

/// Only a class that may need anonymous boxes below it refuses a child, and
/// the anonymous box it needs sits one level shallower.
pub proof fn lemma_wrapper_depth(parent: FlowClass, child: FlowClass)
    ensures
        spec_needs_anonymous(parent, child) ==> wrapper_depth(parent) > 0,
        wrapper_depth(parent) > 0 ==> wrapper_depth(spec_missing_child(parent)) + 1
            == wrapper_depth(parent),
{
}

/// The classes of the table model: all but blocks and inlines.
pub open spec fn spec_is_table_kind(c: FlowClass) -> bool {
    c != FlowClass::Block && c != FlowClass::Inline
}

/// `f` holds no child that its class refuses.
pub open spec fn accepts_children(f: Flow) -> bool {
    forall|i: int| 0 <= i < f.children@.len() ==> !spec_needs_anonymous(f.class, #[trigger] f.children@[i].class)
}

/// `f`, under a parent of class `parent`, is either a box that was asked
/// for or the anonymous box that parent is missing: of the class
/// `spec_missing_child(parent)`, taking all its children, with no two
/// anonymous children side by side, and with the same holding of every
/// child, at every level.
pub open spec fn wrapped_ok(f: Flow, parent: FlowClass) -> bool
    decreases f,
{
    f.anonymous ==> {
        &&& wrapper_depth(parent) > 0
        &&& f.class == spec_missing_child(parent)
        &&& accepts_children(f)
        &&& runs_grouped(f)
        &&& forall|i: int| 0 <= i < f.children@.len() ==> wrapped_ok(#[trigger] f.children@[i], f.class)
    }
}

/// No two neighbouring children of `f` are anonymous: each maximal run of
/// refused boxes went under one anonymous box.
#[verifier::opaque]
pub open spec fn runs_grouped(f: Flow) -> bool {
    forall|i: int| 0 < i < f.children@.len() ==> !(f.children@[i - 1].anonymous && (#[trigger] f.children@[i]).anonymous)
}

/// Every anonymous box below `f` is the one its parent is missing.
pub open spec fn children_wrapped(f: Flow) -> bool {
    forall|i: int| 0 <= i < f.children@.len() ==> wrapped_ok(#[trigger] f.children@[i], f.class)
}

/// `f` has no children, or its last child is not anonymous.
pub open spec fn last_named(f: Flow) -> bool {
    f.children@.len() == 0 || !f.children@.last().anonymous
}

/// None of the boxes is anonymous.
pub open spec fn all_named(s: Seq<Flow>) -> bool {
    forall|i: int| 0 <= i < s.len() ==> !(#[trigger] s[i]).anonymous
}

/// The boxes `f` stands for once anonymous boxes are looked through: `f`
/// itself, or, for an anonymous box, those below its children in order.
pub open spec fn boxes_below(f: Flow) -> Seq<Flow>
    decreases f, 1nat,
{
    if f.anonymous {
        boxes_within(f, f.children@.len() as int)
    } else {
        seq![f]
    }
}

/// The boxes below the first `n` children of `f`, anonymous boxes looked
/// through.
pub open spec fn boxes_within(f: Flow, n: int) -> Seq<Flow>
    decreases f, 0nat, n,
{
    if n <= 0 || n > f.children@.len() {
        Seq::empty()
    } else {
        boxes_within(f, n - 1) + boxes_below(f.children@[n - 1])
    }
}

/// Boxes with the same first `n` children have the same boxes below them.
pub proof fn lemma_within_prefix(f: Flow, g: Flow, n: int)
    requires
        0 <= n <= f.children@.len(),
        n <= g.children@.len(),
        f.children@.subrange(0, n) == g.children@.subrange(0, n),
    ensures
        boxes_within(f, n) == boxes_within(g, n),
    decreases n,
{
    if n > 0 {
        assert(f.children@.subrange(0, n - 1) =~= g.children@.subrange(0, n - 1)) by {
            assert(f.children@.subrange(0, n - 1) =~= f.children@.subrange(0, n).subrange(0, n - 1));
            assert(g.children@.subrange(0, n - 1) =~= g.children@.subrange(0, n).subrange(0, n - 1));
        }
        assert(f.children@[n - 1] == f.children@.subrange(0, n)[n - 1]);
        assert(g.children@[n - 1] == g.children@.subrange(0, n)[n - 1]);
        lemma_within_prefix(f, g, n - 1);
    }
}

/// The boxes below all of `f`'s children, anonymous boxes looked through.
pub open spec fn boxes_of(f: Flow) -> Seq<Flow> {
    boxes_within(f, f.children@.len() as int)
}

/// Where no child is anonymous, the boxes below a box are its children.
pub proof fn lemma_named_children(f: Flow)
    requires
        all_named(f.children@),
    ensures
        boxes_of(f) == f.children@,
{
    lemma_named_within(f, f.children@.len() as int);
    assert(f.children@.subrange(0, f.children@.len() as int) =~= f.children@);
}

proof fn lemma_named_within(f: Flow, n: int)
    requires
        all_named(f.children@),
        0 <= n <= f.children@.len(),
    ensures
        boxes_within(f, n) == f.children@.subrange(0, n),
    decreases n,
{
    if n > 0 {
        lemma_named_within(f, n - 1);
        let c = f.children@[n - 1];
        assert(!c.anonymous);
        assert(boxes_below(c) == seq![c]);
        assert(boxes_within(f, n) == boxes_within(f, n - 1) + boxes_below(c));
        assert(f.children@.subrange(0, n) =~= f.children@.subrange(0, n - 1) + seq![c]);
    } else {
        assert(f.children@.subrange(0, 0) =~= Seq::<Flow>::empty());
    }
}

/// Adding a last child adds the boxes it stands for at the end.
pub proof fn lemma_within_push(f: Flow, g: Flow, c: Flow)
    requires
        g.children@ == f.children@.push(c),
    ensures
        boxes_within(g, g.children@.len() as int) == boxes_within(f, f.children@.len() as int) + boxes_below(c),
{
    let n = f.children@.len() as int;
    assert(f.children@.subrange(0, n) =~= g.children@.subrange(0, n));
    lemma_within_prefix(f, g, n);
    assert(g.children@[n] == c);
}

/// The box kept apart from `b`'s children and content: what stays fixed
/// while children are attached.
pub open spec fn same_box(a: Flow, b: Flow) -> bool {
    a.class == b.class && a.node == b.node && a.anonymous == b.anonymous
        && a.position == b.position && a.float_kind == b.float_kind
        && a.abs_descendants@ == b.abs_descendants@
}

impl FlowClass {
    pub fn needs_anonymous(&self, child: FlowClass) -> (r: bool)
        ensures
            r == spec_needs_anonymous(*self, child),
    {
        match self {
            FlowClass::Table => !matches!(
                child,
                FlowClass::TableRowGroup | FlowClass::TableColGroup | FlowClass::TableCaption
            ),
            FlowClass::TableRowGroup => !matches!(child, FlowClass::TableRow),
            FlowClass::TableRow => !matches!(child, FlowClass::TableCell),
            _ => false,
        }
    }

    pub fn is_table_kind(&self) -> (r: bool)
        ensures
            r == spec_is_table_kind(*self),
    {
        !matches!(self, FlowClass::Block | FlowClass::Inline)
    }
}

impl Flow {
    /// A childless box of class `class` for node `node`.
    pub fn new(
        class: FlowClass,
        node: usize,
        position: Position,
        float_kind: Option<FloatKind>,
        fragment: Option<Fragment>,
    ) -> (r: Flow)
        ensures
            r.class == class,
            r.node == node,
            !r.anonymous,
            r.position == position,
            r.float_kind == float_kind,
            r.fragment == fragment,
            r.fragments.fragments@.len() == 0,
            r.fragments.ranges@.len() == 0,
            r.col_fragments@.len() == 0,
            r.children@.len() == 0,
            r.abs_descendants@.len() == 0,
    {
        Flow {
            class,
            node,
            anonymous: false,
            position,
            float_kind,
            fragment,
            fragments: InlineFragments::new(),
            col_fragments: Vec::new(),
            children: Vec::new(),
            abs_descendants: Vec::new(),
        }
    }

    /// An inline box holding a run of fragments.
    pub fn from_fragments(node: usize, fragments: InlineFragments) -> (r: Flow)
        ensures
            r.class == FlowClass::Inline,
            r.node == node,
            !r.anonymous,
            r.position == Position::Static,
            r.float_kind.is_none(),
            r.fragment.is_none(),
            r.fragments == fragments,
            r.col_fragments@.len() == 0,
            r.children@.len() == 0,
            r.abs_descendants@.len() == 0,
    {
        Flow {
            class: FlowClass::Inline,
            node,
            anonymous: false,
            position: Position::Static,
            float_kind: Option::None,
            fragment: Option::None,
            fragments,
            col_fragments: Vec::new(),
            children: Vec::new(),
            abs_descendants: Vec::new(),
        }
    }

    pub fn is_table(&self) -> (r: bool)
        ensures
            r == (self.class == FlowClass::Table),
    {
        matches!(self.class, FlowClass::Table)
    }

    pub fn is_table_caption(&self) -> (r: bool)
        ensures
            r == (self.class == FlowClass::TableCaption),
    {
        matches!(self.class, FlowClass::TableCaption)
    }

    /// Whether this box refuses `child` as a direct child.
    pub fn need_anonymous_flow(&self, child: &Flow) -> (r: bool)
        ensures
            r == spec_needs_anonymous(self.class, child.class),
    {
        self.class.needs_anonymous(child.class)
    }

    /// Tears this box down, its children first.
    #[verifier::loop_isolation(false)]
    pub fn destroy(self)
        decreases self,
    {
        let ghost whole = self;
        let Flow { children, .. } = self;
        assert(children@ == whole.children@);
        for child in it: children.into_iter()
            invariant
                it.seq() == whole.children@,
        {
            assert(child == whole.children@[it.index() as int]);
            child.destroy();
        }
    }

    /// Appends `child` as the last child.
    pub fn add_new_child(&mut self, child: Flow)
        ensures
            same_box(*final(self), *old(self)),
            final(self).children@ == old(self).children@.push(child),
            children_wrapped(*old(self)) && wrapped_ok(child, old(self).class) ==> children_wrapped(*final(self)),
            runs_grouped(*old(self)) && (old(self).children@.len() == 0 || !old(self).children@.last().anonymous
                || !child.anonymous) ==> runs_grouped(*final(self)),
    {
        let ghost before = *self;
        self.children.push(child);
        assert forall|i: int| 0 <= i < before.children@.len() implies self.children@[i] == before.children@[i] by {}
        proof {
            reveal(runs_grouped);
        }
    }

    /// Makes this box the containing block of the given descendants.
    pub fn set_abs_descendants(&mut self, descendants: Vec<usize>)
        ensures
            final(self).class == old(self).class,
            final(self).node == old(self).node,
            final(self).anonymous == old(self).anonymous,
            final(self).position == old(self).position,
            final(self).float_kind == old(self).float_kind,
            final(self).children == old(self).children,
            final(self).abs_descendants@ == descendants@,
    {
        self.abs_descendants = descendants;
    }

    /// The anonymous box that goes between this box and the children it
    /// refuses.
    pub fn generate_missing_child_flow(&self, node: usize, style: Style) -> (r: Flow)
        requires
            wrapper_depth(self.class) > 0,
        ensures
            r.class == spec_missing_child(self.class),
            !spec_needs_anonymous(self.class, r.class),
            r.node == node,
            r.anonymous,
            r.position == Position::Static,
            r.float_kind.is_none(),
            r.children@.len() == 0,
            r.abs_descendants@.len() == 0,
    {
        let (class, specific) = match self.class {
            FlowClass::Table => (FlowClass::TableRowGroup, SpecificFragmentInfo::TableRow),
            FlowClass::TableRowGroup => (FlowClass::TableRow, SpecificFragmentInfo::TableRow),
            _ => (FlowClass::TableCell, SpecificFragmentInfo::TableCell),
        };
        let fragment = Fragment { node, style, specific };
        Flow {
            class,
            node,
            anonymous: true,
            position: Position::Static,
            float_kind: Option::None,
            fragment: Option::Some(fragment),
            fragments: InlineFragments::new(),
            col_fragments: Vec::new(),
            children: Vec::new(),
            abs_descendants: Vec::new(),
        }
    }
}

} // verus!
