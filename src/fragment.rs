//! Fragments, the leaf content of boxes, and runs of inline fragments with the
//! index ranges that record which inline element encloses which fragments.

use vstd::prelude::*;
use crate::dom::{spec_is_whitespace, is_whitespace};
use crate::style::Style;

verus! {

/// What kind of content a fragment holds.
pub enum SpecificFragmentInfo {
    Generic,
    Iframe,
    /// Replaced image content, with its source URL.
    Image(Vec<char>),
    TableWrapper,
    Table,
    TableCell,
    TableRow,
    TableColumn,
    /// Text not yet shaped into runs.
    UnscannedText(Vec<char>),
}

/// A unit of leaf content, with the node it came from and that node's style.
pub struct Fragment {
    pub node: usize,
    pub style: Style,
    pub specific: SpecificFragmentInfo,
}

/// A fragment of text made of white space only.
pub open spec fn spec_is_whitespace_only(f: Fragment) -> bool {
    match f.specific {
        SpecificFragmentInfo::UnscannedText(t) => spec_is_whitespace(t@),
        _ => false,
    }
}

impl Fragment {
    pub fn is_whitespace_only(&self) -> (r: bool)
        ensures
            r == spec_is_whitespace_only(*self),
    {
        match &self.specific {
            SpecificFragmentInfo::UnscannedText(t) => is_whitespace(t),
            _ => false,
        }
    }
}

/// The fragments `[begin, end)` of a run that an inline element encloses.
#[derive(Clone, Copy, Debug, PartialEq, Eq, Structural)]
pub struct ElementRange {
    pub node: usize,
    pub style: Style,
    pub begin: usize,
    pub end: usize,
}

/// A run of inline fragments in order, with the ranges of the inline elements
/// that enclose them.
pub struct InlineFragments {
    pub fragments: Vec<Fragment>,
    pub ranges: Vec<ElementRange>,
}

/// Every range lies within `[0, len]` and does not run backwards.
pub open spec fn ranges_within(ranges: Seq<ElementRange>, len: nat) -> bool {
    forall|i: int| 0 <= i < ranges.len() ==> #[trigger] ranges[i].begin <= ranges[i].end
        && ranges[i].end <= len
}

/// `r` moved `by` places towards the end.
pub open spec fn shifted(r: ElementRange, by: nat) -> ElementRange {
    ElementRange { begin: (r.begin + by) as usize, end: (r.end + by) as usize, ..r }
}

/// `r` after the first `k` fragments of its run were removed.
pub open spec fn dropped_front(r: ElementRange, k: nat) -> ElementRange {
    ElementRange {
        begin: if r.begin >= k { (r.begin - k) as usize } else { 0 },
        end: if r.end >= k { (r.end - k) as usize } else { 0 },
        ..r
    }
}

/// `r` after its run was cut down to `n` fragments.
pub open spec fn cut_to(r: ElementRange, n: nat) -> ElementRange {
    ElementRange {
        begin: if r.begin <= n { r.begin } else { n as usize },
        end: if r.end <= n { r.end } else { n as usize },
        ..r
    }
}

/// How many of the first fragments of `s` are white space only.
pub open spec fn leading_whitespace(s: Seq<Fragment>) -> nat
    decreases s.len(),
{
    if s.len() > 0 && spec_is_whitespace_only(s[0]) {
        1 + leading_whitespace(s.drop_first())
    } else {
        0
    }
}

/// How many of the last fragments of `s` are white space only.
pub open spec fn trailing_whitespace(s: Seq<Fragment>) -> nat
    decreases s.len(),
{
    if s.len() > 0 && spec_is_whitespace_only(s.last()) {
        1 + trailing_whitespace(s.drop_last())
    } else {
        0
    }
}

impl InlineFragments {
    pub open spec fn wf(&self) -> bool {
        ranges_within(self.ranges@, self.fragments@.len())
    }

    /// An empty run.
    pub fn new() -> (r: InlineFragments)
        ensures
            r.fragments@.len() == 0,
            r.ranges@.len() == 0,
            r.wf(),
    {
        InlineFragments { fragments: Vec::new(), ranges: Vec::new() }
    }

    pub fn len(&self) -> (r: usize)
        ensures
            r == self.fragments@.len(),
    {
        self.fragments.len()
    }

    /// Appends one fragment.
    pub fn push(&mut self, fragment: Fragment)
        requires
            old(self).wf(),
        ensures
            final(self).fragments@ == old(self).fragments@.push(fragment),
            final(self).ranges@ == old(self).ranges@,
            final(self).wf(),
    {
        self.fragments.push(fragment);
    }

    /// Appends another run after this one, moving its ranges along with its
    /// fragments.
    pub fn push_all(&mut self, other: InlineFragments)
        requires
            old(self).wf(),
            other.wf(),
        ensures
            final(self).fragments@ == old(self).fragments@ + other.fragments@,
            final(self).ranges@ == old(self).ranges@ + other.ranges@.map_values(
                |r: ElementRange| shifted(r, old(self).fragments@.len()),
            ),
            final(self).wf(),
    {
        let InlineFragments { fragments: mut more, ranges: other_ranges } = other;
        let ghost start_frags = self.fragments@;
        let ghost more_frags = more@;
        let offset = self.fragments.len();
        self.fragments.append(&mut more);
        let total = self.fragments.len();
        assert(total - offset == more_frags.len());
        let ghost start = self.ranges@;
        let mut i: usize = 0;
        while i < other_ranges.len()
            invariant
                i <= other_ranges@.len(),
                ranges_within(other_ranges@, (total - offset) as nat),
                offset <= total,
                total == self.fragments@.len(),
                self.fragments@ == start_frags + more_frags,
                ranges_within(start, offset as nat),
                self.ranges@ == start + other_ranges@.subrange(0, i as int).map_values(
                    |r: ElementRange| shifted(r, offset as nat),
                ),
            decreases other_ranges@.len() - i,
        {
            let r = other_ranges[i];
            assert(r == other_ranges@[i as int]);
            self.ranges.push(ElementRange { begin: r.begin + offset, end: r.end + offset, ..r });
            assert(other_ranges@.subrange(0, i + 1) =~= other_ranges@.subrange(0, i as int).push(r));
            i = i + 1;
        }
        assert(other_ranges@.subrange(0, i as int) =~= other_ranges@);
    }

    /// Sets the end of the first range, the one enclosing the whole run, to
    /// the run's length.
    pub fn close_enclosing_range(&mut self)
        requires
            old(self).wf(),
            old(self).ranges@.len() > 0,
            old(self).ranges@[0].begin == 0,
        ensures
            final(self).fragments@ == old(self).fragments@,
            final(self).ranges@ == old(self).ranges@.update(
                0,
                ElementRange { end: old(self).fragments@.len() as usize, ..old(self).ranges@[0] },
            ),
            final(self).wf(),
    {
        let len = self.fragments.len();
        let first = self.ranges[0];
        self.ranges.set(0, ElementRange { end: len, ..first });
    }
}

/// Removes the white-space-only fragments at the start of a run, up to the
/// first fragment that is not, and moves the ranges to match.
pub fn strip_ignorable_whitespace_from_start(fragments: &mut InlineFragments)
    requires
        old(fragments).wf(),
    ensures
        final(fragments).fragments@ == old(fragments).fragments@.subrange(
            leading_whitespace(old(fragments).fragments@) as int,
            old(fragments).fragments@.len() as int,
        ),
        final(fragments).ranges@ == old(fragments).ranges@.map_values(
            |r: ElementRange| dropped_front(r, leading_whitespace(old(fragments).fragments@)),
        ),
        final(fragments).wf(),
{
    let ghost old_frags = fragments.fragments@;
    assert(old_frags.subrange(0, old_frags.len() as int) =~= old_frags);
    let mut k: usize = 0;
    while k < fragments.fragments.len() && fragments.fragments[k].is_whitespace_only()
        invariant
            k <= old_frags.len(),
            fragments.fragments@ == old_frags,
            leading_whitespace(old_frags) == k + leading_whitespace(old_frags.subrange(k as int, old_frags.len() as int)),
        decreases old_frags.len() - k,
    {
        let ghost rest = old_frags.subrange(k as int, old_frags.len() as int);
        assert(rest.drop_first() =~= old_frags.subrange(k + 1, old_frags.len() as int));
        k = k + 1;
    }
    proof {
        let rest = old_frags.subrange(k as int, old_frags.len() as int);
        if k < old_frags.len() {
            assert(rest[0] == old_frags[k as int]);
        }
        assert(leading_whitespace(rest) == 0);
    }
    let kept = fragments.fragments.split_off(k);
    fragments.fragments = kept;
    let ghost old_ranges = fragments.ranges@;
    let mut ranges: Vec<ElementRange> = Vec::new();
    let mut i: usize = 0;
    while i < fragments.ranges.len()
        invariant
            i <= old_ranges.len(),
            fragments.ranges@ == old_ranges,
            ranges@ == old_ranges.subrange(0, i as int).map_values(
                |r: ElementRange| dropped_front(r, k as nat),
            ),
        decreases old_ranges.len() - i,
    {
        let r = fragments.ranges[i];
        let begin = if r.begin >= k { r.begin - k } else { 0 };
        let end = if r.end >= k { r.end - k } else { 0 };
        ranges.push(ElementRange { begin, end, ..r });
        assert(old_ranges.subrange(0, i + 1) =~= old_ranges.subrange(0, i as int).push(r));
        i = i + 1;
    }
    assert(old_ranges.subrange(0, i as int) =~= old_ranges);
    fragments.ranges = ranges;
}

/// Removes the white-space-only fragments at the end of a run, back to the
/// last fragment that is not, and cuts the ranges to match.
pub fn strip_ignorable_whitespace_from_end(fragments: &mut InlineFragments)
    requires
        old(fragments).wf(),
    ensures
        final(fragments).fragments@ == old(fragments).fragments@.subrange(
            0,
            old(fragments).fragments@.len() - trailing_whitespace(old(fragments).fragments@),
        ),
        final(fragments).ranges@ == old(fragments).ranges@.map_values(
            |r: ElementRange| cut_to(
                r,
                (old(fragments).fragments@.len() - trailing_whitespace(old(fragments).fragments@)) as nat,
            ),
        ),
        final(fragments).wf(),
{
    let ghost old_frags = fragments.fragments@;
    proof { lemma_trailing_bounded(old_frags); }
    assert(old_frags.subrange(0, old_frags.len() as int) =~= old_frags);
    let mut n: usize = fragments.fragments.len();
    while n > 0 && fragments.fragments[n - 1].is_whitespace_only()
        invariant
            n <= old_frags.len(),
            fragments.fragments@ == old_frags,
            trailing_whitespace(old_frags) == (old_frags.len() - n) + trailing_whitespace(old_frags.subrange(0, n as int)),
        decreases n,
    {
        let ghost rest = old_frags.subrange(0, n as int);
        assert(rest.drop_last() =~= old_frags.subrange(0, n - 1));
        n = n - 1;
    }
    proof {
        let rest = old_frags.subrange(0, n as int);
        if n > 0 {
            assert(rest.last() == old_frags[n - 1]);
        }
        assert(trailing_whitespace(rest) == 0);
    }
    fragments.fragments.truncate(n);
    let ghost old_ranges = fragments.ranges@;
    let mut ranges: Vec<ElementRange> = Vec::new();
    let mut i: usize = 0;
    while i < fragments.ranges.len()
        invariant
            i <= old_ranges.len(),
            fragments.ranges@ == old_ranges,
            ranges@ == old_ranges.subrange(0, i as int).map_values(
                |r: ElementRange| cut_to(r, n as nat),
            ),
        decreases old_ranges.len() - i,
    {
        let r = fragments.ranges[i];
        let begin = if r.begin <= n { r.begin } else { n };
        let end = if r.end <= n { r.end } else { n };
        ranges.push(ElementRange { begin, end, ..r });
        assert(old_ranges.subrange(0, i + 1) =~= old_ranges.subrange(0, i as int).push(r));
        i = i + 1;
    }
    assert(old_ranges.subrange(0, i as int) =~= old_ranges);
    fragments.ranges = ranges;
}

proof fn lemma_trailing_bounded(s: Seq<Fragment>)
    ensures
        trailing_whitespace(s) <= s.len(),
    decreases s.len(),
{
    if s.len() > 0 {
        lemma_trailing_bounded(s.drop_last());
    }
}

/// What stripping leaves at the start has no white-space-only fragment in
/// front.
proof fn lemma_no_leading_left(s: Seq<Fragment>)
    ensures
        leading_whitespace(s) <= s.len(),
        leading_whitespace(s.subrange(leading_whitespace(s) as int, s.len() as int)) == 0,
    decreases s.len(),
{
    if s.len() > 0 && spec_is_whitespace_only(s[0]) {
        lemma_no_leading_left(s.drop_first());
        assert(s.subrange(leading_whitespace(s) as int, s.len() as int) =~= s.drop_first().subrange(
            leading_whitespace(s.drop_first()) as int,
            s.drop_first().len() as int,
        ));
    } else {
        assert(s.subrange(0, s.len() as int) =~= s);
    }
}

/// What stripping leaves at the end has no white-space-only fragment behind.
proof fn lemma_no_trailing_left(s: Seq<Fragment>)
    ensures
        trailing_whitespace(s) <= s.len(),
        trailing_whitespace(s.subrange(0, s.len() - trailing_whitespace(s))) == 0,
    decreases s.len(),
{
    if s.len() > 0 && spec_is_whitespace_only(s.last()) {
        lemma_no_trailing_left(s.drop_last());
        assert(s.subrange(0, s.len() - trailing_whitespace(s)) =~= s.drop_last().subrange(
            0,
            s.drop_last().len() - trailing_whitespace(s.drop_last()),
        ));
    } else {
        assert(s.subrange(0, s.len() as int) =~= s);
    }
}

/// Stripping white space from the start of a run a second time changes
/// nothing: neither its fragments nor its ranges.
pub proof fn lemma_strip_start_idempotent(s: Seq<Fragment>, ranges: Seq<ElementRange>)
    ensures
        ({
            let t = s.subrange(leading_whitespace(s) as int, s.len() as int);
            let rs = ranges.map_values(|r: ElementRange| dropped_front(r, leading_whitespace(s)));
            &&& t.subrange(leading_whitespace(t) as int, t.len() as int) == t
            &&& rs.map_values(|r: ElementRange| dropped_front(r, leading_whitespace(t))) == rs
        }),
{
    lemma_no_leading_left(s);
    let t = s.subrange(leading_whitespace(s) as int, s.len() as int);
    let rs = ranges.map_values(|r: ElementRange| dropped_front(r, leading_whitespace(s)));
    assert(t.subrange(0, t.len() as int) =~= t);
    assert(rs.map_values(|r: ElementRange| dropped_front(r, 0)) =~= rs);
}

/// Stripping white space from the end of a run a second time changes
/// nothing: neither its fragments nor its ranges.
pub proof fn lemma_strip_end_idempotent(s: Seq<Fragment>, ranges: Seq<ElementRange>)
    ensures
        ({
            let n = (s.len() - trailing_whitespace(s)) as nat;
            let t = s.subrange(0, n as int);
            let rs = ranges.map_values(|r: ElementRange| cut_to(r, n));
            &&& t.subrange(0, t.len() - trailing_whitespace(t)) == t
            &&& rs.map_values(|r: ElementRange| cut_to(r, (t.len() - trailing_whitespace(t)) as nat)) == rs
        }),
{
    lemma_no_trailing_left(s);
    let n = (s.len() - trailing_whitespace(s)) as nat;
    let t = s.subrange(0, n as int);
    let rs = ranges.map_values(|r: ElementRange| cut_to(r, n));
    assert(t.subrange(0, t.len() as int) =~= t);
    assert(rs.map_values(|r: ElementRange| cut_to(r, n)) =~= rs);
}

/// Stripping keeps every fragment that is not at the stripped edge: the
/// start of a run loses only white-space-only fragments, and the first one
/// it keeps is not white space only.
pub proof fn lemma_strip_start_removes_only_edge(s: Seq<Fragment>)
    ensures
        leading_whitespace(s) <= s.len(),
        forall|i: int| 0 <= i < leading_whitespace(s) ==> spec_is_whitespace_only(#[trigger] s[i]),
        leading_whitespace(s) < s.len() ==> !spec_is_whitespace_only(s[leading_whitespace(s) as int]),
    decreases s.len(),
{
    if s.len() > 0 && spec_is_whitespace_only(s[0]) {
        lemma_strip_start_removes_only_edge(s.drop_first());
        assert forall|i: int| 0 <= i < leading_whitespace(s) implies spec_is_whitespace_only(#[trigger] s[i]) by {
            if i > 0 {
                assert(s[i] == s.drop_first()[i - 1]);
            }
        }
    }
}

/// The end of a run loses only white-space-only fragments, and the last one
/// it keeps is not white space only.
pub proof fn lemma_strip_end_removes_only_edge(s: Seq<Fragment>)
    ensures
        trailing_whitespace(s) <= s.len(),
        forall|i: int| s.len() - trailing_whitespace(s) <= i < s.len() ==> spec_is_whitespace_only(#[trigger] s[i]),
        trailing_whitespace(s) < s.len() ==> !spec_is_whitespace_only(s[s.len() - trailing_whitespace(s) - 1]),
    decreases s.len(),
{
    if s.len() > 0 && spec_is_whitespace_only(s.last()) {
        lemma_strip_end_removes_only_edge(s.drop_last());
        assert forall|i: int| s.len() - trailing_whitespace(s) <= i < s.len() implies spec_is_whitespace_only(#[trigger] s[i]) by {
            if i < s.len() - 1 {
                assert(s[i] == s.drop_last()[i]);
            }
        }
    }
}

} // verus!
