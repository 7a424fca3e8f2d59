//! Applying textual fixes to a source string.
//!
//! A [`Fixer`] owns a text buffer and a Fenwick tree of signed length deltas,
//! one slot per boundary of the original text. Every replacement is written
//! against offsets of the original text; the tree translates those offsets to
//! offsets of the text as edited so far.
use std::ops::Range;
use std::ops::RangeInclusive;

use ftree::FenwickTree;
use vstd::prelude::*;
use vstd::string::StrSliceExecFns;
use vstd::string::StringExecFns;

verus! {

// ---------------------------------------------------------------------------
// Sums over delta sequences
// ---------------------------------------------------------------------------

/// The sum of the first `i` deltas of `s`.
pub open spec fn prefix(s: Seq<int>, i: int) -> int
    decreases i,
{
    if i <= 0 {
        0
    } else {
        prefix(s, i - 1) + s[i - 1]
    }
}

pub open spec fn abs(x: int) -> int {
    if x < 0 {
        -x
    } else {
        x
    }
}

/// The sum of the absolute values of the first `i` deltas of `s`.
pub open spec fn abs_prefix(s: Seq<int>, i: int) -> int
    decreases i,
{
    if i <= 0 {
        0
    } else {
        abs_prefix(s, i - 1) + abs(s[i - 1])
    }
}

/// The sum of the absolute values of all deltas of `s`: a bound on every
/// partial sum that a Fenwick tree over `s` stores.
pub open spec fn abs_total(s: Seq<int>) -> int {
    abs_prefix(s, s.len() as int)
}

/// `s` after `d` was added at boundary `b`; a boundary past the end is
/// ignored.
pub open spec fn add_delta(s: Seq<int>, b: int, d: int) -> Seq<int> {
    if 0 <= b < s.len() {
        s.update(b, s[b] + d)
    } else {
        s
    }
}

pub proof fn lemma_abs_prefix_monotone(s: Seq<int>, i: int, j: int)
    requires
        i <= j,
    ensures
        abs_prefix(s, i) <= abs_prefix(s, j),
    decreases j - i,
{
    if i < j {
        lemma_abs_prefix_monotone(s, i, j - 1);
    }
}

pub proof fn lemma_prefix_bounded(s: Seq<int>, i: int)
    ensures
        abs(prefix(s, i)) <= abs_prefix(s, i),
    decreases i,
{
    if i > 0 {
        lemma_prefix_bounded(s, i - 1);
    }
}

/// A prefix sum never exceeds the total of absolute values in magnitude.
pub proof fn lemma_prefix_within_total(s: Seq<int>, i: int)
    requires
        i <= s.len(),
    ensures
        abs(prefix(s, i)) <= abs_total(s),
{
    lemma_prefix_bounded(s, i);
    lemma_abs_prefix_monotone(s, i, s.len() as int);
}

/// A delta added at boundary `b` changes exactly the prefix sums that
/// reach past `b`.
pub proof fn lemma_prefix_add_delta(s: Seq<int>, b: int, d: int, i: int)
    requires
        0 <= i <= s.len(),
    ensures
        prefix(add_delta(s, b, d), i) == prefix(s, i) + (if 0 <= b < i {
            d
        } else {
            0
        }),
    decreases i,
{
    if i > 0 {
        lemma_prefix_add_delta(s, b, d, i - 1);
        let t = add_delta(s, b, d);
        if i - 1 == b {
            assert(t[i - 1] == s[i - 1] + d);
        } else {
            assert(t[i - 1] == s[i - 1]);
        }
    }
}

pub proof fn lemma_abs_prefix_add_delta(s: Seq<int>, b: int, d: int, i: int)
    requires
        0 <= i <= s.len(),
    ensures
        abs_prefix(add_delta(s, b, d), i) <= abs_prefix(s, i) + (if 0 <= b < i {
            abs(d)
        } else {
            0
        }),
    decreases i,
{
    if i > 0 {
        lemma_abs_prefix_add_delta(s, b, d, i - 1);
        let t = add_delta(s, b, d);
        if i - 1 == b {
            assert(t[i - 1] == s[i - 1] + d);
        } else {
            assert(t[i - 1] == s[i - 1]);
        }
    }
}

// ---------------------------------------------------------------------------
// The outside Fenwick tree
// ---------------------------------------------------------------------------

#[verifier::external_type_specification]
#[verifier::external_body]
#[verifier::reject_recursive_types(T)]
pub struct ExFenwickTree<T>(FenwickTree<T>);

/// The deltas held by a Fenwick tree, one per slot, in slot order.
pub uninterp spec fn tree_deltas(t: FenwickTree<i32>) -> Seq<int>;

/// Relies on `FenwickTree::from_iter`: the tree holds the given values in
/// order. While building, each slot accumulates a sum of a range of the
/// values, which the bound on their absolute total keeps within `i32`.
#[verifier::external_body]
fn tree_from_values(values: Vec<i32>) -> (t: FenwickTree<i32>)
    requires
        abs_total(values@.map_values(|x: i32| x as int)) <= i32::MAX,
    ensures
        tree_deltas(t) == values@.map_values(|x: i32| x as int),
{
    FenwickTree::from_iter(values)
}

/// Relies on `FenwickTree::prefix_sum`: with a zero start it returns the sum
/// of the slots before `index`, and asserts `index <= len`.
#[verifier::external_body]
fn tree_prefix_sum(t: &FenwickTree<i32>, index: usize) -> (r: i32)
    requires
        index <= tree_deltas(*t).len(),
        abs_total(tree_deltas(*t)) <= i32::MAX,
    ensures
        r as int == prefix(tree_deltas(*t), index as int),
{
    t.prefix_sum(index, 0i32)
}

/// Relies on `FenwickTree::add_at`: adds `diff` to slot `index`, and does
/// nothing when `index` is past the last slot. Each slot it touches holds a
/// sum of a range of deltas.
#[verifier::external_body]
fn tree_add_at(t: &mut FenwickTree<i32>, index: usize, diff: i32)
    requires
        abs_total(tree_deltas(*old(t))) + abs(diff as int) <= i32::MAX,
    ensures
        tree_deltas(*final(t)) == add_delta(tree_deltas(*old(t)), index as int, diff as int),
{
    t.add_at(index, diff)
}

/// Relies on the derived `Clone` of `FenwickTree`, called by the derived
/// `Clone` of `Fixer`. Nothing is stated of the copy.
pub assume_specification<T: Clone>[ <FenwickTree<T> as Clone>::clone ](t: &FenwickTree<T>) -> FenwickTree<T>;

/// Relies on `RangeInclusive::start`: the lower bound the range was made with.
pub assume_specification<Idx>[ RangeInclusive::<Idx>::start ](r: &RangeInclusive<Idx>) -> (s: &Idx)
    ensures
        *s == r@.start,
;

/// Relies on `RangeInclusive::end`: the upper bound the range was made with.
pub assume_specification<Idx>[ RangeInclusive::<Idx>::end ](r: &RangeInclusive<Idx>) -> (e: &Idx)
    ensures
        *e == r@.end,
;

// ---------------------------------------------------------------------------
// Replacements
// ---------------------------------------------------------------------------

/// An insertion point.
#[derive(Copy, Clone, Debug, PartialEq, Eq, Structural)]
pub enum InsertionPoint {
    /// Insert immediately before a specified region.
    BeforeStart,
    /// Insert immediately after a specified region.
    AfterEnd,
}

/// What a [`Replacement`] holds, as mathematical values.
pub struct ReplacementView {
    pub start: nat,
    pub end: nat,
    pub insertion_point: InsertionPoint,
    pub text: Seq<char>,
    pub precedence: nat,
}

/// A replacement to be applied to a String.
#[derive(Clone, Debug)]
pub struct Replacement {
    /// The start position of the replacement.
    start: usize,
    /// The end position of the replacement.
    end: usize,
    /// Where to insert the replacement.
    insertion_point: InsertionPoint,
    /// Value to be inserted.
    replacement: String,
    /// Precedence for replacement. Higher precedences are applied first.
    precedence: usize,
}

impl View for Replacement {
    type V = ReplacementView;

    closed spec fn view(&self) -> ReplacementView {
        ReplacementView {
            start: self.start as nat,
            end: self.end as nat,
            insertion_point: self.insertion_point,
            text: self.replacement@,
            precedence: self.precedence as nat,
        }
    }
}

impl Replacement {
    /// Create a new `Replacement`. A range that ends before it starts is
    /// malformed and refused.
    pub fn new(
        start: usize,
        end: usize,
        insertion_point: InsertionPoint,
        replacement: String,
        precedence: usize,
    ) -> (r: Self)
        requires
            start <= end,
        ensures
            r@ == (ReplacementView {
                start: start as nat,
                end: end as nat,
                insertion_point,
                text: replacement@,
                precedence: precedence as nat,
            }),
    {
        Replacement { start, end, insertion_point, replacement, precedence }
    }

    /// The start position of the replacement.
    pub fn start(&self) -> (r: usize)
        ensures
            r as nat == self@.start,
    {
        self.start
    }

    /// The end position of the replacement.
    pub fn end(&self) -> (r: usize)
        ensures
            r as nat == self@.end,
    {
        self.end
    }

    /// Where to insert the replacement.
    pub fn insertion_point(&self) -> (r: InsertionPoint)
        ensures
            r == self@.insertion_point,
    {
        self.insertion_point
    }

    /// Value to be inserted.
    pub fn replacement(&self) -> (r: &str)
        ensures
            r@ == self@.text,
    {
        self.replacement.as_str()
    }

    /// Precedence for replacement. Higher precedences are applied first.
    pub fn precedence(&self) -> (r: usize)
        ensures
            r as nat == self@.precedence,
    {
        self.precedence
    }
}

// ---------------------------------------------------------------------------
// Order of application
// ---------------------------------------------------------------------------

/// Places `x` into `s` (ordered by descending precedence) after every element
/// whose precedence is at least that of `x`.
pub open spec fn insert_by_precedence(s: Seq<ReplacementView>, x: ReplacementView) -> Seq<
    ReplacementView,
>
    decreases s.len(),
{
    if s.len() == 0 {
        seq![x]
    } else if s.last().precedence >= x.precedence {
        s.push(x)
    } else {
        insert_by_precedence(s.drop_last(), x).push(s.last())
    }
}

/// The order in which replacements are applied: by descending precedence,
/// equal precedences in the order given.
pub open spec fn by_precedence(s: Seq<ReplacementView>) -> Seq<ReplacementView>
    decreases s.len(),
{
    if s.len() == 0 {
        s
    } else {
        insert_by_precedence(by_precedence(s.drop_last()), s.last())
    }
}

proof fn lemma_insert_split(s: Seq<ReplacementView>, x: ReplacementView, j: int)
    requires
        0 < j <= s.len(),
        forall|k: int| j <= k < s.len() ==> s[k].precedence < x.precedence,
    ensures
        insert_by_precedence(s, x) == insert_by_precedence(s.subrange(0, j), x) + s.subrange(
            j,
            s.len() as int,
        ),
    decreases s.len() - j,
{
    if j < s.len() {
        lemma_insert_split(s, x, j + 1);
        let t = s.subrange(0, j + 1);
        assert(t.drop_last() =~= s.subrange(0, j));
        assert(insert_by_precedence(t, x) == insert_by_precedence(s.subrange(0, j), x).push(s[j]));
        assert(s.subrange(j, s.len() as int) =~= seq![s[j]] + s.subrange(j + 1, s.len() as int));
        assert(insert_by_precedence(s, x) =~= insert_by_precedence(s.subrange(0, j), x)
            + s.subrange(j, s.len() as int));
    } else {
        assert(s.subrange(0, j) =~= s);
        assert(s.subrange(j, s.len() as int) =~= Seq::<ReplacementView>::empty());
        assert(insert_by_precedence(s, x) + Seq::<ReplacementView>::empty() =~= insert_by_precedence(s, x));
    }
}

// ---------------------------------------------------------------------------
// The fixer
// ---------------------------------------------------------------------------

/// What a [`Fixer`] holds: the current text and one delta per boundary of the
/// original text.
pub struct FixerView {
    pub text: Seq<char>,
    pub deltas: Seq<int>,
}

/// Where original offset `i` lies in the current text.
pub open spec fn transform_of(deltas: Seq<int>, i: int) -> int {
    i + prefix(deltas, i)
}

/// The boundary at which a replacement records its shift.
pub open spec fn shift_boundary(r: ReplacementView) -> int {
    match r.insertion_point {
        InsertionPoint::BeforeStart => r.start as int,
        InsertionPoint::AfterEnd => r.end + 1int,
    }
}

/// How much a replacement changes the length of the text.
pub open spec fn shift_of(r: ReplacementView) -> int {
    r.text.len() - (r.end - r.start)
}

/// Whether `r` can be applied to a fixer in state `m`: its bounds are
/// ordered and lie within the original text (whose boundaries are the slots
/// of `m.deltas`), its translated bounds lie
/// ordered within the current text, and every quantity fits an `i32`.
pub open spec fn can_apply(m: FixerView, r: ReplacementView) -> bool {
    let ns = transform_of(m.deltas, r.start as int);
    let ne = transform_of(m.deltas, r.end as int);
    &&& r.start <= r.end < m.deltas.len()
    &&& r.end <= i32::MAX
    &&& r.text.len() <= i32::MAX
    &&& abs_total(m.deltas) + abs(shift_of(r)) <= i32::MAX
    &&& 0 <= ns <= ne <= m.text.len()
    &&& ne <= i32::MAX
}

/// The state of a fixer after applying `r` in state `m`.
pub open spec fn apply_one(m: FixerView, r: ReplacementView) -> FixerView {
    let ns = transform_of(m.deltas, r.start as int);
    let ne = transform_of(m.deltas, r.end as int);
    FixerView {
        text: m.text.subrange(0, ns) + r.text + m.text.subrange(ne, m.text.len() as int),
        deltas: add_delta(m.deltas, shift_boundary(r), shift_of(r)),
    }
}

/// Applies `rs` in order, or `None` where one of them cannot be applied.
pub open spec fn apply_seq(m: FixerView, rs: Seq<ReplacementView>) -> Option<FixerView>
    decreases rs.len(),
{
    if rs.len() == 0 {
        Some(m)
    } else if can_apply(m, rs[0]) {
        apply_seq(apply_one(m, rs[0]), rs.drop_first())
    } else {
        None
    }
}

/// Apply a series of `Replacement`s to a String.
///
/// Internally uses a Fenwick tree which is updated as replacements are
/// applied. This allows multiple replacements referencing only the original
/// input. Positions count characters of the original text.
#[derive(Clone, Debug)]
pub struct Fixer {
    /// The string to be modified.
    value: String,
    /// A Fenwick tree for tracking modifications.
    tree: FenwickTree<i32>,
}

impl View for Fixer {
    type V = FixerView;

    closed spec fn view(&self) -> FixerView {
        FixerView { text: self.value@, deltas: tree_deltas(self.tree) }
    }
}

impl Fixer {
    /// The fixer's invariant: its deltas are small enough for the tree's
    /// partial sums to fit an `i32`, and there is a slot for each boundary.
    pub open spec fn wf(&self) -> bool {
        &&& abs_total(self@.deltas) <= i32::MAX
        &&& self@.deltas.len() >= 1
    }

    /// Create a new Fixer from a String.
    pub fn new(value: String) -> (r: Self)
        requires
            value@.len() < usize::MAX,
        ensures
            r.wf(),
            r@.text == value@,
            r@.deltas == Seq::new((value@.len() + 1) as nat, |i: int| 0int),
    {
        let n = value.as_str().unicode_len() + 1;
        let mut zeros: Vec<i32> = Vec::new();
        let mut i: usize = 0;
        while i < n
            invariant
                i <= n,
                zeros@.len() == i,
                forall|k: int| 0 <= k < i ==> zeros@[k] == 0,
            decreases n - i,
        {
            zeros.push(0);
            i = i + 1;
        }
        let ghost ds = zeros@.map_values(|x: i32| x as int);
        assert(ds =~= Seq::new(n as nat, |i: int| 0int));
        proof {
            lemma_abs_prefix_zero(ds, n as int);
        }
        Fixer { tree: tree_from_values(zeros), value }
    }

    /// Apply a `Replacement` to the value contained in the Fixer.
    pub fn apply_replacement(&mut self, rep: &Replacement)
        requires
            old(self).wf(),
            can_apply(old(self)@, rep@),
        ensures
            final(self).wf(),
            final(self)@ == apply_one(old(self)@, rep@),
    {
        proof {
            lemma_prefix_within_total(self@.deltas, rep.start as int);
            lemma_prefix_within_total(self@.deltas, rep.end as int);
        }
        let old_start = rep.start;
        let old_end = rep.end;
        let new_start = self.transform(old_start);
        let new_end = self.transform(old_end);

        let rep_len = rep.replacement.as_str().unicode_len() as i32;
        let range = (old_end - old_start) as i32;
        let shift = rep_len - range;
        let insert_at = match rep.insertion_point {
            InsertionPoint::BeforeStart => old_start,
            InsertionPoint::AfterEnd => old_end + 1,
        };
        proof {
            let s = self@.deltas;
            lemma_abs_prefix_add_delta(s, insert_at as int, shift as int, s.len() as int);
        }
        tree_add_at(&mut self.tree, insert_at, shift);

        let len = self.value.as_str().unicode_len();
        let mut spliced = self.value.as_str().substring_char(0, new_start).to_owned();
        spliced.append(rep.replacement.as_str());
        spliced.append(self.value.as_str().substring_char(new_end, len));
        self.value = spliced;
    }

    /// Apply multiple `Replacement`s in the correct order.
    ///
    /// Order is determined by the precedence field: higher precedences are
    /// applied first, equal precedences in the order given.
    pub fn apply_replacements(&mut self, reps: Vec<Replacement>)
        requires
            old(self).wf(),
            apply_seq(old(self)@, by_precedence(reps@.map_values(|r: Replacement| r@))) is Some,
        ensures
            final(self).wf(),
            Some(final(self)@) == apply_seq(
                old(self)@,
                by_precedence(reps@.map_values(|r: Replacement| r@)),
            ),
    {
        let ordered = order_by_precedence(reps);
        let ghost rs = ordered@.map_values(|r: Replacement| r@);
        assert(rs.subrange(0, rs.len() as int) =~= rs);
        let mut i: usize = 0;
        while i < ordered.len()
            invariant
                i <= ordered@.len(),
                rs == ordered@.map_values(|r: Replacement| r@),
                self.wf(),
                apply_seq(self@, rs.subrange(i as int, rs.len() as int)) == apply_seq(
                    old(self)@,
                    rs,
                ),
                apply_seq(old(self)@, rs) is Some,
            decreases ordered@.len() - i,
        {
            let ghost rest = rs.subrange(i as int, rs.len() as int);
            assert(rest.drop_first() =~= rs.subrange(i + 1, rs.len() as int));
            assert(rest[0] == ordered@[i as int]@);
            self.apply_replacement(&ordered[i]);
            i = i + 1;
        }
        assert(rs.subrange(i as int, rs.len() as int) =~= Seq::<ReplacementView>::empty());
    }

    /// Returns the value of the fixer with any applied replacements.
    pub fn value(&self) -> (r: &str)
        ensures
            r@ == self@.text,
    {
        self.value.as_str()
    }

    /// Given a `Range`, update the bounds to account for any applied
    /// replacements.
    pub fn adj_range(&self, range: Range<usize>) -> (r: Range<usize>)
        requires
            self.wf(),
            self.can_transform(range.start),
            self.can_transform(range.end),
        ensures
            r.start as int == transform_of(self@.deltas, range.start as int),
            r.end as int == transform_of(self@.deltas, range.end as int),
    {
        self.transform(range.start)..self.transform(range.end)
    }

    /// Given a `RangeInclusive`, update the bounds to account for any applied
    /// replacements.
    pub fn adj_range_inc(&self, range: RangeInclusive<usize>) -> (r: RangeInclusive<usize>)
        requires
            self.wf(),
            self.can_transform(range@.start),
            self.can_transform(range@.end),
        ensures
            r@.start as int == transform_of(self@.deltas, range@.start as int),
            r@.end as int == transform_of(self@.deltas, range@.end as int),
            !r@.exhausted,
    {
        let start = *range.start();
        let end = *range.end();
        RangeInclusive::new(self.transform(start), self.transform(end))
    }

    /// Returns a reference to the internal Fenwick tree.
    pub fn tree(&self) -> (r: &FenwickTree<i32>)
        ensures
            tree_deltas(*r) == self@.deltas,
    {
        &self.tree
    }

    /// Whether `index` can be translated: it lies within the tree and both
    /// it and its translation fit an `i32` and are not negative.
    pub open spec fn can_transform(&self, index: usize) -> bool {
        &&& index <= self@.deltas.len()
        &&& index <= i32::MAX
        &&& 0 <= transform_of(self@.deltas, index as int) <= i32::MAX
    }

    /// Get the updated index for a position: the index plus the deltas
    /// recorded at boundaries before it.
    pub fn transform(&self, index: usize) -> (r: usize)
        requires
            self.wf(),
            self.can_transform(index),
        ensures
            r as int == transform_of(self@.deltas, index as int),
    {
        proof {
            lemma_prefix_within_total(self@.deltas, index as int);
        }
        let shift = tree_prefix_sum(&self.tree, index);
        ((index as i32) + shift) as usize
    }
}

proof fn lemma_abs_prefix_zero(s: Seq<int>, i: int)
    requires
        0 <= i <= s.len(),
        forall|k: int| 0 <= k < s.len() ==> s[k] == 0,
    ensures
        abs_prefix(s, i) == 0,
    decreases i,
{
    if i > 0 {
        lemma_abs_prefix_zero(s, i - 1);
    }
}

/// Orders replacements by descending precedence, keeping the given order
/// among equal precedences.
fn order_by_precedence(reps: Vec<Replacement>) -> (r: Vec<Replacement>)
    ensures
        r@.map_values(|x: Replacement| x@) == by_precedence(reps@.map_values(|x: Replacement| x@)),
{
    let ghost all = reps@.map_values(|x: Replacement| x@);
    let mut rest = reps;
    let mut out: Vec<Replacement> = Vec::new();
    let ghost taken: int = 0;
    while rest.len() > 0
        invariant
            0 <= taken <= all.len(),
            rest@.map_values(|x: Replacement| x@) == all.subrange(taken, all.len() as int),
            out@.map_values(|x: Replacement| x@) == by_precedence(all.subrange(0, taken)),
        decreases rest@.len(),
    {
        assert(rest@.map_values(|x: Replacement| x@)[0] == rest@[0]@);
        assert(all.subrange(taken, all.len() as int).len() > 0);
        let ghost rest_before = rest@;
        let x = rest.remove(0);
        let ghost xv = x@;
        assert(rest@ =~= rest_before.subrange(1, rest_before.len() as int));
        let ghost mb = rest_before.map_values(|x: Replacement| x@);
        let ghost ma = rest@.map_values(|x: Replacement| x@);
        assert(forall|k: int| 0 <= k < ma.len() ==> #[trigger] ma[k] == mb[k + 1]);
        assert(ma =~= all.subrange(taken + 1, all.len() as int));
        let ghost before = out@.map_values(|y: Replacement| y@);
        assert(xv == all[taken]);
        let mut j: usize = out.len();
        while j > 0 && out[j - 1].precedence < x.precedence
            invariant
                j <= out@.len(),
                before == out@.map_values(|y: Replacement| y@),
                forall|k: int| j <= k < out@.len() ==> before[k].precedence < xv.precedence,
                xv == x@,
            decreases j,
        {
            j = j - 1;
        }
        proof {
            if j > 0 {
                lemma_insert_split(before, xv, j as int);
                assert(before.subrange(0, j as int).last() == before[j - 1]);
                assert(before.subrange(0, j as int).push(xv) + before.subrange(
                    j as int,
                    before.len() as int,
                ) =~= before.insert(j as int, xv));
            } else {
                lemma_insert_zero(before, xv);
            }
            assert(all.subrange(0, taken + 1).drop_last() =~= all.subrange(0, taken));
        }
        out.insert(j, x);
        assert(out@.map_values(|y: Replacement| y@) =~= before.insert(j as int, xv));
        assert(rest@.map_values(|x: Replacement| x@) =~= all.subrange(taken + 1, all.len() as int));
        proof {
            taken = taken + 1;
        }
    }
    assert(all.subrange(0, taken) =~= all);
    out
}

proof fn lemma_insert_zero(s: Seq<ReplacementView>, x: ReplacementView)
    requires
        forall|k: int| 0 <= k < s.len() ==> s[k].precedence < x.precedence,
    ensures
        insert_by_precedence(s, x) == s.insert(0, x),
    decreases s.len(),
{
    if s.len() > 0 {
        lemma_insert_zero(s.drop_last(), x);
        assert(s.drop_last().insert(0, x).push(s.last()) =~= s.insert(0, x));
    } else {
        assert(seq![x] =~= s.insert(0, x));
    }
}

// ---------------------------------------------------------------------------
// Laws
// ---------------------------------------------------------------------------

/// Applying a replacement moves the translation of an original offset `i`
/// by the replacement's shift when its boundary lies before `i`, and leaves
/// it alone otherwise: only edits recorded at boundaries below `i` affect
/// where `i` lands.
pub proof fn law_transform_after_replacement(m: FixerView, r: ReplacementView, i: int)
    requires
        can_apply(m, r),
        0 <= i <= m.deltas.len(),
    ensures
        transform_of(apply_one(m, r).deltas, i) == transform_of(m.deltas, i) + (if 0
            <= shift_boundary(r) < i {
            shift_of(r)
        } else {
            0
        }),
{
    lemma_prefix_add_delta(m.deltas, shift_boundary(r), shift_of(r), i);
}

proof fn lemma_prefix_zero(s: Seq<int>, i: int)
    requires
        0 <= i <= s.len(),
        forall|k: int| 0 <= k < s.len() ==> s[k] == 0,
    ensures
        prefix(s, i) == 0,
    decreases i,
{
    if i > 0 {
        lemma_prefix_zero(s, i - 1);
    }
}

/// A fixer's state when it was just made from `text`.
pub open spec fn fresh(text: Seq<char>) -> FixerView {
    FixerView { text, deltas: Seq::new((text.len() + 1) as nat, |i: int| 0int) }
}

/// Whether `a` lies strictly before `b` in the original text: it ends
/// where `b` starts or earlier, and the boundary at which it records its
/// shift lies before `b`'s start.
pub open spec fn separated(a: ReplacementView, b: ReplacementView) -> bool {
    &&& a.start <= a.end <= b.start <= b.end
    &&& shift_boundary(a) < b.start
}

/// Whether `rs` lie in order from left to right, each separated from
/// every later one, and each with ordered bounds.
pub open spec fn left_to_right(rs: Seq<ReplacementView>) -> bool {
    &&& forall|i: int| 0 <= i < rs.len() ==> (#[trigger] rs[i]).start <= rs[i].end
    &&& forall|i: int, j: int| 0 <= i < j < rs.len() ==> separated(#[trigger] rs[i], #[trigger] rs[j])
}

/// The characters of `text` from `a` to `z` with each of `rs` spliced in at
/// its original offsets.
pub open spec fn splice_all(text: Seq<char>, rs: Seq<ReplacementView>, a: int, z: int) -> Seq<char>
    decreases rs.len(),
{
    if rs.len() == 0 {
        text.subrange(a, z)
    } else {
        text.subrange(a, rs[0].start as int) + rs[0].text + splice_all(
            text,
            rs.drop_first(),
            rs[0].end as int,
            z,
        )
    }
}

/// The characters of `text` from `a` to `z` with those of `rs[k..hi]` whose
/// index is `chosen` spliced in at their original offsets.
pub open spec fn splice_some(
    text: Seq<char>,
    rs: Seq<ReplacementView>,
    chosen: Set<int>,
    k: int,
    hi: int,
    a: int,
    z: int,
) -> Seq<char>
    decreases hi - k,
{
    if k >= hi {
        text.subrange(a, z)
    } else if chosen.contains(k) {
        text.subrange(a, rs[k].start as int) + rs[k].text + splice_some(
            text,
            rs,
            chosen,
            k + 1,
            hi,
            rs[k].end as int,
            z,
        )
    } else {
        splice_some(text, rs, chosen, k + 1, hi, a, z)
    }
}

/// The total shift of those of `rs[k..hi]` whose index is `chosen`.
pub open spec fn shift_sum(rs: Seq<ReplacementView>, chosen: Set<int>, k: int, hi: int) -> int
    decreases hi - k,
{
    if k >= hi {
        0
    } else {
        (if chosen.contains(k) {
            shift_of(rs[k])
        } else {
            0
        }) + shift_sum(rs, chosen, k + 1, hi)
    }
}

/// The total absolute shift of those of `rs[k..hi]` whose index is `chosen`.
pub open spec fn abs_shift_sum(rs: Seq<ReplacementView>, chosen: Set<int>, k: int, hi: int) -> int
    decreases hi - k,
{
    if k >= hi {
        0
    } else {
        (if chosen.contains(k) {
            abs(shift_of(rs[k]))
        } else {
            0
        }) + abs_shift_sum(rs, chosen, k + 1, hi)
    }
}

/// An upper bound on the text that `rs[k..hi]` add and remove.
pub open spec fn cost_between(rs: Seq<ReplacementView>, k: int, hi: int) -> int
    decreases hi - k,
{
    if k >= hi {
        0
    } else {
        rs[k].text.len() + (rs[k].end - rs[k].start) + cost_between(rs, k + 1, hi)
    }
}

/// Whether the chosen replacements of `rs[k..hi]` lie within `[a, z]` of
/// a text of `n` characters.
pub open spec fn chosen_within(
    rs: Seq<ReplacementView>,
    chosen: Set<int>,
    k: int,
    hi: int,
    a: int,
    z: int,
    n: int,
) -> bool {
    &&& 0 <= a <= z <= n
    &&& 0 <= k
    &&& hi <= rs.len()
    &&& forall|j: int| k <= j < hi && chosen.contains(j) ==> a <= (#[trigger] rs[j]).start && rs[j].end <= z
}

proof fn lemma_splice_advance(
    text: Seq<char>,
    rs: Seq<ReplacementView>,
    ch: Set<int>,
    k: int,
    hi: int,
    a: int,
    a2: int,
    z: int,
)
    requires
        left_to_right(rs),
        chosen_within(rs, ch, k, hi, a2, z, text.len() as int),
        0 <= a <= a2,
    ensures
        splice_some(text, rs, ch, k, hi, a, z) == text.subrange(a, a2) + splice_some(
            text,
            rs,
            ch,
            k,
            hi,
            a2,
            z,
        ),
    decreases hi - k,
{
    if k >= hi {
        assert(text.subrange(a, z) =~= text.subrange(a, a2) + text.subrange(a2, z));
    } else if ch.contains(k) {
        assert(rs[k].start <= rs[k].end);
        assert(text.subrange(a, rs[k].start as int) =~= text.subrange(a, a2) + text.subrange(
            a2,
            rs[k].start as int,
        ));
        assert(splice_some(text, rs, ch, k, hi, a, z) =~= text.subrange(a, a2) + splice_some(
            text,
            rs,
            ch,
            k,
            hi,
            a2,
            z,
        ));
    } else {
        lemma_splice_advance(text, rs, ch, k + 1, hi, a, a2, z);
    }
}

proof fn lemma_splice_len(
    text: Seq<char>,
    rs: Seq<ReplacementView>,
    ch: Set<int>,
    k: int,
    hi: int,
    a: int,
    z: int,
)
    requires
        left_to_right(rs),
        chosen_within(rs, ch, k, hi, a, z, text.len() as int),
    ensures
        splice_some(text, rs, ch, k, hi, a, z).len() == z - a + shift_sum(rs, ch, k, hi),
    decreases hi - k,
{
    if k < hi {
        if ch.contains(k) {
            assert(rs[k].start <= rs[k].end);
            assert forall|j: int| k + 1 <= j < hi && ch.contains(j) implies rs[k].end <= (
            #[trigger] rs[j]).start && rs[j].end <= z by {
                assert(separated(rs[k], rs[j]));
            }
            lemma_splice_len(text, rs, ch, k + 1, hi, rs[k].end as int, z);
        } else {
            lemma_splice_len(text, rs, ch, k + 1, hi, a, z);
        }
    }
}

/// The text of replacement `r` where it is chosen, or else the original
/// text of its range.
pub open spec fn middle(text: Seq<char>, r: ReplacementView, chosen: bool) -> Seq<char> {
    if chosen {
        r.text
    } else {
        text.subrange(r.start as int, r.end as int)
    }
}

proof fn lemma_splice_split(
    text: Seq<char>,
    rs: Seq<ReplacementView>,
    ch: Set<int>,
    k: int,
    c: int,
    hi: int,
    a: int,
    z: int,
)
    requires
        left_to_right(rs),
        k <= c < hi,
        chosen_within(rs, ch, k, hi, a, z, text.len() as int),
        a <= rs[c].start,
        rs[c].end <= z,
    ensures
        splice_some(text, rs, ch, k, hi, a, z) == splice_some(
            text,
            rs,
            ch,
            k,
            c,
            a,
            rs[c].start as int,
        ) + middle(text, rs[c], ch.contains(c)) + splice_some(
            text,
            rs,
            ch,
            c + 1,
            hi,
            rs[c].end as int,
            z,
        ),
    decreases c - k,
{
    let sc = rs[c].start as int;
    let ec = rs[c].end as int;
    assert(sc <= ec);
    if k == c {
        if ch.contains(c) {
            assert(splice_some(text, rs, ch, k, c, a, sc) == text.subrange(a, sc));
        } else {
            assert forall|j: int| c + 1 <= j < hi && ch.contains(j) implies ec <= (
            #[trigger] rs[j]).start && rs[j].end <= z by {
                assert(separated(rs[c], rs[j]));
            }
            lemma_splice_advance(text, rs, ch, c + 1, hi, a, ec, z);
            assert(text.subrange(a, ec) =~= text.subrange(a, sc) + text.subrange(sc, ec));
            assert(splice_some(text, rs, ch, k, c, a, sc) == text.subrange(a, sc));
        }
    } else {
        if ch.contains(k) {
            assert(separated(rs[k], rs[c]));
            assert(rs[k].start <= rs[k].end);
            assert forall|j: int| k + 1 <= j < hi && ch.contains(j) implies rs[k].end <= (
            #[trigger] rs[j]).start && rs[j].end <= z by {
                assert(separated(rs[k], rs[j]));
            }
            lemma_splice_split(text, rs, ch, k + 1, c, hi, rs[k].end as int, z);
        } else {
            lemma_splice_split(text, rs, ch, k + 1, c, hi, a, z);
        }
    }
}

proof fn lemma_splice_same_choice(
    text: Seq<char>,
    rs: Seq<ReplacementView>,
    ch1: Set<int>,
    ch2: Set<int>,
    k: int,
    hi: int,
    a: int,
    z: int,
)
    requires
        forall|j: int| k <= j < hi ==> ch1.contains(j) == ch2.contains(j),
    ensures
        splice_some(text, rs, ch1, k, hi, a, z) == splice_some(text, rs, ch2, k, hi, a, z),
        shift_sum(rs, ch1, k, hi) == shift_sum(rs, ch2, k, hi),
        abs_shift_sum(rs, ch1, k, hi) == abs_shift_sum(rs, ch2, k, hi),
    decreases hi - k,
{
    if k < hi {
        if ch1.contains(k) {
            lemma_splice_same_choice(text, rs, ch1, ch2, k + 1, hi, rs[k].end as int, z);
        }
        lemma_splice_same_choice(text, rs, ch1, ch2, k + 1, hi, a, z);
    }
}

proof fn lemma_shift_insert(rs: Seq<ReplacementView>, ch: Set<int>, c: int, k: int, hi: int)
    requires
        !ch.contains(c),
    ensures
        shift_sum(rs, ch.insert(c), k, hi) == shift_sum(rs, ch, k, hi) + (if k <= c < hi {
            shift_of(rs[c])
        } else {
            0
        }),
        abs_shift_sum(rs, ch.insert(c), k, hi) == abs_shift_sum(rs, ch, k, hi) + (if k <= c < hi {
            abs(shift_of(rs[c]))
        } else {
            0
        }),
    decreases hi - k,
{
    if k < hi {
        lemma_shift_insert(rs, ch, c, k + 1, hi);
    }
}

proof fn lemma_shift_bounds(rs: Seq<ReplacementView>, ch: Set<int>, k: int, hi: int)
    requires
        forall|i: int| 0 <= i < rs.len() ==> (#[trigger] rs[i]).start <= rs[i].end,
        0 <= k,
        hi <= rs.len(),
    ensures
        shift_sum(rs, ch, k, hi) <= abs_shift_sum(rs, ch, k, hi),
        0 <= abs_shift_sum(rs, ch, k, hi) <= cost_between(rs, k, hi),
    decreases hi - k,
{
    if k < hi {
        assert(rs[k].start <= rs[k].end);
        lemma_shift_bounds(rs, ch, k + 1, hi);
    }
}

proof fn lemma_splice_none(text: Seq<char>, rs: Seq<ReplacementView>, k: int, hi: int, a: int, z: int)
    ensures
        splice_some(text, rs, Set::empty(), k, hi, a, z) == text.subrange(a, z),
        shift_sum(rs, Set::empty(), k, hi) == 0,
        abs_shift_sum(rs, Set::empty(), k, hi) == 0,
    decreases hi - k,
{
    if k < hi {
        lemma_splice_none(text, rs, k + 1, hi, a, z);
    }
}

proof fn lemma_splice_full(text: Seq<char>, rs: Seq<ReplacementView>, ch: Set<int>, k: int, a: int, z: int)
    requires
        0 <= k <= rs.len(),
        forall|j: int| k <= j < rs.len() ==> ch.contains(j),
    ensures
        splice_some(text, rs, ch, k, rs.len() as int, a, z) == splice_all(
            text,
            rs.subrange(k, rs.len() as int),
            a,
            z,
        ),
    decreases rs.len() - k,
{
    let tail = rs.subrange(k, rs.len() as int);
    if k < rs.len() {
        lemma_splice_full(text, rs, ch, k + 1, rs[k].end as int, z);
        assert(tail[0] == rs[k]);
        assert(tail.drop_first() =~= rs.subrange(k + 1, rs.len() as int));
    } else {
        assert(tail.len() == 0);
    }
}

/// What holds of a fixer once the replacements of `rs` whose index is
/// `chosen` were applied to the text `text`, in any order.
pub open spec fn applied(text: Seq<char>, rs: Seq<ReplacementView>, chosen: Set<int>, m: FixerView) -> bool {
    let n = text.len() as int;
    let l = rs.len() as int;
    &&& m.text == splice_some(text, rs, chosen, 0, l, 0, n)
    &&& m.deltas.len() == n + 1
    &&& forall|k: int|
        0 <= k < l && !chosen.contains(k) ==> prefix(m.deltas, (#[trigger] rs[k]).start as int)
            == shift_sum(rs, chosen, 0, k) && prefix(m.deltas, rs[k].end as int) == shift_sum(
            rs,
            chosen,
            0,
            k,
        )
    &&& abs_total(m.deltas) <= abs_shift_sum(rs, chosen, 0, l)
}

proof fn lemma_apply_chosen(text: Seq<char>, rs: Seq<ReplacementView>, ch: Set<int>, m: FixerView, c: int)
    requires
        left_to_right(rs),
        rs.len() > 0 ==> rs.last().end <= text.len(),
        text.len() + cost_between(rs, 0, rs.len() as int) <= i32::MAX,
        applied(text, rs, ch, m),
        0 <= c < rs.len(),
        !ch.contains(c),
    ensures
        can_apply(m, rs[c]),
        applied(text, rs, ch.insert(c), apply_one(m, rs[c])),
{
    let n = text.len() as int;
    let l = rs.len() as int;
    let r = rs[c];
    let sc = r.start as int;
    let ec = r.end as int;
    let ch2 = ch.insert(c);
    assert(sc <= ec);
    assert forall|j: int| 0 <= j < l implies (#[trigger] rs[j]).end <= n by {
        if j < l - 1 {
            assert(separated(rs[j], rs[l - 1]));
        }
        assert(rs[l - 1] == rs.last());
    }
    assert(chosen_within(rs, ch, 0, l, 0, n, n));
    lemma_splice_split(text, rs, ch, 0, c, l, 0, n);
    assert forall|j: int| 0 <= j < c && ch.contains(j) implies 0 <= (#[trigger] rs[j]).start
        && rs[j].end <= sc by {
        assert(separated(rs[j], rs[c]));
    }
    lemma_splice_len(text, rs, ch, 0, c, 0, sc);
    assert forall|j: int| c + 1 <= j < l && ch.contains(j) implies ec <= (#[trigger] rs[j]).start
        && rs[j].end <= n by {
        assert(separated(rs[c], rs[j]));
    }
    lemma_splice_len(text, rs, ch, c + 1, l, ec, n);
    lemma_splice_len(text, rs, ch, 0, l, 0, n);
    lemma_shift_bounds(rs, ch, 0, l);
    lemma_shift_bounds(rs, ch2, 0, l);
    lemma_shift_insert(rs, ch, c, 0, l);
    let first = splice_some(text, rs, ch, 0, c, 0, sc);
    let third = splice_some(text, rs, ch, c + 1, l, ec, n);
    let sum_c = shift_sum(rs, ch, 0, c);
    assert(transform_of(m.deltas, sc) == first.len());
    assert(transform_of(m.deltas, ec) == first.len() + (ec - sc));
    assert(can_apply(m, r));
    let m2 = apply_one(m, r);
    // The text.
    assert(m.text == first + text.subrange(sc, ec) + third);
    assert(m.text.subrange(0, first.len() as int) =~= first);
    assert(m.text.subrange(first.len() + (ec - sc), m.text.len() as int) =~= third);
    assert(chosen_within(rs, ch2, 0, l, 0, n, n));
    lemma_splice_split(text, rs, ch2, 0, c, l, 0, n);
    lemma_splice_same_choice(text, rs, ch2, ch, 0, c, 0, sc);
    lemma_splice_same_choice(text, rs, ch2, ch, c + 1, l, ec, n);
    assert(m2.text =~= splice_some(text, rs, ch2, 0, l, 0, n));
    // The deltas.
    lemma_abs_prefix_add_delta(m.deltas, shift_boundary(r), shift_of(r), m.deltas.len() as int);
    assert forall|k: int| 0 <= k < l && !ch2.contains(k) implies prefix(
        m2.deltas,
        (#[trigger] rs[k]).start as int,
    ) == shift_sum(rs, ch2, 0, k) && prefix(m2.deltas, rs[k].end as int) == shift_sum(
        rs,
        ch2,
        0,
        k,
    ) by {
        assert(rs[k].start <= rs[k].end <= n);
        lemma_shift_insert(rs, ch, c, 0, k);
        lemma_prefix_add_delta(m.deltas, shift_boundary(r), shift_of(r), rs[k].start as int);
        lemma_prefix_add_delta(m.deltas, shift_boundary(r), shift_of(r), rs[k].end as int);
        if c < k {
            assert(separated(rs[c], rs[k]));
        } else {
            assert(k != c);
            assert(separated(rs[k], rs[c]));
        }
    }
}

proof fn lemma_apply_in_order(
    text: Seq<char>,
    rs: Seq<ReplacementView>,
    ord: Seq<int>,
    ch: Set<int>,
    m: FixerView,
)
    requires
        left_to_right(rs),
        rs.len() > 0 ==> rs.last().end <= text.len(),
        text.len() + cost_between(rs, 0, rs.len() as int) <= i32::MAX,
        applied(text, rs, ch, m),
        forall|i: int| 0 <= i < ord.len() ==> 0 <= #[trigger] ord[i] < rs.len() && !ch.contains(ord[i]),
        forall|i: int, j: int| 0 <= i < j < ord.len() ==> #[trigger] ord[i] != #[trigger] ord[j],
    ensures
        apply_seq(m, ord.map_values(|j: int| rs[j])) is Some,
        apply_seq(m, ord.map_values(|j: int| rs[j]))->Some_0.text == splice_some(
            text,
            rs,
            ch.union(ord.to_set()),
            0,
            rs.len() as int,
            0,
            text.len() as int,
        ),
    decreases ord.len(),
{
    let seqr = ord.map_values(|j: int| rs[j]);
    if ord.len() == 0 {
        assert(ch.union(ord.to_set()) =~= ch);
    } else {
        let c = ord[0];
        lemma_apply_chosen(text, rs, ch, m, c);
        let m2 = apply_one(m, rs[c]);
        let rest = ord.drop_first();
        assert forall|i: int| 0 <= i < rest.len() implies 0 <= #[trigger] rest[i] < rs.len()
            && !ch.insert(c).contains(rest[i]) by {
            assert(rest[i] == ord[i + 1]);
            assert(ord[0] != ord[i + 1]);
        }
        assert forall|i: int, j: int| 0 <= i < j < rest.len() implies #[trigger] rest[i]
            != #[trigger] rest[j] by {
            assert(rest[i] == ord[i + 1] && rest[j] == ord[j + 1]);
        }
        lemma_apply_in_order(text, rs, rest, ch.insert(c), m2);
        assert(seqr[0] == rs[c]);
        assert(seqr.drop_first() =~= rest.map_values(|j: int| rs[j]));
        assert(ch.insert(c).union(rest.to_set()) =~= ch.union(ord.to_set())) by {
            assert forall|x: int| ch.union(ord.to_set()).contains(x) implies ch.insert(c).union(
                rest.to_set(),
            ).contains(x) by {
                if ord.contains(x) && x != c {
                    let i = choose|i: int| 0 <= i < ord.len() && ord[i] == x;
                    assert(rest[i - 1] == x);
                }
            }
            assert forall|x: int| ch.insert(c).union(rest.to_set()).contains(x) implies ch.union(
                ord.to_set(),
            ).contains(x) by {
                if rest.contains(x) {
                    let i = choose|i: int| 0 <= i < rest.len() && rest[i] == x;
                    assert(ord[i + 1] == x);
                }
                if x == c {
                    assert(ord[0] == x);
                }
            }
        }
    }
}

/// Replacements that lie apart from each other give, applied by a fresh
/// fixer in any order, the text obtained by splicing each of them in at
/// its original offsets. `order` lists the index of each replacement once.
pub proof fn law_any_order_matches_splice(text: Seq<char>, rs: Seq<ReplacementView>, order: Seq<int>)
    requires
        left_to_right(rs),
        rs.len() > 0 ==> rs.last().end <= text.len(),
        text.len() + cost_between(rs, 0, rs.len() as int) <= i32::MAX,
        forall|i: int| 0 <= i < order.len() ==> 0 <= #[trigger] order[i] < rs.len(),
        forall|i: int, j: int| 0 <= i < j < order.len() ==> #[trigger] order[i] != #[trigger] order[j],
        forall|j: int| 0 <= j < rs.len() ==> order.contains(j),
    ensures
        apply_seq(fresh(text), order.map_values(|j: int| rs[j])) is Some,
        apply_seq(fresh(text), order.map_values(|j: int| rs[j]))->Some_0.text == splice_all(
            text,
            rs,
            0,
            text.len() as int,
        ),
{
    let m0 = fresh(text);
    let l = rs.len() as int;
    lemma_splice_none(text, rs, 0, l, 0, text.len() as int);
    assert(text.subrange(0, text.len() as int) =~= text);
    lemma_abs_prefix_zero(m0.deltas, m0.deltas.len() as int);
    assert forall|k: int| 0 <= k < l && !Set::<int>::empty().contains(k) implies prefix(
        m0.deltas,
        (#[trigger] rs[k]).start as int,
    ) == shift_sum(rs, Set::empty(), 0, k) && prefix(m0.deltas, rs[k].end as int) == shift_sum(
        rs,
        Set::empty(),
        0,
        k,
    ) by {
        assert(rs[k].end <= text.len()) by {
            if k < l - 1 {
                assert(separated(rs[k], rs[l - 1]));
            }
            assert(rs[l - 1] == rs.last());
        }
        lemma_prefix_zero(m0.deltas, rs[k].start as int);
        lemma_prefix_zero(m0.deltas, rs[k].end as int);
        lemma_splice_none(text, rs, 0, k, 0, 0);
    }
    assert(applied(text, rs, Set::empty(), m0));
    lemma_apply_in_order(text, rs, order, Set::empty(), m0);
    let all = Set::<int>::empty().union(order.to_set());
    lemma_splice_full(text, rs, all, 0, 0, text.len() as int);
    assert(rs.subrange(0, l) =~= rs);
}

/// Whether no two of `s` share a precedence.
pub open spec fn distinct_precedences(s: Seq<ReplacementView>) -> bool {
    forall|i: int, j: int| 0 <= i < j < s.len() ==> (#[trigger] s[i]).precedence != (#[trigger] s[j]).precedence
}

/// Whether `s` is ordered by strictly descending precedence.
pub open spec fn strictly_descending(s: Seq<ReplacementView>) -> bool {
    forall|i: int, j: int| 0 <= i < j < s.len() ==> (#[trigger] s[i]).precedence > (#[trigger] s[j]).precedence
}

proof fn lemma_insert_multiset(s: Seq<ReplacementView>, x: ReplacementView)
    ensures
        insert_by_precedence(s, x).to_multiset() == s.to_multiset().insert(x),
    decreases s.len(),
{
    broadcast use vstd::seq_lib::group_to_multiset_ensures;
    if s.len() == 0 {
        assert(seq![x] =~= s.push(x));
    } else if s.last().precedence >= x.precedence {
    } else {
        lemma_insert_multiset(s.drop_last(), x);
        assert(s.drop_last().push(s.last()) =~= s);
        assert(insert_by_precedence(s, x).to_multiset() =~= s.to_multiset().insert(x));
    }
}

proof fn lemma_by_precedence_multiset(s: Seq<ReplacementView>)
    ensures
        by_precedence(s).to_multiset() == s.to_multiset(),
    decreases s.len(),
{
    broadcast use vstd::seq_lib::group_to_multiset_ensures;
    if s.len() > 0 {
        lemma_by_precedence_multiset(s.drop_last());
        lemma_insert_multiset(by_precedence(s.drop_last()), s.last());
        assert(s.drop_last().push(s.last()) =~= s);
    }
}

proof fn lemma_insert_descending(s: Seq<ReplacementView>, x: ReplacementView)
    requires
        strictly_descending(s),
        forall|i: int| 0 <= i < s.len() ==> (#[trigger] s[i]).precedence != x.precedence,
    ensures
        strictly_descending(insert_by_precedence(s, x)),
    decreases s.len(),
{
    broadcast use vstd::seq_lib::group_to_multiset_ensures;
    if s.len() > 0 {
        let d = s.drop_last();
        if s.last().precedence >= x.precedence {
            assert(s.last() == s[s.len() - 1]);
            assert forall|i: int, j: int| 0 <= i < j < s.push(x).len() implies (#[trigger] s.push(x)[i]).precedence
                > (#[trigger] s.push(x)[j]).precedence by {
                if j == s.len() {
                    if i < s.len() - 1 {
                        assert(s[i].precedence > s[s.len() - 1].precedence);
                    }
                }
            }
        } else {
            assert forall|i: int, j: int| 0 <= i < j < d.len() implies (#[trigger] d[i]).precedence
                > (#[trigger] d[j]).precedence by {
                assert(d[i] == s[i] && d[j] == s[j]);
            }
            assert forall|i: int| 0 <= i < d.len() implies (#[trigger] d[i]).precedence != x.precedence by {
                assert(d[i] == s[i]);
            }
            lemma_insert_descending(d, x);
            lemma_insert_multiset(d, x);
            let r = insert_by_precedence(d, x);
            assert forall|i: int| 0 <= i < r.len() implies (#[trigger] r[i]).precedence > s.last().precedence by {
                assert(r.to_multiset().count(r[i]) > 0);
                if r[i] != x {
                    assert(d.to_multiset().count(r[i]) > 0);
                    assert(d.contains(r[i]));
                    let k = choose|k: int| 0 <= k < d.len() && d[k] == r[i];
                    assert(s[k] == d[k]);
                    assert(s[k].precedence > s[s.len() - 1].precedence);
                }
            }
            assert forall|i: int, j: int| 0 <= i < j < r.push(s.last()).len() implies (#[trigger] r.push(
                s.last(),
            )[i]).precedence > (#[trigger] r.push(s.last())[j]).precedence by {
                if j == r.len() {
                    assert(r.push(s.last())[i] == r[i]);
                }
            }
        }
    }
}

proof fn lemma_by_precedence_descending(s: Seq<ReplacementView>)
    requires
        distinct_precedences(s),
    ensures
        strictly_descending(by_precedence(s)),
    decreases s.len(),
{
    broadcast use vstd::seq_lib::group_to_multiset_ensures;
    if s.len() > 0 {
        let d = s.drop_last();
        assert forall|i: int, j: int| 0 <= i < j < d.len() implies (#[trigger] d[i]).precedence
            != (#[trigger] d[j]).precedence by {
            assert(d[i] == s[i] && d[j] == s[j]);
        }
        lemma_by_precedence_descending(d);
        lemma_by_precedence_multiset(d);
        let b = by_precedence(d);
        assert forall|i: int| 0 <= i < b.len() implies (#[trigger] b[i]).precedence != s.last().precedence by {
            assert(b.to_multiset().count(b[i]) > 0);
            assert(d.contains(b[i]));
            let k = choose|k: int| 0 <= k < d.len() && d[k] == b[i];
            assert(s[k] == d[k]);
            assert(s[k].precedence != s[s.len() - 1].precedence);
        }
        lemma_insert_descending(b, s.last());
    }
}

proof fn lemma_descending_unique(a: Seq<ReplacementView>, b: Seq<ReplacementView>)
    requires
        strictly_descending(a),
        strictly_descending(b),
        a.to_multiset() == b.to_multiset(),
    ensures
        a == b,
    decreases a.len(),
{
    broadcast use vstd::seq_lib::group_to_multiset_ensures;
    a.to_multiset_ensures();
    b.to_multiset_ensures();
    assert(a.len() == b.len());
    if a.len() > 0 {
        assert(b.to_multiset().count(a[0]) > 0);
        assert(b.contains(a[0]));
        let j = choose|j: int| 0 <= j < b.len() && b[j] == a[0];
        assert(a.to_multiset().count(b[0]) > 0);
        assert(a.contains(b[0]));
        let i = choose|i: int| 0 <= i < a.len() && a[i] == b[0];
        if j > 0 && i > 0 {
            assert(b[0].precedence > b[j].precedence);
            assert(a[0].precedence > a[i].precedence);
        }
        assert(a[0] == b[0]);
        assert(a.remove(0) =~= a.drop_first());
        assert(b.remove(0) =~= b.drop_first());
        let da = a.drop_first();
        let db = b.drop_first();
        assert forall|x: int, y: int| 0 <= x < y < da.len() implies (#[trigger] da[x]).precedence
            > (#[trigger] da[y]).precedence by {
            assert(da[x] == a[x + 1] && da[y] == a[y + 1]);
        }
        assert forall|x: int, y: int| 0 <= x < y < db.len() implies (#[trigger] db[x]).precedence
            > (#[trigger] db[y]).precedence by {
            assert(db[x] == b[x + 1] && db[y] == b[y + 1]);
        }
        lemma_descending_unique(da, db);
        assert forall|x: int| 0 <= x < a.len() implies a[x] == b[x] by {
            if x > 0 {
                assert(a[x] == da[x - 1] && b[x] == db[x - 1]);
            }
        }
        assert(a =~= b);
    } else {
        assert(a =~= b);
    }
}

/// Where no two replacements share a precedence, the order in which they
/// are given does not matter: two lists holding the same replacements are
/// applied in the same order, so `Fixer::apply_replacements` leaves the
/// same text and deltas for either.
pub proof fn law_permuted_input_same_order(v1: Seq<ReplacementView>, v2: Seq<ReplacementView>)
    requires
        distinct_precedences(v1),
        distinct_precedences(v2),
        v1.to_multiset() == v2.to_multiset(),
    ensures
        by_precedence(v1) == by_precedence(v2),
        forall|m: FixerView| apply_seq(m, by_precedence(v1)) == #[trigger] apply_seq(m, by_precedence(v2)),
{
    lemma_by_precedence_multiset(v1);
    lemma_by_precedence_multiset(v2);
    lemma_by_precedence_descending(v1);
    lemma_by_precedence_descending(v2);
    lemma_descending_unique(by_precedence(v1), by_precedence(v2));
}

/// Edits whose recorded boundaries all lie at or after `i` leave the
/// translation of `i` as it was; after a fresh fixer, `i` then stays put.
pub proof fn law_later_edits_keep_transform(m: FixerView, rs: Seq<ReplacementView>, i: int)
    requires
        0 <= i <= m.deltas.len(),
        forall|k: int| 0 <= k < rs.len() ==> shift_boundary(#[trigger] rs[k]) >= i,
        apply_seq(m, rs) is Some,
    ensures
        transform_of(apply_seq(m, rs)->Some_0.deltas, i) == transform_of(m.deltas, i),
    decreases rs.len(),
{
    if rs.len() > 0 {
        let r = rs[0];
        lemma_prefix_add_delta(m.deltas, shift_boundary(r), shift_of(r), i);
        let m2 = apply_one(m, r);
        assert(m2.deltas.len() == m.deltas.len());
        assert forall|k: int| 0 <= k < rs.drop_first().len() implies shift_boundary(
            #[trigger] rs.drop_first()[k],
        ) >= i by {
            assert(rs.drop_first()[k] == rs[k + 1]);
        }
        law_later_edits_keep_transform(m2, rs.drop_first(), i);
    }
}

/// After a fresh fixer and edits recorded at boundaries at or after `j`,
/// offsets up to `j` translate to themselves, so in order.
pub proof fn law_fresh_transform_before_edits(text: Seq<char>, rs: Seq<ReplacementView>, i: int, j: int)
    requires
        0 <= i <= j <= text.len(),
        forall|k: int| 0 <= k < rs.len() ==> shift_boundary(#[trigger] rs[k]) >= j,
        apply_seq(fresh(text), rs) is Some,
    ensures
        transform_of(apply_seq(fresh(text), rs)->Some_0.deltas, i) == i,
        transform_of(apply_seq(fresh(text), rs)->Some_0.deltas, j) == j,
{
    let m0 = fresh(text);
    lemma_prefix_zero(m0.deltas, i);
    lemma_prefix_zero(m0.deltas, j);
    law_later_edits_keep_transform(m0, rs, i);
    law_later_edits_keep_transform(m0, rs, j);
}

} // verus!
