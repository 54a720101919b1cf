//! The passes of a transform: what the stage driver does, in order.
//!
//! A transform walks the stages of its plan and runs one pass for each
//! iteration of each stage. A pass reads all samples from one of two buffers
//! and writes them to the other, so the data changes sides with every pass.
//! The sub-transform size shrinks by the radix from pass to pass, the stride
//! grows by it, and each pass takes its coefficients from the table where
//! the pass before it stopped.

use crate::factor::{cofactor, lemma_factorization, lemma_factorization_bounds, multiplicity};
use crate::plan::{
    block, lemma_table_len_direction, lemma_unit_length, representable, stage_list,
    twiddle_table, Stages,
};
use crate::smooth::lemma_supported_residue;
use crate::twiddle::{band, bands, lemma_band_bounds, lemma_position_split, Twiddle};
use vstd::arithmetic::div_mod::*;
use vstd::arithmetic::mul::*;
use vstd::arithmetic::power::*;
use vstd::prelude::*;

verus! {

/// How many samples a kernel handles at once.
#[derive(Clone, Copy, Debug, PartialEq, Eq, Structural)]
pub enum Width {
    /// Fewer than one vector of samples: the stride is still below the
    /// vector width.
    Narrow,
    /// Whole vectors of samples.
    Wide,
}

/// One pass over the data.
#[derive(Clone, Copy, Debug, PartialEq, Eq, Structural)]
pub struct Pass {
    /// The radix of the butterflies.
    pub radix: usize,
    /// The size of the sub-transforms that this pass splits.
    pub size: usize,
    /// The distance between neighbouring samples of one sub-transform.
    pub stride: usize,
    /// Where the coefficients of this pass begin in the table.
    pub offset: usize,
    /// Which kernel runs the pass.
    pub width: Width,
    /// Whether the pass reads the scratch buffer and writes the caller's
    /// buffer, or the other way round.
    pub from_scratch: bool,
}

impl Pass {
    /// The radix divides the size, and neither the samples nor the
    /// coefficients of the pass outrun a machine index.
    pub open spec fn well_formed(&self) -> bool {
        &&& self.radix >= 2
        &&& self.size >= 1
        &&& self.stride >= 1
        &&& self.size as int % self.radix as int == 0
        &&& self.size * self.stride <= usize::MAX
        &&& self.offset + self.size <= usize::MAX
    }

    /// The pass is well formed, covers buffers of `samples` samples, and
    /// takes its coefficients from inside a table of `coefficients`
    /// entries.
    pub open spec fn runs_on(&self, samples: nat, coefficients: nat) -> bool {
        &&& self.well_formed()
        &&& self.size * self.stride == samples
        &&& self.offset + self.size <= coefficients
    }

    /// Tests whether the pass can run on buffers of `samples` samples with
    /// a table of `coefficients` entries.
    pub fn admits(&self, samples: usize, coefficients: usize) -> (admitted: bool)
        ensures
            admitted == self.runs_on(samples as nat, coefficients as nat),
    {
        if self.radix < 2 || self.size < 1 || self.stride < 1 || self.size % self.radix != 0 {
            return false;
        }
        let covered = match self.size.checked_mul(self.stride) {
            Some(product) => product == samples,
            None => false,
        };
        let inside = match self.offset.checked_add(self.size) {
            Some(end) => end <= coefficients,
            None => false,
        };
        covered && inside
    }
}

/// What is left to do once all passes have run.
#[derive(Clone, Copy, Debug, PartialEq, Eq, Structural)]
pub enum Finish {
    /// The result stands in the caller's buffer as it should.
    Nothing,
    /// Copy the scratch buffer to the caller's buffer.
    Copy,
    /// Divide every sample of the caller's buffer by the length.
    Scale,
    /// Write every sample of the scratch buffer, divided by the length, to
    /// the caller's buffer.
    ScaleCopy,
}

/// `count` times the same radix.
pub open spec fn repeated(radix: nat, count: nat) -> Seq<nat> {
    Seq::new(count, |i: int| radix)
}

/// The radix of every pass, in the order the passes run.
pub open spec fn radices(stages: Seq<(usize, usize)>) -> Seq<nat>
    decreases stages.len(),
{
    if stages.len() == 0 {
        Seq::empty()
    } else {
        radices(stages.drop_last()) + repeated(stages.last().0 as nat, stages.last().1 as nat)
    }
}

/// The stride of pass `pass`: the product of the radices of the passes
/// before it.
pub open spec fn stride_before(radices: Seq<nat>, pass: nat) -> nat
    decreases pass,
{
    if pass == 0 {
        1
    } else {
        stride_before(radices, (pass - 1) as nat) * radices[pass - 1]
    }
}

/// The sub-transform size of pass `pass`: the product of its own radix and
/// the radices of the passes after it.
pub open spec fn size_from(radices: Seq<nat>, pass: nat) -> nat
    decreases radices.len() - pass,
{
    if pass >= radices.len() {
        1
    } else {
        radices[pass as int] * size_from(radices, pass + 1)
    }
}

/// Where the coefficients of pass `pass` begin: the sizes of the passes
/// before it, added up.
pub open spec fn offset_before(radices: Seq<nat>, pass: nat) -> nat
    decreases pass,
{
    if pass == 0 {
        0
    } else {
        offset_before(radices, (pass - 1) as nat) + size_from(radices, (pass - 1) as nat)
    }
}

/// Pass number `pass` of a transform whose passes have the radices `radices`,
/// on a machine with `lanes` samples to a vector.
pub open spec fn pass_at(radices: Seq<nat>, lanes: nat, pass: int) -> Pass {
    Pass {
        radix: radices[pass] as usize,
        size: size_from(radices, pass as nat) as usize,
        stride: stride_before(radices, pass as nat) as usize,
        offset: offset_before(radices, pass as nat) as usize,
        width: if stride_before(radices, pass as nat) < lanes {
            Width::Narrow
        } else {
            Width::Wide
        },
        from_scratch: pass % 2 == 1,
    }
}

/// The passes of a transform of `length` samples.
pub open spec fn schedule_of(length: nat, lanes: nat) -> Seq<Pass> {
    let radices = radices(stage_list(length));
    Seq::new(radices.len(), |pass: int| pass_at(radices, lanes, pass))
}

/// What is left to do after `passes` passes.
pub open spec fn finish_of(passes: nat, forward: bool) -> Finish {
    let in_scratch = passes % 2 == 1;
    if forward {
        if in_scratch {
            Finish::Copy
        } else {
            Finish::Nothing
        }
    } else {
        if in_scratch {
            Finish::ScaleCopy
        } else {
            Finish::Scale
        }
    }
}

/// The coefficients of the passes from `from` up to, not including,
/// `until`, one band after another.
pub(crate) open spec fn table_range(radices: Seq<nat>, from: nat, until: nat, forward: bool) -> Seq<
    Twiddle,
>
    decreases until - from,
{
    if from >= until {
        Seq::empty()
    } else {
        band(size_from(radices, from), radices[from as int], forward) + table_range(
            radices,
            from + 1,
            until,
            forward,
        )
    }
}

/// The stride and the size of a pass multiply to the size of the first
/// pass.
pub(crate) proof fn lemma_stride_size(radices: Seq<nat>, pass: nat)
    requires
        pass <= radices.len(),
    ensures
        stride_before(radices, pass) * size_from(radices, pass) == size_from(radices, 0),
    decreases pass,
{
    if pass > 0 {
        let before = (pass - 1) as nat;
        lemma_stride_size(radices, before);
        let stride = stride_before(radices, before);
        let radix = radices[before as int];
        let size = size_from(radices, pass);
        assert((stride * radix) * size == stride * (radix * size)) by (nonlinear_arith);
    } else {
        assert(1 * size_from(radices, 0) == size_from(radices, 0));
    }
}

/// Over a run of `count` passes of the same radix the size shrinks by that
/// radix to the power of `count`.
proof fn lemma_block_size(radices: Seq<nat>, from: nat, count: nat, radix: nat)
    requires
        from + count <= radices.len(),
        forall|i: int| from <= i < from + count ==> radices[i] == radix,
    ensures
        size_from(radices, from) == pow(radix as int, count) * size_from(radices, from + count),
    decreases count,
{
    reveal(pow);
    if count > 0 {
        lemma_block_size(radices, from + 1, (count - 1) as nat, radix);
        let below = pow(radix as int, (count - 1) as nat);
        let rest = size_from(radices, from + count);
        assert(radix * (below * rest) == (radix * below) * rest) by (nonlinear_arith);
    } else {
        assert(1 * size_from(radices, from) == size_from(radices, from));
    }
}

/// The coefficients of a range of passes are those of its first part
/// followed by those of its second part.
proof fn lemma_range_split(
    radices: Seq<nat>,
    from: nat,
    middle: nat,
    until: nat,
    forward: bool,
)
    requires
        from <= middle <= until,
    ensures
        table_range(radices, from, until, forward) == table_range(radices, from, middle, forward)
            + table_range(radices, middle, until, forward),
    decreases middle - from,
{
    if from < middle {
        lemma_range_split(radices, from + 1, middle, until, forward);
        let first = band(size_from(radices, from), radices[from as int], forward);
        assert(table_range(radices, from, until, forward) == first + table_range(
            radices,
            from + 1,
            until,
            forward,
        ));
        assert(table_range(radices, from, middle, forward) == first + table_range(
            radices,
            from + 1,
            middle,
            forward,
        ));
    } else {
        assert(table_range(radices, from, middle, forward) == Seq::<Twiddle>::empty());
    }
}

/// The band of a pass has one coefficient for each sample of a
/// sub-transform.
proof fn lemma_band_len(radices: Seq<nat>, pass: nat, forward: bool)
    requires
        pass < radices.len(),
        radices[pass as int] >= 1,
    ensures
        band(size_from(radices, pass), radices[pass as int], forward).len() == size_from(
            radices,
            pass,
        ),
        size_from(radices, pass) % radices[pass as int] == 0,
        size_from(radices, pass) / radices[pass as int] == size_from(radices, pass + 1),
{
    let radix = radices[pass as int];
    let next = size_from(radices, pass + 1);
    lemma_div_multiples_vanish(next as int, radix as int);
    lemma_mod_multiples_basic(next as int, radix as int);
    lemma_mul_is_commutative(next as int, radix as int);
}

/// The coefficients of a pass begin where those of the passes before it
/// end.
proof fn lemma_range_len(radices: Seq<nat>, pass: nat, forward: bool)
    requires
        pass <= radices.len(),
        forall|i: int| 0 <= i < pass ==> radices[i] >= 1,
    ensures
        table_range(radices, 0, pass, forward).len() == offset_before(radices, pass),
    decreases pass,
{
    if pass > 0 {
        let before = (pass - 1) as nat;
        lemma_range_len(radices, before, forward);
        lemma_range_split(radices, 0, before, pass, forward);
        lemma_band_len(radices, before, forward);
        assert(table_range(radices, before, pass, forward) == band(
            size_from(radices, before),
            radices[before as int],
            forward,
        ) + table_range(radices, pass, pass, forward));
    }
}

/// A stage of several iterations puts into the table the bands of its
/// passes.
proof fn lemma_block_table(
    radices: Seq<nat>,
    from: nat,
    count: nat,
    radix: nat,
    forward: bool,
)
    requires
        radix >= 1,
        from + count <= radices.len(),
        forall|i: int| from <= i < from + count ==> radices[i] == radix,
    ensures
        bands(size_from(radices, from), radix, count, forward) == table_range(
            radices,
            from,
            from + count,
            forward,
        ),
    decreases count,
{
    if count > 0 {
        lemma_block_table(radices, from + 1, (count - 1) as nat, radix, forward);
        lemma_band_len(radices, from, forward);
        assert(bands(size_from(radices, from), radix, count, forward) == band(
            size_from(radices, from),
            radix,
            forward,
        ) + bands(size_from(radices, from) / radix, radix, (count - 1) as nat, forward));
    }
}

/// The passes of stage `stage` follow those of the stages before it, and
/// all have its radix.
proof fn lemma_radices_of_stage(stages: Seq<(usize, usize)>, stage: int)
    requires
        0 <= stage < stages.len(),
    ensures
        radices(stages.take(stage + 1)).len() == radices(stages.take(stage)).len()
            + stages[stage].1,
        radices(stages.take(stage + 1)).len() <= radices(stages).len(),
        forall|pass: int|
            radices(stages.take(stage)).len() <= pass < radices(stages.take(stage + 1)).len()
                ==> #[trigger] radices(stages)[pass] == stages[stage].0,
    decreases stages.len(),
{
    let shorter = stages.drop_last();
    assert(stages.take(stage + 1).drop_last() == stages.take(stage));
    assert(stages.take(stage + 1).last() == stages[stage]);
    if stage == stages.len() - 1 {
        assert(stages.take(stage + 1) == stages);
        assert(stages.take(stage) == shorter);
    } else {
        lemma_radices_of_stage(shorter, stage);
        assert(shorter.take(stage + 1) == stages.take(stage + 1));
        assert(shorter.take(stage) == stages.take(stage));
    }
}

/// A block of stages adds as many passes of its radix as that radix
/// divides the value.
proof fn lemma_radices_block(stages: Seq<(usize, usize)>, radix: nat, value: nat)
    requires
        2 <= radix <= 4,
        1 <= value <= usize::MAX,
    ensures
        radices(stages + block(radix, value)) == radices(stages) + repeated(
            radix,
            multiplicity(radix, value),
        ),
{
    lemma_factorization_bounds(radix, value);
    let longer = stages + block(radix, value);
    if multiplicity(radix, value) > 0 {
        assert(longer.drop_last() == stages);
        assert(longer.last() == block(radix, value)[0]);
    } else {
        assert(longer == stages);
        assert(radices(stages) + repeated(radix, 0) == radices(stages));
    }
}

/// The passes of a length: as many of radix 4 as 4 divides it, then as
/// many of radix 3 as 3 divides what is left, then those of radix 2.
pub proof fn lemma_plan_radices(length: nat)
    requires
        1 <= length <= usize::MAX,
    ensures
        radices(stage_list(length)) == repeated(4, multiplicity(4, length)) + repeated(
            3,
            multiplicity(3, cofactor(4, length)),
        ) + repeated(2, multiplicity(2, cofactor(3, cofactor(4, length)))),
{
    let after_four = cofactor(4, length);
    let after_three = cofactor(3, after_four);
    lemma_factorization_bounds(4, length);
    lemma_factorization_bounds(3, after_four);
    let none = Seq::<(usize, usize)>::empty();
    lemma_radices_block(none, 4, length);
    assert(none + block(4, length) == block(4, length));
    assert(radices(none) + repeated(4, multiplicity(4, length)) == repeated(
        4,
        multiplicity(4, length),
    ));
    lemma_radices_block(block(4, length), 3, after_four);
    lemma_radices_block(block(4, length) + block(3, after_four), 2, after_three);
}

/// The sizes at which the stages of a representable length begin, and the
/// coefficient table as the bands of its passes.
pub(crate) proof fn lemma_plan_passes(length: nat, forward: bool)
    requires
        representable(length),
    ensures
        ({
            let radices = radices(stage_list(length));
            &&& forall|pass: int| 0 <= pass < radices.len() ==> 2 <= #[trigger] radices[pass] <= 4
            &&& size_from(radices, 0) == length
            &&& twiddle_table(length, forward) == table_range(radices, 0, radices.len(), forward)
        }),
{
    let after_four = cofactor(4, length);
    let after_three = cofactor(3, after_four);
    let fours = multiplicity(4, length);
    let threes = multiplicity(3, after_four);
    let twos = multiplicity(2, after_three);
    let radices = radices(stage_list(length));
    lemma_supported_residue(length);
    lemma_plan_radices(length);
    lemma_factorization(4, length);
    lemma_factorization(3, after_four);
    lemma_factorization(2, after_three);
    assert(radices.len() == fours + threes + twos);
    lemma_block_size(radices, 0, fours, 4);
    lemma_block_size(radices, fours, threes, 3);
    lemma_block_size(radices, fours + threes, twos, 2);
    assert(size_from(radices, fours + threes + twos) == 1);
    assert(size_from(radices, fours + threes) == after_three) by {
        lemma_mul_basics(pow(2, twos));
    }
    assert(size_from(radices, fours) == after_four) by {
        lemma_mul_is_commutative(pow(3, threes), after_three as int);
    }
    assert(size_from(radices, 0) == length) by {
        lemma_mul_is_commutative(pow(4, fours), after_four as int);
    }
    lemma_block_table(radices, 0, fours, 4, forward);
    lemma_block_table(radices, fours, threes, 3, forward);
    lemma_block_table(radices, fours + threes, twos, 2, forward);
    lemma_range_split(radices, 0, fours, fours + threes, forward);
    lemma_range_split(radices, 0, fours + threes, fours + threes + twos, forward);
}

/// Sizes are positive where radices are.
proof fn lemma_size_positive(radices: Seq<nat>, pass: nat)
    requires
        forall|i: int| 0 <= i < radices.len() ==> #[trigger] radices[i] >= 1,
    ensures
        size_from(radices, pass) >= 1,
    decreases radices.len() - pass,
{
    if pass < radices.len() {
        lemma_size_positive(radices, pass + 1);
        lemma_mul_strictly_positive(
            radices[pass as int] as int,
            size_from(radices, pass + 1) as int,
        );
    }
}

/// How one pass of a representable length stands to the next: the radix
/// divides the size, the stride takes what the size gives up, and the
/// coefficients of the pass lie inside the table.
pub(crate) proof fn lemma_pass_step(length: nat, pass: nat)
    requires
        representable(length),
        pass < radices(stage_list(length)).len(),
    ensures
        ({
            let radices = radices(stage_list(length));
            let radix = radices[pass as int];
            &&& 2 <= radix <= 4
            &&& size_from(radices, pass) == radix * size_from(radices, pass + 1)
            &&& size_from(radices, pass) % radix == 0
            &&& size_from(radices, pass) / radix == size_from(radices, pass + 1)
            &&& stride_before(radices, pass) * size_from(radices, pass) == length
            &&& stride_before(radices, pass + 1) == stride_before(radices, pass) * radix
            &&& 1 <= size_from(radices, pass) <= length
            &&& 1 <= stride_before(radices, pass) <= length
            &&& stride_before(radices, pass + 1) <= length
            &&& offset_before(radices, pass + 1) == offset_before(radices, pass) + size_from(
                radices,
                pass,
            )
            &&& offset_before(radices, pass + 1) <= twiddle_table(length, true).len()
        }),
{
    let radices = radices(stage_list(length));
    let radix = radices[pass as int];
    lemma_plan_passes(length, true);
    lemma_band_len(radices, pass, true);
    lemma_stride_size(radices, pass);
    lemma_stride_size(radices, pass + 1);
    lemma_size_positive(radices, pass);
    lemma_size_positive(radices, pass + 1);
    let stride = stride_before(radices, pass);
    let size = size_from(radices, pass);
    let next_stride = stride_before(radices, pass + 1);
    let next_size = size_from(radices, pass + 1);
    assert(next_stride == stride * radix);
    assert(length >= 1);
    assert(stride >= 1 && size <= length && stride <= length) by (nonlinear_arith)
        requires
            stride * size == length,
            size >= 1,
            stride >= 0,
            length >= 1,
    ;
    assert(next_stride <= length) by (nonlinear_arith)
        requires
            next_stride * next_size == length,
            next_size >= 1,
            next_stride >= 0,
    ;
    lemma_range_split(radices, 0, pass + 1, radices.len(), true);
    lemma_range_len(radices, pass + 1, true);
}

/// Every pass of a transform has radix 2, 3 or 4, which divides its size;
/// its size times its stride is the length of the transform; its
/// coefficients lie inside the table; it is narrow exactly while its stride
/// is below the vector width; and the passes take turns in reading the
/// caller's buffer and the scratch buffer, the first reading the caller's.
pub proof fn lemma_schedule_pass(length: nat, lanes: nat, pass: int)
    requires
        representable(length),
        0 <= pass < schedule_of(length, lanes).len(),
    ensures
        ({
            let order = radices(stage_list(length));
            let p = schedule_of(length, lanes)[pass];
            &&& p.well_formed()
            &&& 2 <= p.radix <= 4
            &&& p.radix == order[pass]
            &&& p.size == size_from(order, pass as nat)
            &&& p.stride == stride_before(order, pass as nat)
            &&& p.offset == offset_before(order, pass as nat)
            &&& p.size * p.stride == length
            &&& p.offset + p.size <= twiddle_table(length, true).len()
            &&& p.offset + p.size <= twiddle_table(length, false).len()
            &&& (p.width == Width::Narrow <==> p.stride < lanes)
            &&& (p.from_scratch <==> pass % 2 == 1)
        }),
{
    lemma_pass_step(length, pass as nat);
    lemma_table_len_direction(length);
    let order = radices(stage_list(length));
    lemma_mul_is_commutative(
        size_from(order, pass as nat) as int,
        stride_before(order, pass as nat) as int,
    );
}

/// The first pass splits the whole transform, at stride 1, with the
/// coefficients at the head of the table.
pub proof fn lemma_schedule_first(length: nat, lanes: nat)
    requires
        representable(length),
        schedule_of(length, lanes).len() > 0,
    ensures
        schedule_of(length, lanes)[0].size == length,
        schedule_of(length, lanes)[0].stride == 1,
        schedule_of(length, lanes)[0].offset == 0,
        !schedule_of(length, lanes)[0].from_scratch,
{
    lemma_plan_passes(length, true);
}

/// From one pass to the next the size shrinks by the radix, the stride
/// grows by it, the coefficients go on where the pass stopped, and the
/// data changes sides.
pub proof fn lemma_schedule_next(length: nat, lanes: nat, pass: int)
    requires
        representable(length),
        0 <= pass,
        pass + 1 < schedule_of(length, lanes).len(),
    ensures
        ({
            let p = schedule_of(length, lanes)[pass];
            let next = schedule_of(length, lanes)[pass + 1];
            &&& next.size == p.size / p.radix
            &&& next.stride == p.stride * p.radix
            &&& next.offset == p.offset + p.size
            &&& next.from_scratch == !p.from_scratch
        }),
{
    lemma_schedule_pass(length, lanes, pass);
    lemma_schedule_pass(length, lanes, pass + 1);
    lemma_pass_step(length, pass as nat);
}

/// The passes use up the table: the coefficients of the last pass end
/// where the table ends, and a transform without passes has an empty
/// table. The last pass splits sub-transforms of the size of its radix.
pub proof fn lemma_schedule_last(length: nat, lanes: nat, forward: bool)
    requires
        representable(length),
    ensures
        ({
            let passes = schedule_of(length, lanes);
            if passes.len() == 0 {
                twiddle_table(length, forward).len() == 0 && length == 1
            } else {
                &&& passes.last().offset + passes.last().size == twiddle_table(
                    length,
                    forward,
                ).len()
                &&& passes.last().size == passes.last().radix
                &&& passes.last().stride * passes.last().radix == length
            }
        }),
{
    let order = radices(stage_list(length));
    let passes = schedule_of(length, lanes);
    lemma_plan_passes(length, forward);
    lemma_plan_passes(length, true);
    lemma_table_len_direction(length);
    if passes.len() > 0 {
        let last = (passes.len() - 1) as nat;
        lemma_schedule_pass(length, lanes, last as int);
        lemma_pass_step(length, last);
        lemma_range_len(order, order.len(), true);
        assert(size_from(order, order.len()) == 1);
        lemma_stride_size(order, order.len());
    }
}

/// What a pass finds in the table: at the place of group `group` and
/// branch `branch` stands the identity for branch 0 and otherwise the root
/// of unity of the order of the pass's size, raised to `group * branch`.
pub proof fn lemma_pass_coefficient(
    length: nat,
    lanes: nat,
    forward: bool,
    pass: int,
    group: nat,
    branch: nat,
)
    requires
        representable(length),
        0 <= pass < schedule_of(length, lanes).len(),
        group < schedule_of(length, lanes)[pass].size / schedule_of(length, lanes)[pass].radix,
        branch < schedule_of(length, lanes)[pass].radix,
    ensures
        ({
            let p = schedule_of(length, lanes)[pass];
            let place = p.offset + group * p.radix + branch;
            &&& place < p.offset + p.size
            &&& place < twiddle_table(length, forward).len()
            &&& group * branch < p.size
            &&& twiddle_table(length, forward)[place] == if branch == 0 {
                Twiddle::One
            } else {
                Twiddle::Root { index: (group * branch) as usize, modulus: p.size, forward }
            }
        }),
{
    let order = radices(stage_list(length));
    let p = schedule_of(length, lanes)[pass];
    let at = pass as nat;
    lemma_schedule_pass(length, lanes, pass);
    lemma_plan_passes(length, forward);
    lemma_pass_step(length, at);
    lemma_table_len_direction(length);
    lemma_range_split(order, 0, at, order.len(), forward);
    lemma_range_split(order, at, at + 1, order.len(), forward);
    lemma_range_len(order, at, forward);
    lemma_band_len(order, at, forward);
    let own = band(p.size as nat, p.radix as nat, forward);
    assert(table_range(order, at, at + 1, forward) == own + table_range(
        order,
        at + 1,
        at + 1,
        forward,
    ));
    assert(table_range(order, at, at + 1, forward) == own);
    lemma_band_bounds(p.size as nat, p.radix as nat, group, branch);
    lemma_position_split(p.radix as nat, group, branch);
    let inside = group * p.radix + branch;
    assert(own[inside as int] == twiddle_table(length, forward)[p.offset + inside]);
}

/// A transform of one sample has no pass: the sample stays where it is,
/// and a forward transform leaves nothing to do.
pub proof fn lemma_unit_schedule(lanes: nat)
    ensures
        schedule_of(1, lanes) == Seq::<Pass>::empty(),
        finish_of(schedule_of(1, lanes).len(), true) == Finish::Nothing,
        finish_of(schedule_of(1, lanes).len(), false) == Finish::Scale,
{
    lemma_unit_length(true);
}

/// After the last pass the result stands where that pass wrote it: it is
/// to be brought over from the scratch buffer exactly if the last pass
/// read the caller's buffer. Only an inverse transform divides by the
/// length.
pub proof fn lemma_finish_side(length: nat, lanes: nat, forward: bool)
    requires
        representable(length),
        schedule_of(length, lanes).len() > 0,
    ensures
        ({
            let passes = schedule_of(length, lanes);
            let action = finish_of(passes.len(), forward);
            &&& (action == Finish::Copy || action == Finish::ScaleCopy)
                <==> !passes.last().from_scratch
            &&& (action == Finish::Scale || action == Finish::ScaleCopy) <==> !forward
        }),
{
    lemma_schedule_pass(length, lanes, schedule_of(length, lanes).len() - 1);
}

/// A transform has as many passes as its stages have iterations.
pub proof fn lemma_schedule_len(length: nat, lanes: nat)
    requires
        1 <= length <= usize::MAX,
    ensures
        schedule_of(length, lanes).len() == multiplicity(4, length) + multiplicity(
            3,
            cofactor(4, length),
        ) + multiplicity(2, cofactor(3, cofactor(4, length))),
{
    lemma_plan_radices(length);
}

impl Stages {
    /// The passes of the transform in the order they run, for kernels that
    /// take `lanes` samples to a vector. A pass is narrow while its stride
    /// is below `lanes`.
    pub fn schedule(&self, lanes: usize) -> (passes: Vec<Pass>)
        ensures
            passes@ == schedule_of(self@.size, lanes as nat),
            self.planned(),
            forall|pass: int|
                0 <= pass < passes@.len() ==> (#[trigger] passes@[pass]).runs_on(
                    self@.size,
                    self@.forward_twiddles.len(),
                ),
    {
        let stages = self.stages();
        let total = self.size();
        let ghost length = total as nat;
        let ghost order = radices(stages@);
        let ghost whole = schedule_of(length, lanes as nat);
        proof {
            lemma_plan_passes(length, true);
            assert(stages@.take(0) == Seq::<(usize, usize)>::empty());
        }
        let mut passes: Vec<Pass> = Vec::new();
        let mut size: usize = total;
        let mut stride: usize = 1;
        let mut offset: usize = 0;
        let mut in_scratch = false;
        let mut stage: usize = 0;
        while stage < stages.len()
            invariant
                representable(length),
                stages@ == stage_list(length),
                order == radices(stages@),
                whole == schedule_of(length, lanes as nat),
                stage <= stages.len(),
                passes@.len() == radices(stages@.take(stage as int)).len(),
                passes@.len() <= order.len(),
                passes@ == whole.take(passes@.len() as int),
                size == size_from(order, passes@.len()),
                stride == stride_before(order, passes@.len()),
                offset == offset_before(order, passes@.len()),
                in_scratch == (passes@.len() % 2 == 1),
            decreases stages.len() - stage,
        {
            let (radix, iterations) = stages[stage];
            let ghost base = passes@.len();
            proof {
                lemma_radices_of_stage(stages@, stage as int);
            }
            let mut iteration: usize = 0;
            while iteration < iterations
                invariant
                    representable(length),
                    stages@ == stage_list(length),
                    order == radices(stages@),
                    whole == schedule_of(length, lanes as nat),
                    stage < stages.len(),
                    (radix, iterations) == stages@[stage as int],
                    iteration <= iterations,
                    base == radices(stages@.take(stage as int)).len(),
                    base + iterations == radices(stages@.take(stage + 1)).len(),
                    base + iterations <= order.len(),
                    forall|pass: int|
                        base <= pass < base + iterations ==> #[trigger] order[pass] == radix,
                    passes@.len() == base + iteration,
                    passes@ == whole.take(passes@.len() as int),
                    size == size_from(order, passes@.len()),
                    stride == stride_before(order, passes@.len()),
                    offset == offset_before(order, passes@.len()),
                    in_scratch == (passes@.len() % 2 == 1),
                decreases iterations - iteration,
            {
                let ghost index = passes@.len();
                proof {
                    lemma_pass_step(length, index);
                    assert(order[index as int] == radix);
                }
                let width = if stride < lanes {
                    Width::Narrow
                } else {
                    Width::Wide
                };
                passes.push(Pass { radix, size, stride, offset, width, from_scratch: in_scratch });
                assert(passes@ == whole.take((index + 1) as int)) by {
                    assert(passes@[index as int] == pass_at(order, lanes as nat, index as int));
                }
                offset = offset + size;
                size = size / radix;
                stride = stride * radix;
                in_scratch = !in_scratch;
                iteration = iteration + 1;
            }
            stage = stage + 1;
        }
        proof {
            assert(stages@.take(stage as int) == stages@);
            assert forall|pass: int| 0 <= pass < passes@.len() implies (#[trigger] passes@[pass])
                .runs_on(self@.size, self@.forward_twiddles.len()) by {
                lemma_schedule_pass(length, lanes as nat, pass);
            }
        }
        passes
    }
}

/// Says what is left to do after `passes` passes of a transform in the
/// given direction: the data has changed sides once with every pass, and
/// an inverse transform divides by the length.
pub fn finish(passes: usize, forward: bool) -> (action: Finish)
    ensures
        action == finish_of(passes as nat, forward),
{
    let in_scratch = passes % 2 == 1;
    if forward {
        if in_scratch {
            Finish::Copy
        } else {
            Finish::Nothing
        }
    } else {
        if in_scratch {
            Finish::ScaleCopy
        } else {
            Finish::Scale
        }
    }
}

} // verus!
