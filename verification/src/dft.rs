//! What the passes compute.
//!
//! Every sample, at every moment of a transform, is a sum of inputs, each
//! multiplied by a power of `w`, the primitive root of unity whose order
//! is the length of the transform and which turns with the direction of
//! the transform. A butterfly of radix `r` adds up its `r` sources, the
//! source of branch `b` multiplied by `w^((length / r) * b * k)` for the
//! result of branch `k`, and the result is multiplied by its coefficient
//! from the table. This module follows the inputs and the exponents of
//! their roots through the passes and shows that sample `k` of the result
//! is the sum of all inputs `j`, each multiplied by `w^(j * k)`: the
//! discrete Fourier transform.

use crate::plan::{representable, stage_list, twiddle_table};
use crate::schedule::{
    finish_of, lemma_pass_coefficient, lemma_pass_step, lemma_plan_passes, lemma_schedule_pass,
    lemma_stride_size, radices, schedule_of, size_from, stride_before, Finish, Pass,
};
use crate::twiddle::Twiddle;
use vstd::arithmetic::div_mod::*;
use vstd::arithmetic::mul::*;
use vstd::prelude::*;

verus! {

/// The exponent of `w` that a table entry stands for.
pub open spec fn root_exponent(entry: Twiddle, length: int, forward: bool) -> int {
    match entry {
        Twiddle::One => 0,
        Twiddle::Root { index, modulus, forward: turns } => if turns == forward {
            index * (length / modulus as int)
        } else {
            -(index * (length / modulus as int))
        },
    }
}

/// The samples before the first pass: sample `place` is input `place`.
///
/// A state of the samples is a function that says how often the term
/// `input * w^exponent` occurs in the sample at `place`. Exponents count
/// modulo the length.
pub open spec fn untouched(length: int) -> spec_fn(int, int, int) -> nat {
    |place: int, input: int, exponent: int| once(input == place && exponent % length == 0)
}

/// How often a term occurs in what the first `branches` sources of a
/// butterfly add to the sample that `pass` writes at `place`.
pub open spec fn branch_sum(
    pass: Pass,
    table: Seq<Twiddle>,
    length: int,
    forward: bool,
    before: spec_fn(int, int, int) -> nat,
    place: int,
    input: int,
    exponent: int,
    branches: nat,
) -> nat
    decreases branches,
{
    if branches == 0 {
        0
    } else {
        let (group, lane, branch) = pass.writer_of(place);
        let source = (branches - 1) as int;
        let turn = (length / pass.radix as int) * source * branch + root_exponent(
            table[pass.coefficient_of(group, branch)],
            length,
            forward,
        );
        branch_sum(
            pass,
            table,
            length,
            forward,
            before,
            place,
            input,
            exponent,
            (branches - 1) as nat,
        ) + before(pass.source_of(group, lane, source), input, exponent - turn)
    }
}

/// The samples after `pass` has run on the samples `before`.
pub open spec fn after_pass(
    pass: Pass,
    table: Seq<Twiddle>,
    length: int,
    forward: bool,
    before: spec_fn(int, int, int) -> nat,
) -> spec_fn(int, int, int) -> nat {
    |place: int, input: int, exponent: int|
        branch_sum(
            pass,
            table,
            length,
            forward,
            before,
            place,
            input,
            exponent,
            pass.radix as nat,
        )
}

/// The samples after the first `count` of `passes` have run.
pub open spec fn after_passes(
    passes: Seq<Pass>,
    table: Seq<Twiddle>,
    length: int,
    forward: bool,
    count: nat,
) -> spec_fn(int, int, int) -> nat
    decreases count,
{
    if count == 0 {
        untouched(length)
    } else {
        after_pass(
            passes[count - 1],
            table,
            length,
            forward,
            after_passes(passes, table, length, forward, (count - 1) as nat),
        )
    }
}

/// 1 if `condition` holds and 0 otherwise.
pub open spec fn once(condition: bool) -> nat {
    if condition {
        1
    } else {
        0
    }
}

/// Whether the term `input * w^exponent` belongs to the sample at `place`
/// when the transform is done as far as a pass of `size` and `stride`
/// finds it: the sample holds the inputs that leave the remainder
/// `place / stride` on division by `size`, input `j` multiplied by
/// `w^(j * (place % stride))`.
pub open spec fn partly_transformed(
    length: int,
    size: int,
    stride: int,
    place: int,
    input: int,
    exponent: int,
) -> bool {
    &&& 0 <= input < length
    &&& input % size == place / stride
    &&& exponent % length == (input * (place % stride)) % length
}

/// An input leaves the remainder `group + branch * groups` on division by
/// `radix * groups` exactly if it leaves `group` on division by `groups`
/// and its remainder holds `groups` as often as `branch` says.
proof fn lemma_branch_of_input(input: int, radix: int, groups: int, group: int, branch: int)
    requires
        radix >= 1,
        groups >= 1,
        0 <= group < groups,
        0 <= branch,
    ensures
        input % (radix * groups) == group + branch * groups <==> input % groups == group && (input
            % (radix * groups)) / groups == branch,
        0 <= (input % (radix * groups)) / groups < radix,
{
    let size = radix * groups;
    assert(size >= 1) by (nonlinear_arith)
        requires
            size == radix * groups,
            radix >= 1,
            groups >= 1,
    ;
    let remainder = input % size;
    lemma_mul_is_commutative(radix, groups);
    lemma_mod_mod(input, groups, radix);
    lemma_fundamental_div_mod(remainder, groups);
    lemma_mul_is_commutative(groups, remainder / groups);
    assert(0 <= remainder / groups < radix) by (nonlinear_arith)
        requires
            remainder == groups * (remainder / groups) + remainder % groups,
            0 <= remainder % groups < groups,
            0 <= remainder < size,
            size == radix * groups,
    ;
    if remainder == group + branch * groups {
        lemma_fundamental_div_mod_converse(remainder, groups, branch, group);
    }
}

/// The exponents before and after a butterfly agree: the turn that the
/// butterfly and the coefficient give to an input is what the new lane
/// asks for, up to whole turns.
proof fn lemma_turn(
    length: int,
    stride: int,
    radix: int,
    groups: int,
    group: int,
    lane: int,
    branch: int,
    source: int,
    input: int,
    exponent: int,
)
    requires
        radix >= 1,
        groups >= 1,
        stride >= 1,
        length == (radix * groups) * stride,
        input % (radix * groups) == group + source * groups,
    ensures
        length / radix == groups * stride,
        length / (radix * groups) == stride,
        ((exponent - ((length / radix) * source * branch + (group * branch) * (length / (radix
            * groups)))) % length == (input * lane) % length) <==> (exponent % length == (input
            * (lane + stride * branch)) % length),
{
    let size = radix * groups;
    assert(size >= 1 && length >= 1) by (nonlinear_arith)
        requires
            size == radix * groups,
            length == size * stride,
            radix >= 1,
            groups >= 1,
            stride >= 1,
    ;
    assert(length == (groups * stride) * radix) by (nonlinear_arith)
        requires
            length == (radix * groups) * stride,
    ;
    lemma_div_multiples_vanish(groups * stride, radix);
    lemma_mul_is_commutative(groups * stride, radix);
    lemma_div_multiples_vanish(stride, size);
    lemma_mul_is_commutative(stride, size);
    let turn = (groups * stride) * source * branch + (group * branch) * stride;
    let whole = input / size;
    lemma_fundamental_div_mod(input, size);
    let step = stride * branch;
    assert(input * (lane + step) == input * lane + input * step) by (nonlinear_arith);
    assert(input * step == (size * whole) * step + group * step + (source * groups) * step)
        by (nonlinear_arith)
        requires
            input == size * whole + (group + source * groups),
    ;
    assert((size * whole) * step == length * (whole * branch)) by (nonlinear_arith)
        requires
            step == stride * branch,
            length == size * stride,
    ;
    assert(group * step == (group * branch) * stride) by (nonlinear_arith)
        requires
            step == stride * branch,
    ;
    assert((source * groups) * step == (groups * stride) * source * branch) by (nonlinear_arith)
        requires
            step == stride * branch,
    ;
    assert(input * (lane + stride * branch) == input * lane + turn + length * (whole * branch));
    let old_side = exponent - turn - input * lane;
    let new_side = exponent - input * (lane + stride * branch);
    lemma_mod_equivalence(exponent - turn, input * lane, length);
    lemma_mod_equivalence(exponent, input * (lane + stride * branch), length);
    assert(old_side == length * (whole * branch) + new_side);
    lemma_mod_multiples_vanish(whole * branch, new_side, length);
}

/// What the first sources of a butterfly add up to: of the inputs that
/// the butterfly gathers for the group of the sample, those that its
/// first `branches` sources hold, each with the exponent that the new
/// lane asks for.
proof fn lemma_branch_sum(
    length: nat,
    lanes: nat,
    forward: bool,
    count: nat,
    place: int,
    input: int,
    exponent: int,
    branches: nat,
)
    requires
        representable(length),
        1 <= count <= schedule_of(length, lanes).len(),
        0 <= place < length,
        branches <= schedule_of(length, lanes)[count - 1].radix,
    ensures
        ({
            let passes = schedule_of(length, lanes);
            let table = twiddle_table(length, forward);
            let pass = passes[count - 1];
            let (group, lane, branch) = pass.writer_of(place);
            let total = length as int;
            let before = after_passes(passes, table, total, forward, (count - 1) as nat);
            branch_sum(
                pass,
                table,
                total,
                forward,
                before,
                place,
                input,
                exponent,
                branches,
            ) == once(
                {
                    &&& 0 <= input < total
                    &&& input % pass.group_count() == group
                    &&& (input % (pass.size as int)) / pass.group_count() < branches
                    &&& exponent % total == (input * (lane + pass.stride * branch)) % total
                },
            )
        }),
    decreases count, branches,
{
    let passes = schedule_of(length, lanes);
    let table = twiddle_table(length, forward);
    let at = count - 1;
    let pass = passes[at];
    let (group, lane, branch) = pass.writer_of(place);
    let groups = pass.group_count();
    let radix = pass.radix as int;
    let size = pass.size as int;
    let stride = pass.stride as int;
    let total = length as int;
    let before = after_passes(passes, table, total, forward, at as nat);
    lemma_schedule_pass(length, lanes, at);
    pass.lemma_every_place_written(place);
    lemma_fundamental_div_mod(size, radix);
    assert(size == radix * groups);
    lemma_mul_is_commutative(size, stride);
    if branches == 0 {
        lemma_branch_of_input(input, radix, groups, group, 0);
    } else {
        let source = (branches - 1) as int;
        lemma_branch_sum(
            length,
            lanes,
            forward,
            count,
            place,
            input,
            exponent,
            (branches - 1) as nat,
        );
        pass.lemma_source_in_range(group, lane, source);
        lemma_pass_coefficient(length, lanes, forward, at, group as nat, branch as nat);
        let from = pass.source_of(group, lane, source);
        let within = group + source * groups;
        assert(from / stride == within && from % stride == lane) by {
            lemma_mul_is_commutative(stride, within);
            lemma_fundamental_div_mod_converse(from, stride, within, lane);
        }
        let coefficient = root_exponent(table[pass.coefficient_of(group, branch)], total, forward);
        let scale = total / size;
        assert(total / (radix * groups) == scale);
        let entry = table[pass.coefficient_of(group, branch)];
        assert(pass.coefficient_of(group, branch) == pass.offset + (group as nat) * pass.radix + (
        branch as nat));
        assert(coefficient == (group * branch) * scale) by {
            if branch == 0 {
                assert(entry == Twiddle::One);
                assert((group * branch) * scale == 0) by (nonlinear_arith)
                    requires
                        branch == 0,
                ;
            } else {
                let index = ((group as nat) * (branch as nat)) as usize;
                assert(entry == Twiddle::Root { index, modulus: pass.size, forward });
                assert(index == group * branch) by (nonlinear_arith)
                    requires
                        index == (group as nat) * (branch as nat),
                        group >= 0,
                        branch >= 0,
                ;
                assert(coefficient == index * scale);
            }
        }
        let turn = (total / radix) * source * branch + coefficient;
        lemma_after_passes(length, lanes, forward, at as nat, from, input, exponent - turn);
        let term = before(from, input, exponent - turn);
        assert(term == once(
            partly_transformed(total, size, stride, from, input, exponent - turn),
        ));
        lemma_branch_of_input(input, radix, groups, group, source);
        let fresh = exponent % total == (input * (lane + stride * branch)) % total;
        if input % size == within {
            lemma_turn(total, stride, radix, groups, group, lane, branch, source, input, exponent);
            assert(fresh <==> (exponent - turn) % total == (input * lane) % total);
        }
        assert(term == once(
            0 <= input < total && input % groups == group && (input % size) / groups == source
                && fresh,
        ));
        let earlier = branch_sum(
            pass,
            table,
            total,
            forward,
            before,
            place,
            input,
            exponent,
            (branches - 1) as nat,
        );
        assert(branch_sum(pass, table, total, forward, before, place, input, exponent, branches)
            == earlier + term);
    }
}

/// The samples after each pass: the part of the transform that is done
/// when the sub-transforms have the size, and the samples the stride, of
/// the pass that comes next.
pub proof fn lemma_after_passes(
    length: nat,
    lanes: nat,
    forward: bool,
    count: nat,
    place: int,
    input: int,
    exponent: int,
)
    requires
        representable(length),
        count <= schedule_of(length, lanes).len(),
        0 <= place < length,
    ensures
        after_passes(
            schedule_of(length, lanes),
            twiddle_table(length, forward),
            length as int,
            forward,
            count,
        )(place, input, exponent) == once(
            partly_transformed(
                length as int,
                size_from(radices(stage_list(length)), count) as int,
                stride_before(radices(stage_list(length)), count) as int,
                place,
                input,
                exponent,
            ),
        ),
    decreases count, 5nat,
{
    let order = radices(stage_list(length));
    let passes = schedule_of(length, lanes);
    let table = twiddle_table(length, forward);
    if count == 0 {
        lemma_plan_passes(length, forward);
        if 0 <= input < length {
            lemma_small_mod(input as nat, length);
        }
        lemma_small_mod(0, length);
        assert(input * (place % 1) == 0) by (nonlinear_arith)
            requires
                place % 1 == 0,
        ;
    } else {
        let at = count - 1;
        let pass = passes[at];
        let (group, lane, branch) = pass.writer_of(place);
        let radix = pass.radix as int;
        let stride = pass.stride as int;
        lemma_schedule_pass(length, lanes, at);
        lemma_pass_step(length, at as nat);
        pass.lemma_every_place_written(place);
        lemma_branch_sum(length, lanes, forward, count, place, input, exponent, pass.radix as nat);
        lemma_branch_of_input(input, radix, pass.group_count(), group, 0);
        lemma_fundamental_div_mod(pass.size as int, radix);
        let next_stride = stride * radix;
        let next_lane = lane + stride * branch;
        assert(0 <= next_lane < next_stride) by (nonlinear_arith)
            requires
                next_lane == lane + stride * branch,
                next_stride == stride * radix,
                0 <= lane < stride,
                0 <= branch < radix,
        ;
        assert(place == group * next_stride + next_lane) by (nonlinear_arith)
            requires
                place == lane + stride * (radix * group + branch),
                next_stride == stride * radix,
                next_lane == lane + stride * branch,
        ;
        lemma_fundamental_div_mod_converse(place, next_stride, group, next_lane);
    }
}

/// The passes of a plan compute the discrete Fourier transform: sample
/// `frequency` of the result is the sum of all inputs, input `j`
/// multiplied by `w^(j * frequency)`, each of them once.
pub proof fn lemma_transform(
    length: nat,
    lanes: nat,
    forward: bool,
    frequency: int,
    input: int,
    exponent: int,
)
    requires
        representable(length),
        0 <= frequency < length,
    ensures
        ({
            let total = length as int;
            let passes = schedule_of(length, lanes);
            let table = twiddle_table(length, forward);
            let result = after_passes(passes, table, total, forward, passes.len());
            result(frequency, input, exponent) == once(
                0 <= input < total && exponent % total == (input * frequency) % total,
            )
        }),
{
    let order = radices(stage_list(length));
    let count = schedule_of(length, lanes).len();
    lemma_after_passes(length, lanes, forward, count, frequency, input, exponent);
    lemma_plan_passes(length, forward);
    lemma_stride_size(order, order.len());
    assert(size_from(order, order.len()) == 1);
    assert(stride_before(order, order.len()) == length) by {
        lemma_mul_basics(stride_before(order, order.len()) as int);
    }
    lemma_small_mod(frequency as nat, length);
    lemma_div_basics(frequency);
    assert(frequency / (length as int) == 0) by {
        lemma_basic_div(frequency, length as int);
    }
}

/// The samples of the caller's buffer and of the scratch buffer.
pub struct Buffers {
    pub caller: spec_fn(int, int, int) -> nat,
    pub scratch: spec_fn(int, int, int) -> nat,
}

/// The two buffers after `pass` has run: it reads one of them and writes
/// the other.
pub open spec fn pass_on_buffers(
    pass: Pass,
    table: Seq<Twiddle>,
    length: int,
    forward: bool,
    buffers: Buffers,
) -> Buffers {
    if pass.from_scratch {
        Buffers {
            caller: after_pass(pass, table, length, forward, buffers.scratch),
            scratch: buffers.scratch,
        }
    } else {
        Buffers {
            caller: buffers.caller,
            scratch: after_pass(pass, table, length, forward, buffers.caller),
        }
    }
}

/// The two buffers after the first `count` of `passes` have run.
pub open spec fn passes_on_buffers(
    passes: Seq<Pass>,
    table: Seq<Twiddle>,
    length: int,
    forward: bool,
    buffers: Buffers,
    count: nat,
) -> Buffers
    decreases count,
{
    if count == 0 {
        buffers
    } else {
        pass_on_buffers(
            passes[count - 1],
            table,
            length,
            forward,
            passes_on_buffers(passes, table, length, forward, buffers, (count - 1) as nat),
        )
    }
}

/// The caller's buffer after the ending `action`, before any division by
/// the length.
pub open spec fn brought_back(action: Finish, buffers: Buffers) -> spec_fn(int, int, int) -> nat {
    match action {
        Finish::Nothing | Finish::Scale => buffers.caller,
        Finish::Copy | Finish::ScaleCopy => buffers.scratch,
    }
}

/// The data changes sides with every pass: after an odd number of passes
/// it stands in the scratch buffer, after an even number in the caller's.
proof fn lemma_data_side(
    length: nat,
    lanes: nat,
    forward: bool,
    scratch: spec_fn(int, int, int) -> nat,
    count: nat,
)
    requires
        representable(length),
        count <= schedule_of(length, lanes).len(),
    ensures
        ({
            let total = length as int;
            let passes = schedule_of(length, lanes);
            let table = twiddle_table(length, forward);
            let start = Buffers { caller: untouched(total), scratch };
            let buffers = passes_on_buffers(passes, table, total, forward, start, count);
            let data = after_passes(passes, table, total, forward, count);
            if count % 2 == 1 {
                buffers.scratch == data
            } else {
                buffers.caller == data
            }
        }),
    decreases count,
{
    if count > 0 {
        lemma_data_side(length, lanes, forward, scratch, (count - 1) as nat);
        lemma_schedule_pass(length, lanes, count - 1);
    }
}

/// A transform leaves the discrete Fourier transform of the caller's
/// buffer in the caller's buffer, whatever the scratch buffer held: after
/// the passes and the ending, sample `frequency` is the sum of all inputs,
/// input `j` multiplied by `w^(j * frequency)`, each of them once. An
/// inverse transform, and no other, then divides by the length.
pub proof fn lemma_transform_in_place(
    length: nat,
    lanes: nat,
    forward: bool,
    scratch: spec_fn(int, int, int) -> nat,
    frequency: int,
    input: int,
    exponent: int,
)
    requires
        representable(length),
        0 <= frequency < length,
    ensures
        ({
            let total = length as int;
            let passes = schedule_of(length, lanes);
            let table = twiddle_table(length, forward);
            let start = Buffers { caller: untouched(total), scratch };
            let buffers = passes_on_buffers(passes, table, total, forward, start, passes.len());
            let action = finish_of(passes.len(), forward);
            &&& brought_back(action, buffers)(frequency, input, exponent) == once(
                0 <= input < total && exponent % total == (input * frequency) % total,
            )
            &&& (action == Finish::Scale || action == Finish::ScaleCopy) <==> !forward
        }),
{
    lemma_data_side(length, lanes, forward, scratch, schedule_of(length, lanes).len());
    lemma_transform(length, lanes, forward, frequency, input, exponent);
}

} // verus!
