//! The plan of a transform: its stages and its two coefficient tables.

use crate::factor::{
    cofactor, lemma_factorization, lemma_factorization_bounds, multiplicity, num_factors,
};
use crate::smooth::{lemma_supported_residue, residue, smooth, supported};
use crate::twiddle::{
    bands, extend_twiddles, lemma_bands_conjugate, lemma_bands_len_direction, Twiddle,
};
use vstd::arithmetic::div_mod::*;
use vstd::arithmetic::mul::*;
use vstd::arithmetic::power::*;
use vstd::prelude::*;

verus! {

/// The stage that `radix` contributes to a length of which `value` is still
/// to be split: one stage with as many iterations as `radix` divides
/// `value`, or none where it does not divide it.
pub open spec fn block(radix: nat, value: nat) -> Seq<(usize, usize)> {
    if multiplicity(radix, value) > 0 {
        seq![(radix as usize, multiplicity(radix, value) as usize)]
    } else {
        Seq::empty()
    }
}

/// The stages of a length, each a radix with its number of iterations:
/// radix 4 first, then radix 3, then radix 2.
pub open spec fn stage_list(length: nat) -> Seq<(usize, usize)> {
    let after_four = cofactor(4, length);
    let after_three = cofactor(3, after_four);
    block(4, length) + block(3, after_four) + block(2, after_three)
}

/// The coefficient table of a length for one direction: the bands of its
/// stages one after another, in the order the passes run.
pub open spec fn twiddle_table(length: nat, forward: bool) -> Seq<Twiddle> {
    let after_four = cofactor(4, length);
    let after_three = cofactor(3, after_four);
    bands(length, 4, multiplicity(4, length), forward) + bands(
        after_four,
        3,
        multiplicity(3, after_four),
        forward,
    ) + bands(after_three, 2, multiplicity(2, after_three), forward)
}

/// The product, over the stages, of the radix to the power of the number
/// of iterations.
pub open spec fn stage_product(stages: Seq<(usize, usize)>) -> int
    decreases stages.len(),
{
    if stages.len() == 0 {
        1
    } else {
        stage_product(stages.drop_last()) * pow(
            stages.last().0 as int,
            stages.last().1 as nat,
        )
    }
}

/// A supported length whose coefficient table a vector can hold.
pub open spec fn representable(length: nat) -> bool {
    &&& supported(length)
    &&& length <= usize::MAX
    &&& twiddle_table(length, true).len() <= usize::MAX
}

/// What a plan holds.
pub struct Plan {
    pub size: nat,
    pub stages: Seq<(usize, usize)>,
    pub forward_twiddles: Seq<Twiddle>,
    pub reverse_twiddles: Seq<Twiddle>,
}

/// The plan of a length.
pub open spec fn plan_of(length: nat) -> Plan {
    Plan {
        size: length,
        stages: stage_list(length),
        forward_twiddles: twiddle_table(length, true),
        reverse_twiddles: twiddle_table(length, false),
    }
}

/// The plan of a transform of one supported length. It does not change once
/// it is made.
pub struct Stages {
    size: usize,
    stages: Vec<(usize, usize)>,
    forward_twiddles: Vec<Twiddle>,
    reverse_twiddles: Vec<Twiddle>,
}

impl View for Stages {
    type V = Plan;

    closed spec fn view(&self) -> Plan {
        Plan {
            size: self.size as nat,
            stages: self.stages@,
            forward_twiddles: self.forward_twiddles@,
            reverse_twiddles: self.reverse_twiddles@,
        }
    }
}

impl Stages {
    #[verifier::type_invariant]
    spec fn consistent(&self) -> bool {
        self.planned()
    }

    /// The plan is the plan of its own length, and that length is supported.
    /// This holds of every plan there is.
    pub open spec fn planned(&self) -> bool {
        &&& representable(self@.size)
        &&& self@ == plan_of(self@.size)
    }

    /// Plans a transform of `size` samples. There is a plan exactly for the
    /// supported lengths.
    pub fn new(size: usize) -> (plan: Option<Stages>)
        ensures
            plan.is_some() <==> supported(size as nat),
            plan matches Some(p) ==> p@ == plan_of(size as nat) && p.planned(),
    {
        proof {
            lemma_supported_residue(size as nat);
        }
        if size == 0 {
            return None;
        }
        let mut current_size: usize = size;
        let mut stages: Vec<(usize, usize)> = Vec::new();
        let mut forward_twiddles: Vec<Twiddle> = Vec::new();
        let mut reverse_twiddles: Vec<Twiddle> = Vec::new();

        {
            let (count, new_size) = num_factors(4, current_size);
            if count > 0 {
                stages.push((4, count));
                extend_twiddles(
                    &mut forward_twiddles,
                    &mut reverse_twiddles,
                    current_size,
                    4,
                    count,
                );
            }
            current_size = new_size;
        }
        assert(stages@ == block(4, size as nat));
        assert(forward_twiddles@ == bands(size as nat, 4, multiplicity(4, size as nat), true));
        assert(reverse_twiddles@ == bands(size as nat, 4, multiplicity(4, size as nat), false));
        let ghost after_four = current_size as nat;
        {
            let (count, new_size) = num_factors(3, current_size);
            if count > 0 {
                stages.push((3, count));
                extend_twiddles(
                    &mut forward_twiddles,
                    &mut reverse_twiddles,
                    current_size,
                    3,
                    count,
                );
            }
            current_size = new_size;
        }
        assert(stages@ == block(4, size as nat) + block(3, after_four));
        assert(forward_twiddles@ == bands(size as nat, 4, multiplicity(4, size as nat), true)
            + bands(after_four, 3, multiplicity(3, after_four), true));
        assert(reverse_twiddles@ == bands(size as nat, 4, multiplicity(4, size as nat), false)
            + bands(after_four, 3, multiplicity(3, after_four), false));
        let ghost after_three = current_size as nat;
        {
            let (count, new_size) = num_factors(2, current_size);
            if count > 0 {
                stages.push((2, count));
                extend_twiddles(
                    &mut forward_twiddles,
                    &mut reverse_twiddles,
                    current_size,
                    2,
                    count,
                );
            }
            current_size = new_size;
        }
        assert(stages@ == stage_list(size as nat));
        assert(forward_twiddles@ == twiddle_table(size as nat, true));
        assert(reverse_twiddles@ == twiddle_table(size as nat, false));
        assert(current_size == residue(size as nat));
        assert(twiddle_table(size as nat, true).len() == forward_twiddles.len());
        if current_size != 1 {
            None
        } else {
            Some(Stages { size, stages, forward_twiddles, reverse_twiddles })
        }
    }

    /// The number of samples of the transform.
    pub fn size(&self) -> (size: usize)
        ensures
            size == self@.size,
            self.planned(),
    {
        proof {
            use_type_invariant(self);
        }
        self.size
    }

    /// The stages in the order they run, each a radix with its number of
    /// iterations.
    pub fn stages(&self) -> (stages: &Vec<(usize, usize)>)
        ensures
            stages@ == self@.stages,
            self.planned(),
    {
        proof {
            use_type_invariant(self);
        }
        &self.stages
    }

    /// The coefficient table of one direction.
    pub fn twiddles(&self, forward: bool) -> (table: &Vec<Twiddle>)
        ensures
            table@ == if forward {
                self@.forward_twiddles
            } else {
                self@.reverse_twiddles
            },
            self.planned(),
    {
        proof {
            use_type_invariant(self);
        }
        if forward {
            &self.forward_twiddles
        } else {
            &self.reverse_twiddles
        }
    }
}

/// A block multiplies the product of the stages by what it divides out.
proof fn lemma_product_block(stages: Seq<(usize, usize)>, radix: nat, value: nat)
    requires
        2 <= radix <= 4,
        1 <= value <= usize::MAX,
    ensures
        stage_product(stages + block(radix, value)) == stage_product(stages) * pow(
            radix as int,
            multiplicity(radix, value),
        ),
{
    reveal(pow);
    lemma_factorization_bounds(radix, value);
    let longer = stages + block(radix, value);
    if multiplicity(radix, value) > 0 {
        assert(longer.drop_last() == stages);
        assert(longer.last() == block(radix, value)[0]);
    } else {
        assert(longer == stages);
        lemma_mul_basics(stage_product(stages));
    }
}

/// The stages of a length multiply to the length without what the three
/// divisions leave: to the length itself where it is supported.
pub proof fn lemma_stage_product(length: nat)
    requires
        1 <= length <= usize::MAX,
    ensures
        stage_product(stage_list(length)) * residue(length) == length,
        supported(length) ==> stage_product(stage_list(length)) == length,
{
    let after_four = cofactor(4, length);
    let after_three = cofactor(3, after_four);
    let fours = pow(4, multiplicity(4, length));
    let threes = pow(3, multiplicity(3, after_four));
    let twos = pow(2, multiplicity(2, after_three));
    lemma_supported_residue(length);
    lemma_factorization(4, length);
    lemma_factorization(3, after_four);
    lemma_factorization(2, after_three);
    lemma_factorization_bounds(4, length);
    lemma_factorization_bounds(3, after_four);
    let none = Seq::<(usize, usize)>::empty();
    lemma_product_block(none, 4, length);
    assert(none + block(4, length) == block(4, length));
    lemma_product_block(block(4, length), 3, after_four);
    lemma_product_block(block(4, length) + block(3, after_four), 2, after_three);
    let product = stage_product(stage_list(length));
    assert(product == 1 * fours * threes * twos);
    assert(product * residue(length) == length) by (nonlinear_arith)
        requires
            product == 1 * fours * threes * twos,
            length == after_four * fours,
            after_four == after_three * threes,
            after_three == residue(length) * twos,
    ;
    if supported(length) {
        lemma_mul_basics(product);
    }
}

/// The stages stand in the order of radix 4, radix 3, radix 2, each
/// radix at most once and with at least one iteration. Radix 2 never has
/// more than one: two of them would have made one more of radix 4.
pub proof fn lemma_stage_order(length: nat)
    requires
        1 <= length <= usize::MAX,
    ensures
        stage_list(length).len() <= 3,
        forall|stage: int|
            0 <= stage < stage_list(length).len() ==> 2 <= (#[trigger] stage_list(
                length,
            )[stage]).0 <= 4 && stage_list(length)[stage].1 >= 1,
        forall|first: int, second: int|
            0 <= first < second < stage_list(length).len() ==> (#[trigger] stage_list(
                length,
            )[first]).0 > (#[trigger] stage_list(length)[second]).0,
        forall|stage: int|
            0 <= stage < stage_list(length).len() && (#[trigger] stage_list(length)[stage]).0
                == 2 ==> stage_list(length)[stage].1 == 1,
{
    reveal(pow);
    let after_four = cofactor(4, length);
    let after_three = cofactor(3, after_four);
    lemma_factorization(4, length);
    lemma_factorization(3, after_four);
    lemma_factorization(2, after_three);
    lemma_factorization_bounds(4, length);
    lemma_factorization_bounds(3, after_four);
    lemma_factorization_bounds(2, after_three);
    let twos = multiplicity(2, after_three);
    if twos >= 2 {
        let rest = residue(length);
        let threes = pow(3, multiplicity(3, after_four));
        let below = pow(2, (twos - 2) as nat);
        assert(pow(2, twos) == 2 * pow(2, (twos - 1) as nat));
        assert(pow(2, (twos - 1) as nat) == 2 * below);
        assert(after_four == (rest * below * threes) * 4) by (nonlinear_arith)
            requires
                after_four == after_three * threes,
                after_three == rest * (2 * (2 * below)),
        ;
        lemma_mod_multiples_basic(rest * below * threes, 4);
    }
}

/// The two tables of a length are equally long.
pub proof fn lemma_table_len_direction(length: nat)
    ensures
        twiddle_table(length, false).len() == twiddle_table(length, true).len(),
{
    let after_four = cofactor(4, length);
    let after_three = cofactor(3, after_four);
    lemma_bands_len_direction(length, 4, multiplicity(4, length));
    lemma_bands_len_direction(after_four, 3, multiplicity(3, after_four));
    lemma_bands_len_direction(after_three, 2, multiplicity(2, after_three));
}

/// The inverse table holds at every place the coefficient of the forward
/// table turned the other way.
pub proof fn lemma_tables_conjugate(length: nat, place: int)
    requires
        0 <= place < twiddle_table(length, true).len(),
    ensures
        twiddle_table(length, false)[place] == twiddle_table(length, true)[place].conjugate(),
{
    let after_four = cofactor(4, length);
    let after_three = cofactor(3, after_four);
    let fours = bands(length, 4, multiplicity(4, length), true);
    let threes = bands(after_four, 3, multiplicity(3, after_four), true);
    lemma_bands_len_direction(length, 4, multiplicity(4, length));
    lemma_bands_len_direction(after_four, 3, multiplicity(3, after_four));
    lemma_bands_len_direction(after_three, 2, multiplicity(2, after_three));
    if place < fours.len() {
        lemma_bands_conjugate(length, 4, multiplicity(4, length), place);
    } else if place < fours.len() + threes.len() {
        lemma_bands_conjugate(after_four, 3, multiplicity(3, after_four), place - fours.len());
    } else {
        lemma_bands_conjugate(
            after_three,
            2,
            multiplicity(2, after_three),
            place - fours.len() - threes.len(),
        );
    }
}

/// A transform of one sample has no stage and no coefficient.
pub proof fn lemma_unit_length(forward: bool)
    ensures
        representable(1),
        stage_list(1) == Seq::<(usize, usize)>::empty(),
        twiddle_table(1, forward) == Seq::<Twiddle>::empty(),
{
    reveal(pow);
    assert(smooth(0, 0, 0) == 1) by {
        assert(pow(4, 0) == 1 && pow(3, 0) == 1 && pow(2, 0) == 1);
    }
    assert(multiplicity(4, 1) == 0);
    assert(cofactor(4, 1) == 1);
    assert(multiplicity(3, 1) == 0);
    assert(cofactor(3, 1) == 1);
    assert(multiplicity(2, 1) == 0);
}

/// Only the transform of one sample has no stage.
pub proof fn lemma_no_stage(length: nat)
    requires
        supported(length),
        length <= usize::MAX,
        stage_list(length).len() == 0,
    ensures
        length == 1,
{
    lemma_supported_residue(length);
    lemma_stage_product(length);
}

} // verus!
