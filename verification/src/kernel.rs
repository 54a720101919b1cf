//! Where a pass finds and leaves its samples.
//!
//! A pass of radix `r` over sub-transforms of `size` samples at stride
//! `stride` runs `size / r` groups of butterflies, each of them once for
//! every lane below the stride. A butterfly has `r` branches: it reads one
//! sample for each, combines them, multiplies the result of each branch
//! by the coefficient of its group and branch, and writes one sample for
//! each.

use crate::schedule::Pass;
use vstd::arithmetic::div_mod::*;
use vstd::arithmetic::mul::*;
use vstd::prelude::*;

verus! {

impl Pass {
    /// The number of groups of butterflies.
    pub open spec fn group_count(&self) -> int {
        self.size as int / self.radix as int
    }

    /// Whether `group`, `lane` and `branch` name a sample of the pass.
    pub open spec fn names(&self, group: int, lane: int, branch: int) -> bool {
        &&& 0 <= group < self.group_count()
        &&& 0 <= lane < self.stride
        &&& 0 <= branch < self.radix
    }

    /// The place in the source buffer of the sample that branch `branch`
    /// of the butterfly of `group` and `lane` reads: the branches of a
    /// butterfly lie `group_count` sub-transform places apart.
    pub open spec fn source_of(&self, group: int, lane: int, branch: int) -> int {
        lane + self.stride * (group + branch * self.group_count())
    }

    /// The place in the target buffer to which that branch writes: the
    /// branches of a butterfly lie next to each other.
    pub open spec fn target_of(&self, group: int, lane: int, branch: int) -> int {
        lane + self.stride * (self.radix * group + branch)
    }

    /// The place in the table of the coefficient of `group` and `branch`.
    pub open spec fn coefficient_of(&self, group: int, branch: int) -> int {
        self.offset + group * self.radix + branch
    }

    /// The group, lane and branch that read place `place` of the source
    /// buffer.
    pub open spec fn reader_of(&self, place: int) -> (int, int, int) {
        let within = place / self.stride as int;
        (within % self.group_count(), place % self.stride as int, within / self.group_count())
    }

    /// The group, lane and branch that write place `place` of the target
    /// buffer.
    pub open spec fn writer_of(&self, place: int) -> (int, int, int) {
        let within = place / self.stride as int;
        (within / self.radix as int, place % self.stride as int, within % self.radix as int)
    }

    /// The number of groups of butterflies.
    pub fn groups(&self) -> (count: usize)
        requires
            self.well_formed(),
        ensures
            count == self.group_count(),
            count * self.radix == self.size,
            count >= 1,
    {
        proof {
            lemma_fundamental_div_mod(self.size as int, self.radix as int);
            lemma_mul_is_commutative(self.radix as int, self.group_count());
            assert(self.group_count() >= 1) by (nonlinear_arith)
                requires
                    self.size == self.radix * self.group_count(),
                    self.size >= 1,
                    self.radix >= 2,
            ;
        }
        self.size / self.radix
    }

    /// The place in the source buffer that a branch reads.
    pub fn source_index(&self, group: usize, lane: usize, branch: usize) -> (place: usize)
        requires
            self.well_formed(),
            self.names(group as int, lane as int, branch as int),
        ensures
            place == self.source_of(group as int, lane as int, branch as int),
            place < self.size * self.stride,
    {
        let groups = self.groups();
        proof {
            self.lemma_source_in_range(group as int, lane as int, branch as int);
            let within = group + branch * groups;
            assert(0 <= branch * groups <= within < self.size) by (nonlinear_arith)
                requires
                    within == group + branch * groups,
                    0 <= group < groups,
                    0 <= branch < self.radix,
                    groups * self.radix == self.size,
            ;
            assert(0 <= self.stride * within <= self.size * self.stride) by (nonlinear_arith)
                requires
                    0 <= within < self.size,
                    self.stride >= 1,
            ;
        }
        lane + self.stride * (group + branch * groups)
    }

    /// The place in the target buffer that a branch writes.
    pub fn target_index(&self, group: usize, lane: usize, branch: usize) -> (place: usize)
        requires
            self.well_formed(),
            self.names(group as int, lane as int, branch as int),
        ensures
            place == self.target_of(group as int, lane as int, branch as int),
            place < self.size * self.stride,
    {
        let ghost groups = self.group_count();
        proof {
            self.lemma_target_in_range(group as int, lane as int, branch as int);
            lemma_fundamental_div_mod(self.size as int, self.radix as int);
            let within = self.radix * group + branch;
            assert(0 <= self.radix * group <= within < self.size) by (nonlinear_arith)
                requires
                    within == self.radix * group + branch,
                    0 <= group < groups,
                    0 <= branch < self.radix,
                    self.radix * groups == self.size,
            ;
            assert(0 <= self.stride * within <= self.size * self.stride) by (nonlinear_arith)
                requires
                    0 <= within < self.size,
                    self.stride >= 1,
            ;
        }
        lane + self.stride * (self.radix * group + branch)
    }

    /// The place in the coefficient table of what multiplies the result of
    /// a branch.
    pub fn twiddle_index(&self, group: usize, branch: usize) -> (place: usize)
        requires
            self.well_formed(),
            group < self.group_count(),
            branch < self.radix,
        ensures
            place == self.coefficient_of(group as int, branch as int),
            self.offset <= place < self.offset + self.size,
    {
        proof {
            lemma_fundamental_div_mod(self.size as int, self.radix as int);
            let groups = self.group_count();
            assert(0 <= group * self.radix && group * self.radix + branch < self.size)
                by (nonlinear_arith)
                requires
                    0 <= group < groups,
                    0 <= branch < self.radix,
                    self.radix * groups == self.size,
            ;
        }
        self.offset + group * self.radix + branch
    }

    /// A branch reads inside the buffer.
    pub proof fn lemma_source_in_range(&self, group: int, lane: int, branch: int)
        requires
            self.well_formed(),
            self.names(group, lane, branch),
        ensures
            0 <= self.source_of(group, lane, branch) < self.size * self.stride,
            self.reader_of(self.source_of(group, lane, branch)) == (group, lane, branch),
    {
        let groups = self.group_count();
        let stride = self.stride as int;
        let within = group + branch * groups;
        lemma_fundamental_div_mod(self.size as int, self.radix as int);
        assert(0 <= within < self.size) by (nonlinear_arith)
            requires
                within == group + branch * groups,
                0 <= group < groups,
                0 <= branch < self.radix,
                self.radix * groups == self.size,
        ;
        assert(0 <= lane + stride * within < self.size * stride) by (nonlinear_arith)
            requires
                0 <= within < self.size,
                0 <= lane < stride,
        ;
        lemma_mul_is_commutative(stride, within);
        lemma_fundamental_div_mod_converse(lane + stride * within, stride, within, lane);
        lemma_mul_is_commutative(branch, groups);
        lemma_fundamental_div_mod_converse(within, groups, branch, group);
    }

    /// A branch writes inside the buffer.
    pub proof fn lemma_target_in_range(&self, group: int, lane: int, branch: int)
        requires
            self.well_formed(),
            self.names(group, lane, branch),
        ensures
            0 <= self.target_of(group, lane, branch) < self.size * self.stride,
            self.writer_of(self.target_of(group, lane, branch)) == (group, lane, branch),
    {
        let groups = self.group_count();
        let stride = self.stride as int;
        let radix = self.radix as int;
        let within = radix * group + branch;
        lemma_fundamental_div_mod(self.size as int, radix);
        assert(0 <= within < self.size) by (nonlinear_arith)
            requires
                within == radix * group + branch,
                0 <= group < groups,
                0 <= branch < radix,
                radix * groups == self.size,
        ;
        assert(0 <= lane + stride * within < self.size * stride) by (nonlinear_arith)
            requires
                0 <= within < self.size,
                0 <= lane < stride,
        ;
        lemma_mul_is_commutative(stride, within);
        lemma_fundamental_div_mod_converse(lane + stride * within, stride, within, lane);
        lemma_mul_is_commutative(radix, group);
        lemma_fundamental_div_mod_converse(within, radix, group, branch);
    }

    /// Every place of the source buffer is read, by the branch that
    /// `reader_of` names.
    pub proof fn lemma_every_place_read(&self, place: int)
        requires
            self.well_formed(),
            0 <= place < self.size * self.stride,
        ensures
            ({
                let (group, lane, branch) = self.reader_of(place);
                self.names(group, lane, branch) && self.source_of(group, lane, branch) == place
            }),
    {
        let groups = self.group_count();
        let stride = self.stride as int;
        let radix = self.radix as int;
        let within = place / stride;
        lemma_fundamental_div_mod(self.size as int, radix);
        lemma_fundamental_div_mod(place, stride);
        assert(groups >= 1) by (nonlinear_arith)
            requires
                radix * groups == self.size,
                self.size >= 1,
                radix >= 2,
        ;
        assert(0 <= within < self.size) by (nonlinear_arith)
            requires
                place == stride * within + place % stride,
                0 <= place % stride < stride,
                0 <= place < self.size * stride,
        ;
        lemma_fundamental_div_mod(within, groups);
        let branch = within / groups;
        assert(0 <= branch < radix) by (nonlinear_arith)
            requires
                within == groups * branch + within % groups,
                0 <= within % groups < groups,
                0 <= within < self.size,
                radix * groups == self.size,
        ;
        lemma_mul_is_commutative(branch, groups);
    }

    /// Every place of the target buffer is written, by the branch that
    /// `writer_of` names.
    pub proof fn lemma_every_place_written(&self, place: int)
        requires
            self.well_formed(),
            0 <= place < self.size * self.stride,
        ensures
            ({
                let (group, lane, branch) = self.writer_of(place);
                self.names(group, lane, branch) && self.target_of(group, lane, branch) == place
            }),
    {
        let groups = self.group_count();
        let stride = self.stride as int;
        let radix = self.radix as int;
        let within = place / stride;
        lemma_fundamental_div_mod(self.size as int, radix);
        lemma_fundamental_div_mod(place, stride);
        assert(0 <= within < self.size) by (nonlinear_arith)
            requires
                place == stride * within + place % stride,
                0 <= place % stride < stride,
                0 <= place < self.size * stride,
        ;
        lemma_fundamental_div_mod(within, radix);
        let group = within / radix;
        assert(0 <= group < groups) by (nonlinear_arith)
            requires
                within == radix * group + within % radix,
                0 <= within % radix < radix,
                0 <= within < self.size,
                radix * groups == self.size,
        ;
    }
}

} // verus!
