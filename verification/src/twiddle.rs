//! The coefficient tables: which root of unity stands at which place.
//!
//! A coefficient is kept as the exponent and the order of a root of unity,
//! not as a number. Whoever evaluates the table turns `Root { index, modulus,
//! forward }` into `exp(-2*pi*i*index/modulus)` for a forward transform and
//! into its conjugate for an inverse one.

use vstd::arithmetic::div_mod::*;
use vstd::prelude::*;

verus! {

/// One entry of a coefficient table.
#[derive(Clone, Copy, Debug, PartialEq, Eq, Structural)]
pub enum Twiddle {
    /// The multiplicative identity.
    One,
    /// The primitive `modulus`-th root of unity raised to `index`, turning
    /// the way a forward transform does if `forward` holds and the opposite
    /// way otherwise.
    Root { index: usize, modulus: usize, forward: bool },
}

impl Twiddle {
    /// The same coefficient turning the other way.
    pub open spec fn conjugate(self) -> Twiddle {
        match self {
            Twiddle::One => Twiddle::One,
            Twiddle::Root { index, modulus, forward } => Twiddle::Root {
                index,
                modulus,
                forward: !forward,
            },
        }
    }
}

/// The entry at `position` of the band for a sub-transform of `subsize`
/// samples: positions run group by group, `radix` entries to a group, each
/// group opening with the identity.
pub open spec fn twiddle_at(subsize: nat, radix: nat, forward: bool, position: int) -> Twiddle {
    let group = position / (radix as int);
    let branch = position % (radix as int);
    if branch == 0 {
        Twiddle::One
    } else {
        Twiddle::Root { index: (group * branch) as usize, modulus: subsize as usize, forward }
    }
}

/// The coefficients of one pass of radix `radix` over sub-transforms of
/// `subsize` samples.
pub open spec fn band(subsize: nat, radix: nat, forward: bool) -> Seq<Twiddle> {
    Seq::new(
        (subsize / radix) * radix,
        |position: int| twiddle_at(subsize, radix, forward, position),
    )
}

/// The coefficients of `iterations` passes of the same radix in a row, the
/// sub-transform shrinking by `radix` from one pass to the next. There is no
/// pass of radix 0.
pub open spec fn bands(subsize: nat, radix: nat, iterations: nat, forward: bool) -> Seq<Twiddle>
    decreases iterations,
{
    if iterations == 0 || radix == 0 {
        Seq::empty()
    } else {
        band(subsize, radix, forward) + bands(
            subsize / radix,
            radix,
            (iterations - 1) as nat,
            forward,
        )
    }
}

/// A place inside a group is found again by dividing by the radix.
pub(crate) proof fn lemma_position_split(radix: nat, group: nat, branch: nat)
    requires
        branch < radix,
    ensures
        ((group * radix + branch) as int) / (radix as int) == group,
        ((group * radix + branch) as int) % (radix as int) == branch,
{
    lemma_fundamental_div_mod_converse(
        (group * radix + branch) as int,
        radix as int,
        group as int,
        branch as int,
    );
}

/// Places of a band lie below the sub-transform's size, and so do the
/// exponents of its roots.
pub(crate) proof fn lemma_band_bounds(subsize: nat, radix: nat, group: nat, branch: nat)
    requires
        radix >= 1,
        group < subsize / radix,
        branch < radix,
    ensures
        group * radix + branch < (subsize / radix) * radix,
        (subsize / radix) * radix <= subsize,
        group * branch < subsize,
{
    let groups = subsize / radix;
    lemma_fundamental_div_mod(subsize as int, radix as int);
    assert(groups * radix <= subsize) by (nonlinear_arith)
        requires
            subsize == radix * groups + subsize % radix,
            subsize % radix >= 0,
    ;
    assert(group * radix + branch < groups * radix && group * branch < groups * radix)
        by (nonlinear_arith)
        requires
            group < groups,
            branch < radix,
    ;
}

/// The forward and the inverse tables hold the same roots, turning opposite
/// ways.
pub proof fn lemma_bands_conjugate(subsize: nat, radix: nat, iterations: nat, position: int)
    requires
        0 <= position < bands(subsize, radix, iterations, true).len(),
    ensures
        bands(subsize, radix, iterations, false).len() == bands(
            subsize,
            radix,
            iterations,
            true,
        ).len(),
        bands(subsize, radix, iterations, false)[position] == bands(
            subsize,
            radix,
            iterations,
            true,
        )[position].conjugate(),
    decreases iterations,
{
    lemma_bands_len_direction(subsize, radix, iterations);
    if iterations > 0 && radix > 0 {
        let first = band(subsize, radix, true);
        let mirror = band(subsize, radix, false);
        let rest = bands(subsize / radix, radix, (iterations - 1) as nat, true);
        let mirror_rest = bands(subsize / radix, radix, (iterations - 1) as nat, false);
        assert(bands(subsize, radix, iterations, true) == first + rest);
        assert(bands(subsize, radix, iterations, false) == mirror + mirror_rest);
        assert(first.len() == mirror.len());
        if position >= first.len() {
            lemma_bands_conjugate(
                subsize / radix,
                radix,
                (iterations - 1) as nat,
                position - first.len(),
            );
        } else {
            assert(mirror[position] == first[position].conjugate());
        }
    }
}

/// The length of a table does not depend on the direction.
pub proof fn lemma_bands_len_direction(subsize: nat, radix: nat, iterations: nat)
    ensures
        bands(subsize, radix, iterations, false).len() == bands(
            subsize,
            radix,
            iterations,
            true,
        ).len(),
    decreases iterations,
{
    if iterations > 0 && radix > 0 {
        lemma_bands_len_direction(subsize / radix, radix, (iterations - 1) as nat);
        assert(bands(subsize, radix, iterations, true) == band(subsize, radix, true) + bands(
            subsize / radix,
            radix,
            (iterations - 1) as nat,
            true,
        ));
        assert(bands(subsize, radix, iterations, false) == band(subsize, radix, false) + bands(
            subsize / radix,
            radix,
            (iterations - 1) as nat,
            false,
        ));
        assert(band(subsize, radix, true).len() == band(subsize, radix, false).len());
    }
}

/// Appends to both tables the coefficients of `iterations` passes of radix
/// `radix`, the first of them over sub-transforms of `size` samples.
pub fn extend_twiddles(
    forward_twiddles: &mut Vec<Twiddle>,
    reverse_twiddles: &mut Vec<Twiddle>,
    size: usize,
    radix: usize,
    iterations: usize,
)
    requires
        radix >= 1,
    ensures
        final(forward_twiddles)@ == old(forward_twiddles)@ + bands(
            size as nat,
            radix as nat,
            iterations as nat,
            true,
        ),
        final(reverse_twiddles)@ == old(reverse_twiddles)@ + bands(
            size as nat,
            radix as nat,
            iterations as nat,
            false,
        ),
{
    let mut subsize: usize = size;
    let mut iteration: usize = 0;
    while iteration < iterations
        invariant
            radix >= 1,
            iteration <= iterations,
            forward_twiddles@ + bands(
                subsize as nat,
                radix as nat,
                (iterations - iteration) as nat,
                true,
            ) == old(forward_twiddles)@ + bands(
                size as nat,
                radix as nat,
                iterations as nat,
                true,
            ),
            reverse_twiddles@ + bands(
                subsize as nat,
                radix as nat,
                (iterations - iteration) as nat,
                false,
            ) == old(reverse_twiddles)@ + bands(
                size as nat,
                radix as nat,
                iterations as nat,
                false,
            ),
        decreases iterations - iteration,
    {
        let groups: usize = subsize / radix;
        let ghost forward_before = forward_twiddles@;
        let ghost reverse_before = reverse_twiddles@;
        let ghost forward_band = band(subsize as nat, radix as nat, true);
        let ghost reverse_band = band(subsize as nat, radix as nat, false);
        let mut group: usize = 0;
        while group < groups
            invariant
                radix >= 1,
                groups == subsize / radix,
                group <= groups,
                forward_band == band(subsize as nat, radix as nat, true),
                reverse_band == band(subsize as nat, radix as nat, false),
                forward_twiddles@ == forward_before + forward_band.take(group * radix),
                reverse_twiddles@ == reverse_before + reverse_band.take(group * radix),
            decreases groups - group,
        {
            proof {
                lemma_band_bounds(subsize as nat, radix as nat, group as nat, 0);
                lemma_position_split(radix as nat, group as nat, 0);
            }
            forward_twiddles.push(Twiddle::One);
            reverse_twiddles.push(Twiddle::One);
            assert(forward_twiddles@ == forward_before + forward_band.take(group * radix + 1));
            assert(reverse_twiddles@ == reverse_before + reverse_band.take(group * radix + 1));
            let mut branch: usize = 1;
            while branch < radix
                invariant
                    radix >= 1,
                    groups == subsize / radix,
                    group < groups,
                    1 <= branch <= radix,
                    forward_band == band(subsize as nat, radix as nat, true),
                    reverse_band == band(subsize as nat, radix as nat, false),
                    forward_twiddles@ == forward_before + forward_band.take(
                        group * radix + branch,
                    ),
                    reverse_twiddles@ == reverse_before + reverse_band.take(
                        group * radix + branch,
                    ),
                decreases radix - branch,
            {
                proof {
                    lemma_band_bounds(subsize as nat, radix as nat, group as nat, branch as nat);
                    lemma_position_split(radix as nat, group as nat, branch as nat);
                }
                let index: usize = group * branch;
                forward_twiddles.push(Twiddle::Root { index, modulus: subsize, forward: true });
                reverse_twiddles.push(Twiddle::Root { index, modulus: subsize, forward: false });
                assert(forward_twiddles@ == forward_before + forward_band.take(
                    group * radix + branch + 1,
                ));
                assert(reverse_twiddles@ == reverse_before + reverse_band.take(
                    group * radix + branch + 1,
                ));
                branch = branch + 1;
            }
            proof {
                assert(group * radix + radix == (group + 1) * radix) by (nonlinear_arith);
            }
            group = group + 1;
        }
        proof {
            assert(forward_band.take(groups * radix) == forward_band);
            assert(reverse_band.take(groups * radix) == reverse_band);
            let left: nat = (iterations - iteration) as nat;
            assert(bands(subsize as nat, radix as nat, left, true) == forward_band + bands(
                subsize as nat / radix as nat,
                radix as nat,
                (left - 1) as nat,
                true,
            ));
            assert(bands(subsize as nat, radix as nat, left, false) == reverse_band + bands(
                subsize as nat / radix as nat,
                radix as nat,
                (left - 1) as nat,
                false,
            ));
            assert(forward_twiddles@ + bands(
                subsize as nat / radix as nat,
                radix as nat,
                (left - 1) as nat,
                true,
            ) == forward_before + bands(subsize as nat, radix as nat, left, true));
            assert(reverse_twiddles@ + bands(
                subsize as nat / radix as nat,
                radix as nat,
                (left - 1) as nat,
                false,
            ) == reverse_before + bands(subsize as nat, radix as nat, left, false));
        }
        subsize = subsize / radix;
        iteration = iteration + 1;
    }
}

} // verus!
