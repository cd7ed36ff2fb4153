//! Samples of a spectrum: values at wavelengths, both in a fixed unit.

use vstd::prelude::*;

verus! {

/// Whether a colour stands for the reflectance of a surface or for the light
/// of an illuminant.
#[derive(Clone, Copy, Debug, PartialEq, Eq, Structural)]
pub enum SpectrumType {
    /// Surface reflectance.
    Reflectance,
    /// Illuminant.
    Illuminant,
}

/// The number of spectrum types.
pub const NUM_RGB_SPECTRUM_TYPES: usize = 2;

impl SpectrumType {
    /// The type's number: 0 for reflectance, 1 for an illuminant.
    pub fn index(self) -> (i: usize)
        ensures
            i == match self {
                SpectrumType::Reflectance => 0usize,
                SpectrumType::Illuminant => 1usize,
            },
            i < NUM_RGB_SPECTRUM_TYPES,
    {
        match self {
            SpectrumType::Reflectance => 0,
            SpectrumType::Illuminant => 1,
        }
    }
}

/// The value of a spectrum at one wavelength.
#[derive(Clone, Copy, Debug, PartialEq, Eq, Structural)]
pub struct Sample {
    /// The wavelength.
    pub lambda: i64,
    /// The value there.
    pub value: i64,
}

/// The samples that a flat list of numbers holds: wavelength and value in
/// turn; a last number without a partner is left out.
pub open spec fn paired(values: Seq<i64>) -> Seq<Sample> {
    Seq::new(
        values.len() / 2,
        |k: int| Sample { lambda: values[2 * k], value: values[2 * k + 1] },
    )
}

impl Sample {
    /// The sample of `value` at the wavelength `lambda`.
    pub fn new(lambda: i64, value: i64) -> (s: Sample)
        ensures
            s == (Sample { lambda, value }),
    {
        Sample { lambda, value }
    }

    /// The samples that a flat list of numbers holds, wavelength and value in
    /// turn. A last number without a partner is left out.
    pub fn list(values: &[i64]) -> (samples: Vec<Sample>)
        ensures
            samples@ == paired(values@),
    {
        let n = values.len();
        let mut samples: Vec<Sample> = Vec::new();
        let mut i: usize = 0;
        while i + 1 < n
            invariant
                n == values.len(),
                i % 2 == 0,
                i <= n,
                samples.len() == i / 2,
                forall|k: int|
                    0 <= k < samples.len() ==> #[trigger] samples@[k] == (Sample {
                        lambda: values@[2 * k],
                        value: values@[2 * k + 1],
                    }),
            decreases n - i,
        {
            samples.push(Sample::new(values[i], values[i + 1]));
            i = i + 2;
        }
        assert(samples@ =~= paired(values@));
        samples
    }
}

/// No sample stands before one of a smaller wavelength.
pub open spec fn sorted_by_lambda(s: Seq<Sample>) -> bool {
    forall|i: int, j: int| 0 <= i < j < s.len() ==> s[i].lambda <= s[j].lambda
}

/// Whether the samples are in the order of their wavelengths.
pub fn are_spectrum_samples_sorted(samples: &Vec<Sample>) -> (b: bool)
    ensures
        b == sorted_by_lambda(samples@),
{
    let n = samples.len();
    if n < 2 {
        return true;
    }
    let mut i: usize = 0;
    while i + 1 < n
        invariant
            n == samples.len(),
            i + 1 <= n,
            forall|a: int, b: int| 0 <= a < b <= i ==> samples@[a].lambda <= samples@[b].lambda,
        decreases n - i,
    {
        if samples[i].lambda > samples[i + 1].lambda {
            return false;
        }
        i = i + 1;
    }
    true
}

/// The sample at position `a` belongs before the one at position `b`: its
/// wavelength is smaller, or the same and it came from an earlier position.
pub open spec fn precedes(out: Seq<Sample>, src: Seq<int>, a: int, b: int) -> bool {
    out[a].lambda < out[b].lambda || (out[a].lambda == out[b].lambda && src[a] < src[b])
}

/// Each sample of `out` is the sample of `inp` at the position that `src`
/// names for it.
pub open spec fn drawn(out: Seq<Sample>, inp: Seq<Sample>, src: Seq<int>) -> bool {
    &&& out.len() == inp.len()
    &&& src.len() == inp.len()
    &&& forall|i: int|
        0 <= i < out.len() ==> 0 <= #[trigger] src[i] < inp.len() && out[i] == inp[src[i]]
}

/// `out` is `inp` sorted by wavelength, samples of equal wavelength in the
/// order in which they stood: `src` tells for each position of `out` the
/// position in `inp` that its sample came from.
pub open spec fn is_stable_sort(out: Seq<Sample>, inp: Seq<Sample>, src: Seq<int>) -> bool {
    &&& drawn(out, inp, src)
    &&& forall|a: int, b: int| 0 <= a < b < out.len() ==> #[trigger] precedes(out, src, a, b)
}

/// Sorts the samples by wavelength. Samples of equal wavelength keep their
/// order.
pub fn sort_spectrum_samples(samples: &mut Vec<Sample>)
    ensures
        exists|src: Seq<int>| is_stable_sort(final(samples)@, old(samples)@, src),
        sorted_by_lambda(final(samples)@),
{
    let n = samples.len();
    let ghost mut src: Seq<int> = Seq::new(n as nat, |i: int| i);
    let mut k: usize = 0;
    while k < n
        invariant
            n == samples.len(),
            k <= n,
            drawn(samples@, old(samples)@, src),
            forall|i: int| 0 <= i < k ==> #[trigger] src[i] < k,
            forall|i: int| k <= i < n ==> #[trigger] src[i] == i,
            forall|a: int, b: int| 0 <= a < b < k ==> #[trigger] precedes(samples@, src, a, b),
        decreases n - k,
    {
        let mut j: usize = k;
        while j > 0 && samples[j - 1].lambda > samples[j].lambda
            invariant
                n == samples.len(),
                j <= k < n,
                drawn(samples@, old(samples)@, src),
                forall|i: int| 0 <= i <= k && i != j ==> #[trigger] src[i] < k,
                forall|i: int| k < i < n ==> #[trigger] src[i] == i,
                src[j as int] == k,
                forall|a: int, b: int|
                    0 <= a < b <= k && a != j && b != j ==> #[trigger] precedes(
                        samples@,
                        src,
                        a,
                        b,
                    ),
                forall|b: int|
                    j < b <= k ==> samples@[j as int].lambda < (#[trigger] samples@[b]).lambda,
            decreases j,
        {
            let ghost before = samples@;
            let ghost src_before = src;
            let prev = samples[j - 1];
            let cur = samples[j];
            samples[j - 1] = cur;
            samples[j] = prev;
            proof {
                src = src.update(j - 1, k as int).update(j as int, src_before[j - 1]);
                assert forall|a: int, b: int| 0 <= a < b <= k && a != j - 1 && b != j
                    - 1 implies #[trigger] precedes(samples@, src, a, b) by {
                    if b == j {
                        assert(precedes(before, src_before, a, j - 1));
                    } else if a == j {
                        assert(precedes(before, src_before, j - 1, b));
                    } else {
                        assert(precedes(before, src_before, a, b));
                    }
                }
                assert forall|b: int| j - 1 < b <= k implies samples@[j - 1].lambda < (
                #[trigger] samples@[b]).lambda by {
                    if b > j {
                        assert(before[j as int].lambda < before[b].lambda);
                    }
                }
            }
            j = j - 1;
        }
        proof {
            assert forall|a: int, b: int| 0 <= a < b < k + 1 implies #[trigger] precedes(
                samples@,
                src,
                a,
                b,
            ) by {
                if a == j {
                    assert(samples@[j as int].lambda < samples@[b].lambda);
                } else if b == j {
                    if a < j - 1 {
                        assert(precedes(samples@, src, a, j - 1));
                    }
                    assert(src[a] < k);
                } else {
                }
            }
            assert forall|i: int| 0 <= i < k + 1 implies #[trigger] src[i] < k + 1 by {
                if i != j {
                    assert(src[i] < k);
                }
            }
        }
        k = k + 1;
    }
    proof {
        assert(is_stable_sort(samples@, old(samples)@, src));
        assert forall|i: int, j: int| 0 <= i < j < samples@.len() implies samples@[i].lambda
            <= samples@[j].lambda by {
            assert(precedes(samples@, src, i, j));
        }
    }
}

/// The largest magnitude of a wavelength or a value of a sample that is
/// interpolated, and of a colour coordinate that is converted.
pub const SAMPLE_MAX: i64 = 0x40_0000_0000;

/// The smallest wavelength or value of a sample that is interpolated.
pub const SAMPLE_MIN: i64 = -0x40_0000_0000;

/// A value between two samples: the fraction `num / den`.
#[derive(Clone, Copy, Debug, PartialEq, Eq, Structural)]
pub struct Fraction {
    pub num: i128,
    pub den: i64,
}

/// Every sample has its wavelength and its value within the range for
/// interpolation.
pub open spec fn samples_in_range(s: Seq<Sample>) -> bool {
    forall|i: int|
        0 <= i < s.len() ==> SAMPLE_MIN <= (#[trigger] s[i]).lambda <= SAMPLE_MAX && SAMPLE_MIN
            <= s[i].value <= SAMPLE_MAX
}

/// The value at the wavelength `l` on the straight line through the samples
/// `a` and `b`.
pub open spec fn on_line(a: Sample, b: Sample, l: i64) -> Fraction {
    Fraction {
        num: (a.value * (b.lambda - l) + b.value * (l - a.lambda)) as i128,
        den: (b.lambda - a.lambda) as i64,
    }
}

/// The samples at `i` and behind it bracket the wavelength `l`.
pub open spec fn brackets(s: Seq<Sample>, i: int, l: i64) -> bool {
    0 <= i < s.len() - 1 && s[i].lambda <= l < s[i + 1].lambda
}

/// The value of the spectrum of the sorted samples `s` at the wavelength `l`:
/// the value of the first sample at or below its wavelength, that of the last
/// sample at or above its wavelength, and between two samples the value on the
/// straight line through them.
pub open spec fn interpolated(s: Seq<Sample>, l: i64, r: Fraction) -> bool {
    if l <= s[0].lambda {
        r == (Fraction { num: s[0].value as i128, den: 1 })
    } else if l >= s[s.len() - 1].lambda {
        r == (Fraction { num: s[s.len() - 1].value as i128, den: 1 })
    } else {
        exists|i: int| #[trigger] brackets(s, i, l) && r == on_line(s[i], s[i + 1], l)
    }
}

/// The value of the spectrum at the wavelength `l`, by straight lines between
/// the samples that bracket it.
pub fn interpolate_spectrum_samples(samples: &Vec<Sample>, l: i64) -> (r: Fraction)
    requires
        samples@.len() > 0,
        sorted_by_lambda(samples@),
        samples_in_range(samples@),
        SAMPLE_MIN <= l <= SAMPLE_MAX,
    ensures
        interpolated(samples@, l, r),
        r.den > 0,
{
    let n = samples.len();
    if l <= samples[0].lambda {
        return Fraction { num: samples[0].value as i128, den: 1 };
    }
    if l >= samples[n - 1].lambda {
        return Fraction { num: samples[n - 1].value as i128, den: 1 };
    }
    // the last sample at or below the wavelength, by halving
    let mut lo: usize = 0;
    let mut hi: usize = n - 1;
    while hi - lo > 1
        invariant
            0 <= lo < hi < n == samples@.len(),
            samples@[lo as int].lambda <= l < samples@[hi as int].lambda,
        decreases hi - lo,
    {
        let mid = lo + (hi - lo) / 2;
        if samples[mid].lambda <= l {
            lo = mid;
        } else {
            hi = mid;
        }
    }
    let a = samples[lo];
    let b = samples[lo + 1];
    proof {
        assert(brackets(samples@, lo as int, l));
        crate::ray::lemma_product_range(
            a.value as int,
            b.lambda - l,
            0x80_0000_0000,
        );
        crate::ray::lemma_product_range(
            b.value as int,
            l - a.lambda,
            0x80_0000_0000,
        );
    }
    let num: i128 = (a.value as i128) * ((b.lambda - l) as i128) + (b.value as i128) * ((l
        - a.lambda) as i128);
    Fraction { num, den: b.lambda - a.lambda }
}

/// The red, green and blue of the colour with the coordinates X, Y and Z, for
/// the RGB spectra of high-definition television, in millionths of the unit
/// of the coordinates.
pub open spec fn xyz_to_rgb_spec(xyz: [i64; 3]) -> (int, int, int) {
    (
        3240479 * xyz[0] - 1537150 * xyz[1] - 498535 * xyz[2],
        -969256 * xyz[0] + 1875991 * xyz[1] + 41556 * xyz[2],
        55648 * xyz[0] - 204043 * xyz[1] + 1057311 * xyz[2],
    )
}

/// The coordinates X, Y and Z of the colour with the given red, green and
/// blue, for the RGB spectra of high-definition television, in millionths of
/// the unit of the colour.
pub open spec fn rgb_to_xyz_spec(rgb: [i64; 3]) -> (int, int, int) {
    (
        412453 * rgb[0] + 357580 * rgb[1] + 180423 * rgb[2],
        212671 * rgb[0] + 715160 * rgb[1] + 72169 * rgb[2],
        19334 * rgb[0] + 119193 * rgb[1] + 950227 * rgb[2],
    )
}

/// Every coordinate of the colour is within the range for conversion.
pub open spec fn colour_in_range(c: [i64; 3]) -> bool {
    &&& SAMPLE_MIN <= c[0] <= SAMPLE_MAX
    &&& SAMPLE_MIN <= c[1] <= SAMPLE_MAX
    &&& SAMPLE_MIN <= c[2] <= SAMPLE_MAX
}

/// Converts the coordinates X, Y and Z of a colour to red, green and blue, in
/// millionths of the unit of the coordinates.
pub fn xyz_to_rgb(xyz: &[i64; 3]) -> (rgb: [i64; 3])
    requires
        colour_in_range(*xyz),
    ensures
        (rgb[0] as int, rgb[1] as int, rgb[2] as int) == xyz_to_rgb_spec(*xyz),
{
    [
        3240479 * xyz[0] - 1537150 * xyz[1] - 498535 * xyz[2],
        -969256 * xyz[0] + 1875991 * xyz[1] + 41556 * xyz[2],
        55648 * xyz[0] - 204043 * xyz[1] + 1057311 * xyz[2],
    ]
}

/// Converts red, green and blue of a colour to the coordinates X, Y and Z, in
/// millionths of the unit of the colour.
pub fn rgb_to_xyz(rgb: &[i64; 3]) -> (xyz: [i64; 3])
    requires
        colour_in_range(*rgb),
    ensures
        (xyz[0] as int, xyz[1] as int, xyz[2] as int) == rgb_to_xyz_spec(*rgb),
{
    [
        412453 * rgb[0] + 357580 * rgb[1] + 180423 * rgb[2],
        212671 * rgb[0] + 715160 * rgb[1] + 72169 * rgb[2],
        19334 * rgb[0] + 119193 * rgb[1] + 950227 * rgb[2],
    ]
}

} // verus!
