//! Gradients: the colours between two endpoints, in a fixed number of steps.

use vstd::prelude::*;
use vstd::std_specs::iter::IteratorSpec;
use crate::color::{blend_channels, channels_of, lemma_blend_all_on_second, Channels, RGB};
use crate::raster::{is_banded, render_bands, Raster, RenderError};
use crate::weight::{
    binary64_ratio, lemma_ratio_of_equals, lemma_ratio_of_zero, one, ratio_weight, Scalar, Weight,
};

verus! {

/// The width in pixels of the image of a gradient.
pub const IMAGE_WIDTH: u32 = 600;

/// The weight on the start colour at position `i` of `steps`: the binary64
/// quotient `i / steps`.
pub open spec fn start_weight(steps: nat, i: int) -> Scalar {
    binary64_ratio(i as nat, steps)
}

/// The weight on the end colour at position `i` of `steps`: the binary64
/// quotient `(steps - i) / steps`.
pub open spec fn end_weight(steps: nat, i: int) -> Scalar {
    binary64_ratio((steps - i) as nat, steps)
}

/// The sample at position `i` of a gradient of `steps` samples: the start
/// colour weighted `i / steps` plus the end colour weighted
/// `(steps - i) / steps`, all in binary64, each product cut down to a byte.
pub open spec fn gradient_sample(start: Channels, end: Channels, steps: nat, i: int) -> Channels {
    blend_channels(start, end, start_weight(steps, i), end_weight(steps, i))
}

/// All samples of a gradient, in order.
pub open spec fn gradient_samples(start: Channels, end: Channels, steps: nat) -> Seq<Channels> {
    Seq::new(steps, |i: int| gradient_sample(start, end, steps, i))
}

/// What a [`Gradient`] was made from.
pub struct GradientView {
    pub start: Channels,
    pub end: Channels,
    pub steps: nat,
}

impl GradientView {
    /// The samples of the gradient, in order.
    pub open spec fn samples(self) -> Seq<Channels> {
        gradient_samples(self.start, self.end, self.steps)
    }
}

/// A sequence of colours between two endpoints. The first sample is the end
/// colour; the samples after it lean more and more towards the start colour
/// and stop one step short of it.
pub struct Gradient {
    gradient: Vec<RGB>,
    start: RGB,
    end: RGB,
    steps: usize,
}

impl View for Gradient {
    type V = GradientView;

    closed spec fn view(&self) -> GradientView {
        GradientView { start: self.start@, end: self.end@, steps: self.steps as nat }
    }
}

impl Gradient {
    /// The stored samples are those that the endpoints and the step count
    /// determine.
    #[verifier::type_invariant]
    spec fn wf(&self) -> bool {
        channels_of(self.gradient@) == self@.samples()
    }

    /// The gradient of `steps` samples between `start` and `end`.
    pub fn new(start: RGB, end: RGB, steps: usize) -> (g: Self)
        ensures
            g@ == (GradientView { start: start@, end: end@, steps: steps as nat }),
    {
        Self { gradient: Self::generate_gradient(start, end, steps), start, end, steps }
    }

    /// The samples of the gradient of `steps` samples between `start` and
    /// `end`.
    pub fn generate_gradient(start: RGB, end: RGB, steps: usize) -> (gradient: Vec<RGB>)
        ensures
            gradient@.len() == steps,
            channels_of(gradient@) == gradient_samples(start@, end@, steps as nat),
    {
        let mut gradient: Vec<RGB> = Vec::new();
        let mut idx: usize = 0;
        while idx < steps
            invariant
                idx <= steps,
                gradient@.len() == idx,
                forall|i: int|
                    0 <= i < idx ==> (#[trigger] gradient@[i])@ == gradient_sample(
                        start@,
                        end@,
                        steps as nat,
                        i,
                    ),
            decreases steps - idx,
        {
            let a = Weight::ratio(idx, steps);
            let b = Weight::ratio(steps - idx, steps);
            gradient.push(start * a + end * b);
            idx += 1;
        }
        assert(channels_of(gradient@) =~= gradient_samples(start@, end@, steps as nat));
        gradient
    }

    /// The gradient as an image [`IMAGE_WIDTH`] pixels wide, with one row
    /// per sample, from the first sample at the top: every pixel of a row
    /// has the colour of that row's sample.
    pub fn generate_image(&self) -> (out: Result<Raster, RenderError>)
        ensures
            self@.steps > u32::MAX ==> out == Err::<Raster, RenderError>(RenderError::TooManyRows),
            self@.steps <= u32::MAX && 3 * IMAGE_WIDTH * self@.steps > isize::MAX ==> out == Err::<
                Raster,
                RenderError,
            >(RenderError::TooLarge),
            self@.steps <= u32::MAX && 3 * IMAGE_WIDTH * self@.steps <= isize::MAX ==> out is Ok
                && is_banded(out->Ok_0, IMAGE_WIDTH as nat, self@.samples()),
    {
        proof {
            use_type_invariant(self);
            assert(channels_of(self.gradient@).len() == self@.samples().len());
        }
        render_bands(&self.gradient, IMAGE_WIDTH)
    }

    /// The colour that the gradient was made to start from.
    pub fn start(&self) -> (c: RGB)
        ensures
            c@ == self@.start,
    {
        self.start
    }

    /// The colour that the gradient was made to end at.
    pub fn end(&self) -> (c: RGB)
        ensures
            c@ == self@.end,
    {
        self.end
    }

    /// The number of samples.
    pub fn steps(&self) -> (n: usize)
        ensures
            n == self@.steps,
    {
        self.steps
    }

    /// The samples, in order.
    pub fn as_slice(&self) -> (colors: &[RGB])
        ensures
            colors@.len() == self@.steps,
            channels_of(colors@) == self@.samples(),
    {
        proof {
            use_type_invariant(self);
            assert(channels_of(self.gradient@).len() == self@.samples().len());
        }
        self.gradient.as_slice()
    }
}

impl IntoIterator for Gradient {
    type Item = RGB;

    type IntoIter = std::vec::IntoIter<RGB>;

    /// Hands the samples over, in order.
    fn into_iter(self) -> (iter: std::vec::IntoIter<RGB>)
        ensures
            channels_of(iter.remaining()) == self@.samples(),
    {
        proof {
            use_type_invariant(&self);
        }
        self.gradient.into_iter()
    }
}

/// A gradient has as many samples as it has steps.
pub proof fn lemma_sample_count(start: Channels, end: Channels, steps: nat)
    ensures
        gradient_samples(start, end, steps).len() == steps,
{
}

/// The first sample of a gradient is its end colour: at position zero the
/// weight on the start is zero and the weight on the end is one.
pub proof fn lemma_first_sample_is_end(start: Channels, end: Channels, steps: nat)
    requires
        steps > 0,
    ensures
        start_weight(steps, 0) == Scalar::Finite(ratio_weight(0, steps)),
        ratio_weight(0, steps).mantissa == 0,
        end_weight(steps, 0) == Scalar::Finite(one()),
        gradient_samples(start, end, steps)[0] == end,
{
    lemma_ratio_of_zero(steps);
    lemma_ratio_of_equals(steps);
    lemma_blend_all_on_second(start, end, ratio_weight(0, steps), ratio_weight(steps, steps));
}

/// The last sample of a gradient is the blend with the binary64 weight
/// `(steps - 1) / steps` on the start colour and `1 / steps` on the end
/// colour.
pub proof fn lemma_last_sample(start: Channels, end: Channels, steps: nat)
    requires
        steps > 0,
    ensures
        gradient_samples(start, end, steps)[steps - 1] == blend_channels(
            start,
            end,
            Scalar::Finite(ratio_weight((steps - 1) as nat, steps)),
            Scalar::Finite(ratio_weight(1, steps)),
        ),
{
}

} // verus!
