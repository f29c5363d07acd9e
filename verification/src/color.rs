//! RGBA colours and the integer blend that accumulates them.

use vstd::prelude::*;

verus! {

/// An RGBA colour with eight bits per channel.
#[derive(Copy, Clone, Debug, PartialEq, Eq, Structural)]
pub struct Color {
    pub r: u8,
    pub g: u8,
    pub b: u8,
    pub a: u8,
}

/// One channel of a blend: a third of the surface's own value plus two
/// thirds of the previous value, each third rounded down before it is used.
pub open spec fn blend_channel_spec(own: u8, previous: u8) -> u8 {
    (own as int / 3 + (previous as int / 3) * 2) as u8
}

/// Blends one channel. The sum is at most `85 + 170`, so it always fits.
#[verifier::when_used_as_spec(blend_channel_spec)]
pub fn blend_channel(own: u8, previous: u8) -> (mixed: u8)
    ensures
        mixed == blend_channel_spec(own, previous),
        mixed as int == own as int / 3 + (previous as int / 3) * 2,
{
    own / 3 + (previous / 3) * 2
}

impl Color {
    /// The colour of a surface with colour `self` seen after `previous` was
    /// accumulated: every channel is blended on its own.
    pub open spec fn blend_spec(self, previous: Color) -> Color {
        Color {
            r: blend_channel_spec(self.r, previous.r),
            g: blend_channel_spec(self.g, previous.g),
            b: blend_channel_spec(self.b, previous.b),
            a: blend_channel_spec(self.a, previous.a),
        }
    }

    /// Blends `self`, the colour of the surface just hit, with `previous`.
    #[verifier::when_used_as_spec(blend_spec)]
    pub fn blend(self, previous: Color) -> (mixed: Color)
        ensures
            mixed == self.blend_spec(previous),
    {
        Color {
            r: blend_channel(self.r, previous.r),
            g: blend_channel(self.g, previous.g),
            b: blend_channel(self.b, previous.b),
            a: blend_channel(self.a, previous.a),
        }
    }

    /// The accumulated colour after a hit on a surface of colour `self`.
    /// Before the first hit nothing has been accumulated, and the surface's
    /// own colour stands in for the previous one.
    pub open spec fn accumulate_spec(self, accumulated: Option<Color>) -> Color {
        match accumulated {
            Some(previous) => self.blend_spec(previous),
            None => self.blend_spec(self),
        }
    }

    /// Folds a hit on a surface of colour `self` into what was accumulated.
    #[verifier::when_used_as_spec(accumulate_spec)]
    pub fn accumulate(self, accumulated: Option<Color>) -> (mixed: Color)
        ensures
            mixed == self.accumulate_spec(accumulated),
    {
        match accumulated {
            Some(previous) => self.blend(previous),
            None => self.blend(self),
        }
    }

    /// The four channels in the order in which they are stored in a frame.
    pub open spec fn channels_spec(self) -> Seq<u8> {
        seq![self.r, self.g, self.b, self.a]
    }

    /// The four channels as bytes: red, green, blue, alpha.
    pub fn channels(self) -> (bytes: [u8; 4])
        ensures
            bytes@ == self.channels_spec(),
    {
        let bytes = [self.r, self.g, self.b, self.a];
        assert(bytes@ =~= self.channels_spec());
        bytes
    }
}

/// A blend never leaves the range of a channel, whatever goes in: the two
/// parts are at most 85 and 170, so the sum is a channel value as it stands.
pub proof fn lemma_blend_channel_exact(own: u8, previous: u8)
    ensures
        own as int / 3 + (previous as int / 3) * 2 <= 255,
        blend_channel_spec(own, previous) as int == own as int / 3 + (previous as int / 3) * 2,
{
}

/// Blending a channel with itself loses exactly its remainder modulo three.
pub proof fn lemma_blend_with_self(own: u8)
    ensures
        blend_channel_spec(own, own) as int == own as int - own as int % 3,
{
}

/// The first hit of a trace blends the surface with itself, so it yields
/// each channel rounded down to a multiple of three.
pub proof fn lemma_first_hit_color(own: Color)
    ensures
        own.accumulate_spec(None) == own.blend_spec(own),
        own.accumulate_spec(None).r as int == own.r as int - own.r as int % 3,
        own.accumulate_spec(None).g as int == own.g as int - own.g as int % 3,
        own.accumulate_spec(None).b as int == own.b as int - own.b as int % 3,
        own.accumulate_spec(None).a as int == own.a as int - own.a as int % 3,
{
    lemma_blend_with_self(own.r);
    lemma_blend_with_self(own.g);
    lemma_blend_with_self(own.b);
    lemma_blend_with_self(own.a);
}

} // verus!
