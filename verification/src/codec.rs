//! Codec identities and their registered names.

use vstd::prelude::*;
use crate::text::text_of;

verus! {

/// The identifier of a codec, as `symphonia` declares it. Its inside is not
/// visible here: a value is carried from the probe to the registry.
#[verifier::external_type_specification]
#[verifier::external_body]
pub struct ExCodecType(symphonia::core::codecs::CodecType);

/// The short name under which the default codec registry of `symphonia`
/// holds a codec, if it holds it.
pub uninterp spec fn registered_short_name(codec: symphonia::core::codecs::CodecType) -> Option<Seq<char>>;

/// Looks a codec up in the default registry of `symphonia`, with
/// `symphonia::default::get_codecs` and `CodecRegistry::get_codec`.
///
/// Trusted: the result is the short name of the descriptor that the registry
/// holds for the codec, and absent where it holds none. The registry is
/// filled once, with the codecs that `symphonia` was built with, so the
/// result depends on the codec alone.
#[verifier::external_body]
pub(crate) fn codec_short_name(codec: symphonia::core::codecs::CodecType) -> (r: Option<String>)
    ensures
        text_of(r) == registered_short_name(codec),
{
    symphonia::default::get_codecs().get_codec(codec).map(|d| d.short_name.to_string())
}

} // verus!
