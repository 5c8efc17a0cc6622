//! The audio file extensions that a listing admits.

use vstd::prelude::*;
use vstd::utf8::is_ascii_chars;
use crate::text::{ascii_lowercased, chars_of, lowercase, lowercased};

verus! {

/// Whether a lowercase extension is one of the admitted audio extensions.
pub open spec fn is_audio_extension(ext: Seq<char>) -> bool {
    ||| ext == "mp3"@
    ||| ext == "flac"@
    ||| ext == "wav"@
    ||| ext == "aiff"@
    ||| ext == "aif"@
    ||| ext == "m4a"@
    ||| ext == "aac"@
    ||| ext == "ogg"@
    ||| ext == "wma"@
    ||| ext == "alac"@
    ||| ext == "opus"@
    ||| ext == "wv"@
}

/// Whether the characters `chars` spell the text `word`.
pub fn spells(chars: &Vec<char>, word: &str) -> (r: bool)
    ensures
        r == (chars@ == word@),
{
    let other = chars_of(word);
    if chars.len() != other.len() {
        return false;
    }
    let mut i: usize = 0;
    while i < chars.len()
        invariant
            i <= chars.len(),
            chars.len() == other.len(),
            other@ == word@,
            forall|j: int| 0 <= j < i ==> chars@[j] == other@[j],
        decreases chars.len() - i,
    {
        if chars[i] != other[i] {
            return false;
        }
        i += 1;
    }
    assert(chars@ =~= word@);
    true
}

/// Whether `ext`, in any letter case, is an admitted audio extension.
pub fn is_audio_file(ext: &str) -> (r: bool)
    ensures
        r == is_audio_extension(lowercased(ext@)),
        is_ascii_chars(ext@) ==> r == is_audio_extension(ascii_lowercased(ext@)),
{
    let lower = lowercase(ext);
    let chars = chars_of(lower.as_str());
    spells(&chars, "mp3") || spells(&chars, "flac") || spells(&chars, "wav") || spells(
        &chars,
        "aiff",
    ) || spells(&chars, "aif") || spells(&chars, "m4a") || spells(&chars, "aac") || spells(
        &chars,
        "ogg",
    ) || spells(&chars, "wma") || spells(&chars, "alac") || spells(&chars, "opus") || spells(
        &chars,
        "wv",
    )
}

} // verus!
