//! Character classes that drive token segmentation.
//!
//! A character is either an ASCII separator (space, tab, newline), a CJK
//! atom (one of the main Bopomofo/Han/Hangul/Hiragana/Katakana blocks, or
//! a fixed set of East Asian punctuation, or the ideographic space), or a
//! word character (anything that is neither Unicode whitespace nor a CJK
//! atom). Unicode whitespace outside the three ASCII separators is in no
//! class and is skipped by the segmenter.

use vstd::prelude::*;

verus! {

/// ASCII space, tab or newline: the characters that form separator runs.
pub open spec fn is_space_char(c: char) -> bool {
    c as u32 == 32 || c as u32 == 9 || c as u32 == 10
}

/// The Unicode White_Space characters.
pub open spec fn is_unicode_whitespace(c: char) -> bool {
    let u = c as u32;
    (9 <= u && u <= 13) || u == 32 || u == 0x85 || u == 0xA0 || u == 0x1680
        || (0x2000 <= u && u <= 0x200A) || u == 0x2028 || u == 0x2029 || u == 0x202F
        || u == 0x205F || u == 0x3000
}

/// The main blocks of the Bopomofo, Han, Hangul, Hiragana and Katakana
/// scripts.
pub open spec fn is_cjk_script(c: char) -> bool {
    let u = c as u32;
    // Bopomofo, and Bopomofo Extended
    (0x3100 <= u && u <= 0x312F) || (0x31A0 <= u && u <= 0x31BF)
    // Han: radicals, Kangxi radicals, ideographs and their extensions,
    // compatibility ideographs, and the supplementary ideographic planes
        || (0x2E80 <= u && u <= 0x2FDF) || u == 0x3005 || u == 0x3007
        || (0x3021 <= u && u <= 0x3029) || (0x3038 <= u && u <= 0x303B)
        || (0x3400 <= u && u <= 0x4DBF) || (0x4E00 <= u && u <= 0x9FFF)
        || (0xF900 <= u && u <= 0xFAFF) || (0x20000 <= u && u <= 0x3FFFF)
    // Hangul: jamo, compatibility jamo, extended jamo and syllables
        || (0x1100 <= u && u <= 0x11FF) || (0x3130 <= u && u <= 0x318F)
        || (0xA960 <= u && u <= 0xA97F) || (0xAC00 <= u && u <= 0xD7FF)
    // Hiragana
        || (0x3041 <= u && u <= 0x309F)
    // Katakana, phonetic extensions and halfwidth forms
        || (0x30A0 <= u && u <= 0x30FF) || (0x31F0 <= u && u <= 0x31FF)
        || (0xFF66 <= u && u <= 0xFF9D)
}

/// The fixed set of East Asian punctuation that is laid out one character
/// at a time, plus the ideographic space.
pub open spec fn is_cjk_punct(c: char) -> bool {
    let u = c as u32;
    u == 0x2025 || u == 0x2026 || u == 0x203B || u == 0x2500
        || (0x3000 <= u && u <= 0x3003) || (0x3008 <= u && u <= 0x3011)
        || (0x3014 <= u && u <= 0x3019) || (0x3031 <= u && u <= 0x3035)
        || u == 0x303D || u == 0x30A0 || u == 0xFF01 || u == 0xFF08 || u == 0xFF09
        || u == 0xFF0C || u == 0xFF0E || u == 0xFF1A || u == 0xFF1B || u == 0xFF1F
        || u == 0xFF3B || u == 0xFF3D || u == 0xFF5B || u == 0xFF5D || u == 0xFF5E
}

/// A character that the segmenter emits as a single-character token.
pub open spec fn is_cjk_atom(c: char) -> bool {
    is_cjk_script(c) || is_cjk_punct(c)
}

/// A character that extends a word token: neither Unicode whitespace nor
/// a CJK atom.
pub open spec fn is_word_char(c: char) -> bool {
    !is_unicode_whitespace(c) && !is_cjk_atom(c)
}

/// A character that belongs to some token class. The only characters
/// outside every class are Unicode whitespace other than the three ASCII
/// separators and the ideographic space.
pub open spec fn is_classified(c: char) -> bool {
    is_space_char(c) || is_cjk_atom(c) || is_word_char(c)
}

/// The two-character ligatures that are kept whole: a double horizontal
/// bar, and the vertical kana repeat marks with their lower halves.
pub open spec fn is_multi_pair(a: char, b: char) -> bool {
    (a as u32 == 0x2500 && b as u32 == 0x2500)  // ──
        || (a as u32 == 0x3034 && b as u32 == 0x3035)  // 〴〵
        || (a as u32 == 0x3033 && b as u32 == 0x3035)  // 〳〵
}

/// Decides `is_space_char`.
pub fn space_char(c: char) -> (r: bool)
    ensures
        r == is_space_char(c),
{
    let u = c as u32;
    u == 32 || u == 9 || u == 10
}

/// Decides `is_unicode_whitespace`.
pub fn unicode_whitespace(c: char) -> (r: bool)
    ensures
        r == is_unicode_whitespace(c),
{
    let u = c as u32;
    (9 <= u && u <= 13) || u == 32 || u == 0x85 || u == 0xA0 || u == 0x1680
        || (0x2000 <= u && u <= 0x200A) || u == 0x2028 || u == 0x2029 || u == 0x202F
        || u == 0x205F || u == 0x3000
}

/// Decides `is_cjk_atom`.
pub fn cjk_atom(c: char) -> (r: bool)
    ensures
        r == is_cjk_atom(c),
{
    let u = c as u32;
    (0x3100 <= u && u <= 0x312F) || (0x31A0 <= u && u <= 0x31BF)
        || (0x2E80 <= u && u <= 0x2FDF) || u == 0x3005 || u == 0x3007
        || (0x3021 <= u && u <= 0x3029) || (0x3038 <= u && u <= 0x303B)
        || (0x3400 <= u && u <= 0x4DBF) || (0x4E00 <= u && u <= 0x9FFF)
        || (0xF900 <= u && u <= 0xFAFF) || (0x20000 <= u && u <= 0x3FFFF)
        || (0x1100 <= u && u <= 0x11FF) || (0x3130 <= u && u <= 0x318F)
        || (0xA960 <= u && u <= 0xA97F) || (0xAC00 <= u && u <= 0xD7FF)
        || (0x3041 <= u && u <= 0x309F)
        || (0x30A0 <= u && u <= 0x30FF) || (0x31F0 <= u && u <= 0x31FF)
        || (0xFF66 <= u && u <= 0xFF9D)
        || u == 0x2025 || u == 0x2026 || u == 0x203B || u == 0x2500
        || (0x3000 <= u && u <= 0x3003) || (0x3008 <= u && u <= 0x3011)
        || (0x3014 <= u && u <= 0x3019) || (0x3031 <= u && u <= 0x3035)
        || u == 0x303D || u == 0xFF01 || u == 0xFF08 || u == 0xFF09
        || u == 0xFF0C || u == 0xFF0E || u == 0xFF1A || u == 0xFF1B || u == 0xFF1F
        || u == 0xFF3B || u == 0xFF3D || u == 0xFF5B || u == 0xFF5D || u == 0xFF5E
}

/// Decides `is_word_char`.
pub fn word_char(c: char) -> (r: bool)
    ensures
        r == is_word_char(c),
{
    !unicode_whitespace(c) && !cjk_atom(c)
}

/// Decides `is_multi_pair`.
pub fn multi_pair(a: char, b: char) -> (r: bool)
    ensures
        r == is_multi_pair(a, b),
{
    let ua = a as u32;
    let ub = b as u32;
    (ua == 0x2500 && ub == 0x2500) || (ua == 0x3034 && ub == 0x3035)
        || (ua == 0x3033 && ub == 0x3035)
}

} // verus!
