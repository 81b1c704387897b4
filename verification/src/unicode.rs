//! Normalization of words to canonical lookup keys: compatibility
//! decomposition, removal of control and whitespace code points, and
//! lowercasing.
//!
//! All-ASCII input is normalized by verified code; other input goes
//! through the outside Unicode tables.

use vstd::prelude::*;
use unicode_normalization::UnicodeNormalization;
use crate::text::all_ascii;
use crate::text::ascii_char;
use crate::text::is_ascii_char;
use crate::text::is_ctrl_char;
use crate::text::is_space_char;
use crate::text::ctrl_char;
use crate::text::space_char;

verus! {

/// The NFKD (compatibility) decomposition of a character sequence.
pub uninterp spec fn nfkd_of(s: Seq<char>) -> Seq<char>;

/// The Unicode lowercase mapping of a character sequence, as
/// `str::to_lowercase` computes it.
pub uninterp spec fn lower_of(s: Seq<char>) -> Seq<char>;

/// A code point that normalization keeps: neither control nor whitespace.
pub open spec fn keep_char(c: char) -> bool {
    !is_ctrl_char(c) && !is_space_char(c)
}

/// The sequence with control and whitespace code points dropped.
pub open spec fn strip_seq(s: Seq<char>) -> Seq<char> {
    s.filter(|c: char| keep_char(c))
}

/// ASCII lowercasing of one code point.
pub open spec fn ascii_lower_char(c: char) -> char {
    if 0x41 <= c as u32 && c as u32 <= 0x5a {
        ((c as u32) + 32) as char
    } else {
        c
    }
}

/// ASCII uppercasing of one code point.
pub open spec fn ascii_upper_char(c: char) -> char {
    if 0x61 <= c as u32 && c as u32 <= 0x7a {
        ((c as u32) - 32) as char
    } else {
        c
    }
}

pub open spec fn ascii_lower_seq(s: Seq<char>) -> Seq<char> {
    s.map_values(|c: char| ascii_lower_char(c))
}

pub open spec fn ascii_upper_seq(s: Seq<char>) -> Seq<char> {
    s.map_values(|c: char| ascii_upper_char(c))
}

/// The canonical lookup key of a word: compatibility decomposition,
/// control and whitespace dropped, lowercased. On all-ASCII input the
/// decomposition is the identity and lowercasing is the ASCII one.
pub open spec fn normal_of(s: Seq<char>) -> Seq<char> {
    if all_ascii(s) {
        ascii_lower_seq(strip_seq(s))
    } else {
        lower_of(strip_seq(nfkd_of(s)))
    }
}

proof fn lemma_upper_char_ascii(c: char)
    requires
        is_ascii_char(c),
    ensures
        is_ascii_char(ascii_upper_char(c)),
        keep_char(ascii_upper_char(c)) == keep_char(c),
        ascii_lower_char(ascii_upper_char(c)) == ascii_lower_char(c),
{
    if 0x61 <= c as u32 && c as u32 <= 0x7a {
        let u = ascii_upper_char(c);
        assert(u as u32 == c as u32 - 32);
        assert(ascii_lower_char(u) as u32 == c as u32);
        assert(ascii_lower_char(u) == c);
    }
}

proof fn lemma_strip_upper(s: Seq<char>)
    requires
        all_ascii(s),
    ensures
        strip_seq(ascii_upper_seq(s)) == ascii_upper_seq(strip_seq(s)),
    decreases s.len(),
{
    if s.len() == 0 {
        assert(ascii_upper_seq(s) =~= Seq::<char>::empty());
        assert(strip_seq(Seq::<char>::empty()) =~= Seq::<char>::empty());
        assert(strip_seq(ascii_upper_seq(s)) =~= ascii_upper_seq(strip_seq(s)));
    } else {
        let s0 = s.drop_last();
        let c = s.last();
        assert(all_ascii(s0));
        lemma_strip_upper(s0);
        lemma_upper_char_ascii(c);
        assert(s =~= s0.push(c));
        s0.lemma_filter_push(c, |x: char| keep_char(x));
        let u0 = ascii_upper_seq(s0);
        let uc = ascii_upper_char(c);
        assert(ascii_upper_seq(s) =~= u0.push(uc));
        u0.lemma_filter_push(uc, |x: char| keep_char(x));
        if keep_char(c) {
            assert(strip_seq(ascii_upper_seq(s)) == strip_seq(u0).push(uc));
            assert(strip_seq(s) == strip_seq(s0).push(c));
            assert(ascii_upper_seq(strip_seq(s)) =~= ascii_upper_seq(strip_seq(s0)).push(uc));
            assert(strip_seq(ascii_upper_seq(s)) =~= ascii_upper_seq(strip_seq(s)));
        } else {
            assert(strip_seq(ascii_upper_seq(s)) == strip_seq(u0));
            assert(strip_seq(s) == strip_seq(s0));
            assert(strip_seq(ascii_upper_seq(s)) =~= ascii_upper_seq(strip_seq(s)));
        }
    }
}

proof fn lemma_lower_char_keeps(c: char)
    requires
        is_ascii_char(c),
        keep_char(c),
    ensures
        keep_char(ascii_lower_char(c)),
        is_ascii_char(ascii_lower_char(c)),
{
    if 0x41 <= c as u32 && c as u32 <= 0x5a {
        let l = ascii_lower_char(c);
        assert(l as u32 == c as u32 + 32);
    }
}

/// Normalizing nothing yields nothing.
pub proof fn lemma_normal_of_empty()
    ensures
        normal_of(Seq::empty()) == Seq::<char>::empty(),
{
    let e = Seq::<char>::empty();
    assert(all_ascii(e));
    assert(strip_seq(e) =~= e);
    assert(ascii_lower_seq(e) =~= e);
}

/// On all-ASCII input the lookup key holds no control or whitespace code
/// point and stays ASCII. (For other input the shape of the Unicode
/// lowercase mapping is not stated.)
pub proof fn lemma_normal_of_ascii_shape(s: Seq<char>)
    requires
        all_ascii(s),
    ensures
        forall|i: int|
            0 <= i < normal_of(s).len() ==> keep_char(#[trigger] normal_of(s)[i]) && is_ascii_char(
                normal_of(s)[i],
            ),
{
    let stripped = strip_seq(s);
    assert forall|i: int|
        0 <= i < normal_of(s).len() implies keep_char(#[trigger] normal_of(s)[i]) && is_ascii_char(
        normal_of(s)[i],
    ) by {
        s.lemma_filter_pred(|x: char| keep_char(x), i);
        assert(keep_char(stripped[i]));
        assert(s.contains(stripped[i])) by {
            s.lemma_filter_contains_rev(|x: char| keep_char(x), stripped[i]);
        }
        let j = choose|j: int| 0 <= j < s.len() && s[j] == stripped[i];
        assert(is_ascii_char(stripped[i]));
        lemma_lower_char_keeps(stripped[i]);
        assert(normal_of(s)[i] == ascii_lower_char(stripped[i]));
    }
}

/// Normalization is insensitive to ASCII case: uppercasing an all-ASCII
/// word does not change its lookup key.
pub proof fn lemma_normal_of_ascii_upper(s: Seq<char>)
    requires
        all_ascii(s),
    ensures
        normal_of(ascii_upper_seq(s)) == normal_of(s),
{
    assert forall|i: int| 0 <= i < ascii_upper_seq(s).len() implies is_ascii_char(
        #[trigger] ascii_upper_seq(s)[i],
    ) by {
        lemma_upper_char_ascii(s[i]);
    }
    lemma_strip_upper(s);
    assert forall|i: int| 0 <= i < strip_seq(s).len() implies ascii_lower_char(
        #[trigger] ascii_upper_seq(strip_seq(s))[i],
    ) == ascii_lower_char(strip_seq(s)[i]) by {
        s.lemma_filter_pred(|x: char| keep_char(x), i);
        assert(s.contains(strip_seq(s)[i])) by {
            s.lemma_filter_contains_rev(|x: char| keep_char(x), strip_seq(s)[i]);
        }
        let j = choose|j: int| 0 <= j < s.len() && s[j] == strip_seq(s)[i];
        lemma_upper_char_ascii(strip_seq(s)[i]);
    }
    assert(ascii_lower_seq(ascii_upper_seq(strip_seq(s))) =~= ascii_lower_seq(strip_seq(s)));
    assert(normal_of(ascii_upper_seq(s)) == ascii_lower_seq(strip_seq(ascii_upper_seq(s))));
}

/// Relies on unicode_normalization's `nfkd` iterator adapter: the
/// compatibility decomposition of a character sequence is a function of
/// its code points alone.
#[verifier::external_body]
pub(crate) fn nfkd_chars(v: &Vec<char>) -> (r: Vec<char>)
    ensures
        r@ == nfkd_of(v@),
{
    v.iter().copied().nfkd().collect()
}

/// Relies on `str::to_lowercase`: the Unicode lowercase mapping of a
/// string is a function of its code points alone.
#[verifier::external_body]
pub(crate) fn lowercase_chars(v: &Vec<char>) -> (r: Vec<char>)
    ensures
        r@ == lower_of(v@),
{
    let s: String = v.iter().collect();
    s.to_lowercase().chars().collect()
}

/// Relies on `String`'s `FromIterator<char>` impl: collecting characters
/// yields a string of exactly those characters.
#[verifier::external_body]
pub(crate) fn string_of_chars(v: &Vec<char>) -> (r: String)
    ensures
        r@ == v@,
{
    v.iter().collect()
}

pub fn all_ascii_chars(v: &Vec<char>) -> (r: bool)
    ensures
        r == all_ascii(v@),
{
    let mut i: usize = 0;
    while i < v.len()
        invariant
            i <= v@.len(),
            forall|j: int| 0 <= j < i ==> is_ascii_char(#[trigger] v@[j]),
        decreases v@.len() - i,
    {
        if !ascii_char(v[i]) {
            return false;
        }
        i = i + 1;
    }
    true
}

fn ascii_lower_char_exec(c: char) -> (r: char)
    ensures
        r == ascii_lower_char(c),
{
    match c {
        'A' => 'a',
        'B' => 'b',
        'C' => 'c',
        'D' => 'd',
        'E' => 'e',
        'F' => 'f',
        'G' => 'g',
        'H' => 'h',
        'I' => 'i',
        'J' => 'j',
        'K' => 'k',
        'L' => 'l',
        'M' => 'm',
        'N' => 'n',
        'O' => 'o',
        'P' => 'p',
        'Q' => 'q',
        'R' => 'r',
        'S' => 's',
        'T' => 't',
        'U' => 'u',
        'V' => 'v',
        'W' => 'w',
        'X' => 'x',
        'Y' => 'y',
        'Z' => 'z',
        _ => c,
    }
}

/// The sequence with control and whitespace code points removed.
pub fn strip_chars(v: &Vec<char>) -> (r: Vec<char>)
    ensures
        r@ == strip_seq(v@),
{
    let mut out: Vec<char> = Vec::new();
    let mut i: usize = 0;
    while i < v.len()
        invariant
            i <= v@.len(),
            out@ == strip_seq(v@.subrange(0, i as int)),
        decreases v@.len() - i,
    {
        let c = v[i];
        proof {
            assert(v@.subrange(0, i + 1 as int) =~= v@.subrange(0, i as int).push(v@[i as int]));
            v@.subrange(0, i as int).lemma_filter_push(v@[i as int], |x: char| keep_char(x));
        }
        if !ctrl_char(c) && !space_char(c) {
            out.push(c);
        }
        i = i + 1;
    }
    proof {
        assert(v@.subrange(0, v@.len() as int) =~= v@);
    }
    out
}

/// The full normalization pipeline on a character vector.
pub fn normalize_chars(v: &Vec<char>) -> (r: Vec<char>)
    ensures
        r@ == normal_of(v@),
{
    if all_ascii_chars(v) {
        let stripped = strip_chars(v);
        let mut out: Vec<char> = Vec::new();
        let mut i: usize = 0;
        while i < stripped.len()
            invariant
                i <= stripped@.len(),
                out@.len() == i,
                forall|j: int| 0 <= j < i ==> out@[j] == ascii_lower_char(#[trigger] stripped@[j]),
            decreases stripped@.len() - i,
        {
            out.push(ascii_lower_char_exec(stripped[i]));
            i = i + 1;
        }
        proof {
            assert(out@ =~= ascii_lower_seq(stripped@));
        }
        out
    } else {
        let d = nfkd_chars(v);
        let kept = strip_chars(&d);
        lowercase_chars(&kept)
    }
}

} // verus!
