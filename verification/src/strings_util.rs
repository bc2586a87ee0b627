//! Character/byte index conversions, substrings by character range, and
//! text normalization (trimming, diacritics removal, lowercasing).

use vstd::prelude::*;

verus! {

use vstd::math::min;
use vstd::string::StrSliceExecFns;

/// Number of bytes the UTF-8 encoding of `c` takes.
pub open spec fn utf8_len_of(c: char) -> nat {
    if (c as u32) < 0x80 {
        1
    } else if (c as u32) < 0x800 {
        2
    } else if (c as u32) < 0x10000 {
        3
    } else {
        4
    }
}

/// Number of bytes the first `i` characters of `s` take in UTF-8.
pub open spec fn byte_len_upto(s: Seq<char>, i: int) -> nat
    decreases i,
{
    if i <= 0 {
        0
    } else {
        byte_len_upto(s, i - 1) + utf8_len_of(s[i - 1])
    }
}

fn char_utf8_len(c: char) -> (n: usize)
    ensures
        n == utf8_len_of(c),
{
    let u = c as u32;
    if u < 0x80 {
        1
    } else if u < 0x800 {
        2
    } else if u < 0x10000 {
        3
    } else {
        4
    }
}

/// The character index the byte offset `b` falls on in `s`: the first
/// index whose starting byte offset reaches `b`, or the character count
/// when `b` lies past the end.
pub open spec fn char_index_of(s: Seq<char>, b: nat) -> nat {
    char_index_from(s, b, 0)
}

pub open spec fn char_index_from(s: Seq<char>, b: nat, i: nat) -> nat
    decreases s.len() - i,
{
    if i >= s.len() {
        s.len()
    } else if b <= byte_len_upto(s, i as int) {
        i
    } else {
        char_index_from(s, b, i + 1)
    }
}

/// Translate a byte index into `string` to a character index.
pub fn convert_to_char_index(string: &str, byte_index: usize) -> (r: usize)
    ensures
        r == char_index_of(string@, byte_index as nat),
{
    let n = string.unicode_len();
    let mut i: usize = 0;
    let mut acc: u128 = 0;
    while i < n
        invariant
            i <= n,
            n == string@.len(),
            acc == byte_len_upto(string@, i as int),
            acc <= 4 * (i as u128),
            char_index_of(string@, byte_index as nat) == char_index_from(
                string@,
                byte_index as nat,
                i as nat,
            ),
        decreases n - i,
    {
        if (byte_index as u128) <= acc {
            return i;
        }
        let c = string.get_char(i);
        acc = acc + (char_utf8_len(c) as u128);
        i += 1;
    }
    n
}

/// Translate a character index into `string` to the byte offset where
/// that character starts (or the total byte length when past the end).
pub fn convert_to_byte_index(string: &str, char_index: usize) -> (r: usize)
    requires
        byte_len_upto(string@, string@.len() as int) <= usize::MAX,
    ensures
        r == byte_len_upto(string@, min(char_index as int, string@.len() as int)),
{
    let n = string.unicode_len();
    let stop: usize = if char_index < n {
        char_index
    } else {
        n
    };
    let mut i: usize = 0;
    let mut acc: usize = 0;
    while i < stop
        invariant
            i <= stop <= n,
            n == string@.len(),
            acc == byte_len_upto(string@, i as int),
            byte_len_upto(string@, string@.len() as int) <= usize::MAX,
        decreases stop - i,
    {
        let c = string.get_char(i);
        proof {
            lemma_byte_len_upto_mono(string@, i + 1, n as int);
        }
        acc = acc + char_utf8_len(c);
        i += 1;
    }
    acc
}

proof fn lemma_byte_len_upto_mono(s: Seq<char>, i: int, j: int)
    requires
        i <= j,
    ensures
        byte_len_upto(s, i) <= byte_len_upto(s, j),
    decreases j - i,
{
    if i < j {
        lemma_byte_len_upto_mono(s, i, j - 1);
    }
}

/// Translate a byte range into `string` to the character range covering
/// the same text.
pub fn convert_to_char_range(string: &str, range: &core::ops::Range<usize>) -> (r: core::ops::Range<
    usize,
>)
    ensures
        r.start == char_index_of(string@, range.start as nat),
        r.end == char_index_of(string@, range.end as nat),
{
    let start = convert_to_char_index(string, range.start);
    let end = convert_to_char_index(string, range.end);
    start..end
}

/// Translate a character range into `string` to the byte range covering
/// the same text.
pub fn convert_to_byte_range(string: &str, range: &core::ops::Range<usize>) -> (r: core::ops::Range<
    usize,
>)
    requires
        byte_len_upto(string@, string@.len() as int) <= usize::MAX,
    ensures
        r.start == byte_len_upto(string@, min(range.start as int, string@.len() as int)),
        r.end == byte_len_upto(string@, min(range.end as int, string@.len() as int)),
{
    let start = convert_to_byte_index(string, range.start);
    let end = convert_to_byte_index(string, range.end);
    start..end
}

/// The characters of `string` from `range.start` to `range.end`
/// (character indices, clamped to the text's length).
pub fn substring_with_char_range(string: String, range: &core::ops::Range<usize>) -> (r: String)
    requires
        range.start <= range.end,
    ensures
        r@ == string@.subrange(
            min(range.start as int, string@.len() as int),
            min(range.end as int, string@.len() as int),
        ),
{
    let s = string.as_str();
    let n = s.unicode_len();
    let from: usize = if range.start < n {
        range.start
    } else {
        n
    };
    let to: usize = if range.end < n {
        range.end
    } else {
        n
    };
    let sub = s.substring_char(from, to);
    sub.to_owned()
}

/// The first `index` characters of `string`.
pub fn prefix_until_char_index(string: String, index: usize) -> (r: String)
    ensures
        r@ == string@.subrange(0, min(index as int, string@.len() as int)),
{
    substring_with_char_range(string, &(0..index))
}

/// The characters of `string` from character index `index` on.
pub fn suffix_from_char_index(string: String, index: usize) -> (r: String)
    ensures
        r@ == string@.subrange(min(index as int, string@.len() as int), string@.len() as int),
{
    let s = string.as_str();
    let n = s.unicode_len();
    let from: usize = if index < n {
        index
    } else {
        n
    };
    let sub = s.substring_char(from, n);
    sub.to_owned()
}

} // verus!

verus! {

pub uninterp spec fn decomposition_of(c: char) -> Seq<char>;

pub uninterp spec fn is_combining_mark_of(c: char) -> bool;

pub uninterp spec fn composed_of(a: char, b: char) -> Option<char>;

pub uninterp spec fn trimmed_of(s: Seq<char>) -> Seq<char>;

pub uninterp spec fn lower_of(s: Seq<char>) -> Seq<char>;

/// Relies on unicode_normalization's decompose_canonical: the canonical
/// decomposition of a character, a function of the character alone.
#[verifier::external_body]
fn decompose_char(c: char) -> (r: Vec<char>)
    ensures
        r@ == decomposition_of(c),
        r@.len() >= 1,
{
    let mut out: Vec<char> = Vec::new();
    unicode_normalization::char::decompose_canonical(c, |x| out.push(x));
    out
}

/// Relies on unicode_normalization's is_combining_mark: whether the
/// character is a combining mark, a function of the character alone.
#[verifier::external_body]
fn is_mark(c: char) -> (r: bool)
    ensures
        r == is_combining_mark_of(c),
{
    unicode_normalization::char::is_combining_mark(c)
}

/// Relies on unicode_normalization's compose: the canonical composition
/// of two characters, a function of the two alone.
#[verifier::external_body]
fn compose_pair(a: char, b: char) -> (r: Option<char>)
    ensures
        r == composed_of(a, b),
{
    unicode_normalization::char::compose(a, b)
}

/// Relies on str::trim: leading and trailing whitespace removed, a
/// function of the text alone; trimming empty text yields empty text.
#[verifier::external_body]
fn trim_str(s: &str) -> (r: &str)
    ensures
        r@ == trimmed_of(s@),
        s@.len() == 0 ==> r@.len() == 0,
{
    s.trim()
}

/// Relies on str::to_lowercase: the lowercase mapping of the text, a
/// function of the text alone; lowercasing empty text yields empty text.
#[verifier::external_body]
pub(crate) fn lowercase_str(s: &str) -> (r: String)
    ensures
        r@ == lower_of(s@),
        s@.len() == 0 ==> r@.len() == 0,
{
    s.to_lowercase()
}

/// Relies on String::push: appends exactly the one character.
#[verifier::external_body]
pub(crate) fn push_char(s: &mut String, c: char)
    ensures
        final(s)@ == old(s)@.push(c),
{
    s.push(c)
}

/// The decomposition characters of `c` that are not combining marks,
/// among the first `i`.
pub open spec fn kept_upto(s: Seq<char>, i: int) -> Seq<char>
    decreases i,
{
    if i <= 0 {
        Seq::empty()
    } else {
        kept_upto(s, i - 1) + (if is_combining_mark_of(s[i - 1]) {
            Seq::<char>::empty()
        } else {
            seq![s[i - 1]]
        })
    }
}

/// Folding canonical composition over `s` from index `i`, starting from
/// the accumulator `acc`.
pub open spec fn fold_compose(s: Seq<char>, i: int, acc: Option<char>) -> Option<char>
    decreases s.len() - i,
{
    if i < 0 || i >= s.len() {
        acc
    } else {
        fold_compose(
            s,
            i + 1,
            match acc {
                Some(a) => composed_of(a, s[i]),
                None => None,
            },
        )
    }
}

/// What removing combining marks from one character yields: its canonical
/// decomposition with the marks dropped, recomposed left to right.
pub open spec fn marks_removed(c: char) -> Option<char> {
    let kept = kept_upto(decomposition_of(c), decomposition_of(c).len() as int);
    if kept.len() == 0 {
        None
    } else {
        fold_compose(kept, 1, Some(kept[0]))
    }
}

/// Drop the combining marks from the canonical decomposition of
/// `character` and recompose what is left.
fn remove_combination_marks(character: char) -> (r: Option<char>)
    ensures
        r == marks_removed(character),
{
    let dec = decompose_char(character);
    let mut kept: Vec<char> = Vec::new();
    let mut i: usize = 0;
    while i < dec.len()
        invariant
            i <= dec@.len(),
            dec@ == decomposition_of(character),
            kept@ == kept_upto(dec@, i as int),
        decreases dec@.len() - i,
    {
        let c = dec[i];
        if !is_mark(c) {
            kept.push(c);
            proof {
                assert(kept@ =~= kept_upto(dec@, i + 1));
            }
        } else {
            proof {
                assert(kept@ =~= kept_upto(dec@, i + 1));
            }
        }
        i += 1;
    }
    if kept.len() == 0 {
        return None;
    }
    let mut acc: Option<char> = Some(kept[0]);
    let mut j: usize = 1;
    while j < kept.len()
        invariant
            1 <= j <= kept@.len(),
            kept@ == kept_upto(decomposition_of(character), decomposition_of(character).len() as int),
            kept@.len() > 0,
            fold_compose(kept@, 1, Some(kept@[0])) == fold_compose(kept@, j as int, acc),
        decreases kept@.len() - j,
    {
        let c = kept[j];
        acc = match acc {
            Some(a) => compose_pair(a, c),
            None => None,
        };
        j += 1;
    }
    acc
}

/// `s` with each character's combining marks removed, in order; a
/// character whose decomposition was all marks disappears.
pub open spec fn diacritics_removed(s: Seq<char>) -> Seq<char>
    decreases s.len(),
{
    if s.len() == 0 {
        Seq::empty()
    } else {
        diacritics_removed(s.take(s.len() as int - 1)) + (match marks_removed(s[s.len() as int - 1]) {
            Some(c) => seq![c],
            None => Seq::<char>::empty(),
        })
    }
}

/// Remove common accentuations and diacritics: every combining mark in
/// each character's canonical decomposition is dropped.
pub fn remove_diacritics(string: &str) -> (r: String)
    ensures
        r@ == diacritics_removed(string@),
{
    let n = string.unicode_len();
    let mut out = String::new();
    let mut i: usize = 0;
    while i < n
        invariant
            i <= n,
            n == string@.len(),
            out@ == diacritics_removed(string@.take(i as int)),
        decreases n - i,
    {
        let c = string.get_char(i);
        proof {
            assert(string@.take(i + 1).take(i as int) =~= string@.take(i as int));
            assert(string@.take(i + 1)[i as int] == string@[i as int]);
        }
        match remove_combination_marks(c) {
            Some(cc) => {
                push_char(&mut out, cc);
                proof {
                    assert(out@ =~= diacritics_removed(string@.take(i + 1)));
                }
            },
            None => {
                proof {
                    assert(out@ =~= diacritics_removed(string@.take(i + 1)));
                }
            },
        }
        i += 1;
    }
    proof {
        assert(string@.take(n as int) =~= string@);
    }
    out
}

/// What `normalize` yields: the text trimmed, its diacritics removed, and
/// the result lowercased.
pub open spec fn normalized_of(s: Seq<char>) -> Seq<char> {
    lower_of(diacritics_removed(trimmed_of(s)))
}

/// Apply the following normalization successively: trim, remove
/// diacritics, lowercase.
pub fn normalize(string: &str) -> (r: String)
    ensures
        r@ == normalized_of(string@),
{
    let trimmed = trim_str(string);
    let cleaned = remove_diacritics(trimmed);
    lowercase_str(cleaned.as_str())
}

} // verus!
