//! Tokens produced from raw text, word/symbol tokenization, and n-gram
//! computation over token slices.

use vstd::prelude::*;

verus! {

use vstd::math::min;
use vstd::std_specs::cmp::PartialEqSpec;
use vstd::string::StrSliceExecFns;
use vstd::string::StringExecFns;
use crate::language::Language;
use crate::strings_util::convert_to_char_range;
use crate::strings_util::normalize;
use crate::strings_util::normalized_of;
use crate::strings_util::convert_to_char_index;
use crate::strings_util::char_index_of;
use crate::range::ranges_overlap;

/// A token of the input text: its verbatim value, its byte range and its
/// character range, plus a lazily-filled cache of its normalized form.
#[derive(Debug)]
pub struct Token {
    pub value: String,
    pub range: core::ops::Range<usize>,
    pub char_range: core::ops::Range<usize>,
    pub normalized: Option<String>,
}

impl Token {
    /// Create a token with an empty normalization cache.
    pub fn new(value: String, range: core::ops::Range<usize>, char_range: core::ops::Range<usize>) -> (t:
        Token)
        ensures
            t.value@ == value@,
            t.range == range,
            t.char_range == char_range,
            t.cached_normalized() is None,
    {
        Token { value, range, char_range, normalized: None }
    }

    /// The cached normalized form, if `normalized_value` has filled it.
    pub open spec fn cached_normalized(&self) -> Option<String> {
        self.normalized
    }

    /// Read the cached normalized form.
    pub fn normalized_cache(&self) -> (r: &Option<String>)
        ensures
            *r == self.cached_normalized(),
    {
        &self.normalized
    }

    /// The token's normalized value, computed on first use and cached.
    pub fn normalized_value(&mut self) -> (r: String)
        ensures
            r@ == (match old(self).cached_normalized() {
                Some(c) => c@,
                None => normalized_of(old(self).value@),
            }),
            final(self).cached_normalized() == Some(r),
            final(self).value == old(self).value,
            final(self).range == old(self).range,
            final(self).char_range == old(self).char_range,
    {
        match &self.normalized {
            Some(n) => {
                let r = n.clone();
                self.normalized = Some(r.clone());
                r
            },
            None => {
                let r = normalize(self.value.as_str());
                self.normalized = Some(r.clone());
                r
            },
        }
    }
}

impl PartialEq for Token {
    fn eq(&self, other: &Token) -> (r: bool)
        ensures
            r == (self.value@ == other.value@ && self.range.start == other.range.start
                && self.range.end == other.range.end && self.char_range.start
                == other.char_range.start && self.char_range.end == other.char_range.end && (match (
                self.normalized,
                other.normalized,
            ) {
                (Some(a), Some(b)) => a@ == b@,
                (None, None) => true,
                _ => false,
            })),
    {
        let ranges_eq = self.range.start == other.range.start && self.range.end == other.range.end
            && self.char_range.start == other.char_range.start && self.char_range.end
            == other.char_range.end;
        let norm_eq = match (&self.normalized, &other.normalized) {
            (Some(a), Some(b)) => *a == *b,
            (None, None) => true,
            _ => false,
        };
        ranges_eq && norm_eq && self.value == other.value
    }
}

impl vstd::std_specs::cmp::PartialEqSpecImpl for Token {
    open spec fn obeys_eq_spec() -> bool {
        true
    }

    open spec fn eq_spec(&self, other: &Token) -> bool {
        &&& self.value@ == other.value@
        &&& self.range.start == other.range.start
        &&& self.range.end == other.range.end
        &&& self.char_range.start == other.char_range.start
        &&& self.char_range.end == other.char_range.end
        &&& match (self.normalized, other.normalized) {
            (Some(a), Some(b)) => a@ == b@,
            (None, None) => true,
            _ => false,
        }
    }
}

/// The views of a slice of string tokens.
pub open spec fn toks_view(ts: Seq<&str>) -> Seq<Seq<char>> {
    ts.map_values(|t: &str| t@)
}

/// The text of tokens `[s, e)` joined with single spaces.
pub open spec fn joined(toks: Seq<Seq<char>>, s: int, e: int) -> Seq<char>
    decreases e - s,
{
    if e <= s + 1 {
        toks[s]
    } else {
        joined(toks, s, e - 1) + seq![' '] + toks[e - 1]
    }
}

/// The n-gram starting at `s` and ending just before `e`: its joined text
/// and the indices it covers.
pub open spec fn gram_of(toks: Seq<Seq<char>>, s: int, e: int) -> (Seq<char>, Seq<usize>) {
    (joined(toks, s, e), Seq::new((e - s) as nat, |i: int| (s + i) as usize))
}

/// The n-grams starting at `s` with ends in `(s, e]`, shortest first.
pub open spec fn grams_row(toks: Seq<Seq<char>>, s: int, e: int) -> Seq<(Seq<char>, Seq<usize>)>
    decreases e - s,
{
    if e <= s {
        Seq::empty()
    } else {
        grams_row(toks, s, e - 1).push(gram_of(toks, s, e))
    }
}

/// All n-grams with starts below `s`, grouped by start, each group capped
/// at `max` tokens.
pub open spec fn grams_upto(toks: Seq<Seq<char>>, max: int, s: int) -> Seq<(Seq<char>, Seq<usize>)>
    decreases s,
{
    if s <= 0 {
        Seq::empty()
    } else {
        grams_upto(toks, max, s - 1) + grams_row(
            toks,
            s - 1,
            min(toks.len() as int, s - 1 + max),
        )
    }
}

/// The views of computed n-grams.
pub open spec fn ngrams_view(s: Seq<(String, Vec<usize>)>) -> Seq<(Seq<char>, Seq<usize>)> {
    s.map_values(|p: (String, Vec<usize>)| (p.0@, p.1@))
}

fn copy_usizes(v: &Vec<usize>) -> (r: Vec<usize>)
    ensures
        r@ == v@,
{
    let mut r: Vec<usize> = Vec::new();
    let mut i: usize = 0;
    while i < v.len()
        invariant
            i <= v@.len(),
            r@ == v@.take(i as int),
        decreases v@.len() - i,
    {
        let x = v[i];
        r.push(x);
        proof {
            assert(r@ =~= v@.take(i + 1));
        }
        i += 1;
    }
    proof {
        assert(r@ =~= v@);
    }
    r
}

/// Compute every n-gram of up to `max_ngram_size` consecutive tokens:
/// for each start index, the grams growing from one token up to the cap,
/// with the covered indices alongside the space-joined text.
pub fn compute_all_ngrams(tokens: &[&str], max_ngram_size: usize) -> (r: Vec<(String, Vec<usize>)>)
    ensures
        ngrams_view(r@) == grams_upto(toks_view(tokens@), max_ngram_size as int, tokens@.len() as int),
{
    let ghost toks = toks_view(tokens@);
    let ghost maxi = max_ngram_size as int;
    let mut ngrams: Vec<(String, Vec<usize>)> = Vec::new();
    let n = tokens.len();
    let mut start: usize = 0;
    while start < n
        invariant
            start <= n,
            n == tokens@.len(),
            toks == toks_view(tokens@),
            maxi == max_ngram_size as int,
            ngrams_view(ngrams@) == grams_upto(toks, maxi, start as int),
        decreases n - start,
    {
        let max_end: usize = if n - start < max_ngram_size {
            n
        } else {
            start + max_ngram_size
        };
        proof {
            assert(max_end as int == min(toks.len() as int, start as int + maxi));
        }
        let mut last: Option<(String, Vec<usize>)> = None;
        let mut end: usize = start;
        while end < max_end
            invariant
                start <= end <= max_end <= n,
                n == tokens@.len(),
                toks == toks_view(tokens@),
                maxi == max_ngram_size as int,
                max_end as int == min(toks.len() as int, start as int + maxi),
                ngrams_view(ngrams@) == grams_upto(toks, maxi, start as int) + grams_row(
                    toks,
                    start as int,
                    end as int,
                ),
                end > start ==> (match last {
                    Some(p) => (p.0@, p.1@) == gram_of(toks, start as int, end as int),
                    None => false,
                }),
                (last is None) <==> (end == start),
            decreases max_end - end,
        {
            let item: (String, Vec<usize>) = match &last {
                Some(prev) => {
                    let mut s2 = prev.0.clone();
                    s2.append(" ");
                    s2.append(tokens[end]);
                    let mut ix = copy_usizes(&prev.1);
                    ix.push(end);
                    proof {
                        reveal_strlit(" ");
                        assert(" "@ =~= seq![' ']);
                        assert(s2@ == joined(toks, start as int, end + 1));
                        assert(ix@ =~= gram_of(toks, start as int, end + 1).1);
                    }
                    (s2, ix)
                },
                None => {
                    let t0 = tokens[start].to_owned();
                    let mut ix: Vec<usize> = Vec::new();
                    ix.push(start);
                    proof {
                        assert(toks[start as int] == tokens@[start as int]@);
                        assert(joined(toks, start as int, start + 1) == toks[start as int]);
                        assert(t0@ == joined(toks, start as int, end + 1));
                        assert(ix@ =~= gram_of(toks, start as int, start + 1).1);
                    }
                    (t0, ix)
                },
            };
            let item2 = (item.0.clone(), copy_usizes(&item.1));
            let ghost pre = ngrams@;
            ngrams.push(item2);
            proof {
                let g = gram_of(toks, start as int, end + 1);
                assert(item.0@ == g.0);
                assert(item.1@ == g.1);
                assert((item2.0@, item2.1@) == g);
                assert(ngrams@ == pre.push(item2));
                assert(ngrams_view(ngrams@) =~= ngrams_view(pre).push(g));
                assert(grams_row(toks, start as int, end + 1) == grams_row(
                    toks,
                    start as int,
                    end as int,
                ).push(g));
                assert(ngrams_view(ngrams@) =~= grams_upto(toks, maxi, start as int) + grams_row(
                    toks,
                    start as int,
                    end + 1,
                ));
            }
            last = Some(item);
            end += 1;
        }
        start += 1;
        proof {
            assert(ngrams_view(ngrams@) == grams_upto(toks, maxi, start as int));
        }
    }
    ngrams
}

} // verus!

verus! {

pub uninterp spec fn word_matches_of(s: Seq<char>) -> Seq<(Seq<char>, int, int)>;

pub uninterp spec fn symbol_matches_of(s: Seq<char>) -> Seq<(Seq<char>, int, int)>;

/// The views of raw matches: matched text with its byte span.
pub open spec fn triples_view(v: Seq<(String, usize, usize)>) -> Seq<(Seq<char>, int, int)> {
    v.map_values(|m: (String, usize, usize)| (m.0@, m.1 as int, m.2 as int))
}

/// Relies on regex's find_iter with the word pattern `\w+` (unicode):
/// the matched texts and byte spans are a function of the text alone.
#[verifier::external_body]
fn word_matches(input: &str) -> (r: Vec<(String, usize, usize)>)
    ensures
        triples_view(r@) == word_matches_of(input@),
{
    let re = regex::RegexBuilder::new(r"\w+").unicode(true).build().unwrap();
    re.find_iter(input).map(|m| (m.as_str().to_string(), m.start(), m.end())).collect()
}

/// Relies on regex's find_iter with the symbol pattern (question and
/// exclamation marks, ampersand, percent, and the currency signs): the
/// matched texts and byte spans are a function of the text alone.
#[verifier::external_body]
fn symbol_matches(input: &str) -> (r: Vec<(String, usize, usize)>)
    ensures
        triples_view(r@) == symbol_matches_of(input@),
{
    let re = regex::RegexBuilder::new("[?!&%$؋ƒ៛¥₡₱£€¢﷼₪₩₭₨₮₦₽฿₴₫]").unicode(true).build().unwrap();
    re.find_iter(input).map(|m| (m.as_str().to_string(), m.start(), m.end())).collect()
}

/// Whether the byte spans of two matches overlap.
pub open spec fn spans_overlap(a: (Seq<char>, int, int), b: (Seq<char>, int, int)) -> bool {
    a.1 < b.2 && a.2 > b.1
}

/// The matches among the first `i` of `ms` whose span meets no span of
/// `ws`, in order.
pub open spec fn kept_upto(ws: Seq<(Seq<char>, int, int)>, ms: Seq<(Seq<char>, int, int)>, i: int) -> Seq<
    (Seq<char>, int, int),
>
    decreases i,
{
    if i <= 0 {
        Seq::empty()
    } else {
        kept_upto(ws, ms, i - 1) + (if exists|j: int| 0 <= j < ws.len() && spans_overlap(
            #[trigger] ws[j],
            ms[i - 1],
        ) {
            Seq::<(Seq<char>, int, int)>::empty()
        } else {
            seq![ms[i - 1]]
        })
    }
}

/// A match turned into a token shape: its text, byte span, and the
/// character span the byte span covers.
pub open spec fn tok5_of(s: Seq<char>, m: (Seq<char>, int, int)) -> (
    Seq<char>,
    int,
    int,
    int,
    int,
) {
    (
        m.0,
        m.1,
        m.2,
        char_index_of(s, m.1 as nat) as int,
        char_index_of(s, m.2 as nat) as int,
    )
}

/// The token-shape views of produced tokens.
pub open spec fn tokens5_view(v: Seq<Token>) -> Seq<(Seq<char>, int, int, int, int)> {
    v.map_values(
        |t: Token|
            (
                t.value@,
                t.range.start as int,
                t.range.end as int,
                t.char_range.start as int,
                t.char_range.end as int,
            ),
    )
}

/// Insert `x` behind every element whose start does not exceed `x`'s:
/// a stable insertion by starting byte offset.
pub open spec fn sorted_insert(
    acc: Seq<(Seq<char>, int, int, int, int)>,
    x: (Seq<char>, int, int, int, int),
) -> Seq<(Seq<char>, int, int, int, int)>
    decreases acc.len(),
{
    if acc.len() == 0 {
        seq![x]
    } else if acc[0].1 <= x.1 {
        seq![acc[0]] + sorted_insert(acc.skip(1), x)
    } else {
        seq![x] + acc
    }
}

/// The first `i` token shapes of `ts`, insertion-sorted by start offset.
pub open spec fn sort_upto(ts: Seq<(Seq<char>, int, int, int, int)>, i: int) -> Seq<
    (Seq<char>, int, int, int, int),
>
    decreases i,
{
    if i <= 0 {
        Seq::empty()
    } else {
        sorted_insert(sort_upto(ts, i - 1), ts[i - 1])
    }
}

/// What tokenizing yields: the word matches, then the symbol matches not
/// overlapping any word, each with its character span, stably sorted by
/// starting byte offset.
pub open spec fn tokenize_of(s: Seq<char>) -> Seq<(Seq<char>, int, int, int, int)> {
    let ws = word_matches_of(s);
    let ss = kept_upto(ws, symbol_matches_of(s), symbol_matches_of(s).len() as int);
    let all = (ws + ss).map_values(|m: (Seq<char>, int, int)| tok5_of(s, m));
    sort_upto(all, all.len() as int)
}

proof fn lemma_sorted_insert_shape(
    acc: Seq<(Seq<char>, int, int, int, int)>,
    x: (Seq<char>, int, int, int, int),
    idx: int,
)
    requires
        0 <= idx <= acc.len(),
        forall|j: int| 0 <= j < idx ==> #[trigger] acc[j].1 <= x.1,
        idx < acc.len() ==> acc[idx].1 > x.1,
    ensures
        sorted_insert(acc, x) == acc.take(idx) + seq![x] + acc.skip(idx),
    decreases acc.len(),
{
    if acc.len() == 0 {
        assert(sorted_insert(acc, x) =~= acc.take(0) + seq![x] + acc.skip(0));
    } else if acc[0].1 <= x.1 {
        assert(idx >= 1);
        lemma_sorted_insert_shape(acc.skip(1), x, idx - 1);
        assert(acc.skip(1).take(idx - 1) =~= acc.take(idx).skip(1));
        assert(acc.skip(1).skip(idx - 1) =~= acc.skip(idx));
        assert(sorted_insert(acc, x) =~= acc.take(idx) + seq![x] + acc.skip(idx));
    } else {
        assert(idx == 0);
        assert(sorted_insert(acc, x) =~= acc.take(0) + seq![x] + acc.skip(0));
    }
}

fn clone_token(t: &Token) -> (r: Token)
    ensures
        r.value@ == t.value@,
        r.range.start == t.range.start && r.range.end == t.range.end,
        r.char_range.start == t.char_range.start && r.char_range.end == t.char_range.end,
        r.normalized == t.normalized,
{
    let normalized = match &t.normalized {
        Some(n) => Some(n.clone()),
        None => None,
    };
    Token {
        value: t.value.clone(),
        range: t.range.start..t.range.end,
        char_range: t.char_range.start..t.char_range.end,
        normalized,
    }
}

/// Split the text into word tokens and the symbol tokens that do not
/// overlap them, ordered by starting byte offset.  Every language uses
/// the same word and symbol patterns.
pub fn tokenize(input: &str, language: Language) -> (r: Vec<Token>)
    ensures
        tokens5_view(r@) == tokenize_of(input@),
        forall|i: int| 0 <= i < r@.len() ==> (#[trigger] r@[i]).normalized is None,
{
    let _lang = language;
    let words = word_matches(input);
    let syms = symbol_matches(input);
    let ghost ws = word_matches_of(input@);
    let ghost ss_all = symbol_matches_of(input@);
    // symbols overlapping a word are dropped
    let mut kept: Vec<(String, usize, usize)> = Vec::new();
    let mut i: usize = 0;
    while i < syms.len()
        invariant
            i <= syms@.len(),
            triples_view(words@) == ws,
            triples_view(syms@) == ss_all,
            triples_view(kept@) == kept_upto(ws, ss_all, i as int),
        decreases syms@.len() - i,
    {
        let m1 = syms[i].1;
        let m2 = syms[i].2;
        let mut overlap = false;
        let mut j: usize = 0;
        while j < words.len()
            invariant
                j <= words@.len(),
                triples_view(words@) == ws,
                triples_view(syms@) == ss_all,
                i < syms@.len(),
                m1 == syms@[i as int].1 && m2 == syms@[i as int].2,
                overlap == exists|jj: int|
                    0 <= jj < j && spans_overlap(#[trigger] ws[jj], ss_all[i as int]),
            decreases words@.len() - j,
        {
            let w1 = words[j].1;
            let w2 = words[j].2;
            let does = ranges_overlap(&(m1..m2), &(w1..w2));
            proof {
                assert(w1 == words@[j as int].1 && w2 == words@[j as int].2);
                assert(does == (m1 < w2 && m2 > w1));
                assert(ws[j as int] == (
                    words@[j as int].0@,
                    words@[j as int].1 as int,
                    words@[j as int].2 as int,
                ));
                assert(ss_all[i as int] == (
                    syms@[i as int].0@,
                    syms@[i as int].1 as int,
                    syms@[i as int].2 as int,
                ));
                assert(does == spans_overlap(ws[j as int], ss_all[i as int]));
            }
            if does {
                overlap = true;
            }
            j += 1;
        }
        if !overlap {
            let copy = (syms[i].0.clone(), m1, m2);
            kept.push(copy);
            proof {
                assert(triples_view(kept@) =~= kept_upto(ws, ss_all, i + 1));
            }
        } else {
            proof {
                assert(kept_upto(ws, ss_all, i + 1) =~= kept_upto(ws, ss_all, i as int));
            }
        }
        i += 1;
    }
    let ghost ss = kept_upto(ws, ss_all, ss_all.len() as int);
    let ghost all = (ws + ss).map_values(|m: (Seq<char>, int, int)| tok5_of(input@, m));
    // words first, then the kept symbols, each with its character range
    let mut toks: Vec<Token> = Vec::new();
    let mut i2: usize = 0;
    while i2 < words.len()
        invariant
            i2 <= words@.len(),
            triples_view(words@) == ws,
            triples_view(kept@) == ss,
            all == (ws + ss).map_values(|m: (Seq<char>, int, int)| tok5_of(input@, m)),
            tokens5_view(toks@) == all.take(i2 as int),
            forall|x: int| 0 <= x < toks@.len() ==> (#[trigger] toks@[x]).normalized is None,
        decreases words@.len() - i2,
    {
        let m1 = words[i2].1;
        let m2 = words[i2].2;
        let cr = convert_to_char_range(input, &(m1..m2));
        let t = Token::new(words[i2].0.clone(), m1..m2, cr);
        let ghost tv = (t.value@, t.range.start as int, t.range.end as int, t.char_range.start as int, t.char_range.end as int);
        let ghost t_snap = t;
        let ghost toks_pre = toks@;
        toks.push(t);
        proof {
            assert(toks@ == toks_pre.push(t_snap));
            assert(tokens5_view(toks_pre).len() == i2);
            assert(toks_pre.len() == i2);
            assert(toks@[i2 as int] == t_snap);
            assert(ws[i2 as int] == (
                words@[i2 as int].0@,
                words@[i2 as int].1 as int,
                words@[i2 as int].2 as int,
            ));
            assert((ws + ss)[i2 as int] == ws[i2 as int]);
            assert(all[i2 as int] == tok5_of(input@, ws[i2 as int]));
            let g = all[i2 as int];
            assert(g == (g.0, g.1, g.2, g.3, g.4));
            assert(tv.0 == g.0 && tv.1 == g.1 && tv.2 == g.2 && tv.3 == g.3 && tv.4 == g.4);
            assert(tv == g);
            assert(toks_pre.len() == i2);
            assert(tokens5_view(toks@)[i2 as int] == tv);
            assert(tokens5_view(toks@) =~= all.take(i2 + 1));
        }
        i2 += 1;
    }
    let mut i3: usize = 0;
    while i3 < kept.len()
        invariant
            i3 <= kept@.len(),
            triples_view(words@) == ws,
            triples_view(kept@) == ss,
            all == (ws + ss).map_values(|m: (Seq<char>, int, int)| tok5_of(input@, m)),
            tokens5_view(toks@) == all.take(words@.len() + i3),
            forall|x: int| 0 <= x < toks@.len() ==> (#[trigger] toks@[x]).normalized is None,
        decreases kept@.len() - i3,
    {
        let m1 = kept[i3].1;
        let m2 = kept[i3].2;
        let cr = convert_to_char_range(input, &(m1..m2));
        let t = Token::new(kept[i3].0.clone(), m1..m2, cr);
        let ghost tv = (t.value@, t.range.start as int, t.range.end as int, t.char_range.start as int, t.char_range.end as int);
        let ghost t_snap = t;
        let ghost toks_pre = toks@;
        toks.push(t);
        proof {
            assert(toks@ == toks_pre.push(t_snap));
            assert(tokens5_view(toks_pre).len() == words@.len() + i3);
            assert(toks_pre.len() == words@.len() + i3);
            assert(toks@[words@.len() + i3] == t_snap);
            assert(ss[i3 as int] == (
                kept@[i3 as int].0@,
                kept@[i3 as int].1 as int,
                kept@[i3 as int].2 as int,
            ));
            assert((ws + ss)[words@.len() + i3] == ss[i3 as int]);
            assert(all[words@.len() + i3] == tok5_of(input@, ss[i3 as int]));
            let g = all[words@.len() + i3];
            assert(g == (g.0, g.1, g.2, g.3, g.4));
            assert(tv.0 == g.0 && tv.1 == g.1 && tv.2 == g.2 && tv.3 == g.3 && tv.4 == g.4);
            assert(tv == g);
            assert(toks_pre.len() == words@.len() + i3);
            assert(tokens5_view(toks@)[words@.len() + i3] == tv);
            assert(tokens5_view(toks@) =~= all.take(words@.len() + i3 + 1));
        }
        i3 += 1;
    }
    proof {
        assert(all.take(all.len() as int) =~= all);
    }
    // stable insertion sort by starting byte offset
    let mut out: Vec<Token> = Vec::new();
    let mut i4: usize = 0;
    while i4 < toks.len()
        invariant
            i4 <= toks@.len(),
            tokens5_view(toks@) == all,
            tokens5_view(out@) == sort_upto(all, i4 as int),
            out@.len() == i4,
            forall|x: int| 0 <= x < toks@.len() ==> (#[trigger] toks@[x]).normalized is None,
            forall|x: int| 0 <= x < out@.len() ==> (#[trigger] out@[x]).normalized is None,
        decreases toks@.len() - i4,
    {
        let t = clone_token(&toks[i4]);
        let mut idx: usize = 0;
        while idx < out.len() && out[idx].range.start <= t.range.start
            invariant
                idx <= out@.len(),
                forall|j: int| 0 <= j < idx ==> #[trigger] tokens5_view(out@)[j].1 <= all[i4 as int].1,
                t.range.start as int == all[i4 as int].1,
            decreases out@.len() - idx,
        {
            proof {
                assert(tokens5_view(out@)[idx as int].1 == out@[idx as int].range.start);
            }
            idx += 1;
        }
        let ghost out_pre = out@;
        out.insert(idx, t);
        proof {
            lemma_sorted_insert_shape(tokens5_view(out_pre), all[i4 as int], idx as int);
            assert(tokens5_view(out@) =~= tokens5_view(out_pre).take(idx as int) + seq![
                all[i4 as int],
            ] + tokens5_view(out_pre).skip(idx as int));
            assert(tokens5_view(out@) =~= sort_upto(all, i4 + 1));
        }
        i4 += 1;
    }
    out
}

/// The values of the tokens of the text, in token order.
pub fn tokenize_light(input: &str, language: Language) -> (r: Vec<String>)
    ensures
        r@.map_values(|t: String| t@) == tokenize_of(input@).map_values(
            |t: (Seq<char>, int, int, int, int)| t.0,
        ),
{
    let toks = tokenize(input, language);
    let mut out: Vec<String> = Vec::new();
    let mut i: usize = 0;
    while i < toks.len()
        invariant
            i <= toks@.len(),
            tokens5_view(toks@) == tokenize_of(input@),
            out@.map_values(|t: String| t@) == tokenize_of(input@).map_values(
                |t: (Seq<char>, int, int, int, int)| t.0,
            ).take(i as int),
        decreases toks@.len() - i,
    {
        let v = toks[i].value.clone();
        let ghost v_snap = v;
        let ghost out_pre = out@;
        out.push(v);
        proof {
            assert(v_snap == toks@[i as int].value);
            assert(tokens5_view(toks@)[i as int].0 == toks@[i as int].value@);
            assert(out@ == out_pre.push(v_snap));
            assert(out_pre.map_values(|t: String| t@).len() == i);
            assert(out_pre.len() == i);
            assert(out@.map_values(|t: String| t@) =~= tokenize_of(input@).map_values(
                |t: (Seq<char>, int, int, int, int)| t.0,
            ).take(i + 1));
        }
        i += 1;
    }
    proof {
        assert(tokenize_of(input@).map_values(|t: (Seq<char>, int, int, int, int)| t.0).take(
            tokenize_of(input@).len() as int,
        ) =~= tokenize_of(input@).map_values(|t: (Seq<char>, int, int, int, int)| t.0));
    }
    out
}

} // verus!
