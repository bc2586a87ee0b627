//! A string interning table: symbols are keyed by their 64-bit FNV hash,
//! so equal text always maps to the same key.

use vstd::prelude::*;

verus! {

use core::hash::Hasher;
use std::collections::HashMap;

/// The 64-bit FNV-1a hash of a text, as the fnv crate computes it with
/// its default key.
pub uninterp spec fn fnv_hash_of(s: Seq<char>) -> u64;

/// Relies on fnv's FnvHasher (with its default key) over the symbol's
/// UTF-8 bytes: the hash is a function of the text alone.
#[verifier::external_body]
fn fnv_hash(sym: &str) -> (r: u64)
    ensures
        r == fnv_hash_of(sym@),
{
    let mut hasher = fnv::FnvHasher::default();
    hasher.write(sym.as_bytes());
    hasher.finish()
}

/// A string-to-i64 symbol table: text is stored under its FNV hash, and a
/// running counter records how many symbols were ever added.
#[derive(Debug)]
pub struct SymbolTable {
    table: HashMap<i64, String>,
    count: i32,
}

impl View for SymbolTable {
    type V = Map<i64, String>;

    closed spec fn view(&self) -> Map<i64, String> {
        self.table@
    }
}

impl SymbolTable {
    /// The running additions counter.  It counts every `add_symbol` call,
    /// so it can exceed the number of distinct stored symbols.
    pub closed spec fn spec_count(&self) -> int {
        self.count as int
    }

    /// Create a new empty symbol table.
    pub fn new() -> (t: SymbolTable)
        ensures
            t@ == Map::<i64, String>::empty(),
            t.spec_count() == 0,
    {
        let t = SymbolTable { table: HashMap::new(), count: 0 };
        proof {
            broadcast use vstd::std_specs::hash::group_hash_axioms;

        }
        t
    }

    /// Add a symbol, storing it under its hash and handing the hash back.
    /// A symbol whose hash collides with an earlier one replaces it; the
    /// additions counter sticks at its maximum rather than wrapping.
    pub fn add_symbol(&mut self, symbol: String) -> (key: i64)
        ensures
            key == fnv_hash_of(symbol@) as i64,
            final(self)@ == old(self)@.insert(key, symbol),
            final(self).spec_count() == (if old(self).spec_count() < i32::MAX {
                old(self).spec_count() + 1
            } else {
                old(self).spec_count()
            }),
    {
        proof {
            broadcast use vstd::std_specs::hash::group_hash_axioms;

        }
        let hash = fnv_hash(symbol.as_str());
        let key = hash as i64;
        self.table.insert(key, symbol);
        if self.count < i32::MAX {
            self.count = self.count + 1;
        }
        key
    }

    /// Get the symbol stored under the given key.
    pub fn get_symbol(&self, key: i64) -> (r: Option<&String>)
        ensures
            match r {
                Some(v) => self@.contains_key(key) && *v == self@[key],
                None => !self@.contains_key(key),
            },
    {
        proof {
            broadcast use vstd::std_specs::hash::group_hash_axioms;

        }
        self.table.get(&key)
    }

    /// Get the key a symbol would be stored under, if it is stored.
    pub fn get_key(&self, symbol: &str) -> (r: Option<i64>)
        ensures
            r == (if self@.contains_key(fnv_hash_of(symbol@) as i64) {
                Some(fnv_hash_of(symbol@) as i64)
            } else {
                None::<i64>
            }),
    {
        proof {
            broadcast use vstd::std_specs::hash::group_hash_axioms;

        }
        let hash = fnv_hash(symbol) as i64;
        if self.table.contains_key(&hash) {
            Some(hash)
        } else {
            None
        }
    }

    /// The additions counter, as `len` has always reported it.
    pub fn len(&self) -> (n: i32)
        ensures
            n == self.spec_count(),
    {
        self.count
    }

    /// Whether no symbol was ever added.
    pub fn is_empty(&self) -> (r: bool)
        ensures
            r == (self.spec_count() == 0),
    {
        self.count == 0
    }
}

} // verus!

verus! {

use crate::codec::enc_u64;
use crate::codec::enc_i64;
use crate::codec::DecodeError;

/// The encoding of a text: its character count, then each character's
/// scalar value, all as little-endian eight-byte words.
pub open spec fn enc_chars(s: Seq<char>, i: int) -> Seq<u8>
    decreases i,
{
    if i <= 0 {
        Seq::empty()
    } else {
        enc_chars(s, i - 1) + enc_u64(s[i - 1] as u64)
    }
}

pub open spec fn enc_str(s: Seq<char>) -> Seq<u8> {
    enc_u64(s.len() as u64) + enc_chars(s, s.len() as int)
}

/// The encoding of interned entries: each key with its text.
pub open spec fn enc_entries(es: Seq<(i64, Seq<char>)>, i: int) -> Seq<u8>
    decreases i,
{
    if i <= 0 {
        Seq::empty()
    } else {
        enc_entries(es, i - 1) + enc_i64(es[i - 1].0) + enc_str(es[i - 1].1)
    }
}

/// The encoding of a whole symbol table: the additions counter, the entry
/// count, and the entries.
pub open spec fn enc_table(es: Seq<(i64, Seq<char>)>, count: i64) -> Seq<u8> {
    enc_i64(count) + enc_u64(es.len() as u64) + enc_entries(es, es.len() as int)
}

/// Whether `es` lists exactly the pairs of `m`, each key once.
pub open spec fn entries_match(es: Seq<(i64, Seq<char>)>, m: Map<i64, String>) -> bool {
    &&& forall|i: int|
        0 <= i < es.len() ==> m.contains_key((#[trigger] es[i]).0) && m[es[i].0]@ == es[i].1
    &&& forall|i: int, j: int| 0 <= i < j < es.len() ==> (#[trigger] es[i]).0 != (#[trigger] es[j]).0
    &&& forall|k: i64|
        m.contains_key(k) ==> exists|i: int| 0 <= i < es.len() && (#[trigger] es[i]).0 == k
}

/// What inserting the entries into an empty map yields.
pub open spec fn map_of_entries(es: Seq<(i64, String)>, i: int) -> Map<i64, String>
    decreases i,
{
    if i <= 0 {
        Map::empty()
    } else {
        map_of_entries(es, i - 1).insert(es[i - 1].0, es[i - 1].1)
    }
}

proof fn lemma_map_of_entries_agree(es1: Seq<(i64, String)>, es2: Seq<(i64, String)>, i: int)
    requires
        i <= es1.len(),
        i <= es2.len(),
        forall|j: int| 0 <= j < i ==> es1[j] == es2[j],
    ensures
        map_of_entries(es1, i) == map_of_entries(es2, i),
    decreases i,
{
    if i > 0 {
        lemma_map_of_entries_agree(es1, es2, i - 1);
    }
}

/// Relies on HashMap::iter: it hands out every stored pair exactly once,
/// in an order that may differ from process to process, so only the set
/// of pairs is promised.
#[verifier::external_body]
fn table_entries(m: &HashMap<i64, String>) -> (r: Vec<(i64, String)>)
    ensures
        forall|i: int|
            0 <= i < r@.len() ==> m@.contains_key((#[trigger] r@[i]).0) && m@[r@[i].0] == r@[i].1,
        forall|i: int, j: int|
            0 <= i < j < r@.len() ==> (#[trigger] r@[i]).0 != (#[trigger] r@[j]).0,
        forall|k: i64|
            m@.contains_key(k) ==> exists|i: int| 0 <= i < r@.len() && (#[trigger] r@[i]).0 == k,
{
    m.iter().map(|(k, v)| (*k, v.clone())).collect()
}

/// Relies on char::from_u32: a scalar value outside the surrogate range
/// and within the character range converts back to exactly that
/// character, anything else to nothing.
#[verifier::external_body]
fn char_of_u32(x: u32) -> (r: Option<char>)
    ensures
        match r {
            Some(c) => c as u32 == x,
            None => true,
        },
        (x < 0xD800 || (0xE000 <= x && x <= 0x10FFFF)) ==> r is Some,
{
    char::from_u32(x)
}

} // verus!

verus! {

use crate::codec::push_u64;
use crate::codec::push_i64;
use crate::codec::read_u64;
use crate::codec::read_i64;
use crate::strings_util::push_char;
use vstd::string::StrSliceExecFns;

fn push_str_chars(out: &mut Vec<u8>, s: &str)
    ensures
        final(out)@ == old(out)@ + enc_str(s@),
{
    let n = s.unicode_len();
    push_u64(out, n as u64);
    let mut j: usize = 0;
    while j < n
        invariant
            j <= n,
            n == s@.len(),
            out@ == old(out)@ + enc_u64(s@.len() as u64) + enc_chars(s@, j as int),
        decreases n - j,
    {
        let c = s.get_char(j);
        push_u64(out, c as u64);
        proof {
            assert(out@ =~= old(out)@ + enc_u64(s@.len() as u64) + enc_chars(s@, j + 1));
        }
        j += 1;
    }
    proof {
        assert(final(out)@ =~= old(out)@ + enc_str(s@));
    }
}

impl SymbolTable {
    /// Serialize the table: the additions counter and every stored
    /// (key, text) entry, in whatever order the map hands them out.
    pub fn to_bytes(&self) -> (r: Vec<u8>)
        ensures
            exists|es: Seq<(i64, Seq<char>)>|
                #[trigger] entries_match(es, self@) && r@ == enc_table(
                    es,
                    self.spec_count() as i64,
                ),
    {
        let entries = table_entries(&self.table);
        let ghost es = entries@.map_values(|p: (i64, String)| (p.0, p.1@));
        let mut out: Vec<u8> = Vec::new();
        push_i64(&mut out, self.count as i64);
        push_u64(&mut out, entries.len() as u64);
        let ghost head = out@;
        let mut i: usize = 0;
        while i < entries.len()
            invariant
                i <= entries@.len(),
                es == entries@.map_values(|p: (i64, String)| (p.0, p.1@)),
                out@ == head + enc_entries(es, i as int),
            decreases entries@.len() - i,
        {
            let key = entries[i].0;
            push_i64(&mut out, key);
            push_str_chars(&mut out, entries[i].1.as_str());
            proof {
                assert(es[i as int] == (entries@[i as int].0, entries@[i as int].1@));
                assert(out@ =~= head + enc_entries(es, i + 1));
            }
            i += 1;
        }
        proof {
            assert(out@ =~= enc_table(es, self.spec_count() as i64));
            assert forall|x: int| 0 <= x < es.len() implies self@.contains_key(
                (#[trigger] es[x]).0,
            ) && self@[es[x].0]@ == es[x].1 by {
                assert(es[x] == (entries@[x].0, entries@[x].1@));
            }
            assert forall|x: int, y: int| 0 <= x < y < es.len() implies (#[trigger] es[x]).0 != (
            #[trigger] es[y]).0 by {
                assert(es[x] == (entries@[x].0, entries@[x].1@));
                assert(es[y] == (entries@[y].0, entries@[y].1@));
            }
            assert forall|k: i64| self@.contains_key(k) implies exists|x: int|
                0 <= x < es.len() && (#[trigger] es[x]).0 == k by {
                let w = choose|w: int| 0 <= w < entries@.len() && (#[trigger] entries@[w]).0 == k;
                assert(es[w] == (entries@[w].0, entries@[w].1@));
                assert(es[w].0 == k);
            }
            assert(entries_match(es, self@));
        }
        out
    }

    /// Rebuild a table from its serialized form; bytes that do not hold a
    /// validly-encoded table are refused as a decode error.
    #[verifier::rlimit(100)]
    pub fn from_bytes(b: &Vec<u8>) -> (r: Result<SymbolTable, DecodeError>)
        ensures
            match r {
                Ok(t) => table_decoded(b@, t),
                Err(_) => !is_table_encoding(b@),
            },
    {
        proof {
            broadcast use vstd::std_specs::hash::group_hash_axioms;

        }
        let (count64, p0) = match read_i64(b, 0) {
            Ok(x) => x,
            Err(e) => {
                proof {
                    if is_table_encoding(b@) {
                        let (es, c) = choose|es: Seq<(i64, Seq<char>)>, c: i64|
                            0 <= c <= i32::MAX && es.len() <= usize::MAX && (forall|x: int|
                                0 <= x < es.len() ==> (#[trigger] es[x]).1.len() <= usize::MAX)
                                && b@ == #[trigger] enc_table(es, c);
                        assert(b@.len() >= 16);
                        assert(false);
                    }
                }
                return Err(e);
            },
        };
        if count64 < 0 || count64 > (i32::MAX as i64) {
            proof {
                if is_table_encoding(b@) {
                    let (es, c) = choose|es: Seq<(i64, Seq<char>)>, c: i64|
                        0 <= c <= i32::MAX && es.len() <= usize::MAX && (forall|x: int|
                            0 <= x < es.len() ==> (#[trigger] es[x]).1.len() <= usize::MAX) && b@
                            == #[trigger] enc_table(es, c);
                    assert(b@ =~= enc_i64(count64) + b@.subrange(8, b@.len() as int));
                    assert(b@ =~= enc_i64(c) + (enc_u64(es.len() as u64) + enc_entries(
                        es,
                        es.len() as int,
                    )));
                    lemma_enc_i64_prefix(
                        count64,
                        c,
                        b@.subrange(8, b@.len() as int),
                        enc_u64(es.len() as u64) + enc_entries(es, es.len() as int),
                    );
                    assert(false);
                }
            }
            return Err(DecodeError);
        }
        let (n64, p1) = match read_u64(b, p0) {
            Ok(x) => x,
            Err(e) => {
                proof {
                    if is_table_encoding(b@) {
                        let (es, c) = choose|es: Seq<(i64, Seq<char>)>, c: i64|
                            0 <= c <= i32::MAX && es.len() <= usize::MAX && (forall|x: int|
                                0 <= x < es.len() ==> (#[trigger] es[x]).1.len() <= usize::MAX)
                                && b@ == #[trigger] enc_table(es, c);
                        assert(b@.len() >= 16);
                        assert(false);
                    }
                }
                return Err(e);
            },
        };
        if n64 > (usize::MAX as u64) {
            proof {
                if is_table_encoding(b@) {
                    let (es, c) = choose|es: Seq<(i64, Seq<char>)>, c: i64|
                        0 <= c <= i32::MAX && es.len() <= usize::MAX && (forall|x: int|
                            0 <= x < es.len() ==> (#[trigger] es[x]).1.len() <= usize::MAX) && b@
                            == #[trigger] enc_table(es, c);
                    lemma_table_head(b@, count64, n64, es, c);
                    assert(false);
                }
            }
            return Err(DecodeError);
        }
        let n = n64 as usize;
        let mut table: HashMap<i64, String> = HashMap::new();
        let ghost done: Seq<(i64, String)> = Seq::empty();
        let mut es: Ghost<Seq<(i64, String)>> = Ghost(done);
        let mut i: usize = 0;
        let mut p: usize = p1;
        proof {
            assert(b@.subrange(16, 16) =~= enc_entries(entry_views(es@), 0));
        }
        while i < n
            invariant
                i <= n,
                n == n64,
                p0 == 8,
                p1 == 16,
                enc_i64(count64) == b@.subrange(0, 8),
                enc_u64(n64) == b@.subrange(8, 16),
                16 <= p as int <= b@.len(),
                es@.len() == i,
                table@ == map_of_entries(es@, i as int),
                b@.subrange(16, p as int) == enc_entries(entry_views(es@), i as int),
                forall|x: int| 0 <= x < es@.len() ==> (#[trigger] es@[x]).1@.len() <= usize::MAX,
            decreases n - i,
        {
            proof {
                assert forall|x: int| 0 <= x < es@.len() implies (#[trigger] entry_views(es@)[x]).1.len()
                    <= usize::MAX by {
                    assert(entry_views(es@)[x] == (es@[x].0, es@[x].1@));
                }
            }
            let (key, p2) = match read_i64(b, p) {
                Ok(x) => x,
                Err(e) => {
                    proof {
                        if is_table_encoding(b@) {
                            let (hes, c) = choose|hes: Seq<(i64, Seq<char>)>, c: i64|
                                0 <= c <= i32::MAX && hes.len() <= usize::MAX && (forall|x: int|
                                    0 <= x < hes.len() ==> (#[trigger] hes[x]).1.len()
                                        <= usize::MAX) && b@ == #[trigger] enc_table(hes, c);
                            lemma_table_align(
                                b@,
                                count64,
                                n64,
                                entry_views(es@),
                                i as int,
                                p as int,
                                hes,
                                c,
                            );
                            lemma_entries_peel(hes.skip(i as int), hes.len() - i);
                            assert(b@.subrange(p as int, b@.len() as int).len() >= 8);
                            assert(false);
                        }
                    }
                    return Err(e);
                },
            };
            let (clen64, p3) = match read_u64(b, p2) {
                Ok(x) => x,
                Err(e) => {
                    proof {
                        if is_table_encoding(b@) {
                            let (hes, c) = choose|hes: Seq<(i64, Seq<char>)>, c: i64|
                                0 <= c <= i32::MAX && hes.len() <= usize::MAX && (forall|x: int|
                                    0 <= x < hes.len() ==> (#[trigger] hes[x]).1.len()
                                        <= usize::MAX) && b@ == #[trigger] enc_table(hes, c);
                            lemma_table_align(
                                b@,
                                count64,
                                n64,
                                entry_views(es@),
                                i as int,
                                p as int,
                                hes,
                                c,
                            );
                            let q = hes.skip(i as int);
                            let m = hes.len() - i;
                            lemma_entries_peel(q, m);
                            assert(b@.subrange(p as int, b@.len() as int) =~= enc_i64(key) + b@
                                .subrange(p2 as int, b@.len() as int));
                            lemma_enc_i64_prefix(
                                key,
                                q[0].0,
                                b@.subrange(p2 as int, b@.len() as int),
                                enc_str(q[0].1) + enc_entries(q.skip(1), m - 1),
                            );
                            assert(b@.subrange(p2 as int, b@.len() as int).len() >= 8);
                            assert(false);
                        }
                    }
                    return Err(e);
                },
            };
            if clen64 > (usize::MAX as u64) {
                proof {
                    if is_table_encoding(b@) {
                        let (hes, c) = choose|hes: Seq<(i64, Seq<char>)>, c: i64|
                            0 <= c <= i32::MAX && hes.len() <= usize::MAX && (forall|x: int|
                                0 <= x < hes.len() ==> (#[trigger] hes[x]).1.len() <= usize::MAX)
                                && b@ == #[trigger] enc_table(hes, c);
                        lemma_entry_stage(
                            b@,
                            count64,
                            n64,
                            entry_views(es@),
                            i as int,
                            p as int,
                            key,
                            clen64,
                            hes,
                            c,
                        );
                        assert(false);
                    }
                }
                return Err(DecodeError);
            }
            let clen = clen64 as usize;
            let mut text = String::new();
            let mut j: usize = 0;
            let mut pc: usize = p3;
            proof {
                assert(b@.subrange(p3 as int, p3 as int) =~= enc_chars(text@, 0));
            }
            while j < clen
                invariant
                    j <= clen,
                    clen == clen64,
                    n == n64,
                    i < n,
                    p0 == 8,
                    p1 == 16,
                    enc_i64(count64) == b@.subrange(0, 8),
                    enc_u64(n64) == b@.subrange(8, 16),
                    16 <= p as int <= b@.len(),
                    es@.len() == i,
                    b@.subrange(16, p as int) == enc_entries(entry_views(es@), i as int),
                    forall|x: int|
                        0 <= x < es@.len() ==> (#[trigger] es@[x]).1@.len() <= usize::MAX,
                    forall|x: int|
                        0 <= x < es@.len() ==> (#[trigger] entry_views(es@)[x]).1.len()
                            <= usize::MAX,
                    p as int + 8 == p2 as int,
                    p2 as int + 8 == p3 as int,
                    p3 as int <= b@.len(),
                    enc_i64(key) == b@.subrange(p as int, p2 as int),
                    enc_u64(clen64) == b@.subrange(p2 as int, p3 as int),
                    p3 as int <= pc as int <= b@.len(),
                    text@.len() == j,
                    b@.subrange(p3 as int, pc as int) == enc_chars(text@, j as int),
                decreases clen - j,
            {
                let (u, p4) = match read_u64(b, pc) {
                    Ok(x) => x,
                    Err(e) => {
                        proof {
                            lemma_no_table_char_read(
                                b@,
                                count64,
                                n64,
                                entry_views(es@),
                                i as int,
                                p as int,
                                key,
                                clen64,
                                text@,
                                j as int,
                                pc as int,
                            );
                        }
                        return Err(e);
                    },
                };
                if u > (u32::MAX as u64) {
                    proof {
                        lemma_no_table_char_word(
                            b@,
                            count64,
                            n64,
                            entry_views(es@),
                            i as int,
                            p as int,
                            key,
                            clen64,
                            text@,
                            j as int,
                            pc as int,
                            u,
                        );
                    }
                    return Err(DecodeError);
                }
                let cch = match char_of_u32(u as u32) {
                    Some(cc) => cc,
                    None => {
                        proof {
                            lemma_no_table_char_word(
                                b@,
                                count64,
                                n64,
                                entry_views(es@),
                                i as int,
                                p as int,
                                key,
                                clen64,
                                text@,
                                j as int,
                                pc as int,
                                u,
                            );
                        }
                        return Err(DecodeError);
                    },
                };
                let ghost text_pre = text@;
                push_char(&mut text, cch);
                proof {
                    lemma_enc_chars_agree(text_pre, text@, j as int);
                    assert(text@[j as int] == cch);
                    assert((cch as u64) == u) by {
                        lemma_char_scalar(cch);
                        assert((u as u32) as u64 == u) by (bit_vector)
                            requires
                                u <= 0xffffffffu64,
                        ;
                    }
                    assert(b@.subrange(p3 as int, p4 as int) =~= b@.subrange(p3 as int, pc as int)
                        + b@.subrange(pc as int, p4 as int));
                    assert(enc_chars(text@, j + 1) == enc_chars(text@, j as int) + enc_u64(
                        text@[j as int] as u64,
                    ));
                    assert(b@.subrange(p3 as int, p4 as int) =~= enc_chars(text@, j + 1));
                }
                pc = p4;
                j += 1;
            }
            let ghost text_snap = text;
            let ghost es_pre = es@;
            table.insert(key, text);
            proof {
                es@ = es@.push((key, text_snap));
                lemma_map_of_entries_agree(es_pre, es@, i as int);
                assert(es@[i as int] == (key, text_snap));
                assert(table@ == map_of_entries(es@, i + 1));
                let ev_pre = entry_views(es_pre);
                let ev_now = entry_views(es@);
                assert(ev_now[i as int] == (key, text_snap@));
                lemma_enc_entries_agree(ev_pre, ev_now, i as int);
                assert(enc_str(text_snap@) =~= enc_u64(clen64) + enc_chars(
                    text_snap@,
                    text_snap@.len() as int,
                ));
                assert(enc_entries(ev_now, i + 1) == enc_entries(ev_now, i as int) + enc_i64(key)
                    + enc_str(text_snap@));
                assert(b@.subrange(16, pc as int) =~= b@.subrange(16, p as int) + (b@.subrange(
                    p as int,
                    p2 as int,
                ) + (b@.subrange(p2 as int, p3 as int) + b@.subrange(p3 as int, pc as int))));
                assert(b@.subrange(16, pc as int) =~= enc_entries(ev_now, i + 1));
            }
            p = pc;
            i += 1;
        }
        if p != b.len() {
            proof {
                if is_table_encoding(b@) {
                    let (hes, c) = choose|hes: Seq<(i64, Seq<char>)>, c: i64|
                        0 <= c <= i32::MAX && hes.len() <= usize::MAX && (forall|x: int|
                            0 <= x < hes.len() ==> (#[trigger] hes[x]).1.len() <= usize::MAX) && b@
                            == #[trigger] enc_table(hes, c);
                    assert forall|x: int| 0 <= x < es@.len() implies (#[trigger] entry_views(
                        es@,
                    )[x]).1.len() <= usize::MAX by {
                        assert(entry_views(es@)[x] == (es@[x].0, es@[x].1@));
                    }
                    lemma_table_align(
                        b@,
                        count64,
                        n64,
                        entry_views(es@),
                        i as int,
                        p as int,
                        hes,
                        c,
                    );
                    assert(enc_entries(hes.skip(i as int), 0) =~= Seq::<u8>::empty());
                    assert(b@.subrange(p as int, b@.len() as int).len() == 0);
                    assert(false);
                }
            }
            return Err(DecodeError);
        }
        let t = SymbolTable { table, count: count64 as i32 };
        proof {
            assert(b@ =~= b@.subrange(0, 8) + (b@.subrange(8, 16) + b@.subrange(
                16,
                b@.len() as int,
            )));
            assert(entry_views(es@).len() == n);
            assert(enc_u64(n64) == enc_u64(entry_views(es@).len() as u64));
            assert(b@ =~= enc_table(entry_views(es@), count64));
            assert(t.spec_count() == count64);
            assert(b@ == enc_table(entry_views(es@), t.spec_count() as i64));
            assert(t@ == map_of_entries(es@, es@.len() as int));
            assert(exists|es2: Seq<(i64, String)>|
                t@ == map_of_entries(es2, es2.len() as int) && b@ == #[trigger] enc_table(
                    entry_views(es2),
                    t.spec_count() as i64,
                ));
            assert(table_decoded(b@, t));
        }
        Ok(t)
    }
}

} // verus!

verus! {

use crate::codec::lemma_enc_u64_prefix;
use crate::codec::lemma_enc_i64_prefix;

proof fn lemma_char_cast_inj(a: char, bb: char)
    requires
        a as u64 == bb as u64,
    ensures
        a == bb,
{
}

proof fn lemma_enc_chars_len(s: Seq<char>, i: int)
    requires
        0 <= i,
    ensures
        enc_chars(s, i).len() == 8 * i,
    decreases i,
{
    if i > 0 {
        lemma_enc_chars_len(s, i - 1);
    }
}

proof fn lemma_enc_chars_agree(s1: Seq<char>, s2: Seq<char>, i: int)
    requires
        i <= s1.len(),
        i <= s2.len(),
        forall|j: int| 0 <= j < i ==> s1[j] == s2[j],
    ensures
        enc_chars(s1, i) == enc_chars(s2, i),
    decreases i,
{
    if i > 0 {
        lemma_enc_chars_agree(s1, s2, i - 1);
    }
}

/// The encoding of the first `n` characters splits at any `j`.
proof fn lemma_enc_chars_split(s: Seq<char>, j: int, n: int)
    requires
        0 <= j <= n <= s.len(),
    ensures
        enc_chars(s, n) == enc_chars(s, j) + enc_chars(s.skip(j), n - j),
    decreases n - j,
{
    if j == n {
        assert(enc_chars(s, n) =~= enc_chars(s, j) + enc_chars(s.skip(j), 0));
    } else {
        lemma_enc_chars_split(s, j, n - 1);
        assert(s.skip(j)[n - 1 - j] == s[n - 1]);
        assert(enc_chars(s.skip(j), n - j) == enc_chars(s.skip(j), n - j - 1) + enc_u64(
            s[n - 1] as u64,
        ));
        assert(enc_chars(s, n) =~= enc_chars(s, j) + enc_chars(s.skip(j), n - j));
    }
}

/// The encoding of the first `n` entries splits at any `i`.
proof fn lemma_enc_entries_split(es: Seq<(i64, Seq<char>)>, i: int, n: int)
    requires
        0 <= i <= n <= es.len(),
    ensures
        enc_entries(es, n) == enc_entries(es, i) + enc_entries(es.skip(i), n - i),
    decreases n - i,
{
    if i == n {
        assert(enc_entries(es, n) =~= enc_entries(es, i) + enc_entries(es.skip(i), 0));
    } else {
        lemma_enc_entries_split(es, i, n - 1);
        assert(es.skip(i)[n - 1 - i] == es[n - 1]);
        assert(enc_entries(es.skip(i), n - i) == enc_entries(es.skip(i), n - i - 1) + enc_i64(
            es[n - 1].0,
        ) + enc_str(es[n - 1].1));
        assert(enc_entries(es, n) =~= enc_entries(es, i) + enc_entries(es.skip(i), n - i));
    }
}

} // verus!

verus! {

proof fn lemma_enc_chars_prefix(s1: Seq<char>, s2: Seq<char>, i: int, r1: Seq<u8>, r2: Seq<u8>)
    requires
        0 <= i <= s1.len(),
        i <= s2.len(),
        enc_chars(s1, i) + r1 == enc_chars(s2, i) + r2,
    ensures
        forall|j: int| 0 <= j < i ==> s1[j] == s2[j],
        r1 == r2,
    decreases i,
{
    if i == 0 {
        assert(enc_chars(s1, 0) + r1 =~= r1);
        assert(enc_chars(s2, 0) + r2 =~= r2);
    } else {
        assert(enc_chars(s1, i) + r1 =~= enc_chars(s1, i - 1) + (enc_u64(s1[i - 1] as u64) + r1));
        assert(enc_chars(s2, i) + r2 =~= enc_chars(s2, i - 1) + (enc_u64(s2[i - 1] as u64) + r2));
        lemma_enc_chars_prefix(s1, s2, i - 1, enc_u64(s1[i - 1] as u64) + r1, enc_u64(
            s2[i - 1] as u64,
        ) + r2);
        lemma_enc_u64_prefix(s1[i - 1] as u64, s2[i - 1] as u64, r1, r2);
        lemma_char_cast_inj(s1[i - 1], s2[i - 1]);
        assert(s1[i - 1] == s2[i - 1]);
    }
}

proof fn lemma_enc_str_prefix(s1: Seq<char>, s2: Seq<char>, r1: Seq<u8>, r2: Seq<u8>)
    requires
        s1.len() <= usize::MAX,
        s2.len() <= usize::MAX,
        enc_str(s1) + r1 == enc_str(s2) + r2,
    ensures
        s1 == s2,
        r1 == r2,
{
    assert(enc_str(s1) + r1 =~= enc_u64(s1.len() as u64) + (enc_chars(s1, s1.len() as int) + r1));
    assert(enc_str(s2) + r2 =~= enc_u64(s2.len() as u64) + (enc_chars(s2, s2.len() as int) + r2));
    lemma_enc_u64_prefix(
        s1.len() as u64,
        s2.len() as u64,
        enc_chars(s1, s1.len() as int) + r1,
        enc_chars(s2, s2.len() as int) + r2,
    );
    assert(s1.len() == s2.len());
    lemma_enc_chars_prefix(s1, s2, s1.len() as int, r1, r2);
    assert(s1 =~= s2);
}

/// Parsed entries align with any encoding of the same byte run: they
/// agree entry for entry, and the remaining bytes are the remaining
/// entries.
proof fn lemma_entries_align(
    esd: Seq<(i64, Seq<char>)>,
    es: Seq<(i64, Seq<char>)>,
    i: int,
    tail: Seq<u8>,
)
    requires
        0 <= i <= esd.len(),
        i <= es.len(),
        forall|x: int| 0 <= x < esd.len() ==> (#[trigger] esd[x]).1.len() <= usize::MAX,
        forall|x: int| 0 <= x < es.len() ==> (#[trigger] es[x]).1.len() <= usize::MAX,
        enc_entries(esd, i) + tail == enc_entries(es, es.len() as int),
    ensures
        forall|x: int| 0 <= x < i ==> esd[x] == es[x],
        tail == enc_entries(es.skip(i), es.len() - i),
    decreases i,
{
    if i == 0 {
        assert(enc_entries(esd, 0) + tail =~= tail);
        assert(es.skip(0) =~= es);
    } else {
        let kd = esd[i - 1].0;
        let td = esd[i - 1].1;
        assert(enc_entries(esd, i) + tail =~= enc_entries(esd, i - 1) + (enc_i64(kd) + (enc_str(td)
            + tail)));
        lemma_entries_align(esd, es, i - 1, enc_i64(kd) + (enc_str(td) + tail));
        let q = es.skip(i - 1);
        let m = es.len() - i + 1;
        lemma_enc_entries_split(q, 1, m);
        assert(q.skip(1) =~= es.skip(i));
        assert(enc_entries(q, 0) =~= Seq::<u8>::empty());
        assert(enc_entries(q, 1) =~= enc_i64(q[0].0) + enc_str(q[0].1));
        assert(q[0] == es[i - 1]);
        assert(enc_entries(q.skip(1), m - 1) == enc_entries(es.skip(i), es.len() - i));
        assert(enc_entries(q, m) == enc_entries(q, 1) + enc_entries(q.skip(1), m - 1));
        assert(enc_entries(q, m) =~= enc_i64(es[i - 1].0) + (enc_str(es[i - 1].1) + enc_entries(
            es.skip(i),
            es.len() - i,
        )));
        lemma_enc_i64_prefix(
            kd,
            es[i - 1].0,
            enc_str(td) + tail,
            enc_str(es[i - 1].1) + enc_entries(es.skip(i), es.len() - i),
        );
        lemma_enc_str_prefix(td, es[i - 1].1, tail, enc_entries(es.skip(i), es.len() - i));
        assert(esd[i - 1] == (esd[i - 1].0, esd[i - 1].1));
        assert(es[i - 1] == (es[i - 1].0, es[i - 1].1));
    }
}

/// The head of a table encoding fixes the counter, the entry count, and
/// where the entries start.
proof fn lemma_table_head(
    b: Seq<u8>,
    count64: i64,
    n64: u64,
    es: Seq<(i64, Seq<char>)>,
    c: i64,
)
    requires
        16 <= b.len(),
        enc_i64(count64) == b.subrange(0, 8),
        enc_u64(n64) == b.subrange(8, 16),
        b == enc_table(es, c),
    ensures
        count64 == c,
        n64 == es.len() as u64,
        b.subrange(16, b.len() as int) == enc_entries(es, es.len() as int),
{
    assert(b =~= enc_i64(count64) + b.subrange(8, b.len() as int));
    assert(b =~= enc_i64(c) + (enc_u64(es.len() as u64) + enc_entries(es, es.len() as int)));
    lemma_enc_i64_prefix(
        count64,
        c,
        b.subrange(8, b.len() as int),
        enc_u64(es.len() as u64) + enc_entries(es, es.len() as int),
    );
    assert(b.subrange(8, b.len() as int) =~= enc_u64(n64) + b.subrange(16, b.len() as int));
    lemma_enc_u64_prefix(
        n64,
        es.len() as u64,
        b.subrange(16, b.len() as int),
        enc_entries(es, es.len() as int),
    );
}

/// What a successful decode means: some entry list rebuilds the table's
/// map, and the bytes are exactly that list's encoding under the table's
/// counter.
pub open spec fn table_decoded(b: Seq<u8>, t: SymbolTable) -> bool {
    exists|es: Seq<(i64, String)>|
        t@ == map_of_entries(es, es.len() as int) && b == #[trigger] enc_table(
            entry_views(es),
            t.spec_count() as i64,
        )
}

/// Whether `b` is exactly the encoding of some entry list and counter a
/// table can hold.
pub open spec fn is_table_encoding(b: Seq<u8>) -> bool {
    exists|es: Seq<(i64, Seq<char>)>, c: i64|
        0 <= c <= i32::MAX && es.len() <= usize::MAX && (forall|x: int|
            0 <= x < es.len() ==> (#[trigger] es[x]).1.len() <= usize::MAX) && b
            == #[trigger] enc_table(es, c)
}

} // verus!

verus! {

/// The views of decoded entries.
pub open spec fn entry_views(esd: Seq<(i64, String)>) -> Seq<(i64, Seq<char>)> {
    esd.map_values(|q: (i64, String)| (q.0, q.1@))
}

proof fn lemma_char_scalar(c: char)
    ensures
        (c as u32) < 0xD800 || (0xE000 <= c as u32 && c as u32 <= 0x10FFFF),
        (c as u64) <= 0x10FFFF,
        (c as u64) as u32 == c as u32,
        ((c as u32) as u64) == c as u64,
{
}

/// One entry peels off the front of an entry-run encoding.
proof fn lemma_entries_peel(q: Seq<(i64, Seq<char>)>, m: int)
    requires
        1 <= m <= q.len(),
    ensures
        enc_entries(q, m) == enc_i64(q[0].0) + (enc_str(q[0].1) + enc_entries(q.skip(1), m - 1)),
{
    lemma_enc_entries_split(q, 1, m);
    assert(enc_entries(q, 0) =~= Seq::<u8>::empty());
    assert(enc_entries(q, 1) =~= enc_i64(q[0].0) + enc_str(q[0].1));
    assert(enc_entries(q, m) =~= enc_i64(q[0].0) + (enc_str(q[0].1) + enc_entries(
        q.skip(1),
        m - 1,
    )));
}

/// The parse state of the entry loop aligns with any whole-table encoding.
#[verifier::spinoff_prover]
proof fn lemma_table_align(
    b: Seq<u8>,
    count64: i64,
    n64: u64,
    esd: Seq<(i64, Seq<char>)>,
    i: int,
    p: int,
    es: Seq<(i64, Seq<char>)>,
    c: i64,
)
    requires
        16 <= p <= b.len(),
        enc_i64(count64) == b.subrange(0, 8),
        enc_u64(n64) == b.subrange(8, 16),
        b.subrange(16, p) == enc_entries(esd, i),
        0 <= i <= esd.len(),
        i <= n64,
        forall|x: int| 0 <= x < esd.len() ==> (#[trigger] esd[x]).1.len() <= usize::MAX,
        es.len() <= usize::MAX,
        forall|x: int| 0 <= x < es.len() ==> (#[trigger] es[x]).1.len() <= usize::MAX,
        b == enc_table(es, c),
    ensures
        count64 == c,
        n64 == es.len() as u64,
        i <= es.len(),
        forall|x: int| 0 <= x < i ==> esd[x] == es[x],
        b.subrange(p, b.len() as int) == enc_entries(es.skip(i), es.len() - i),
{
    lemma_table_head(b, count64, n64, es, c);
    assert(b.subrange(16, b.len() as int) =~= enc_entries(esd, i) + b.subrange(p, b.len() as int));
    lemma_entries_align(esd, es, i, b.subrange(p, b.len() as int));
}

/// The parse state of the character loop aligns with the entry's text.
proof fn lemma_str_align(
    b: Seq<u8>,
    p3: int,
    cur: Seq<char>,
    j: int,
    pc: int,
    t: Seq<char>,
    rest: Seq<u8>,
)
    requires
        0 <= p3 <= pc <= b.len(),
        b.subrange(p3, pc) == enc_chars(cur, j),
        0 <= j <= cur.len(),
        j <= t.len(),
        b.subrange(p3, b.len() as int) == enc_chars(t, t.len() as int) + rest,
    ensures
        forall|x: int| 0 <= x < j ==> cur[x] == t[x],
        b.subrange(pc, b.len() as int) == enc_chars(t.skip(j), t.len() - j) + rest,
{
    lemma_enc_chars_split(t, j, t.len() as int);
    assert(b.subrange(p3, b.len() as int) =~= enc_chars(cur, j) + b.subrange(pc, b.len() as int));
    assert(b.subrange(p3, b.len() as int) =~= enc_chars(t, j) + (enc_chars(t.skip(j), t.len() - j)
        + rest));
    lemma_enc_chars_prefix(
        cur,
        t,
        j,
        b.subrange(pc, b.len() as int),
        enc_chars(t.skip(j), t.len() - j) + rest,
    );
}

} // verus!

verus! {

/// The parse state right after an entry's key and text length were read
/// aligns with any whole-table encoding.
#[verifier::rlimit(100)]
#[verifier::spinoff_prover]
proof fn lemma_entry_stage(
    b: Seq<u8>,
    count64: i64,
    n64: u64,
    esd: Seq<(i64, Seq<char>)>,
    i: int,
    p: int,
    key: i64,
    clen64: u64,
    es: Seq<(i64, Seq<char>)>,
    c: i64,
)
    requires
        16 <= p,
        p + 16 <= b.len(),
        enc_i64(count64) == b.subrange(0, 8),
        enc_u64(n64) == b.subrange(8, 16),
        b.subrange(16, p) == enc_entries(esd, i),
        0 <= i <= esd.len(),
        i < n64,
        forall|x: int| 0 <= x < esd.len() ==> (#[trigger] esd[x]).1.len() <= usize::MAX,
        es.len() <= usize::MAX,
        forall|x: int| 0 <= x < es.len() ==> (#[trigger] es[x]).1.len() <= usize::MAX,
        b == enc_table(es, c),
        enc_i64(key) == b.subrange(p, p + 8),
        enc_u64(clen64) == b.subrange(p + 8, p + 16),
    ensures
        i < es.len(),
        key == es[i].0,
        clen64 == es[i].1.len() as u64,
        b.subrange(p + 16, b.len() as int) == enc_chars(es[i].1, es[i].1.len() as int)
            + enc_entries(es.skip(i + 1), es.len() - i - 1),
{
    lemma_table_align(b, count64, n64, esd, i, p, es, c);
    let q = es.skip(i);
    let m = es.len() - i;
    lemma_entries_peel(q, m);
    assert(q[0] == es[i]);
    assert(q.skip(1) =~= es.skip(i + 1));
    let after_key = enc_str(es[i].1) + enc_entries(es.skip(i + 1), es.len() - i - 1);
    assert(b.subrange(p, b.len() as int) =~= enc_i64(key) + b.subrange(p + 8, b.len() as int));
    lemma_enc_i64_prefix(key, es[i].0, b.subrange(p + 8, b.len() as int), after_key);
    let t0 = es[i].1;
    assert(after_key =~= enc_u64(t0.len() as u64) + (enc_chars(t0, t0.len() as int) + enc_entries(
        es.skip(i + 1),
        es.len() - i - 1,
    )));
    assert(b.subrange(p + 8, b.len() as int) =~= enc_u64(clen64) + b.subrange(
        p + 16,
        b.len() as int,
    ));
    lemma_enc_u64_prefix(
        clen64,
        t0.len() as u64,
        b.subrange(p + 16, b.len() as int),
        enc_chars(t0, t0.len() as int) + enc_entries(es.skip(i + 1), es.len() - i - 1),
    );
}

/// One character peels off the front of a character-run encoding.
proof fn lemma_chars_peel(q: Seq<char>, m: int)
    requires
        1 <= m <= q.len(),
    ensures
        enc_chars(q, m) == enc_u64(q[0] as u64) + enc_chars(q.skip(1), m - 1),
{
    lemma_enc_chars_split(q, 1, m);
    assert(enc_chars(q, 0) =~= Seq::<u8>::empty());
    assert(enc_chars(q, 1) =~= enc_u64(q[0] as u64));
}

} // verus!

verus! {

proof fn lemma_enc_entries_agree(
    es1: Seq<(i64, Seq<char>)>,
    es2: Seq<(i64, Seq<char>)>,
    i: int,
)
    requires
        i <= es1.len(),
        i <= es2.len(),
        forall|j: int| 0 <= j < i ==> es1[j] == es2[j],
    ensures
        enc_entries(es1, i) == enc_entries(es2, i),
    decreases i,
{
    if i > 0 {
        lemma_enc_entries_agree(es1, es2, i - 1);
    }
}

} // verus!

verus! {

/// The facts the character loop carries, gathered in one piece.
pub open spec fn char_stage_state(
    b: Seq<u8>,
    count64: i64,
    n64: u64,
    esd: Seq<(i64, Seq<char>)>,
    i: int,
    p: int,
    key: i64,
    clen64: u64,
    cur: Seq<char>,
    j: int,
    pc: int,
) -> bool {
    &&& 16 <= p
    &&& p + 16 <= b.len()
    &&& enc_i64(count64) == b.subrange(0, 8)
    &&& enc_u64(n64) == b.subrange(8, 16)
    &&& b.subrange(16, p) == enc_entries(esd, i)
    &&& 0 <= i <= esd.len()
    &&& i < n64
    &&& (forall|x: int| 0 <= x < esd.len() ==> (#[trigger] esd[x]).1.len() <= usize::MAX)
    &&& enc_i64(key) == b.subrange(p, p + 8)
    &&& enc_u64(clen64) == b.subrange(p + 8, p + 16)
    &&& 0 <= j <= cur.len()
    &&& j < clen64
    &&& p + 16 <= pc <= b.len()
    &&& b.subrange(p + 16, pc) == enc_chars(cur, j)
}

/// In the character loop, any whole-table encoding pins the next word to
/// the next character's scalar value, with enough bytes left to read it.
#[verifier::rlimit(100)]
#[verifier::spinoff_prover]
proof fn lemma_char_stage_next(
    b: Seq<u8>,
    count64: i64,
    n64: u64,
    esd: Seq<(i64, Seq<char>)>,
    i: int,
    p: int,
    key: i64,
    clen64: u64,
    cur: Seq<char>,
    j: int,
    pc: int,
    es: Seq<(i64, Seq<char>)>,
    c: i64,
)
    requires
        char_stage_state(b, count64, n64, esd, i, p, key, clen64, cur, j, pc),
        es.len() <= usize::MAX,
        forall|x: int| 0 <= x < es.len() ==> (#[trigger] es[x]).1.len() <= usize::MAX,
        b == enc_table(es, c),
    ensures
        i < es.len(),
        j < es[i].1.len(),
        pc + 8 <= b.len(),
        b.subrange(pc, pc + 8) == enc_u64(es[i].1[j] as u64),
{
    lemma_entry_stage(b, count64, n64, esd, i, p, key, clen64, es, c);
    let t0 = es[i].1;
    let rest2 = enc_entries(es.skip(i + 1), es.len() - i - 1);
    lemma_str_align(b, p + 16, cur, j, pc, t0, rest2);
    lemma_chars_peel(t0.skip(j), t0.len() - j);
    assert(t0.skip(j)[0] == t0[j]);
    assert(b.subrange(pc, b.len() as int) =~= enc_u64(t0[j] as u64) + (enc_chars(
        t0.skip(j).skip(1),
        t0.len() - j - 1,
    ) + rest2));
    assert(b.subrange(pc, b.len() as int).len() >= 8);
    assert(b.subrange(pc, pc + 8) =~= enc_u64(t0[j] as u64));
}

/// No table can be encoded when the bytes end inside a character run.
proof fn lemma_no_table_char_read(
    b: Seq<u8>,
    count64: i64,
    n64: u64,
    esd: Seq<(i64, Seq<char>)>,
    i: int,
    p: int,
    key: i64,
    clen64: u64,
    cur: Seq<char>,
    j: int,
    pc: int,
)
    requires
        char_stage_state(b, count64, n64, esd, i, p, key, clen64, cur, j, pc),
        pc + 8 > b.len(),
    ensures
        !is_table_encoding(b),
{
    if is_table_encoding(b) {
        let (es, c) = choose|es: Seq<(i64, Seq<char>)>, c: i64|
            0 <= c <= i32::MAX && es.len() <= usize::MAX && (forall|x: int|
                0 <= x < es.len() ==> (#[trigger] es[x]).1.len() <= usize::MAX) && b
                == #[trigger] enc_table(es, c);
        lemma_char_stage_next(b, count64, n64, esd, i, p, key, clen64, cur, j, pc, es, c);
    }
}

/// No table can be encoded when the next character word is not a valid
/// scalar value.
proof fn lemma_no_table_char_word(
    b: Seq<u8>,
    count64: i64,
    n64: u64,
    esd: Seq<(i64, Seq<char>)>,
    i: int,
    p: int,
    key: i64,
    clen64: u64,
    cur: Seq<char>,
    j: int,
    pc: int,
    u: u64,
)
    requires
        char_stage_state(b, count64, n64, esd, i, p, key, clen64, cur, j, pc),
        pc + 8 <= b.len(),
        enc_u64(u) == b.subrange(pc, pc + 8),
        u > 0xffffffffu64 || !((u as u32) < 0xD800 || (0xE000 <= u as u32 && u as u32
            <= 0x10FFFF)),
    ensures
        !is_table_encoding(b),
{
    if is_table_encoding(b) {
        let (es, c) = choose|es: Seq<(i64, Seq<char>)>, c: i64|
            0 <= c <= i32::MAX && es.len() <= usize::MAX && (forall|x: int|
                0 <= x < es.len() ==> (#[trigger] es[x]).1.len() <= usize::MAX) && b
                == #[trigger] enc_table(es, c);
        lemma_char_stage_next(b, count64, n64, esd, i, p, key, clen64, cur, j, pc, es, c);
        lemma_enc_u64_prefix(u, es[i].1[j] as u64, Seq::empty(), Seq::empty());
        lemma_char_scalar(es[i].1[j]);
        assert((u as u32) as u64 == u) by (bit_vector)
            requires
                u <= 0xffffffffu64,
        ;
    }
}

} // verus!
