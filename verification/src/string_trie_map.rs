//! A string-to-string key-value map built from the trie and the symbol
//! table: whitespace-separated words are interned to their hashes, and the
//! hash sequences are the trie's keys and values.

use vstd::prelude::*;

verus! {

use vstd::string::StringExecFns;
use crate::trie::Trie;
use crate::trie::NodeV;
use crate::trie::lookup;
use crate::trie::insert_of;
use crate::trie::remove_of;
use crate::trie::can_insert;
use crate::symboltable::SymbolTable;
use crate::symboltable::fnv_hash_of;

pub uninterp spec fn ws_split_of(s: Seq<char>) -> Seq<Seq<char>>;

/// Relies on str::split_whitespace: the maximal whitespace-free runs of
/// the text, in order, a function of the text alone.
#[verifier::external_body]
fn split_ws(s: &str) -> (r: Vec<String>)
    ensures
        r@.map_values(|t: String| t@) == ws_split_of(s@),
{
    s.split_whitespace().map(|x| x.to_string()).collect()
}

/// The symbol-key sequence of a token sequence.
pub open spec fn sym_seq(ts: Seq<Seq<char>>) -> Seq<i64> {
    ts.map_values(|t: Seq<char>| fnv_hash_of(t) as i64)
}

/// Whether every token's key is present in the table.
pub open spec fn toks_resolved(m: Map<i64, String>, ts: Seq<Seq<char>>) -> bool {
    forall|i: int| 0 <= i < ts.len() ==> m.contains_key(fnv_hash_of(#[trigger] ts[i]) as i64)
}

/// Whether every symbol key is present in the table.
pub open spec fn syms_resolved(m: Map<i64, String>, vs: Seq<i64>) -> bool {
    forall|i: int| 0 <= i < vs.len() ==> m.contains_key(#[trigger] vs[i])
}

/// The stored symbols of `vs` joined with two spaces.
pub open spec fn joined_syms(m: Map<i64, String>, vs: Seq<i64>) -> Seq<char>
    decreases vs.len(),
{
    if vs.len() == 0 {
        Seq::empty()
    } else if vs.len() == 1 {
        m[vs[0]]@
    } else {
        joined_syms(m, vs.drop_last()) + seq![' ', ' '] + m[vs.last()]@
    }
}

/// What turning a stored value back into text yields: the joined symbols,
/// or nothing if some symbol is unknown.
pub open spec fn val_to_string_of(m: Map<i64, String>, vs: Seq<i64>) -> Option<Seq<char>> {
    if syms_resolved(m, vs) {
        Some(joined_syms(m, vs))
    } else {
        None
    }
}

/// What `get` yields for the text `s` against table `m` and trie `t`.
pub open spec fn get_of(m: Map<i64, String>, t: NodeV, s: Seq<char>) -> Option<Seq<char>> {
    let ts = ws_split_of(s);
    if !toks_resolved(m, ts) {
        None
    } else {
        let ks = sym_seq(ts);
        if ks.len() == 0 {
            None
        } else {
            match lookup(t, ks) {
                Some(vs) => val_to_string_of(m, vs),
                None => None,
            }
        }
    }
}

pub open spec fn opt_string_view(r: Option<String>) -> Option<Seq<char>> {
    match r {
        Some(s) => Some(s@),
        None => None,
    }
}

/// Intern every token, handing back their keys in order.
fn intern_tokens(table: &mut SymbolTable, toks: Vec<String>) -> (syms: Vec<i64>)
    ensures
        syms@ == sym_seq(toks@.map_values(|t: String| t@)),
        forall|i: int| 0 <= i < syms@.len() ==> final(table)@.contains_key(#[trigger] syms@[i]),
        forall|k: i64| old(table)@.contains_key(k) ==> final(table)@.contains_key(k),
{
    let ghost tviews = toks@.map_values(|t: String| t@);
    let mut syms: Vec<i64> = Vec::new();
    let mut i: usize = 0;
    while i < toks.len()
        invariant
            i <= toks@.len(),
            tviews == toks@.map_values(|t: String| t@),
            syms@.len() == i,
            forall|j: int| 0 <= j < i ==> syms@[j] == sym_seq(tviews)[j],
            forall|j: int| 0 <= j < i ==> table@.contains_key(#[trigger] syms@[j]),
            forall|k: i64| old(table)@.contains_key(k) ==> table@.contains_key(k),
        decreases toks@.len() - i,
    {
        let tok = toks[i].clone();
        let key = table.add_symbol(tok);
        syms.push(key);
        i += 1;
    }
    proof {
        assert(syms@ =~= sym_seq(tviews));
    }
    syms
}

/// A string-to-string key-value mapping built using the `Trie` and
/// `SymbolTable` data structures.
#[derive(Debug)]
pub struct StringTrieMap {
    trie: Trie,
    table: SymbolTable,
}

impl StringTrieMap {
    /// The trie holding the interned entries.
    pub closed spec fn trie_view(&self) -> NodeV {
        self.trie@
    }

    /// The interning table.
    pub closed spec fn table_view(&self) -> Map<i64, String> {
        self.table@
    }

    /// The shape invariant: a well-formed trie underneath.
    pub closed spec fn wf(&self) -> bool {
        self.trie.wf()
    }

    /// The number of entries in the underlying trie.
    pub closed spec fn spec_len(&self) -> nat {
        self.trie.spec_len()
    }

    /// Create a new empty map.
    pub fn new() -> (m: StringTrieMap)
        ensures
            m.wf(),
            m.spec_len() == 0,
            m.table_view() == Map::<i64, String>::empty(),
            forall|k: Seq<i64>| lookup(m.trie_view(), k) is None,
    {
        StringTrieMap { trie: Trie::new(), table: SymbolTable::new() }
    }

    /// Insert a key-value pair: both texts are split on whitespace, every
    /// word interned, and the key sequence mapped to the value sequence.
    /// A key whose descent would meet the bucket collision the trie
    /// refuses, or a full trie, leaves the trie unchanged.
    pub fn insert(&mut self, k: &str, v: &str)
        requires
            old(self).wf(),
        ensures
            final(self).wf(),
            ({
                let ks = sym_seq(ws_split_of(k@));
                let vs = sym_seq(ws_split_of(v@));
                &&& (can_insert(old(self).trie_view(), ks) && old(self).spec_len() < usize::MAX
                    ==> final(self).trie_view() == insert_of(old(self).trie_view(), ks, vs).0
                    && lookup(final(self).trie_view(), ks) == Some(vs))
                &&& (!(can_insert(old(self).trie_view(), ks) && old(self).spec_len() < usize::MAX)
                    ==> final(self).trie_view() == old(self).trie_view())
                &&& forall|i: int|
                    0 <= i < ks.len() ==> final(self).table_view().contains_key(#[trigger] ks[i])
                &&& forall|i: int|
                    0 <= i < vs.len() ==> final(self).table_view().contains_key(#[trigger] vs[i])
                &&& forall|key: i64|
                    old(self).table_view().contains_key(key) ==> #[trigger] final(
                        self).table_view().contains_key(key)
            }),
    {
        let key_toks = split_ws(k);
        let val_toks = split_ws(v);
        let key_syms = intern_tokens(&mut self.table, key_toks);
        let val_syms = intern_tokens(&mut self.table, val_toks);
        if self.trie.len() < usize::MAX {
            let _unused = self.trie.try_insert(key_syms, val_syms);
        }
    }

    /// Look the text key up: every word must be a known symbol, the
    /// symbol sequence must be stored, and every value symbol must be
    /// known; the stored words come back joined with two spaces.
    pub fn get(&self, s: &str) -> (r: Option<String>)
        requires
            self.wf(),
        ensures
            opt_string_view(r) == get_of(self.table_view(), self.trie_view(), s@),
    {
        let syms = match self.string_to_symbols(s) {
            Some(syms) => syms,
            None => {
                return None;
            },
        };
        match self.trie.get(syms) {
            Some(val) => {
                let owned = copy_vals_local(val);
                self.trie_val_to_string(owned)
            },
            None => None,
        }
    }

    /// Remove the text key, handing back the joined text of the value it
    /// stored.  The interning table keeps its symbols: tracking which of
    /// them become unused would cost more than leaving them in place.
    pub fn remove(&mut self, s: &str) -> (r: Option<String>)
        requires
            old(self).wf(),
        ensures
            final(self).wf(),
            final(self).table_view() == old(self).table_view(),
            ({
                let ts = ws_split_of(s@);
                let ks = sym_seq(ts);
                &&& (!toks_resolved(old(self).table_view(), ts) ==> *final(self) == *old(self)
                    && r is None)
                &&& (toks_resolved(old(self).table_view(), ts) && ks.len() > 0 ==> final(
                    self).trie_view() == remove_of(old(self).trie_view(), ks).0 && opt_string_view(r)
                    == (match lookup(old(self).trie_view(), ks) {
                    Some(vs) => val_to_string_of(old(self).table_view(), vs),
                    None => None,
                }))
                &&& (toks_resolved(old(self).table_view(), ts) && ks.len() == 0 ==> *final(self)
                    == *old(self) && r is None)
            }),
    {
        let syms = match self.string_to_symbols(s) {
            Some(syms) => syms,
            None => {
                return None;
            },
        };
        match self.trie.remove(syms) {
            Some(val) => self.trie_val_to_string(val),
            None => None,
        }
    }

    /// Number of entries in the map.
    pub fn len(&self) -> (n: usize)
        ensures
            n == self.spec_len(),
    {
        self.trie.len()
    }

    /// Turn a stored value back into text: every symbol looked up and the
    /// words joined with two spaces.
    fn trie_val_to_string(&self, val: Vec<i64>) -> (r: Option<String>)
        ensures
            opt_string_view(r) == val_to_string_of(self.table_view(), val@),
    {
        let mut res = String::new();
        let mut i: usize = 0;
        while i < val.len()
            invariant
                i <= val@.len(),
                forall|j: int| 0 <= j < i ==> self.table_view().contains_key(#[trigger] val@[j]),
                res@ == joined_syms(self.table_view(), val@.take(i as int)),
            decreases val@.len() - i,
        {
            let sym = val[i];
            match self.table.get_symbol(sym) {
                Some(text) => {
                    if i > 0 {
                        res.append("  ");
                    }
                    res.append(text.as_str());
                    proof {
                        reveal_strlit("  ");
                        assert("  "@ =~= seq![' ', ' ']);
                        assert(val@.take(i + 1).drop_last() =~= val@.take(i as int));
                        assert(val@.take(i + 1).last() == val@[i as int]);
                        assert(res@ =~= joined_syms(self.table_view(), val@.take(i + 1)));
                    }
                },
                None => {
                    return None;
                },
            }
            i += 1;
        }
        proof {
            assert(val@.take(val@.len() as int) =~= val@);
        }
        Some(res)
    }

    /// Resolve every word of the text to its symbol key, or nothing if
    /// some word was never interned.
    fn string_to_symbols(&self, s: &str) -> (r: Option<Vec<i64>>)
        ensures
            match r {
                Some(syms) => toks_resolved(self.table_view(), ws_split_of(s@)) && syms@ == sym_seq(
                    ws_split_of(s@),
                ),
                None => !toks_resolved(self.table_view(), ws_split_of(s@)),
            },
    {
        let toks = split_ws(s);
        let ghost ts = ws_split_of(s@);
        let mut syms: Vec<i64> = Vec::new();
        let mut i: usize = 0;
        while i < toks.len()
            invariant
                i <= toks@.len(),
                ts == toks@.map_values(|t: String| t@),
                ts == ws_split_of(s@),
                syms@.len() == i,
                forall|j: int| 0 <= j < i ==> syms@[j] == sym_seq(ts)[j],
                forall|j: int|
                    0 <= j < i ==> self.table_view().contains_key(
                        fnv_hash_of(#[trigger] ts[j]) as i64,
                    ),
            decreases toks@.len() - i,
        {
            let tok = &toks[i];
            match self.table.get_key(tok.as_str()) {
                Some(key) => {
                    syms.push(key);
                },
                None => {
                    proof {
                        assert(ts[i as int] == toks@[i as int]@);
                        assert(!self.table_view().contains_key(
                            fnv_hash_of(ts[i as int]) as i64,
                        ));
                    }
                    return None;
                },
            }
            i += 1;
        }
        proof {
            assert(syms@ =~= sym_seq(ts));
        }
        Some(syms)
    }
}

fn copy_vals_local(v: &Vec<i64>) -> (r: Vec<i64>)
    ensures
        r@ == v@,
{
    let mut r: Vec<i64> = Vec::new();
    let mut i: usize = 0;
    while i < v.len()
        invariant
            i <= v@.len(),
            r@ == v@.take(i as int),
        decreases v@.len() - i,
    {
        let x = v[i];
        r.push(x);
        proof {
            assert(r@ =~= v@.take(i + 1));
        }
        i += 1;
    }
    proof {
        assert(r@ =~= v@);
    }
    r
}

} // verus!

verus! {

use crate::codec::DecodeError;
use crate::codec::enc_trie;
use crate::symboltable::entries_match;
use crate::symboltable::enc_table;
use crate::symboltable::map_of_entries;
use crate::symboltable::entry_views;

/// What a successful decode of the table part means for the map: some
/// entry list rebuilds the interning table, and the bytes are exactly
/// that list's encoding under the table's counter.
pub open spec fn stm_table_decoded(b: Seq<u8>, m: StringTrieMap) -> bool {
    exists|es: Seq<(i64, String)>|
        m.table_view() == map_of_entries(es, es.len() as int) && b == #[trigger] enc_table(
            entry_views(es),
            m.table_count() as i64,
        )
}

impl StringTrieMap {
    /// Serialize the underlying trie.
    pub fn trie_to_bytes(&self) -> (r: Vec<u8>)
        requires
            self.wf(),
        ensures
            r@ == enc_trie(self.trie_view()),
    {
        self.trie.to_bytes()
    }

    /// The interning table's additions counter.
    pub closed spec fn table_count(&self) -> int {
        self.table.spec_count()
    }

    /// Serialize the interning table.
    pub fn table_to_bytes(&self) -> (r: Vec<u8>)
        ensures
            exists|es: Seq<(i64, Seq<char>)>| #[trigger] entries_match(es, self.table_view())
                && r@ == enc_table(es, self.table_count() as i64),
    {
        let r = self.table.to_bytes();
        proof {
            let c0 = self.table.spec_count() as i64;
            let es = choose|es: Seq<(i64, Seq<char>)>|
                #[trigger] entries_match(es, self.table@) && r@ == enc_table(es, c0);
            assert(entries_match(es, self.table_view()));
            assert(r@ == enc_table(es, c0));
        }
        r
    }

    /// Rebuild a map from the serialized trie and table.
    pub fn from_parts_bytes(trie_bytes: &Vec<u8>, table_bytes: &Vec<u8>) -> (r: Result<
        StringTrieMap,
        DecodeError,
    >)
        ensures
            match r {
                Ok(m) => m.wf() && enc_trie(m.trie_view()) == trie_bytes@ && stm_table_decoded(
                    table_bytes@,
                    m,
                ),
                Err(_) => !crate::codec::is_trie_encoding(trie_bytes@)
                    || !crate::symboltable::is_table_encoding(table_bytes@),
            },
    {
        let trie = match Trie::from_bytes(trie_bytes) {
            Ok(t) => t,
            Err(e) => {
                return Err(e);
            },
        };
        let table = match SymbolTable::from_bytes(table_bytes) {
            Ok(t) => t,
            Err(e) => {
                return Err(e);
            },
        };
        let ghost table_snap = table;
        let m = StringTrieMap { trie, table };
        proof {
            let es = choose|es: Seq<(i64, String)>|
                table_snap@ == map_of_entries(es, es.len() as int) && table_bytes@
                    == #[trigger] enc_table(entry_views(es), table_snap.spec_count() as i64);
            assert(m.table_view() == map_of_entries(es, es.len() as int));
            assert(table_bytes@ == enc_table(entry_views(es), m.table_count() as i64));
            assert(stm_table_decoded(table_bytes@, m));
        }
        Ok(m)
    }
}

} // verus!
