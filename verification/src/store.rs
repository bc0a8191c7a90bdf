//! The index store: a typed wrapper over an ordered key-value table.
//! Keys carry a one-byte namespace tag — headers under the tag byte
//! 0x68 keyed by big-endian height, transaction records under 0x74
//! keyed by an id prefix, and the sync position under 0x73. The table
//! is held sorted by key, so equal contents have equal layout.

use vstd::prelude::*;

use crate::codec::{be32_at, be32_bytes, le32_at, le32_bytes, lemma_be32_roundtrip, push_be32,
    read_be32, read_le32, bytes_views};
use crate::record::{record_bytes, spec_decode_record, decode_record, encode_record,
    lemma_record_roundtrip, TransactionResponse};

verus! {

// ---------------------------------------------------------------------
// Lexicographic byte order
// ---------------------------------------------------------------------

/// Strict lexicographic order on byte sequences: the order of the
/// underlying table's keys.
pub open spec fn lex_lt(a: Seq<u8>, b: Seq<u8>) -> bool
    decreases a.len(),
{
    if b.len() == 0 {
        false
    } else if a.len() == 0 {
        true
    } else if a.first() < b.first() {
        true
    } else if a.first() > b.first() {
        false
    } else {
        lex_lt(a.drop_first(), b.drop_first())
    }
}

/// The order is irreflexive.
pub proof fn lemma_lex_irrefl(a: Seq<u8>)
    ensures
        !lex_lt(a, a),
    decreases a.len(),
{
    if a.len() > 0 {
        lemma_lex_irrefl(a.drop_first());
    }
}

/// Two sequences neither of which precedes the other are equal.
pub proof fn lemma_lex_connex(a: Seq<u8>, b: Seq<u8>)
    requires
        !lex_lt(a, b),
        !lex_lt(b, a),
    ensures
        a == b,
    decreases a.len(),
{
    if a.len() == 0 || b.len() == 0 {
        assert(a =~= b);
    } else {
        lemma_lex_connex(a.drop_first(), b.drop_first());
        assert(a =~= seq![a.first()] + a.drop_first());
        assert(b =~= seq![b.first()] + b.drop_first());
    }
}

/// The order is transitive.
pub proof fn lemma_lex_trans(a: Seq<u8>, b: Seq<u8>, c: Seq<u8>)
    requires
        lex_lt(a, b),
        lex_lt(b, c),
    ensures
        lex_lt(a, c),
    decreases a.len(),
{
    if a.len() == 0 {
    } else if b.len() == 0 {
    } else if c.len() == 0 {
    } else {
        if a.first() == b.first() && b.first() == c.first() {
            lemma_lex_trans(a.drop_first(), b.drop_first(), c.drop_first());
        }
    }
}

/// Three-way comparison result of two byte keys.
pub enum Cmp {
    Lt,
    Eq,
    Gt,
}

/// The first `i` bytes being equal, the order is decided past them.
pub proof fn lemma_lex_skip(a: Seq<u8>, b: Seq<u8>, i: int)
    requires
        0 <= i <= a.len(),
        i <= b.len(),
        forall|j: int| 0 <= j < i ==> a[j] == b[j],
    ensures
        lex_lt(a, b) == lex_lt(a.skip(i), b.skip(i)),
    decreases i,
{
    if i > 0 {
        assert(a.len() > 0 && b.len() > 0);
        assert(a[0] == b[0]);
        lemma_lex_skip(a.drop_first(), b.drop_first(), i - 1);
        assert(a.drop_first().skip(i - 1) =~= a.skip(i));
        assert(b.drop_first().skip(i - 1) =~= b.skip(i));
    } else {
        assert(a.skip(0) =~= a);
        assert(b.skip(0) =~= b);
    }
}

/// Compare two byte keys in lexicographic order.
pub fn bytes_cmp(a: &Vec<u8>, b: &Vec<u8>) -> (r: Cmp)
    ensures
        r is Lt <==> lex_lt(a@, b@),
        r is Eq <==> a@ == b@,
        r is Gt <==> lex_lt(b@, a@),
{
    let mut i: usize = 0;
    let na = a.len();
    let nb = b.len();
    while i < na && i < nb
        invariant
            i <= na,
            i <= nb,
            na == a@.len(),
            nb == b@.len(),
            forall|j: int| 0 <= j < i ==> a@[j] == b@[j],
        decreases na - i,
    {
        if a[i] < b[i] {
            proof {
                lemma_lex_skip(a@, b@, i as int);
                lemma_lex_skip(b@, a@, i as int);
                assert(lex_lt(a@.skip(i as int), b@.skip(i as int)));
                assert(!lex_lt(b@.skip(i as int), a@.skip(i as int)));
                if a@ == b@ {
                    assert(a@[i as int] == b@[i as int]);
                }
            }
            return Cmp::Lt;
        }
        if a[i] > b[i] {
            proof {
                lemma_lex_skip(a@, b@, i as int);
                lemma_lex_skip(b@, a@, i as int);
                if a@ == b@ {
                    assert(a@[i as int] == b@[i as int]);
                }
            }
            return Cmp::Gt;
        }
        i = i + 1;
    }
    proof {
        lemma_lex_skip(a@, b@, i as int);
        lemma_lex_skip(b@, a@, i as int);
    }
    if na == nb {
        assert(a@ =~= b@);
        proof {
            lemma_lex_irrefl(a@);
        }
        Cmp::Eq
    } else if na < nb {
        assert(lex_lt(a@.skip(i as int), b@.skip(i as int)));
        assert(!lex_lt(b@.skip(i as int), a@.skip(i as int)));
        assert(a@ != b@);
        Cmp::Lt
    } else {
        assert(lex_lt(b@.skip(i as int), a@.skip(i as int)));
        assert(!lex_lt(a@.skip(i as int), b@.skip(i as int)));
        assert(a@ != b@);
        Cmp::Gt
    }
}

// ---------------------------------------------------------------------
// The table as a map
// ---------------------------------------------------------------------

/// The contents of a table entry sequence.
pub open spec fn entry_views(s: Seq<(Vec<u8>, Vec<u8>)>) -> Seq<(Seq<u8>, Seq<u8>)> {
    s.map_values(|p: (Vec<u8>, Vec<u8>)| (p.0@, p.1@))
}

/// The key-to-value map a table entry sequence denotes; later entries
/// shadow earlier ones.
pub open spec fn kv_of(s: Seq<(Seq<u8>, Seq<u8>)>) -> Map<Seq<u8>, Seq<u8>>
    decreases s.len(),
{
    if s.len() == 0 {
        Map::<Seq<u8>, Seq<u8>>::empty()
    } else {
        kv_of(s.drop_last()).insert(s.last().0, s.last().1)
    }
}

/// Keys sorted strictly ascending.
pub open spec fn entries_sorted(s: Seq<(Seq<u8>, Seq<u8>)>) -> bool {
    forall|i: int, j: int|
        #![trigger s[i], s[j]]
        0 <= i < j < s.len() ==> lex_lt(s[i].0, s[j].0)
}

/// A key is in the map exactly when some entry carries it.
pub proof fn lemma_kv_of_key(s: Seq<(Seq<u8>, Seq<u8>)>, k: Seq<u8>)
    ensures
        kv_of(s).contains_key(k) <==> exists|i: int| 0 <= i < s.len() && (#[trigger] s[i]).0 == k,
    decreases s.len(),
{
    if s.len() > 0 {
        lemma_kv_of_key(s.drop_last(), k);
        if s.last().0 == k {
            assert(s[s.len() - 1].0 == k);
        } else if kv_of(s).contains_key(k) {
            let i = choose|i: int| 0 <= i < s.drop_last().len() && (#[trigger] s.drop_last()[
                i
            ]).0 == k;
            assert(s[i].0 == k);
        } else {
            assert(forall|i: int|
                0 <= i < s.len() - 1 ==> (#[trigger] s[i]) == s.drop_last()[i]);
        }
    }
}

/// An entry not shadowed by a later one gives the map's value at its
/// key.
pub proof fn lemma_kv_of_index(s: Seq<(Seq<u8>, Seq<u8>)>, i: int)
    requires
        0 <= i < s.len(),
        forall|j: int| i < j < s.len() ==> (#[trigger] s[j]).0 != s[i].0,
    ensures
        kv_of(s).contains_key(s[i].0),
        kv_of(s)[s[i].0] == s[i].1,
    decreases s.len(),
{
    if i == s.len() - 1 {
    } else {
        assert(forall|j: int|
            i < j < s.drop_last().len() ==> (#[trigger] s.drop_last()[j]).0 != s.drop_last()[
                i
            ].0) by {
            assert(forall|j: int|
                0 <= j < s.len() - 1 ==> (#[trigger] s.drop_last()[j]) == s[j]);
        }
        lemma_kv_of_index(s.drop_last(), i);
        assert(s.last().0 != s[i].0);
    }
}

/// In a sorted table every key occurs at most once, so every entry
/// gives the map's value at its key.
pub proof fn lemma_sorted_kv_index(s: Seq<(Seq<u8>, Seq<u8>)>, i: int)
    requires
        entries_sorted(s),
        0 <= i < s.len(),
    ensures
        kv_of(s).contains_key(s[i].0),
        kv_of(s)[s[i].0] == s[i].1,
{
    assert forall|j: int| i < j < s.len() implies (#[trigger] s[j]).0 != s[i].0 by {
        lemma_lex_irrefl(s[i].0);
    }
    lemma_kv_of_index(s, i);
}

} // verus!

verus! {

/// Replacing the value of an entry updates the map at its key.
pub proof fn lemma_kv_update(s: Seq<(Seq<u8>, Seq<u8>)>, p: int, v: Seq<u8>)
    requires
        entries_sorted(s),
        0 <= p < s.len(),
    ensures
        entries_sorted(s.update(p, (s[p].0, v))),
        kv_of(s.update(p, (s[p].0, v))) == kv_of(s).insert(s[p].0, v),
{
    let k = s[p].0;
    let t = s.update(p, (k, v));
    assert(entries_sorted(t)) by {
        assert(forall|i: int| 0 <= i < s.len() ==> (#[trigger] t[i]).0 == s[i].0);
    }
    assert forall|q: Seq<u8>| #[trigger] kv_of(t).contains_key(q) implies kv_of(s).insert(
        k,
        v,
    ).contains_key(q) by {
        lemma_kv_of_key(t, q);
        lemma_kv_of_key(s, q);
        let i = choose|i: int| 0 <= i < t.len() && (#[trigger] t[i]).0 == q;
        assert(s[i].0 == q);
    }
    assert forall|q: Seq<u8>| #[trigger] kv_of(s).insert(k, v).contains_key(q) implies kv_of(
        t,
    ).contains_key(q) by {
        lemma_kv_of_key(t, q);
        lemma_kv_of_key(s, q);
        if q == k {
            assert(t[p].0 == q);
        } else {
            let i = choose|i: int| 0 <= i < s.len() && (#[trigger] s[i]).0 == q;
            assert(t[i].0 == q);
        }
    }
    assert forall|q: Seq<u8>| #[trigger] kv_of(t).contains_key(q) implies kv_of(t)[q] == kv_of(
        s,
    ).insert(k, v)[q] by {
        lemma_kv_of_key(t, q);
        let i = choose|i: int| 0 <= i < t.len() && (#[trigger] t[i]).0 == q;
        lemma_sorted_kv_index(t, i);
        if q == k {
            lemma_lex_irrefl(k);
            assert(i == p);
        } else {
            assert(i != p);
            assert(s[i].0 == q);
            lemma_sorted_kv_index(s, i);
        }
    }
    assert(kv_of(t) =~= kv_of(s).insert(k, v));
}

/// Inserting an entry between its neighbours keeps the table sorted
/// and updates the map at its key.
pub proof fn lemma_kv_insert_at(s: Seq<(Seq<u8>, Seq<u8>)>, p: int, k: Seq<u8>, v: Seq<u8>)
    requires
        entries_sorted(s),
        0 <= p <= s.len(),
        forall|i: int| 0 <= i < p ==> lex_lt((#[trigger] s[i]).0, k),
        forall|i: int| p <= i < s.len() ==> lex_lt(k, (#[trigger] s[i]).0),
    ensures
        entries_sorted(s.insert(p, (k, v))),
        kv_of(s.insert(p, (k, v))) == kv_of(s).insert(k, v),
{
    let t = s.insert(p, (k, v));
    assert(forall|i: int| 0 <= i < p ==> (#[trigger] t[i]) == s[i]);
    assert(t[p] == (k, v));
    assert(forall|i: int| p < i < t.len() ==> (#[trigger] t[i]) == s[i - 1]);
    assert forall|i: int, j: int|
        #![trigger t[i], t[j]]
        0 <= i < j < t.len() implies lex_lt(t[i].0, t[j].0) by {
        if i < p && j < p {
        } else if i < p && j == p {
        } else if i < p && j > p {
            if !(i < j - 1) {
                assert(lex_lt(s[i].0, k) && lex_lt(k, s[j - 1].0));
                lemma_lex_trans(s[i].0, k, s[j - 1].0);
            }
        } else if i == p {
        } else {
        }
    }
    assert forall|q: Seq<u8>| #[trigger] kv_of(t).contains_key(q) implies kv_of(s).insert(
        k,
        v,
    ).contains_key(q) by {
        lemma_kv_of_key(t, q);
        lemma_kv_of_key(s, q);
        let i = choose|i: int| 0 <= i < t.len() && (#[trigger] t[i]).0 == q;
        if i != p {
            if i < p {
                assert(s[i].0 == q);
            } else {
                assert(s[i - 1].0 == q);
            }
        }
    }
    assert forall|q: Seq<u8>| #[trigger] kv_of(s).insert(k, v).contains_key(q) implies kv_of(
        t,
    ).contains_key(q) by {
        lemma_kv_of_key(t, q);
        lemma_kv_of_key(s, q);
        if q == k {
            assert(t[p].0 == q);
        } else {
            let i = choose|i: int| 0 <= i < s.len() && (#[trigger] s[i]).0 == q;
            if i < p {
                assert(t[i].0 == q);
            } else {
                assert(t[i + 1].0 == q);
            }
        }
    }
    assert forall|q: Seq<u8>| #[trigger] kv_of(t).contains_key(q) implies kv_of(t)[q] == kv_of(
        s,
    ).insert(k, v)[q] by {
        lemma_kv_of_key(t, q);
        let i = choose|i: int| 0 <= i < t.len() && (#[trigger] t[i]).0 == q;
        lemma_sorted_kv_index(t, i);
        if q == k {
            lemma_lex_irrefl(k);
            assert(i == p) by {
                if i < p {
                    assert(lex_lt(s[i].0, k));
                } else if i > p {
                    assert(lex_lt(k, s[i - 1].0));
                }
            }
        } else {
            assert(i != p);
            if i < p {
                assert(s[i].0 == q);
                lemma_sorted_kv_index(s, i);
            } else {
                assert(s[i - 1].0 == q);
                lemma_sorted_kv_index(s, i - 1);
            }
        }
    }
    assert(kv_of(t) =~= kv_of(s).insert(k, v));
}

/// Copy a byte vector.
pub fn clone_bytes(v: &Vec<u8>) -> (r: Vec<u8>)
    ensures
        r@ == v@,
{
    let r = crate::codec::copy_range(v.as_slice(), 0, v.len());
    assert(r@ =~= v@);
    r
}

/// The index store, held as a table of entries sorted by key.
pub struct Database {
    items: Vec<(Vec<u8>, Vec<u8>)>,
}

impl Database {
    /// The entries of the table, in key order.
    pub closed spec fn entries(self) -> Seq<(Seq<u8>, Seq<u8>)> {
        entry_views(self.items@)
    }

    /// The key-to-value map the table holds.
    pub open spec fn kv(self) -> Map<Seq<u8>, Seq<u8>> {
        kv_of(self.entries())
    }

    /// The table's keys are strictly ascending.
    pub open spec fn sorted(self) -> bool {
        entries_sorted(self.entries())
    }
}

/// Find the first position whose key is not below `key`.
fn find_pos(items: &Vec<(Vec<u8>, Vec<u8>)>, key: &Vec<u8>) -> (p: usize)
    ensures
        p <= items@.len(),
        forall|i: int| 0 <= i < p ==> lex_lt((#[trigger] entry_views(items@)[i]).0, key@),
        p < items@.len() ==> !lex_lt(entry_views(items@)[p as int].0, key@),
{
    let n = items.len();
    let mut p: usize = 0;
    while p < n
        invariant
            p <= n,
            n == items@.len(),
            forall|i: int| 0 <= i < p ==> lex_lt((#[trigger] entry_views(items@)[i]).0, key@),
        decreases n - p,
    {
        match bytes_cmp(&items[p].0, key) {
            Cmp::Lt => {
                assert(entry_views(items@)[p as int].0 == items@[p as int].0@);
                p = p + 1;
            },
            _ => {
                assert(entry_views(items@)[p as int].0 == items@[p as int].0@);
                return p;
            },
        }
    }
    p
}

impl Database {
    /// Write a key-value pair into the table, replacing any previous
    /// value under the key.
    fn raw_put(&mut self, key: Vec<u8>, value: Vec<u8>)
        requires
            old(self).sorted(),
        ensures
            final(self).sorted(),
            final(self).kv() == old(self).kv().insert(key@, value@),
    {
        let ghost s = self.entries();
        let ghost kview = key@;
        let ghost vview = value@;
        let p = find_pos(&self.items, &key);
        if p < self.items.len() {
            let same = match bytes_cmp(&self.items[p].0, &key) {
                Cmp::Eq => true,
                _ => false,
            };
            if same {
                assert(s[p as int].0 == kview);
                self.items.set(p, (key, value));
                proof {
                    assert(self.entries() =~= s.update(p as int, (kview, vview)));
                    lemma_kv_update(s, p as int, vview);
                }
                return ;
            }
            proof {
                assert(!lex_lt(s[p as int].0, kview));
                assert(s[p as int].0 != kview);
                if !lex_lt(kview, s[p as int].0) {
                    lemma_lex_connex(s[p as int].0, kview);
                }
                assert(lex_lt(kview, s[p as int].0));
                assert forall|i: int| p <= i < s.len() implies lex_lt(
                    kview,
                    (#[trigger] s[i]).0,
                ) by {
                    if i > p {
                        lemma_lex_trans(kview, s[p as int].0, s[i].0);
                    }
                }
            }
            self.items.insert(p, (key, value));
            proof {
                assert(self.entries() =~= s.insert(p as int, (kview, vview)));
                lemma_kv_insert_at(s, p as int, kview, vview);
            }
        } else {
            self.items.insert(p, (key, value));
            proof {
                assert(self.entries() =~= s.insert(p as int, (kview, vview)));
                lemma_kv_insert_at(s, p as int, kview, vview);
            }
        }
    }

    /// Read the value under a key.
    fn raw_get(&self, key: &Vec<u8>) -> (r: Option<Vec<u8>>)
        requires
            self.sorted(),
        ensures
            r is Some <==> self.kv().contains_key(key@),
            r matches Some(v) ==> v@ == self.kv()[key@],
    {
        let n = self.items.len();
        let mut i: usize = 0;
        while i < n
            invariant
                i <= n,
                n == self.items@.len(),
                self.sorted(),
                forall|j: int| 0 <= j < i ==> (#[trigger] entry_views(self.items@)[j]).0 != key@,
            decreases n - i,
        {
            let eq = match bytes_cmp(&self.items[i].0, key) {
                Cmp::Eq => true,
                _ => false,
            };
            assert(entry_views(self.items@)[i as int] == (self.items@[i as int].0@, self.items@[
                i as int
            ].1@));
            if eq {
                let v = clone_bytes(&self.items[i].1);
                proof {
                    lemma_sorted_kv_index(self.entries(), i as int);
                }
                return Some(v);
            }
            i = i + 1;
        }
        proof {
            lemma_kv_of_key(self.entries(), key@);
        }
        None
    }
}

} // verus!

verus! {

// ---------------------------------------------------------------------
// The typed layout
// ---------------------------------------------------------------------

/// Length of the transaction-id prefix under which records are keyed;
/// colliding prefixes overwrite and are re-fetched as cache misses.
pub const TX_ID_PREFIX_LEN: usize = 8;

/// The key of the header at `height`: the tag byte 0x68 then the
/// big-endian height.
pub open spec fn header_key(height: u32) -> Seq<u8> {
    seq![0x68u8] + be32_bytes(height)
}

/// The key of the record of the transaction with id `id`: the tag
/// byte 0x74 then the first eight id bytes.
pub open spec fn tx_key(id: Seq<u8>) -> Seq<u8> {
    seq![0x74u8] + id.take(8)
}

/// The key of the sync position: the tag byte 0x73 alone.
pub open spec fn sync_key() -> Seq<u8> {
    seq![0x73u8]
}

/// Whether `k` lies in the header namespace.
pub open spec fn is_header_key(k: Seq<u8>) -> bool {
    k.len() == 5 && k[0] == 0x68
}

/// Whether `k` lies in the transaction namespace.
pub open spec fn is_tx_key(k: Seq<u8>) -> bool {
    k.len() == 9 && k[0] == 0x74
}

/// The store engine's failure report. The in-memory table cannot
/// fail, so no operation ever returns it; it keeps the interface of
/// an engine that can.
#[derive(Debug)]
pub enum StoreError {
    Engine,
}

/// A record lookup outcome: found without cached raw bytes, found
/// with them, or absent.
pub enum CachedOption<T> {
    /// Value found but no cache
    Uncached(T),
    /// Value found with cache
    Cached(T),
    /// Value not found
    Missing,
}

impl Database {
    /// The store's invariant: keys are sorted, every transaction
    /// record decodes, and the sync position is four bytes.
    pub open spec fn wf(self) -> bool {
        &&& self.sorted()
        &&& forall|k: Seq<u8>|
            #[trigger] self.kv().contains_key(k) && is_tx_key(k) ==> spec_decode_record(
                self.kv()[k],
            ) is Some
        &&& self.kv().contains_key(sync_key()) ==> self.kv()[sync_key()].len() == 4
    }

    /// Open an empty store.
    pub fn try_new() -> (r: Database)
        ensures
            r.wf(),
            r.kv() == Map::<Seq<u8>, Seq<u8>>::empty(),
            r.entries() == Seq::<(Seq<u8>, Seq<u8>)>::empty(),
    {
        let db = Database { items: Vec::new() };
        proof {
            assert(db.entries() =~= Seq::<(Seq<u8>, Seq<u8>)>::empty());
        }
        db
    }
}

/// Build the key of the header at `height`.
fn make_header_key(height: u32) -> (k: Vec<u8>)
    ensures
        k@ == header_key(height),
{
    let mut k: Vec<u8> = Vec::new();
    k.push(0x68);
    push_be32(&mut k, height);
    assert(k@ =~= header_key(height));
    k
}

/// Build the key of the record of the transaction with id `tx_id`.
fn make_tx_key(tx_id: &[u8; 32]) -> (k: Vec<u8>)
    ensures
        k@ == tx_key(tx_id@),
{
    let mut k: Vec<u8> = Vec::new();
    k.push(0x74);
    let mut i: usize = 0;
    while i < TX_ID_PREFIX_LEN
        invariant
            i <= 8,
            tx_id@.len() == 32,
            k@.len() == i + 1,
            k@[0] == 0x74u8,
            forall|j: int| 0 <= j < i ==> k@[j + 1] == tx_id@[j],
        decreases 8 - i,
    {
        k.push(tx_id[i]);
        i = i + 1;
    }
    assert(k@ =~= tx_key(tx_id@));
    k
}

/// Build the key of the sync position.
fn make_sync_key() -> (k: Vec<u8>)
    ensures
        k@ == sync_key(),
{
    let mut k: Vec<u8> = Vec::new();
    k.push(0x73);
    assert(k@ =~= sync_key());
    k
}

impl Database {
    /// Write the header at `height`.
    pub fn put_header(&mut self, height: u32, header: &[u8]) -> (r: Result<(), StoreError>)
        requires
            old(self).wf(),
        ensures
            r is Ok,
            final(self).wf(),
            final(self).kv() == old(self).kv().insert(header_key(height), header@),
    {
        let key = make_header_key(height);
        let value = crate::codec::copy_range(header, 0, header.len());
        assert(value@ =~= header@);
        self.raw_put(key, value);
        proof {
            assert(header_key(height).len() == 5);
            assert(final(self).wf()) by {
                assert(forall|k: Seq<u8>|
                    #[trigger] final(self).kv().contains_key(k) && is_tx_key(k)
                        ==> spec_decode_record(final(self).kv()[k]) is Some);
                assert(sync_key().len() == 1);
            }
        }
        Ok(())
    }

    /// Read the header at `height`.
    pub fn get_header(&self, height: u32) -> (r: Result<Option<Vec<u8>>, StoreError>)
        requires
            self.wf(),
        ensures
            r matches Ok(opt) ==> {
                &&& opt is Some <==> self.kv().contains_key(header_key(height))
                &&& opt matches Some(v) ==> v@ == self.kv()[header_key(height)]
            },
            r is Ok,
    {
        let key = make_header_key(height);
        Ok(self.raw_get(&key))
    }

    /// Write the record of the transaction with id `tx_id`.
    pub fn put_tx(&mut self, tx_id: &[u8; 32], data: &TransactionResponse) -> (r: Result<
        (),
        StoreError,
    >)
        requires
            old(self).wf(),
        ensures
            r is Ok,
            final(self).wf(),
            final(self).kv() == old(self).kv().insert(tx_key(tx_id@), record_bytes(data@)),
    {
        let key = make_tx_key(tx_id);
        let value = encode_record(data);
        proof {
            match data@.merkle {
                Some(mm) => {
                    assert forall|k: int| 0 <= k < mm.merkle.len() implies (#[trigger] mm.merkle[
                        k
                    ]).len() <= u64::MAX by {
                        match data.merkle {
                            Some(ref mi) => {
                                assert(mm.merkle[k] == mi.merkle@[k]@);
                                assert(mi.merkle@[k].len() == mi.merkle@[k]@.len());
                            },
                            None => {},
                        }
                    }
                    assert(mm.merkle.len() <= u64::MAX) by {
                        match data.merkle {
                            Some(ref mi) => {
                                assert(mi.merkle.len() == mi.merkle@.len());
                            },
                            None => {},
                        }
                    }
                },
                None => {},
            }
            assert(data.raw_tx.len() == data.raw_tx@.len());
            lemma_record_roundtrip(data@);
        }
        self.raw_put(key, value);
        proof {
            assert(tx_key(tx_id@).len() == 9);
            assert(final(self).wf()) by {
                assert(forall|k: Seq<u8>|
                    #[trigger] final(self).kv().contains_key(k) && is_tx_key(k)
                        ==> spec_decode_record(final(self).kv()[k]) is Some);
                assert(sync_key().len() == 1);
            }
        }
        Ok(())
    }

    /// Read the record of the transaction with id `tx_id`,
    /// distinguishing a record with cached raw bytes from one
    /// without.
    pub fn get_tx(&self, tx_id: &[u8; 32]) -> (r: Result<
        CachedOption<TransactionResponse>,
        StoreError,
    >)
        requires
            self.wf(),
        ensures
            r is Ok,
            r matches Ok(c) ==> match c {
                CachedOption::Missing => !self.kv().contains_key(tx_key(tx_id@)),
                CachedOption::Uncached(rec) => self.kv().contains_key(tx_key(tx_id@))
                    && spec_decode_record(self.kv()[tx_key(tx_id@)]) == Some(rec@)
                    && rec@.raw_tx.len() == 0,
                CachedOption::Cached(rec) => self.kv().contains_key(tx_key(tx_id@))
                    && spec_decode_record(self.kv()[tx_key(tx_id@)]) == Some(rec@)
                    && rec@.raw_tx.len() > 0,
            },
    {
        let key = make_tx_key(tx_id);
        match self.raw_get(&key) {
            None => Ok(CachedOption::Missing),
            Some(v) => {
                assert(is_tx_key(key@));
                match decode_record(&v) {
                    None => {
                        // The invariant says every stored record decodes.
                        proof {
                            assert(spec_decode_record(self.kv()[tx_key(tx_id@)]) is Some);
                        }
                        assert(false);
                        Err(StoreError::Engine)
                    },
                    Some(rec) => {
                        if rec.raw_tx.len() == 0 {
                            Ok(CachedOption::Uncached(rec))
                        } else {
                            Ok(CachedOption::Cached(rec))
                        }
                    },
                }
            },
        }
    }

    /// Persist the sync position.
    pub fn set_sync_position(&mut self, position: u32) -> (r: Result<(), StoreError>)
        requires
            old(self).wf(),
        ensures
            r is Ok,
            final(self).wf(),
            final(self).kv() == old(self).kv().insert(sync_key(), le32_bytes(position)),
    {
        let key = make_sync_key();
        let mut value: Vec<u8> = Vec::new();
        crate::codec::push_le32(&mut value, position);
        assert(value@ =~= le32_bytes(position));
        self.raw_put(key, value);
        proof {
            assert(final(self).wf()) by {
                assert(forall|k: Seq<u8>|
                    #[trigger] final(self).kv().contains_key(k) && is_tx_key(k)
                        ==> spec_decode_record(final(self).kv()[k]) is Some);
            }
        }
        Ok(())
    }

    /// Read the persisted sync position.
    pub fn get_sync_position(&self) -> (r: Result<Option<u32>, StoreError>)
        requires
            self.wf(),
        ensures
            r is Ok,
            r matches Ok(opt) ==> {
                &&& opt is Some <==> self.kv().contains_key(sync_key())
                &&& opt matches Some(x) ==> x as int == le32_at(self.kv()[sync_key()], 0)
            },
    {
        let key = make_sync_key();
        match self.raw_get(&key) {
            None => Ok(None),
            Some(v) => {
                assert(v@.len() == 4);
                let x = read_le32(v.as_slice(), 0) as u32;
                Ok(Some(x))
            },
        }
    }
}

} // verus!

verus! {

// ---------------------------------------------------------------------
// The header range scan
// ---------------------------------------------------------------------

/// Whether an entry is a header at or past `start`.
pub open spec fn header_from(e: (Seq<u8>, Seq<u8>), start: u32) -> bool {
    is_header_key(e.0) && be32_at(e.0, 1) >= start as int
}

/// The values of the header entries at or past `start`, in key order.
pub open spec fn header_scan(s: Seq<(Seq<u8>, Seq<u8>)>, start: u32) -> Seq<Seq<u8>>
    decreases s.len(),
{
    if s.len() == 0 {
        Seq::<Seq<u8>>::empty()
    } else if header_from(s.first(), start) {
        seq![s.first().1] + header_scan(s.drop_first(), start)
    } else {
        header_scan(s.drop_first(), start)
    }
}

/// The scan distributes over concatenation.
pub proof fn lemma_header_scan_add(a: Seq<(Seq<u8>, Seq<u8>)>, b: Seq<(Seq<u8>, Seq<u8>)>, start: u32)
    ensures
        header_scan(a + b, start) == header_scan(a, start) + header_scan(b, start),
    decreases a.len(),
{
    if a.len() == 0 {
        assert(a + b =~= b);
        assert(Seq::<Seq<u8>>::empty() + header_scan(b, start) =~= header_scan(b, start));
    } else {
        lemma_header_scan_add(a.drop_first(), b, start);
        assert((a + b).drop_first() =~= a.drop_first() + b);
        assert((a + b).first() == a.first());
        if header_from(a.first(), start) {
            assert(seq![a.first().1] + (header_scan(a.drop_first(), start) + header_scan(b, start))
                =~= (seq![a.first().1] + header_scan(a.drop_first(), start)) + header_scan(
                b,
                start,
            ));
        }
    }
}

/// At most `count` scanned headers, all of them when `count` is zero
/// or exceeds what is there.
pub open spec fn take_up_to(s: Seq<Seq<u8>>, count: u32) -> Seq<Seq<u8>> {
    if count == 0 || count >= s.len() {
        s
    } else {
        s.take(count as int)
    }
}

impl Database {
    /// Scan the header range from `start_height`: up to `count`
    /// header values in height order, or all of them to the end of
    /// the namespace when `count` is zero.
    pub fn get_headers(&self, start_height: u32, count: u32) -> (r: Result<Vec<Vec<u8>>, StoreError>)
        requires
            self.wf(),
        ensures
            r is Ok,
            r matches Ok(v) ==> bytes_views(v@) == take_up_to(
                header_scan(self.entries(), start_height),
                count,
            ),
    {
        let ghost s = self.entries();
        let mut out: Vec<Vec<u8>> = Vec::new();
        let n = self.items.len();
        let mut i: usize = 0;
        while i < n
            invariant
                i <= n,
                n == self.items@.len(),
                s == self.entries(),
                self.wf(),
                bytes_views(out@) == header_scan(s.take(i as int), start_height),
                count > 0 ==> out@.len() < count,
            decreases n - i,
        {
            let ghost prefix = s.take(i as int);
            let key = &self.items[i].0;
            assert(s[i as int] == (self.items@[i as int].0@, self.items@[i as int].1@));
            let matches_scan = if key.len() == 5 {
                if key[0] == 0x68 {
                    let h = read_be32(key.as_slice(), 1);
                    h >= start_height as u64
                } else {
                    false
                }
            } else {
                false
            };
            proof {
                assert(s.take(i + 1) =~= prefix + seq![s[i as int]]);
                lemma_header_scan_add(prefix, seq![s[i as int]], start_height);
                assert(seq![s[i as int]].drop_first() =~= Seq::<(Seq<u8>, Seq<u8>)>::empty());
                assert(seq![s[i as int]].first() == s[i as int]);
                assert(header_scan(Seq::<(Seq<u8>, Seq<u8>)>::empty(), start_height) =~= Seq::<
                    Seq<u8>,
                >::empty());
                if header_from(s[i as int], start_height) {
                    assert(header_scan(seq![s[i as int]], start_height) == seq![s[i as int].1]
                        + header_scan(Seq::<(Seq<u8>, Seq<u8>)>::empty(), start_height));
                    assert(header_scan(seq![s[i as int]], start_height) =~= seq![s[i as int].1]);
                } else {
                    assert(header_scan(seq![s[i as int]], start_height) =~= Seq::<Seq<u8>>::empty());
                }
                assert(matches_scan == header_from(s[i as int], start_height));
            }
            if matches_scan {
                let v = clone_bytes(&self.items[i].1);
                let ghost pre_out = out@;
                out.push(v);
                proof {
                    assert(bytes_views(out@) =~= bytes_views(pre_out) + seq![s[i as int].1]);
                    assert(header_scan(seq![s[i as int]], start_height) =~= seq![s[i as int].1]);
                }
                if count > 0 && out.len() == count as usize {
                    proof {
                        let full = header_scan(s, start_height);
                        assert(s =~= s.take(i + 1) + s.skip(i + 1));
                        lemma_header_scan_add(s.take(i + 1), s.skip(i + 1), start_height);
                        assert(full.take(count as int) =~= header_scan(
                            s.take(i + 1),
                            start_height,
                        ));
                    }
                    return Ok(out);
                }
            } else {
                assert(header_scan(seq![s[i as int]], start_height) =~= Seq::<Seq<u8>>::empty());
                assert(bytes_views(out@) =~= header_scan(s.take(i + 1), start_height));
            }
            i = i + 1;
        }
        proof {
            assert(s.take(n as int) =~= s);
        }
        Ok(out)
    }
}

} // verus!

verus! {

/// Sorted tables are determined by the map they hold: equal contents
/// have byte-identical layout.
pub proof fn lemma_sorted_entries_unique(a: Seq<(Seq<u8>, Seq<u8>)>, b: Seq<(Seq<u8>, Seq<u8>)>)
    requires
        entries_sorted(a),
        entries_sorted(b),
        kv_of(a) == kv_of(b),
    ensures
        a == b,
    decreases a.len(),
{
    if a.len() == 0 {
        if b.len() > 0 {
            lemma_sorted_kv_index(b, b.len() - 1);
            lemma_kv_of_key(a, b.last().0);
            assert(kv_of(a).contains_key(b.last().0));
            let i = choose|i: int| 0 <= i < a.len() && (#[trigger] a[i]).0 == b.last().0;
            assert(false);
        }
        assert(a =~= b);
    } else if b.len() == 0 {
        lemma_sorted_kv_index(a, a.len() - 1);
        lemma_kv_of_key(b, a.last().0);
        let i = choose|i: int| 0 <= i < b.len() && (#[trigger] b[i]).0 == a.last().0;
        assert(false);
    } else {
        let ka = a.last().0;
        let kb = b.last().0;
        lemma_sorted_kv_index(a, a.len() - 1);
        lemma_sorted_kv_index(b, b.len() - 1);
        assert(ka == kb) by {
            if ka != kb {
                lemma_kv_of_key(b, ka);
                assert(kv_of(b).contains_key(ka));
                let i = choose|i: int| 0 <= i < b.len() && (#[trigger] b[i]).0 == ka;
                assert(i < b.len() - 1);
                assert(lex_lt(ka, kb));
                lemma_kv_of_key(a, kb);
                assert(kv_of(a).contains_key(kb));
                let j = choose|j: int| 0 <= j < a.len() && (#[trigger] a[j]).0 == kb;
                assert(j < a.len() - 1);
                assert(lex_lt(kb, ka));
                lemma_lex_trans(ka, kb, ka);
                lemma_lex_irrefl(ka);
            }
        }
        assert(a.last().1 == b.last().1) by {
            assert(kv_of(a)[ka] == a.last().1);
            assert(kv_of(b)[kb] == b.last().1);
        }
        let at = a.drop_last();
        let bt = b.drop_last();
        assert(forall|i: int| 0 <= i < at.len() ==> (#[trigger] at[i]) == a[i]);
        assert(forall|i: int| 0 <= i < bt.len() ==> (#[trigger] bt[i]) == b[i]);
        assert(entries_sorted(at));
        assert(entries_sorted(bt));
        assert(kv_of(at) == kv_of(bt)) by {
            assert(!kv_of(at).contains_key(ka)) by {
                lemma_kv_of_key(at, ka);
                if kv_of(at).contains_key(ka) {
                    let i = choose|i: int| 0 <= i < at.len() && (#[trigger] at[i]).0 == ka;
                    assert(lex_lt(a[i].0, ka));
                    lemma_lex_irrefl(ka);
                }
            }
            assert(!kv_of(bt).contains_key(kb)) by {
                lemma_kv_of_key(bt, kb);
                if kv_of(bt).contains_key(kb) {
                    let i = choose|i: int| 0 <= i < bt.len() && (#[trigger] bt[i]).0 == kb;
                    assert(lex_lt(b[i].0, kb));
                    lemma_lex_irrefl(kb);
                }
            }
            assert(kv_of(a) == kv_of(at).insert(ka, a.last().1));
            assert(kv_of(b) == kv_of(bt).insert(kb, b.last().1));
            assert(kv_of(at) =~= kv_of(a).remove(ka));
            assert(kv_of(bt) =~= kv_of(b).remove(kb));
        }
        lemma_sorted_entries_unique(at, bt);
        assert(a.len() == b.len());
        assert forall|k: int| 0 <= k < a.len() implies #[trigger] a[k] == b[k] by {
            if k < a.len() - 1 {
                assert(at[k] == bt[k]);
            }
        }
        assert(a =~= b);
    }
}

/// Replaying the same block stream against two stores with equal
/// contents leaves their persisted layouts byte-identical: the typed
/// writes pin the contents as a function of their inputs, and a
/// sorted table is determined by its contents.
pub proof fn lemma_round_trip(a: Database, b: Database)
    requires
        a.sorted(),
        b.sorted(),
        a.kv() == b.kv(),
    ensures
        a.entries() == b.entries(),
{
    lemma_sorted_entries_unique(a.entries(), b.entries());
}

} // verus!

verus! {

impl Database {
    /// Export the table's entries in key order, for inspection and
    /// for comparing two stores byte for byte.
    pub fn export(&self) -> (r: Vec<(Vec<u8>, Vec<u8>)>)
        ensures
            entry_views(r@) == self.entries(),
    {
        let mut out: Vec<(Vec<u8>, Vec<u8>)> = Vec::new();
        let n = self.items.len();
        let mut i: usize = 0;
        while i < n
            invariant
                i <= n,
                n == self.items@.len(),
                out@.len() == i,
                forall|j: int|
                    0 <= j < i ==> (#[trigger] entry_views(out@)[j]) == entry_views(self.items@)[j],
            decreases n - i,
        {
            let k = clone_bytes(&self.items[i].0);
            let v = clone_bytes(&self.items[i].1);
            let ghost pre = out@;
            out.push((k, v));
            proof {
                assert(forall|j: int|
                    0 <= j < pre.len() ==> (#[trigger] entry_views(out@)[j]) == entry_views(
                        pre,
                    )[j]);
                assert(entry_views(out@)[pre.len() as int] == (k@, v@));
                assert(entry_views(self.items@)[i as int] == (self.items@[i as int].0@, self.items@[
                    i as int
                ].1@));
            }
            i = i + 1;
        }
        assert(entry_views(out@) =~= self.entries());
        out
    }
}

} // verus!

verus! {

/// Whether an exported entry may enter the table again: a
/// transaction record must decode and the sync position must be
/// four bytes.
pub open spec fn entry_ok(k: Seq<u8>, v: Seq<u8>) -> bool {
    &&& is_tx_key(k) ==> spec_decode_record(v) is Some
    &&& k == sync_key() ==> v.len() == 4
}

impl Database {
    /// Rebuild a store from exported entries, later pairs shadowing
    /// earlier ones; an entry no typed write could have produced is
    /// refused.
    pub fn load(entries: Vec<(Vec<u8>, Vec<u8>)>) -> (r: Result<Database, StoreError>)
        ensures
            r is Ok <==> forall|i: int|
                0 <= i < entries@.len() ==> entry_ok(
                    (#[trigger] entry_views(entries@)[i]).0,
                    entry_views(entries@)[i].1,
                ),
            r matches Ok(db) ==> db.wf() && db.kv() == kv_of(entry_views(entries@)),
    {
        let ghost all = entry_views(entries@);
        let mut db = Database::try_new();
        let n = entries.len();
        let mut i: usize = 0;
        while i < n
            invariant
                i <= n,
                n == entries@.len(),
                all == entry_views(entries@),
                db.wf(),
                db.kv() == kv_of(all.take(i as int)),
                forall|j: int|
                    0 <= j < i ==> entry_ok((#[trigger] all[j]).0, all[j].1),
            decreases n - i,
        {
            assert(all[i as int] == (entries@[i as int].0@, entries@[i as int].1@));
            let key = &entries[i].0;
            let value = &entries[i].1;
            let is_tx = key.len() == 9 && key[0] == 0x74;
            if is_tx {
                assert(is_tx_key(key@));
                if decode_record(value).is_none() {
                    return Err(StoreError::Engine);
                }
            } else {
                assert(!is_tx_key(key@));
            }
            let is_sync = key.len() == 1 && key[0] == 0x73;
            if is_sync {
                assert(key@ =~= sync_key());
                if value.len() != 4 {
                    return Err(StoreError::Engine);
                }
            } else {
                assert(key@ != sync_key()) by {
                    if key@ == sync_key() {
                        assert(key@.len() == 1 && key@[0] == 0x73);
                    }
                }
            }
            assert(entry_ok(key@, value@));
            let ghost pre = db.kv();
            db.raw_put(clone_bytes(key), clone_bytes(value));
            proof {
                assert(all.take(i + 1).drop_last() =~= all.take(i as int));
                assert(all.take(i + 1).last() == all[i as int]);
                assert(db.kv() == kv_of(all.take(i + 1)));
                assert(db.wf()) by {
                    assert forall|k: Seq<u8>| #[trigger] db.kv().contains_key(k) && is_tx_key(
                        k,
                    ) implies spec_decode_record(db.kv()[k]) is Some by {
                        if k != key@ {
                            assert(pre.contains_key(k) && db.kv()[k] == pre[k]);
                        }
                    }
                    if db.kv().contains_key(sync_key()) && sync_key() != key@ {
                        assert(db.kv()[sync_key()] == pre[sync_key()]);
                    }
                }
            }
            i = i + 1;
        }
        assert(all.take(n as int) =~= all);
        Ok(db)
    }
}

} // verus!
