//! The mempool view: unconfirmed transactions keyed by id, and per
//! script hash the sorted list of touching transaction ids, whose
//! double-hashed concatenation is the status digest clients subscribe
//! to.

use vstd::prelude::*;

use crate::codec::{Transaction, TxModel};
use crate::hashes::{sha256d, sha256d_of};
use crate::store::{lex_lt, lemma_lex_skip, lemma_lex_irrefl, lemma_lex_connex, lemma_lex_trans,
    Cmp};

verus! {

// ---------------------------------------------------------------------
// Association lists as maps
// ---------------------------------------------------------------------

/// The map an association list denotes; later pairs shadow earlier
/// ones.
pub open spec fn assoc_map<K, V>(s: Seq<(K, V)>) -> Map<K, V>
    decreases s.len(),
{
    if s.len() == 0 {
        Map::<K, V>::empty()
    } else {
        assoc_map(s.drop_last()).insert(s.last().0, s.last().1)
    }
}

/// No two pairs carry the same key.
pub open spec fn unique_keys<K, V>(s: Seq<(K, V)>) -> bool {
    forall|i: int, j: int|
        #![trigger s[i], s[j]]
        0 <= i < j < s.len() ==> s[i].0 != s[j].0
}

/// A key is in the map exactly when some pair carries it.
pub proof fn lemma_assoc_key<K, V>(s: Seq<(K, V)>, k: K)
    ensures
        assoc_map(s).contains_key(k) <==> exists|i: int|
            0 <= i < s.len() && (#[trigger] s[i]).0 == k,
    decreases s.len(),
{
    if s.len() > 0 {
        lemma_assoc_key(s.drop_last(), k);
        if s.last().0 == k {
            assert(s[s.len() - 1].0 == k);
        } else if assoc_map(s).contains_key(k) {
            let i = choose|i: int|
                0 <= i < s.drop_last().len() && (#[trigger] s.drop_last()[i]).0 == k;
            assert(s[i].0 == k);
        } else {
            assert(forall|i: int|
                0 <= i < s.len() - 1 ==> (#[trigger] s[i]) == s.drop_last()[i]);
        }
    }
}

/// A pair not shadowed by a later one gives the map's value at its
/// key.
pub proof fn lemma_assoc_index<K, V>(s: Seq<(K, V)>, i: int)
    requires
        0 <= i < s.len(),
        forall|j: int| i < j < s.len() ==> (#[trigger] s[j]).0 != s[i].0,
    ensures
        assoc_map(s).contains_key(s[i].0),
        assoc_map(s)[s[i].0] == s[i].1,
    decreases s.len(),
{
    if i == s.len() - 1 {
    } else {
        assert(forall|j: int|
            i < j < s.drop_last().len() ==> (#[trigger] s.drop_last()[j]).0 != s.drop_last()[
                i
            ].0) by {
            assert(forall|j: int|
                0 <= j < s.len() - 1 ==> (#[trigger] s.drop_last()[j]) == s[j]);
        }
        lemma_assoc_index(s.drop_last(), i);
        assert(s.last().0 != s[i].0);
    }
}

/// With unique keys, every pair gives the map's value at its key.
pub proof fn lemma_assoc_unique_index<K, V>(s: Seq<(K, V)>, i: int)
    requires
        unique_keys(s),
        0 <= i < s.len(),
    ensures
        assoc_map(s).contains_key(s[i].0),
        assoc_map(s)[s[i].0] == s[i].1,
{
    lemma_assoc_index(s, i);
}

/// Replacing the value of a pair updates the map at its key.
pub proof fn lemma_assoc_update<K, V>(s: Seq<(K, V)>, p: int, v: V)
    requires
        unique_keys(s),
        0 <= p < s.len(),
    ensures
        unique_keys(s.update(p, (s[p].0, v))),
        assoc_map(s.update(p, (s[p].0, v))) == assoc_map(s).insert(s[p].0, v),
{
    let k = s[p].0;
    let t = s.update(p, (k, v));
    assert(unique_keys(t)) by {
        assert(forall|i: int| 0 <= i < s.len() ==> (#[trigger] t[i]).0 == s[i].0);
    }
    assert forall|q: K| #[trigger] assoc_map(t).contains_key(q) implies assoc_map(s).insert(
        k,
        v,
    ).contains_key(q) by {
        lemma_assoc_key(t, q);
        lemma_assoc_key(s, q);
        let i = choose|i: int| 0 <= i < t.len() && (#[trigger] t[i]).0 == q;
        assert(s[i].0 == q);
    }
    assert forall|q: K| #[trigger] assoc_map(s).insert(k, v).contains_key(q) implies assoc_map(
        t,
    ).contains_key(q) by {
        lemma_assoc_key(t, q);
        lemma_assoc_key(s, q);
        if q == k {
            assert(t[p].0 == q);
        } else {
            let i = choose|i: int| 0 <= i < s.len() && (#[trigger] s[i]).0 == q;
            assert(t[i].0 == q);
        }
    }
    assert forall|q: K| #[trigger] assoc_map(t).contains_key(q) implies assoc_map(t)[q]
        == assoc_map(s).insert(k, v)[q] by {
        lemma_assoc_key(t, q);
        let i = choose|i: int| 0 <= i < t.len() && (#[trigger] t[i]).0 == q;
        lemma_assoc_unique_index(t, i);
        if q == k {
            assert(i == p);
        } else {
            assert(i != p);
            assert(s[i].0 == q);
            lemma_assoc_unique_index(s, i);
        }
    }
    assert(assoc_map(t) =~= assoc_map(s).insert(k, v));
}

/// Appending a pair with a fresh key extends the map at its key.
pub proof fn lemma_assoc_push<K, V>(s: Seq<(K, V)>, k: K, v: V)
    requires
        unique_keys(s),
        forall|i: int| 0 <= i < s.len() ==> (#[trigger] s[i]).0 != k,
    ensures
        unique_keys(s.push((k, v))),
        assoc_map(s.push((k, v))) == assoc_map(s).insert(k, v),
{
    let t = s.push((k, v));
    assert(t.drop_last() =~= s);
    assert(t.last() == (k, v));
    assert(unique_keys(t)) by {
        assert(forall|i: int| 0 <= i < s.len() ==> (#[trigger] t[i]) == s[i]);
        assert(t[t.len() - 1] == (k, v));
    }
}

// ---------------------------------------------------------------------
// Identifier helpers
// ---------------------------------------------------------------------

/// Whether two 32-byte identifiers are equal.
pub fn ids_eq(a: &[u8; 32], b: &[u8; 32]) -> (r: bool)
    ensures
        r == (a@ == b@),
{
    let mut i: usize = 0;
    while i < 32
        invariant
            i <= 32,
            a@.len() == 32,
            b@.len() == 32,
            forall|j: int| 0 <= j < i ==> a@[j] == b@[j],
        decreases 32 - i,
    {
        if a[i] != b[i] {
            assert(a@ != b@);
            return false;
        }
        i = i + 1;
    }
    assert(a@ =~= b@);
    true
}

/// Compare two 32-byte identifiers in lexicographic order.
pub fn ids_cmp(a: &[u8; 32], b: &[u8; 32]) -> (r: Cmp)
    ensures
        r is Lt <==> lex_lt(a@, b@),
        r is Eq <==> a@ == b@,
        r is Gt <==> lex_lt(b@, a@),
{
    let mut i: usize = 0;
    while i < 32
        invariant
            i <= 32,
            a@.len() == 32,
            b@.len() == 32,
            forall|j: int| 0 <= j < i ==> a@[j] == b@[j],
        decreases 32 - i,
    {
        if a[i] < b[i] {
            proof {
                lemma_lex_skip(a@, b@, i as int);
                lemma_lex_skip(b@, a@, i as int);
                if a@ == b@ {
                    assert(a@[i as int] == b@[i as int]);
                }
            }
            return Cmp::Lt;
        }
        if a[i] > b[i] {
            proof {
                lemma_lex_skip(a@, b@, i as int);
                lemma_lex_skip(b@, a@, i as int);
                if a@ == b@ {
                    assert(a@[i as int] == b@[i as int]);
                }
            }
            return Cmp::Gt;
        }
        i = i + 1;
    }
    assert(a@ =~= b@);
    proof {
        lemma_lex_irrefl(a@);
    }
    Cmp::Eq
}

} // verus!

verus! {

// ---------------------------------------------------------------------
// Sorted id lists and status digests
// ---------------------------------------------------------------------

/// The contents of a sequence of 32-byte identifiers.
pub open spec fn id_views(s: Seq<[u8; 32]>) -> Seq<Seq<u8>> {
    s.map_values(|x: [u8; 32]| x@)
}

/// Identifiers sorted strictly ascending: sorted and duplicate-free.
pub open spec fn ids_sorted(s: Seq<Seq<u8>>) -> bool {
    forall|i: int, j: int|
        #![trigger s[i], s[j]]
        0 <= i < j < s.len() ==> lex_lt(s[i], s[j])
}

/// Insert an identifier into a sorted list, keeping order and
/// dropping a duplicate.
pub open spec fn insert_sorted(s: Seq<Seq<u8>>, id: Seq<u8>) -> Seq<Seq<u8>>
    decreases s.len(),
{
    if s.len() == 0 {
        seq![id]
    } else if id == s.first() {
        s
    } else if lex_lt(id, s.first()) {
        seq![id] + s
    } else {
        seq![s.first()] + insert_sorted(s.drop_first(), id)
    }
}

/// The concatenation of a list of identifiers.
pub open spec fn concat_ids(s: Seq<Seq<u8>>) -> Seq<u8>
    decreases s.len(),
{
    if s.len() == 0 {
        Seq::<u8>::empty()
    } else {
        s.first() + concat_ids(s.drop_first())
    }
}

/// The status digest of a list of identifiers: the double-hash of
/// their concatenation.
pub open spec fn digest_of(s: Seq<Seq<u8>>) -> Seq<u8> {
    sha256d_of(concat_ids(s))
}

/// An identifier already present leaves the list unchanged.
pub proof fn lemma_insert_sorted_present(s: Seq<Seq<u8>>, id: Seq<u8>, q: int)
    requires
        ids_sorted(s),
        0 <= q < s.len(),
        s[q] == id,
    ensures
        insert_sorted(s, id) == s,
    decreases s.len(),
{
    if q == 0 {
    } else {
        assert(lex_lt(s[0], s[q]));
        lemma_lex_irrefl(s[0]);
        assert(id != s.first());
        if lex_lt(id, s.first()) {
            lemma_lex_trans(id, s[0], s[q]);
            lemma_lex_irrefl(id);
        }
        assert(forall|i: int, j: int|
            #![trigger s.drop_first()[i], s.drop_first()[j]]
            0 <= i < j < s.drop_first().len() ==> lex_lt(s.drop_first()[i], s.drop_first()[j]))
            by {
            assert(forall|i: int|
                0 <= i < s.drop_first().len() ==> (#[trigger] s.drop_first()[i]) == s[i + 1]);
        }
        lemma_insert_sorted_present(s.drop_first(), id, q - 1);
        assert(seq![s.first()] + s.drop_first() =~= s);
    }
}

/// An identifier between its neighbours lands at its position.
pub proof fn lemma_insert_sorted_at(s: Seq<Seq<u8>>, id: Seq<u8>, q: int)
    requires
        ids_sorted(s),
        0 <= q <= s.len(),
        forall|j: int| 0 <= j < q ==> lex_lt(#[trigger] s[j], id),
        q < s.len() ==> lex_lt(id, s[q]),
    ensures
        insert_sorted(s, id) == s.insert(q, id),
    decreases s.len(),
{
    if s.len() == 0 {
        assert(s.insert(0, id) =~= seq![id]);
    } else if q == 0 {
        assert(lex_lt(id, s[0]));
        lemma_lex_irrefl(id);
        assert(id != s.first());
        assert(s.insert(0, id) =~= seq![id] + s);
    } else {
        assert(lex_lt(s[0], id));
        lemma_lex_irrefl(id);
        assert(id != s.first()) by {
            if id == s.first() {
                assert(lex_lt(id, id));
            }
        }
        assert(!lex_lt(id, s.first())) by {
            if lex_lt(id, s.first()) {
                lemma_lex_trans(s[0], id, s[0]);
                lemma_lex_irrefl(s[0]);
            }
        }
        assert(forall|i: int, j: int|
            #![trigger s.drop_first()[i], s.drop_first()[j]]
            0 <= i < j < s.drop_first().len() ==> lex_lt(s.drop_first()[i], s.drop_first()[j]))
            by {
            assert(forall|i: int|
                0 <= i < s.drop_first().len() ==> (#[trigger] s.drop_first()[i]) == s[i + 1]);
        }
        lemma_insert_sorted_at(s.drop_first(), id, q - 1);
        assert(seq![s.first()] + s.drop_first().insert(q - 1, id) =~= s.insert(q, id));
    }
}

/// Inserting keeps the list sorted, and its members are the old ones
/// plus the new identifier.
pub proof fn lemma_insert_sorted_props(s: Seq<Seq<u8>>, id: Seq<u8>)
    requires
        ids_sorted(s),
    ensures
        ids_sorted(insert_sorted(s, id)),
        insert_sorted(s, id).contains(id),
        forall|x: Seq<u8>|
            #[trigger] insert_sorted(s, id).contains(x) <==> (s.contains(x) || x == id),
    decreases s.len(),
{
    let t = insert_sorted(s, id);
    if s.len() == 0 {
        assert(t == seq![id]);
        assert(t[0] == id);
        assert forall|x: Seq<u8>| #[trigger] t.contains(x) implies (s.contains(x) || x == id) by {
            let i = choose|i: int| 0 <= i < t.len() && t[i] == x;
            assert(x == id);
        }
    } else if id == s.first() {
        assert(t == s);
        assert(s[0] == id);
    } else if lex_lt(id, s.first()) {
        assert(t == seq![id] + s);
        assert(t[0] == id);
        assert forall|i: int, j: int|
            #![trigger t[i], t[j]]
            0 <= i < j < t.len() implies lex_lt(t[i], t[j]) by {
            if i == 0 {
                assert(t[j] == s[j - 1]);
                if j > 1 {
                    lemma_lex_trans(id, s[0], s[j - 1]);
                }
            } else {
                assert(t[i] == s[i - 1] && t[j] == s[j - 1]);
            }
        }
        assert forall|x: Seq<u8>| #[trigger] t.contains(x) implies (s.contains(x) || x == id) by {
            let i = choose|i: int| 0 <= i < t.len() && t[i] == x;
            if i > 0 {
                assert(s[i - 1] == x);
            }
        }
        assert forall|x: Seq<u8>| s.contains(x) || x == id implies #[trigger] t.contains(x) by {
            if x == id {
                assert(t[0] == x);
            } else {
                let i = choose|i: int| 0 <= i < s.len() && s[i] == x;
                assert(t[i + 1] == x);
            }
        }
    } else {
        let d = s.drop_first();
        assert(forall|i: int, j: int|
            #![trigger d[i], d[j]]
            0 <= i < j < d.len() ==> lex_lt(d[i], d[j])) by {
            assert(forall|i: int| 0 <= i < d.len() ==> (#[trigger] d[i]) == s[i + 1]);
        }
        lemma_insert_sorted_props(d, id);
        let u = insert_sorted(d, id);
        assert(t == seq![s.first()] + u);
        assert(!lex_lt(id, s.first()) && id != s.first());
        if !lex_lt(s.first(), id) {
            lemma_lex_connex(s.first(), id);
        }
        assert(lex_lt(s.first(), id));
        assert forall|i: int, j: int|
            #![trigger t[i], t[j]]
            0 <= i < j < t.len() implies lex_lt(t[i], t[j]) by {
            if i == 0 {
                assert(t[j] == u[j - 1]);
                assert(u.contains(u[j - 1]));
                if u[j - 1] == id {
                    assert(lex_lt(s[0], id));
                } else {
                    assert(d.contains(u[j - 1]));
                    let w = choose|w: int| 0 <= w < d.len() && d[w] == u[j - 1];
                    assert(d[w] == s[w + 1]);
                    assert(lex_lt(s[0], s[w + 1]));
                }
            } else {
                assert(t[i] == u[i - 1] && t[j] == u[j - 1]);
            }
        }
        assert(t.contains(id)) by {
            let w = choose|w: int| 0 <= w < u.len() && u[w] == id;
            assert(t[w + 1] == id);
        }
        assert forall|x: Seq<u8>| #[trigger] t.contains(x) implies (s.contains(x) || x == id) by {
            let i = choose|i: int| 0 <= i < t.len() && t[i] == x;
            if i == 0 {
                assert(s[0] == x);
            } else {
                assert(u[i - 1] == x);
                assert(u.contains(x));
                if x != id {
                    assert(d.contains(x));
                    let w = choose|w: int| 0 <= w < d.len() && d[w] == x;
                    assert(s[w + 1] == x);
                }
            }
        }
        assert forall|x: Seq<u8>| s.contains(x) || x == id implies #[trigger] t.contains(x) by {
            if x == id {
            } else {
                let i = choose|i: int| 0 <= i < s.len() && s[i] == x;
                if i == 0 {
                    assert(t[0] == x);
                } else {
                    assert(d[i - 1] == x);
                    assert(d.contains(x));
                    assert(u.contains(x));
                    let w = choose|w: int| 0 <= w < u.len() && u[w] == x;
                    assert(t[w + 1] == x);
                }
            }
        }
    }
}

} // verus!

verus! {

// ---------------------------------------------------------------------
// The mempool
// ---------------------------------------------------------------------

/// The mempool: unconfirmed transactions keyed by id, and per script
/// hash the sorted identifiers of the transactions touching it.
pub struct Mempool {
    pool: Vec<([u8; 32], Transaction)>,
    status: Vec<([u8; 32], Vec<[u8; 32]>)>,
}

impl Mempool {
    /// The transaction table as key-model pairs.
    pub closed spec fn pool_entries(self) -> Seq<(Seq<u8>, TxModel)> {
        self.pool@.map_values(|p: ([u8; 32], Transaction)| (p.0@, p.1@))
    }

    /// The status table as key-list pairs.
    pub closed spec fn status_entries(self) -> Seq<(Seq<u8>, Seq<Seq<u8>>)> {
        self.status@.map_values(|p: ([u8; 32], Vec<[u8; 32]>)| (p.0@, id_views(p.1@)))
    }

    /// The unconfirmed transactions by id.
    pub open spec fn pool(self) -> Map<Seq<u8>, TxModel> {
        assoc_map(self.pool_entries())
    }

    /// The touching-transaction lists by script hash.
    pub open spec fn status(self) -> Map<Seq<u8>, Seq<Seq<u8>>> {
        assoc_map(self.status_entries())
    }

    /// The mempool's invariant: unique keys in both tables, every
    /// status list sorted and duplicate-free.
    pub open spec fn wf(self) -> bool {
        &&& unique_keys(self.pool_entries())
        &&& unique_keys(self.status_entries())
        &&& forall|i: int|
            0 <= i < self.status_entries().len() ==> ids_sorted(
                (#[trigger] self.status_entries()[i]).1,
            )
    }

    /// Every status list in the map is sorted.
    pub proof fn lemma_status_sorted(self, sh: Seq<u8>)
        requires
            self.wf(),
            self.status().contains_key(sh),
        ensures
            ids_sorted(self.status()[sh]),
    {
        lemma_assoc_key(self.status_entries(), sh);
        let i = choose|i: int|
            0 <= i < self.status_entries().len() && (#[trigger] self.status_entries()[i]).0 == sh;
        lemma_assoc_unique_index(self.status_entries(), i);
    }
}

impl Default for Mempool {
    /// An empty mempool.
    fn default() -> (r: Mempool)
        ensures
            r.wf(),
            r.pool() == Map::<Seq<u8>, TxModel>::empty(),
            r.status() == Map::<Seq<u8>, Seq<Seq<u8>>>::empty(),
    {
        let r = Mempool { pool: Vec::new(), status: Vec::new() };
        proof {
            assert(r.pool_entries() =~= Seq::<(Seq<u8>, TxModel)>::empty());
            assert(r.status_entries() =~= Seq::<(Seq<u8>, Seq<Seq<u8>>)>::empty());
        }
        r
    }
}

/// Copy a list of 32-byte identifiers.
pub fn ids_clone(v: &Vec<[u8; 32]>) -> (r: Vec<[u8; 32]>)
    ensures
        r@ == v@,
{
    let mut r: Vec<[u8; 32]> = Vec::new();
    let n = v.len();
    let mut k: usize = 0;
    while k < n
        invariant
            k <= n,
            n == v@.len(),
            r@.len() == k,
            forall|j: int| 0 <= j < k ==> r@[j] == v@[j],
        decreases n - k,
    {
        r.push(v[k]);
        k = k + 1;
    }
    assert(r@ =~= v@);
    r
}

impl Mempool {
    /// Record an unconfirmed transaction under its id.
    pub fn put_transaction(&mut self, tx_id: &[u8; 32], tx: Transaction)
        requires
            old(self).wf(),
        ensures
            final(self).wf(),
            final(self).pool() == old(self).pool().insert(tx_id@, tx@),
            final(self).status() == old(self).status(),
    {
        let ghost s = self.pool_entries();
        let n = self.pool.len();
        let mut i: usize = 0;
        while i < n
            invariant
                i <= n,
                n == self.pool@.len(),
                s == self.pool_entries(),
                old(self).wf(),
                s == old(self).pool_entries(),
                self.status_entries() == old(self).status_entries(),
                forall|j: int| 0 <= j < i ==> (#[trigger] s[j]).0 != tx_id@,
            decreases n - i,
        {
            assert(s[i as int] == (self.pool@[i as int].0@, self.pool@[i as int].1@));
            if ids_eq(&self.pool[i].0, tx_id) {
                self.pool.set(i, (*tx_id, tx));
                proof {
                    assert(self.pool_entries() =~= s.update(i as int, (tx_id@, tx@)));
                    lemma_assoc_update(s, i as int, tx@);
                    assert(self.status_entries() == old(self).status_entries());
                }
                return ;
            }
            i = i + 1;
        }
        self.pool.push((*tx_id, tx));
        proof {
            assert(self.pool_entries() =~= s.push((tx_id@, tx@)));
            lemma_assoc_push(s, tx_id@, tx@);
            assert(self.status_entries() == old(self).status_entries());
        }
    }

    /// Look up an unconfirmed transaction by id.
    pub fn get_transaction_by_id(&self, tx_id: &[u8; 32]) -> (r: Option<Transaction>)
        requires
            self.wf(),
        ensures
            r is Some <==> self.pool().contains_key(tx_id@),
            r matches Some(tx) ==> tx@ == self.pool()[tx_id@],
    {
        let ghost s = self.pool_entries();
        let n = self.pool.len();
        let mut i: usize = 0;
        while i < n
            invariant
                i <= n,
                n == self.pool@.len(),
                s == self.pool_entries(),
                self.wf(),
                forall|j: int| 0 <= j < i ==> (#[trigger] s[j]).0 != tx_id@,
            decreases n - i,
        {
            assert(s[i as int] == (self.pool@[i as int].0@, self.pool@[i as int].1@));
            if ids_eq(&self.pool[i].0, tx_id) {
                let tx = crate::codec::clone_tx(&self.pool[i].1);
                proof {
                    lemma_assoc_unique_index(s, i as int);
                }
                return Some(tx);
            }
            i = i + 1;
        }
        proof {
            lemma_assoc_key(s, tx_id@);
        }
        None
    }

    /// The sorted identifiers of the transactions touching a script
    /// hash.
    pub fn get_transactions_ids(&self, script_hash: &[u8; 32]) -> (r: Option<Vec<[u8; 32]>>)
        requires
            self.wf(),
        ensures
            r is Some <==> self.status().contains_key(script_hash@),
            r matches Some(ids) ==> id_views(ids@) == self.status()[script_hash@],
    {
        let ghost s = self.status_entries();
        let n = self.status.len();
        let mut i: usize = 0;
        while i < n
            invariant
                i <= n,
                n == self.status@.len(),
                s == self.status_entries(),
                self.wf(),
                forall|j: int| 0 <= j < i ==> (#[trigger] s[j]).0 != script_hash@,
            decreases n - i,
        {
            assert(s[i as int] == (self.status@[i as int].0@, id_views(self.status@[i as int].1@)));
            if ids_eq(&self.status[i].0, script_hash) {
                let ids = ids_clone(&self.status[i].1);
                proof {
                    lemma_assoc_unique_index(s, i as int);
                }
                return Some(ids);
            }
            i = i + 1;
        }
        proof {
            lemma_assoc_key(s, script_hash@);
        }
        None
    }

    /// The transactions touching a script hash, in identifier order.
    /// Every listed identifier must still be in the pool, as it is
    /// while the coupled insertion discipline of the live tail holds.
    pub fn get_transactions_by_script_hash(&self, script_hash: &[u8; 32]) -> (r: Option<
        Vec<Transaction>,
    >)
        requires
            self.wf(),
            self.status().contains_key(script_hash@) ==> forall|x: Seq<u8>|
                #[trigger] self.status()[script_hash@].contains(x) ==> self.pool().contains_key(x),
        ensures
            r is Some <==> self.status().contains_key(script_hash@),
            r matches Some(txs) ==> {
                &&& txs@.len() == self.status()[script_hash@].len()
                &&& forall|i: int|
                    0 <= i < txs@.len() ==> (#[trigger] txs@[i])@ == self.pool()[
                        self.status()[script_hash@][i]
                    ]
            },
    {
        let ids = match self.get_transactions_ids(script_hash) {
            None => {
                return None;
            },
            Some(ids) => ids,
        };
        let ghost list = self.status()[script_hash@];
        let mut txs: Vec<Transaction> = Vec::new();
        let n = ids.len();
        let mut i: usize = 0;
        while i < n
            invariant
                i <= n,
                n == ids@.len(),
                id_views(ids@) == list,
                self.wf(),
                self.status().contains_key(script_hash@),
                list == self.status()[script_hash@],
                forall|x: Seq<u8>| #[trigger] list.contains(x) ==> self.pool().contains_key(x),
                txs@.len() == i,
                forall|j: int|
                    0 <= j < i ==> (#[trigger] txs@[j])@ == self.pool()[list[j]],
            decreases n - i,
        {
            assert(list[i as int] == ids@[i as int]@);
            assert(list.contains(list[i as int]));
            match self.get_transaction_by_id(&ids[i]) {
                Some(tx) => {
                    txs.push(tx);
                },
                None => {
                    // The coupling premise puts every listed id in
                    // the pool.
                    assert(false);
                    return None;
                },
            }
            i = i + 1;
        }
        Some(txs)
    }

    /// Drop every unconfirmed transaction and every status list.
    pub fn flush(&mut self)
        ensures
            final(self).wf(),
            final(self).pool() == Map::<Seq<u8>, TxModel>::empty(),
            final(self).status() == Map::<Seq<u8>, Seq<Seq<u8>>>::empty(),
    {
        self.pool = Vec::new();
        self.status = Vec::new();
        proof {
            assert(self.pool_entries() =~= Seq::<(Seq<u8>, TxModel)>::empty());
            assert(self.status_entries() =~= Seq::<(Seq<u8>, Seq<Seq<u8>>)>::empty());
        }
    }
}

} // verus!

verus! {

/// Concatenating one more identifier appends it.
pub proof fn lemma_concat_ids_take(s: Seq<Seq<u8>>, k: int)
    requires
        0 <= k < s.len(),
    ensures
        concat_ids(s.take(k + 1)) == concat_ids(s.take(k)) + s[k],
    decreases k,
{
    if k == 0 {
        assert(s.take(1) =~= seq![s[0]]);
        assert(s.take(0) =~= Seq::<Seq<u8>>::empty());
        assert(seq![s[0]].drop_first() =~= Seq::<Seq<u8>>::empty());
        assert(s[0] + Seq::<u8>::empty() =~= s[0]);
        assert(Seq::<u8>::empty() + s[0] =~= s[0]);
    } else {
        let t = s.drop_first();
        lemma_concat_ids_take(t, k - 1);
        assert(s.take(k + 1).drop_first() =~= t.take(k));
        assert(s.take(k).drop_first() =~= t.take(k - 1));
        assert(s.take(k + 1).first() == s[0]);
        assert(s.take(k).first() == s[0]);
        assert(t[k - 1] == s[k]);
        assert(s[0] + (concat_ids(t.take(k - 1)) + s[k]) =~= (s[0] + concat_ids(t.take(k - 1)))
            + s[k]);
    }
}

/// Append a 32-byte identifier to a byte buffer.
fn push_id(out: &mut Vec<u8>, id: &[u8; 32])
    ensures
        final(out)@ == old(out)@ + id@,
{
    let mut i: usize = 0;
    while i < 32
        invariant
            i <= 32,
            id@.len() == 32,
            out@ == old(out)@ + id@.take(i as int),
        decreases 32 - i,
    {
        out.push(id[i]);
        assert(out@ =~= old(out)@ + id@.take(i + 1));
        i = i + 1;
    }
    assert(id@.take(32) =~= id@);
}

/// The status digest of a list of identifiers.
fn digest_of_list(list: &Vec<[u8; 32]>) -> (r: [u8; 32])
    ensures
        r@ == digest_of(id_views(list@)),
{
    let mut buf: Vec<u8> = Vec::new();
    let ghost ids = id_views(list@);
    assert(buf@ =~= concat_ids(ids.take(0)));
    let n = list.len();
    let mut k: usize = 0;
    while k < n
        invariant
            k <= n,
            n == list@.len(),
            ids == id_views(list@),
            buf@ == concat_ids(ids.take(k as int)),
        decreases n - k,
    {
        push_id(&mut buf, &list[k]);
        proof {
            lemma_concat_ids_take(ids, k as int);
            assert(ids[k as int] == list@[k as int]@);
        }
        assert(buf@ =~= concat_ids(ids.take(k + 1)));
        k = k + 1;
    }
    assert(ids.take(n as int) =~= ids);
    sha256d(buf.as_slice())
}

/// Find where an identifier sits, or would sit, in a sorted list.
fn find_id_pos(list: &Vec<[u8; 32]>, id: &[u8; 32]) -> (r: (usize, bool))
    requires
        ids_sorted(id_views(list@)),
    ensures
        r.1 ==> r.0 < list@.len() && id_views(list@)[r.0 as int] == id@,
        !r.1 ==> {
            &&& r.0 <= list@.len()
            &&& forall|j: int| 0 <= j < r.0 ==> lex_lt(#[trigger] id_views(list@)[j], id@)
            &&& r.0 < list@.len() ==> lex_lt(id@, id_views(list@)[r.0 as int])
        },
{
    let n = list.len();
    let mut q: usize = 0;
    while q < n
        invariant
            q <= n,
            n == list@.len(),
            forall|j: int| 0 <= j < q ==> lex_lt(#[trigger] id_views(list@)[j], id@),
        decreases n - q,
    {
        assert(id_views(list@)[q as int] == list@[q as int]@);
        match ids_cmp(&list[q], id) {
            Cmp::Lt => {
                q = q + 1;
            },
            Cmp::Eq => {
                return (q, true);
            },
            Cmp::Gt => {
                return (q, false);
            },
        }
    }
    (q, false)
}

impl Mempool {
    /// Insert a transaction id into the sorted touch list of a script
    /// hash — a duplicate id changes nothing — and return the new
    /// status digest of that script hash.
    pub fn append_status(&mut self, script_hash: &[u8; 32], tx_id: &[u8; 32]) -> (r: [u8; 32])
        requires
            old(self).wf(),
        ensures
            final(self).wf(),
            final(self).pool() == old(self).pool(),
            final(self).status() == old(self).status().insert(
                script_hash@,
                insert_sorted(old(self).spec_status_list(script_hash@), tx_id@),
            ),
            r@ == digest_of(insert_sorted(old(self).spec_status_list(script_hash@), tx_id@)),
    {
        let ghost s = self.status_entries();
        let ghost old_list = old(self).spec_status_list(script_hash@);
        let n = self.status.len();
        let mut i: usize = 0;
        while i < n
            invariant
                i <= n,
                n == self.status@.len(),
                s == self.status_entries(),
                old(self).wf(),
                s == old(self).status_entries(),
                old_list == old(self).spec_status_list(script_hash@),
                self.pool_entries() == old(self).pool_entries(),
                forall|j: int| 0 <= j < i ==> (#[trigger] s[j]).0 != script_hash@,
            decreases n - i,
        {
            assert(s[i as int] == (self.status@[i as int].0@, id_views(self.status@[i as int].1@)));
            if ids_eq(&self.status[i].0, script_hash) {
                proof {
                    assert(s[i as int].0 == script_hash@);
                    lemma_assoc_unique_index(s, i as int);
                    assert(old(self).status().contains_key(script_hash@));
                    assert(old(self).status()[script_hash@] == s[i as int].1);
                    assert(old_list == s[i as int].1);
                }
                let ghost lv = id_views(self.status@[i as int].1@);
                let (q, found) = find_id_pos(&self.status[i].1, tx_id);
                if found {
                    proof {
                        lemma_insert_sorted_present(lv, tx_id@, q as int);
                        lemma_assoc_update(s, i as int, lv);
                        assert(s.update(i as int, (script_hash@, lv)) =~= s);
                        assert(assoc_map(s) == assoc_map(s).insert(script_hash@, lv));
                    }
                    let d = digest_of_list(&self.status[i].1);
                    return d;
                }
                let mut new_list = ids_clone(&self.status[i].1);
                new_list.insert(q, *tx_id);
                proof {
                    assert(id_views(new_list@) =~= lv.insert(q as int, tx_id@));
                    lemma_insert_sorted_at(lv, tx_id@, q as int);
                    lemma_insert_sorted_props(lv, tx_id@);
                }
                let d = digest_of_list(&new_list);
                self.status.set(i, (*script_hash, new_list));
                proof {
                    assert(self.status_entries() =~= s.update(
                        i as int,
                        (script_hash@, insert_sorted(lv, tx_id@)),
                    ));
                    lemma_assoc_update(s, i as int, insert_sorted(lv, tx_id@));
                }
                return d;
            }
            i = i + 1;
        }
        proof {
            lemma_assoc_key(s, script_hash@);
            assert(!old(self).status().contains_key(script_hash@));
            assert(old_list =~= Seq::<Seq<u8>>::empty());
        }
        let mut new_list: Vec<[u8; 32]> = Vec::new();
        new_list.push(*tx_id);
        proof {
            assert(id_views(new_list@) =~= seq![tx_id@]);
            assert(insert_sorted(old_list, tx_id@) == seq![tx_id@]);
            assert(ids_sorted(seq![tx_id@]));
        }
        let d = digest_of_list(&new_list);
        self.status.push((*script_hash, new_list));
        proof {
            assert(self.status_entries() =~= s.push((script_hash@, seq![tx_id@])));
            lemma_assoc_push(s, script_hash@, seq![tx_id@]);
        }
        d
    }

    /// The touch list of a script hash, the empty list when none is
    /// recorded yet.
    pub open spec fn spec_status_list(self, sh: Seq<u8>) -> Seq<Seq<u8>> {
        if self.status().contains_key(sh) {
            self.status()[sh]
        } else {
            Seq::<Seq<u8>>::empty()
        }
    }

    /// The current status digest of a script hash, or absence.
    pub fn get_status(&self, script_hash: &[u8; 32]) -> (r: Option<[u8; 32]>)
        requires
            self.wf(),
        ensures
            r is Some <==> self.status().contains_key(script_hash@),
            r matches Some(d) ==> d@ == digest_of(self.status()[script_hash@]),
    {
        let ghost s = self.status_entries();
        let n = self.status.len();
        let mut i: usize = 0;
        while i < n
            invariant
                i <= n,
                n == self.status@.len(),
                s == self.status_entries(),
                self.wf(),
                forall|j: int| 0 <= j < i ==> (#[trigger] s[j]).0 != script_hash@,
            decreases n - i,
        {
            assert(s[i as int] == (self.status@[i as int].0@, id_views(self.status@[i as int].1@)));
            if ids_eq(&self.status[i].0, script_hash) {
                proof {
                    lemma_assoc_unique_index(s, i as int);
                }
                let d = digest_of_list(&self.status[i].1);
                return Some(d);
            }
            i = i + 1;
        }
        proof {
            lemma_assoc_key(s, script_hash@);
        }
        None
    }
}

} // verus!

verus! {

/// Appending the same script-hash/transaction-id pair again leaves
/// the status list unchanged and reproduces the same digest.
pub proof fn lemma_status_append_idempotent(s: Seq<Seq<u8>>, id: Seq<u8>)
    requires
        ids_sorted(s),
    ensures
        insert_sorted(insert_sorted(s, id), id) == insert_sorted(s, id),
        digest_of(insert_sorted(insert_sorted(s, id), id)) == digest_of(insert_sorted(s, id)),
{
    lemma_insert_sorted_props(s, id);
    let t = insert_sorted(s, id);
    assert(t.contains(id));
    let q = choose|q: int| 0 <= q < t.len() && t[q] == id;
    lemma_insert_sorted_present(t, id, q);
}

/// Two sorted duplicate-free lists with the same members are equal.
pub proof fn lemma_sorted_ids_unique(a: Seq<Seq<u8>>, b: Seq<Seq<u8>>)
    requires
        ids_sorted(a),
        ids_sorted(b),
        forall|x: Seq<u8>| #[trigger] a.contains(x) <==> #[trigger] b.contains(x),
    ensures
        a == b,
    decreases a.len(),
{
    if a.len() == 0 {
        if b.len() > 0 {
            assert(b.contains(b[0]));
            assert(a.contains(b[0]));
            let i = choose|i: int| 0 <= i < a.len() && a[i] == b[0];
            assert(false);
        }
        assert(a =~= b);
    } else if b.len() == 0 {
        assert(a.contains(a[0]));
        assert(b.contains(a[0]));
        let i = choose|i: int| 0 <= i < b.len() && b[i] == a[0];
        assert(false);
    } else {
        assert(a.contains(a[0]) && b.contains(b[0]));
        assert(b.contains(a[0]) && a.contains(b[0]));
        let j = choose|j: int| 0 <= j < b.len() && b[j] == a[0];
        let i = choose|i: int| 0 <= i < a.len() && a[i] == b[0];
        assert(a[0] == b[0]) by {
            if j > 0 {
                assert(lex_lt(b[0], b[j]));
                if i > 0 {
                    assert(lex_lt(a[0], a[i]));
                    lemma_lex_trans(a[0], b[0], a[0]);
                    lemma_lex_irrefl(a[0]);
                } else {
                    lemma_lex_irrefl(b[0]);
                }
            }
        }
        let at = a.drop_first();
        let bt = b.drop_first();
        assert(forall|k: int| 0 <= k < at.len() ==> (#[trigger] at[k]) == a[k + 1]);
        assert(forall|k: int| 0 <= k < bt.len() ==> (#[trigger] bt[k]) == b[k + 1]);
        assert(ids_sorted(at));
        assert(ids_sorted(bt));
        assert forall|x: Seq<u8>| #[trigger] at.contains(x) implies bt.contains(x) by {
            let w = choose|w: int| 0 <= w < at.len() && at[w] == x;
            assert(a[w + 1] == x);
            assert(a.contains(x));
            assert(lex_lt(a[0], x));
            assert(b.contains(x));
            let v = choose|v: int| 0 <= v < b.len() && b[v] == x;
            assert(v != 0) by {
                lemma_lex_irrefl(a[0]);
            }
            assert(bt[v - 1] == x);
        }
        assert forall|x: Seq<u8>| #[trigger] bt.contains(x) implies at.contains(x) by {
            let w = choose|w: int| 0 <= w < bt.len() && bt[w] == x;
            assert(b[w + 1] == x);
            assert(b.contains(x));
            assert(lex_lt(b[0], x));
            assert(a.contains(x));
            let v = choose|v: int| 0 <= v < a.len() && a[v] == x;
            assert(v != 0) by {
                lemma_lex_irrefl(b[0]);
            }
            assert(at[v - 1] == x);
        }
        lemma_sorted_ids_unique(at, bt);
        assert(a.len() == b.len());
        assert forall|k: int| 0 <= k < a.len() implies #[trigger] a[k] == b[k] by {
            if k > 0 {
                assert(at[k - 1] == bt[k - 1]);
            }
        }
        assert(a =~= b);
    }
}

/// The status digest depends only on the set of touching transaction
/// ids, not the order of their observation: sorted duplicate-free
/// lists with the same members concatenate, and so hash, alike.
pub proof fn lemma_status_digest_set_determined(a: Seq<Seq<u8>>, b: Seq<Seq<u8>>)
    requires
        ids_sorted(a),
        ids_sorted(b),
        forall|x: Seq<u8>| #[trigger] a.contains(x) <==> #[trigger] b.contains(x),
    ensures
        digest_of(a) == digest_of(b),
{
    lemma_sorted_ids_unique(a, b);
}

} // verus!

verus! {

/// Appending the same script-hash/transaction-id pair a second time
/// leaves the whole status table exactly as it was: the repeated
/// append writes back the list it read.
pub proof fn lemma_status_table_append_idempotent(
    m: Map<Seq<u8>, Seq<Seq<u8>>>,
    sh: Seq<u8>,
    id: Seq<u8>,
)
    requires
        m.contains_key(sh) ==> ids_sorted(m[sh]),
    ensures
        ({
            let l0 = if m.contains_key(sh) {
                m[sh]
            } else {
                Seq::<Seq<u8>>::empty()
            };
            let m1 = m.insert(sh, insert_sorted(l0, id));
            m1.insert(sh, insert_sorted(m1[sh], id)) == m1
        }),
{
    let l0 = if m.contains_key(sh) {
        m[sh]
    } else {
        Seq::<Seq<u8>>::empty()
    };
    let m1 = m.insert(sh, insert_sorted(l0, id));
    assert(ids_sorted(l0));
    lemma_status_append_idempotent(l0, id);
    assert(m1[sh] == insert_sorted(l0, id));
    assert(m1.insert(sh, insert_sorted(m1[sh], id)) =~= m1);
}

} // verus!
