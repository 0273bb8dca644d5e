//! The recovered in-memory index: an ordered map from byte-string
//! keys to byte-string values, kept as a vector of pairs sorted
//! strictly by key in lexicographic order. Inserting an existing key
//! overwrites its value, so the later writer wins.

use vstd::prelude::*;

verus! {

/// Strict lexicographic order on byte strings: the empty string comes
/// first, otherwise the first differing byte decides.
pub open spec fn lex_lt(a: Seq<u8>, b: Seq<u8>) -> bool
    decreases a.len(),
{
    if b.len() == 0 {
        false
    } else if a.len() == 0 {
        true
    } else if a[0] < b[0] {
        true
    } else if a[0] > b[0] {
        false
    } else {
        lex_lt(a.skip(1), b.skip(1))
    }
}

/// No byte string precedes itself.
pub proof fn lemma_lex_irrefl(a: Seq<u8>)
    ensures
        !lex_lt(a, a),
    decreases a.len(),
{
    if a.len() > 0 {
        lemma_lex_irrefl(a.skip(1));
    }
}

/// Of two distinct byte strings, one precedes the other, and never
/// both ways at once.
pub proof fn lemma_lex_trichotomy(a: Seq<u8>, b: Seq<u8>)
    ensures
        lex_lt(a, b) || lex_lt(b, a) || a == b,
        lex_lt(a, b) ==> !lex_lt(b, a) && a != b,
    decreases a.len(),
{
    if a.len() > 0 && b.len() > 0 && a[0] == b[0] {
        lemma_lex_trichotomy(a.skip(1), b.skip(1));
        if a.skip(1) == b.skip(1) {
            assert forall|i: int| 1 <= i < a.len() implies a[i] == b[i] by {
                assert(a[i] == a.skip(1)[i - 1]);
                assert(b[i] == b.skip(1)[i - 1]);
            }
            assert(a =~= b);
        }
    }
    if lex_lt(a, b) && a == b {
        lemma_lex_irrefl(a);
    }
}

/// Lexicographic order is transitive.
pub proof fn lemma_lex_trans(a: Seq<u8>, b: Seq<u8>, c: Seq<u8>)
    requires
        lex_lt(a, b),
        lex_lt(b, c),
    ensures
        lex_lt(a, c),
    decreases a.len(),
{
    if a.len() > 0 && b.len() > 0 && c.len() > 0 {
        if a[0] == b[0] && b[0] == c[0] {
            lemma_lex_trans(a.skip(1), b.skip(1), c.skip(1));
        }
    }
}

/// The entries of a pair vector as byte-string pairs.
pub open spec fn kv_of(entries: Seq<(Vec<u8>, Vec<u8>)>) -> Seq<(Seq<u8>, Seq<u8>)> {
    entries.map_values(|p: (Vec<u8>, Vec<u8>)| (p.0@, p.1@))
}

/// Keys strictly increasing in lexicographic order.
pub open spec fn kv_sorted(s: Seq<(Seq<u8>, Seq<u8>)>) -> bool {
    forall|i: int, j: int|
        0 <= i < j < s.len() ==> lex_lt(#[trigger] s[i].0, #[trigger] s[j].0)
}

/// The map a sequence of pairs with unique keys represents.
pub open spec fn map_of(s: Seq<(Seq<u8>, Seq<u8>)>) -> Map<Seq<u8>, Seq<u8>> {
    Map::new(
        |k: Seq<u8>| exists|i: int| 0 <= i < s.len() && (#[trigger] s[i]).0 == k,
        |k: Seq<u8>|
            {
                let i = choose|i: int| 0 <= i < s.len() && (#[trigger] s[i]).0 == k;
                s[i].1
            },
    )
}

/// Strictly sorted keys are pairwise distinct.
pub proof fn lemma_sorted_distinct(s: Seq<(Seq<u8>, Seq<u8>)>)
    requires
        kv_sorted(s),
    ensures
        forall|i: int, j: int|
            0 <= i < s.len() && 0 <= j < s.len() && i != j ==> (#[trigger] s[i]).0 != (
            #[trigger] s[j]).0,
{
    assert forall|i: int, j: int|
        0 <= i < s.len() && 0 <= j < s.len() && i != j implies (#[trigger] s[i]).0 != (
    #[trigger] s[j]).0 by {
        if i < j {
            lemma_lex_trichotomy(s[i].0, s[j].0);
        } else {
            lemma_lex_trichotomy(s[j].0, s[i].0);
        }
    }
}

/// With pairwise distinct keys, the entry at `i` gives the map's
/// value for its key.
pub proof fn lemma_map_of_entry(s: Seq<(Seq<u8>, Seq<u8>)>, i: int)
    requires
        kv_sorted(s),
        0 <= i < s.len(),
    ensures
        map_of(s).contains_key(s[i].0),
        map_of(s)[s[i].0] == s[i].1,
{
    lemma_sorted_distinct(s);
    let k = s[i].0;
    let j = choose|j: int| 0 <= j < s.len() && (#[trigger] s[j]).0 == k;
    assert(j == i);
}

/// Replacing the value stored under `k` updates the map's binding for
/// `k` and nothing else.
proof fn lemma_map_of_update(s: Seq<(Seq<u8>, Seq<u8>)>, kidx: int, k: Seq<u8>, v: Seq<u8>)
    requires
        kv_sorted(s),
        0 <= kidx < s.len(),
        s[kidx].0 == k,
    ensures
        kv_sorted(s.update(kidx, (k, v))),
        map_of(s.update(kidx, (k, v))) == map_of(s).insert(k, v),
{
    let s2 = s.update(kidx, (k, v));
    lemma_sorted_distinct(s);
    assert forall|i: int, j: int| 0 <= i < j < s2.len() implies lex_lt(
        #[trigger] s2[i].0,
        #[trigger] s2[j].0,
    ) by {
        assert(s2[i].0 == s[i].0);
        assert(s2[j].0 == s[j].0);
    }
    assert forall|k2: Seq<u8>| #[trigger]
        map_of(s2).contains_key(k2) == map_of(s).insert(k, v).contains_key(k2) by {
        assert(forall|i: int| 0 <= i < s.len() ==> (#[trigger] s2[i]).0 == s[i].0);
        if map_of(s2).contains_key(k2) {
            let i = choose|i: int| 0 <= i < s2.len() && (#[trigger] s2[i]).0 == k2;
            assert(s[i].0 == k2);
        }
        if map_of(s).contains_key(k2) {
            let i = choose|i: int| 0 <= i < s.len() && (#[trigger] s[i]).0 == k2;
            assert(s2[i].0 == k2);
        }
        if k2 == k {
            assert(s2[kidx].0 == k2);
        }
    }
    assert forall|k2: Seq<u8>| map_of(s2).contains_key(k2) implies #[trigger] map_of(s2)[k2]
        == map_of(s).insert(k, v)[k2] by {
        lemma_sorted_distinct(s2);
        let i = choose|i: int| 0 <= i < s2.len() && (#[trigger] s2[i]).0 == k2;
        if k2 == k {
            assert(i == kidx);
            assert(map_of(s2)[k2] == v);
        } else {
            assert(i != kidx);
            let j = choose|j: int| 0 <= j < s.len() && (#[trigger] s[j]).0 == k2;
            assert(s2[j].0 == k2);
            assert(j == i);
            assert(map_of(s2)[k2] == s2[i].1);
            assert(map_of(s)[k2] == s[j].1);
        }
    }
    assert(map_of(s2) =~= map_of(s).insert(k, v));
}

/// Inserting a fresh key `k` at the position that keeps the keys
/// sorted adds exactly the binding `k -> v` to the map.
proof fn lemma_map_of_insert(s: Seq<(Seq<u8>, Seq<u8>)>, kidx: int, k: Seq<u8>, v: Seq<u8>)
    requires
        kv_sorted(s),
        0 <= kidx <= s.len(),
        forall|j: int| 0 <= j < kidx ==> lex_lt((#[trigger] s[j]).0, k),
        kidx < s.len() ==> lex_lt(k, s[kidx].0),
    ensures
        kv_sorted(s.insert(kidx, (k, v))),
        map_of(s.insert(kidx, (k, v))) == map_of(s).insert(k, v),
{
    let s2 = s.insert(kidx, (k, v));
    assert forall|i: int, j: int| 0 <= i < j < s2.len() implies lex_lt(
        #[trigger] s2[i].0,
        #[trigger] s2[j].0,
    ) by {
        if i == kidx {
            if j - 1 > kidx || (j - 1 == kidx && kidx < s.len()) {
                if j - 1 == kidx {
                    assert(s2[j].0 == s[kidx].0);
                } else {
                    lemma_lex_trans(k, s[kidx].0, s[j - 1].0);
                }
            }
        } else if j == kidx {
            assert(s2[i].0 == s[i].0);
        } else {
            let oi: int = if i < kidx { i } else { i - 1 };
            let oj: int = if j < kidx { j } else { j - 1 };
            assert(s2[i].0 == s[oi].0);
            assert(s2[j].0 == s[oj].0);
            if oi < oj {
            } else {
                assert(oi == oj);
                assert(i < kidx && j > kidx);
                if kidx < s.len() {
                    lemma_lex_trans(s[oi].0, k, s[kidx].0);
                    lemma_lex_irrefl(s[oi].0);
                }
                assert(false);
            }
        }
    }
    // k is not among the old keys.
    assert forall|j: int| 0 <= j < s.len() implies (#[trigger] s[j]).0 != k by {
        if j < kidx {
            lemma_lex_trichotomy(s[j].0, k);
        } else if j == kidx {
            lemma_lex_trichotomy(k, s[j].0);
        } else {
            lemma_lex_trans(k, s[kidx].0, s[j].0);
            lemma_lex_trichotomy(k, s[j].0);
        }
    }
    lemma_sorted_distinct(s2);
    assert forall|k2: Seq<u8>| #[trigger]
        map_of(s2).contains_key(k2) == map_of(s).insert(k, v).contains_key(k2) by {
        if map_of(s2).contains_key(k2) {
            let i = choose|i: int| 0 <= i < s2.len() && (#[trigger] s2[i]).0 == k2;
            if i != kidx {
                let oi: int = if i < kidx { i } else { i - 1 };
                assert(s[oi].0 == k2);
            }
        }
        if map_of(s).contains_key(k2) {
            let i = choose|i: int| 0 <= i < s.len() && (#[trigger] s[i]).0 == k2;
            let ni: int = if i < kidx { i } else { i + 1 };
            assert(s2[ni].0 == k2);
        }
        assert(s2[kidx].0 == k);
    }
    assert forall|k2: Seq<u8>| map_of(s2).contains_key(k2) implies #[trigger] map_of(s2)[k2]
        == map_of(s).insert(k, v)[k2] by {
        let i = choose|i: int| 0 <= i < s2.len() && (#[trigger] s2[i]).0 == k2;
        if k2 == k {
            assert(i == kidx);
            assert(map_of(s2)[k2] == v);
        } else {
            assert(i != kidx);
            let oi: int = if i < kidx { i } else { i - 1 };
            assert(s2[i] == s[oi]);
            let j = choose|j: int| 0 <= j < s.len() && (#[trigger] s[j]).0 == k2;
            let nj: int = if j < kidx { j } else { j + 1 };
            assert(s2[nj].0 == k2);
            assert(nj == i);
            assert(map_of(s2)[k2] == s2[i].1);
            assert(map_of(s)[k2] == s[j].1);
        }
    }
    assert(map_of(s2) =~= map_of(s).insert(k, v));
}

/// The recovered index. Ownership transfers to the caller of replay;
/// the WAL manager keeps no copy.
pub struct Memtable {
    entries: Vec<(Vec<u8>, Vec<u8>)>,
}

impl Memtable {
    /// The entries as a sequence of (key, value) byte strings, in
    /// storage order.
    pub closed spec fn kv_seq(self) -> Seq<(Seq<u8>, Seq<u8>)> {
        kv_of(self.entries@)
    }

    /// Well-formedness: keys are strictly increasing, hence unique
    /// and enumerated in key order.
    pub open spec fn wf(self) -> bool {
        kv_sorted(self.kv_seq())
    }

    /// The map the entries represent.
    pub open spec fn view(self) -> Map<Seq<u8>, Seq<u8>> {
        map_of(self.kv_seq())
    }

    /// A fresh, empty index.
    pub fn new() -> (r: Memtable)
        ensures
            r.wf(),
            r@ == Map::<Seq<u8>, Seq<u8>>::empty(),
            r.kv_seq() == Seq::<(Seq<u8>, Seq<u8>)>::empty(),
    {
        let r = Memtable { entries: Vec::new() };
        proof {
            assert(r.kv_seq() =~= Seq::<(Seq<u8>, Seq<u8>)>::empty());
            assert(r@ =~= Map::<Seq<u8>, Seq<u8>>::empty());
        }
        r
    }

    /// Number of distinct keys stored.
    pub fn len(&self) -> (r: usize)
        ensures
            r == self.kv_seq().len(),
    {
        self.entries.len()
    }

    /// The key of the `i`-th entry in key order.
    pub fn key_at(&self, i: usize) -> (r: &Vec<u8>)
        requires
            i < self.kv_seq().len(),
        ensures
            r@ == self.kv_seq()[i as int].0,
    {
        &self.entries[i].0
    }

    /// The value of the `i`-th entry in key order.
    pub fn value_at(&self, i: usize) -> (r: &Vec<u8>)
        requires
            i < self.kv_seq().len(),
        ensures
            r@ == self.kv_seq()[i as int].1,
    {
        &self.entries[i].1
    }

    /// Looks a key up.
    pub fn get(&self, key: &[u8]) -> (r: Option<&Vec<u8>>)
        requires
            self.wf(),
        ensures
            match r {
                Some(v) => self@.contains_key(key@) && v@ == self@[key@],
                None => !self@.contains_key(key@),
            },
    {
        let n = self.entries.len();
        let mut i: usize = 0;
        while i < n
            invariant
                self.wf(),
                n == self.kv_seq().len(),
                i <= n,
                forall|j: int| 0 <= j < i ==> (#[trigger] self.kv_seq()[j]).0 != key@,
            decreases n - i,
        {
            if bytes_eq(self.entries[i].0.as_slice(), key) {
                proof {
                    lemma_map_of_entry(self.kv_seq(), i as int);
                }
                return Some(&self.entries[i].1);
            }
            i = i + 1;
        }
        None
    }

    /// Inserts a pair, overwriting the value if the key is present:
    /// the later writer wins. Keys stay in strict lexicographic order.
    pub fn insert(&mut self, key: Vec<u8>, value: Vec<u8>)
        requires
            old(self).wf(),
        ensures
            final(self).wf(),
            final(self)@ == old(self)@.insert(key@, value@),
    {
        let ghost oldkv = self.kv_seq();
        let i = find_slot(&self.entries, key.as_slice());
        let n = self.entries.len();
        let same_key = i < n && bytes_eq(self.entries[i].0.as_slice(), key.as_slice());
        let ghost kidx = i as int;
        if same_key {
            // Same key: replace the value in place.
            self.entries.remove(i);
            self.entries.insert(i, (key, value));
            proof {
                assert(self.kv_seq() =~= oldkv.update(kidx, (key@, value@)));
                lemma_map_of_update(oldkv, kidx, key@, value@);
            }
        } else {
            // New key: it belongs exactly at position i.
            proof {
                if kidx < oldkv.len() {
                    lemma_lex_trichotomy(oldkv[kidx].0, key@);
                }
            }
            self.entries.insert(i, (key, value));
            proof {
                assert(self.kv_seq() =~= oldkv.insert(kidx, (key@, value@)));
                lemma_map_of_insert(oldkv, kidx, key@, value@);
            }
        }
    }

    /// Turns the table back into the plain vector of sorted pairs,
    /// handing ownership to the caller.
    pub fn into_entries(self) -> (r: Vec<(Vec<u8>, Vec<u8>)>)
        ensures
            kv_of(r@) == self.kv_seq(),
    {
        self.entries
    }
}

/// The position of the first entry whose key is not less than `key`:
/// where `key` itself sits if present, and where it belongs if not.
fn find_slot(entries: &Vec<(Vec<u8>, Vec<u8>)>, key: &[u8]) -> (r: usize)
    ensures
        r <= kv_of(entries@).len(),
        forall|j: int| 0 <= j < r ==> lex_lt((#[trigger] kv_of(entries@)[j]).0, key@),
        r < kv_of(entries@).len() ==> !lex_lt(kv_of(entries@)[r as int].0, key@),
{
    let n = entries.len();
    let mut i: usize = 0;
    while i < n
        invariant
            n == kv_of(entries@).len(),
            i <= n,
            forall|j: int| 0 <= j < i ==> lex_lt((#[trigger] kv_of(entries@)[j]).0, key@),
        decreases n - i,
    {
        if !lex_lt_exec(entries[i].0.as_slice(), key) {
            return i;
        }
        i = i + 1;
    }
    i
}

/// Whether two byte slices hold the same bytes.
pub fn bytes_eq(a: &[u8], b: &[u8]) -> (r: bool)
    ensures
        r == (a@ == b@),
{
    if a.len() != b.len() {
        proof {
            assert(a@.len() != b@.len());
        }
        return false;
    }
    let n = a.len();
    let mut i: usize = 0;
    while i < n
        invariant
            n == a@.len() == b@.len(),
            i <= n,
            forall|j: int| 0 <= j < i ==> a@[j] == b@[j],
        decreases n - i,
    {
        if a[i] != b[i] {
            return false;
        }
        i = i + 1;
    }
    proof {
        assert(a@ =~= b@);
    }
    true
}

/// Whether `a` strictly precedes `b` in lexicographic order.
pub fn lex_lt_exec(a: &[u8], b: &[u8]) -> (r: bool)
    ensures
        r == lex_lt(a@, b@),
{
    let an = a.len();
    let bn = b.len();
    let mut i: usize = 0;
    proof {
        assert(a@.skip(0) =~= a@);
        assert(b@.skip(0) =~= b@);
    }
    loop
        invariant
            an == a@.len(),
            bn == b@.len(),
            i <= an,
            i <= bn,
            lex_lt(a@, b@) == lex_lt(a@.skip(i as int), b@.skip(i as int)),
        decreases an - i,
    {
        if i >= bn {
            proof {
                assert(b@.skip(i as int).len() == 0);
            }
            return false;
        }
        if i >= an {
            proof {
                assert(a@.skip(i as int).len() == 0);
                assert(b@.skip(i as int).len() > 0);
            }
            return true;
        }
        let av = a[i];
        let bv = b[i];
        proof {
            assert(a@.skip(i as int)[0] == a@[i as int]);
            assert(b@.skip(i as int)[0] == b@[i as int]);
            assert(a@.skip(i as int).skip(1) =~= a@.skip(i + 1));
            assert(b@.skip(i as int).skip(1) =~= b@.skip(i + 1));
        }
        if av < bv {
            return true;
        }
        if av > bv {
            return false;
        }
        i = i + 1;
    }
}

} // verus!
