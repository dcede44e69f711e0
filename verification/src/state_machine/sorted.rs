//! A map kept as a list in ascending order of its keys.
use vstd::prelude::*;
use vstd::string::*;

use crate::types::NodeId;

verus! {

/// A key with a strict total order.
pub trait SortKey: View + Sized {
    /// Whether `a` stands before `b`.
    spec fn before(a: Self::V, b: Self::V) -> bool;

    proof fn irreflexive(a: Self::V)
        ensures
            !Self::before(a, a),
    ;

    proof fn transitive(a: Self::V, b: Self::V, c: Self::V)
        requires
            Self::before(a, b),
            Self::before(b, c),
        ensures
            Self::before(a, c),
    ;

    proof fn total(a: Self::V, b: Self::V)
        ensures
            Self::before(a, b) || a == b || Self::before(b, a),
    ;

    /// Whether this key stands before another.
    fn is_before(&self, other: &Self) -> (r: bool)
        ensures
            r == Self::before(self@, other@),
    ;
}

/// Byte strings in lexicographic order.
pub open spec fn bytes_before(a: Seq<u8>, b: Seq<u8>) -> bool
    decreases a.len(),
{
    if b.len() == 0 {
        false
    } else if a.len() == 0 {
        true
    } else if a[0] != b[0] {
        a[0] < b[0]
    } else {
        bytes_before(a.drop_first(), b.drop_first())
    }
}

proof fn lemma_bytes_irreflexive(a: Seq<u8>)
    ensures
        !bytes_before(a, a),
    decreases a.len(),
{
    if a.len() > 0 {
        lemma_bytes_irreflexive(a.drop_first());
    }
}

proof fn lemma_bytes_transitive(a: Seq<u8>, b: Seq<u8>, c: Seq<u8>)
    requires
        bytes_before(a, b),
        bytes_before(b, c),
    ensures
        bytes_before(a, c),
    decreases a.len(),
{
    if a.len() > 0 && a[0] == b[0] && b[0] == c[0] {
        lemma_bytes_transitive(a.drop_first(), b.drop_first(), c.drop_first());
    }
}

proof fn lemma_bytes_total(a: Seq<u8>, b: Seq<u8>)
    ensures
        bytes_before(a, b) || a == b || bytes_before(b, a),
    decreases a.len(),
{
    if a.len() == 0 {
        if b.len() == 0 {
            assert(a =~= b);
        }
    } else if b.len() > 0 && a[0] == b[0] {
        lemma_bytes_total(a.drop_first(), b.drop_first());
        if a.drop_first() == b.drop_first() {
            assert(a =~= seq![a[0]] + a.drop_first());
            assert(b =~= seq![b[0]] + b.drop_first());
        }
    }
}

impl SortKey for Vec<u8> {
    open spec fn before(a: Seq<u8>, b: Seq<u8>) -> bool {
        bytes_before(a, b)
    }

    proof fn irreflexive(a: Seq<u8>) {
        lemma_bytes_irreflexive(a);
    }

    proof fn transitive(a: Seq<u8>, b: Seq<u8>, c: Seq<u8>) {
        lemma_bytes_transitive(a, b, c);
    }

    proof fn total(a: Seq<u8>, b: Seq<u8>) {
        lemma_bytes_total(a, b);
    }

    fn is_before(&self, other: &Self) -> (r: bool) {
        let ghost a = self@;
        let ghost b = other@;
        let mut i: usize = 0;
        assert(a.subrange(0, a.len() as int) =~= a);
        assert(b.subrange(0, b.len() as int) =~= b);
        while i < self.len() && i < other.len()
            invariant
                i <= self@.len(),
                i <= other@.len(),
                a == self@,
                b == other@,
                bytes_before(a, b) == bytes_before(
                    a.subrange(i as int, a.len() as int),
                    b.subrange(i as int, b.len() as int),
                ),
            decreases self@.len() - i,
        {
            assert(a.subrange(i as int, a.len() as int).drop_first() =~= a.subrange(
                i + 1,
                a.len() as int,
            ));
            assert(b.subrange(i as int, b.len() as int).drop_first() =~= b.subrange(
                i + 1,
                b.len() as int,
            ));
            if self[i] != other[i] {
                return self[i] < other[i];
            }
            i = i + 1;
        }
        self.len() < other.len()
    }
}

/// Texts in lexicographic order of their characters.
pub open spec fn text_before(a: Seq<char>, b: Seq<char>) -> bool
    decreases a.len(),
{
    if b.len() == 0 {
        false
    } else if a.len() == 0 {
        true
    } else if a[0] != b[0] {
        a[0] < b[0]
    } else {
        text_before(a.drop_first(), b.drop_first())
    }
}

proof fn lemma_text_irreflexive(a: Seq<char>)
    ensures
        !text_before(a, a),
    decreases a.len(),
{
    if a.len() > 0 {
        lemma_text_irreflexive(a.drop_first());
    }
}

proof fn lemma_text_transitive(a: Seq<char>, b: Seq<char>, c: Seq<char>)
    requires
        text_before(a, b),
        text_before(b, c),
    ensures
        text_before(a, c),
    decreases a.len(),
{
    if a.len() > 0 && a[0] == b[0] && b[0] == c[0] {
        lemma_text_transitive(a.drop_first(), b.drop_first(), c.drop_first());
    }
}

proof fn lemma_text_total(a: Seq<char>, b: Seq<char>)
    ensures
        text_before(a, b) || a == b || text_before(b, a),
    decreases a.len(),
{
    if a.len() == 0 {
        if b.len() == 0 {
            assert(a =~= b);
        }
    } else if b.len() > 0 && a[0] == b[0] {
        lemma_text_total(a.drop_first(), b.drop_first());
        if a.drop_first() == b.drop_first() {
            assert(a =~= seq![a[0]] + a.drop_first());
            assert(b =~= seq![b[0]] + b.drop_first());
        }
    }
}

impl View for NodeId {
    type V = Seq<char>;

    open spec fn view(&self) -> Seq<char> {
        self.name@
    }
}

impl SortKey for NodeId {
    open spec fn before(a: Seq<char>, b: Seq<char>) -> bool {
        text_before(a, b)
    }

    proof fn irreflexive(a: Seq<char>) {
        lemma_text_irreflexive(a);
    }

    proof fn transitive(a: Seq<char>, b: Seq<char>, c: Seq<char>) {
        lemma_text_transitive(a, b, c);
    }

    proof fn total(a: Seq<char>, b: Seq<char>) {
        lemma_text_total(a, b);
    }

    fn is_before(&self, other: &Self) -> (r: bool) {
        let ghost a = self@;
        let ghost b = other@;
        let left = self.name.as_str();
        let right = other.name.as_str();
        let m: usize = left.unicode_len();
        let n: usize = right.unicode_len();
        let mut i: usize = 0;
        assert(a.subrange(0, a.len() as int) =~= a);
        assert(b.subrange(0, b.len() as int) =~= b);
        while i < m && i < n
            invariant
                i <= m,
                i <= n,
                m == a.len(),
                n == b.len(),
                a == self@,
                b == other@,
                a == left@,
                b == right@,
                text_before(a, b) == text_before(
                    a.subrange(i as int, a.len() as int),
                    b.subrange(i as int, b.len() as int),
                ),
            decreases m - i,
        {
            assert(a.subrange(i as int, a.len() as int).drop_first() =~= a.subrange(
                i + 1,
                a.len() as int,
            ));
            assert(b.subrange(i as int, b.len() as int).drop_first() =~= b.subrange(
                i + 1,
                b.len() as int,
            ));
            let x: char = left.get_char(i);
            let y: char = right.get_char(i);
            if x != y {
                return x < y;
            }
            i = i + 1;
        }
        m < n
    }
}

/// A session: the client and its sequence number.
#[derive(Clone, Copy, Debug, PartialEq, Eq, Structural)]
pub struct SessionKey {
    pub client_id: u64,
    pub seq_no: u64,
}

impl View for SessionKey {
    type V = SessionKey;

    open spec fn view(&self) -> SessionKey {
        *self
    }
}

impl SortKey for SessionKey {
    open spec fn before(a: SessionKey, b: SessionKey) -> bool {
        a.client_id < b.client_id || (a.client_id == b.client_id && a.seq_no < b.seq_no)
    }

    proof fn irreflexive(a: SessionKey) {
    }

    proof fn transitive(a: SessionKey, b: SessionKey, c: SessionKey) {
    }

    proof fn total(a: SessionKey, b: SessionKey) {
    }

    fn is_before(&self, other: &Self) -> (r: bool) {
        self.client_id < other.client_id || (self.client_id == other.client_id && self.seq_no
            < other.seq_no)
    }
}

// ---------------------------------------------------------------------------
// Sorted lists
// ---------------------------------------------------------------------------
/// Whether the keys of a list ascend.
pub open spec fn keys_ascend<K: SortKey, W>(s: Seq<(K::V, W)>) -> bool {
    forall|i: int, j: int|
        0 <= i < j < s.len() ==> K::before((#[trigger] s[i]).0, (#[trigger] s[j]).0)
}

/// Whether a list has a key.
pub open spec fn has_key<K: SortKey, W>(s: Seq<(K::V, W)>, key: K::V) -> bool {
    exists|i: int| 0 <= i < s.len() && (#[trigger] s[i]).0 == key
}

/// The value at a key of a list.
pub open spec fn value_at<K: SortKey, W>(s: Seq<(K::V, W)>, key: K::V) -> W {
    s[choose|i: int| 0 <= i < s.len() && (#[trigger] s[i]).0 == key].1
}

/// The map that a list stands for.
pub open spec fn as_map<K: SortKey, W>(s: Seq<(K::V, W)>) -> Map<K::V, W> {
    Map::new(|key: K::V| has_key::<K, W>(s, key), |key: K::V| value_at::<K, W>(s, key))
}

/// The number of keys before `key` in the first `n` items of a list.
pub open spec fn rank<K: SortKey, W>(s: Seq<(K::V, W)>, key: K::V, n: int) -> int
    decreases n,
{
    if n <= 0 {
        0
    } else {
        rank::<K, W>(s, key, n - 1) + if K::before(s[n - 1].0, key) {
            1int
        } else {
            0int
        }
    }
}

/// The list with the value at a key set.
pub open spec fn put<K: SortKey, W>(s: Seq<(K::V, W)>, key: K::V, value: W) -> Seq<(K::V, W)> {
    let at = rank::<K, W>(s, key, s.len() as int);
    if 0 <= at < s.len() && s[at].0 == key {
        s.update(at, (key, value))
    } else {
        s.insert(at, (key, value))
    }
}

/// The list without a key.
pub open spec fn take_out<K: SortKey, W>(s: Seq<(K::V, W)>, key: K::V) -> Seq<(K::V, W)> {
    let at = rank::<K, W>(s, key, s.len() as int);
    if 0 <= at < s.len() && s[at].0 == key {
        s.remove(at)
    } else {
        s
    }
}

/// In a sorted list the keys before a given one come first.
pub proof fn lemma_rank<K: SortKey, W>(s: Seq<(K::V, W)>, key: K::V, n: int)
    requires
        keys_ascend::<K, W>(s),
        0 <= n <= s.len(),
    ensures
        0 <= rank::<K, W>(s, key, n) <= n,
        forall|i: int|
            0 <= i < n ==> (K::before((#[trigger] s[i]).0, key) <==> i < rank::<K, W>(s, key, n)),
    decreases n,
{
    if n > 0 {
        lemma_rank::<K, W>(s, key, n - 1);
        if K::before(s[n - 1].0, key) {
            assert forall|i: int| 0 <= i < n implies K::before((#[trigger] s[i]).0, key) by {
                if i < n - 1 {
                    K::transitive(s[i].0, s[n - 1].0, key);
                }
            }
        }
    }
}

/// The place of a key: it is there, or everything from there on stands after it.
pub proof fn lemma_place<K: SortKey, W>(s: Seq<(K::V, W)>, key: K::V)
    requires
        keys_ascend::<K, W>(s),
    ensures
        ({
            let at = rank::<K, W>(s, key, s.len() as int);
            &&& 0 <= at <= s.len()
            &&& has_key::<K, W>(s, key) <==> (at < s.len() && s[at].0 == key)
            &&& has_key::<K, W>(s, key) ==> value_at::<K, W>(s, key) == s[at].1
            &&& forall|i: int| 0 <= i < at ==> K::before((#[trigger] s[i]).0, key)
            &&& forall|i: int|
                at <= i < s.len() && (#[trigger] s[i]).0 != key ==> K::before(key, s[i].0)
        }),
{
    let n = s.len() as int;
    let at = rank::<K, W>(s, key, n);
    lemma_rank::<K, W>(s, key, n);
    assert forall|i: int| at <= i < s.len() && (#[trigger] s[i]).0 != key implies K::before(
        key,
        s[i].0,
    ) by {
        K::total(s[i].0, key);
    }
    if has_key::<K, W>(s, key) {
        let i = choose|i: int| 0 <= i < s.len() && (#[trigger] s[i]).0 == key;
        K::irreflexive(key);
        assert(at <= i);
        if at < i {
            assert(K::before(s[at].0, s[i].0));
            assert(!K::before(s[at].0, key));
        }
    }
}

/// Setting a value keeps the list sorted and sets it in the map.
pub proof fn lemma_put<K: SortKey, W>(s: Seq<(K::V, W)>, key: K::V, value: W)
    requires
        keys_ascend::<K, W>(s),
    ensures
        keys_ascend::<K, W>(put::<K, W>(s, key, value)),
        as_map::<K, W>(put::<K, W>(s, key, value)) == as_map::<K, W>(s).insert(key, value),
        put::<K, W>(s, key, value).len() <= s.len() + 1,
{
    let at = rank::<K, W>(s, key, s.len() as int);
    let t = put::<K, W>(s, key, value);
    lemma_place::<K, W>(s, key);
    let there = at < s.len() && s[at].0 == key;
    assert forall|i: int, j: int| 0 <= i < j < t.len() implies K::before(
        (#[trigger] t[i]).0,
        (#[trigger] t[j]).0,
    ) by {
        if there {
            assert(t[i].0 == s[i].0);
            assert(t[j].0 == s[j].0);
        } else if i < at && j > at {
            assert(t[i] == s[i]);
            assert(t[j] == s[j - 1]);
        } else if j < at {
            assert(t[i] == s[i]);
            assert(t[j] == s[j]);
        } else if i > at {
            assert(t[i] == s[i - 1]);
            assert(t[j] == s[j - 1]);
        } else if j == at {
            assert(t[i] == s[i]);
        } else {
            assert(t[j] == s[j - 1]);
        }
    }
    assert(t[at].0 == key && t[at].1 == value);
    let before = as_map::<K, W>(s);
    let after = as_map::<K, W>(t);
    assert forall|k: K::V| #[trigger] after.dom().contains(k) <==> before.insert(
        key,
        value,
    ).dom().contains(k) by {
        if has_key::<K, W>(t, k) && k != key {
            let i = choose|i: int| 0 <= i < t.len() && (#[trigger] t[i]).0 == k;
            let j = if there || i < at {
                i
            } else {
                i - 1
            };
            assert(s[j].0 == k);
        }
        if has_key::<K, W>(s, k) {
            let i = choose|i: int| 0 <= i < s.len() && (#[trigger] s[i]).0 == k;
            let j = if there || i < at {
                i
            } else {
                i + 1
            };
            assert(t[j].0 == k);
        }
    }
    assert forall|k: K::V| #[trigger] after.dom().contains(k) implies after[k] == before.insert(
        key,
        value,
    )[k] by {
        lemma_place::<K, W>(t, k);
        let i = rank::<K, W>(t, k, t.len() as int);
        if k == key {
            lemma_unique::<K, W>(t, at, i);
        } else {
            lemma_place::<K, W>(s, k);
            let j = if there || i < at {
                i
            } else {
                i - 1
            };
            assert(s[j] == t[i]);
            lemma_unique::<K, W>(s, j, rank::<K, W>(s, k, s.len() as int));
        }
    }
    assert(after =~= before.insert(key, value));
}

/// In a sorted list a key stands in one place.
pub proof fn lemma_unique<K: SortKey, W>(s: Seq<(K::V, W)>, i: int, j: int)
    requires
        keys_ascend::<K, W>(s),
        0 <= i < s.len(),
        0 <= j < s.len(),
        s[i].0 == s[j].0,
    ensures
        i == j,
{
    K::irreflexive(s[i].0);
    if i < j {
        assert(K::before(s[i].0, s[j].0));
    } else if j < i {
        assert(K::before(s[j].0, s[i].0));
    }
}

/// Taking a key out keeps the list sorted and takes it out of the map.
pub proof fn lemma_take_out<K: SortKey, W>(s: Seq<(K::V, W)>, key: K::V)
    requires
        keys_ascend::<K, W>(s),
    ensures
        keys_ascend::<K, W>(take_out::<K, W>(s, key)),
        as_map::<K, W>(take_out::<K, W>(s, key)) == as_map::<K, W>(s).remove(key),
        take_out::<K, W>(s, key).len() <= s.len(),
{
    let at = rank::<K, W>(s, key, s.len() as int);
    let t = take_out::<K, W>(s, key);
    lemma_place::<K, W>(s, key);
    let there = at < s.len() && s[at].0 == key;
    assert forall|i: int, j: int| 0 <= i < j < t.len() implies K::before(
        (#[trigger] t[i]).0,
        (#[trigger] t[j]).0,
    ) by {
        if there {
            let x = if i < at {
                i
            } else {
                i + 1
            };
            let y = if j < at {
                j
            } else {
                j + 1
            };
            assert(t[i] == s[x]);
            assert(t[j] == s[y]);
        }
    }
    let before = as_map::<K, W>(s);
    let after = as_map::<K, W>(t);
    assert forall|k: K::V| #[trigger] after.dom().contains(k) <==> before.remove(
        key,
    ).dom().contains(k) by {
        if has_key::<K, W>(t, k) {
            let i = choose|i: int| 0 <= i < t.len() && (#[trigger] t[i]).0 == k;
            if there {
                let j = if i < at {
                    i
                } else {
                    i + 1
                };
                assert(s[j].0 == k);
                if k == key {
                    lemma_unique::<K, W>(s, j, at);
                }
            }
        }
        if has_key::<K, W>(s, k) && k != key {
            let i = choose|i: int| 0 <= i < s.len() && (#[trigger] s[i]).0 == k;
            if there {
                let j = if i < at {
                    i
                } else {
                    i - 1
                };
                assert(t[j].0 == k);
            }
        }
    }
    assert forall|k: K::V| #[trigger] after.dom().contains(k) implies after[k] == before.remove(
        key,
    )[k] by {
        lemma_place::<K, W>(t, k);
        lemma_place::<K, W>(s, k);
        let i = rank::<K, W>(t, k, t.len() as int);
        if there {
            let j = if i < at {
                i
            } else {
                i + 1
            };
            assert(s[j] == t[i]);
            lemma_unique::<K, W>(s, j, rank::<K, W>(s, k, s.len() as int));
        }
    }
    assert(after =~= before.remove(key));
}

/// Setting a value at a key after all others adds it at the end.
pub proof fn lemma_put_last<K: SortKey, W>(s: Seq<(K::V, W)>, key: K::V, value: W)
    requires
        keys_ascend::<K, W>(s.push((key, value))),
    ensures
        put::<K, W>(s, key, value) == s.push((key, value)),
{
    let t = s.push((key, value));
    assert(keys_ascend::<K, W>(s)) by {
        assert forall|i: int, j: int| 0 <= i < j < s.len() implies K::before(
            (#[trigger] s[i]).0,
            (#[trigger] s[j]).0,
        ) by {
            assert(t[i] == s[i] && t[j] == s[j]);
        }
    }
    let at = rank::<K, W>(s, key, s.len() as int);
    lemma_place::<K, W>(s, key);
    if at < s.len() {
        assert(K::before(t[at].0, t[s.len() as int].0));
        K::irreflexive(key);
        if s[at].0 != key {
            K::transitive(s[at].0, key, s[at].0);
            K::irreflexive(s[at].0);
        }
    }
    assert(s.insert(s.len() as int, (key, value)) =~= t);
}

/// A map has one sorted list.
pub proof fn lemma_listing_unique<K: SortKey, W>(s: Seq<(K::V, W)>, t: Seq<(K::V, W)>)
    requires
        keys_ascend::<K, W>(s),
        keys_ascend::<K, W>(t),
        as_map::<K, W>(s) == as_map::<K, W>(t),
    ensures
        s == t,
    decreases s.len(),
{
    let ms = as_map::<K, W>(s);
    let mt = as_map::<K, W>(t);
    if s.len() == 0 {
        if t.len() > 0 {
            assert(t[0].0 == t[0].0);
            assert(has_key::<K, W>(t, t[0].0));
            assert(mt.dom().contains(t[0].0));
            assert(ms.dom().contains(t[0].0));
        }
        assert(s =~= t);
    } else {
        let n = s.len() - 1;
        assert(has_key::<K, W>(s, s[n].0));
        assert(ms.dom().contains(s[n].0));
        assert(mt.dom().contains(s[n].0));
        let j = choose|j: int| 0 <= j < t.len() && (#[trigger] t[j]).0 == s[n].0;
        let m = t.len() - 1;
        assert(has_key::<K, W>(t, t[m].0));
        assert(mt.dom().contains(t[m].0));
        assert(ms.dom().contains(t[m].0));
        let i = choose|i: int| 0 <= i < s.len() && (#[trigger] s[i]).0 == t[m].0;
        // The last keys agree: each is at or after every key of its own list.
        if j < m {
            assert(K::before(t[j].0, t[m].0));
            K::irreflexive(s[n].0);
            if i < n {
                assert(K::before(s[i].0, s[n].0));
                K::transitive(s[n].0, t[m].0, s[n].0);
            }
        }
        assert(j == m);
        lemma_place::<K, W>(s, s[n].0);
        lemma_place::<K, W>(t, s[n].0);
        lemma_unique::<K, W>(s, n, rank::<K, W>(s, s[n].0, s.len() as int));
        lemma_unique::<K, W>(t, m, rank::<K, W>(t, s[n].0, t.len() as int));
        assert(ms[s[n].0] == mt[s[n].0]);
        assert(s[n] == t[m]);
        let s1 = s.drop_last();
        let t1 = t.drop_last();
        lemma_drop_last::<K, W>(s);
        lemma_drop_last::<K, W>(t);
        lemma_listing_unique::<K, W>(s1, t1);
        assert(s =~= s1.push(s[n]));
        assert(t =~= t1.push(t[m]));
    }
}

proof fn lemma_drop_last<K: SortKey, W>(s: Seq<(K::V, W)>)
    requires
        keys_ascend::<K, W>(s),
        s.len() > 0,
    ensures
        keys_ascend::<K, W>(s.drop_last()),
        as_map::<K, W>(s.drop_last()) == as_map::<K, W>(s).remove(s.last().0),
{
    let n = s.len() - 1;
    let key = s[n].0;
    lemma_take_out::<K, W>(s, key);
    lemma_place::<K, W>(s, key);
    assert(has_key::<K, W>(s, key));
    lemma_unique::<K, W>(s, n, rank::<K, W>(s, key, s.len() as int));
    assert(s.remove(n) =~= s.drop_last());
}

// ---------------------------------------------------------------------------
// The executable map
// ---------------------------------------------------------------------------
/// A map kept as a list in ascending order of its keys.
pub struct SortedMap<K, V> {
    pub items: Vec<(K, V)>,
}

impl<K: SortKey, V: View> SortedMap<K, V> {
    /// The items as mathematical values.
    pub open spec fn list(&self) -> Seq<(K::V, V::V)> {
        Seq::new(self.items@.len(), |i: int| (self.items@[i].0@, self.items@[i].1@))
    }

    /// Whether the keys ascend.
    pub open spec fn wf(&self) -> bool {
        keys_ascend::<K, V::V>(self.list())
    }

    /// The map without keys.
    pub fn new() -> (r: Self)
        ensures
            r.list() == Seq::<(K::V, V::V)>::empty(),
            r.wf(),
    {
        let r = SortedMap { items: Vec::new() };
        assert(r.list() =~= Seq::<(K::V, V::V)>::empty());
        r
    }

    /// The number of keys.
    pub fn len(&self) -> (n: usize)
        ensures
            n == self.list().len(),
    {
        self.items.len()
    }

    /// The place of a key, and whether it is there.
    pub fn place(&self, key: &K) -> (r: (usize, bool))
        requires
            self.wf(),
        ensures
            r.0 == rank::<K, V::V>(self.list(), key@, self.list().len() as int),
            r.0 <= self.list().len(),
            r.1 == has_key::<K, V::V>(self.list(), key@),
            r.1 == (r.0 < self.list().len() && self.list()[r.0 as int].0 == key@),
    {
        let ghost s = self.list();
        let ghost at = rank::<K, V::V>(s, key@, s.len() as int);
        proof {
            lemma_place::<K, V::V>(s, key@);
            lemma_rank::<K, V::V>(s, key@, s.len() as int);
        }
        let mut low: usize = 0;
        let mut high: usize = self.items.len();
        while low < high
            invariant
                low <= at <= high <= s.len(),
                s == self.list(),
                s.len() == self.items@.len(),
                forall|i: int|
                    0 <= i < s.len() ==> (K::before((#[trigger] s[i]).0, key@) <==> i < at),
            decreases high - low,
        {
            let mid: usize = low + (high - low) / 2;
            assert(s[mid as int].0 == self.items@[mid as int].0@);
            if self.items[mid].0.is_before(key) {
                low = mid + 1;
            } else {
                high = mid;
            }
        }
        if low < self.items.len() {
            assert(s[low as int].0 == self.items@[low as int].0@);
            let after = key.is_before(&self.items[low].0);
            proof {
                K::irreflexive(key@);
            }
            (low, !after)
        } else {
            (low, false)
        }
    }

    /// The value at a key.
    pub fn get(&self, key: &K) -> (r: Option<&V>)
        requires
            self.wf(),
        ensures
            match r {
                Some(v) => as_map::<K, V::V>(self.list()).dom().contains(key@) && as_map::<K, V::V>(
                    self.list(),
                )[key@] == v@,
                None => !as_map::<K, V::V>(self.list()).dom().contains(key@),
            },
    {
        proof {
            lemma_place::<K, V::V>(self.list(), key@);
        }
        let (at, there) = self.place(key);
        if there {
            Some(&self.items[at].1)
        } else {
            None
        }
    }

    /// Set the value at a key.
    pub fn insert(&mut self, key: K, value: V)
        requires
            old(self).wf(),
        ensures
            final(self).wf(),
            final(self).list() == put::<K, V::V>(old(self).list(), key@, value@),
            as_map::<K, V::V>(final(self).list()) == as_map::<K, V::V>(old(self).list()).insert(
                key@,
                value@,
            ),
    {
        let ghost s = self.list();
        proof {
            lemma_put::<K, V::V>(s, key@, value@);
        }
        let (at, there) = self.place(&key);
        if there {
            self.items.remove(at);
            self.items.insert(at, (key, value));
        } else {
            self.items.insert(at, (key, value));
        }
        assert(self.list() =~= put::<K, V::V>(s, key@, value@));
    }

    /// Take a key out.
    pub fn remove(&mut self, key: &K)
        requires
            old(self).wf(),
        ensures
            final(self).wf(),
            final(self).list() == take_out::<K, V::V>(old(self).list(), key@),
            as_map::<K, V::V>(final(self).list()) == as_map::<K, V::V>(old(self).list()).remove(
                key@,
            ),
    {
        let ghost s = self.list();
        proof {
            lemma_take_out::<K, V::V>(s, key@);
        }
        let (at, there) = self.place(key);
        if there {
            self.items.remove(at);
        }
        assert(self.list() =~= take_out::<K, V::V>(s, key@));
    }
}

// ---------------------------------------------------------------------------
// Laws
// ---------------------------------------------------------------------------
/// Byte strings stand as in a dictionary: the first place where they differ decides, and
/// where there is none the shorter one is first.
pub proof fn law_bytes_stand_as_in_a_dictionary(a: Seq<u8>, b: Seq<u8>, k: int)
    requires
        0 <= k <= a.len(),
        k <= b.len(),
        forall|i: int| 0 <= i < k ==> #[trigger] a[i] == b[i],
        k < a.len() && k < b.len() ==> a[k] != b[k],
    ensures
        bytes_before(a, b) <==> if k < a.len() && k < b.len() {
            a[k] < b[k]
        } else {
            a.len() < b.len()
        },
    decreases k,
{
    if k > 0 {
        let x = a.drop_first();
        let y = b.drop_first();
        assert(a[0] == b[0]);
        assert forall|i: int| 0 <= i < k - 1 implies #[trigger] x[i] == y[i] by {
            assert(a[i + 1] == b[i + 1]);
        }
        law_bytes_stand_as_in_a_dictionary(x, y, k - 1);
    }
}

/// Texts stand as in a dictionary too.
pub proof fn law_texts_stand_as_in_a_dictionary(a: Seq<char>, b: Seq<char>, k: int)
    requires
        0 <= k <= a.len(),
        k <= b.len(),
        forall|i: int| 0 <= i < k ==> #[trigger] a[i] == b[i],
        k < a.len() && k < b.len() ==> a[k] != b[k],
    ensures
        text_before(a, b) <==> if k < a.len() && k < b.len() {
            a[k] < b[k]
        } else {
            a.len() < b.len()
        },
    decreases k,
{
    if k > 0 {
        let x = a.drop_first();
        let y = b.drop_first();
        assert(a[0] == b[0]);
        assert forall|i: int| 0 <= i < k - 1 implies #[trigger] x[i] == y[i] by {
            assert(a[i + 1] == b[i + 1]);
        }
        law_texts_stand_as_in_a_dictionary(x, y, k - 1);
    }
}

/// Sessions stand by client, and those of one client by sequence number.
pub proof fn law_sessions_stand_by_client(a: SessionKey, b: SessionKey)
    ensures
        a.client_id < b.client_id ==> <SessionKey as SortKey>::before(a, b),
        a.client_id > b.client_id ==> !<SessionKey as SortKey>::before(a, b),
        a.client_id == b.client_id ==> (<SessionKey as SortKey>::before(a, b) <==> a.seq_no
            < b.seq_no),
{
}

} // verus!
