//! A small ordered map: entries keep the order in which their keys came.
use vstd::prelude::*;

verus! {

/// What can serve as a key of a [`Table`].
pub trait Key: View + Sized {
    /// Whether two keys are the same key.
    fn same(&self, other: &Self) -> (r: bool)
        ensures
            r == (self@ == other@),
    ;
}

impl Key for u16 {
    fn same(&self, other: &Self) -> (r: bool) {
        *self == *other
    }
}

impl Key for String {
    fn same(&self, other: &Self) -> (r: bool) {
        crate::text::same_text(self.as_str(), other.as_str())
    }
}

/// The position of the first entry for `k` from `i` on.
pub open spec fn position_from<K, V>(s: Seq<(K, V)>, k: K, i: int) -> Option<int>
    decreases s.len() - i,
{
    if i < 0 || i >= s.len() {
        None
    } else if s[i].0 == k {
        Some(i)
    } else {
        position_from(s, k, i + 1)
    }
}

/// The position of the entry for `k`.
pub open spec fn position<K, V>(s: Seq<(K, V)>, k: K) -> Option<int> {
    position_from(s, k, 0)
}

/// Whether there is an entry for `k`.
pub open spec fn has_key<K, V>(s: Seq<(K, V)>, k: K) -> bool {
    position(s, k) is Some
}

/// The value that belongs to `k`.
pub open spec fn lookup<K, V>(s: Seq<(K, V)>, k: K) -> Option<V> {
    match position(s, k) {
        Some(i) => Some(s[i].1),
        None => None,
    }
}

/// The entries after `k` has got the value `v`: a known key keeps its place,
/// a new one comes last.
pub open spec fn put<K, V>(s: Seq<(K, V)>, k: K, v: V) -> Seq<(K, V)> {
    match position(s, k) {
        Some(i) => s.update(i, (k, v)),
        None => s.push((k, v)),
    }
}

/// The entries after `k` has been entered with the value `v`, unless it was
/// there already.
pub open spec fn entered<K, V>(s: Seq<(K, V)>, k: K, v: V) -> Seq<(K, V)> {
    if has_key(s, k) {
        s
    } else {
        s.push((k, v))
    }
}

/// The entries without the one for `k`.
pub open spec fn removed<K, V>(s: Seq<(K, V)>, k: K) -> Seq<(K, V)> {
    match position(s, k) {
        Some(i) => s.remove(i),
        None => s,
    }
}

/// No key occurs twice.
pub open spec fn distinct<K, V>(s: Seq<(K, V)>) -> bool {
    forall|i: int, j: int| 0 <= i < j < s.len() ==> (#[trigger] s[i]).0 != (#[trigger] s[j]).0
}

/// The position is that of the first entry with the key, if there is one.
pub proof fn position_is_first<K, V>(s: Seq<(K, V)>, k: K, i: int)
    requires
        0 <= i <= s.len(),
    ensures
        match position_from(s, k, i) {
            Some(p) => i <= p < s.len() && s[p].0 == k && forall|j: int|
                i <= j < p ==> (#[trigger] s[j]).0 != k,
            None => forall|j: int| i <= j < s.len() ==> (#[trigger] s[j]).0 != k,
        },
    decreases s.len() - i,
{
    if i < s.len() && s[i].0 != k {
        position_is_first(s, k, i + 1);
    }
}

/// An entry at `i` with the key `k`, and none before it, is where `k` is.
pub proof fn position_known<K, V>(s: Seq<(K, V)>, k: K, i: int)
    requires
        0 <= i < s.len(),
        s[i].0 == k,
        forall|j: int| 0 <= j < i ==> (#[trigger] s[j]).0 != k,
    ensures
        position(s, k) == Some(i),
{
    position_is_first(s, k, 0);
}

/// What was put is found again, and every other key keeps its value.
pub proof fn lookup_after_put<K, V>(s: Seq<(K, V)>, k: K, v: V, other: K)
    ensures
        lookup(put(s, k, v), k) == Some(v),
        other != k ==> lookup(put(s, k, v), other) == lookup(s, other),
{
    let t = put(s, k, v);
    position_is_first(s, k, 0);
    position_is_first(s, other, 0);
    position_is_first(t, k, 0);
    position_is_first(t, other, 0);
    match position(s, k) {
        Some(i) => {
            assert(t[i].0 == k);
            assert forall|j: int| 0 <= j < t.len() implies (#[trigger] t[j]).0 == s[j].0 by {}
            position_known(t, k, i);
            if other != k {
                if let Some(p) = position(s, other) {
                    position_known(t, other, p);
                } else if let Some(p) = position(t, other) {
                    assert(s[p].0 == other);
                }
            }
        },
        None => {
            assert forall|j: int| 0 <= j < s.len() implies (#[trigger] t[j]) == s[j] by {}
            assert(t[s.len() as int].0 == k);
            position_known(t, k, s.len() as int);
            if other != k {
                if let Some(p) = position(s, other) {
                    position_known(t, other, p);
                } else if let Some(p) = position(t, other) {
                    assert(p < s.len());
                    assert(s[p].0 == other);
                }
            }
        },
    }
}

/// Putting keeps the keys distinct.
pub proof fn put_keeps_distinct<K, V>(s: Seq<(K, V)>, k: K, v: V)
    requires
        distinct(s),
    ensures
        distinct(put(s, k, v)),
{
    position_is_first(s, k, 0);
    let t = put(s, k, v);
    assert forall|i: int, j: int| 0 <= i < j < t.len() implies (#[trigger] t[i]).0 != (
    #[trigger] t[j]).0 by {
        if j < s.len() {
            assert(s[i].0 != s[j].0);
        } else {
            assert(s[i].0 != k);
        }
    }
}

/// A removed key is gone, every other key keeps its value, and the keys stay
/// distinct.
pub proof fn lookup_after_removed<K, V>(s: Seq<(K, V)>, k: K, other: K)
    requires
        distinct(s),
    ensures
        !has_key(removed(s, k), k),
        other != k ==> lookup(removed(s, k), other) == lookup(s, other),
        distinct(removed(s, k)),
{
    let t = removed(s, k);
    position_is_first(s, k, 0);
    position_is_first(s, other, 0);
    position_is_first(t, k, 0);
    position_is_first(t, other, 0);
    if let Some(i) = position(s, k) {
        assert forall|j: int| 0 <= j < t.len() implies #[trigger] t[j] == s[if j < i {
            j
        } else {
            j + 1
        }] by {}
        assert forall|a: int, b: int| 0 <= a < b < t.len() implies (#[trigger] t[a]).0 != (
        #[trigger] t[b]).0 by {}
        if let Some(p) = position(t, k) {
            let q = if p < i { p } else { p + 1 };
            assert(s[q].0 == k);
            assert(s[i].0 == k);
        }
        if other != k {
            if let Some(p) = position(s, other) {
                let q = if p < i { p } else { p - 1 };
                assert(t[q] == s[p]);
                position_known(t, other, q);
            } else if let Some(p) = position(t, other) {
                let q = if p < i { p } else { p + 1 };
                assert(s[q].0 == other);
            }
        }
    }
}

/// An ordered map from keys to values.
pub struct Table<K, V> {
    entries: Vec<(K, V)>,
}

impl<K: View, V: View> View for Table<K, V> {
    type V = Seq<(K::V, V::V)>;

    closed spec fn view(&self) -> Seq<(K::V, V::V)> {
        self.entries@.map_values(|e: (K, V)| (e.0@, e.1@))
    }
}

impl<K: Key, V: View> Table<K, V> {
    /// A table without entries.
    pub fn new() -> (t: Self)
        ensures
            t@ == Seq::<(K::V, V::V)>::empty(),
    {
        let t = Table { entries: Vec::new() };
        proof {
            assert(t@ =~= Seq::empty());
        }
        t
    }

    /// The number of entries.
    pub fn len(&self) -> (n: usize)
        ensures
            n == self@.len(),
    {
        self.entries.len()
    }

    /// The position of the entry for `k`.
    pub fn find(&self, k: &K) -> (r: Option<usize>)
        ensures
            match r {
                Some(i) => position(self@, k@) == Some(i as int) && i < self@.len()
                    && self@[i as int].0 == k@,
                None => position(self@, k@) is None,
            },
    {
        let mut i: usize = 0;
        while i < self.entries.len()
            invariant
                i <= self.entries@.len(),
                position(self@, k@) == position_from(self@, k@, i as int),
            decreases self.entries@.len() - i,
        {
            if self.entries[i].0.same(k) {
                return Some(i);
            }
            i = i + 1;
        }
        None
    }

    /// Whether there is an entry for `k`.
    pub fn contains(&self, k: &K) -> (r: bool)
        ensures
            r == has_key(self@, k@),
    {
        self.find(k).is_some()
    }

    /// The value that belongs to `k`.
    pub fn get(&self, k: &K) -> (r: Option<&V>)
        ensures
            match r {
                Some(v) => lookup(self@, k@) == Some(v@),
                None => lookup(self@, k@) is None,
            },
    {
        match self.find(k) {
            Some(i) => Some(&self.entries[i].1),
            None => None,
        }
    }

    /// The key of the entry at `i`.
    pub fn key_at(&self, i: usize) -> (r: &K)
        requires
            i < self@.len(),
        ensures
            r@ == self@[i as int].0,
    {
        &self.entries[i].0
    }

    /// The value of the entry at `i`.
    pub fn value_at(&self, i: usize) -> (r: &V)
        requires
            i < self@.len(),
        ensures
            r@ == self@[i as int].1,
    {
        &self.entries[i].1
    }

    /// The value of the entry at `i`, for change.
    pub fn value_mut(&mut self, i: usize) -> (r: &mut V)
        requires
            i < old(self)@.len(),
        ensures
            r@ == old(self)@[i as int].1,
            final(self)@ == old(self)@.update(i as int, (old(self)@[i as int].0, final(r)@)),
    {
        &mut self.entries[i].1
    }

    /// Gives `k` the value `v`.
    pub fn insert(&mut self, k: K, v: V)
        ensures
            final(self)@ == put(old(self)@, k@, v@),
    {
        let ghost before = self@;
        match self.find(&k) {
            Some(i) => {
                self.entries[i] = (k, v);
                proof {
                    assert(self@ =~= before.update(i as int, (k@, v@)));
                }
            },
            None => {
                self.entries.push((k, v));
                proof {
                    assert(self@ =~= before.push((k@, v@)));
                }
            },
        }
    }

    /// Enters `k` with the value `v`, unless it is there already.
    pub fn enter(&mut self, k: K, v: V)
        ensures
            final(self)@ == entered(old(self)@, k@, v@),
    {
        if !self.contains(&k) {
            self.push_last(k, v);
        }
    }

    /// Takes out the entry for `k`.
    pub fn remove(&mut self, k: &K) -> (r: Option<V>)
        ensures
            final(self)@ == removed(old(self)@, k@),
            match r {
                Some(v) => lookup(old(self)@, k@) == Some(v@),
                None => lookup(old(self)@, k@) is None,
            },
    {
        let ghost before = self@;
        match self.find(k) {
            Some(i) => {
                let e = self.entries.remove(i);
                proof {
                    assert(self@ =~= before.remove(i as int));
                }
                Some(e.1)
            },
            None => None,
        }
    }

    /// Takes out the first entry.
    pub fn pop_first(&mut self) -> (r: Option<(K, V)>)
        ensures
            match r {
                Some(e) => old(self)@.len() > 0 && old(self)@[0] == (e.0@, e.1@) && final(self)@
                    == old(self)@.skip(1),
                None => old(self)@.len() == 0 && final(self)@ == old(self)@,
            },
    {
        let ghost before = self@;
        if self.entries.len() == 0 {
            return None;
        }
        let e = self.entries.remove(0);
        proof {
            assert(self@ =~= before.skip(1));
        }
        Some(e)
    }

    /// Adds an entry behind all others.
    pub fn push_last(&mut self, k: K, v: V)
        ensures
            final(self)@ == old(self)@.push((k@, v@)),
    {
        let ghost before = self@;
        self.entries.push((k, v));
        proof {
            assert(self@ =~= before.push((k@, v@)));
        }
    }

    /// Takes out all entries.
    pub fn clear(&mut self)
        ensures
            final(self)@ == Seq::<(K::V, V::V)>::empty(),
    {
        self.entries.clear();
        proof {
            assert(self@ =~= Seq::empty());
        }
    }
}

/// A list after `x` has been added, unless it was there already.
pub open spec fn including<T>(s: Seq<T>, x: T) -> Seq<T> {
    if s.contains(x) {
        s
    } else {
        s.push(x)
    }
}

/// A list without `x`.
pub open spec fn excluding<T>(s: Seq<T>, x: T) -> Seq<T>
    decreases s.len(),
{
    if s.len() == 0 {
        Seq::empty()
    } else {
        let rest = excluding(s.drop_last(), x);
        if s.last() == x {
            rest
        } else {
            rest.push(s.last())
        }
    }
}

/// What was excluded is gone, and everything else stays.
pub proof fn excluding_excludes<T>(s: Seq<T>, x: T, y: T)
    ensures
        excluding(s, x).contains(y) == (s.contains(y) && y != x),
        excluding(s, x).len() <= s.len(),
    decreases s.len(),
{
    if s.len() > 0 {
        let rest = s.drop_last();
        excluding_excludes(rest, x, y);
        let e = excluding(rest, x);
        let f = excluding(s, x);
        if s.contains(y) {
            let i = choose|i: int| 0 <= i < s.len() && s[i] == y;
            if i < rest.len() {
                assert(rest[i] == y);
            }
        }
        if rest.contains(y) {
            let i = choose|i: int| 0 <= i < rest.len() && rest[i] == y;
            assert(s[i] == y);
        }
        if s.last() != x {
            assert(f[f.len() - 1] == s.last());
            if e.contains(y) {
                let i = choose|i: int| 0 <= i < e.len() && e[i] == y;
                assert(f[i] == y);
            }
            if f.contains(y) {
                let i = choose|i: int| 0 <= i < f.len() && f[i] == y;
                if i < e.len() {
                    assert(e[i] == y);
                } else {
                    assert(s[s.len() - 1] == y);
                }
            }
            if s.last() == y {
                assert(f[f.len() - 1] == y);
            }
        }
    }
}

/// A set of keys that keeps the order in which they came.
pub struct Group<K> {
    items: Vec<K>,
}

impl<K: View> View for Group<K> {
    type V = Seq<K::V>;

    closed spec fn view(&self) -> Seq<K::V> {
        self.items@.map_values(|k: K| k@)
    }
}

impl<K: Key> Group<K> {
    /// A set without keys.
    pub fn new() -> (g: Self)
        ensures
            g@ == Seq::<K::V>::empty(),
    {
        let g = Group { items: Vec::new() };
        proof {
            assert(g@ =~= Seq::<K::V>::empty());
        }
        g
    }

    /// The number of keys.
    pub fn len(&self) -> (n: usize)
        ensures
            n == self@.len(),
    {
        self.items.len()
    }

    /// The key at `i`.
    pub fn at(&self, i: usize) -> (k: &K)
        requires
            i < self@.len(),
        ensures
            k@ == self@[i as int],
    {
        &self.items[i]
    }

    /// Whether a key is in the set.
    pub fn contains(&self, k: &K) -> (r: bool)
        ensures
            r == self@.contains(k@),
    {
        let mut i: usize = 0;
        while i < self.items.len()
            invariant
                i <= self.items@.len(),
                forall|j: int| 0 <= j < i ==> #[trigger] self@[j] != k@,
            decreases self.items@.len() - i,
        {
            if self.items[i].same(k) {
                assert(self@[i as int] == k@);
                return true;
            }
            assert(self@[i as int] != k@);
            i = i + 1;
        }
        false
    }

    /// Adds a key, unless it is there already.
    pub fn add_key(&mut self, k: K)
        ensures
            final(self)@ == including(old(self)@, k@),
    {
        if !self.contains(&k) {
            let ghost before = self@;
            self.items.push(k);
            proof {
                assert(self@ =~= before.push(k@));
            }
        }
    }

    /// Takes out a key.
    pub fn drop_key(&mut self, k: &K)
        ensures
            final(self)@ == excluding(old(self)@, k@),
    {
        let ghost all = self@;
        let mut kept: Vec<K> = Vec::new();
        let ghost mut i: int = 0;
        proof {
            assert(all.skip(0) =~= all);
            assert(kept@.map_values(|k: K| k@) =~= excluding(all.take(0), k@));
        }
        while self.items.len() > 0
            invariant
                0 <= i <= all.len(),
                self@ == all.skip(i),
                kept@.map_values(|k: K| k@) == excluding(all.take(i), k@),
            decreases self.items@.len(),
        {
            let ghost before = self@;
            assert(before.len() == self.items@.len());
            let ghost done = kept@.map_values(|k: K| k@);
            let ghost raw = self.items@;
            let item = self.items.remove(0);
            proof {
                assert forall|j: int| 0 <= j < self@.len() implies #[trigger] self@[j] == before.skip(
                    1,
                )[j] by {
                    assert(self.items@[j] == raw[j + 1]);
                    assert(before[j + 1] == raw[j + 1]@);
                }
                assert(self@ =~= before.skip(1));
                assert(before.skip(1) =~= all.skip(i + 1));
                assert(all.take(i + 1).drop_last() =~= all.take(i));
                assert(all.take(i + 1).last() == all[i]);
                assert(before[0] == item@);
                assert(self@ =~= all.skip(i + 1));
            }
            if !item.same(k) {
                kept.push(item);
                proof {
                    assert(kept@.map_values(|k: K| k@) =~= done.push(item@));
                }
            }
            proof {
                i = i + 1;
            }
        }
        proof {
            assert(all.take(i) =~= all);
        }
        self.items = kept;
    }

    /// Takes out all keys.
    pub fn clear(&mut self)
        ensures
            final(self)@ == Seq::<K::V>::empty(),
    {
        self.items.clear();
        proof {
            assert(self@ =~= Seq::<K::V>::empty());
        }
    }
}

} // verus!
