//! A map from window handles, kept in the order of the handles.

use vstd::prelude::*;

verus! {

/// The keys go up from one entry to the next.
pub open spec fn ascending<V>(entries: Seq<(isize, V)>) -> bool {
    forall|i: int, j: int|
        0 <= i < j < entries.len() ==> (#[trigger] entries[i]).0 < (#[trigger] entries[j]).0
}

/// `keys` are the members of `set`, each once, going up.
pub open spec fn lists(keys: Seq<isize>, set: Set<isize>) -> bool {
    &&& forall|i: int, j: int| 0 <= i < j < keys.len() ==> keys[i] < keys[j]
    &&& forall|k: isize| set.contains(k) <==> #[trigger] keys.contains(k)
}

/// The members of a finite set, each once, going up.
pub open spec fn listing(set: Set<isize>) -> Seq<isize> {
    choose|keys: Seq<isize>| lists(keys, set)
}

pub open spec fn has_key<V>(entries: Seq<(isize, V)>, k: isize) -> bool {
    exists|i: int| 0 <= i < entries.len() && (#[trigger] entries[i]).0 == k
}

pub closed spec fn as_map<V>(entries: Seq<(isize, V)>) -> Map<isize, V> {
    Map::new(
        |k: isize| has_key(entries, k),
        |k: isize| entries[choose|i: int| 0 <= i < entries.len() && (#[trigger] entries[i]).0 == k].1,
    )
}

proof fn lemma_at<V>(entries: Seq<(isize, V)>, i: int)
    requires
        ascending(entries),
        0 <= i < entries.len(),
    ensures
        as_map(entries).contains_key(entries[i].0),
        as_map(entries)[entries[i].0] == entries[i].1,
{
    let k = entries[i].0;
    assert(has_key(entries, k));
    let j = choose|j: int| 0 <= j < entries.len() && (#[trigger] entries[j]).0 == k;
    if i < j {
        assert(entries[i].0 < entries[j].0);
    } else if j < i {
        assert(entries[j].0 < entries[i].0);
    }
}

pub struct Table<V> {
    pub entries: Vec<(isize, V)>,
}

impl<V> View for Table<V> {
    type V = Map<isize, V>;

    open spec fn view(&self) -> Map<isize, V> {
        as_map(self.entries@)
    }
}

impl<V> Table<V> {
    pub open spec fn ok(self) -> bool {
        ascending(self.entries@)
    }

    pub fn new() -> (r: Self)
        ensures
            r.ok(),
            r@ == Map::<isize, V>::empty(),
    {
        let r = Table { entries: Vec::new() };
        assert(r@ =~= Map::empty());
        r
    }

    /// The place of the first entry whose key is not below `k`.
    fn place(&self, k: isize) -> (r: usize)
        requires
            self.ok(),
        ensures
            r <= self.entries@.len(),
            forall|i: int| 0 <= i < r ==> (#[trigger] self.entries@[i]).0 < k,
            forall|i: int| r <= i < self.entries@.len() ==> (#[trigger] self.entries@[i]).0 >= k,
    {
        let mut i: usize = 0;
        while i < self.entries.len() && self.entries[i].0 < k
            invariant
                i <= self.entries@.len(),
                forall|j: int| 0 <= j < i ==> (#[trigger] self.entries@[j]).0 < k,
            decreases self.entries.len() - i,
        {
            i += 1;
        }
        assert forall|j: int| i <= j < self.entries@.len() implies (#[trigger] self.entries@[j]).0
            >= k by {
            if i < j {
                assert(self.entries@[i as int].0 < self.entries@[j].0);
            }
        }
        i
    }

    pub fn get(&self, k: isize) -> (r: Option<&V>)
        requires
            self.ok(),
        ensures
            match r {
                Some(v) => self@.contains_key(k) && *v == self@[k],
                None => !self@.contains_key(k),
            },
    {
        let i: usize = self.place(k);
        if i < self.entries.len() && self.entries[i].0 == k {
            proof {
                lemma_at(self.entries@, i as int);
            }
            Some(&self.entries[i].1)
        } else {
            None
        }
    }

    pub fn contains_key(&self, k: isize) -> (r: bool)
        requires
            self.ok(),
        ensures
            r == self@.contains_key(k),
    {
        self.get(k).is_some()
    }

    pub fn remove(&mut self, k: isize) -> (r: Option<V>)
        requires
            old(self).ok(),
        ensures
            final(self).ok(),
            final(self)@ == old(self)@.remove(k),
            match r {
                Some(v) => old(self)@.contains_key(k) && v == old(self)@[k],
                None => !old(self)@.contains_key(k),
            },
    {
        let i: usize = self.place(k);
        let ghost was = self.entries@;
        if i < self.entries.len() && self.entries[i].0 == k {
            let (_, v) = self.entries.remove(i);
            proof {
                lemma_at(was, i as int);
                let now = self.entries@;
                assert forall|a: int, b: int| 0 <= a < b < now.len() implies (#[trigger] now[a]).0
                    < (#[trigger] now[b]).0 by {
                    let x = if a < i { a } else { a + 1 };
                    let y = if b < i { b } else { b + 1 };
                    assert(now[a] == was[x] && now[b] == was[y]);
                }
                assert forall|q: isize| #[trigger] as_map(now).contains_key(q) <==> as_map(
                    was,
                ).remove(k).contains_key(q) by {
                    if has_key(now, q) {
                        let a = choose|a: int| 0 <= a < now.len() && (#[trigger] now[a]).0 == q;
                        let x = if a < i { a } else { a + 1 };
                        assert(now[a] == was[x]);
                        assert(was[x].0 != was[i as int].0);
                    }
                    if has_key(was, q) && q != k {
                        let x = choose|x: int| 0 <= x < was.len() && (#[trigger] was[x]).0 == q;
                        let a = if x < i { x } else { x - 1 };
                        assert(now[a] == was[x]);
                    }
                }
                assert forall|q: isize| #[trigger] as_map(now).contains_key(q) implies as_map(
                    now,
                )[q] == as_map(was)[q] by {
                    let a = choose|a: int| 0 <= a < now.len() && (#[trigger] now[a]).0 == q;
                    let x = if a < i { a } else { a + 1 };
                    assert(now[a] == was[x]);
                    lemma_at(was, x);
                    lemma_at(now, a);
                }
                assert(as_map(now) =~= as_map(was).remove(k));
            }
            Some(v)
        } else {
            assert(as_map(was).remove(k) =~= as_map(was));
            None
        }
    }

    pub fn insert(&mut self, k: isize, v: V)
        requires
            old(self).ok(),
        ensures
            final(self).ok(),
            final(self)@ == old(self)@.insert(k, v),
    {
        let _ = self.remove(k);
        let ghost was = self.entries@;
        let i: usize = self.place(k);
        self.entries.insert(i, (k, v));
        proof {
            let now = self.entries@;
            assert forall|a: int| 0 <= a < was.len() implies (#[trigger] was[a]).0 != k by {
                if was[a].0 == k {
                    assert(has_key(was, k));
                    assert(as_map(was).contains_key(k));
                }
            }
            assert forall|a: int, b: int| 0 <= a < b < now.len() implies (#[trigger] now[a]).0 < (
            #[trigger] now[b]).0 by {
                if a != i && b != i {
                    let x = if a < i { a } else { a - 1 };
                    let y = if b < i { b } else { b - 1 };
                    assert(now[a] == was[x] && now[b] == was[y]);
                } else if a == i {
                    assert(now[b] == was[b - 1]);
                } else {
                    assert(now[a] == was[a]);
                }
            }
            lemma_at(now, i as int);
            assert forall|q: isize| #[trigger] as_map(now).contains_key(q) <==> as_map(was).insert(
                k,
                v,
            ).contains_key(q) by {
                if has_key(now, q) && q != k {
                    let a = choose|a: int| 0 <= a < now.len() && (#[trigger] now[a]).0 == q;
                    let x = if a < i { a } else { a - 1 };
                    assert(now[a] == was[x]);
                }
                if has_key(was, q) {
                    let x = choose|x: int| 0 <= x < was.len() && (#[trigger] was[x]).0 == q;
                    let a = if x < i { x } else { x + 1 };
                    assert(now[a] == was[x]);
                }
            }
            assert forall|q: isize| #[trigger] as_map(now).contains_key(q) implies as_map(now)[q]
                == as_map(was).insert(k, v)[q] by {
                if q != k {
                    let a = choose|a: int| 0 <= a < now.len() && (#[trigger] now[a]).0 == q;
                    let x = if a < i { a } else { a - 1 };
                    assert(now[a] == was[x]);
                    lemma_at(was, x);
                    lemma_at(now, a);
                }
            }
            assert(as_map(now) =~= as_map(was).insert(k, v));
            assert(as_map(was).insert(k, v) =~= old(self)@.insert(k, v));
        }
    }

    /// The keys that are not in `keep`, going up.
    pub fn keys_outside(&self, keep: &Vec<isize>) -> (r: Vec<isize>)
        requires
            self.ok(),
        ensures
            lists(r@, self@.dom().difference(keep@.to_set())),
    {
        let all: Vec<isize> = self.keys();
        let mut r: Vec<isize> = Vec::new();
        let mut i: usize = 0;
        while i < all.len()
            invariant
                i <= all@.len(),
                lists(all@, self@.dom()),
                forall|a: int, b: int| 0 <= a < b < r@.len() ==> r@[a] < r@[b],
                forall|a: int| 0 <= a < r@.len() && i < all@.len() ==> r@[a] < all@[i as int],
                forall|k: isize| #[trigger]
                    r@.contains(k) <==> all@.take(i as int).contains(k) && !keep@.contains(k),
            decreases all.len() - i,
        {
            let k: isize = all[i];
            let ghost was = r@;
            if !holds(keep, k) {
                r.push(k);
            }
            proof {
                let next = all@.take(i + 1);
                assert(next =~= all@.take(i as int).push(k));
                assert forall|q: isize| #[trigger] r@.contains(q) <==> next.contains(q)
                    && !keep@.contains(q) by {
                    if r@.contains(q) {
                        let a = choose|a: int| 0 <= a < r@.len() && r@[a] == q;
                        if a < was.len() {
                            assert(was[a] == q);
                            assert(was.contains(q));
                            let b = choose|b: int|
                                0 <= b < i && all@.take(i as int)[b] == q;
                            assert(next[b] == q);
                        } else {
                            assert(next[i as int] == q);
                        }
                    }
                    if next.contains(q) && !keep@.contains(q) {
                        let b = choose|b: int| 0 <= b < i + 1 && next[b] == q;
                        if b < i {
                            assert(all@.take(i as int)[b] == q);
                            assert(was.contains(q));
                            let a = choose|a: int| 0 <= a < was.len() && was[a] == q;
                            assert(r@[a] == q);
                        } else {
                            assert(r@[r@.len() - 1] == q);
                        }
                    }
                }
                assert forall|a: int| 0 <= a < r@.len() && i + 1 < all@.len() implies r@[a] < all@[i
                    + 1] by {
                    assert(all@[i as int] < all@[i + 1]);
                }
            }
            i += 1;
        }
        assert(all@.take(i as int) =~= all@);
        r
    }

    /// Drops every key that is not in `keep`.
    pub fn retain(&mut self, keep: &Vec<isize>)
        requires
            old(self).ok(),
        ensures
            final(self).ok(),
            final(self)@ == old(self)@.restrict(keep@.to_set()),
    {
        let gone: Vec<isize> = self.keys_outside(keep);
        let ghost start = self@;
        let mut i: usize = 0;
        assert(self@ =~= start.remove_keys(gone@.take(0).to_set()));
        while i < gone.len()
            invariant
                i <= gone@.len(),
                self.ok(),
                self@ == start.remove_keys(gone@.take(i as int).to_set()),
            decreases gone.len() - i,
        {
            let _ = self.remove(gone[i]);
            proof {
                let a = gone@.take(i as int);
                let b = gone@.take(i + 1);
                assert(b =~= a.push(gone@[i as int]));
                assert forall|k: isize| b.to_set().contains(k) <==> a.to_set().insert(
                    gone@[i as int],
                ).contains(k) by {
                    if a.contains(k) {
                        let x = choose|x: int| 0 <= x < a.len() && a[x] == k;
                        assert(b[x] == k);
                    }
                    if k == gone@[i as int] {
                        assert(b[i as int] == k);
                    }
                    if b.contains(k) {
                        let x = choose|x: int| 0 <= x < b.len() && b[x] == k;
                        if x < i {
                            assert(a[x] == k);
                        }
                    }
                }
                assert(b.to_set() =~= a.to_set().insert(gone@[i as int]));
                assert(self@ =~= start.remove_keys(b.to_set()));
            }
            i += 1;
        }
        assert(gone@.take(i as int) =~= gone@);
        assert(start.remove_keys(gone@.to_set()) =~= start.restrict(keep@.to_set())) by {
            assert forall|k: isize| start.contains_key(k) implies (gone@.to_set().contains(k)
                <==> !keep@.to_set().contains(k)) by {
                assert(gone@.contains(k) <==> start.dom().difference(keep@.to_set()).contains(k));
            }
        }
    }

    /// The keys, going up.
    pub fn keys(&self) -> (r: Vec<isize>)
        requires
            self.ok(),
        ensures
            lists(r@, self@.dom()),
            r@.len() == self.entries@.len(),
            forall|i: int| 0 <= i < r@.len() ==> #[trigger] r@[i] == self.entries@[i].0,
    {
        let mut r: Vec<isize> = Vec::new();
        let mut i: usize = 0;
        while i < self.entries.len()
            invariant
                i <= self.entries@.len(),
                r@.len() == i,
                forall|j: int| 0 <= j < i ==> #[trigger] r@[j] == self.entries@[j].0,
            decreases self.entries.len() - i,
        {
            r.push(self.entries[i].0);
            i += 1;
        }
        assert forall|k: isize| self@.dom().contains(k) <==> #[trigger] r@.contains(k) by {
            if has_key(self.entries@, k) {
                let j = choose|j: int|
                    0 <= j < self.entries@.len() && (#[trigger] self.entries@[j]).0 == k;
                assert(r@[j] == k);
            }
            if r@.contains(k) {
                let j = choose|j: int| 0 <= j < r@.len() && r@[j] == k;
                assert(self.entries@[j].0 == k);
            }
        }
        assert forall|a: int, b: int| 0 <= a < b < r@.len() implies r@[a] < r@[b] by {
            assert(self.entries@[a].0 < self.entries@[b].0);
        }
        r
    }
}

/// Whether `k` is one of `keys`.
pub fn holds(keys: &Vec<isize>, k: isize) -> (r: bool)
    ensures
        r == keys@.contains(k),
{
    let mut i: usize = 0;
    while i < keys.len()
        invariant
            i <= keys@.len(),
            forall|j: int| 0 <= j < i ==> keys@[j] != k,
        decreases keys.len() - i,
    {
        if keys[i] == k {
            assert(keys@[i as int] == k);
            return true;
        }
        i += 1;
    }
    false
}

/// A key of an entry belongs to the map with the entry's value.
pub proof fn lemma_entry<V>(t: Table<V>, i: int)
    requires
        t.ok(),
        0 <= i < t.entries@.len(),
    ensures
        t@.contains_key(t.entries@[i].0),
        t@[t.entries@[i].0] == t.entries@[i].1,
{
    lemma_at(t.entries@, i);
}

/// A key of the map belongs to an entry.
pub proof fn lemma_key<V>(t: Table<V>, k: isize) -> (i: int)
    requires
        t@.contains_key(k),
    ensures
        0 <= i < t.entries@.len(),
        t.entries@[i].0 == k,
{
    choose|i: int| 0 <= i < t.entries@.len() && (#[trigger] t.entries@[i]).0 == k
}

/// The keys of a table, without some, can be listed.
pub proof fn lemma_listable<V>(t: Table<V>, gone: Set<isize>)
    requires
        t.ok(),
    ensures
        lists(listing(t@.dom().difference(gone)), t@.dom().difference(gone)),
{
    let set = t@.dom().difference(gone);
    let keys = t.entries@.map_values(|e: (isize, V)| e.0).filter(|k: isize| !gone.contains(k));
    lemma_filtered(t.entries@, gone);
    assert forall|k: isize| set.contains(k) <==> #[trigger] keys.contains(k) by {
        if set.contains(k) {
            let i = lemma_key(t, k);
        }
        if keys.contains(k) {
            let i = choose|i: int| 0 <= i < t.entries@.len() && (#[trigger] t.entries@[i]).0 == k;
            lemma_entry(t, i);
        }
    }
    assert(lists(keys, set));
    lemma_listing(keys, set);
}

proof fn lemma_filtered<V>(entries: Seq<(isize, V)>, gone: Set<isize>)
    requires
        ascending(entries),
    ensures
        ({
            let keys = entries.map_values(|e: (isize, V)| e.0).filter(
                |k: isize| !gone.contains(k),
            );
            &&& forall|i: int, j: int| 0 <= i < j < keys.len() ==> keys[i] < keys[j]
            &&& forall|k: isize| #[trigger]
                keys.contains(k) <==> has_key(entries, k) && !gone.contains(k)
        }),
    decreases entries.len(),
{
    reveal(Seq::filter);
    let pick = |k: isize| !gone.contains(k);
    let all = entries.map_values(|e: (isize, V)| e.0);
    let keys = all.filter(pick);
    if entries.len() > 0 {
        let rest = entries.drop_last();
        let last = entries.last().0;
        assert forall|i: int, j: int| 0 <= i < j < rest.len() implies (#[trigger] rest[i]).0 < (
        #[trigger] rest[j]).0 by {
            assert(rest[i] == entries[i] && rest[j] == entries[j]);
        }
        lemma_filtered(rest, gone);
        let few = rest.map_values(|e: (isize, V)| e.0).filter(pick);
        assert(all.drop_last() =~= rest.map_values(|e: (isize, V)| e.0));
        assert(all.last() == last);
        assert(keys =~= if pick(last) {
            few.push(last)
        } else {
            few
        });
        assert forall|k: isize| #[trigger] keys.contains(k) <==> has_key(entries, k)
            && !gone.contains(k) by {
            if keys.contains(k) {
                let i = choose|i: int| 0 <= i < keys.len() && keys[i] == k;
                if i < few.len() {
                    assert(few[i] == k);
                    assert(few.contains(k));
                    let x = choose|x: int| 0 <= x < rest.len() && (#[trigger] rest[x]).0 == k;
                    assert(entries[x].0 == k);
                } else {
                    assert(entries[entries.len() - 1].0 == k);
                }
            }
            if has_key(entries, k) && !gone.contains(k) {
                let x = choose|x: int| 0 <= x < entries.len() && (#[trigger] entries[x]).0 == k;
                if x < rest.len() {
                    assert(rest[x].0 == k);
                    assert(few.contains(k));
                    let i = choose|i: int| 0 <= i < few.len() && few[i] == k;
                    assert(keys[i] == k);
                } else {
                    assert(keys[keys.len() - 1] == k);
                }
            }
        }
        assert forall|i: int, j: int| 0 <= i < j < keys.len() implies keys[i] < keys[j] by {
            if j == few.len() {
                assert(few[i] == keys[i]);
                assert(few.contains(keys[i]));
                let x = choose|x: int|
                    0 <= x < rest.len() && (#[trigger] rest[x]).0 == keys[i];
                assert(entries[x].0 < entries[entries.len() - 1].0);
            }
        }
    }
}

/// Whatever lists a set is its listing.
pub proof fn lemma_listing(keys: Seq<isize>, set: Set<isize>)
    requires
        lists(keys, set),
    ensures
        keys == listing(set),
{
    lemma_one_listing(keys, listing(set), set);
}

/// There is one way to list a set.
pub proof fn lemma_one_listing(a: Seq<isize>, b: Seq<isize>, set: Set<isize>)
    requires
        lists(a, set),
        lists(b, set),
    ensures
        a == b,
    decreases a.len(),
{
    if a.len() == 0 {
        if b.len() > 0 {
            assert(b.contains(b[0]));
            assert(a.contains(b[0]));
        }
        assert(a =~= b);
    } else {
        assert(a.contains(a[0]));
        assert(b.contains(a[0]));
        assert(b.contains(b[0]));
        assert(a.contains(b[0]));
        let m = a.len() - 1;
        let n = b.len() - 1;
        assert(b.contains(a[m])) by {
            assert(a.contains(a[m]));
        }
        assert(a.contains(b[n])) by {
            assert(b.contains(b[n]));
        }
        let i = choose|i: int| 0 <= i < b.len() && b[i] == a[m];
        let j = choose|j: int| 0 <= j < a.len() && a[j] == b[n];
        assert(a[m] == b[n]) by {
            if i < n {
                assert(b[i] < b[n]);
            }
            if j < m {
                assert(a[j] < a[m]);
            }
        }
        let fa = a.drop_last();
        let fb = b.drop_last();
        let rest = set.remove(a[m]);
        assert forall|k: isize| rest.contains(k) <==> #[trigger] fa.contains(k) by {
            if rest.contains(k) {
                assert(a.contains(k));
                let x = choose|x: int| 0 <= x < a.len() && a[x] == k;
                assert(fa[x] == k);
            }
            if fa.contains(k) {
                let x = choose|x: int| 0 <= x < fa.len() && fa[x] == k;
                assert(a[x] == k && a[x] < a[m]);
                assert(a.contains(k));
            }
        }
        assert forall|k: isize| rest.contains(k) <==> #[trigger] fb.contains(k) by {
            if rest.contains(k) {
                assert(b.contains(k));
                let x = choose|x: int| 0 <= x < b.len() && b[x] == k;
                assert(fb[x] == k);
            }
            if fb.contains(k) {
                let x = choose|x: int| 0 <= x < fb.len() && fb[x] == k;
                assert(b[x] == k && b[x] < b[n]);
                assert(b.contains(k));
            }
        }
        lemma_one_listing(fa, fb, rest);
        assert(a =~= fa.push(a[m]));
        assert(b =~= fb.push(b[n]));
    }
}

/// A listing goes up, has each member once, and no other.
pub proof fn a_listing_goes_up(keys: Seq<isize>, set: Set<isize>, k: isize)
    requires
        lists(keys, set),
    ensures
        forall|i: int, j: int| 0 <= i < j < keys.len() ==> keys[i] < keys[j],
        keys.contains(k) <==> set.contains(k),
        listing(set) == keys,
{
    lemma_listing(keys, set);
}

/// A key has the value of its entry, and there is no key without an entry.
pub proof fn a_table_holds_its_entries<V>(t: Table<V>, i: int, k: isize)
    requires
        forall|a: int, b: int|
            0 <= a < b < t.entries@.len() ==> (#[trigger] t.entries@[a]).0 < (
            #[trigger] t.entries@[b]).0,
    ensures
        t.ok(),
        0 <= i < t.entries@.len() ==> t@.contains_key(t.entries@[i].0) && t@[t.entries@[i].0]
            == t.entries@[i].1,
        t@.contains_key(k) ==> exists|j: int|
            0 <= j < t.entries@.len() && (#[trigger] t.entries@[j]).0 == k,
{
    if 0 <= i < t.entries@.len() {
        lemma_entry(t, i);
    }
    if t@.contains_key(k) {
        let j = lemma_key(t, k);
        assert(t.entries@[j].0 == k);
    }
}

} // verus!
