//! An in-memory key space with list, hash and string values, in the manner
//! of a Redis server: the store that chat records are kept in.

use vstd::prelude::*;

use crate::text::views;

verus! {

/// Why a store command failed.
#[derive(Clone, Copy, Debug, PartialEq, Eq, Structural)]
pub enum StoreError {
    /// The key holds a value of another kind.
    WrongType,
    /// There is no value where one was expected.
    Nil,
}

pub type StoreResult<T> = Result<T, StoreError>;

/// The value stored under a key.
pub enum Entry {
    List(Vec<String>),
    Hash(Vec<(String, String)>),
    Text(String),
}

/// A stored value as plain values.
pub enum EntryView {
    List(Seq<Seq<char>>),
    Hash(Map<Seq<char>, Seq<char>>),
    Text(Seq<char>),
}

/// The list under `key`: empty when the key is absent, `None` when the key
/// holds something else.
pub open spec fn list_at(v: Map<Seq<char>, EntryView>, key: Seq<char>) -> Option<Seq<Seq<char>>> {
    match v.get(key) {
        None => Some(seq![]),
        Some(EntryView::List(l)) => Some(l),
        Some(_) => None,
    }
}

/// The hash under `key`: empty when the key is absent, `None` when the key
/// holds something else.
pub open spec fn hash_at(v: Map<Seq<char>, EntryView>, key: Seq<char>) -> Option<
    Map<Seq<char>, Seq<char>>,
> {
    match v.get(key) {
        None => Some(Map::empty()),
        Some(EntryView::Hash(h)) => Some(h),
        Some(_) => None,
    }
}

/// Index of the first pair whose first component is `k`, or -1.
pub open spec fn find_first<V>(s: Seq<(String, V)>, k: Seq<char>) -> int
    decreases s.len(),
{
    if s.len() == 0 {
        -1
    } else if s[0].0@ == k {
        0
    } else {
        let i = find_first(s.drop_first(), k);
        if i < 0 {
            -1
        } else {
            i + 1
        }
    }
}

/// The fields of a hash as a map.
pub open spec fn hash_map(h: Seq<(String, String)>) -> Map<Seq<char>, Seq<char>> {
    Map::new(|f: Seq<char>| find_first(h, f) >= 0, |f: Seq<char>| h[find_first(h, f)].1@)
}

pub open spec fn entry_view(e: Entry) -> EntryView {
    match e {
        Entry::List(v) => EntryView::List(views(v@)),
        Entry::Hash(h) => EntryView::Hash(hash_map(h@)),
        Entry::Text(s) => EntryView::Text(s@),
    }
}

/// The key space as a map from keys to values.
pub open spec fn space_map(s: Seq<(String, Entry)>) -> Map<Seq<char>, EntryView> {
    Map::new(|k: Seq<char>| find_first(s, k) >= 0, |k: Seq<char>| entry_view(s[find_first(s, k)].1))
}

pub open spec fn keys_unique<V>(s: Seq<(String, V)>) -> bool {
    forall|i: int, j: int|
        0 <= i < s.len() && 0 <= j < s.len() && i != j ==> (#[trigger] s[i]).0@ != (#[trigger] s[j]).0@
}

/// Lists are never empty: a list emptied by a removal goes away.
pub open spec fn lists_nonempty(s: Seq<(String, Entry)>) -> bool {
    forall|i: int| 0 <= i < s.len() ==> ((#[trigger] s[i]).1 matches Entry::List(v) ==> v@.len() > 0)
}

proof fn lemma_find_first_range<V>(s: Seq<(String, V)>, k: Seq<char>)
    ensures
        -1 <= find_first(s, k) < s.len(),
        find_first(s, k) >= 0 ==> s[find_first(s, k)].0@ == k,
        find_first(s, k) < 0 ==> forall|i: int| 0 <= i < s.len() ==> (#[trigger] s[i]).0@ != k,
    decreases s.len(),
{
    if s.len() > 0 {
        lemma_find_first_range(s.drop_first(), k);
        if s[0].0@ != k && find_first(s, k) < 0 {
            assert forall|i: int| 0 <= i < s.len() implies (#[trigger] s[i]).0@ != k by {
                if i > 0 {
                    assert(s[i] == s.drop_first()[i - 1]);
                }
            }
        }
    }
}

proof fn lemma_find_first_is<V>(s: Seq<(String, V)>, k: Seq<char>, j: int)
    requires
        0 <= j <= s.len(),
        forall|i: int| 0 <= i < j ==> (#[trigger] s[i]).0@ != k,
        j < s.len() ==> s[j].0@ == k,
    ensures
        find_first(s, k) == (if j < s.len() { j } else { -1 }),
    decreases s.len(),
{
    if s.len() > 0 && j > 0 {
        let t = s.drop_first();
        assert(s[0].0@ != k);
        assert forall|i: int| 0 <= i < j - 1 implies (#[trigger] t[i]).0@ != k by {
            assert(t[i] == s[i + 1]);
        }
        if j < s.len() {
            assert(t[j - 1] == s[j]);
        }
        lemma_find_first_is(t, k, j - 1);
    }
}

/// Replacing a value under its own key moves no key.
proof fn lemma_find_first_update<V>(s: Seq<(String, V)>, i: int, x: (String, V), k: Seq<char>)
    requires
        0 <= i < s.len(),
        x.0@ == s[i].0@,
    ensures
        find_first(s.update(i, x), k) == find_first(s, k),
    decreases s.len(),
{
    assert(s.update(i, x)[0].0@ == s[0].0@);
    if i > 0 {
        assert(s.update(i, x).drop_first() =~= s.drop_first().update(i - 1, x));
        lemma_find_first_update(s.drop_first(), i - 1, x, k);
    } else {
        assert(s.update(i, x).drop_first() =~= s.drop_first());
    }
}

proof fn lemma_find_first_push<V>(s: Seq<(String, V)>, x: (String, V), k: Seq<char>)
    ensures
        find_first(s.push(x), k) == (if find_first(s, k) >= 0 {
            find_first(s, k)
        } else if x.0@ == k {
            s.len() as int
        } else {
            -1
        }),
    decreases s.len(),
{
    if s.len() > 0 {
        assert(s.push(x)[0] == s[0]);
        assert(s.push(x).drop_first() =~= s.drop_first().push(x));
        lemma_find_first_push(s.drop_first(), x, k);
    } else {
        assert(s.push(x)[0] == x);
        assert(s.push(x).drop_first().len() == 0);
        assert(find_first(s.push(x).drop_first(), k) == -1);
        assert(find_first(s, k) == -1);
    }
}

proof fn lemma_find_first_remove<V>(s: Seq<(String, V)>, i: int, k: Seq<char>)
    requires
        0 <= i < s.len(),
        keys_unique(s),
    ensures
        s[i].0@ == k ==> find_first(s.remove(i), k) < 0,
        s[i].0@ != k && find_first(s, k) >= 0 ==> s.remove(i)[find_first(s.remove(i), k)] == s[find_first(s, k)]
            && find_first(s.remove(i), k) >= 0,
        s[i].0@ != k && find_first(s, k) < 0 ==> find_first(s.remove(i), k) < 0,
{
    let t = s.remove(i);
    lemma_find_first_range(s, k);
    lemma_find_first_range(t, k);
    if find_first(t, k) >= 0 {
        let j = find_first(t, k);
        let jj = if j < i { j } else { j + 1 };
        assert(t[j] == s[jj]);
    }
    if s[i].0@ != k && find_first(s, k) >= 0 {
        let f = find_first(s, k);
        let ff = if f < i { f } else { f - 1 };
        assert(t[ff] == s[f]);
        assert forall|q: int| 0 <= q < ff implies (#[trigger] t[q]).0@ != k by {
            let qq = if q < i { q } else { q + 1 };
            assert(t[q] == s[qq]);
        }
        lemma_find_first_is(t, k, ff);
    }
}

/// Looks up a key: the index of its entry, if any.
fn find_index<V>(s: &Vec<(String, V)>, key: &String) -> (r: Option<usize>)
    ensures
        match r {
            Some(i) => i == find_first(s@, key@),
            None => find_first(s@, key@) < 0,
        },
{
    let mut j: usize = 0;
    while j < s.len()
        invariant
            j <= s@.len(),
            forall|q: int| 0 <= q < j ==> (#[trigger] s@[q]).0@ != key@,
        decreases s@.len() - j,
    {
        if s[j].0 == *key {
            proof {
                lemma_find_first_is(s@, key@, j as int);
            }
            return Some(j);
        }
        j = j + 1;
    }
    proof {
        lemma_find_first_is(s@, key@, j as int);
    }
    None
}


proof fn lemma_space_update(s: Seq<(String, Entry)>, i: int, x: (String, Entry))
    requires
        0 <= i < s.len(),
        x.0@ == s[i].0@,
        keys_unique(s),
    ensures
        space_map(s.update(i, x)) == space_map(s).insert(x.0@, entry_view(x.1)),
        keys_unique(s.update(i, x)),
{
    let t = s.update(i, x);
    assert forall|q: int| 0 <= q < i implies (#[trigger] s[q]).0@ != x.0@ by {}
    lemma_find_first_is(s, x.0@, i);
    assert forall|k: Seq<char>| #[trigger] find_first(t, k) == find_first(s, k) by {
        lemma_find_first_update(s, i, x, k);
    }
    assert forall|k: Seq<char>| find_first(s, k) >= 0 && k != x.0@ implies #[trigger] t[find_first(s, k)]
        == s[find_first(s, k)] by {
        lemma_find_first_range(s, k);
    }
    assert forall|k: Seq<char>| find_first(s, k) < 0 implies k != x.0@ by {}
    assert(space_map(t) =~= space_map(s).insert(x.0@, entry_view(x.1)));
    assert forall|a: int, b: int| 0 <= a < t.len() && 0 <= b < t.len() && a != b implies (
    #[trigger] t[a]).0@ != (#[trigger] t[b]).0@ by {
        if a != i {
            assert(t[a] == s[a]);
        }
        if b != i {
            assert(t[b] == s[b]);
        }
    }
}

proof fn lemma_space_push(s: Seq<(String, Entry)>, x: (String, Entry))
    requires
        find_first(s, x.0@) < 0,
        keys_unique(s),
    ensures
        space_map(s.push(x)) == space_map(s).insert(x.0@, entry_view(x.1)),
        keys_unique(s.push(x)),
{
    let t = s.push(x);
    lemma_find_first_range(s, x.0@);
    assert forall|k: Seq<char>| #[trigger] find_first(t, k) == (if find_first(s, k) >= 0 {
        find_first(s, k)
    } else if x.0@ == k {
        s.len() as int
    } else {
        -1
    }) by {
        lemma_find_first_push(s, x, k);
    }
    assert forall|k: Seq<char>| find_first(s, k) >= 0 implies #[trigger] t[find_first(s, k)] == s[find_first(
        s,
        k,
    )] by {
        lemma_find_first_range(s, k);
    }
    assert(space_map(t) =~= space_map(s).insert(x.0@, entry_view(x.1)));
    assert forall|a: int, b: int| 0 <= a < t.len() && 0 <= b < t.len() && a != b implies (
    #[trigger] t[a]).0@ != (#[trigger] t[b]).0@ by {
        if a < s.len() {
            assert(t[a] == s[a]);
        }
        if b < s.len() {
            assert(t[b] == s[b]);
        }
    }
}

proof fn lemma_space_remove(s: Seq<(String, Entry)>, i: int)
    requires
        0 <= i < s.len(),
        keys_unique(s),
    ensures
        space_map(s.remove(i)) == space_map(s).remove(s[i].0@),
        keys_unique(s.remove(i)),
{
    let t = s.remove(i);
    assert forall|k: Seq<char>| #![auto] true implies (s[i].0@ == k ==> find_first(t, k) < 0) && (s[i].0@
        != k && find_first(s, k) >= 0 ==> t[find_first(t, k)] == s[find_first(s, k)] && find_first(t, k)
        >= 0) && (s[i].0@ != k && find_first(s, k) < 0 ==> find_first(t, k) < 0) by {
        lemma_find_first_remove(s, i, k);
    }
    assert(space_map(t) =~= space_map(s).remove(s[i].0@));
    assert forall|a: int, b: int| 0 <= a < t.len() && 0 <= b < t.len() && a != b implies (
    #[trigger] t[a]).0@ != (#[trigger] t[b]).0@ by {
        let aa = if a < i { a } else { a + 1 };
        let bb = if b < i { b } else { b + 1 };
        assert(t[a] == s[aa]);
        assert(t[b] == s[bb]);
    }
}

proof fn lemma_hash_set(h: Seq<(String, String)>, f: String, v: String)
    ensures
        find_first(h, f@) >= 0 ==> hash_map(h.update(find_first(h, f@), (f, v))) == hash_map(h).insert(
            f@,
            v@,
        ),
        find_first(h, f@) < 0 ==> hash_map(h.push((f, v))) == hash_map(h).insert(f@, v@),
{
    lemma_find_first_range(h, f@);
    let i = find_first(h, f@);
    if i >= 0 {
        let t = h.update(i, (f, v));
        assert forall|k: Seq<char>| #[trigger] find_first(t, k) == find_first(h, k) by {
            lemma_find_first_update(h, i, (f, v), k);
        }
        assert forall|k: Seq<char>| find_first(h, k) >= 0 && k != f@ implies #[trigger] t[find_first(h, k)]
            == h[find_first(h, k)] by {
            lemma_find_first_range(h, k);
        }
        assert(hash_map(t) =~= hash_map(h).insert(f@, v@));
    } else {
        let t = h.push((f, v));
        assert forall|k: Seq<char>| #[trigger] find_first(t, k) == (if find_first(h, k) >= 0 {
            find_first(h, k)
        } else if f@ == k {
            h.len() as int
        } else {
            -1
        }) by {
            lemma_find_first_push(h, (f, v), k);
        }
        assert forall|k: Seq<char>| find_first(h, k) >= 0 implies #[trigger] t[find_first(h, k)] == h[find_first(
            h,
            k,
        )] by {
            lemma_find_first_range(h, k);
        }
        assert(hash_map(t) =~= hash_map(h).insert(f@, v@));
    }
}

/// A copy of a list of strings.
fn copy_strings(v: &Vec<String>) -> (r: Vec<String>)
    ensures
        r@ == v@,
{
    let mut r: Vec<String> = Vec::new();
    for i in 0..v.len()
        invariant
            r@ == v@.take(i as int),
    {
        r.push(v[i].clone());
        assert(r@ =~= v@.take(i + 1));
    }
    assert(v@.take(v@.len() as int) =~= v@);
    r
}

/// A copy of the fields of a hash.
fn copy_fields(v: &Vec<(String, String)>) -> (r: Vec<(String, String)>)
    ensures
        r@ == v@,
{
    let mut r: Vec<(String, String)> = Vec::new();
    for i in 0..v.len()
        invariant
            r@ == v@.take(i as int),
    {
        r.push((v[i].0.clone(), v[i].1.clone()));
        assert(r@ =~= v@.take(i + 1));
    }
    assert(v@.take(v@.len() as int) =~= v@);
    r
}

/// The key space.
pub struct Store {
    entries: Vec<(String, Entry)>,
}

impl Store {
    /// The stored values by key.
    pub closed spec fn view(&self) -> Map<Seq<char>, EntryView> {
        space_map(self.entries@)
    }

    pub closed spec fn wf(&self) -> bool {
        keys_unique(self.entries@) && lists_nonempty(self.entries@)
    }

    /// An empty store.
    pub fn new() -> (r: Store)
        ensures
            r.wf(),
            r@ == Map::<Seq<char>, EntryView>::empty(),
    {
        let r = Store { entries: Vec::new() };
        assert(r@ =~= Map::<Seq<char>, EntryView>::empty());
        r
    }

    /// Whether a value is stored under `key`.
    pub fn contains_key(&self, key: &String) -> (r: bool)
        ensures
            r == self@.contains_key(key@),
    {
        find_index(&self.entries, key).is_some()
    }

    /// Removes the value stored under `key`, if any.
    pub fn del(&mut self, key: &String)
        requires
            old(self).wf(),
        ensures
            final(self).wf(),
            final(self)@ == old(self)@.remove(key@),
    {
        match find_index(&self.entries, key) {
            Some(i) => {
                proof {
                    lemma_find_first_range(self.entries@, key@);
                    lemma_space_remove(self.entries@, i as int);
                }
                let ghost before = self.entries@;
                self.entries.remove(i);
                assert forall|q: int| 0 <= q < self.entries@.len() implies ((
                #[trigger] self.entries@[q]).1 matches Entry::List(v) ==> v@.len() > 0) by {
                    let qq = if q < i { q } else { q + 1 };
                    assert(self.entries@[q] == before[qq]);
                }
            },
            None => {
                assert(old(self)@.remove(key@) =~= old(self)@);
            },
        }
    }

    /// Appends `value` to the list under `key`, creating the list if needed.
    pub fn rpush(&mut self, key: &String, value: String) -> (r: StoreResult<()>)
        requires
            old(self).wf(),
        ensures
            final(self).wf(),
            match old(self)@.get(key@) {
                None => r is Ok && final(self)@ == old(self)@.insert(key@, EntryView::List(seq![value@])),
                Some(EntryView::List(l)) => r is Ok && final(self)@ == old(self)@.insert(
                    key@,
                    EntryView::List(l.push(value@)),
                ),
                Some(_) => r == Err::<(), _>(StoreError::WrongType) && final(self)@ == old(self)@,
            },
    {
        self.push_to_list(key, value, false)
    }

    /// Puts `value` in front of the list under `key`, creating the list if
    /// needed.
    pub fn lpush(&mut self, key: &String, value: String) -> (r: StoreResult<()>)
        requires
            old(self).wf(),
        ensures
            final(self).wf(),
            match old(self)@.get(key@) {
                None => r is Ok && final(self)@ == old(self)@.insert(key@, EntryView::List(seq![value@])),
                Some(EntryView::List(l)) => r is Ok && final(self)@ == old(self)@.insert(
                    key@,
                    EntryView::List(seq![value@] + l),
                ),
                Some(_) => r == Err::<(), _>(StoreError::WrongType) && final(self)@ == old(self)@,
            },
    {
        self.push_to_list(key, value, true)
    }

    fn push_to_list(&mut self, key: &String, value: String, front: bool) -> (r: StoreResult<()>)
        requires
            old(self).wf(),
        ensures
            final(self).wf(),
            match old(self)@.get(key@) {
                None => r is Ok && final(self)@ == old(self)@.insert(key@, EntryView::List(seq![value@])),
                Some(EntryView::List(l)) => r is Ok && final(self)@ == old(self)@.insert(
                    key@,
                    EntryView::List(if front { seq![value@] + l } else { l.push(value@) }),
                ),
                Some(_) => r == Err::<(), _>(StoreError::WrongType) && final(self)@ == old(self)@,
            },
    {
        proof {
            lemma_find_first_range(self.entries@, key@);
        }
        match find_index(&self.entries, key) {
            Some(i) => {
                let nl = match &self.entries[i].1 {
                    Entry::List(l) => {
                        let mut nl: Vec<String> = Vec::new();
                        if front {
                            nl.push(value.clone());
                            let rest = copy_strings(l);
                            let mut rest = rest;
                            nl.append(&mut rest);
                        } else {
                            nl = copy_strings(l);
                            nl.push(value);
                        }
                        nl
                    },
                    _ => {
                        return Err(StoreError::WrongType);
                    },
                };
                let ghost before = self.entries@;
                let x = (key.clone(), Entry::List(nl));
                proof {
                    lemma_space_update(before, i as int, x);
                }
                self.entries.set(i, x);
                assert(views(nl@) =~= (if front { seq![value@] + views(
                    match before[i as int].1 { Entry::List(l) => l@, _ => seq![] },
                ) } else { views(match before[i as int].1 { Entry::List(l) => l@, _ => seq![] }).push(value@) }));
                assert forall|q: int| 0 <= q < self.entries@.len() implies ((
                #[trigger] self.entries@[q]).1 matches Entry::List(v) ==> v@.len() > 0) by {
                    if q != i {
                        assert(self.entries@[q] == before[q]);
                    }
                }
                Ok(())
            },
            None => {
                let mut nl: Vec<String> = Vec::new();
                nl.push(value);
                let x = (key.clone(), Entry::List(nl));
                let ghost before = self.entries@;
                proof {
                    lemma_space_push(before, x);
                }
                self.entries.push(x);
                assert(views(nl@) =~= seq![value@]);
                assert forall|q: int| 0 <= q < self.entries@.len() implies ((
                #[trigger] self.entries@[q]).1 matches Entry::List(v) ==> v@.len() > 0) by {
                    if q < before.len() {
                        assert(self.entries@[q] == before[q]);
                    }
                }
                Ok(())
            },
        }
    }

    /// The whole list under `key`; an absent key reads as an empty list.
    pub fn lrange(&self, key: &String) -> (r: StoreResult<Vec<String>>)
        ensures
            match self@.get(key@) {
                None => r matches Ok(v) && v@.len() == 0,
                Some(EntryView::List(l)) => r matches Ok(v) && views(v@) == l,
                Some(_) => r == Err::<Vec<String>, _>(StoreError::WrongType),
            },
    {
        proof {
            lemma_find_first_range(self.entries@, key@);
        }
        match find_index(&self.entries, key) {
            Some(i) => match &self.entries[i].1 {
                Entry::List(l) => {
                    let v = copy_strings(l);
                    Ok(v)
                },
                _ => Err(StoreError::WrongType),
            },
            None => Ok(Vec::new()),
        }
    }

    /// Removes every occurrence of `value` from the list under `key`; a list
    /// left empty goes away.
    pub fn lrem(&mut self, key: &String, value: &String) -> (r: StoreResult<()>)
        requires
            old(self).wf(),
        ensures
            final(self).wf(),
            match old(self)@.get(key@) {
                None => r is Ok && final(self)@ == old(self)@,
                Some(EntryView::List(l)) => r is Ok && final(self)@ == (if l.filter(
                    |x: Seq<char>| x != value@,
                ).len() == 0 {
                    old(self)@.remove(key@)
                } else {
                    old(self)@.insert(key@, EntryView::List(l.filter(|x: Seq<char>| x != value@)))
                }),
                Some(_) => r == Err::<(), _>(StoreError::WrongType) && final(self)@ == old(self)@,
            },
    {
        proof {
            lemma_find_first_range(self.entries@, key@);
        }
        match find_index(&self.entries, key) {
            Some(i) => {
                let nl = match &self.entries[i].1 {
                    Entry::List(l) => {
                        let ghost lv = views(l@);
                        let mut nl: Vec<String> = Vec::new();
                        for j in 0..l.len()
                            invariant
                                lv == views(l@),
                                views(nl@) == lv.take(j as int).filter(|x: Seq<char>| x != value@),
                        {
                            assert(lv.take(j + 1) =~= lv.take(j as int).push(l@[j as int]@));
                            proof {
                                lv.take(j as int).lemma_filter_push(l@[j as int]@, |x: Seq<char>| x != value@);
                            }
                            let ghost before = nl@;
                            if l[j] != *value {
                                nl.push(l[j].clone());
                                assert(views(nl@) =~= views(before).push(l@[j as int]@));
                            }
                        }
                        assert(lv.take(l@.len() as int) =~= lv);
                        nl
                    },
                    _ => {
                        return Err(StoreError::WrongType);
                    },
                };
                let ghost before = self.entries@;
                if nl.len() == 0 {
                    proof {
                        lemma_space_remove(before, i as int);
                    }
                    self.entries.remove(i);
                    assert forall|q: int| 0 <= q < self.entries@.len() implies ((
                    #[trigger] self.entries@[q]).1 matches Entry::List(v) ==> v@.len() > 0) by {
                        let qq = if q < i { q } else { q + 1 };
                        assert(self.entries@[q] == before[qq]);
                    }
                } else {
                    let x = (key.clone(), Entry::List(nl));
                    proof {
                        lemma_space_update(before, i as int, x);
                    }
                    self.entries.set(i, x);
                    assert forall|q: int| 0 <= q < self.entries@.len() implies ((
                    #[trigger] self.entries@[q]).1 matches Entry::List(v) ==> v@.len() > 0) by {
                        if q != i {
                            assert(self.entries@[q] == before[q]);
                        }
                    }
                }
                Ok(())
            },
            None => Ok(()),
        }
    }

    /// Sets `field` of the hash under `key` to `value`, creating the hash if
    /// needed.
    pub fn hset(&mut self, key: &String, field: &String, value: String) -> (r: StoreResult<()>)
        requires
            old(self).wf(),
        ensures
            final(self).wf(),
            match old(self)@.get(key@) {
                None => r is Ok && final(self)@ == old(self)@.insert(
                    key@,
                    EntryView::Hash(Map::empty().insert(field@, value@)),
                ),
                Some(EntryView::Hash(h)) => r is Ok && final(self)@ == old(self)@.insert(
                    key@,
                    EntryView::Hash(h.insert(field@, value@)),
                ),
                Some(_) => r == Err::<(), _>(StoreError::WrongType) && final(self)@ == old(self)@,
            },
    {
        proof {
            lemma_find_first_range(self.entries@, key@);
        }
        let ghost before = self.entries@;
        match find_index(&self.entries, key) {
            Some(i) => {
                let nh = match &self.entries[i].1 {
                    Entry::Hash(h) => {
                        let mut nh = copy_fields(h);
                        proof {
                            lemma_hash_set(nh@, *field, value);
                            lemma_find_first_range(nh@, field@);
                        }
                        match find_index(&nh, field) {
                            Some(j) => {
                                nh.set(j, (field.clone(), value));
                            },
                            None => {
                                nh.push((field.clone(), value));
                            },
                        }
                        nh
                    },
                    _ => {
                        return Err(StoreError::WrongType);
                    },
                };
                let x = (key.clone(), Entry::Hash(nh));
                proof {
                    lemma_space_update(before, i as int, x);
                }
                self.entries.set(i, x);
                assert forall|q: int| 0 <= q < self.entries@.len() implies ((
                #[trigger] self.entries@[q]).1 matches Entry::List(v) ==> v@.len() > 0) by {
                    if q != i {
                        assert(self.entries@[q] == before[q]);
                    }
                }
                Ok(())
            },
            None => {
                let mut nh: Vec<(String, String)> = Vec::new();
                nh.push((field.clone(), value));
                assert(hash_map(nh@) =~= Map::empty().insert(field@, value@)) by {
                    assert(find_first(nh@, field@) == 0);
                    assert forall|k: Seq<char>| k != field@ implies find_first(nh@, k) < 0 by {
                        assert(nh@.drop_first().len() == 0);
                        assert(find_first(nh@.drop_first(), k) == -1);
                    }
                }
                let x = (key.clone(), Entry::Hash(nh));
                proof {
                    lemma_space_push(before, x);
                }
                self.entries.push(x);
                assert forall|q: int| 0 <= q < self.entries@.len() implies ((
                #[trigger] self.entries@[q]).1 matches Entry::List(v) ==> v@.len() > 0) by {
                    if q < before.len() {
                        assert(self.entries@[q] == before[q]);
                    }
                }
                Ok(())
            },
        }
    }

    /// The value of `field` in the hash under `key`, if any.
    pub fn hget(&self, key: &String, field: &String) -> (r: StoreResult<Option<String>>)
        ensures
            match self@.get(key@) {
                None => r == Ok::<Option<String>, StoreError>(None),
                Some(EntryView::Hash(h)) => match r {
                    Ok(Some(v)) => h.contains_key(field@) && h[field@] == v@,
                    Ok(None) => !h.contains_key(field@),
                    Err(_) => false,
                },
                Some(_) => r == Err::<Option<String>, _>(StoreError::WrongType),
            },
    {
        proof {
            lemma_find_first_range(self.entries@, key@);
        }
        match find_index(&self.entries, key) {
            Some(i) => match &self.entries[i].1 {
                Entry::Hash(h) => {
                    proof {
                        lemma_find_first_range(h@, field@);
                    }
                    match find_index(h, field) {
                        Some(j) => Ok(Some(h[j].1.clone())),
                        None => Ok(None),
                    }
                },
                _ => Err(StoreError::WrongType),
            },
            None => Ok(None),
        }
    }

    /// The fields of the hash under `key`; an absent key has none.
    pub fn hkeys(&self, key: &String) -> (r: StoreResult<Vec<String>>)
        ensures
            match self@.get(key@) {
                None => r matches Ok(v) && v@.len() == 0,
                Some(EntryView::Hash(h)) => r matches Ok(v) && forall|f: Seq<char>|
                    #[trigger] h.contains_key(f) <==> views(v@).contains(f),
                Some(_) => r == Err::<Vec<String>, _>(StoreError::WrongType),
            },
    {
        proof {
            lemma_find_first_range(self.entries@, key@);
        }
        match find_index(&self.entries, key) {
            Some(i) => match &self.entries[i].1 {
                Entry::Hash(h) => {
                    let mut v: Vec<String> = Vec::new();
                    for j in 0..h.len()
                        invariant
                            views(v@) == h@.take(j as int).map_values(|p: (String, String)| p.0@),
                    {
                        v.push(h[j].0.clone());
                        assert(h@.take(j + 1).map_values(|p: (String, String)| p.0@) =~= h@.take(
                            j as int,
                        ).map_values(|p: (String, String)| p.0@).push(h@[j as int].0@));
                        assert(views(v@) =~= views(v@.drop_last()).push(v@.last()@));
                    }
                    assert(h@.take(h@.len() as int) =~= h@);
                    let ghost names = h@.map_values(|p: (String, String)| p.0@);
                    assert forall|f: Seq<char>| #[trigger] hash_map(h@).contains_key(f) <==> views(v@).contains(f) by {
                        lemma_find_first_range(h@, f);
                        if views(v@).contains(f) {
                            let q = choose|q: int| 0 <= q < views(v@).len() && views(v@)[q] == f;
                            assert(names[q] == h@[q].0@);
                        }
                        if find_first(h@, f) >= 0 {
                            assert(views(v@)[find_first(h@, f)] == f);
                        }
                    }
                    Ok(v)
                },
                _ => Err(StoreError::WrongType),
            },
            None => Ok(Vec::new()),
        }
    }

    /// Stores `value` under `key`, replacing whatever was there.
    pub fn set(&mut self, key: &String, value: String)
        requires
            old(self).wf(),
        ensures
            final(self).wf(),
            final(self)@ == old(self)@.insert(key@, EntryView::Text(value@)),
    {
        proof {
            lemma_find_first_range(self.entries@, key@);
        }
        let ghost before = self.entries@;
        let x = (key.clone(), Entry::Text(value));
        match find_index(&self.entries, key) {
            Some(i) => {
                proof {
                    lemma_space_update(before, i as int, x);
                }
                self.entries.set(i, x);
                assert forall|q: int| 0 <= q < self.entries@.len() implies ((
                #[trigger] self.entries@[q]).1 matches Entry::List(v) ==> v@.len() > 0) by {
                    if q != i {
                        assert(self.entries@[q] == before[q]);
                    }
                }
            },
            None => {
                proof {
                    lemma_space_push(before, x);
                }
                self.entries.push(x);
                assert forall|q: int| 0 <= q < self.entries@.len() implies ((
                #[trigger] self.entries@[q]).1 matches Entry::List(v) ==> v@.len() > 0) by {
                    if q < before.len() {
                        assert(self.entries@[q] == before[q]);
                    }
                }
            },
        }
    }

    /// The string under `key`, if any.
    pub fn get(&self, key: &String) -> (r: StoreResult<Option<String>>)
        ensures
            match self@.get(key@) {
                None => r == Ok::<Option<String>, StoreError>(None),
                Some(EntryView::Text(t)) => r matches Ok(Some(v)) && v@ == t,
                Some(_) => r == Err::<Option<String>, _>(StoreError::WrongType),
            },
    {
        proof {
            lemma_find_first_range(self.entries@, key@);
        }
        match find_index(&self.entries, key) {
            Some(i) => match &self.entries[i].1 {
                Entry::Text(t) => Ok(Some(t.clone())),
                _ => Err(StoreError::WrongType),
            },
            None => Ok(None),
        }
    }
}

} // verus!
