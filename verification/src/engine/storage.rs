//! Game objects stored in lists, one list per kind of object.
use std::collections::hash_map::Entry;
use std::collections::HashMap;
use std::hash::Hash;
use vstd::prelude::*;
use vstd::std_specs::hash::obeys_key_model;

verus! {

broadcast use vstd::std_specs::hash::group_hash_axioms;

/// The elements of `s` whose verdict in `keep` is `true`, in order.
pub open spec fn kept<V>(s: Seq<V>, keep: Seq<bool>) -> Seq<V>
    decreases s.len(),
{
    if s.len() == 0 || keep.len() == 0 {
        Seq::empty()
    } else {
        let rest = kept(s.drop_last(), keep.drop_last());
        if keep.last() {
            rest.push(s.last())
        } else {
            rest
        }
    }
}

/// `keep` holds, for each element of `s`, a verdict that `f` may give on it.
pub open spec fn judged<V, F: Fn(&V) -> bool>(f: F, s: Seq<V>, keep: Seq<bool>) -> bool {
    &&& keep.len() == s.len()
    &&& forall|i: int| 0 <= i < s.len() ==> call_ensures(f, (&s[i],), #[trigger] keep[i])
}

/// `f` can be called on every element of `s`.
pub open spec fn callable_on<V, F: Fn(&V) -> bool>(f: F, s: Seq<V>) -> bool {
    forall|i: int| 0 <= i < s.len() ==> call_requires(f, (&#[trigger] s[i],))
}

/// The elements of `s` on which `f` answers `true`, in order, together with
/// the verdicts.
fn keep_where<V, F: Fn(&V) -> bool>(s: Vec<V>, f: &F) -> (r: (Vec<V>, Ghost<Seq<bool>>))
    requires
        callable_on(*f, s@),
    ensures
        judged(*f, s@, r.1@),
        r.0@ == kept(s@, r.1@),
{
    let ghost q = s@;
    let n = s.len();
    let mut source = s;
    let mut stack: Vec<V> = Vec::new();
    while source.len() > 0
        invariant
            n == q.len(),
            source@.len() <= n,
            source@ == q.take(source@.len() as int),
            stack@.len() == n - source@.len(),
            forall|j: int| 0 <= j < stack@.len() ==> #[trigger] stack@[j] == q[n - 1 - j],
        decreases source@.len(),
    {
        let ghost len = source@.len();
        let x = source.pop().unwrap();
        assert(x == q[len - 1]);
        stack.push(x);
        assert(source@ =~= q.take(source@.len() as int));
    }
    let mut out: Vec<V> = Vec::new();
    let ghost mut keep: Seq<bool> = Seq::empty();
    let mut k: usize = 0;
    assert(q.take(0) =~= Seq::<V>::empty());
    while k < n
        invariant
            n == q.len(),
            0 <= k <= n,
            callable_on(*f, q),
            stack@.len() == n - k,
            forall|j: int| 0 <= j < stack@.len() ==> #[trigger] stack@[j] == q[n - 1 - j],
            judged(*f, q.take(k as int), keep),
            out@ == kept(q.take(k as int), keep),
        decreases n - k,
    {
        let x = stack.pop().unwrap();
        assert(x == q[k as int]);
        assert(call_requires(*f, (&q[k as int],)));
        let b = f(&x);
        let ghost t1 = q.take(k as int + 1);
        let ghost keep1 = keep.push(b);
        assert(t1.drop_last() =~= q.take(k as int));
        assert(keep1.drop_last() =~= keep);
        if b {
            out.push(x);
        }
        proof {
            assert forall|i: int| 0 <= i < t1.len() implies call_ensures(
                *f,
                (&t1[i],),
                #[trigger] keep1[i],
            ) by {
                if i < k {
                    assert(t1[i] == q.take(k as int)[i]);
                    assert(keep1[i] == keep[i]);
                }
            }
            keep = keep1;
        }
        k = k + 1;
    }
    assert(q.take(n as int) =~= q);
    (out, Ghost(keep))
}

/// `f` gives at most one verdict on each value.
pub open spec fn deterministic<V, F: Fn(&V) -> bool>(f: F) -> bool {
    forall|x: V, b1: bool, b2: bool|
        #![trigger call_ensures(f, (&x,), b1), call_ensures(f, (&x,), b2)]
        call_ensures(f, (&x,), b1) && call_ensures(f, (&x,), b2) ==> b1 == b2
}

proof fn lemma_kept_were_accepted<V, F: Fn(&V) -> bool>(f: F, s: Seq<V>, keep: Seq<bool>)
    requires
        judged(f, s, keep),
    ensures
        forall|j: int|
            0 <= j < kept(s, keep).len() ==> call_ensures(f, (&#[trigger] kept(s, keep)[j],), true),
    decreases s.len(),
{
    if s.len() > 0 {
        let s0 = s.drop_last();
        let k0 = keep.drop_last();
        assert forall|i: int| 0 <= i < s0.len() implies call_ensures(f, (&s0[i],), #[trigger] k0[i]) by {
            assert(s0[i] == s[i]);
            assert(k0[i] == keep[i]);
        }
        lemma_kept_were_accepted(f, s0, k0);
        let rest = kept(s0, k0);
        assert(call_ensures(f, (&s[s.len() - 1],), keep[s.len() - 1]));
        assert forall|j: int| 0 <= j < kept(s, keep).len() implies call_ensures(
            f,
            (&#[trigger] kept(s, keep)[j],),
            true,
        ) by {
            if j < rest.len() {
                assert(kept(s, keep)[j] == rest[j]);
            } else {
                assert(keep.last());
                assert(kept(s, keep)[j] == s.last());
            }
        }
    }
}

proof fn lemma_kept_all<V>(s: Seq<V>, keep: Seq<bool>)
    requires
        keep.len() == s.len(),
        forall|i: int| 0 <= i < keep.len() ==> #[trigger] keep[i],
    ensures
        kept(s, keep) == s,
    decreases s.len(),
{
    if s.len() > 0 {
        lemma_kept_all(s.drop_last(), keep.drop_last());
        assert(keep[keep.len() - 1]);
        assert(s.drop_last().push(s.last()) =~= s);
    }
}

/// Keeping, by the same predicate, what a predicate that answers the same on
/// the same value kept changes nothing: retaining twice is retaining once.
pub proof fn lemma_retain_twice<V, F: Fn(&V) -> bool>(
    f: F,
    s: Seq<V>,
    keep1: Seq<bool>,
    keep2: Seq<bool>,
)
    requires
        deterministic(f),
        judged(f, s, keep1),
        judged(f, kept(s, keep1), keep2),
    ensures
        kept(kept(s, keep1), keep2) == kept(s, keep1),
{
    let t = kept(s, keep1);
    lemma_kept_were_accepted(f, s, keep1);
    assert forall|i: int| 0 <= i < keep2.len() implies #[trigger] keep2[i] by {
        assert(call_ensures(f, (&t[i],), true));
        assert(call_ensures(f, (&t[i],), keep2[i]));
    }
    lemma_kept_all(t, keep2);
}

/// How many verdicts in `keep` are `true`.
pub open spec fn count_kept(keep: Seq<bool>) -> nat
    decreases keep.len(),
{
    if keep.len() == 0 {
        0
    } else {
        count_kept(keep.drop_last()) + if keep.last() {
            1nat
        } else {
            0nat
        }
    }
}

proof fn lemma_count_kept_prefix(keep: Seq<bool>, i: int)
    requires
        0 <= i < keep.len(),
        keep[i],
    ensures
        count_kept(keep.take(i)) < count_kept(keep),
    decreases keep.len(),
{
    if i == keep.len() - 1 {
        assert(keep.drop_last() =~= keep.take(i));
    } else {
        lemma_count_kept_prefix(keep.drop_last(), i);
        assert(keep.drop_last().take(i) =~= keep.take(i));
    }
}

/// Mutable borrows of the elements of `list` on which `f` answers `true`, in
/// order, with the verdicts.  What is written through a borrow ends up in the
/// list; the other elements stay as they are.
fn select_mut<'a, V, F: Fn(&V) -> bool>(list: &'a mut Vec<V>, f: &F) -> (r: (
    Vec<&'a mut V>,
    Ghost<Seq<bool>>,
))
    requires
        callable_on(*f, old(list)@),
    ensures
        judged(*f, old(list)@, r.1@),
        r.0@.len() == count_kept(r.1@),
        final(list)@.len() == old(list)@.len(),
        forall|i: int|
            0 <= i < old(list)@.len() && #[trigger] r.1@[i] ==> *r.0@[count_kept(r.1@.take(i)) as int]
                == old(list)@[i] && final(list)@[i] == *final(r.0@[count_kept(r.1@.take(i)) as int]),
        forall|i: int|
            0 <= i < old(list)@.len() && !#[trigger] r.1@[i] ==> final(list)@[i] == old(list)@[i],
{
    let ghost v0 = list@;
    let ghost fv = final(list)@;
    let n = list.len();
    let mut rest: &mut [V] = list.as_mut_slice();
    let mut out: Vec<&mut V> = Vec::new();
    let ghost mut keep: Seq<bool> = Seq::empty();
    assert(v0.take(0) =~= Seq::<V>::empty());
    while rest.len() > 0
        invariant
            keep.len() + rest@.len() == n,
            n == v0.len(),
            callable_on(*f, v0),
            judged(*f, v0.take(keep.len() as int), keep),
            out@.len() == count_kept(keep),
            forall|i: int|
                0 <= i < keep.len() && #[trigger] keep[i] ==> *out@[count_kept(keep.take(i)) as int]
                    == v0[i] && fv[i] == *final(out@[count_kept(keep.take(i)) as int]),
            forall|i: int| 0 <= i < keep.len() && !#[trigger] keep[i] ==> fv[i] == v0[i],
            forall|i: int| 0 <= i < rest@.len() ==> rest@[i] == v0[keep.len() + i],
            fv.len() == keep.len() + final(rest)@.len(),
            forall|i: int|
                0 <= i < final(rest)@.len() ==> fv[keep.len() + i] == final(rest)@[i],
        decreases rest@.len(),
    {
        let ghost fr = final(rest)@;
        let ghost old_out = out@;
        let ghost k: int = keep.len() as int;
        let (head, tail) = rest.split_at_mut(1);
        let ghost fh = final(head)@;
        let ghost ft = final(tail)@;
        assert(fr == fh + ft);
        let h = head.first_mut().unwrap();
        let ghost cur = *h;
        let ghost fhv = *final(h);
        assert(fh.len() == 1);
        assert(fh[0] == fhv);
        assert(cur == v0[k]);
        assert(call_requires(*f, (&v0[k],)));
        let b = f(h);
        let ghost keep1 = keep.push(b);
        assert(keep1.drop_last() =~= keep);
        assert forall|i: int| 0 <= i <= k implies #[trigger] keep1.take(i) == keep.take(i) by {
            assert(keep1.take(i) =~= keep.take(i));
        }
        assert(keep.take(k) =~= keep);
        if b {
            out.push(h);
            assert(*final(out@[old_out.len() as int]) == fhv);
        } else {
            assert(fhv == cur);
        }
        proof {
            let t1 = v0.take(k + 1);
            assert(t1.drop_last() =~= v0.take(k));
            assert forall|i: int| 0 <= i < t1.len() implies call_ensures(
                *f,
                (&t1[i],),
                #[trigger] keep1[i],
            ) by {
                if i < k {
                    assert(t1[i] == v0.take(k)[i]);
                    assert(keep1[i] == keep[i]);
                }
            }
            assert forall|i: int|
                0 <= i < keep1.len() && #[trigger] keep1[i] implies *out@[count_kept(
                keep1.take(i),
            ) as int] == v0[i] && fv[i] == *final(out@[count_kept(keep1.take(i)) as int]) by {
                if i < k {
                    assert(keep1[i] == keep[i]);
                    lemma_count_kept_prefix(keep, i);
                    assert(out@[count_kept(keep.take(i)) as int] == old_out[count_kept(
                        keep.take(i),
                    ) as int]);
                } else {
                    assert(fr[0] == fhv);
                }
            }
            assert forall|i: int| 0 <= i < keep1.len() && !#[trigger] keep1[i] implies fv[i]
                == v0[i] by {
                if i < k {
                    assert(keep1[i] == keep[i]);
                } else {
                    assert(fr[0] == fhv);
                }
            }
            assert forall|i: int| 0 <= i < ft.len() implies fv[keep1.len() + i] == ft[i] by {
                assert(fr[1 + i] == ft[i]);
            }
            keep = keep1;
        }
        rest = tail;
    }
    assert(v0.take(n as int) =~= v0);
    (out, Ghost(keep))
}

/// Objects of any kind, kept in one list per kind; the kind of an object is
/// given by a key.
pub struct GameStorage<K, V> {
    pub resources: HashMap<K, Vec<V>>,
}

impl<K, V> View for GameStorage<K, V> {
    type V = Map<K, Seq<V>>;

    open spec fn view(&self) -> Map<K, Seq<V>> {
        self.resources@.map_values(|v: Vec<V>| v@)
    }
}

impl<K: Eq + Hash, V> GameStorage<K, V> {
    /// An empty storage.
    pub fn new() -> (s: Self)
        ensures
            s@ == Map::<K, Seq<V>>::empty(),
    {
        let s = GameStorage { resources: HashMap::new() };
        assert(s@ =~= Map::<K, Seq<V>>::empty());
        s
    }

    /// Appends `value` to the list of kind `key`, starting that list if it is
    /// the first object of its kind.
    pub fn add(&mut self, key: K, value: V)
        requires
            obeys_key_model::<K>(),
        ensures
            final(self)@ == old(self)@.insert(
                key,
                if old(self)@.contains_key(key) {
                    old(self)@[key].push(value)
                } else {
                    seq![value]
                },
            ),
    {
        let ghost old_view = self@;
        match self.resources.remove(&key) {
            Some(mut list) => {
                list.push(value);
                self.resources.insert(key, list);
            },
            None => {
                let mut list: Vec<V> = Vec::new();
                list.push(value);
                self.resources.insert(key, list);
            },
        }
        assert(self@ =~= old_view.insert(
            key,
            if old_view.contains_key(key) {
                old_view[key].push(value)
            } else {
                seq![value]
            },
        ));
    }

    /// Keeps, in the list of kind `key`, the objects on which `f` answers
    /// `true`, in their order; fails when there is no list of that kind.
    pub fn retain<F: Fn(&V) -> bool>(&mut self, key: K, f: F) -> (r: Result<(), ()>)
        requires
            obeys_key_model::<K>(),
            old(self)@.contains_key(key) ==> callable_on(f, old(self)@[key]),
        ensures
            match r {
                Ok(()) => old(self)@.contains_key(key) && exists|keep: Seq<bool>|
                    judged(f, old(self)@[key], keep) && final(self)@ == old(self)@.insert(
                        key,
                        #[trigger] kept(old(self)@[key], keep),
                    ),
                Err(()) => !old(self)@.contains_key(key) && final(self)@ == old(self)@,
            },
    {
        let ghost old_view = self@;
        match self.resources.remove(&key) {
            Some(list) => {
                let (filtered, Ghost(keep)) = keep_where(list, &f);
                self.resources.insert(key, filtered);
                assert(self@ =~= old_view.insert(key, kept(old_view[key], keep)));
                Ok(())
            },
            None => {
                assert(self@ =~= old_view);
                Err(())
            },
        }
    }

    /// The objects of kind `key` on which `f` answers `true`, in order, or
    /// `None` when there is no list of that kind.
    pub fn select_by_typeid<F: Fn(&V) -> bool>(&mut self, key: &K, f: F) -> (r: Option<Vec<&V>>)
        requires
            obeys_key_model::<K>(),
            old(self)@.contains_key(*key) ==> callable_on(f, old(self)@[*key]),
        ensures
            final(self)@ == old(self)@,
            match r {
                Some(v) => old(self)@.contains_key(*key) && exists|keep: Seq<bool>|
                    judged(f, old(self)@[*key], keep) && v@.unref() == #[trigger] kept(
                        old(self)@[*key],
                        keep,
                    ),
                None => !old(self)@.contains_key(*key),
            },
    {
        let list = match self.resources.get(key) {
            Some(l) => l,
            None => {
                return None;
            },
        };
        let ghost q = list@;
        let mut out: Vec<&V> = Vec::new();
        let ghost mut keep: Seq<bool> = Seq::empty();
        let mut k: usize = 0;
        assert(q.take(0) =~= Seq::<V>::empty());
        assert(out@.unref() =~= Seq::<V>::empty());
        while k < list.len()
            invariant
                q == list@,
                0 <= k <= q.len(),
                callable_on(f, q),
                judged(f, q.take(k as int), keep),
                out@.unref() == kept(q.take(k as int), keep),
            decreases q.len() - k,
        {
            let x = &list[k];
            assert(call_requires(f, (&q[k as int],)));
            let b = f(x);
            let ghost t1 = q.take(k as int + 1);
            let ghost keep1 = keep.push(b);
            let ghost before = out@;
            assert(t1.drop_last() =~= q.take(k as int));
            assert(keep1.drop_last() =~= keep);
            if b {
                out.push(x);
                assert(out@.unref() =~= before.unref().push(*x));
            }
            proof {
                assert forall|i: int| 0 <= i < t1.len() implies call_ensures(
                    f,
                    (&t1[i],),
                    #[trigger] keep1[i],
                ) by {
                    if i < k {
                        assert(t1[i] == q.take(k as int)[i]);
                        assert(keep1[i] == keep[i]);
                    }
                }
                keep = keep1;
            }
            k = k + 1;
        }
        assert(q.take(k as int) =~= q);
        Some(out)
    }

    /// Mutable borrows of the objects of kind `*key` on which `f` answers
    /// `true`, in order, or `None` when there is no list of that kind.  What
    /// is written through a borrow ends up at that object's place in the
    /// list; nothing else changes.
    pub fn select_by_typeid_mut<'a, F: Fn(&V) -> bool>(&'a mut self, key: &K, f: F) -> (r: Option<
        Vec<&'a mut V>,
    >) where K: Copy
        requires
            obeys_key_model::<K>(),
            old(self)@.contains_key(*key) ==> callable_on(f, old(self)@[*key]),
        ensures
            match r {
                None => !old(self)@.contains_key(*key) && final(self)@ == old(self)@,
                Some(v) => {
                    &&& old(self)@.contains_key(*key)
                    &&& final(self)@.dom() == old(self)@.dom()
                    &&& forall|k: K| k != *key ==> #[trigger] final(self)@.get(k) == old(self)@.get(k)
                    &&& final(self)@[*key].len() == old(self)@[*key].len()
                    &&& exists|keep: Seq<bool>|
                        {
                            &&& judged(f, old(self)@[*key], keep)
                            &&& v@.len() == count_kept(keep)
                            &&& forall|i: int|
                                0 <= i < keep.len() && #[trigger] keep[i] ==> *v@[count_kept(
                                    keep.take(i),
                                ) as int] == old(self)@[*key][i] && final(self)@[*key][i]
                                    == *final(v@[count_kept(keep.take(i)) as int])
                            &&& forall|i: int|
                                0 <= i < keep.len() && !#[trigger] keep[i] ==> final(self)@[*key][i]
                                    == old(self)@[*key][i]
                        }
                },
            },
    {
        let ghost old_view = self@;
        match self.resources.entry(*key) {
            Entry::Occupied(o) => {
                let list = o.into_mut();
                let (v, Ghost(keep)) = select_mut(list, &f);
                Some(v)
            },
            Entry::Vacant(_) => None,
        }
    }
}

} // verus!
