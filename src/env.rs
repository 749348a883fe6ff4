use std::rc::Rc;
use vstd::prelude::*;
use crate::types::{Form, MalValue};

verus! {

/// The binding of `k` in a frame's entries; a later entry wins over an earlier one.
pub open spec fn find_local(d: Seq<(String, MalValue)>, k: Seq<char>) -> Option<Form>
    decreases d.len(),
{
    if d.len() == 0 {
        None
    } else if d.last().0@ == k {
        Some(d.last().1@)
    } else {
        find_local(d.drop_last(), k)
    }
}

/// The bindings of a frame.
pub open spec fn frame_map(d: Seq<(String, MalValue)>) -> Map<Seq<char>, Form> {
    Map::new(|k: Seq<char>| find_local(d, k) is Some, |k: Seq<char>| find_local(d, k)->Some_0)
}

/// The value bound to `k` in the nearest frame of `e` that binds it, searched from the first.
pub open spec fn env_lookup(e: Seq<Map<Seq<char>, Form>>, k: Seq<char>) -> Option<Form>
    decreases e.len(),
{
    if e.len() == 0 {
        None
    } else if e[0].contains_key(k) {
        Some(e[0][k])
    } else {
        env_lookup(e.drop_first(), k)
    }
}

/// `e` with `k` bound to `v` in its first frame.
pub open spec fn env_set(e: Seq<Map<Seq<char>, Form>>, k: Seq<char>, v: Form) -> Seq<
    Map<Seq<char>, Form>,
> {
    if e.len() == 0 {
        e
    } else {
        e.update(0, e[0].insert(k, v))
    }
}

/// One frame of a chain of lexical scopes: its own bindings and the frame that encloses it.
pub struct MalEnv {
    data: Vec<(String, MalValue)>,
    outer: Option<Rc<MalEnv>>,
}

proof fn lemma_find_local_replace(d: Seq<(String, MalValue)>, i: int, k: String, v: MalValue, q: Seq<char>)
    requires
        0 <= i < d.len(),
        d[i].0@ == k@,
        forall|j: int| i < j < d.len() ==> (#[trigger] d[j]).0@ != k@,
    ensures
        find_local(d.update(i, (k, v)), q) == (if q == k@ { Some(v@) } else { find_local(d, q) }),
    decreases d.len(),
{
    let u = d.update(i, (k, v));
    if i == d.len() - 1 {
        assert(u.drop_last() =~= d.drop_last());
    } else {
        assert(u.drop_last() =~= d.drop_last().update(i, (k, v)));
        lemma_find_local_replace(d.drop_last(), i, k, v, q);
    }
}

proof fn lemma_find_local_absent(d: Seq<(String, MalValue)>, k: Seq<char>)
    requires
        forall|j: int| 0 <= j < d.len() ==> (#[trigger] d[j]).0@ != k,
    ensures
        find_local(d, k) is None,
    decreases d.len(),
{
    if d.len() > 0 {
        lemma_find_local_absent(d.drop_last(), k);
    }
}

impl MalEnv {
    /// The frames of the chain, this one first.
    pub closed spec fn view(&self) -> Seq<Map<Seq<char>, Form>>
        decreases self,
    {
        let rest = match &self.outer {
            Some(o) => o.view(),
            None => Seq::empty(),
        };
        seq![frame_map(self.data@)] + rest
    }

    /// A new frame with no bindings, enclosed by `outer` if given; several frames may share
    /// one enclosing frame.
    pub fn new(outer: Option<Rc<MalEnv>>) -> (r: MalEnv)
        ensures
            r@ == seq![Map::<Seq<char>, Form>::empty()] + (match outer {
                Some(o) => (*o)@,
                None => Seq::empty(),
            }),
    {
        let r = MalEnv {
            data: Vec::new(),
            outer,
        };
        assert(frame_map(r.data@) =~= Map::empty());
        r
    }

    /// The frame that encloses this one.
    pub fn outer(&self) -> (r: Option<&MalEnv>)
        ensures
            match r {
                Some(o) => o@ == self@.drop_first(),
                None => self@.len() == 1,
            },
    {
        match &self.outer {
            Some(o) => {
                assert(self@.drop_first() =~= o@);
                Some(&**o)
            },
            None => None,
        }
    }

    /// The nearest frame, this one first, that binds `key`.
    pub fn find(&self, key: &str) -> (r: Option<&MalEnv>)
        ensures
            match r {
                Some(e) => e@[0].contains_key(key@) && env_lookup(self@, key@) == Some(e@[0][key@]),
                None => env_lookup(self@, key@) is None,
            },
        decreases self,
    {
        if self.local(key).is_some() {
            return Some(self);
        }
        assert(!self@[0].contains_key(key@));
        match &self.outer {
            Some(o) => {
                assert(self@.drop_first() =~= o@);
                assert(self@.len() > 0);
                assert(env_lookup(self@, key@) == env_lookup(o@, key@));
                o.find(key)
            },
            None => {
                assert(self@.drop_first() =~= Seq::<Map<Seq<char>, Form>>::empty());
                assert(self@.len() > 0);
                assert(env_lookup(self@, key@) == env_lookup(self@.drop_first(), key@));
                None
            },
        }
    }

    /// The index of the last entry of this frame bound to `key`.
    fn position(&self, key: &String) -> (r: Option<usize>)
        ensures
            match r {
                Some(i) => i < self.data@.len() && self.data@[i as int].0@ == key@ && forall|j: int|
                    i < j < self.data@.len() ==> (#[trigger] self.data@[j]).0@ != key@,
                None => forall|j: int|
                    0 <= j < self.data@.len() ==> (#[trigger] self.data@[j]).0@ != key@,
            },
    {
        let mut i = self.data.len();
        while i > 0
            invariant
                i <= self.data@.len(),
                forall|j: int| i <= j < self.data@.len() ==> (#[trigger] self.data@[j]).0@ != key@,
            decreases i,
        {
            if self.data[i - 1].0 == *key {
                return Some(i - 1);
            }
            i = i - 1;
        }
        None
    }

    /// The value bound to `key` in this frame alone.
    fn local(&self, key: &str) -> (r: Option<&MalValue>)
        ensures
            match r {
                Some(v) => find_local(self.data@, key@) == Some(v@),
                None => find_local(self.data@, key@) is None,
            },
    {
        let k = key.to_string();
        match self.position(&k) {
            Some(i) => {
                proof {
                    let d = self.data@;
                    lemma_find_local_replace(d, i as int, d[i as int].0, d[i as int].1, k@);
                    assert(d.update(i as int, (d[i as int].0, d[i as int].1)) =~= d);
                }
                Some(&self.data[i].1)
            },
            None => {
                proof {
                    lemma_find_local_absent(self.data@, k@);
                }
                None
            },
        }
    }

    /// Binds `key` to `value` in this frame, leaving the enclosing frames as they are.
    pub fn set(&mut self, key: &str, value: MalValue)
        ensures
            final(self)@ == env_set(old(self)@, key@, value@),
    {
        let k = key.to_string();
        let ghost v = value@;
        let ghost d = self.data@;
        match self.position(&k) {
            Some(i) => {
                proof {
                    assert forall|q: Seq<char>| true implies find_local(d.update(i as int, (k, value)), q)
                        == (if q == k@ { Some(v) } else { find_local(d, q) }) by {
                        lemma_find_local_replace(d, i as int, k, value, q);
                    }
                }
                self.data.set(i, (k, value));
            },
            None => {
                self.data.push((k, value));
                assert(self.data@.drop_last() =~= d);
            },
        }
        assert(frame_map(self.data@) =~= frame_map(d).insert(key@, v));
        assert(self@ =~= env_set(old(self)@, key@, value@));
    }

    /// The value bound to `key` in the nearest frame that binds it.
    pub fn get(&self, key: &str) -> (r: Option<MalValue>)
        ensures
            match r {
                Some(v) => env_lookup(self@, key@) == Some(v@),
                None => env_lookup(self@, key@) is None,
            },
        decreases self,
    {
        if let Some(v) = self.local(key) {
            return Some(v.duplicate());
        }
        assert(self@.len() > 0);
        assert(env_lookup(self@, key@) == env_lookup(self@.drop_first(), key@));
        match &self.outer {
            Some(o) => {
                assert(self@.drop_first() =~= o@);
                o.get(key)
            },
            None => {
                assert(self@.drop_first() =~= Seq::<Map<Seq<char>, Form>>::empty());
                None
            },
        }
    }
}

} // verus!
