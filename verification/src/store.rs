use vstd::prelude::*;

verus! {

/// The contents of an entry list as a map; a later entry for a key overrides
/// an earlier one.
spec fn kv_view(s: Seq<(String, String)>) -> Map<Seq<char>, Seq<char>>
    decreases s.len(),
{
    if s.len() == 0 {
        Map::empty()
    } else {
        kv_view(s.drop_last()).insert(s.last().0@, s.last().1@)
    }
}

spec fn unique_keys(s: Seq<(String, String)>) -> bool {
    forall|i: int, j: int| 0 <= i < j < s.len() ==> (#[trigger] s[i]).0@ != (#[trigger] s[j]).0@
}

proof fn lemma_kv_view_contains(s: Seq<(String, String)>, key: Seq<char>)
    ensures
        kv_view(s).contains_key(key) <==> exists|i: int|
            0 <= i < s.len() && (#[trigger] s[i]).0@ == key,
    decreases s.len(),
{
    if s.len() > 0 {
        lemma_kv_view_contains(s.drop_last(), key);
        if s.last().0@ == key {
            assert(s[s.len() - 1].0@ == key);
        } else {
            if kv_view(s).contains_key(key) {
                let i = choose|i: int| 0 <= i < s.drop_last().len() && (#[trigger] s.drop_last()[i]).0@ == key;
                assert(s[i].0@ == key);
            }
            if exists|i: int| 0 <= i < s.len() && (#[trigger] s[i]).0@ == key {
                let i = choose|i: int| 0 <= i < s.len() && (#[trigger] s[i]).0@ == key;
                assert(s.drop_last()[i].0@ == key);
            }
        }
    }
}

proof fn lemma_kv_view_get(s: Seq<(String, String)>, i: int)
    requires
        unique_keys(s),
        0 <= i < s.len(),
    ensures
        kv_view(s).contains_key(s[i].0@),
        kv_view(s)[s[i].0@] == s[i].1@,
    decreases s.len(),
{
    if i == s.len() - 1 {
    } else {
        assert(s[i].0@ != s.last().0@);
        assert(s.drop_last()[i] == s[i]);
        assert(unique_keys(s.drop_last())) by {
            assert(forall|p: int, q: int|
                0 <= p < q < s.drop_last().len() ==> s.drop_last()[p] == s[p]
                    && s.drop_last()[q] == s[q]);
        }
        lemma_kv_view_get(s.drop_last(), i);
    }
}

proof fn lemma_kv_view_update(s: Seq<(String, String)>, i: int, kk: String, vv: String)
    requires
        unique_keys(s),
        0 <= i < s.len(),
        s[i].0@ == kk@,
    ensures
        kv_view(s.update(i, (kk, vv))) == kv_view(s).insert(kk@, vv@),
    decreases s.len(),
{
    let t = s.update(i, (kk, vv));
    if i == s.len() - 1 {
        assert(t.drop_last() =~= s.drop_last());
        assert(t.last() == (kk, vv));
        assert(kv_view(t) == kv_view(s.drop_last()).insert(kk@, vv@));
        assert(kv_view(s.drop_last()).insert(s.last().0@, s.last().1@).insert(kk@, vv@)
            =~= kv_view(s.drop_last()).insert(kk@, vv@));
    } else {
        assert(s[i].0@ != s.last().0@);
        assert(t.drop_last() =~= s.drop_last().update(i, (kk, vv)));
        assert(t.last() == s.last());
        assert(unique_keys(s.drop_last())) by {
            assert(forall|p: int, q: int|
                0 <= p < q < s.drop_last().len() ==> s.drop_last()[p] == s[p]
                    && s.drop_last()[q] == s[q]);
        }
        assert(s.drop_last()[i] == s[i]);
        lemma_kv_view_update(s.drop_last(), i, kk, vv);
        assert(kv_view(t) == kv_view(s.drop_last()).insert(kk@, vv@).insert(
            s.last().0@,
            s.last().1@,
        ));
        assert(kv_view(s.drop_last()).insert(kk@, vv@).insert(s.last().0@, s.last().1@)
            =~= kv_view(s.drop_last()).insert(s.last().0@, s.last().1@).insert(kk@, vv@));
    }
}

/// One function's durable key-value store: unique keys, replace-on-write, no
/// history, no expiry. Its view is the map from keys to stored text.
pub struct Store {
    entries: Vec<(String, String)>,
}

impl View for Store {
    type V = Map<Seq<char>, Seq<char>>;

    closed spec fn view(&self) -> Map<Seq<char>, Seq<char>> {
        kv_view(self.entries@)
    }
}

impl Store {
    /// Each key appears in at most one entry.
    pub closed spec fn wf(&self) -> bool {
        unique_keys(self.entries@)
    }

    /// A store starts empty.
    pub fn new() -> (r: Store)
        ensures
            r.wf(),
            r@ == Map::<Seq<char>, Seq<char>>::empty(),
    {
        let r = Store { entries: Vec::new() };
        proof {
            assert(r@ =~= Map::<Seq<char>, Seq<char>>::empty());
        }
        r
    }

    /// Point lookup: a never-set key yields `None`, never an error.
    pub fn get(&self, key: &String) -> (r: Option<&String>)
        requires
            self.wf(),
        ensures
            match r {
                Some(v) => self@.contains_key(key@) && v@ == self@[key@],
                None => !self@.contains_key(key@),
            },
    {
        let n = self.entries.len();
        let mut i: usize = 0;
        while i < n
            invariant
                i <= n,
                n == self.entries@.len(),
                self.wf(),
                forall|j: int| 0 <= j < i ==> (#[trigger] self.entries@[j]).0@ != key@,
            decreases n - i,
        {
            if self.entries[i].0 == *key {
                proof {
                    lemma_kv_view_get(self.entries@, i as int);
                }
                return Some(&self.entries[i].1);
            }
            i += 1;
        }
        proof {
            lemma_kv_view_contains(self.entries@, key@);
        }
        None
    }

    /// Upsert: replaces any prior value for the key.
    pub fn set(&mut self, key: &String, value: &String)
        requires
            old(self).wf(),
        ensures
            final(self).wf(),
            final(self)@ == old(self)@.insert(key@, value@),
    {
        let n = self.entries.len();
        let mut i: usize = 0;
        while i < n
            invariant
                i <= n,
                n == self.entries@.len(),
                self.wf(),
                *self == *old(self),
                forall|j: int| 0 <= j < i ==> (#[trigger] self.entries@[j]).0@ != key@,
            decreases n - i,
        {
            if self.entries[i].0 == *key {
                let kk = String::from_str(key.as_str());
                let vv = String::from_str(value.as_str());
                proof {
                    lemma_kv_view_update(self.entries@, i as int, kk, vv);
                    assert(forall|p: int, q: int|
                        0 <= p < q < self.entries@.update(i as int, (kk, vv)).len() ==> (
                        #[trigger] self.entries@.update(i as int, (kk, vv))[p]).0@ != (
                        #[trigger] self.entries@.update(i as int, (kk, vv))[q]).0@);
                }
                self.entries[i] = (kk, vv);
                return;
            }
            i += 1;
        }
        let kk = String::from_str(key.as_str());
        let vv = String::from_str(value.as_str());
        proof {
            let t = self.entries@.push((kk, vv));
            assert(t.drop_last() =~= self.entries@);
            assert(forall|p: int, q: int|
                0 <= p < q < t.len() ==> (#[trigger] t[p]).0@ != (#[trigger] t[q]).0@);
        }
        self.entries.push((kk, vv));
    }
}

} // verus!
