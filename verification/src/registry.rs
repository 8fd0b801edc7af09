use vstd::prelude::*;

use crate::errors::ServiceError;
use crate::name::valid_name;
use crate::name::name_is_valid;
use crate::store::Store;

verus! {

/// What the registry keeps per function: the current source text and the
/// function's own durable store. Re-submission replaces the source and keeps
/// the store.
pub struct FunctionRecord {
    pub source: String,
    pub store: Store,
}

/// The first record registered under `name`, scanning from the front; the
/// registry keeps names unique, so it is also the only one.
spec fn find_rec(s: Seq<(String, FunctionRecord)>, name: Seq<char>) -> Option<FunctionRecord>
    decreases s.len(),
{
    if s.len() == 0 {
        None
    } else if s[0].0@ == name {
        Some(s[0].1)
    } else {
        find_rec(s.drop_first(), name)
    }
}

spec fn unique_names(s: Seq<(String, FunctionRecord)>) -> bool {
    forall|i: int, j: int| 0 <= i < j < s.len() ==> (#[trigger] s[i]).0@ != (#[trigger] s[j]).0@
}

proof fn lemma_find_skip_step(s: Seq<(String, FunctionRecord)>, i: int, name: Seq<char>)
    requires
        0 <= i < s.len(),
        s[i].0@ != name,
    ensures
        find_rec(s.skip(i), name) == find_rec(s.skip(i + 1), name),
{
    assert(s.skip(i).drop_first() =~= s.skip(i + 1));
    assert(s.skip(i)[0] == s[i]);
}

proof fn lemma_find_update(s: Seq<(String, FunctionRecord)>, i: int, e: (String, FunctionRecord), n: Seq<char>)
    requires
        unique_names(s),
        0 <= i < s.len(),
        e.0@ == s[i].0@,
    ensures
        find_rec(s.update(i, e), n) == if n == e.0@ {
            Some(e.1)
        } else {
            find_rec(s, n)
        },
    decreases s.len(),
{
    let t = s.update(i, e);
    if i == 0 {
        if n != e.0@ {
            assert(t.drop_first() =~= s.drop_first());
        }
    } else {
        assert(t[0] == s[0]);
        assert(s[0].0@ != s[i].0@);
        assert(t.drop_first() =~= s.drop_first().update(i - 1, e));
        assert(unique_names(s.drop_first())) by {
            assert(forall|p: int|
                0 <= p < s.drop_first().len() ==> s.drop_first()[p] == s[p + 1]);
        }
        assert(s.drop_first()[i - 1] == s[i]);
        lemma_find_update(s.drop_first(), i - 1, e, n);
    }
}

proof fn lemma_find_push(s: Seq<(String, FunctionRecord)>, e: (String, FunctionRecord), n: Seq<char>)
    requires
        find_rec(s, n) is None || n != e.0@,
    ensures
        find_rec(s.push(e), n) == if find_rec(s, n) is Some {
            find_rec(s, n)
        } else if n == e.0@ {
            Some(e.1)
        } else {
            None
        },
    decreases s.len(),
{
    let t = s.push(e);
    if s.len() == 0 {
        assert(t[0] == e);
        assert(t.drop_first() =~= Seq::<(String, FunctionRecord)>::empty());
    } else {
        assert(t[0] == s[0]);
        assert(t.drop_first() =~= s.drop_first().push(e));
        if s[0].0@ == n {
            assert(find_rec(s, n) == Some(s[0].1));
            assert(find_rec(t, n) == Some(t[0].1));
        } else {
            lemma_find_push(s.drop_first(), e, n);
            assert(find_rec(t, n) == find_rec(t.drop_first(), n));
            assert(find_rec(s, n) == find_rec(s.drop_first(), n));
        }
    }
}

proof fn lemma_find_none(s: Seq<(String, FunctionRecord)>, n: Seq<char>)
    requires
        find_rec(s, n) is None,
    ensures
        forall|i: int| 0 <= i < s.len() ==> (#[trigger] s[i]).0@ != n,
    decreases s.len(),
{
    if s.len() > 0 {
        lemma_find_none(s.drop_first(), n);
        assert(forall|i: int| 1 <= i < s.len() ==> s[i] == s.drop_first()[i - 1]);
    }
}

/// The shared mapping from function name to record. One exclusive lock in the
/// running service guards the whole mapping; the core models the mapping
/// itself, and every operation is one bounded critical section.
pub struct Registry {
    entries: Vec<(String, FunctionRecord)>,
}

impl Registry {
    /// Names are unique and every record's store is well formed.
    pub closed spec fn wf(&self) -> bool {
        &&& unique_names(self.entries@)
        &&& forall|i: int|
            0 <= i < self.entries@.len() ==> (#[trigger] self.entries@[i]).1.store.wf()
    }

    /// Whether a function of this name has been submitted.
    pub closed spec fn contains_fn(&self, name: Seq<char>) -> bool {
        find_rec(self.entries@, name) is Some
    }

    /// The source text currently registered under `name`.
    pub closed spec fn source_of(&self, name: Seq<char>) -> Seq<char> {
        match find_rec(self.entries@, name) {
            Some(r) => r.source@,
            None => Seq::empty(),
        }
    }

    /// The contents of the store belonging to `name`.
    pub closed spec fn kv_of(&self, name: Seq<char>) -> Map<Seq<char>, Seq<char>> {
        match find_rec(self.entries@, name) {
            Some(r) => r.store@,
            None => Map::empty(),
        }
    }

    /// An empty registry: no function is known.
    pub fn new() -> (r: Registry)
        ensures
            r.wf(),
            forall|n: Seq<char>| !r.contains_fn(n),
    {
        Registry { entries: Vec::new() }
    }

    /// Position of `name` among the entries, if present.
    fn scan(&self, name: &String) -> (r: Option<usize>)
        ensures
            match r {
                Some(i) => i < self.entries@.len() && self.entries@[i as int].0@ == name@
                    && find_rec(self.entries@, name@) == Some(self.entries@[i as int].1),
                None => !self.contains_fn(name@),
            },
    {
        let n = self.entries.len();
        let mut i: usize = 0;
        proof {
            assert(self.entries@.skip(0) =~= self.entries@);
        }
        while i < n
            invariant
                i <= n,
                n == self.entries@.len(),
                find_rec(self.entries@, name@) == find_rec(self.entries@.skip(i as int), name@),
            decreases n - i,
        {
            if self.entries[i].0 == *name {
                proof {
                    assert(self.entries@.skip(i as int)[0] == self.entries@[i as int]);
                }
                return Some(i);
            }
            proof {
                lemma_find_skip_step(self.entries@, i as int, name@);
            }
            i += 1;
        }
        proof {
            assert(self.entries@.skip(n as int) =~= Seq::<(String, FunctionRecord)>::empty());
        }
        None
    }

    /// Submission: validates the name, then stores or replaces the source
    /// under it. A rejected name leaves the registry, and every store, exactly
    /// as it was. A new function starts with an empty store; a re-submitted
    /// one keeps every key/value pair it had.
    pub fn submit(&mut self, name: &String, source: &String) -> (r: Result<(), ServiceError>)
        requires
            old(self).wf(),
        ensures
            final(self).wf(),
            !valid_name(name@) ==> r == Err::<(), ServiceError>(ServiceError::InvalidFunctionName)
                && *final(self) == *old(self),
            valid_name(name@) ==> r == Ok::<(), ServiceError>(()) && {
                &&& final(self).contains_fn(name@)
                &&& final(self).source_of(name@) == source@
                &&& final(self).kv_of(name@) == if old(self).contains_fn(name@) {
                    old(self).kv_of(name@)
                } else {
                    Map::<Seq<char>, Seq<char>>::empty()
                }
                &&& forall|n: Seq<char>|
                    n != name@ ==> final(self).contains_fn(n) == old(self).contains_fn(n)
                        && final(self).source_of(n) == old(self).source_of(n)
                        && final(self).kv_of(n) == old(self).kv_of(n)
            },
    {
        if !name_is_valid(name.as_str()) {
            return Err(ServiceError::InvalidFunctionName);
        }
        match self.scan(name) {
            Some(i) => {
                let ghost s0 = self.entries@;
                let mut e = self.entries.remove(i);
                e.1.source = String::from_str(source.as_str());
                let ghost ge = e;
                self.entries.insert(i, e);
                proof {
                    assert(self.entries@ =~= s0.update(i as int, ge));
                    assert forall|n: Seq<char>|
                        find_rec(self.entries@, n) == if n == name@ {
                            Some(ge.1)
                        } else {
                            find_rec(s0, n)
                        } by {
                        lemma_find_update(s0, i as int, ge, n);
                    }
                    assert(forall|j: int|
                        0 <= j < self.entries@.len() ==> (#[trigger] self.entries@[j])
                            == if j == i as int {
                            ge
                        } else {
                            s0[j]
                        });
                }
                Ok(())
            },
            None => {
                let ghost s0 = self.entries@;
                let e = (
                    String::from_str(name.as_str()),
                    FunctionRecord { source: String::from_str(source.as_str()), store: Store::new() },
                );
                let ghost ge = e;
                self.entries.push(e);
                proof {
                    lemma_find_none(s0, name@);
                    assert(self.entries@ == s0.push(ge));
                    assert forall|n: Seq<char>|
                        find_rec(self.entries@, n) == if find_rec(s0, n) is Some {
                            find_rec(s0, n)
                        } else if n == ge.0@ {
                            Some(ge.1)
                        } else {
                            None
                        } by {
                        lemma_find_push(s0, ge, n);
                    }
                    assert(forall|j: int|
                        0 <= j < self.entries@.len() ==> (#[trigger] self.entries@[j])
                            == if j == s0.len() {
                            ge
                        } else {
                            s0[j]
                        });
                    assert(ge.1.store@ =~= Map::<Seq<char>, Seq<char>>::empty());
                }
                Ok(())
            },
        }
    }

    /// Lookup for execution: a cheap copy of the current source, or
    /// `UnknownFunction`, and never any change to the registry.
    pub fn lookup(&self, name: &String) -> (r: Result<String, ServiceError>)
        ensures
            match r {
                Ok(src) => self.contains_fn(name@) && src@ == self.source_of(name@),
                Err(e) => e == ServiceError::UnknownFunction && !self.contains_fn(name@),
            },
    {
        match self.scan(name) {
            Some(i) => Ok(String::from_str(self.entries[i].1.source.as_str())),
            None => Err(ServiceError::UnknownFunction),
        }
    }

    /// Write one key of one function's store: replace-on-write, touching no
    /// other key, no other function, and no source text.
    pub fn kv_set(&mut self, name: &String, key: &String, value: &String) -> (r: Result<
        (),
        ServiceError,
    >)
        requires
            old(self).wf(),
        ensures
            final(self).wf(),
            match r {
                Ok(_) => old(self).contains_fn(name@) && {
                    &&& final(self).contains_fn(name@)
                    &&& final(self).kv_of(name@) == old(self).kv_of(name@).insert(key@, value@)
                    &&& final(self).source_of(name@) == old(self).source_of(name@)
                    &&& forall|n: Seq<char>|
                        n != name@ ==> final(self).contains_fn(n) == old(self).contains_fn(n)
                            && final(self).source_of(n) == old(self).source_of(n)
                            && final(self).kv_of(n) == old(self).kv_of(n)
                },
                Err(e) => e == ServiceError::UnknownFunction && !old(self).contains_fn(name@)
                    && *final(self) == *old(self),
            },
    {
        match self.scan(name) {
            Some(i) => {
                let ghost s0 = self.entries@;
                let mut e = self.entries.remove(i);
                e.1.store.set(key, value);
                let ghost ge = e;
                self.entries.insert(i, e);
                proof {
                    assert(self.entries@ =~= s0.update(i as int, ge));
                    assert forall|n: Seq<char>|
                        find_rec(self.entries@, n) == if n == name@ {
                            Some(ge.1)
                        } else {
                            find_rec(s0, n)
                        } by {
                        lemma_find_update(s0, i as int, ge, n);
                    }
                    assert(forall|j: int|
                        0 <= j < self.entries@.len() ==> (#[trigger] self.entries@[j])
                            == if j == i as int {
                            ge
                        } else {
                            s0[j]
                        });
                }
                Ok(())
            },
            None => Err(ServiceError::UnknownFunction),
        }
    }

    /// Read one key of one function's store; an absent key is `Ok(None)`, an
    /// unknown function is an error, and nothing changes either way.
    pub fn kv_get(&self, name: &String, key: &String) -> (r: Result<Option<String>, ServiceError>)
        requires
            self.wf(),
        ensures
            match r {
                Ok(Some(v)) => self.contains_fn(name@) && self.kv_of(name@).contains_key(key@)
                    && v@ == self.kv_of(name@)[key@],
                Ok(None) => self.contains_fn(name@) && !self.kv_of(name@).contains_key(key@),
                Err(e) => e == ServiceError::UnknownFunction && !self.contains_fn(name@),
            },
    {
        match self.scan(name) {
            Some(i) => {
                match self.entries[i].1.store.get(key) {
                    Some(v) => Ok(Some(String::from_str(v.as_str()))),
                    None => Ok(None),
                }
            },
            None => Err(ServiceError::UnknownFunction),
        }
    }
}

} // verus!
