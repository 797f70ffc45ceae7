use vstd::prelude::*;
use vstd::string::StrSliceExecFns;

use crate::params::str_eq;

verus! {

/// The value associated with `k` in an association list: the first pair
/// whose name matches decides.
pub open spec fn assoc_find<V>(s: Seq<(String, V)>, k: Seq<char>) -> Option<V>
    decreases s.len(),
{
    if s.len() == 0 {
        None
    } else if s.first().0@ == k {
        Some(s.first().1)
    } else {
        assoc_find(s.drop_first(), k)
    }
}

/// The association list after binding `kv.0` to `kv.1`: the first pair
/// with that name is replaced, or the pair is appended when the name was
/// absent.
pub open spec fn assoc_set<V>(s: Seq<(String, V)>, kv: (String, V)) -> Seq<(String, V)>
    decreases s.len(),
{
    if s.len() == 0 {
        seq![kv]
    } else if s.first().0@ == kv.0@ {
        s.update(0, kv)
    } else {
        seq![s.first()] + assoc_set(s.drop_first(), kv)
    }
}

/// The association list without its first pair named `k`.
pub open spec fn assoc_remove<V>(s: Seq<(String, V)>, k: Seq<char>) -> Seq<(String, V)>
    decreases s.len(),
{
    if s.len() == 0 {
        s
    } else if s.first().0@ == k {
        s.drop_first()
    } else {
        seq![s.first()] + assoc_remove(s.drop_first(), k)
    }
}

/// A forward scan that has passed `i` pairs without finding `k` has the
/// same outcome as scanning the rest, for all three operations.
pub proof fn lemma_assoc_scan<V>(s: Seq<(String, V)>, k: Seq<char>, kv: (String, V), i: int)
    requires
        0 <= i <= s.len(),
        forall|j: int| 0 <= j < i ==> s[j].0@ != k,
    ensures
        assoc_find(s, k) == assoc_find(s.skip(i), k),
        kv.0@ == k ==> assoc_set(s, kv) =~= s.take(i) + assoc_set(s.skip(i), kv),
        assoc_remove(s, k) =~= s.take(i) + assoc_remove(s.skip(i), k),
    decreases i,
{
    if i > 0 {
        assert(s[0].0@ != k);
        lemma_assoc_scan(s.drop_first(), k, kv, i - 1);
        assert(s.drop_first().skip(i - 1) =~= s.skip(i));
        if kv.0@ == k {
            assert(seq![s.first()] + (s.drop_first().take(i - 1) + assoc_set(s.skip(i), kv))
                =~= s.take(i) + assoc_set(s.skip(i), kv));
        }
        assert(seq![s.first()] + (s.drop_first().take(i - 1) + assoc_remove(s.skip(i), k))
            =~= s.take(i) + assoc_remove(s.skip(i), k));
    } else {
        assert(s.skip(0) =~= s);
        if kv.0@ == k {
            assert(s.take(0) + assoc_set(s, kv) =~= assoc_set(s, kv));
        }
        assert(s.take(0) + assoc_remove(s, k) =~= assoc_remove(s, k));
    }
}

/// One session's data: names bound to values, an optional expiry instant,
/// and an optional rolling timeout. Instants and durations are
/// milliseconds of the host's clock; the store never reads a clock
/// itself — callers pass the current instant in.
#[derive(Debug)]
pub struct SessionData {
    pub data: Vec<(String, String)>,
    pub max_age: Option<i64>,
    pub timeout: Option<i64>,
}

impl SessionData {
    /// A session with nothing bound, no expiry and no timeout.
    pub fn new() -> (r: Self)
        ensures
            r.data@ == Seq::<(String, String)>::empty(),
            r.max_age is None,
            r.timeout is None,
    {
        SessionData { data: Vec::new(), max_age: None, timeout: None }
    }

    /// The value bound to `name`, if one is.
    pub fn get(&self, name: &str) -> (r: Option<&String>)
        ensures
            match r {
                Some(v) => assoc_find(self.data@, name@) == Some(*v),
                None => assoc_find(self.data@, name@) is None,
            },
    {
        let mut i: usize = 0;
        while i < self.data.len()
            invariant
                i <= self.data.len(),
                forall|j: int| 0 <= j < i ==> self.data@[j].0@ != name@,
            decreases self.data.len() - i,
        {
            let pair = &self.data[i];
            if str_eq(pair.0.as_str(), name) {
                proof {
                    lemma_assoc_scan(self.data@, name@, arbitrary(), i as int);
                    assert(self.data@.skip(i as int).first() == self.data@[i as int]);
                }
                return Some(&pair.1);
            }
            i = i + 1;
        }
        proof {
            lemma_assoc_scan(self.data@, name@, arbitrary(), i as int);
            assert(self.data@.skip(i as int) =~= Seq::<(String, String)>::empty());
        }
        None
    }

    /// All the bound pairs, in insertion order.
    pub fn get_all(&self) -> (r: &Vec<(String, String)>)
        ensures
            r@ == self.data@,
    {
        &self.data
    }

    /// Bind `name` to `value`, handing back the value it replaces.
    pub fn set(&mut self, name: &str, value: &str) -> (r: Option<String>)
        ensures
            exists|kv: (String, String)|
                kv.0@ == name@ && kv.1@ == value@ && final(self).data@ == assoc_set(
                    old(self).data@,
                    kv,
                ),
            final(self).max_age == old(self).max_age,
            final(self).timeout == old(self).timeout,
            match r {
                Some(v) => assoc_find(old(self).data@, name@) == Some(v),
                None => assoc_find(old(self).data@, name@) is None,
            },
    {
        let kv = (name.to_owned(), value.to_owned());
        let ghost kvg = kv;
        proof {
            assert(kvg.0@ == name@);
            assert(kvg.1@ == value@);
        }
        let mut i: usize = 0;
        while i < self.data.len()
            invariant
                self.data@ == old(self).data@,
                self.max_age == old(self).max_age,
                self.timeout == old(self).timeout,
                kvg == kv,
                kvg.0@ == name@,
                kvg.1@ == value@,
                i <= self.data.len(),
                forall|j: int| 0 <= j < i ==> self.data@[j].0@ != name@,
            decreases self.data.len() - i,
        {
            if str_eq(self.data[i].0.as_str(), name) {
                let previous = self.data[i].1.clone();
                proof {
                    lemma_assoc_scan(old(self).data@, name@, kvg, i as int);
                    assert(old(self).data@.skip(i as int).first() == old(self).data@[i as int]);

                }
                self.data.set(i, kv);
                proof {
                    assert(final(self).data@ =~= old(self).data@.take(i as int) + old(
                        self,
                    ).data@.skip(i as int).update(0, kvg));
                    assert(old(self).data@.skip(i as int).first().0@ == kvg.0@);
                    assert(assoc_set(old(self).data@.skip(i as int), kvg) == old(
                        self,
                    ).data@.skip(i as int).update(0, kvg));
                    assert(self.data@ == assoc_set(old(self).data@, kvg));
                }
                return Some(previous);
            }
            i = i + 1;
        }
        let ghost len = self.data@.len() as int;
        self.data.push(kv);
        proof {
            lemma_assoc_scan(old(self).data@, name@, kvg, len);
            assert(old(self).data@.skip(len) =~= Seq::<(String, String)>::empty());
            assert(old(self).data@.take(len) == old(self).data@);
            assert(final(self).data@ =~= old(self).data@ + seq![kvg]);
            assert(assoc_set(old(self).data@, kvg) =~= old(self).data@ + seq![kvg]);
            assert(self.data@ == assoc_set(old(self).data@, kvg));
        }
        None
    }

    /// Unbind `name`, handing back the value it was bound to.
    pub fn remove(&mut self, name: &str) -> (r: Option<String>)
        ensures
            final(self).data@ == assoc_remove(old(self).data@, name@),
            final(self).max_age == old(self).max_age,
            final(self).timeout == old(self).timeout,
            match r {
                Some(v) => assoc_find(old(self).data@, name@) == Some(v),
                None => assoc_find(old(self).data@, name@) is None,
            },
    {
        let mut i: usize = 0;
        while i < self.data.len()
            invariant
                self.data@ == old(self).data@,
                self.max_age == old(self).max_age,
                self.timeout == old(self).timeout,
                i <= self.data.len(),
                forall|j: int| 0 <= j < i ==> self.data@[j].0@ != name@,
            decreases self.data.len() - i,
    {
            if str_eq(self.data[i].0.as_str(), name) {
                proof {
                    lemma_assoc_scan(old(self).data@, name@, arbitrary(), i as int);
                    assert(old(self).data@.skip(i as int).first() == old(self).data@[i as int]);
                }
                let pair = self.data.remove(i);
                proof {
                    assert(final(self).data@ =~= old(self).data@.take(i as int) + old(
                        self,
                    ).data@.skip(i as int).drop_first());
                }
                return Some(pair.1);
            }
            i = i + 1;
        }
        proof {
            lemma_assoc_scan(old(self).data@, name@, arbitrary(), i as int);
            assert(old(self).data@.skip(i as int) =~= Seq::<(String, String)>::empty());
            assert(old(self).data@.take(i as int) + Seq::<(String, String)>::empty() =~= old(
                self,
            ).data@);
        }
        None
    }

    /// Push the expiry forward by the rolling timeout, measured from
    /// `now`; a session without a timeout keeps its expiry.
    pub fn refresh_session(&mut self, now: i64)
        requires
            old(self).timeout matches Some(t) ==> i64::MIN <= now + t <= i64::MAX,
        ensures
            final(self).data@ == old(self).data@,
            final(self).timeout == old(self).timeout,
            final(self).max_age == match old(self).timeout {
                Some(t) => Some((now + t) as i64),
                None => old(self).max_age,
            },
    {
        match self.timeout {
            Some(t) => {
                self.max_age = Some(now + t);
            },
            None => {},
        }
    }

    /// The session, expiring `timeout` milliseconds after `now`.
    pub fn timeout(self, timeout: i64, now: i64) -> (r: Self)
        requires
            i64::MIN <= now + timeout <= i64::MAX,
        ensures
            r.data@ == self.data@,
            r.timeout == self.timeout,
            r.max_age == Some((now + timeout) as i64),
    {
        SessionData { max_age: Some(now + timeout), ..self }
    }

    /// Whether the session is taken as live at `now`; a session without an
    /// expiry always is.
    pub fn is_alive(&self, now: i64) -> (r: bool)
        ensures
            r == match self.max_age {
                Some(m) => m < now,
                None => true,
            },
    {
        match self.max_age {
            Some(m) => m < now,
            None => true,
        }
    }

    /// A copy of the session, pair for pair.
    pub fn duplicate(&self) -> (r: Self)
        ensures
            r.data@ == self.data@,
            r.max_age == self.max_age,
            r.timeout == self.timeout,
    {
        let mut data: Vec<(String, String)> = Vec::new();
        let mut i: usize = 0;
        while i < self.data.len()
            invariant
                i <= self.data.len(),
                data@ == self.data@.take(i as int),
            decreases self.data.len() - i,
        {
            let pair = &self.data[i];
            data.push((pair.0.clone(), pair.1.clone()));
            proof {
                assert(data@ =~= self.data@.take(i as int + 1));
            }
            i = i + 1;
        }
        proof {
            assert(self.data@.take(self.data@.len() as int) =~= self.data@);
        }
        SessionData { data, max_age: self.max_age, timeout: self.timeout }
    }
}

/// An in-memory session store: session identifiers bound to session data.
///
/// The store is an ordinary owned value, built at startup and handed to
/// whatever middleware needs it.
#[derive(Debug)]
pub struct MemorySessionStorage {
    pub sessions: Vec<(String, SessionData)>,
}

impl MemorySessionStorage {
    /// An empty store.
    pub fn new() -> (r: Self)
        ensures
            r.sessions@ == Seq::<(String, SessionData)>::empty(),
    {
        MemorySessionStorage { sessions: Vec::new() }
    }

    /// A copy of the session stored under `id`.
    pub fn get_session(&self, id: &str) -> (r: Option<SessionData>)
        ensures
            match r {
                Some(s) => match assoc_find(self.sessions@, id@) {
                    Some(held) => s.data@ == held.data@ && s.max_age == held.max_age && s.timeout
                        == held.timeout,
                    None => false,
                },
                None => assoc_find(self.sessions@, id@) is None,
            },
    {
        let mut i: usize = 0;
        while i < self.sessions.len()
            invariant
                i <= self.sessions.len(),
                forall|j: int| 0 <= j < i ==> self.sessions@[j].0@ != id@,
            decreases self.sessions.len() - i,
        {
            let pair = &self.sessions[i];
            if str_eq(pair.0.as_str(), id) {
                proof {
                    lemma_assoc_scan(self.sessions@, id@, arbitrary(), i as int);
                    assert(self.sessions@.skip(i as int).first() == self.sessions@[i as int]);
                }
                return Some(pair.1.duplicate());
            }
            i = i + 1;
        }
        proof {
            lemma_assoc_scan(self.sessions@, id@, arbitrary(), i as int);
            assert(self.sessions@.skip(i as int) =~= Seq::<(String, SessionData)>::empty());
        }
        None
    }

    /// Store `session` under `id`, replacing what was there.
    pub fn set_session(&mut self, id: &str, session: SessionData)
        ensures
            exists|k: String|
                k@ == id@ && final(self).sessions@ == assoc_set(old(self).sessions@, (k, session)),
    {
        let k = id.to_owned();
        let kv = (k, session);
        let ghost kvg = kv;
        proof {
            assert(kvg.0@ == id@);
            assert(kvg.1 == session);
        }
        let mut i: usize = 0;
        while i < self.sessions.len()
            invariant
                self.sessions@ == old(self).sessions@,
                kvg == kv,
                kvg.0@ == id@,
                kvg.1 == session,
                i <= self.sessions.len(),
                forall|j: int| 0 <= j < i ==> self.sessions@[j].0@ != id@,
            decreases self.sessions.len() - i,
        {
            if str_eq(self.sessions[i].0.as_str(), id) {
                proof {
                    lemma_assoc_scan(old(self).sessions@, id@, kvg, i as int);
                    assert(old(self).sessions@.skip(i as int).first() == old(self).sessions@[
                        i as int
                    ]);
                }
                self.sessions.set(i, kv);
                proof {
                    assert(final(self).sessions@ =~= old(self).sessions@.take(i as int) + old(
                        self,
                    ).sessions@.skip(i as int).update(0, kvg));
                    assert(old(self).sessions@.skip(i as int).first().0@ == kvg.0@);
                    assert(assoc_set(old(self).sessions@.skip(i as int), kvg) == old(
                        self,
                    ).sessions@.skip(i as int).update(0, kvg));
                    assert(self.sessions@ == assoc_set(old(self).sessions@, kvg));
                    assert((kvg.0, session) == kvg);
                }
                return ;
            }
            i = i + 1;
        }
        let ghost len = self.sessions@.len() as int;
        self.sessions.push(kv);
        proof {
            lemma_assoc_scan(old(self).sessions@, id@, kvg, len);
            assert(old(self).sessions@.skip(len) =~= Seq::<(String, SessionData)>::empty());
            assert(old(self).sessions@.take(len) == old(self).sessions@);
            assert(final(self).sessions@ =~= old(self).sessions@ + seq![kvg]);
            assert(assoc_set(old(self).sessions@, kvg) =~= old(self).sessions@ + seq![kvg]);
            assert(self.sessions@ == assoc_set(old(self).sessions@, kvg));
            assert((kvg.0, session) == kvg);
        }
    }

    /// Forget the session stored under `id`.
    pub fn remove_session(&mut self, id: &str)
        ensures
            final(self).sessions@ == assoc_remove(old(self).sessions@, id@),
    {
        let mut i: usize = 0;
        while i < self.sessions.len()
            invariant
                self.sessions@ == old(self).sessions@,
                i <= self.sessions.len(),
                forall|j: int| 0 <= j < i ==> self.sessions@[j].0@ != id@,
            decreases self.sessions.len() - i,
        {
            if str_eq(self.sessions[i].0.as_str(), id) {
                proof {
                    lemma_assoc_scan(old(self).sessions@, id@, arbitrary(), i as int);
                    assert(old(self).sessions@.skip(i as int).first() == old(self).sessions@[
                        i as int
                    ]);
                }
                self.sessions.remove(i);
                proof {
                    assert(final(self).sessions@ =~= old(self).sessions@.take(i as int) + old(
                        self,
                    ).sessions@.skip(i as int).drop_first());
                }
                return ;
            }
            i = i + 1;
        }
        proof {
            lemma_assoc_scan(old(self).sessions@, id@, arbitrary(), i as int);
            assert(old(self).sessions@.skip(i as int) =~= Seq::<(String, SessionData)>::empty());
            assert(old(self).sessions@.take(i as int) + Seq::<(String, SessionData)>::empty()
                =~= old(self).sessions@);
        }
    }
}

} // verus!
