use vstd::prelude::*;

verus! {

/// The map from task keys to statuses that a sequence of entries stands for.
/// Later entries win, though in a well-formed registry no key occurs twice.
/// A status of `true` means the task is still to do; `false` means it is done.
pub open spec fn entries_map(s: Seq<(String, bool)>) -> Map<Seq<char>, bool>
    decreases s.len(),
{
    if s.len() == 0 {
        Map::empty()
    } else {
        entries_map(s.drop_last()).insert(s.last().0@, s.last().1)
    }
}

/// No two entries carry the same key.
pub open spec fn keys_unique(s: Seq<(String, bool)>) -> bool {
    forall|i: int, j: int|
        0 <= i < j < s.len() ==> (#[trigger] s[i]).0@ != (#[trigger] s[j]).0@
}

/// What `add` makes of the registry: an unknown key comes in as to do, a known
/// one keeps its status.
pub open spec fn add_model(m: Map<Seq<char>, bool>, k: Seq<char>) -> Map<Seq<char>, bool> {
    if m.contains_key(k) {
        m
    } else {
        m.insert(k, true)
    }
}

/// What `mark` makes of the registry: a known key takes the new status, an
/// unknown one changes nothing.
pub open spec fn mark_model(m: Map<Seq<char>, bool>, k: Seq<char>, status: bool) -> Map<
    Seq<char>,
    bool,
> {
    if m.contains_key(k) {
        m.insert(k, status)
    } else {
        m
    }
}

/// What `mark` returns: the key back, as success when it is known and as
/// failure when it is not.
pub open spec fn mark_result(m: Map<Seq<char>, bool>, key: String) -> Result<String, String> {
    if m.contains_key(key@) {
        Ok(key)
    } else {
        Err(key)
    }
}

/// `pending` and `done` list the keys of `m` that are to do and done, each
/// key once.
pub open spec fn is_listing(
    m: Map<Seq<char>, bool>,
    pending: Seq<Seq<char>>,
    done: Seq<Seq<char>>,
) -> bool {
    &&& pending.no_duplicates()
    &&& done.no_duplicates()
    &&& forall|k: Seq<char>| #[trigger]
        pending.contains(k) <==> (m.contains_key(k) && m[k])
    &&& forall|k: Seq<char>| #[trigger] done.contains(k) <==> (m.contains_key(k) && !m[k])
}

proof fn lemma_keys_unique_drop_last(s: Seq<(String, bool)>)
    requires
        s.len() > 0,
        keys_unique(s),
    ensures
        keys_unique(s.drop_last()),
{
    assert forall|i: int, j: int| 0 <= i < j < s.drop_last().len() implies (
    #[trigger] s.drop_last()[i]).0@ != (#[trigger] s.drop_last()[j]).0@ by {
        assert(s.drop_last()[i] == s[i] && s.drop_last()[j] == s[j]);
    }
}

/// A key is in the map exactly when some entry carries it, and then the map
/// gives that entry's status.
proof fn lemma_entries_map_lookup(s: Seq<(String, bool)>)
    requires
        keys_unique(s),
    ensures
        forall|k: Seq<char>| #[trigger]
            entries_map(s).contains_key(k) <==> exists|i: int| 0 <= i < s.len() && s[i].0@ == k,
        forall|i: int|
            0 <= i < s.len() ==> #[trigger] entries_map(s)[s[i].0@] == s[i].1,
    decreases s.len(),
{
    if s.len() > 0 {
        let t = s.drop_last();
        lemma_keys_unique_drop_last(s);
        lemma_entries_map_lookup(t);
        assert forall|k: Seq<char>| #[trigger]
            entries_map(s).contains_key(k) <==> exists|i: int| 0 <= i < s.len() && s[i].0@ == k by {
            if entries_map(s).contains_key(k) {
                if k == s.last().0@ {
                    assert(s[s.len() - 1].0@ == k);
                } else {
                    assert(entries_map(t).contains_key(k));
                    let i = choose|i: int| 0 <= i < t.len() && t[i].0@ == k;
                    assert(s[i] == t[i]);
                }
            }
            if exists|i: int| 0 <= i < s.len() && s[i].0@ == k {
                let i = choose|i: int| 0 <= i < s.len() && s[i].0@ == k;
                if i < s.len() - 1 {
                    assert(t[i] == s[i]);
                    assert(entries_map(t).contains_key(k));
                }
            }
        }
        assert forall|i: int| 0 <= i < s.len() implies #[trigger] entries_map(s)[s[i].0@]
            == s[i].1 by {
            if i < s.len() - 1 {
                assert(t[i] == s[i]);
                assert(entries_map(t)[t[i].0@] == t[i].1);
                assert(s[i].0@ != s[s.len() - 1].0@);
            }
        }
    }
}

/// The map holds one key per entry.
proof fn lemma_entries_map_len(s: Seq<(String, bool)>)
    requires
        keys_unique(s),
    ensures
        entries_map(s).dom().finite(),
        entries_map(s).len() == s.len(),
    decreases s.len(),
{
    if s.len() > 0 {
        let t = s.drop_last();
        lemma_keys_unique_drop_last(s);
        lemma_entries_map_len(t);
        lemma_entries_map_lookup(t);
        if entries_map(t).contains_key(s.last().0@) {
            let i = choose|i: int| 0 <= i < t.len() && t[i].0@ == s.last().0@;
            assert(s[i] == t[i]);
            assert(s[i].0@ != s[s.len() - 1].0@);
        }
    }
}

/// Changing the status of one entry changes that key's status in the map.
proof fn lemma_entries_map_update(s: Seq<(String, bool)>, i: int, status: bool)
    requires
        keys_unique(s),
        0 <= i < s.len(),
    ensures
        entries_map(s.update(i, (s[i].0, status))) == entries_map(s).insert(s[i].0@, status),
    decreases s.len(),
{
    let u = s.update(i, (s[i].0, status));
    let t = s.drop_last();
    if i == s.len() - 1 {
        assert(u.drop_last() =~= t);
        assert(entries_map(u) =~= entries_map(s).insert(s[i].0@, status));
    } else {
        lemma_keys_unique_drop_last(s);
        assert(u.drop_last() =~= t.update(i, (t[i].0, status)));
        lemma_entries_map_update(t, i, status);
        assert(s[i].0@ != s[s.len() - 1].0@);
        assert(entries_map(u) =~= entries_map(s).insert(s[i].0@, status));
    }
}

/// A registry of tasks, each identified by its text key and either still to
/// do (`true`) or done (`false`).
pub struct TodoList {
    items: Vec<(String, bool)>,
}

impl View for TodoList {
    type V = Map<Seq<char>, bool>;

    closed spec fn view(&self) -> Map<Seq<char>, bool> {
        entries_map(self.items@)
    }
}

impl TodoList {
    /// Every key is held once.
    pub closed spec fn wf(&self) -> bool {
        keys_unique(self.items@)
    }

    /// An empty registry.
    pub fn new() -> (r: TodoList)
        ensures
            r.wf(),
            r@ == Map::<Seq<char>, bool>::empty(),
    {
        TodoList { items: Vec::new() }
    }

    /// The position of the entry that carries `key`, if there is one.
    fn find(&self, key: &String) -> (r: Option<usize>)
        requires
            self.wf(),
        ensures
            match r {
                Some(i) => i < self.items@.len() && self.items@[i as int].0@ == key@,
                None => forall|i: int|
                    0 <= i < self.items@.len() ==> (#[trigger] self.items@[i]).0@ != key@,
            },
    {
        let mut i: usize = 0;
        while i < self.items.len()
            invariant
                i <= self.items@.len(),
                forall|j: int| 0 <= j < i ==> (#[trigger] self.items@[j]).0@ != key@,
            decreases self.items@.len() - i,
        {
            if self.items[i].0 == *key {
                return Some(i);
            }
            i = i + 1;
        }
        None
    }

    /// Adds `key` as a task to do, unless it is already known: then its status
    /// stays as it is.
    pub fn add(&mut self, key: String)
        requires
            old(self).wf(),
        ensures
            final(self).wf(),
            final(self)@ == add_model(old(self)@, key@),
    {
        proof {
            lemma_entries_map_lookup(self.items@);
        }
        match self.find(&key) {
            Some(i) => {
                assert(self@.contains_key(self.items@[i as int].0@));
            },
            None => {
                assert(!self@.contains_key(key@));
                let ghost before = self.items@;
                self.items.push((key, true));
                assert(self.items@.drop_last() =~= before);
            },
        }
    }

    /// Sets the status of `key` to `value` (`true`: to do, `false`: done).
    /// Gives the key back: as `Ok` when it was known, as `Err`, with the
    /// registry unchanged, when it was not.
    pub fn mark(&mut self, key: String, value: bool) -> (r: Result<String, String>)
        requires
            old(self).wf(),
        ensures
            final(self).wf(),
            final(self)@ == mark_model(old(self)@, key@, value),
            r == mark_result(old(self)@, key),
    {
        proof {
            lemma_entries_map_lookup(self.items@);
        }
        match self.find(&key) {
            Some(i) => {
                let ghost before = self.items@;
                proof {
                    lemma_entries_map_update(before, i as int, value);
                }
                self.items[i].1 = value;
                assert(self.items@ == before.update(i as int, (before[i as int].0, value)));
                Ok(key)
            },
            None => {
                assert(!self@.contains_key(key@));
                Err(key)
            },
        }
    }

    /// The keys to do and the keys done, each key once, in no set order.
    pub fn list(&self) -> (r: (Vec<String>, Vec<String>))
        requires
            self.wf(),
        ensures
            self@.dom().finite(),
            is_listing(self@, r.0.deep_view(), r.1.deep_view()),
    {
        proof {
            lemma_entries_map_lookup(self.items@);
            lemma_entries_map_len(self.items@);
        }
        let ghost s = self.items@;
        let mut pending: Vec<String> = Vec::new();
        let mut done: Vec<String> = Vec::new();
        let mut i: usize = 0;
        while i < self.items.len()
            invariant
                s == self.items@,
                keys_unique(s),
                i <= s.len(),
                pending.deep_view().no_duplicates(),
                done.deep_view().no_duplicates(),
                forall|k: Seq<char>| #[trigger]
                    pending.deep_view().contains(k) <==> exists|j: int|
                        0 <= j < i && s[j].0@ == k && s[j].1,
                forall|k: Seq<char>| #[trigger]
                    done.deep_view().contains(k) <==> exists|j: int|
                        0 <= j < i && s[j].0@ == k && !s[j].1,
            decreases s.len() - i,
        {
            let key = self.items[i].0.clone();
            assert forall|j: int| 0 <= j < i implies s[j].0@ != key@ by {
                assert(s[j].0@ != s[i as int].0@);
            }
            if self.items[i].1 {
                let ghost old_dv = pending.deep_view();
                pending.push(key);
                assert(pending.deep_view() =~= old_dv.push(key@));
                assert(!old_dv.contains(key@));
                assert forall|k: Seq<char>| #[trigger]
                    pending.deep_view().contains(k) <==> exists|j: int|
                        0 <= j < i + 1 && s[j].0@ == k && s[j].1 by {
                    if pending.deep_view().contains(k) && k != key@ {
                        assert(old_dv.contains(k));
                    }
                    if k == key@ {
                        assert(pending.deep_view()[old_dv.len() as int] == k);
                        assert(s[i as int].0@ == k);
                    }
                    if old_dv.contains(k) {
                        let idx = choose|idx: int| 0 <= idx < old_dv.len() && old_dv[idx] == k;
                        assert(pending.deep_view()[idx] == k);
                    }
                    if exists|j: int| 0 <= j < i + 1 && s[j].0@ == k && s[j].1 {
                        let j = choose|j: int| 0 <= j < i + 1 && s[j].0@ == k && s[j].1;
                        if j < i {
                            assert(old_dv.contains(k));
                        }
                    }
                }
                assert forall|k: Seq<char>| #[trigger]
                    done.deep_view().contains(k) <==> exists|j: int|
                        0 <= j < i + 1 && s[j].0@ == k && !s[j].1 by {
                    if exists|j: int| 0 <= j < i + 1 && s[j].0@ == k && !s[j].1 {
                        let j = choose|j: int| 0 <= j < i + 1 && s[j].0@ == k && !s[j].1;
                        assert(j != i);
                    }
                }
            } else {
                let ghost old_dv = done.deep_view();
                done.push(key);
                assert(done.deep_view() =~= old_dv.push(key@));
                assert(!old_dv.contains(key@));
                assert forall|k: Seq<char>| #[trigger]
                    done.deep_view().contains(k) <==> exists|j: int|
                        0 <= j < i + 1 && s[j].0@ == k && !s[j].1 by {
                    if done.deep_view().contains(k) && k != key@ {
                        assert(old_dv.contains(k));
                    }
                    if k == key@ {
                        assert(done.deep_view()[old_dv.len() as int] == k);
                        assert(s[i as int].0@ == k);
                    }
                    if old_dv.contains(k) {
                        let idx = choose|idx: int| 0 <= idx < old_dv.len() && old_dv[idx] == k;
                        assert(done.deep_view()[idx] == k);
                    }
                    if exists|j: int| 0 <= j < i + 1 && s[j].0@ == k && !s[j].1 {
                        let j = choose|j: int| 0 <= j < i + 1 && s[j].0@ == k && !s[j].1;
                        if j < i {
                            assert(old_dv.contains(k));
                        }
                    }
                }
                assert forall|k: Seq<char>| #[trigger]
                    pending.deep_view().contains(k) <==> exists|j: int|
                        0 <= j < i + 1 && s[j].0@ == k && s[j].1 by {
                    if exists|j: int| 0 <= j < i + 1 && s[j].0@ == k && s[j].1 {
                        let j = choose|j: int| 0 <= j < i + 1 && s[j].0@ == k && s[j].1;
                        assert(j != i);
                    }
                }
            }
            i = i + 1;
        }
        (pending, done)
    }

    /// The status of `key`, if it is known.
    pub fn get(&self, key: &str) -> (r: Option<bool>)
        requires
            self.wf(),
        ensures
            r == (if self@.contains_key(key@) {
                Some(self@[key@])
            } else {
                None
            }),
    {
        proof {
            lemma_entries_map_lookup(self.items@);
        }
        let owned = key.to_owned();
        match self.find(&owned) {
            Some(i) => Some(self.items[i].1),
            None => None,
        }
    }

    /// The number of known keys.
    pub fn len(&self) -> (r: usize)
        requires
            self.wf(),
        ensures
            self@.dom().finite(),
            r == self@.len(),
    {
        proof {
            lemma_entries_map_len(self.items@);
        }
        self.items.len()
    }
}

} // verus!
