//! Small stores keyed by register name, used by the passes: a map from
//! register to the constant it is known to hold, and a set of registers.
//!
//! Both are kept in a `Vec` rather than in std's `HashMap`. vstd describes
//! a `HashMap`'s contents as a `Map` only for key types it knows to hash
//! and compare faithfully (`obeys_key_model`), which it establishes for
//! the integer types and not for `String`; with `String` keys nothing
//! could be proved of what the map holds. The price is a linear search
//! per lookup.

use vstd::prelude::*;

verus! {

/// The map that a log of updates describes: entries are applied in
/// order, `Some(n)` binding the name to `n` and `None` unbinding it.
pub open spec fn log_map(s: Seq<(Seq<char>, Option<i64>)>) -> Map<Seq<char>, i64>
    decreases s.len(),
{
    if s.len() == 0 {
        Map::empty()
    } else {
        let m = log_map(s.drop_last());
        let e = s.last();
        match e.1 {
            Some(n) => m.insert(e.0, n),
            None => m.remove(e.0),
        }
    }
}

proof fn lemma_log_map_absent(s: Seq<(Seq<char>, Option<i64>)>, key: Seq<char>, j: int)
    requires
        0 <= j <= s.len(),
        forall|k: int| j <= k < s.len() ==> s[k].0 != key,
    ensures
        log_map(s).contains_key(key) == log_map(s.take(j)).contains_key(key),
        log_map(s).contains_key(key) ==> log_map(s)[key] == log_map(s.take(j))[key],
    decreases s.len() - j,
{
    if j < s.len() {
        let t = s.take(s.len() - 1);
        assert(t =~= s.drop_last());
        assert(t.take(j) =~= s.take(j));
        lemma_log_map_absent(t, key, j);
    } else {
        assert(s.take(j) =~= s);
    }
}

proof fn lemma_log_map_found(s: Seq<(Seq<char>, Option<i64>)>, key: Seq<char>, j: int)
    requires
        0 <= j < s.len(),
        s[j].0 == key,
        forall|k: int| j < k < s.len() ==> s[k].0 != key,
    ensures
        log_map(s).contains_key(key) == (s[j].1 is Some),
        s[j].1 is Some ==> log_map(s)[key] == s[j].1->Some_0,
{
    lemma_log_map_absent(s, key, j + 1);
    assert(s.take(j + 1).drop_last() =~= s.take(j));
}

/// Registers known to hold a constant, with the constant each holds.
pub struct ConstMap {
    entries: Vec<(String, Option<i64>)>,
}

impl ConstMap {
    pub closed spec fn log(&self) -> Seq<(Seq<char>, Option<i64>)> {
        self.entries@.map_values(|e: (String, Option<i64>)| (e.0@, e.1))
    }

    pub fn new() -> (r: Self)
        ensures
            r@ == Map::<Seq<char>, i64>::empty(),
    {
        let r = ConstMap { entries: Vec::new() };
        assert(r.log() =~= Seq::<(Seq<char>, Option<i64>)>::empty());
        r
    }

    /// The constant `reg` is known to hold, if any.
    pub fn get(&self, reg: &String) -> (r: Option<i64>)
        ensures
            r == (if self@.contains_key(reg@) {
                Some(self@[reg@])
            } else {
                None
            }),
    {
        let ghost s = self.log();
        let mut i = self.entries.len();
        while i > 0
            invariant
                i <= self.entries.len(),
                s == self.log(),
                forall|k: int| i <= k < s.len() ==> s[k].0 != reg@,
            decreases i,
        {
            i -= 1;
            if self.entries[i].0.eq(reg) {
                proof {
                    assert(s[i as int].0 == self.entries@[i as int].0@);
                    lemma_log_map_found(s, reg@, i as int);
                }
                return self.entries[i].1;
            }
            assert(s[i as int].0 == self.entries@[i as int].0@);
        }
        proof {
            lemma_log_map_absent(s, reg@, 0);
            assert(s.take(0) =~= Seq::<(Seq<char>, Option<i64>)>::empty());
        }
        None
    }

    fn record(&mut self, reg: &String, value: Option<i64>)
        ensures
            final(self).log() == old(self).log().push((reg@, value)),
    {
        self.entries.push((reg.clone(), value));
        assert(self.log() =~= old(self).log().push((reg@, value)));
    }

    /// Record that `reg` now holds `n`.
    pub fn insert(&mut self, reg: &String, n: i64)
        ensures
            final(self)@ == old(self)@.insert(reg@, n),
    {
        self.record(reg, Some(n));
        assert(self.log().drop_last() =~= old(self).log());
    }

    /// Forget whatever `reg` was known to hold.
    pub fn remove(&mut self, reg: &String)
        ensures
            final(self)@ == old(self)@.remove(reg@),
    {
        self.record(reg, None);
        assert(self.log().drop_last() =~= old(self).log());
    }
}

impl View for ConstMap {
    type V = Map<Seq<char>, i64>;

    closed spec fn view(&self) -> Map<Seq<char>, i64> {
        log_map(self.log())
    }
}

/// The character sequences of a sequence of strings.
pub open spec fn views_of(v: Seq<String>) -> Seq<Seq<char>> {
    v.map_values(|s: String| s@)
}

/// A set of register names.
pub struct RegSet {
    names: Vec<String>,
}

impl RegSet {
    pub closed spec fn names_view(&self) -> Seq<Seq<char>> {
        views_of(self.names@)
    }

    pub fn new() -> (r: Self)
        ensures
            r@ == Set::<Seq<char>>::empty(),
    {
        let r = RegSet { names: Vec::new() };
        assert(r@ =~= Set::<Seq<char>>::empty());
        r
    }

    fn contains(&self, reg: &str) -> (r: bool)
        ensures
            r == self@.contains(reg@),
    {
        let mut i: usize = 0;
        while i < self.names.len()
            invariant
                i <= self.names.len(),
                forall|k: int| 0 <= k < i ==> self.names_view()[k] != reg@,
            decreases self.names.len() - i,
        {
            if crate::text::str_eq(self.names[i].as_str(), reg) {
                assert(self.names_view()[i as int] == reg@);
                return true;
            }
            i += 1;
        }
        false
    }

    /// Add `reg` to the set.
    pub fn insert(&mut self, reg: &str)
        ensures
            final(self)@ == old(self)@.insert(reg@),
    {
        if !self.contains(reg) {
            let ghost before = self.names_view();
            self.names.push(String::from_str(reg));
            assert(self.names_view() =~= before.push(reg@));
            assert forall|x: Seq<char>| self.names_view().contains(x) <==> (before.contains(x) || x
                == reg@) by {
                if self.names_view().contains(x) {
                    let k = choose|k: int| 0 <= k < self.names_view().len() && self.names_view()[k]
                        == x;
                    if k < before.len() {
                        assert(before[k] == x);
                    }
                }
                if before.contains(x) {
                    let k = choose|k: int| 0 <= k < before.len() && before[k] == x;
                    assert(self.names_view()[k] == x);
                }
                if x == reg@ {
                    assert(self.names_view()[before.len() as int] == x);
                }
            }
        }
        assert(self@ =~= old(self)@.insert(reg@));
    }

    /// Remove `reg` from the set; the result tells whether it was there.
    pub fn remove(&mut self, reg: &String) -> (r: bool)
        ensures
            r == old(self)@.contains(reg@),
            final(self)@ == old(self)@.remove(reg@),
    {
        let ghost old_names = self.names_view();
        let mut kept: Vec<String> = Vec::new();
        let mut found = false;
        let mut i: usize = 0;
        while i < self.names.len()
            invariant
                i <= self.names.len(),
                old_names == self.names_view(),
                found == old_names.take(i as int).contains(reg@),
                forall|x: Seq<char>| #[trigger]
                    views_of(kept@).contains(x) <==> (old_names.take(
                        i as int,
                    ).contains(x) && x != reg@),
            decreases self.names.len() - i,
        {
            let ghost kv = views_of(kept@);
            let ghost pre = old_names.take(i as int);
            let ghost pre1 = old_names.take(i + 1);
            assert(pre1 =~= pre.push(old_names[i as int]));
            assert forall|x: Seq<char>| pre1.contains(x) <==> (pre.contains(x) || x
                == old_names[i as int]) by {
                if pre1.contains(x) {
                    let k = choose|k: int| 0 <= k < pre1.len() && pre1[k] == x;
                    if k < pre.len() {
                        assert(pre[k] == x);
                    }
                }
                if pre.contains(x) {
                    let k = choose|k: int| 0 <= k < pre.len() && pre[k] == x;
                    assert(pre1[k] == x);
                }
                if x == old_names[i as int] {
                    assert(pre1[i as int] == x);
                }
            }
            assert(old_names[i as int] == self.names@[i as int]@);
            if self.names[i].eq(reg) {
                found = true;
                assert forall|x: Seq<char>| #[trigger]
                    views_of(kept@).contains(x) <==> (pre1.contains(x) && x != reg@) by {
                    assert(kv.contains(x) <==> (pre.contains(x) && x != reg@));
                }
            } else {
                kept.push(self.names[i].clone());
                assert(views_of(kept@) =~= kv.push(old_names[i as int]));
                assert forall|x: Seq<char>| views_of(kept@).contains(x) <==> (
                kv.contains(x) || x == old_names[i as int]) by {
                    let kv1 = views_of(kept@);
                    if kv1.contains(x) {
                        let k = choose|k: int| 0 <= k < kv1.len() && kv1[k] == x;
                        if k < kv.len() {
                            assert(kv[k] == x);
                        }
                    }
                    if kv.contains(x) {
                        let k = choose|k: int| 0 <= k < kv.len() && kv[k] == x;
                        assert(kv1[k] == x);
                    }
                    if x == old_names[i as int] {
                        assert(kv1[kv.len() as int] == x);
                    }
                }
                assert forall|x: Seq<char>| #[trigger]
                    views_of(kept@).contains(x) <==> (pre1.contains(x) && x != reg@) by {
                    assert(kv.contains(x) <==> (pre.contains(x) && x != reg@));
                }
            }
            i += 1;
        }
        assert(old_names.take(i as int) =~= old_names);
        self.names = kept;
        assert(self@ =~= old(self)@.remove(reg@));
        found
    }
}

impl View for RegSet {
    type V = Set<Seq<char>>;

    closed spec fn view(&self) -> Set<Seq<char>> {
        Set::new(|x: Seq<char>| self.names_view().contains(x))
    }
}

} // verus!
