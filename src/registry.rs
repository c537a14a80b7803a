use vstd::prelude::*;
use crate::combo::{KeyCombination, lemma_parse_text, parse_spec};
use crate::error::LauncherError;

verus! {

/// One key combination bound to one target path.
#[derive(Debug)]
pub struct Binding {
    pub combo: KeyCombination,
    pub target: String,
}

/// The target bound to each combination, last binding wins.
pub open spec fn map_of(bs: Seq<Binding>) -> Map<KeyCombination, Seq<char>>
    decreases bs.len(),
{
    if bs.len() == 0 {
        Map::empty()
    } else {
        map_of(bs.drop_last()).insert(bs.last().combo, bs.last().target@)
    }
}

/// No combination occurs twice.
pub open spec fn unique_combos(bs: Seq<Binding>) -> bool {
    forall|i: int, j: int|
        0 <= i < bs.len() && 0 <= j < bs.len() && i != j ==> bs[i].combo != bs[j].combo
}

/// Each binding as its persisted pair: the combination's text and the target.
pub open spec fn entries_of(bs: Seq<Binding>) -> Seq<(Seq<char>, Seq<char>)> {
    bs.map_values(|b: Binding| (b.combo.text(), b.target@))
}

pub open spec fn pairs_view(ps: Seq<(String, String)>) -> Seq<(Seq<char>, Seq<char>)> {
    ps.map_values(|p: (String, String)| (p.0@, p.1@))
}

pub open spec fn lookup(m: Map<KeyCombination, Seq<char>>, c: KeyCombination) -> Option<
    Seq<char>,
> {
    if m.contains_key(c) {
        Some(m[c])
    } else {
        None
    }
}

pub open spec fn opt_view(o: Option<String>) -> Option<Seq<char>> {
    match o {
        Some(s) => Some(s@),
        None => None,
    }
}

/// What a persisted list of pairs denotes: every combination text parses to a
/// bindable combination and none comes twice; `None` otherwise.
pub open spec fn decode_entries(ps: Seq<(Seq<char>, Seq<char>)>) -> Option<
    Map<KeyCombination, Seq<char>>,
>
    decreases ps.len(),
{
    if ps.len() == 0 {
        Some(Map::empty())
    } else {
        match decode_entries(ps.drop_last()) {
            None => None,
            Some(m) => match parse_spec(ps.last().0) {
                Some(c) => if c.is_bindable() && !m.contains_key(c) {
                    Some(m.insert(c, ps.last().1))
                } else {
                    None
                },
                None => None,
            },
        }
    }
}

proof fn lemma_absent(bs: Seq<Binding>, c: KeyCombination)
    requires
        forall|i: int| 0 <= i < bs.len() ==> bs[i].combo != c,
    ensures
        !map_of(bs).contains_key(c),
    decreases bs.len(),
{
    if bs.len() > 0 {
        lemma_absent(bs.drop_last(), c);
    }
}

proof fn lemma_at(bs: Seq<Binding>, i: int)
    requires
        unique_combos(bs),
        0 <= i < bs.len(),
    ensures
        map_of(bs).contains_key(bs[i].combo),
        map_of(bs)[bs[i].combo] == bs[i].target@,
    decreases bs.len(),
{
    if i < bs.len() - 1 {
        lemma_at(bs.drop_last(), i);
    }
}

proof fn lemma_remove(bs: Seq<Binding>, i: int)
    requires
        unique_combos(bs),
        0 <= i < bs.len(),
    ensures
        map_of(bs.remove(i)) == map_of(bs).remove(bs[i].combo),
    decreases bs.len(),
{
    let c = bs[i].combo;
    let d = bs.drop_last();
    if i == bs.len() - 1 {
        assert(bs.remove(i) =~= d);
        lemma_absent(d, c);
        assert(map_of(bs).remove(c) =~= map_of(d));
    } else {
        assert(bs.remove(i).drop_last() =~= d.remove(i));
        assert(bs.remove(i).last() == bs.last());
        lemma_remove(d, i);
        assert(bs.last().combo != c);
        assert(map_of(bs.remove(i)) =~= map_of(bs).remove(c));
    }
}

proof fn lemma_decode_entries(bs: Seq<Binding>)
    requires
        unique_combos(bs),
        forall|i: int| 0 <= i < bs.len() ==> (#[trigger] bs[i]).combo.is_bindable(),
    ensures
        decode_entries(entries_of(bs)) == Some(map_of(bs)),
    decreases bs.len(),
{
    if bs.len() > 0 {
        let d = bs.drop_last();
        assert(entries_of(bs).drop_last() =~= entries_of(d));
        lemma_decode_entries(d);
        let b = bs.last();
        lemma_parse_text(b.combo);
        assert forall|i: int| 0 <= i < d.len() implies d[i].combo != b.combo by {
            assert(d[i] == bs[i]);
        }
        lemma_absent(d, b.combo);
    }
}

proof fn lemma_decode_none(ps: Seq<(Seq<char>, Seq<char>)>, j: int)
    requires
        0 <= j <= ps.len(),
        decode_entries(ps.subrange(0, j)) is None,
    ensures
        decode_entries(ps) is None,
    decreases ps.len(),
{
    if j == ps.len() {
        assert(ps.subrange(0, j) =~= ps);
    } else {
        assert(ps.drop_last().subrange(0, j) =~= ps.subrange(0, j));
        lemma_decode_none(ps.drop_last(), j);
    }
}

proof fn lemma_contains_combo(bs: Seq<Binding>, c: KeyCombination)
    requires
        unique_combos(bs),
    ensures
        bs.map_values(|b: Binding| b.combo).contains(c) <==> map_of(bs).contains_key(c),
{
    let cs = bs.map_values(|b: Binding| b.combo);
    if cs.contains(c) {
        let i = choose|i: int| 0 <= i < cs.len() && cs[i] == c;
        lemma_at(bs, i);
    } else {
        assert forall|i: int| 0 <= i < bs.len() implies bs[i].combo != c by {
            assert(cs[i] == bs[i].combo);
        }
        lemma_absent(bs, c);
    }
}

/// Binding a combination twice keeps the second target only, and the
/// combination stays bound exactly once.
pub proof fn lemma_rebind(r0: &Registry, r1: &Registry, r2: &Registry, c: KeyCombination, t1: Seq<char>, t2: Seq<char>)
    requires
        r0.wf(),
        r1.wf(),
        r2.wf(),
        r1@ == r0@.insert(c, t1),
        r2@ == r1@.insert(c, t2),
    ensures
        lookup(r2@, c) == Some(t2),
        r2@ == r0@.insert(c, t2),
        r2.registrations().contains(c),
        r2.registrations().no_duplicates(),
{
    assert(r2@ =~= r0@.insert(c, t2));
    lemma_registrations(r2);
}

/// Each bound combination appears once in `registrations`, and nothing else does.
pub proof fn lemma_registrations(r: &Registry)
    requires
        r.wf(),
    ensures
        r.registrations().no_duplicates(),
        forall|c: KeyCombination| r.registrations().contains(c) <==> #[trigger] r@.contains_key(c),
{
    let cs = r.registrations();
    assert forall|i: int, j: int| 0 <= i < cs.len() && 0 <= j < cs.len() && i != j implies cs[i]
        != cs[j] by {
        assert(cs[i] == r.bindings@[i].combo);
        assert(cs[j] == r.bindings@[j].combo);
    }
    assert forall|c: KeyCombination| r.registrations().contains(c) <==> #[trigger] r@.contains_key(c) by {
        lemma_contains_combo(r.bindings@, c);
    }
}

/// The snapshot of a registry reads back as the same bindings.
pub proof fn lemma_snapshot_round_trip(r: &Registry)
    requires
        r.wf(),
    ensures
        decode_entries(r.entries()) == Some(r@),
{
    lemma_decode_entries(r.bindings@);
}

/// The bindings in memory: each bound combination is held once.
pub struct Registry {
    bindings: Vec<Binding>,
}

impl View for Registry {
    type V = Map<KeyCombination, Seq<char>>;

    closed spec fn view(&self) -> Map<KeyCombination, Seq<char>> {
        map_of(self.bindings@)
    }
}

impl Registry {
    pub closed spec fn wf(&self) -> bool {
        &&& unique_combos(self.bindings@)
        &&& forall|i: int|
            0 <= i < self.bindings@.len() ==> (#[trigger] self.bindings@[i]).combo.is_bindable()
    }

    /// The bound combinations, one entry each: a model of the operating-system
    /// registrations that a caller keeps in step with `register` and `unregister`.
    pub closed spec fn registrations(&self) -> Seq<KeyCombination> {
        self.bindings@.map_values(|b: Binding| b.combo)
    }

    /// The bindings as persisted pairs.
    pub closed spec fn entries(&self) -> Seq<(Seq<char>, Seq<char>)> {
        entries_of(self.bindings@)
    }

    /// An empty registry.
    pub fn new() -> (r: Registry)
        ensures
            r.wf(),
            r@ == Map::<KeyCombination, Seq<char>>::empty(),
    {
        Registry { bindings: Vec::new() }
    }

    /// Binds `combo` to `target`, replacing an earlier target of `combo`.
    /// `os_accepted` is the operating system's answer to the registration of
    /// `combo`, asked after the earlier registration of it was released.
    /// Returns the replaced target.
    pub fn register(&mut self, combo: KeyCombination, target: String, os_accepted: bool) -> (r:
        Result<Option<String>, LauncherError>)
        requires
            old(self).wf(),
        ensures
            final(self).wf(),
            !combo.is_bindable() ==> r == Err::<Option<String>, LauncherError>(
                LauncherError::InvalidCombination,
            ) && *final(self) == *old(self),
            combo.is_bindable() && !os_accepted ==> r == Err::<Option<String>, LauncherError>(
                LauncherError::AlreadyClaimed,
            ) && *final(self) == *old(self),
            combo.is_bindable() && os_accepted ==> (r matches Ok(p) && opt_view(p) == lookup(
                old(self)@,
                combo,
            ) && final(self)@ == old(self)@.insert(combo, target@)),
    {
        if let Err(e) = combo.check_bindable() {
            return Err(e);
        }
        if !os_accepted {
            return Err(LauncherError::AlreadyClaimed);
        }
        let ghost bs = self.bindings@;
        let previous = match self.find(&combo) {
            Some(i) => {
                proof {
                    lemma_at(bs, i as int);
                    lemma_remove(bs, i as int);
                }
                let b = self.bindings.remove(i);
                Some(b.target)
            },
            None => {
                proof {
                    lemma_absent(bs, combo);
                }
                None
            },
        };
        let ghost mid = self.bindings@;
        assert(map_of(mid) == map_of(bs).remove(combo));
        assert(unique_combos(mid));
        assert(forall|i: int| 0 <= i < mid.len() ==> mid[i].combo != combo) by {
            lemma_absent(mid, combo);
            assert forall|i: int| 0 <= i < mid.len() implies mid[i].combo != combo by {
                if mid[i].combo == combo {
                    lemma_at(mid, i);
                }
            }
        }
        self.bindings.push(Binding { combo, target });
        assert(self.bindings@.drop_last() =~= mid);
        assert(map_of(self.bindings@) =~= map_of(bs).insert(combo, target@));
        Ok(previous)
    }

    /// Removes the binding of `combo`, if any, and returns its target; the
    /// caller then releases the operating-system registration. Removing an
    /// unbound combination succeeds and changes nothing.
    pub fn unregister(&mut self, combo: &KeyCombination) -> (r: Option<String>)
        requires
            old(self).wf(),
        ensures
            final(self).wf(),
            final(self)@ == old(self)@.remove(*combo),
            opt_view(r) == lookup(old(self)@, *combo),
            !old(self)@.contains_key(*combo) ==> *final(self) == *old(self),
    {
        let ghost bs = self.bindings@;
        match self.find(combo) {
            Some(i) => {
                proof {
                    lemma_at(bs, i as int);
                    lemma_remove(bs, i as int);
                }
                let b = self.bindings.remove(i);
                assert(unique_combos(self.bindings@));
                Some(b.target)
            },
            None => {
                proof {
                    lemma_absent(bs, *combo);
                    assert(map_of(bs).remove(*combo) =~= map_of(bs));
                }
                None
            },
        }
    }

    /// The bindings as pairs of combination text and target, for the store.
    pub fn snapshot(&self) -> (r: Vec<(String, String)>)
        ensures
            pairs_view(r@) == self.entries(),
    {
        let mut out: Vec<(String, String)> = Vec::new();
        let mut i: usize = 0;
        while i < self.bindings.len()
            invariant
                i <= self.bindings@.len(),
                pairs_view(out@) == entries_of(self.bindings@.subrange(0, i as int)),
            decreases self.bindings@.len() - i,
        {
            let b = &self.bindings[i];
            let text = b.combo.serialize();
            let target = b.target.clone();
            let ghost before = out@;
            assert(text@ == b.combo.text() && target@ == b.target@);
            out.push((text, target));
            assert(out@ == before.push((text, target)));
            assert(pairs_view(out@) =~= pairs_view(before).push((b.combo.text(), b.target@)));
            assert(entries_of(self.bindings@.subrange(0, i + 1)) =~= entries_of(
                self.bindings@.subrange(0, i as int),
            ).push((b.combo.text(), b.target@)));
            i += 1;
        }
        assert(self.bindings@.subrange(0, i as int) =~= self.bindings@);
        out
    }

    /// Rebuilds a registry from stored pairs. Fails with `PersistenceFailure`
    /// where a combination text does not parse to a bindable combination, or
    /// where a combination comes twice.
    pub fn load(pairs: &Vec<(String, String)>) -> (r: Result<Registry, LauncherError>)
        ensures
            decode_entries(pairs_view(pairs@)) matches Some(m) ==> (r matches Ok(g) && g.wf()
                && g@ == m),
            decode_entries(pairs_view(pairs@)) is None ==> r == Err::<Registry, LauncherError>(
                LauncherError::PersistenceFailure,
            ),
    {
        let ghost ps = pairs_view(pairs@);
        let mut reg = Registry::new();
        let mut j: usize = 0;
        assert(ps.subrange(0, 0) =~= Seq::<(Seq<char>, Seq<char>)>::empty());
        while j < pairs.len()
            invariant
                ps == pairs_view(pairs@),
                j <= pairs@.len(),
                reg.wf(),
                decode_entries(ps.subrange(0, j as int)) == Some(reg@),
            decreases pairs@.len() - j,
        {
            let ghost pre = ps.subrange(0, j as int);
            assert(ps.subrange(0, j + 1).drop_last() =~= pre);
            assert(ps.subrange(0, j + 1).last() == ps[j as int]);
            let parsed = KeyCombination::parse(pairs[j].0.as_str());
            let combo = match parsed {
                Ok(c) => c,
                Err(_) => {
                    proof {
                        lemma_decode_none(ps, j + 1);
                    }
                    return Err(LauncherError::PersistenceFailure);
                },
            };
            if combo.check_bindable().is_err() {
                proof {
                    lemma_decode_none(ps, j + 1);
                }
                return Err(LauncherError::PersistenceFailure);
            }
            if reg.find(&combo).is_some() {
                proof {
                    lemma_contains_combo(reg.bindings@, combo);
                    assert(reg.bindings@.map_values(|b: Binding| b.combo).contains(combo)) by {
                        let i = choose|i: int| 0 <= i < reg.bindings@.len() && reg.bindings@[i].combo == combo;
                        assert(reg.bindings@.map_values(|b: Binding| b.combo)[i] == combo);
                    }
                    lemma_decode_none(ps, j + 1);
                }
                return Err(LauncherError::PersistenceFailure);
            }
            let ghost bs = reg.bindings@;
            proof {
                lemma_absent(bs, combo);
            }
            reg.bindings.push(Binding { combo, target: pairs[j].1.clone() });
            assert(reg.bindings@.drop_last() =~= bs);
            j += 1;
        }
        assert(ps.subrange(0, j as int) =~= ps);
        Ok(reg)
    }

    fn find(&self, combo: &KeyCombination) -> (r: Option<usize>)
        ensures
            r matches Some(i) ==> i < self.bindings@.len() && self.bindings@[i as int].combo
                == *combo,
            r is None ==> forall|i: int|
                0 <= i < self.bindings@.len() ==> self.bindings@[i].combo != *combo,
    {
        let mut i: usize = 0;
        while i < self.bindings.len()
            invariant
                i <= self.bindings@.len(),
                forall|k: int| 0 <= k < i ==> self.bindings@[k].combo != *combo,
            decreases self.bindings@.len() - i,
        {
            if self.bindings[i].combo == *combo {
                return Some(i);
            }
            i += 1;
        }
        None
    }

    /// The target bound to a combination, if any. No side effects.
    pub fn resolve(&self, combo: &KeyCombination) -> (r: Option<String>)
        requires
            self.wf(),
        ensures
            opt_view(r) == lookup(self@, *combo),
    {
        match self.find(combo) {
            Some(i) => {
                proof {
                    lemma_at(self.bindings@, i as int);
                }
                Some(self.bindings[i].target.clone())
            },
            None => {
                proof {
                    lemma_absent(self.bindings@, *combo);
                }
                None
            },
        }
    }
}

} // verus!
