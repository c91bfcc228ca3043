//! Block states: an identifier with a map of named properties.
use crate::resource_location::ResourceLocation;
use vstd::prelude::*;

verus! {

/// What a block state denotes: its identifier and its property map.
pub struct BlockStateView {
    pub name: (Seq<char>, Seq<char>),
    pub properties: Map<Seq<char>, Seq<char>>,
}

/// A block identifier with properties, each name mapped to a value.
///
/// Two block states are equal when their identifiers are equal and their
/// property maps hold the same pairs, in whatever order they were added.
#[derive(Debug, Clone)]
pub struct BlockState {
    name: ResourceLocation,
    properties: Vec<(String, String)>,
}

/// No two entries of the list share a name.
pub open spec fn keys_unique(s: Seq<(String, String)>) -> bool {
    forall|i: int, j: int| 0 <= i < j < s.len() ==> s[i].0@ != s[j].0@
}

/// `i` is an entry of the list named `k`.
pub open spec fn holds_key(s: Seq<(String, String)>, k: Seq<char>, i: int) -> bool {
    0 <= i < s.len() && s[i].0@ == k
}

/// The map that a list of `(name, value)` entries with distinct names stands for.
pub open spec fn props_map(s: Seq<(String, String)>) -> Map<Seq<char>, Seq<char>> {
    Map::new(
        |k: Seq<char>| exists|i: int| holds_key(s, k, i),
        |k: Seq<char>| s[choose|i: int| holds_key(s, k, i)].1@,
    )
}

/// An entry of `s` has the name and value of `e`.
pub open spec fn entry_in(s: Seq<(String, String)>, e: (String, String)) -> bool {
    exists|j: int| 0 <= j < s.len() && s[j].0@ == e.0@ && s[j].1@ == e.1@
}

/// The map after inserting each pair in turn, a later pair winning over an
/// earlier one with the same name.
pub open spec fn with_pairs(m: Map<Seq<char>, Seq<char>>, pairs: Seq<(&str, &str)>) -> Map<
    Seq<char>,
    Seq<char>,
>
    decreases pairs.len(),
{
    if pairs.len() == 0 {
        m
    } else {
        with_pairs(m, pairs.drop_last()).insert(pairs.last().0@, pairs.last().1@)
    }
}

proof fn lemma_props_lookup(s: Seq<(String, String)>, i: int)
    requires
        keys_unique(s),
        0 <= i < s.len(),
    ensures
        props_map(s).contains_key(s[i].0@),
        props_map(s)[s[i].0@] == s[i].1@,
{
    assert(holds_key(s, s[i].0@, i));
    let c = choose|c: int| holds_key(s, s[i].0@, c);
    assert(c == i);
}

impl View for BlockState {
    type V = BlockStateView;

    closed spec fn view(&self) -> BlockStateView {
        BlockStateView { name: self.name@, properties: props_map(self.properties@) }
    }
}

impl BlockState {
    /// The identifier is well formed and no property name repeats.
    pub closed spec fn wf(&self) -> bool {
        self.name.wf() && keys_unique(self.properties@)
    }

    /// A block state with the given identifier and no properties.
    pub fn from_name(name: ResourceLocation) -> (r: BlockState)
        requires
            name.wf(),
        ensures
            r.wf(),
            r@.name == name@,
            r@.properties == Map::<Seq<char>, Seq<char>>::empty(),
    {
        let r = BlockState { name, properties: Vec::new() };
        assert(r@.properties =~= Map::<Seq<char>, Seq<char>>::empty());
        r
    }

    /// Returns the identifier.
    pub fn get_name(&self) -> (r: &ResourceLocation)
        ensures
            r@ == self@.name,
            self.wf() ==> r.wf(),
    {
        &self.name
    }

    /// Returns the property entries, one per name, in no particular order.
    pub fn get_properties(&self) -> (r: &Vec<(String, String)>)
        requires
            self.wf(),
        ensures
            keys_unique(r@),
            props_map(r@) == self@.properties,
    {
        &self.properties
    }

    /// Returns the value of property `key`, if it is set.
    pub fn get_property(&self, key: &str) -> (r: Option<&String>)
        requires
            self.wf(),
        ensures
            r is Some <==> self@.properties.contains_key(key@),
            r matches Some(v) ==> v@ == self@.properties[key@],
    {
        match self.find_property(key) {
            Some(i) => {
                proof {
                    lemma_props_lookup(self.properties@, i as int);
                }
                Some(&self.properties[i].1)
            },
            None => None,
        }
    }

    /// Replaces the identifier.
    pub fn set_name(&mut self, name: ResourceLocation)
        requires
            old(self).wf(),
            name.wf(),
        ensures
            final(self).wf(),
            final(self)@.name == name@,
            final(self)@.properties == old(self)@.properties,
    {
        self.name = name;
    }

    /// Replaces all properties by `properties`, a later pair winning over an
    /// earlier one with the same name.
    pub fn set_properties(&mut self, properties: &[(&str, &str)])
        requires
            old(self).wf(),
        ensures
            final(self).wf(),
            final(self)@.name == old(self)@.name,
            final(self)@.properties == with_pairs(Map::empty(), properties@),
    {
        self.clear_properties();
        self.add_properties(properties);
    }

    /// Adds `properties`, overwriting those already set under the same name.
    pub fn add_properties(&mut self, properties: &[(&str, &str)])
        requires
            old(self).wf(),
        ensures
            final(self).wf(),
            final(self)@.name == old(self)@.name,
            final(self)@.properties == with_pairs(old(self)@.properties, properties@),
    {
        let mut i: usize = 0;
        while i < properties.len()
            invariant
                i <= properties@.len(),
                self.wf(),
                self@.name == old(self)@.name,
                self@.properties == with_pairs(old(self)@.properties, properties@.subrange(0, i as int)),
            decreases properties@.len() - i,
        {
            let (key, value) = properties[i];
            self.insert_property(key.to_owned(), value.to_owned());
            proof {
                let next = properties@.subrange(0, i + 1);
                assert(next.drop_last() =~= properties@.subrange(0, i as int));
            }
            i = i + 1;
        }
        assert(properties@.subrange(0, properties@.len() as int) =~= properties@);
    }

    /// Removes all properties.
    pub fn clear_properties(&mut self)
        requires
            old(self).wf(),
        ensures
            final(self).wf(),
            final(self)@.name == old(self)@.name,
            final(self)@.properties == Map::<Seq<char>, Seq<char>>::empty(),
    {
        self.properties = Vec::new();
        assert(self@.properties =~= Map::<Seq<char>, Seq<char>>::empty());
    }

    /// Removes property `property`, if it is set.
    pub fn remove_property(&mut self, property: &str)
        requires
            old(self).wf(),
        ensures
            final(self).wf(),
            final(self)@.name == old(self)@.name,
            final(self)@.properties == old(self)@.properties.remove(property@),
    {
        if let Some(i) = self.find_property(property) {
            let ghost before = self.properties@;
            self.properties.remove(i);
            proof {
                let after = self.properties@;
                assert(after =~= before.remove(i as int));
                assert forall|k: Seq<char>| #[trigger]
                    props_map(after).contains_key(k) implies k != property@ && props_map(
                    before,
                ).contains_key(k) && props_map(after)[k] == props_map(before)[k] by {
                    let j = choose|j: int| holds_key(after, k, j);
                    let jb = if j < i {
                        j
                    } else {
                        j + 1
                    };
                    assert(before[jb] == after[j]);
                    lemma_props_lookup(after, j);
                    lemma_props_lookup(before, jb);
                }
                assert forall|k: Seq<char>|
                    #[trigger] props_map(before).contains_key(k) && k != property@ implies props_map(
                    after,
                ).contains_key(k) by {
                    let j = choose|j: int| holds_key(before, k, j);
                    assert(j != i);
                    let ja = if j < i {
                        j
                    } else {
                        j - 1
                    };
                    assert(holds_key(after, k, ja));
                }
                assert(props_map(after) =~= props_map(before).remove(property@));
            }
        } else {
            assert(self@.properties =~= old(self)@.properties.remove(property@));
        }
    }

    /// Sets property `key` to `value`, in place where it is set already.
    fn insert_property(&mut self, key: String, value: String)
        requires
            old(self).wf(),
        ensures
            final(self).wf(),
            final(self)@.name == old(self)@.name,
            final(self)@.properties == old(self)@.properties.insert(key@, value@),
    {
        let ghost before = self.properties@;
        let ghost k0 = key@;
        let ghost v0 = value@;
        match self.find_property(key.as_str()) {
            Some(i) => {
                self.properties.set(i, (key, value));
                proof {
                    let after = self.properties@;
                    assert(after[i as int].0@ == k0);
                    assert(forall|j: int| 0 <= j < after.len() && j != i ==> after[j] == before[j]);
                    assert forall|a: int, b: int| 0 <= a < b < after.len() implies after[a].0@
                        != after[b].0@ by {
                        assert(after[a].0@ == before[a].0@);
                        assert(after[b].0@ == before[b].0@);
                    }
                    assert forall|k: Seq<char>| #[trigger]
                        props_map(after).contains_key(k) implies props_map(before).insert(
                        k0,
                        v0,
                    ).contains_key(k) && props_map(after)[k] == props_map(before).insert(k0, v0)[k] by {
                        let j = choose|j: int| holds_key(after, k, j);
                        lemma_props_lookup(after, j);
                        if j != i {
                            lemma_props_lookup(before, j);
                        }
                    }
                    assert forall|k: Seq<char>| #[trigger]
                        props_map(before).insert(k0, v0).contains_key(k) implies props_map(
                        after,
                    ).contains_key(k) by {
                        if k != k0 {
                            let j = choose|j: int| holds_key(before, k, j);
                            assert(holds_key(after, k, j));
                        } else {
                            assert(holds_key(after, k, i as int));
                        }
                    }
                    assert(props_map(after) =~= props_map(before).insert(k0, v0));
                }
            },
            None => {
                self.properties.push((key, value));
                proof {
                    let after = self.properties@;
                    let n = before.len() as int;
                    assert(after[n].0@ == k0);
                    assert(forall|j: int| 0 <= j < n ==> after[j] == before[j]);
                    assert(forall|j: int| 0 <= j < n ==> !holds_key(before, k0, j));
                    assert forall|a: int, b: int| 0 <= a < b < after.len() implies after[a].0@
                        != after[b].0@ by {
                        assert(after[a] == before[a]);
                        if b < n {
                            assert(after[b] == before[b]);
                        } else {
                            assert(!holds_key(before, k0, a));
                        }
                    }
                    assert forall|k: Seq<char>| #[trigger]
                        props_map(after).contains_key(k) implies props_map(before).insert(
                        k0,
                        v0,
                    ).contains_key(k) && props_map(after)[k] == props_map(before).insert(k0, v0)[k] by {
                        let j = choose|j: int| holds_key(after, k, j);
                        lemma_props_lookup(after, j);
                        if j != n {
                            assert(holds_key(before, k, j));
                            lemma_props_lookup(before, j);
                        }
                    }
                    assert forall|k: Seq<char>| #[trigger]
                        props_map(before).insert(k0, v0).contains_key(k) implies props_map(
                        after,
                    ).contains_key(k) by {
                        if k != k0 {
                            let j = choose|j: int| holds_key(before, k, j);
                            assert(holds_key(after, k, j));
                        } else {
                            assert(holds_key(after, k, n));
                        }
                    }
                    assert(props_map(after) =~= props_map(before).insert(k0, v0));
                }
            },
        }
    }

    /// Whether two states are equal: the same identifier and the same
    /// property map.
    pub fn same_state(&self, other: &BlockState) -> (r: bool)
        requires
            self.wf(),
            other.wf(),
        ensures
            r == (self@ == other@),
    {
        if !self.name.same_as(&other.name) {
            return false;
        }
        let covered = Self::covers(&self.properties, &other.properties);
        let covered_back = Self::covers(&other.properties, &self.properties);
        proof {
            let a = self.properties@;
            let b = other.properties@;
            if covered && covered_back {
                assert forall|k: Seq<char>| #[trigger]
                    props_map(a).contains_key(k) implies props_map(b).contains_key(k)
                    && props_map(a)[k] == props_map(b)[k] by {
                    let i = choose|i: int| holds_key(a, k, i);
                    assert(entry_in(b, a[i]));
                    let j = choose|j: int|
                        0 <= j < b.len() && b[j].0@ == a[i].0@ && b[j].1@ == a[i].1@;
                    lemma_props_lookup(a, i);
                    lemma_props_lookup(b, j);
                }
                assert forall|k: Seq<char>| #[trigger]
                    props_map(b).contains_key(k) implies props_map(a).contains_key(k) by {
                    let j = choose|j: int| holds_key(b, k, j);
                    assert(entry_in(a, b[j]));
                    let i = choose|i: int|
                        0 <= i < a.len() && a[i].0@ == b[j].0@ && a[i].1@ == b[j].1@;
                    assert(holds_key(a, k, i));
                }
                assert(props_map(a) =~= props_map(b));
            } else if !covered {
                let i = choose|i: int| 0 <= i < a.len() && !entry_in(b, #[trigger] a[i]);
                lemma_props_lookup(a, i);
                if props_map(b).contains_key(a[i].0@) {
                    let j = choose|j: int| holds_key(b, a[i].0@, j);
                    lemma_props_lookup(b, j);
                }
            } else {
                let j = choose|j: int| 0 <= j < b.len() && !entry_in(a, #[trigger] b[j]);
                lemma_props_lookup(b, j);
                if props_map(a).contains_key(b[j].0@) {
                    let i = choose|i: int| holds_key(a, b[j].0@, i);
                    lemma_props_lookup(a, i);
                }
            }
        }
        covered && covered_back
    }

    /// Whether every entry of `a` occurs in `b`, name and value.
    fn covers(a: &Vec<(String, String)>, b: &Vec<(String, String)>) -> (r: bool)
        ensures
            r == forall|i: int| 0 <= i < a@.len() ==> entry_in(b@, #[trigger] a@[i]),
    {
        let mut i: usize = 0;
        while i < a.len()
            invariant
                i <= a@.len(),
                forall|i2: int| 0 <= i2 < i ==> entry_in(b@, #[trigger] a@[i2]),
            decreases a@.len() - i,
        {
            let mut j: usize = 0;
            let mut found = false;
            while j < b.len() && !found
                invariant
                    j <= b@.len(),
                    i < a@.len(),
                    found ==> b@[j - 1].0@ == a@[i as int].0@ && b@[j - 1].1@ == a@[i as int].1@,
                    found ==> j > 0,
                    !found ==> forall|j2: int|
                        0 <= j2 < j ==> !(b@[j2].0@ == a@[i as int].0@ && b@[j2].1@ == a@[i as int].1@),
                decreases b@.len() - j,
            {
                found = b[j].0 == a[i].0 && b[j].1 == a[i].1;
                j = j + 1;
            }
            if !found {
                assert(!entry_in(b@, a@[i as int]));
                return false;
            }
            i = i + 1;
        }
        true
    }

    /// The position of the entry named `key`, if any.
    fn find_property(&self, key: &str) -> (r: Option<usize>)
        ensures
            r matches Some(i) ==> holds_key(self.properties@, key@, i as int),
            r is None ==> !exists|i: int| holds_key(self.properties@, key@, i),
    {
        let wanted = key.to_owned();
        let mut i: usize = 0;
        while i < self.properties.len()
            invariant
                i <= self.properties@.len(),
                wanted@ == key@,
                forall|j: int| 0 <= j < i ==> self.properties@[j].0@ != key@,
            decreases self.properties@.len() - i,
        {
            if self.properties[i].0 == wanted {
                return Some(i);
            }
            i = i + 1;
        }
        None
    }
}


/// Builds a [`BlockState`] from an identifier and properties.
#[derive(Debug)]
pub struct BlockStateBuilder {
    state: BlockState,
}

impl BlockStateBuilder {
    /// The state that `build` returns.
    pub closed spec fn state(&self) -> BlockState {
        self.state
    }

    /// Starts a block state with the identifier `name` and no properties.
    pub fn new(name: ResourceLocation) -> (r: Self)
        requires
            name.wf(),
        ensures
            r.state().wf(),
            r.state()@.name == name@,
            r.state()@.properties == Map::<Seq<char>, Seq<char>>::empty(),
    {
        BlockStateBuilder { state: BlockState::from_name(name) }
    }

    /// Adds `properties`, a later pair winning over an earlier one with the
    /// same name.
    pub fn properties(self, properties: &[(&str, &str)]) -> (r: Self)
        requires
            self.state().wf(),
        ensures
            r.state().wf(),
            r.state()@.name == self.state()@.name,
            r.state()@.properties == with_pairs(self.state()@.properties, properties@),
    {
        let mut state = self.state;
        state.add_properties(properties);
        BlockStateBuilder { state }
    }

    /// Returns the block state.
    pub fn build(self) -> (r: BlockState)
        ensures
            r == self.state(),
    {
        self.state
    }
}

/// Something that decides whether a block state matches.
pub trait BlockStatePattern {
    /// `matches` may be called on `state`.
    spec fn answers(&self, state: BlockState) -> bool;

    /// `r` is an answer that `matches` may give on `state`.
    spec fn outcome(&self, state: BlockState, r: bool) -> bool;

    /// Whether `state` matches the pattern.
    fn matches(&self, state: &BlockState) -> (r: bool)
        requires
            self.answers(*state),
        ensures
            self.outcome(*state, r),
    ;
}

/// A block state matches exactly the states equal to it.
impl BlockStatePattern for BlockState {
    open spec fn answers(&self, state: BlockState) -> bool {
        self.wf() && state.wf()
    }

    open spec fn outcome(&self, state: BlockState, r: bool) -> bool {
        r == (self@ == state@)
    }

    fn matches(&self, state: &BlockState) -> (r: bool) {
        self.same_state(state)
    }
}

/// A predicate matches the states on which it returns `true`.
impl<F: Fn(&BlockState) -> bool> BlockStatePattern for F {
    open spec fn answers(&self, state: BlockState) -> bool {
        self.requires((&state,))
    }

    open spec fn outcome(&self, state: BlockState, r: bool) -> bool {
        self.ensures((&state,), r)
    }

    fn matches(&self, state: &BlockState) -> (r: bool) {
        self(state)
    }
}

} // verus!
