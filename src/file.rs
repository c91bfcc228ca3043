//! The schematic file: metadata and named regions.
use crate::region::{Coordinates, Region};
use vstd::prelude::*;

verus! {

/// Descriptive data of a schematic, carried as read.
#[derive(Debug, Clone)]
pub struct Metadata {
    pub author: String,
    pub enclosing_size: Coordinates,
    pub total_volume: i32,
    pub region_count: i32,
    pub description: String,
    pub name: String,
    pub time_modified: i64,
    pub total_blocks: i32,
    pub time_created: i64,
}

/// A schematic: metadata, format versions and regions under distinct names.
#[derive(Debug)]
pub struct LitematicaFile {
    pub metadata: Metadata,
    pub minecraft_data_version: i32,
    pub version: i32,
    regions: Vec<(String, Region)>,
}

/// `i` is an entry of the list named `k`.
pub open spec fn names_at(s: Seq<(String, Region)>, k: Seq<char>, i: int) -> bool {
    0 <= i < s.len() && s[i].0@ == k
}

/// No two entries of the list share a name.
pub open spec fn names_unique(s: Seq<(String, Region)>) -> bool {
    forall|i: int, j: int| 0 <= i < j < s.len() ==> s[i].0@ != s[j].0@
}

/// The map from name to region that a list with distinct names stands for.
pub open spec fn region_map(s: Seq<(String, Region)>) -> Map<Seq<char>, Region> {
    Map::new(
        |k: Seq<char>| exists|i: int| names_at(s, k, i),
        |k: Seq<char>| s[choose|i: int| names_at(s, k, i)].1,
    )
}

proof fn lemma_region_lookup(s: Seq<(String, Region)>, i: int)
    requires
        names_unique(s),
        0 <= i < s.len(),
    ensures
        region_map(s).contains_key(s[i].0@),
        region_map(s)[s[i].0@] == s[i].1,
{
    assert(names_at(s, s[i].0@, i));
    let c = choose|c: int| names_at(s, s[i].0@, c);
    assert(c == i);
}

proof fn lemma_region_replace(s: Seq<(String, Region)>, i: int)
    requires
        names_unique(s),
        0 <= i < s.len(),
    ensures
        forall|v: Region|
            names_unique(#[trigger] s.update(i, (s[i].0, v))) && region_map(s.update(i, (s[i].0, v)))
                == region_map(s).insert(s[i].0@, v),
{
    assert forall|v: Region|
        names_unique(#[trigger] s.update(i, (s[i].0, v))) && region_map(s.update(i, (s[i].0, v)))
            == region_map(s).insert(s[i].0@, v) by {
        let after = s.update(i, (s[i].0, v));
        let k0 = s[i].0@;
        assert forall|a: int, b: int| 0 <= a < b < after.len() implies after[a].0@ != after[b].0@ by {
            assert(after[a].0@ == s[a].0@);
            assert(after[b].0@ == s[b].0@);
        }
        assert forall|k: Seq<char>| #[trigger]
            region_map(after).contains_key(k) implies region_map(s).insert(k0, v).contains_key(k)
            && region_map(after)[k] == region_map(s).insert(k0, v)[k] by {
            let j = choose|j: int| names_at(after, k, j);
            lemma_region_lookup(after, j);
            if j != i {
                lemma_region_lookup(s, j);
            }
        }
        assert forall|k: Seq<char>| #[trigger]
            region_map(s).insert(k0, v).contains_key(k) implies region_map(after).contains_key(k) by {
            if k != k0 {
                let j = choose|j: int| names_at(s, k, j);
                assert(names_at(after, k, j));
            } else {
                assert(names_at(after, k, i));
            }
        }
        assert(region_map(after) =~= region_map(s).insert(k0, v));
    }
}

/// Whether `path` ends in the extension `.litematic`.
pub open spec fn has_litematic_extension(path: Seq<char>) -> bool {
    let ext = seq!['.', 'l', 'i', 't', 'e', 'm', 'a', 't', 'i', 'c'];
    path.len() >= ext.len() && path.subrange(path.len() - ext.len(), path.len() as int) == ext
}

/// Returns whether a file name ends in `.litematic`, the only extension
/// under which a schematic is written.
pub fn check_extension(path: &str) -> (r: bool)
    ensures
        r == has_litematic_extension(path@),
{
    let ext = ".litematic";
    proof {
        reveal_strlit(".litematic");
    }
    let n = path.unicode_len();
    let m = ext.unicode_len();
    if n < m {
        return false;
    }
    let mut i: usize = 0;
    while i < m
        invariant
            n == path@.len(),
            m == ext@.len(),
            m == 10,
            n >= m,
            i <= m,
            ext@ == seq!['.', 'l', 'i', 't', 'e', 'm', 'a', 't', 'i', 'c'],
            forall|j: int| 0 <= j < i ==> path@[n - m + j] == ext@[j],
        decreases m - i,
    {
        if path.get_char(n - m + i) != ext.get_char(i) {
            assert(path@.subrange(n - m, n as int)[i as int] != ext@[i as int]);
            return false;
        }
        i = i + 1;
    }
    assert(path@.subrange(n - m, n as int) =~= ext@);
    true
}

impl LitematicaFile {
    /// The regions, each under its name.
    pub closed spec fn regions_view(&self) -> Map<Seq<char>, Region> {
        region_map(self.regions@)
    }

    /// Metadata and format versions, which region operations leave alone.
    pub closed spec fn header(&self) -> (Metadata, i32, i32) {
        (self.metadata, self.minecraft_data_version, self.version)
    }

    /// The region names, in the file's order.
    pub closed spec fn names(&self) -> Seq<Seq<char>> {
        self.regions@.map_values(|e: (String, Region)| e.0@)
    }

    /// Names are distinct.
    pub closed spec fn wf(&self) -> bool {
        names_unique(self.regions@)
    }

    /// A file with no regions.
    pub fn new(metadata: Metadata, minecraft_data_version: i32, version: i32) -> (r: Self)
        ensures
            r.wf(),
            r.regions_view() == Map::<Seq<char>, Region>::empty(),
            r.header() == (metadata, minecraft_data_version, version),
    {
        let r = LitematicaFile { metadata, minecraft_data_version, version, regions: Vec::new() };
        assert(r.regions_view() =~= Map::<Seq<char>, Region>::empty());
        r
    }

    /// Returns the regions, each with its name, in the file's order.
    pub fn get_regions(&self) -> (r: &Vec<(String, Region)>)
        requires
            self.wf(),
        ensures
            names_unique(r@),
            region_map(r@) == self.regions_view(),
    {
        &self.regions
    }

    /// Returns the region names, in the file's order, each once.
    pub fn get_region_names(&self) -> (r: Vec<&str>)
        requires
            self.wf(),
        ensures
            r@.map_values(|s: &str| s@) == self.names(),
            forall|k: Seq<char>| self.regions_view().contains_key(k) <==> self.names().contains(k),
    {
        let mut r: Vec<&str> = Vec::new();
        let mut i: usize = 0;
        while i < self.regions.len()
            invariant
                i <= self.regions@.len(),
                r@.len() == i,
                forall|j: int| 0 <= j < i ==> #[trigger] r@[j]@ == self.regions@[j].0@,
            decreases self.regions@.len() - i,
        {
            r.push(self.regions[i].0.as_str());
            i = i + 1;
        }
        assert(r@.map_values(|s: &str| s@) =~= self.names());
        assert forall|k: Seq<char>| self.regions_view().contains_key(k) <==> self.names().contains(
            k,
        ) by {
            if self.regions_view().contains_key(k) {
                let j = choose|j: int| names_at(self.regions@, k, j);
                assert(self.names()[j] == k);
            }
            if self.names().contains(k) {
                let j = choose|j: int| 0 <= j < self.names().len() && self.names()[j] == k;
                assert(names_at(self.regions@, k, j));
            }
        }
        r
    }

    /// Returns the region named `name`, if there is one.
    pub fn get_region(&self, name: &str) -> (r: Option<&Region>)
        requires
            self.wf(),
        ensures
            r is Some <==> self.regions_view().contains_key(name@),
            r matches Some(region) ==> *region == self.regions_view()[name@],
    {
        match self.find_region(name) {
            Some(i) => {
                proof {
                    lemma_region_lookup(self.regions@, i as int);
                }
                Some(&self.regions[i].1)
            },
            None => None,
        }
    }

    /// Returns the region named `name` for editing, if there is one.
    pub fn get_region_mut(&mut self, name: &str) -> (r: Option<&mut Region>)
        requires
            old(self).wf(),
        ensures
            r is Some <==> old(self).regions_view().contains_key(name@),
            r matches Some(m) ==> *m == old(self).regions_view()[name@]
                && final(self).regions_view() == old(self).regions_view().insert(name@, *final(m))
                && final(self).wf() && final(self).header() == old(self).header(),
            r is None ==> *final(self) == *old(self),
    {
        match self.find_region(name) {
            Some(i) => {
                proof {
                    lemma_region_lookup(self.regions@, i as int);
                    lemma_region_replace(self.regions@, i as int);
                }
                Some(&mut self.regions[i].1)
            },
            None => None,
        }
    }

    /// Puts `region` under `name`, replacing a region of that name.
    pub fn insert_region(&mut self, name: String, region: Region)
        requires
            old(self).wf(),
        ensures
            final(self).wf(),
            final(self).regions_view() == old(self).regions_view().insert(name@, region),
            final(self).header() == old(self).header(),
    {
        let ghost before = self.regions@;
        let ghost k0 = name@;
        let ghost r0 = region;
        match self.find_region(name.as_str()) {
            Some(i) => {
                self.regions.set(i, (name, region));
                proof {
                    let after = self.regions@;
                    assert(after[i as int].0@ == k0);
                    assert(forall|j: int| 0 <= j < after.len() && j != i ==> after[j] == before[j]);
                    assert forall|a: int, b: int| 0 <= a < b < after.len() implies after[a].0@
                        != after[b].0@ by {
                        assert(after[a].0@ == before[a].0@);
                        assert(after[b].0@ == before[b].0@);
                    }
                    assert forall|k: Seq<char>| #[trigger]
                        region_map(after).contains_key(k) implies region_map(before).insert(
                        k0,
                        r0,
                    ).contains_key(k) && region_map(after)[k] == region_map(before).insert(k0, r0)[k] by {
                        let j = choose|j: int| names_at(after, k, j);
                        lemma_region_lookup(after, j);
                        if j != i {
                            lemma_region_lookup(before, j);
                        }
                    }
                    assert forall|k: Seq<char>| #[trigger]
                        region_map(before).insert(k0, r0).contains_key(k) implies region_map(
                        after,
                    ).contains_key(k) by {
                        if k != k0 {
                            let j = choose|j: int| names_at(before, k, j);
                            assert(names_at(after, k, j));
                        } else {
                            assert(names_at(after, k, i as int));
                        }
                    }
                    assert(region_map(after) =~= region_map(before).insert(k0, r0));
                }
            },
            None => {
                self.regions.push((name, region));
                proof {
                    let after = self.regions@;
                    let n = before.len() as int;
                    assert(after[n].0@ == k0);
                    assert(forall|j: int| 0 <= j < n ==> after[j] == before[j]);
                    assert(forall|j: int| 0 <= j < n ==> !names_at(before, k0, j));
                    assert forall|a: int, b: int| 0 <= a < b < after.len() implies after[a].0@
                        != after[b].0@ by {
                        assert(after[a] == before[a]);
                        if b < n {
                            assert(after[b] == before[b]);
                        } else {
                            assert(!names_at(before, k0, a));
                        }
                    }
                    assert forall|k: Seq<char>| #[trigger]
                        region_map(after).contains_key(k) implies region_map(before).insert(
                        k0,
                        r0,
                    ).contains_key(k) && region_map(after)[k] == region_map(before).insert(k0, r0)[k] by {
                        let j = choose|j: int| names_at(after, k, j);
                        lemma_region_lookup(after, j);
                        if j != n {
                            assert(names_at(before, k, j));
                            lemma_region_lookup(before, j);
                        }
                    }
                    assert forall|k: Seq<char>| #[trigger]
                        region_map(before).insert(k0, r0).contains_key(k) implies region_map(
                        after,
                    ).contains_key(k) by {
                        if k != k0 {
                            let j = choose|j: int| names_at(before, k, j);
                            assert(names_at(after, k, j));
                        } else {
                            assert(names_at(after, k, n));
                        }
                    }
                    assert(region_map(after) =~= region_map(before).insert(k0, r0));
                }
            },
        }
    }

    /// Takes out the region named `name`, if there is one.
    pub fn remove_region(&mut self, name: &str) -> (r: Option<Region>)
        requires
            old(self).wf(),
        ensures
            final(self).wf(),
            r is Some <==> old(self).regions_view().contains_key(name@),
            r matches Some(region) ==> region == old(self).regions_view()[name@],
            final(self).regions_view() == old(self).regions_view().remove(name@),
            final(self).header() == old(self).header(),
    {
        match self.find_region(name) {
            Some(i) => {
                let ghost before = self.regions@;
                proof {
                    lemma_region_lookup(before, i as int);
                }
                let (_, region) = self.regions.remove(i);
                proof {
                    let after = self.regions@;
                    assert(after =~= before.remove(i as int));
                    assert forall|k: Seq<char>| #[trigger]
                        region_map(after).contains_key(k) implies k != name@ && region_map(
                        before,
                    ).contains_key(k) && region_map(after)[k] == region_map(before)[k] by {
                        let j = choose|j: int| names_at(after, k, j);
                        let jb = if j < i {
                            j
                        } else {
                            j + 1
                        };
                        assert(before[jb] == after[j]);
                        lemma_region_lookup(after, j);
                        lemma_region_lookup(before, jb);
                    }
                    assert forall|k: Seq<char>|
                        #[trigger] region_map(before).contains_key(k) && k != name@ implies region_map(
                        after,
                    ).contains_key(k) by {
                        let j = choose|j: int| names_at(before, k, j);
                        assert(j != i);
                        let ja = if j < i {
                            j
                        } else {
                            j - 1
                        };
                        assert(names_at(after, k, ja));
                    }
                    assert(region_map(after) =~= region_map(before).remove(name@));
                }
                Some(region)
            },
            None => {
                assert(self.regions_view() =~= old(self).regions_view().remove(name@));
                None
            },
        }
    }

    /// Moves the region named `old_name` to `new_name`, replacing a region
    /// of that name; does nothing where there is no region `old_name`.
    pub fn rename_region(&mut self, old_name: &str, new_name: &str)
        requires
            old(self).wf(),
        ensures
            final(self).wf(),
            final(self).regions_view() == if old(self).regions_view().contains_key(old_name@) {
                old(self).regions_view().remove(old_name@).insert(
                    new_name@,
                    old(self).regions_view()[old_name@],
                )
            } else {
                old(self).regions_view()
            },
            final(self).header() == old(self).header(),
    {
        if let Some(region) = self.remove_region(old_name) {
            self.insert_region(new_name.to_owned(), region);
        }
    }

    /// The position of the entry named `name`, if any.
    fn find_region(&self, name: &str) -> (r: Option<usize>)
        ensures
            r matches Some(i) ==> names_at(self.regions@, name@, i as int),
            r is None ==> !exists|i: int| names_at(self.regions@, name@, i),
    {
        let wanted = name.to_owned();
        let mut i: usize = 0;
        while i < self.regions.len()
            invariant
                i <= self.regions@.len(),
                wanted@ == name@,
                forall|j: int| 0 <= j < i ==> self.regions@[j].0@ != name@,
            decreases self.regions@.len() - i,
        {
            if self.regions[i].0 == wanted {
                return Some(i);
            }
            i = i + 1;
        }
        None
    }
}

} // verus!
