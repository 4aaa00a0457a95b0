//! The route table: source paths mapped to ordered destination lists.

use vstd::prelude::*;

verus! {

/// A route table: for each source path, the ordered destination base-URLs,
/// the first of them being the primary.
pub trait Config {
    /// The table as a map from source path to destination sequence.
    spec fn routes(&self) -> Map<Seq<char>, Seq<Seq<char>>>;

    /// The destinations configured for `source_addr`, if any.
    fn get_dests(&self, source_addr: &String) -> (r: Option<&Vec<String>>)
        ensures
            r is Some <==> self.routes().contains_key(source_addr@),
            r is Some ==> r->0.deep_view() == self.routes()[source_addr@],
    ;

    /// Sets the destinations of `source_addr`, replacing any earlier ones.
    fn add_dests(&mut self, source_addr: String, destinations: Vec<String>)
        ensures
            final(self).routes() == old(self).routes().insert(
                source_addr@,
                destinations.deep_view(),
            ),
    ;
}

/// The table after each `(path, destinations)` pair of `writes` has been
/// given to `add_dests` in turn, starting from `start`.
pub open spec fn after_writes(
    start: Map<Seq<char>, Seq<Seq<char>>>,
    writes: Seq<(Seq<char>, Seq<Seq<char>>)>,
) -> Map<Seq<char>, Seq<Seq<char>>>
    decreases writes.len(),
{
    if writes.len() == 0 {
        start
    } else {
        after_writes(start, writes.drop_last()).insert(writes.last().0, writes.last().1)
    }
}

/// After any sequence of writes, a path written to maps to the destinations
/// of its most recent write, unchanged.
pub proof fn lemma_last_write_wins(
    start: Map<Seq<char>, Seq<Seq<char>>>,
    writes: Seq<(Seq<char>, Seq<Seq<char>>)>,
    i: int,
)
    requires
        0 <= i < writes.len(),
        forall|j: int| i < j < writes.len() ==> (#[trigger] writes[j]).0 != writes[i].0,
    ensures
        after_writes(start, writes).contains_key(writes[i].0),
        after_writes(start, writes)[writes[i].0] == writes[i].1,
    decreases writes.len(),
{
    if i < writes.len() - 1 {
        let front = writes.drop_last();
        assert(front[i] == writes[i]);
        assert forall|j: int| i < j < front.len() implies (#[trigger] front[j]).0 != front[i].0 by {
            assert(front[j] == writes[j]);
        }
        lemma_last_write_wins(start, front, i);
        assert(writes[writes.len() - 1].0 != writes[i].0);
    }
}

/// A path that no write names keeps what it had at the start: absent from
/// a table that starts empty.
pub proof fn lemma_unwritten_path_unchanged(
    start: Map<Seq<char>, Seq<Seq<char>>>,
    writes: Seq<(Seq<char>, Seq<Seq<char>>)>,
    p: Seq<char>,
)
    requires
        forall|j: int| 0 <= j < writes.len() ==> (#[trigger] writes[j]).0 != p,
    ensures
        after_writes(start, writes).contains_key(p) == start.contains_key(p),
        start.contains_key(p) ==> after_writes(start, writes)[p] == start[p],
    decreases writes.len(),
{
    if writes.len() > 0 {
        let front = writes.drop_last();
        assert forall|j: int| 0 <= j < front.len() implies (#[trigger] front[j]).0 != p by {
            assert(front[j] == writes[j]);
        }
        lemma_unwritten_path_unchanged(start, front, p);
        assert(writes[writes.len() - 1].0 != p);
    }
}

/// A route table held as a list of entries; a later entry for a path
/// overrides an earlier one, and `add_dests` keeps one entry per path.
#[derive(Clone)]
pub struct HashMapConfig {
    entries: Vec<(String, Vec<String>)>,
}

/// The map that a list of entries stands for, later entries winning.
pub open spec fn entries_map(entries: Seq<(String, Vec<String>)>) -> Map<Seq<char>, Seq<Seq<char>>>
    decreases entries.len(),
{
    if entries.len() == 0 {
        Map::empty()
    } else {
        entries_map(entries.drop_last()).insert(
            entries.last().0@,
            entries.last().1.deep_view(),
        )
    }
}

/// Entries past `i` do not mention `key`, so the entries up to `i` decide it.
proof fn lemma_entries_map_prefix(entries: Seq<(String, Vec<String>)>, key: Seq<char>, i: int)
    requires
        0 <= i <= entries.len(),
        forall|j: int| i <= j < entries.len() ==> (#[trigger] entries[j]).0@ != key,
    ensures
        entries_map(entries).contains_key(key) == entries_map(entries.take(i)).contains_key(key),
        entries_map(entries)[key] == entries_map(entries.take(i))[key],
    decreases entries.len(),
{
    if entries.len() > i {
        let front = entries.drop_last();
        assert(front.take(i) == entries.take(i));
        assert forall|j: int| i <= j < front.len() implies (#[trigger] front[j]).0@ != key by {
            assert(front[j] == entries[j]);
        }
        lemma_entries_map_prefix(front, key, i);
    } else {
        assert(entries.take(i) == entries);
    }
}

/// Replacing the last entry for a path changes that path's destinations only.
proof fn lemma_entries_map_update(
    entries: Seq<(String, Vec<String>)>,
    p: int,
    e: (String, Vec<String>),
)
    requires
        0 <= p < entries.len(),
        e.0@ == entries[p].0@,
        forall|j: int| p < j < entries.len() ==> (#[trigger] entries[j]).0@ != e.0@,
    ensures
        entries_map(entries.update(p, e)) == entries_map(entries).insert(e.0@, e.1.deep_view()),
    decreases entries.len(),
{
    let updated = entries.update(p, e);
    if p == entries.len() - 1 {
        assert(updated.drop_last() == entries.drop_last());
        assert(entries_map(updated) =~= entries_map(entries).insert(e.0@, e.1.deep_view()));
    } else {
        let front = entries.drop_last();
        assert(updated.drop_last() == front.update(p, e));
        assert forall|j: int| p < j < front.len() implies (#[trigger] front[j]).0@ != e.0@ by {
            assert(front[j] == entries[j]);
        }
        lemma_entries_map_update(front, p, e);
        assert(entries.last().0@ != e.0@);
        assert(updated.last() == entries.last());
        assert(entries_map(updated) =~= entries_map(entries).insert(e.0@, e.1.deep_view()));
    }
}

impl HashMapConfig {
    /// An empty route table.
    pub fn new() -> (r: HashMapConfig)
        ensures
            r.routes() == Map::<Seq<char>, Seq<Seq<char>>>::empty(),
    {
        HashMapConfig { entries: Vec::new() }
    }

    /// The index of the last entry for `key`, if any.
    fn find_last(&self, key: &String) -> (r: Option<usize>)
        ensures
            r is None ==> !self.routes().contains_key(key@),
            r is Some ==> r->0 < self.entries@.len() && self.entries@[r->0 as int].0@ == key@,
            r is Some ==> forall|j: int|
                r->0 < j < self.entries@.len() ==> (#[trigger] self.entries@[j]).0@ != key@,
    {
        let mut i: usize = self.entries.len();
        while i > 0
            invariant
                i <= self.entries@.len(),
                forall|j: int| i <= j < self.entries@.len() ==> (#[trigger] self.entries@[j]).0@ != key@,
            decreases i,
        {
            if self.entries[i - 1].0 == *key {
                return Some(i - 1);
            }
            i -= 1;
        }
        proof {
            lemma_entries_map_prefix(self.entries@, key@, 0);
        }
        None
    }
}

impl Default for HashMapConfig {
    fn default() -> (r: HashMapConfig)
        ensures
            r.routes() == Map::<Seq<char>, Seq<Seq<char>>>::empty(),
    {
        HashMapConfig::new()
    }
}

impl Config for HashMapConfig {
    closed spec fn routes(&self) -> Map<Seq<char>, Seq<Seq<char>>> {
        entries_map(self.entries@)
    }

    fn get_dests(&self, source_addr: &String) -> (r: Option<&Vec<String>>) {
        match self.find_last(source_addr) {
            Some(p) => {
                proof {
                    lemma_entries_map_prefix(self.entries@, source_addr@, p + 1);
                    assert(self.entries@.take(p + 1).drop_last() == self.entries@.take(p as int));
                }
                Some(&self.entries[p].1)
            },
            None => None,
        }
    }

    fn add_dests(&mut self, source_addr: String, destinations: Vec<String>) {
        match self.find_last(&source_addr) {
            Some(p) => {
                proof {
                    lemma_entries_map_update(self.entries@, p as int, (source_addr, destinations));
                }
                self.entries.set(p, (source_addr, destinations));
            },
            None => {
                let ghost before = self.entries@;
                self.entries.push((source_addr, destinations));
                assert(self.entries@.drop_last() == before);
            },
        }
    }
}

} // verus!
