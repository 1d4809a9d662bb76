//! A set of named patterns to look for in a range of a process's memory.
use vstd::prelude::*;
use crate::pattern::{parse_pattern, parse_pattern_text};

verus! {

/// Whether a search stops at the first match or reports them all.
pub enum ScanType {
    First,
    All,
}

/// A pattern to look for, with the way to search for it and the function
/// to call with what is found (`E`; for instance `fn(&[u8])`).
pub struct Pattern<E> {
    pattern: Vec<u8>,
    mask: Vec<u8>,
    scan_type: ScanType,
    event: E,
}

impl<E> Pattern<E> {
    /// Reads a pattern text (as `crate::Pattern::new` does), to be searched
    /// for in the way `scan_type` says, with `event` to be called on what is
    /// found.
    ///
    /// # Example
    /// 00 FF 0? F? ?? ?
    pub fn new(pattern: &str, scan_type: ScanType, event: E) -> (res: Option<Self>)
        ensures
            match res {
                Some(p) => {
                    &&& parse_pattern(pattern@) == Some((p.bytes(), p.masks()))
                    &&& p.scan_type() == scan_type
                    &&& p.event() == event
                },
                None => parse_pattern(pattern@) is None,
            },
    {
        match parse_pattern_text(pattern) {
            Some((bytes, mask)) => Some(Pattern { pattern: bytes, mask, scan_type, event }),
            None => None,
        }
    }

    /// The bytes of the pattern.
    pub closed spec fn bytes(&self) -> Seq<u8> {
        self.pattern@
    }

    /// The masks of the pattern's bytes.
    pub closed spec fn masks(&self) -> Seq<u8> {
        self.mask@
    }

    /// How the pattern is searched for.
    pub closed spec fn scan_type(&self) -> ScanType {
        self.scan_type
    }

    /// What is called on a match.
    pub closed spec fn event(&self) -> E {
        self.event
    }
}

/// Named patterns, to be looked for in `memory_range`. A name stands for
/// one pattern: adding a pattern under a name already used replaces it.
pub struct PatternScanner<E> {
    patterns: Vec<(String, Pattern<E>)>,
    memory_range: std::ops::Range<usize>,
}

/// The patterns of `entries` by name, later entries replacing earlier ones.
pub open spec fn pattern_map<E>(entries: Seq<(String, Pattern<E>)>) -> Map<Seq<char>, Pattern<E>>
    decreases entries.len(),
{
    if entries.len() == 0 {
        Map::empty()
    } else {
        pattern_map(entries.drop_last()).insert(entries.last().0@, entries.last().1)
    }
}

/// No two entries share a name.
pub open spec fn names_distinct<E>(entries: Seq<(String, Pattern<E>)>) -> bool {
    forall|i: int, j: int| 0 <= i < j < entries.len() ==> (#[trigger] entries[i]).0@ != (#[trigger] entries[j]).0@
}

/// With distinct names, replacing the entry named `n` is inserting into the map.
proof fn lemma_pattern_map_update<E>(entries: Seq<(String, Pattern<E>)>, i: int, e: (String, Pattern<E>))
    requires
        names_distinct(entries),
        0 <= i < entries.len(),
        entries[i].0@ == e.0@,
    ensures
        pattern_map(entries.update(i, e)) == pattern_map(entries).insert(e.0@, e.1),
    decreases entries.len(),
{
    let u = entries.update(i, e);
    assert(u.drop_last() == if i == entries.len() - 1 { entries.drop_last() } else { entries.drop_last().update(i, e) });
    if i < entries.len() - 1 {
        assert(names_distinct(entries.drop_last())) by {
            assert forall|a: int, b: int| 0 <= a < b < entries.drop_last().len() implies
                (#[trigger] entries.drop_last()[a]).0@ != (#[trigger] entries.drop_last()[b]).0@ by {
                assert(entries.drop_last()[a] == entries[a] && entries.drop_last()[b] == entries[b]);
            }
        }
        lemma_pattern_map_update(entries.drop_last(), i, e);
        assert(entries[i].0@ != entries[entries.len() - 1].0@);
        assert(u.last() == entries.last());
        assert(pattern_map(u) =~= pattern_map(entries).insert(e.0@, e.1));
    } else {
        assert(pattern_map(u) =~= pattern_map(entries).insert(e.0@, e.1));
    }
}

/// With distinct names, a name not among them is not in the map.
proof fn lemma_pattern_map_absent<E>(entries: Seq<(String, Pattern<E>)>, n: Seq<char>)
    requires
        forall|j: int| 0 <= j < entries.len() ==> (#[trigger] entries[j]).0@ != n,
    ensures
        !pattern_map(entries).contains_key(n),
    decreases entries.len(),
{
    if entries.len() > 0 {
        assert forall|j: int| 0 <= j < entries.drop_last().len() implies (#[trigger] entries.drop_last()[j]).0@ != n by {
            assert(entries.drop_last()[j] == entries[j]);
        }
        lemma_pattern_map_absent(entries.drop_last(), n);
    }
}

impl<E> PatternScanner<E> {
    #[verifier::type_invariant]
    spec fn names_are_distinct(self) -> bool {
        names_distinct(self.patterns@)
    }

    /// The patterns, by name.
    pub closed spec fn patterns(&self) -> Map<Seq<char>, Pattern<E>> {
        pattern_map(self.patterns@)
    }

    /// The range of addresses to search.
    pub closed spec fn range(&self) -> std::ops::Range<usize> {
        self.memory_range
    }

    /// A scanner of `memory_range` with no pattern yet.
    pub fn new(memory_range: std::ops::Range<usize>) -> (s: Self)
        ensures
            s.patterns() == Map::<Seq<char>, Pattern<E>>::empty(),
            s.range() == memory_range,
    {
        PatternScanner { patterns: Vec::new(), memory_range }
    }

    /// Adds `pattern` under `name`, in place of any pattern of that name.
    pub fn add_pattern(&mut self, name: String, pattern: Pattern<E>)
        ensures
            final(self).patterns() == old(self).patterns().insert(name@, pattern),
            final(self).range() == old(self).range(),
    {
        proof {
            use_type_invariant(&*self);
        }
        let mut i: usize = 0;
        while i < self.patterns.len()
            invariant
                i <= self.patterns@.len(),
                self.patterns@ == old(self).patterns@,
                self.memory_range == old(self).memory_range,
                names_distinct(self.patterns@),
                forall|j: int| 0 <= j < i ==> (#[trigger] self.patterns@[j]).0@ != name@,
            decreases self.patterns.len() - i,
        {
            if self.patterns[i].0 == name {
                let ghost old_entries = self.patterns@;
                proof {
                    lemma_pattern_map_update(old_entries, i as int, (name, pattern));
                }
                let mut entries: Vec<(String, Pattern<E>)> = Vec::new();
                std::mem::swap(&mut entries, &mut self.patterns);
                entries.set(i, (name, pattern));
                assert(names_distinct(entries@)) by {
                    assert forall|a: int, b: int| 0 <= a < b < entries@.len() implies
                        (#[trigger] entries@[a]).0@ != (#[trigger] entries@[b]).0@ by {
                        assert(old_entries[a].0@ != old_entries[b].0@);
                    }
                }
                self.patterns = entries;
                return;
            }
            i = i + 1;
        }
        let ghost old_entries = self.patterns@;
        proof {
            lemma_pattern_map_absent(old_entries, name@);
        }
        let mut entries: Vec<(String, Pattern<E>)> = Vec::new();
                std::mem::swap(&mut entries, &mut self.patterns);
        entries.push((name, pattern));
        assert(names_distinct(entries@)) by {
            assert forall|a: int, b: int| 0 <= a < b < entries@.len() implies
                (#[trigger] entries@[a]).0@ != (#[trigger] entries@[b]).0@ by {
                if b == entries@.len() - 1 {
                    assert(old_entries[a].0@ != name@);
                } else {
                    assert(old_entries[a].0@ != old_entries[b].0@);
                }
            }
        }
        assert(entries@.drop_last() == old_entries);
        self.patterns = entries;
    }
}

} // verus!
