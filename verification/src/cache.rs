//! Which templates have been minified, and where their output went: the
//! bookkeeping that lets a template shared by several parents be minified
//! once.

use vstd::prelude::*;
use crate::options::str_eq;

verus! {

/// No key occurs twice among `entries`.
pub open spec fn keys_distinct(entries: Seq<(String, String)>) -> bool {
    forall|i: int, j: int|
        0 <= i < j < entries.len() ==> (#[trigger] entries[i]).0@ != (#[trigger] entries[j]).0@
}

/// The map that the key-value pairs `entries` stand for.
pub open spec fn entries_map(entries: Seq<(String, String)>) -> Map<Seq<char>, Seq<char>> {
    Map::new(
        |k: Seq<char>| exists|i: int| 0 <= i < entries.len() && #[trigger] entries[i].0@ == k,
        |k: Seq<char>| {
            let i = choose|i: int| 0 <= i < entries.len() && #[trigger] entries[i].0@ == k;
            entries[i].1@
        },
    )
}

/// With distinct keys, the map holds each pair's value at its key.
proof fn lemma_entries_map_at(entries: Seq<(String, String)>, i: int)
    requires
        keys_distinct(entries),
        0 <= i < entries.len(),
    ensures
        entries_map(entries).contains_key(entries[i].0@),
        entries_map(entries)[entries[i].0@] == entries[i].1@,
{
    let k = entries[i].0@;
    assert(entries_map(entries).contains_key(k));
    let j = choose|j: int| 0 <= j < entries.len() && #[trigger] entries[j].0@ == k;
    if j < i {
        assert(entries[j].0@ != entries[i].0@);
    } else if i < j {
        assert(entries[i].0@ != entries[j].0@);
    }
}

/// Replacing or appending the pair for `key` updates the map at `key` only.
proof fn lemma_entries_map_put(before: Seq<(String, String)>, after: Seq<(String, String)>, key: Seq<char>, value: Seq<char>)
    requires
        keys_distinct(before),
        keys_distinct(after),
        exists|i: int| 0 <= i < after.len() && #[trigger] after[i].0@ == key && after[i].1@ == value,
        forall|k: Seq<char>| k != key ==> (entries_map(before).contains_key(k) <==> #[trigger] entries_map(after).contains_key(k)),
        forall|i: int| 0 <= i < before.len() && (#[trigger] before[i]).0@ != key ==> exists|j: int|
            0 <= j < after.len() && #[trigger] after[j] == before[i],
    ensures
        entries_map(after) == entries_map(before).insert(key, value),
{
    let nv = entries_map(before).insert(key, value);
    let i0 = choose|i: int| 0 <= i < after.len() && #[trigger] after[i].0@ == key && after[i].1@ == value;
    lemma_entries_map_at(after, i0);
    assert forall|k: Seq<char>| #[trigger] entries_map(after).contains_key(k) == nv.contains_key(k) by {}
    assert forall|k: Seq<char>| entries_map(after).contains_key(k) implies #[trigger] entries_map(after)[k] == nv[k] by {
        if k != key {
            let i = choose|i: int| 0 <= i < before.len() && #[trigger] before[i].0@ == k;
            lemma_entries_map_at(before, i);
            let j = choose|j: int| 0 <= j < after.len() && #[trigger] after[j] == before[i];
            lemma_entries_map_at(after, j);
        }
    }
    assert(entries_map(after) =~= nv);
}

/// A map from template paths to the paths of their minified output.
pub struct PathCache {
    entries: Vec<(String, String)>,
}

impl PathCache {
    /// No key occurs twice.
    pub closed spec fn wf(&self) -> bool {
        keys_distinct(self.entries@)
    }

    /// The cache as a map from template path to output path.
    pub closed spec fn view(&self) -> Map<Seq<char>, Seq<char>> {
        entries_map(self.entries@)
    }

    /// An empty cache.
    pub fn new() -> (r: Self)
        ensures
            r.wf(),
            r.view() == Map::<Seq<char>, Seq<char>>::empty(),
    {
        let r = PathCache { entries: Vec::new() };
        assert(r.view() =~= Map::<Seq<char>, Seq<char>>::empty());
        r
    }

    /// Where the entry for `key` sits, if there is one.
    fn position(&self, key: &str) -> (r: Option<usize>)
        ensures
            r matches Some(i) ==> i < self.entries@.len() && self.entries@[i as int].0@ == key@,
            r is None ==> forall|i: int| 0 <= i < self.entries@.len() ==> (#[trigger] self.entries@[i]).0@ != key@,
    {
        let mut i: usize = 0;
        while i < self.entries.len()
            invariant
                i <= self.entries@.len(),
                forall|k: int| 0 <= k < i ==> (#[trigger] self.entries@[k]).0@ != key@,
            decreases self.entries@.len() - i,
        {
            if str_eq(self.entries[i].0.as_str(), key) {
                return Some(i);
            }
            i = i + 1;
        }
        None
    }

    /// The output path recorded for `key`.
    pub fn get(&self, key: &str) -> (r: Option<String>)
        requires
            self.wf(),
        ensures
            r is Some <==> self.view().contains_key(key@),
            r matches Some(v) ==> v@ == self.view()[key@],
    {
        match self.position(key) {
            Some(i) => {
                proof {
                    lemma_entries_map_at(self.entries@, i as int);
                }
                Some(self.entries[i].1.clone())
            },
            None => None,
        }
    }

    /// Records `value` as the output path of `key`, replacing any earlier
    /// record of it.
    pub fn insert(&mut self, key: String, value: String)
        requires
            old(self).wf(),
        ensures
            final(self).wf(),
            final(self).view() == old(self).view().insert(key@, value@),
    {
        let ghost before = self.entries@;
        let ghost (k, v) = (key@, value@);
        match self.position(key.as_str()) {
            Some(i) => {
                self.entries.set(i, (key, value));
                proof {
                    let after = self.entries@;
                    assert forall|a: int, b: int|
                        0 <= a < b < after.len() implies (#[trigger] after[a]).0@ != (#[trigger] after[b]).0@ by {
                        assert(before[a].0@ != before[b].0@);
                    }
                    assert(after[i as int].0@ == k && after[i as int].1@ == v);
                    assert forall|kk: Seq<char>| kk != k implies (entries_map(before).contains_key(kk) <==> #[trigger] entries_map(after).contains_key(kk)) by {
                        if entries_map(before).contains_key(kk) {
                            let j = choose|j: int| 0 <= j < before.len() && #[trigger] before[j].0@ == kk;
                            assert(after[j] == before[j]);
                        }
                        if entries_map(after).contains_key(kk) {
                            let j = choose|j: int| 0 <= j < after.len() && #[trigger] after[j].0@ == kk;
                            assert(after[j] == before[j]);
                        }
                    }
                    assert forall|a: int| 0 <= a < before.len() && (#[trigger] before[a]).0@ != k implies exists|j: int|
                        0 <= j < after.len() && #[trigger] after[j] == before[a] by {
                        assert(after[a] == before[a]);
                    }
                    lemma_entries_map_put(before, after, k, v);
                }
            },
            None => {
                self.entries.push((key, value));
                proof {
                    let after = self.entries@;
                    let n = before.len() as int;
                    assert forall|a: int, b: int|
                        0 <= a < b < after.len() implies (#[trigger] after[a]).0@ != (#[trigger] after[b]).0@ by {
                        assert(after[a] == before[a]);
                        if b < n {
                            assert(after[b] == before[b]);
                        }
                    }
                    assert(after[n].0@ == k && after[n].1@ == v);
                    assert forall|kk: Seq<char>| kk != k implies (entries_map(before).contains_key(kk) <==> #[trigger] entries_map(after).contains_key(kk)) by {
                        if entries_map(before).contains_key(kk) {
                            let j = choose|j: int| 0 <= j < before.len() && #[trigger] before[j].0@ == kk;
                            assert(after[j] == before[j]);
                        }
                        if entries_map(after).contains_key(kk) {
                            let j = choose|j: int| 0 <= j < after.len() && #[trigger] after[j].0@ == kk;
                            assert(after[j] == before[j]);
                        }
                    }
                    assert forall|a: int| 0 <= a < before.len() && (#[trigger] before[a]).0@ != k implies exists|j: int|
                        0 <= j < after.len() && #[trigger] after[j] == before[a] by {
                        assert(after[a] == before[a]);
                    }
                    lemma_entries_map_put(before, after, k, v);
                }
            },
        }
    }
}

/// A set of template paths.
pub struct PathSet {
    items: Vec<String>,
}

impl PathSet {
    /// The set of paths held.
    pub closed spec fn view(&self) -> Set<Seq<char>> {
        Set::new(|k: Seq<char>| exists|i: int| 0 <= i < self.items@.len() && #[trigger] self.items@[i]@ == k)
    }

    /// An empty set.
    pub fn new() -> (r: Self)
        ensures
            r.view() == Set::<Seq<char>>::empty(),
    {
        let r = PathSet { items: Vec::new() };
        assert(r.view() =~= Set::<Seq<char>>::empty());
        r
    }

    /// Whether `item` is in the set.
    pub fn contains(&self, item: &str) -> (r: bool)
        ensures
            r == self.view().contains(item@),
    {
        let mut i: usize = 0;
        while i < self.items.len()
            invariant
                i <= self.items@.len(),
                forall|k: int| 0 <= k < i ==> (#[trigger] self.items@[k])@ != item@,
            decreases self.items@.len() - i,
        {
            if str_eq(self.items[i].as_str(), item) {
                assert(self.items@[i as int]@ == item@);
                return true;
            }
            i = i + 1;
        }
        false
    }

    /// Adds `item`; `true` when it was not in the set before.
    pub fn insert(&mut self, item: String) -> (r: bool)
        ensures
            final(self).view() == old(self).view().insert(item@),
            r == !old(self).view().contains(item@),
    {
        if self.contains(item.as_str()) {
            assert(self.view().insert(item@) =~= self.view());
            false
        } else {
            let ghost before = self.items@;
            let ghost v = item@;
            self.items.push(item);
            proof {
                let after = self.items@;
                assert forall|k: Seq<char>| #[trigger] self.view().contains(k) == old(self).view().insert(v).contains(k) by {
                    if old(self).view().contains(k) {
                        let j = choose|j: int| 0 <= j < before.len() && #[trigger] before[j]@ == k;
                        assert(after[j] == before[j]);
                    }
                    if self.view().contains(k) && k != v {
                        let j = choose|j: int| 0 <= j < after.len() && #[trigger] after[j]@ == k;
                        assert(after[j] == before[j]);
                    }
                    if k == v {
                        assert(after[before.len() as int]@ == v);
                    }
                }
                assert(self.view() =~= old(self).view().insert(v));
            }
            true
        }
    }
}

/// What becomes of a template when it is reached again.
pub enum CacheDecision {
    /// Already handled while compiling the current template.
    AlreadyProcessed,
    /// Minified by an earlier compilation; its output is at this path.
    Cached(String),
    /// Not seen yet: minify it.
    Minify,
}

/// A `CacheDecision` with its path taken as characters.
pub enum CacheDecisionView {
    AlreadyProcessed,
    Cached(Seq<char>),
    Minify,
}

impl View for CacheDecision {
    type V = CacheDecisionView;

    open spec fn view(&self) -> CacheDecisionView {
        match self {
            CacheDecision::AlreadyProcessed => CacheDecisionView::AlreadyProcessed,
            CacheDecision::Cached(p) => CacheDecisionView::Cached(p@),
            CacheDecision::Minify => CacheDecisionView::Minify,
        }
    }
}

/// The decision for the template at `canonical`, given the templates
/// handled in this compilation and the outputs of earlier ones.
pub open spec fn cache_decision(
    processed: Set<Seq<char>>,
    cache: Map<Seq<char>, Seq<char>>,
    canonical: Seq<char>,
) -> CacheDecisionView {
    if processed.contains(canonical) {
        CacheDecisionView::AlreadyProcessed
    } else if cache.contains_key(canonical) {
        CacheDecisionView::Cached(cache[canonical])
    } else {
        CacheDecisionView::Minify
    }
}

/// What to do with the template at `canonical`: nothing if this compilation
/// handled it already, reuse an earlier compilation's output if there is
/// one, else minify it.
pub fn template_cache_decision(processed: &PathSet, cache: &PathCache, canonical: &str) -> (r: CacheDecision)
    requires
        cache.wf(),
    ensures
        r@ == cache_decision(processed.view(), cache.view(), canonical@),
{
    if processed.contains(canonical) {
        CacheDecision::AlreadyProcessed
    } else {
        match cache.get(canonical) {
            Some(out) => CacheDecision::Cached(out),
            None => CacheDecision::Minify,
        }
    }
}

/// Reaching the template at `canonical`: the decision of
/// `template_cache_decision`, with `canonical` recorded as handled in this
/// compilation.
pub fn visit_template(processed: &mut PathSet, cache: &PathCache, canonical: String) -> (r: CacheDecision)
    requires
        cache.wf(),
    ensures
        r@ == cache_decision(old(processed).view(), cache.view(), canonical@),
        final(processed).view() == old(processed).view().insert(canonical@),
{
    let r = template_cache_decision(processed, cache, canonical.as_str());
    processed.insert(canonical);
    r
}

/// A template reached once in a compilation is skipped whenever it is
/// reached again in that compilation, whatever the recorded outputs.
pub proof fn lemma_visited_template_skipped(
    processed: Set<Seq<char>>,
    cache: Map<Seq<char>, Seq<char>>,
    canonical: Seq<char>,
)
    ensures
        cache_decision(processed.insert(canonical), cache, canonical) == CacheDecisionView::AlreadyProcessed,
{
}

/// Once a template's output is recorded, reaching it again never minifies
/// it a second time: within the same compilation it is skipped, and a later
/// compilation (with nothing processed yet) reuses the recorded output.
pub proof fn lemma_recorded_template_not_minified_again(
    processed: Set<Seq<char>>,
    cache: Map<Seq<char>, Seq<char>>,
    canonical: Seq<char>,
    output: Seq<char>,
)
    ensures
        cache_decision(processed.insert(canonical), cache.insert(canonical, output), canonical)
            == CacheDecisionView::AlreadyProcessed,
        cache_decision(Set::empty(), cache.insert(canonical, output), canonical)
            == CacheDecisionView::Cached(output),
{
}

} // verus!
