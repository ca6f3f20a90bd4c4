//! The reference cache: a mapping from lower-cased names of lists or labels
//! to the identifiers that the remote service knows them by.

use crate::text::{opt_string, starts_with};
use vstd::prelude::*;
use vstd::string::*;

verus! {

/// What `str::to_lowercase` makes of a text.
pub uninterp spec fn lowercase_of(s: Seq<char>) -> Seq<char>;

/// The top-level keys of a TOML document with, for each, the text of its
/// value where that value is a string; none where the document does not parse.
pub uninterp spec fn toml_entries(content: Seq<char>) -> Option<
    Seq<(Seq<char>, Option<Seq<char>>)>,
>;

/// The TOML document that holds the keys of the mapping, each with its
/// value as a string; none where the serializer fails.
pub uninterp spec fn toml_text(entries: Map<Seq<char>, Seq<char>>) -> Option<Seq<char>>;

/// The views of a sequence of pairs of strings.
pub open spec fn pair_views(v: Seq<(String, String)>) -> Seq<(Seq<char>, Seq<char>)> {
    Seq::new(v.len(), |i: int| (v[i].0@, v[i].1@))
}

/// The views of a sequence of keys with their optional values.
pub open spec fn entry_views(v: Seq<(String, Option<String>)>) -> Seq<
    (Seq<char>, Option<Seq<char>>),
> {
    Seq::new(v.len(), |i: int| (v[i].0@, opt_string(v[i].1)))
}

/// Calls `str::to_lowercase`. Trusted: the result is the lower-cased text,
/// which depends on the argument alone.
#[verifier::external_body]
pub(crate) fn lowercase(s: &str) -> (r: String)
    ensures
        r@ == lowercase_of(s@),
{
    s.to_lowercase()
}

/// Parses a document with `toml::Table`'s `FromStr` and reads each value with
/// `toml::Value::as_str`. Trusted: the result lists the table's entries in
/// the order in which the table hands them out, and is none exactly where
/// the parser reports an error.
#[verifier::external_body]
pub(crate) fn toml_parse(content: &str) -> (r: Option<Vec<(String, Option<String>)>>)
    ensures
        match r {
            Some(es) => toml_entries(content@) == Some(entry_views(es@)),
            None => toml_entries(content@) is None,
        },
{
    match content.parse::<toml::Table>() {
        Ok(table) => Some(
            table.into_iter().map(|(k, v)| (k, v.as_str().map(|s| s.to_string()))).collect(),
        ),
        Err(_) => None,
    }
}

/// Collects the pairs into a `toml::Table` of string values and renders it
/// with `toml::to_string`. Trusted: the table holds the mapping that comes of
/// inserting the pairs in order, the result is the document rendered from
/// that mapping alone, and is none exactly where the serializer reports an
/// error.
#[verifier::external_body]
pub(crate) fn toml_render(entries: &Vec<(String, String)>) -> (r: Option<String>)
    ensures
        opt_string(r) == toml_text(to_map(pair_views(entries@))),
{
    let table: toml::Table = entries.iter().map(
        |e| (e.0.clone(), toml::Value::String(e.1.clone())),
    ).collect();
    toml::to_string(&table).ok()
}

/// Whether no key stands twice in `p`.
pub open spec fn distinct_keys(p: Seq<(Seq<char>, Seq<char>)>) -> bool {
    forall|i: int, j: int| 0 <= i < j < p.len() ==> (#[trigger] p[i]).0 != (#[trigger] p[j]).0
}

/// Whether `k` is the key of some pair of `p`.
pub open spec fn has_key(p: Seq<(Seq<char>, Seq<char>)>, k: Seq<char>) -> bool {
    exists|i: int| 0 <= i < p.len() && (#[trigger] p[i]).0 == k
}

/// The mapping that comes of inserting the pairs of `p` in order.
pub open spec fn to_map(p: Seq<(Seq<char>, Seq<char>)>) -> Map<Seq<char>, Seq<char>>
    decreases p.len(),
{
    if p.len() == 0 {
        Map::empty()
    } else {
        to_map(p.drop_last()).insert(p.last().0, p.last().1)
    }
}

/// The mapping that comes of inserting each name, lower-cased, with its
/// identifier, in order.
pub open spec fn named_map(items: Seq<(Seq<char>, Seq<char>)>) -> Map<Seq<char>, Seq<char>>
    decreases items.len(),
{
    if items.len() == 0 {
        Map::empty()
    } else {
        named_map(items.drop_last()).insert(lowercase_of(items.last().0), items.last().1)
    }
}

/// The mapping that comes of inserting each key that has a string value,
/// lower-cased, with that value, in order.
pub open spec fn loaded_map(es: Seq<(Seq<char>, Option<Seq<char>>)>) -> Map<Seq<char>, Seq<char>>
    decreases es.len(),
{
    if es.len() == 0 {
        Map::empty()
    } else {
        match es.last().1 {
            Some(v) => loaded_map(es.drop_last()).insert(lowercase_of(es.last().0), v),
            None => loaded_map(es.drop_last()),
        }
    }
}

/// What a lookup of the lower-cased name `lower` in `m` may return: the
/// identifier under that very key where there is one; else the identifier
/// under some key that starts with `lower`; none only where no key does.
pub open spec fn is_match(
    m: Map<Seq<char>, Seq<char>>,
    lower: Seq<char>,
    r: Option<Seq<char>>,
) -> bool {
    if m.contains_key(lower) {
        r == Some(m[lower])
    } else {
        match r {
            Some(id) => exists|k: Seq<char>|
                #[trigger] m.contains_key(k) && lower.is_prefix_of(k) && m[k] == id,
            None => forall|k: Seq<char>| #[trigger] m.contains_key(k) ==> !lower.is_prefix_of(k),
        }
    }
}

/// The keys of `to_map(p)` are the keys of `p`, and where no key stands
/// twice each pair's identifier is found under its key.
pub proof fn lemma_to_map(p: Seq<(Seq<char>, Seq<char>)>)
    ensures
        forall|k: Seq<char>| #![trigger to_map(p).contains_key(k)] #![trigger has_key(p, k)]
            to_map(p).contains_key(k) <==> has_key(p, k),
        distinct_keys(p) ==> forall|i: int|
            0 <= i < p.len() ==> to_map(p)[(#[trigger] p[i]).0] == p[i].1,
    decreases p.len(),
{
    if p.len() > 0 {
        let q = p.drop_last();
        let n = q.len() as int;
        lemma_to_map(q);
        assert(to_map(p) == to_map(q).insert(p.last().0, p.last().1));
        assert forall|k: Seq<char>| to_map(p).contains_key(k) <==> has_key(p, k) by {
            if has_key(p, k) {
                let i = choose|i: int| 0 <= i < p.len() && (#[trigger] p[i]).0 == k;
                if i < n {
                    assert(q[i].0 == k);
                    assert(has_key(q, k));
                }
            }
            if to_map(p).contains_key(k) {
                if k == p.last().0 {
                    assert(p[n].0 == k);
                } else {
                    assert(to_map(q).contains_key(k));
                    assert(has_key(q, k));
                    let i = choose|i: int| 0 <= i < q.len() && (#[trigger] q[i]).0 == k;
                    assert(p[i].0 == k);
                }
            }
        }
        if distinct_keys(p) {
            assert(distinct_keys(q)) by {
                assert forall|i: int, j: int| 0 <= i < j < q.len() implies (#[trigger] q[i]).0 != (
                #[trigger] q[j]).0 by {
                    assert(q[i] == p[i] && q[j] == p[j]);
                }
            }
            assert forall|i: int| 0 <= i < p.len() implies to_map(p)[(#[trigger] p[i]).0]
                == p[i].1 by {
                if i < n {
                    assert(q[i] == p[i]);
                    assert(p[i].0 != p[n].0);
                }
            }
        }
    }
}

/// Where no key stands twice, the mapping has as many keys as there are
/// pairs.
pub proof fn lemma_to_map_len(p: Seq<(Seq<char>, Seq<char>)>)
    requires
        distinct_keys(p),
    ensures
        to_map(p).dom().finite(),
        to_map(p).dom().len() == p.len(),
    decreases p.len(),
{
    if p.len() > 0 {
        let q = p.drop_last();
        let n = q.len() as int;
        assert forall|i: int, j: int| 0 <= i < j < q.len() implies (#[trigger] q[i]).0 != (
        #[trigger] q[j]).0 by {
            assert(q[i] == p[i] && q[j] == p[j]);
        }
        lemma_to_map_len(q);
        lemma_to_map(q);
        let k = p.last().0;
        if has_key(q, k) {
            let i = choose|i: int| 0 <= i < q.len() && (#[trigger] q[i]).0 == k;
            assert(q[i] == p[i]);
            assert(p[i].0 != p[n].0);
        }
        assert(!to_map(q).dom().contains(k));
        assert(to_map(p).dom() =~= to_map(q).dom().insert(k));
    } else {
        assert(to_map(p).dom() =~= Set::<Seq<char>>::empty());
    }
}

/// Each pair with its identifier as a value that is there.
pub open spec fn with_values(p: Seq<(Seq<char>, Seq<char>)>) -> Seq<
    (Seq<char>, Option<Seq<char>>),
> {
    Seq::new(p.len(), |i: int| (p[i].0, Some(p[i].1)))
}

/// Whether each key is its own lower-cased form.
pub open spec fn keys_lowercased(p: Seq<(Seq<char>, Seq<char>)>) -> bool {
    forall|i: int| 0 <= i < p.len() ==> lowercase_of((#[trigger] p[i]).0) == p[i].0
}

/// A document that holds exactly the pairs of a mapping whose keys are
/// lower-cased already, each with a string value, loads as that mapping.
pub proof fn law_lowercased_pairs_load_unchanged(p: Seq<(Seq<char>, Seq<char>)>)
    ensures
        keys_lowercased(p) ==> loaded_map(with_values(p)) == to_map(p),
    decreases p.len(),
{
    if keys_lowercased(p) {
        if p.len() > 0 {
            let q = p.drop_last();
            assert forall|i: int| 0 <= i < q.len() implies lowercase_of((#[trigger] q[i]).0)
                == q[i].0 by {
                assert(q[i] == p[i]);
            }
            law_lowercased_pairs_load_unchanged(q);
            assert(with_values(p).drop_last() =~= with_values(q));
            assert(with_values(p).last() == (p.last().0, Some(p.last().1)));
            assert(lowercase_of(p[p.len() - 1].0) == p[p.len() - 1].0);
        }
    }
}

/// Replacing the identifier of the pair at `i` is an insert under its key.
pub proof fn lemma_update(p: Seq<(Seq<char>, Seq<char>)>, i: int, id: Seq<char>)
    requires
        distinct_keys(p),
        0 <= i < p.len(),
    ensures
        distinct_keys(p.update(i, (p[i].0, id))),
        to_map(p.update(i, (p[i].0, id))) == to_map(p).insert(p[i].0, id),
{
    let k = p[i].0;
    let q = p.update(i, (k, id));
    assert(distinct_keys(q)) by {
        assert forall|a: int, b: int| 0 <= a < b < q.len() implies (#[trigger] q[a]).0 != (
        #[trigger] q[b]).0 by {
            assert(q[a].0 == p[a].0 && q[b].0 == p[b].0);
        }
    }
    lemma_to_map(p);
    lemma_to_map(q);
    let m = to_map(p).insert(k, id);
    assert forall|x: Seq<char>| to_map(q).contains_key(x) <==> m.contains_key(x) by {
        if has_key(q, x) {
            let j = choose|j: int| 0 <= j < q.len() && (#[trigger] q[j]).0 == x;
            assert(p[j].0 == x);
        }
        if has_key(p, x) {
            let j = choose|j: int| 0 <= j < p.len() && (#[trigger] p[j]).0 == x;
            assert(q[j].0 == x);
        }
        if x == k {
            assert(q[i].0 == x);
        }
    }
    assert forall|x: Seq<char>| to_map(q).contains_key(x) implies to_map(q)[x] == m[x] by {
        let j = choose|j: int| 0 <= j < q.len() && (#[trigger] q[j]).0 == x;
        assert(to_map(q)[q[j].0] == q[j].1);
        if j != i {
            assert(p[j] == q[j]);
            assert(to_map(p)[p[j].0] == p[j].1);
            if j < i {
                assert(p[j].0 != p[i].0);
            } else {
                assert(p[i].0 != p[j].0);
            }
        }
    }
    assert(to_map(q) =~= m);
}

/// A mapping from lower-cased names to remote identifiers.
pub struct ReferenceCache {
    entries: Vec<(String, String)>,
}

impl View for ReferenceCache {
    type V = Map<Seq<char>, Seq<char>>;

    open spec fn view(&self) -> Map<Seq<char>, Seq<char>> {
        to_map(self.pairs())
    }
}

impl ReferenceCache {
    /// The keys with their identifiers, in the order in which they are kept.
    pub closed spec fn pairs(&self) -> Seq<(Seq<char>, Seq<char>)> {
        pair_views(self.entries@)
    }

    /// No key is kept twice.
    pub open spec fn wf(&self) -> bool {
        distinct_keys(self.pairs())
    }

    /// A cache that holds nothing.
    pub fn new() -> (r: Self)
        ensures
            r.wf(),
            r@ == Map::<Seq<char>, Seq<char>>::empty(),
            r.pairs().len() == 0,
    {
        ReferenceCache { entries: Vec::new() }
    }

    /// How many keys the cache holds.
    pub fn len(&self) -> (n: usize)
        ensures
            n == self.pairs().len(),
            self.wf() ==> self@.dom().finite() && n == self@.dom().len(),
    {
        proof {
            if self.wf() {
                lemma_to_map_len(self.pairs());
            }
        }
        self.entries.len()
    }

    /// The identifier kept under exactly the key `key`.
    #[verifier::loop_isolation(false)]
    pub fn get(&self, key: &String) -> (r: Option<String>)
        requires
            self.wf(),
        ensures
            opt_string(r) == if self@.contains_key(key@) {
                Some(self@[key@])
            } else {
                None
            },
    {
        proof {
            lemma_to_map(self.pairs());
        }
        let mut i: usize = 0;
        while i < self.entries.len()
            invariant
                i <= self.entries@.len(),
                forall|j: int| 0 <= j < i ==> (#[trigger] self.pairs()[j]).0 != key@,
            decreases self.entries@.len() - i,
        {
            let e = &self.entries[i];
            if e.0 == *key {
                assert(self.pairs()[i as int].0 == key@);
                return Some(e.1.clone());
            }
            i += 1;
        }
        None
    }

    /// Puts `id` under `key`, in place of what was there.
    #[verifier::loop_isolation(false)]
    pub fn insert(&mut self, key: String, id: String)
        requires
            old(self).wf(),
        ensures
            final(self).wf(),
            final(self)@ == old(self)@.insert(key@, id@),
    {
        let ghost p = self.pairs();
        let mut i: usize = 0;
        while i < self.entries.len()
            invariant
                i <= self.entries@.len(),
                self.pairs() == p,
                distinct_keys(p),
                forall|j: int| 0 <= j < i ==> (#[trigger] p[j]).0 != key@,
            decreases self.entries@.len() - i,
        {
            if self.entries[i].0 == key {
                proof {
                    lemma_update(p, i as int, id@);
                    assert(p[i as int].0 == key@);
                }
                self.entries.set(i, (key, id));
                assert(self.pairs() =~= p.update(i as int, (key@, id@)));
                return ;
            }
            i += 1;
        }
        self.entries.push((key, id));
        proof {
            let q = self.pairs();
            assert(q =~= p.push((key@, id@)));
            assert(q.drop_last() =~= p);
            assert forall|a: int, b: int| 0 <= a < b < q.len() implies (#[trigger] q[a]).0 != (
            #[trigger] q[b]).0 by {
                assert(q[a] == p[a]);
                if b < p.len() {
                    assert(q[b] == p[b]);
                }
            }
        }
    }
}

/// Looks up a name that is lower-cased already: first as a key, then as the
/// start of a key. Which key answers where several start with it is left open.
#[verifier::loop_isolation(false)]
pub fn find_lowercased(cache: &ReferenceCache, lower: &String) -> (r: Option<String>)
    requires
        cache.wf(),
    ensures
        is_match(cache@, lower@, opt_string(r)),
{
    proof {
        lemma_to_map(cache.pairs());
    }
    match cache.get(lower) {
        Some(id) => {
            return Some(id);
        },
        None => {},
    }
    let mut i: usize = 0;
    while i < cache.entries.len()
        invariant
            i <= cache.entries@.len(),
            forall|j: int| 0 <= j < i ==> !lower@.is_prefix_of((#[trigger] cache.pairs()[j]).0),
        decreases cache.entries@.len() - i,
    {
        let e = &cache.entries[i];
        if starts_with(e.0.as_str(), lower.as_str()) {
            let id = e.1.clone();
            proof {
                let k = cache.pairs()[i as int].0;
                assert(has_key(cache.pairs(), k));
                assert(cache@.contains_key(k) && lower@.is_prefix_of(k) && cache@[k] == id@);
            }
            return Some(id);
        }
        i += 1;
    }
    proof {
        assert forall|k: Seq<char>| #[trigger] cache@.contains_key(k) implies !lower@.is_prefix_of(
            k,
        ) by {
            assert(has_key(cache.pairs(), k));
            let j = choose|j: int| 0 <= j < cache.pairs().len() && (#[trigger] cache.pairs()[j]).0
                == k;
            assert(!lower@.is_prefix_of(cache.pairs()[j].0));
        }
    }
    None
}

/// Looks up a name in whatever case: the name is lower-cased, then looked up
/// as a key, then as the start of a key.
pub fn find_matching_key(cache: &ReferenceCache, search: &str) -> (r: Option<String>)
    requires
        cache.wf(),
    ensures
        is_match(cache@, lowercase_of(search@), opt_string(r)),
{
    let lower = lowercase(search);
    find_lowercased(cache, &lower)
}

/// The cache of what the remote service lists: each name, lower-cased, with
/// its identifier. Of two items with one name the later stays.
pub fn cache_from_items(items: &Vec<(String, String)>) -> (r: ReferenceCache)
    ensures
        r.wf(),
        r@ == named_map(pair_views(items@)),
{
    let ghost all = pair_views(items@);
    let mut cache = ReferenceCache::new();
    let mut i: usize = 0;
    while i < items.len()
        invariant
            i <= items@.len(),
            all == pair_views(items@),
            cache.wf(),
            cache@ == named_map(all.take(i as int)),
        decreases items@.len() - i,
    {
        let item = &items[i];
        proof {
            assert(all.take(i + 1).drop_last() =~= all.take(i as int));
            assert(all.take(i + 1).last() == (item.0@, item.1@));
        }
        cache.insert(lowercase(item.0.as_str()), item.1.clone());
        i += 1;
    }
    assert(all.take(i as int) =~= all);
    cache
}

/// The cache that a parsed document holds: each key that has a string value,
/// lower-cased, with that value.
pub fn cache_from_entries(entries: &Vec<(String, Option<String>)>) -> (r: ReferenceCache)
    ensures
        r.wf(),
        r@ == loaded_map(entry_views(entries@)),
{
    let ghost all = entry_views(entries@);
    let mut cache = ReferenceCache::new();
    let mut i: usize = 0;
    while i < entries.len()
        invariant
            i <= entries@.len(),
            all == entry_views(entries@),
            cache.wf(),
            cache@ == loaded_map(all.take(i as int)),
        decreases entries@.len() - i,
    {
        let entry = &entries[i];
        proof {
            assert(all.take(i + 1).drop_last() =~= all.take(i as int));
            assert(all.take(i + 1).last() == (entry.0@, opt_string(entry.1)));
        }
        match &entry.1 {
            Some(value) => {
                cache.insert(lowercase(entry.0.as_str()), value.clone());
            },
            None => {},
        }
        i += 1;
    }
    assert(all.take(i as int) =~= all);
    cache
}

/// What a stored mapping holds, given the text of its file. A text that is
/// no TOML document holds nothing.
pub open spec fn stored_map(content: Seq<char>) -> Map<Seq<char>, Seq<char>> {
    match toml_entries(content) {
        Some(es) => loaded_map(es),
        None => Map::empty(),
    }
}

/// Reads a stored mapping from the text of its file.
pub fn load_cache(content: &str) -> (r: ReferenceCache)
    ensures
        r.wf(),
        r@ == stored_map(content@),
{
    match toml_parse(content) {
        Some(entries) => cache_from_entries(&entries),
        None => ReferenceCache::new(),
    }
}

/// The text under which a mapping is stored; none where it cannot be
/// rendered.
pub fn save_cache(cache: &ReferenceCache) -> (r: Option<String>)
    ensures
        opt_string(r) == toml_text(cache@),
{
    toml_render(&cache.entries)
}

/// A name that was put into the cache lower-cased is found again under its
/// own identifier, in whatever spelling that lower-cases to the same key it
/// is asked for, and whatever other keys start with it.
pub proof fn law_find_after_insert(
    m: Map<Seq<char>, Seq<char>>,
    name: Seq<char>,
    search: Seq<char>,
    id: Seq<char>,
    found: Option<Seq<char>>,
)
    ensures
        lowercase_of(search) == lowercase_of(name) && is_match(
            m.insert(lowercase_of(name), id),
            lowercase_of(search),
            found,
        ) ==> found == Some(id),
{
}

} // verus!
