//! The store: one entry per short code, each with the URL it stands for and
//! how often it has been shortened or followed.

use vstd::prelude::*;
use crate::code::{code_of, shorten_url};

verus! {

/// One shortened URL.
#[derive(Debug)]
pub struct Entry {
    pub original_url: String,
    pub short_code: String,
    pub hit_count: u64,
}

/// What an entry holds, as mathematical values.
pub struct EntryModel {
    pub url: Seq<char>,
    pub code: Seq<char>,
    pub hits: u64,
}

impl View for Entry {
    type V = EntryModel;

    open spec fn view(&self) -> EntryModel {
        EntryModel { url: self.original_url@, code: self.short_code@, hits: self.hit_count }
    }
}

impl Entry {
    /// A copy of this entry.
    pub fn duplicate(&self) -> (r: Entry)
        ensures
            r@ == self@,
    {
        Entry {
            original_url: self.original_url.clone(),
            short_code: self.short_code.clone(),
            hit_count: self.hit_count,
        }
    }
}

/// Why a store operation did not take place.
#[derive(Debug, PartialEq, Eq, Structural)]
pub enum StoreError {
    /// No entry has the requested code.
    NotFound,
    /// The entry's counter already holds the largest value it can.
    CounterFull,
}

/// The models of a vector of entries.
pub open spec fn models(v: Seq<Entry>) -> Seq<EntryModel> {
    v.map_values(|e: Entry| e@)
}

/// No two entries share a code.
pub open spec fn codes_unique(s: Seq<EntryModel>) -> bool {
    forall|i: int, j: int| 0 <= i < j < s.len() ==> #[trigger] s[i].code != #[trigger] s[j].code
}

/// Some entry has `code`.
pub open spec fn has_code(s: Seq<EntryModel>, code: Seq<char>) -> bool {
    exists|i: int| 0 <= i < s.len() && #[trigger] s[i].code == code
}

/// The position of the entry with `code` (meaningful where `has_code` holds).
pub open spec fn index_of_code(s: Seq<EntryModel>, code: Seq<char>) -> int {
    choose|i: int| 0 <= i < s.len() && #[trigger] s[i].code == code
}

/// The entry with `code` has a counter that cannot grow any more.
pub open spec fn counter_full(s: Seq<EntryModel>, code: Seq<char>) -> bool {
    has_code(s, code) && s[index_of_code(s, code)].hits == u64::MAX
}

/// The entries after a hit on `code` for `url`: the existing entry's count
/// grows by one and it takes `url`; without one, a new entry with one hit
/// is appended.
pub open spec fn upserted(s: Seq<EntryModel>, code: Seq<char>, url: Seq<char>) -> Seq<EntryModel> {
    if has_code(s, code) {
        let i = index_of_code(s, code);
        s.update(i, EntryModel { url, code, hits: (s[i].hits + 1) as u64 })
    } else {
        s.push(EntryModel { url, code, hits: 1 })
    }
}

/// The entries after a followed redirect of `code`: its count grows by one.
pub open spec fn touched(s: Seq<EntryModel>, code: Seq<char>) -> Seq<EntryModel> {
    let i = index_of_code(s, code);
    s.update(i, EntryModel { hits: (s[i].hits + 1) as u64, ..s[i] })
}

/// The entries after loading `e`: it replaces the entry with its code, or is
/// appended.
pub open spec fn put(s: Seq<EntryModel>, e: EntryModel) -> Seq<EntryModel> {
    if has_code(s, e.code) {
        s.update(index_of_code(s, e.code), e)
    } else {
        s.push(e)
    }
}

/// The entries of an empty store after loading `es` in order.
pub open spec fn loaded(es: Seq<EntryModel>) -> Seq<EntryModel>
    decreases es.len(),
{
    if es.len() == 0 {
        Seq::empty()
    } else {
        put(loaded(es.drop_last()), es.last())
    }
}

/// The mapping from short codes to URLs and hit counts.
#[derive(Debug)]
pub struct Store {
    entries: Vec<Entry>,
}

impl View for Store {
    type V = Seq<EntryModel>;

    closed spec fn view(&self) -> Seq<EntryModel> {
        models(self.entries@)
    }
}

impl Store {
    /// The store's invariant: codes are unique.
    pub open spec fn wf(&self) -> bool {
        codes_unique(self@)
    }

    /// An empty store.
    pub fn new() -> (r: Store)
        ensures
            r.wf(),
            r@ == Seq::<EntryModel>::empty(),
    {
        let r = Store { entries: Vec::new() };
        assert(r@ =~= Seq::<EntryModel>::empty());
        r
    }

    /// The number of entries.
    pub fn len(&self) -> (r: usize)
        ensures
            r == self@.len(),
    {
        self.entries.len()
    }

    /// The position of the entry with `code`, if any.
    fn find(&self, code: &String) -> (r: Option<usize>)
        requires
            self.wf(),
        ensures
            r is None <==> !has_code(self@, code@),
            r matches Some(i) ==> i < self@.len() && index_of_code(self@, code@) == i
                && self@[i as int].code == code@,
    {
        let mut i: usize = 0;
        while i < self.entries.len()
            invariant
                i <= self.entries@.len(),
                self.wf(),
                self@ == models(self.entries@),
                forall|j: int| 0 <= j < i ==> #[trigger] self@[j].code != code@,
            decreases self.entries@.len() - i,
        {
            if self.entries[i].short_code == *code {
                assert(self@[i as int].code == code@);
                let ghost k = index_of_code(self@, code@);
                assert(self@[k].code == code@);
                assert(k == i as int) by {
                    if k != i as int {
                        assert(self@[k].code == self@[i as int].code);
                    }
                }
                return Some(i);
            }
            i = i + 1;
        }
        None
    }

    /// Whether a hit on `code` would overflow its counter.
    pub fn is_full(&self, code: &str) -> (r: bool)
        requires
            self.wf(),
        ensures
            r == counter_full(self@, code@),
    {
        let code = code.to_owned();
        match self.find(&code) {
            Some(i) => self.entries[i].hit_count == u64::MAX,
            None => false,
        }
    }

    /// Records a hit on `code` for `url`: an existing entry's count grows by
    /// one and it takes `url`; otherwise a new entry with one hit is added.
    /// Returns the entry's count after the hit.
    pub fn upsert_code(&mut self, code: String, url: String) -> (r: u64)
        requires
            old(self).wf(),
            !counter_full(old(self)@, code@),
        ensures
            final(self).wf(),
            final(self)@ == upserted(old(self)@, code@, url@),
            has_code(final(self)@, code@),
            r == final(self)@[index_of_code(final(self)@, code@)].hits,
    {
        let ghost s = self@;
        match self.find(&code) {
            Some(i) => {
                let hits = self.entries[i].hit_count + 1;
                let ghost c = code@;
                self.entries.set(i, Entry { original_url: url, short_code: code, hit_count: hits });
                assert(self@ =~= upserted(s, c, self@[i as int].url));
                assert(self@[i as int].code == c);
                proof { self.lemma_index(i as int); }
                hits
            },
            None => {
                let ghost c = code@;
                self.entries.push(Entry { original_url: url, short_code: code, hit_count: 1 });
                assert(self@ =~= upserted(s, c, self@.last().url));
                assert(self@[self@.len() - 1].code == c);
                proof { self.lemma_index(self@.len() - 1); }
                1
            },
        }
    }

    /// Shortens `original_url`: derives its code and records a hit on it.
    /// Returns the code and the entry's count after the hit; fails, leaving
    /// the store as it was, only where that count cannot grow any more.
    pub fn upsert_or_increment(&mut self, original_url: &str) -> (r: Result<(String, u64), StoreError>)
        requires
            old(self).wf(),
        ensures
            final(self).wf(),
            counter_full(old(self)@, code_of(original_url@)) ==> r == Err::<(String, u64), StoreError>(StoreError::CounterFull)
                && final(self)@ == old(self)@,
            !counter_full(old(self)@, code_of(original_url@)) ==> r is Ok
                && final(self)@ == upserted(old(self)@, code_of(original_url@), original_url@),
            r matches Ok((code, hits)) ==> code@ == code_of(original_url@)
                && hits == final(self)@[index_of_code(final(self)@, code@)].hits,
    {
        let code = shorten_url(original_url);
        if self.is_full(code.as_str()) {
            return Err(StoreError::CounterFull);
        }
        let hits = self.upsert_code(code.clone(), original_url.to_owned());
        Ok((code, hits))
    }

    /// Follows `short_code`: its entry's count grows by one and a copy of the
    /// entry after that is returned. Fails with `NotFound`, leaving the store
    /// as it was, where no entry has the code, and with `CounterFull` where its
    /// count cannot grow any more.
    pub fn lookup_and_increment(&mut self, short_code: &str) -> (r: Result<Entry, StoreError>)
        requires
            old(self).wf(),
        ensures
            final(self).wf(),
            !has_code(old(self)@, short_code@) ==> r == Err::<Entry, StoreError>(StoreError::NotFound)
                && final(self)@ == old(self)@,
            counter_full(old(self)@, short_code@) ==> r == Err::<Entry, StoreError>(StoreError::CounterFull)
                && final(self)@ == old(self)@,
            has_code(old(self)@, short_code@) && !counter_full(old(self)@, short_code@) ==> r is Ok
                && final(self)@ == touched(old(self)@, short_code@),
            r matches Ok(e) ==> e@ == final(self)@[index_of_code(old(self)@, short_code@)],
    {
        let code = short_code.to_owned();
        let ghost s = self@;
        match self.find(&code) {
            None => Err(StoreError::NotFound),
            Some(i) => {
                if self.entries[i].hit_count == u64::MAX {
                    return Err(StoreError::CounterFull);
                }
                let old_entry = self.entries[i].duplicate();
                let e = Entry {
                    original_url: old_entry.original_url,
                    short_code: old_entry.short_code,
                    hit_count: old_entry.hit_count + 1,
                };
                let out = e.duplicate();
                self.entries.set(i, e);
                assert(self@ =~= touched(s, code@));
                proof { self.lemma_index(i as int); }
                Ok(out)
            },
        }
    }

    /// A copy of every entry, in the store's order.
    pub fn snapshot(&self) -> (r: Vec<Entry>)
        ensures
            models(r@) == self@,
    {
        let mut out: Vec<Entry> = Vec::new();
        let mut i: usize = 0;
        while i < self.entries.len()
            invariant
                i <= self.entries@.len(),
                models(out@) =~= models(self.entries@).take(i as int),
            decreases self.entries@.len() - i,
        {
            let d = self.entries[i].duplicate();
            let ghost prev = out@;
            out.push(d);
            assert(models(out@) =~= models(prev).push(self.entries@[i as int]@));
            i = i + 1;
            assert(models(out@) =~= models(self.entries@).take(i as int));
        }
        assert(models(self.entries@).take(i as int) =~= models(self.entries@));
        out
    }

    /// Replaces the store's contents by `entries`, loaded in order: a later
    /// entry replaces an earlier one with the same code.
    pub fn replace_all(&mut self, entries: Vec<Entry>)
        ensures
            final(self).wf(),
            final(self)@ == loaded(models(entries@)),
    {
        self.entries = Vec::new();
        assert(self@ =~= loaded(models(entries@).take(0)));
        let mut i: usize = 0;
        while i < entries.len()
            invariant
                i <= entries@.len(),
                self.wf(),
                self@ == loaded(models(entries@).take(i as int)),
            decreases entries@.len() - i,
        {
            let e = entries[i].duplicate();
            let ghost s = self@;
            assert(models(entries@).take(i + 1).drop_last() =~= models(entries@).take(i as int));
            match self.find(&e.short_code) {
                Some(k) => {
                    let ghost c = e.short_code@;
                    self.entries.set(k, e);
                    assert(self@ =~= put(s, entries@[i as int]@));
                    assert forall|a: int, b: int| 0 <= a < b < self@.len() implies #[trigger] self@[a].code != #[trigger] self@[b].code by {
                        assert(s[k as int].code == c);
                    }
                },
                None => {
                    self.entries.push(e);
                    assert(self@ =~= put(s, entries@[i as int]@));
                },
            }
            i = i + 1;
        }
        assert(models(entries@).take(i as int) =~= models(entries@));
    }

    /// The entry with `short_code`, if any, leaving its count as it is.
    pub fn get(&self, short_code: &str) -> (r: Option<Entry>)
        requires
            self.wf(),
        ensures
            r is None <==> !has_code(self@, short_code@),
            r matches Some(e) ==> e@ == self@[index_of_code(self@, short_code@)],
    {
        let code = short_code.to_owned();
        match self.find(&code) {
            Some(i) => Some(self.entries[i].duplicate()),
            None => None,
        }
    }

    proof fn lemma_index(&self, i: int)
        requires
            self.wf(),
            0 <= i < self@.len(),
        ensures
            has_code(self@, self@[i].code),
            index_of_code(self@, self@[i].code) == i,
    {
        let k = index_of_code(self@, self@[i].code);
        assert(self@[k].code == self@[i].code);
    }
}

} // verus!

verus! {

/// The entries after `n` hits on `code` for `url`.
pub open spec fn upserted_times(s: Seq<EntryModel>, code: Seq<char>, url: Seq<char>, n: nat) -> Seq<EntryModel>
    decreases n,
{
    if n == 0 {
        s
    } else {
        upserted(upserted_times(s, code, url, (n - 1) as nat), code, url)
    }
}

/// The count that `code` has in `s`, zero where it has no entry.
pub open spec fn hits_of(s: Seq<EntryModel>, code: Seq<char>) -> int {
    if has_code(s, code) {
        s[index_of_code(s, code)].hits as int
    } else {
        0
    }
}

proof fn lemma_unique_index(s: Seq<EntryModel>, i: int)
    requires
        codes_unique(s),
        0 <= i < s.len(),
    ensures
        has_code(s, s[i].code),
        index_of_code(s, s[i].code) == i,
{
    let k = index_of_code(s, s[i].code);
    assert(s[k].code == s[i].code);
}

/// A hit keeps codes unique, and leaves the entry for `code` holding `url`
/// with one more hit than before, at the position it had, or appended.
pub proof fn lemma_upserted(s: Seq<EntryModel>, code: Seq<char>, url: Seq<char>)
    requires
        codes_unique(s),
        !counter_full(s, code),
    ensures
        codes_unique(upserted(s, code, url)),
        has_code(upserted(s, code, url), code),
        hits_of(upserted(s, code, url), code) == hits_of(s, code) + 1,
        upserted(s, code, url)[index_of_code(upserted(s, code, url), code)].url == url,
        has_code(s, code) ==> upserted(s, code, url).len() == s.len()
            && index_of_code(upserted(s, code, url), code) == index_of_code(s, code),
        !has_code(s, code) ==> upserted(s, code, url).len() == s.len() + 1
            && index_of_code(upserted(s, code, url), code) == s.len(),
        forall|c: Seq<char>| c != code ==> hits_of(#[trigger] upserted(s, code, url), c) == hits_of(s, c),
{
    let t = upserted(s, code, url);
    let i = if has_code(s, code) { index_of_code(s, code) } else { s.len() as int };
    if has_code(s, code) {
        assert(s[i].code == code);
    }
    assert(t[i].code == code);
    assert(codes_unique(t)) by {
        assert forall|a: int, b: int| 0 <= a < b < t.len() implies #[trigger] t[a].code != #[trigger] t[b].code by {
            if a != i && b != i {
                assert(t[a] == s[a] && t[b] == s[b]);
            } else if a == i {
                assert(t[b] == s[b]);
                if has_code(s, code) {
                    assert(s[i].code == code);
                }
            } else {
                assert(t[a] == s[a]);
                if has_code(s, code) {
                    assert(s[i].code == code);
                }
            }
        }
    }
    lemma_unique_index(t, i);
    assert forall|c: Seq<char>| c != code implies hits_of(#[trigger] upserted(s, code, url), c) == hits_of(s, c) by {
        if has_code(s, c) {
            let j = index_of_code(s, c);
            assert(s[j].code == c);
            assert(j != i);
            assert(t[j] == s[j]);
            lemma_unique_index(t, j);
        }
        if has_code(t, c) {
            let j = index_of_code(t, c);
            assert(t[j].code == c);
            assert(j != i);
            assert(t[j] == s[j]);
        }
    }
}

/// Shortening a URL again finds the entry it made the first time: the code
/// is the same, no entry is added, and the count grows by one.
pub proof fn lemma_same_url_same_entry(s: Seq<EntryModel>, url: Seq<char>)
    requires
        codes_unique(s),
        hits_of(s, code_of(url)) + 2 <= u64::MAX,
    ensures
        ({
            let c = code_of(url);
            let once = upserted(s, c, url);
            let twice = upserted(once, c, url);
            &&& twice.len() == once.len()
            &&& index_of_code(twice, c) == index_of_code(once, c)
            &&& twice[index_of_code(twice, c)].code == c
            &&& hits_of(twice, c) == hits_of(once, c) + 1
        }),
{
    let c = code_of(url);
    if has_code(s, c) {
        assert(s[index_of_code(s, c)].code == c);
    }
    lemma_upserted(s, c, url);
    let once = upserted(s, c, url);
    assert(once[index_of_code(once, c)].code == c);
    lemma_upserted(once, c, url);
    let twice = upserted(once, c, url);
    assert(twice[index_of_code(twice, c)].code == c);
}

/// `n` hits on one code, taken one at a time, raise its count by exactly `n`,
/// and leave every other code's count as it was.
pub proof fn lemma_hits_add_up(s: Seq<EntryModel>, code: Seq<char>, url: Seq<char>, n: nat)
    requires
        codes_unique(s),
        hits_of(s, code) + n <= u64::MAX,
    ensures
        codes_unique(upserted_times(s, code, url, n)),
        hits_of(upserted_times(s, code, url, n), code) == hits_of(s, code) + n,
        forall|c: Seq<char>| c != code ==> hits_of(#[trigger] upserted_times(s, code, url, n), c) == hits_of(s, c),
    decreases n,
{
    if n > 0 {
        let m = (n - 1) as nat;
        lemma_hits_add_up(s, code, url, m);
        let p = upserted_times(s, code, url, m);
        if has_code(p, code) {
            assert(p[index_of_code(p, code)].code == code);
        }
        lemma_upserted(p, code, url);
    }
}

} // verus!
