//! The usage report: total hits per URL domain, highest first.

use vstd::prelude::*;
use crate::store::{Entry, EntryModel, models};
use crate::text::{chars_of, string_of, slice_of};

verus! {

/// The position of the first `c` in `s` at or after `i`, or -1 where there is none.
pub open spec fn first_index_from(s: Seq<char>, c: char, i: int) -> int
    decreases s.len() - i,
{
    if i < 0 || i >= s.len() {
        -1
    } else if s[i] == c {
        i
    } else {
        first_index_from(s, c, i + 1)
    }
}

/// `://` starts at position `i` of `s`.
pub open spec fn scheme_mark_at(s: Seq<char>, i: int) -> bool {
    0 <= i && i + 3 <= s.len() && s[i] == ':' && s[i + 1] == '/' && s[i + 2] == '/'
}

/// The position of the first `://` in `s` at or after `i`, or -1 where there is none.
pub open spec fn scheme_mark_from(s: Seq<char>, i: int) -> int
    decreases s.len() - i,
{
    if i < 0 || i + 3 > s.len() {
        -1
    } else if scheme_mark_at(s, i) {
        i
    } else {
        scheme_mark_from(s, i + 1)
    }
}

/// The domain of a URL: what lies between its first `://` and the first `/`
/// after that. A URL without both has none.
pub open spec fn domain_of(url: Seq<char>) -> Option<Seq<char>> {
    let p = scheme_mark_from(url, 0);
    let rest = url.subrange(p + 3, url.len() as int);
    let q = first_index_from(rest, '/', 0);
    if p < 0 || q < 0 {
        None
    } else {
        Some(rest.take(q))
    }
}

/// Some total in `t` is for domain `d`.
pub open spec fn has_domain(t: Seq<(Seq<char>, int)>, d: Seq<char>) -> bool {
    exists|k: int| 0 <= k < t.len() && #[trigger] t[k].0 == d
}

/// The position of the total for domain `d` (meaningful where `has_domain` holds).
pub open spec fn index_of_domain(t: Seq<(Seq<char>, int)>, d: Seq<char>) -> int {
    choose|k: int| 0 <= k < t.len() && #[trigger] t[k].0 == d
}

/// The totals after `h` more hits on domain `d`.
pub open spec fn add_hits(t: Seq<(Seq<char>, int)>, d: Seq<char>, h: int) -> Seq<(Seq<char>, int)> {
    if has_domain(t, d) {
        let k = index_of_domain(t, d);
        t.update(k, (d, t[k].1 + h))
    } else {
        t.push((d, h))
    }
}

/// Hits per domain over `es`, one total per domain, in the order in which
/// domains first occur; entries without a domain are passed over.
pub open spec fn tally(es: Seq<EntryModel>) -> Seq<(Seq<char>, int)>
    decreases es.len(),
{
    if es.len() == 0 {
        Seq::empty()
    } else {
        let t = tally(es.drop_last());
        match domain_of(es.last().url) {
            Some(d) => add_hits(t, d, es.last().hits as int),
            None => t,
        }
    }
}

/// `x` placed into `s` after every total at least as large as its own.
pub open spec fn insert_ranked(s: Seq<(Seq<char>, int)>, x: (Seq<char>, int)) -> Seq<(Seq<char>, int)>
    decreases s.len(),
{
    if s.len() == 0 {
        seq![x]
    } else if s[0].1 < x.1 {
        seq![x] + s
    } else {
        seq![s[0]] + insert_ranked(s.drop_first(), x)
    }
}

/// `t` sorted by total, largest first; equal totals keep their order in `t`.
pub open spec fn ranked(t: Seq<(Seq<char>, int)>) -> Seq<(Seq<char>, int)>
    decreases t.len(),
{
    if t.len() == 0 {
        Seq::empty()
    } else {
        insert_ranked(ranked(t.drop_last()), t.last())
    }
}

/// The report: the first `n` domains of the ranked totals.
pub open spec fn top_domains_of(es: Seq<EntryModel>, n: nat) -> Seq<(Seq<char>, int)> {
    let r = ranked(tally(es));
    if n < r.len() {
        r.take(n as int)
    } else {
        r
    }
}

/// A domain with its total hits.
#[derive(Debug)]
pub struct DomainCount {
    pub domain: String,
    pub count: u128,
}

impl View for DomainCount {
    type V = (Seq<char>, int);

    open spec fn view(&self) -> (Seq<char>, int) {
        (self.domain@, self.count as int)
    }
}

/// The models of a vector of totals.
pub open spec fn counts_of(v: Seq<DomainCount>) -> Seq<(Seq<char>, int)> {
    v.map_values(|d: DomainCount| d@)
}

proof fn lemma_first_index_from(s: Seq<char>, c: char, i: int, k: int)
    requires
        0 <= i <= s.len(),
        -1 <= k < s.len(),
        k >= 0 ==> i <= k && s[k] == c,
        forall|j: int| i <= j < s.len() && (k < 0 || j < k) ==> #[trigger] s[j] != c,
    ensures
        first_index_from(s, c, i) == k,
    decreases s.len() - i,
{
    if i < s.len() && i != k {
        lemma_first_index_from(s, c, i + 1, k);
    }
}

fn find_first(v: &Vec<char>, c: char) -> (r: Option<usize>)
    ensures
        r is None <==> first_index_from(v@, c, 0) == -1,
        r matches Some(i) ==> i == first_index_from(v@, c, 0) && i < v@.len(),
{
    let mut i: usize = 0;
    while i < v.len()
        invariant
            i <= v@.len(),
            forall|j: int| 0 <= j < i ==> #[trigger] v@[j] != c,
        decreases v@.len() - i,
    {
        if v[i] == c {
            proof { lemma_first_index_from(v@, c, 0, i as int); }
            return Some(i);
        }
        i = i + 1;
    }
    proof { lemma_first_index_from(v@, c, 0, -1); }
    None
}

proof fn lemma_scheme_mark_from(s: Seq<char>, i: int, k: int)
    requires
        0 <= i,
        -1 <= k,
        k >= 0 ==> i <= k && scheme_mark_at(s, k),
        forall|j: int| i <= j && j + 3 <= s.len() && (k < 0 || j < k) ==> !#[trigger] scheme_mark_at(s, j),
    ensures
        scheme_mark_from(s, i) == k,
    decreases s.len() - i,
{
    if i + 3 <= s.len() && i != k {
        lemma_scheme_mark_from(s, i + 1, k);
    }
}

fn find_scheme_mark(v: &Vec<char>) -> (r: Option<usize>)
    ensures
        r is None <==> scheme_mark_from(v@, 0) == -1,
        r matches Some(i) ==> i == scheme_mark_from(v@, 0) && i + 3 <= v@.len(),
{
    let n = v.len();
    if n < 3 {
        proof { lemma_scheme_mark_from(v@, 0, -1); }
        return None;
    }
    let mut i: usize = 0;
    while i <= n - 3
        invariant
            n == v@.len(),
            n >= 3,
            i <= n - 2,
            forall|j: int| 0 <= j < i ==> !#[trigger] scheme_mark_at(v@, j),
        decreases n - i,
    {
        if v[i] == ':' && v[i + 1] == '/' && v[i + 2] == '/' {
            proof { lemma_scheme_mark_from(v@, 0, i as int); }
            return Some(i);
        }
        i = i + 1;
    }
    proof { lemma_scheme_mark_from(v@, 0, -1); }
    None
}

/// The domain of `url`: what lies between its first `://` and the next `/`.
pub fn domain(url: &str) -> (r: Option<String>)
    ensures
        r is None <==> domain_of(url@) is None,
        r matches Some(d) ==> domain_of(url@) == Some(d@),
{
    let v = chars_of(url);
    let p = match find_scheme_mark(&v) {
        Some(p) => p,
        None => return None,
    };
    let n = v.len();
    let rest = slice_of(&v, p + 3, n);
    let q = match find_first(&rest, '/') {
        Some(q) => q,
        None => return None,
    };
    let d = slice_of(&rest, 0, q);
    assert(d@ =~= rest@.take(q as int));
    Some(string_of(&d))
}

/// No two totals are for one domain.
pub open spec fn domains_unique(t: Seq<(Seq<char>, int)>) -> bool {
    forall|a: int, b: int| 0 <= a < b < t.len() ==> #[trigger] t[a].0 != #[trigger] t[b].0
}

/// Totals are one per domain, and each lies between zero and the most that
/// `es.len()` counters can hold together.
proof fn lemma_tally(es: Seq<EntryModel>)
    ensures
        domains_unique(tally(es)),
        forall|k: int| 0 <= k < tally(es).len() ==> 0 <= #[trigger] tally(es)[k].1 <= es.len() * u64::MAX,
    decreases es.len(),
{
    if es.len() > 0 {
        let p = es.drop_last();
        lemma_tally(p);
        let t = tally(p);
        assert forall|k: int| 0 <= k < t.len() implies #[trigger] t[k].1 + u64::MAX <= es.len() * u64::MAX by {
            assert(t[k].1 <= p.len() * u64::MAX);
            assert((p.len() + 1) * u64::MAX == p.len() * u64::MAX + u64::MAX) by (nonlinear_arith);
        }
        assert(u64::MAX <= es.len() * u64::MAX) by (nonlinear_arith)
            requires es.len() >= 1;
        match domain_of(es.last().url) {
            Some(d) => {
                let u = add_hits(t, d, es.last().hits as int);
                if has_domain(t, d) {
                    let k = index_of_domain(t, d);
                    assert(t[k].0 == d);
                    assert forall|a: int, b: int| 0 <= a < b < u.len() implies #[trigger] u[a].0 != #[trigger] u[b].0 by {
                        assert(t[a].0 != t[b].0);
                    }
                } else {
                    assert forall|a: int, b: int| 0 <= a < b < u.len() implies #[trigger] u[a].0 != #[trigger] u[b].0 by {
                        if b == t.len() {
                            assert(t[a].0 != d);
                        } else {
                            assert(t[a].0 != t[b].0);
                        }
                    }
                }
            },
            None => {},
        }
    }
}

impl DomainCount {
    /// A copy of this total.
    pub fn duplicate(&self) -> (r: DomainCount)
        ensures
            r@ == self@,
    {
        DomainCount { domain: self.domain.clone(), count: self.count }
    }
}

/// Hits per domain over `entries`, in the order in which domains first occur.
pub fn tally_domains(entries: &Vec<Entry>) -> (r: Vec<DomainCount>)
    ensures
        counts_of(r@) == tally(models(entries@)),
{
    let mut totals: Vec<DomainCount> = Vec::new();
    let ghost es = models(entries@);
    let mut i: usize = 0;
    assert(counts_of(totals@) =~= tally(es.take(0)));
    while i < entries.len()
        invariant
            i <= entries@.len(),
            es == models(entries@),
            counts_of(totals@) == tally(es.take(i as int)),
        decreases entries@.len() - i,
    {
        let e = &entries[i];
        let ghost before = es.take(i as int);
        assert(es.take(i + 1).drop_last() =~= before);
        assert(es.take(i + 1).last() == e@);
        proof { lemma_tally(before); }
        match domain(e.original_url.as_str()) {
            None => {},
            Some(d) => {
                let ghost t = counts_of(totals@);
                let mut k: usize = 0;
                while k < totals.len() && !(totals[k].domain == d)
                    invariant
                        k <= totals@.len(),
                        t == counts_of(totals@),
                        forall|j: int| 0 <= j < k ==> #[trigger] t[j].0 != d@,
                    decreases totals@.len() - k,
                {
                    k = k + 1;
                }
                let ghost dv = d@;
                if k < totals.len() {
                    assert(t[k as int].0 == d@);
                    let ghost c = index_of_domain(t, d@);
                    assert(t[c].0 == d@);
                    assert(c == k as int) by {
                        if c != k as int {
                            assert(t[c].0 == t[k as int].0);
                        }
                    }
                    let prior = totals[k].count;
                    assert(t[k as int].1 == prior as int);
                    assert(before.len() == i);
                    assert(t[k as int].1 <= before.len() * u64::MAX);
                    assert(i * u64::MAX + u64::MAX <= u128::MAX) by (nonlinear_arith)
                        requires i < usize::MAX, usize::MAX <= u64::MAX;
                    let total = prior + e.hit_count as u128;
                    totals.set(k, DomainCount { domain: d, count: total });
                    assert(counts_of(totals@) =~= add_hits(t, dv, e.hit_count as int));
                } else {
                    assert(!has_domain(t, dv));
                    totals.push(DomainCount { domain: d, count: e.hit_count as u128 });
                    assert(counts_of(totals@) =~= t.push((dv, e.hit_count as int)));
                }
            },
        }
        i = i + 1;
    }
    assert(es.take(i as int) =~= es);
    totals
}

proof fn lemma_insert_ranked(s: Seq<(Seq<char>, int)>, x: (Seq<char>, int), p: int)
    requires
        0 <= p <= s.len(),
        forall|j: int| 0 <= j < p ==> #[trigger] s[j].1 >= x.1,
        p < s.len() ==> s[p].1 < x.1,
    ensures
        insert_ranked(s, x) == s.insert(p, x),
    decreases s.len(),
{
    if s.len() == 0 {
        assert(s.insert(p, x) =~= seq![x]);
    } else if p == 0 {
        assert(s.insert(p, x) =~= seq![x] + s);
    } else {
        let r = s.drop_first();
        assert forall|j: int| 0 <= j < p - 1 implies #[trigger] r[j].1 >= x.1 by {
            assert(r[j] == s[j + 1]);
        }
        lemma_insert_ranked(r, x, p - 1);
        assert(seq![s[0]] + r.insert(p - 1, x) =~= s.insert(p, x));
    }
}

/// `totals` sorted by total, largest first; equal totals keep their order.
pub fn rank_domains(totals: &Vec<DomainCount>) -> (r: Vec<DomainCount>)
    ensures
        counts_of(r@) == ranked(counts_of(totals@)),
{
    let mut sorted: Vec<DomainCount> = Vec::new();
    let ghost t = counts_of(totals@);
    let mut i: usize = 0;
    assert(counts_of(sorted@) =~= ranked(t.take(0)));
    while i < totals.len()
        invariant
            i <= totals@.len(),
            t == counts_of(totals@),
            counts_of(sorted@) == ranked(t.take(i as int)),
        decreases totals@.len() - i,
    {
        let x = totals[i].duplicate();
        let ghost s = counts_of(sorted@);
        let mut p: usize = 0;
        while p < sorted.len() && sorted[p].count >= x.count
            invariant
                p <= sorted@.len(),
                s == counts_of(sorted@),
                forall|j: int| 0 <= j < p ==> #[trigger] s[j].1 >= x@.1,
            decreases sorted@.len() - p,
        {
            p = p + 1;
        }
        proof { lemma_insert_ranked(s, x@, p as int); }
        sorted.insert(p, x);
        assert(counts_of(sorted@) =~= s.insert(p as int, totals@[i as int]@));
        assert(t.take(i + 1).drop_last() =~= t.take(i as int));
        i = i + 1;
    }
    assert(t.take(i as int) =~= t);
    sorted
}

/// The `n` domains with the most hits over `entries`, largest total first;
/// equal totals in the order in which their domains first occur. Entries
/// whose URL has no domain are passed over.
pub fn top_domains(entries: &Vec<Entry>, n: usize) -> (r: Vec<DomainCount>)
    ensures
        counts_of(r@) == top_domains_of(models(entries@), n as nat),
{
    let totals = tally_domains(entries);
    let mut sorted = rank_domains(&totals);
    sorted.truncate(n);
    assert(counts_of(sorted@) =~= top_domains_of(models(entries@), n as nat));
    sorted
}

} // verus!

verus! {

/// Totals never grow along `s`.
pub open spec fn descending(s: Seq<(Seq<char>, int)>) -> bool {
    forall|a: int, b: int| 0 <= a < b < s.len() ==> #[trigger] s[a].1 >= #[trigger] s[b].1
}

proof fn lemma_insert_ranked_facts(s: Seq<(Seq<char>, int)>, x: (Seq<char>, int))
    requires
        descending(s),
    ensures
        descending(insert_ranked(s, x)),
        insert_ranked(s, x).to_multiset() == s.to_multiset().insert(x),
    decreases s.len(),
{
    broadcast use vstd::seq_lib::group_seq_properties, vstd::multiset::group_multiset_axioms;

    let r = insert_ranked(s, x);
    if s.len() == 0 {
        assert(r =~= Seq::<(Seq<char>, int)>::empty().push(x));
        Seq::<(Seq<char>, int)>::empty().to_multiset_ensures();
        Seq::<(Seq<char>, int)>::empty().push(x).to_multiset_ensures();
    } else if s[0].1 < x.1 {
        assert(r =~= s.insert(0, x));
        s.to_multiset_ensures();
        vstd::seq_lib::lemma_seq_union_to_multiset_commutative(seq![x], s);
        vstd::seq_lib::lemma_multiset_commutative(seq![x], s);
        assert(seq![x].to_multiset() =~= vstd::multiset::Multiset::empty().insert(x)) by {
            Seq::<(Seq<char>, int)>::empty().push(x).to_multiset_ensures();
            assert(Seq::<(Seq<char>, int)>::empty().push(x) =~= seq![x]);
            Seq::<(Seq<char>, int)>::empty().to_multiset_ensures();
        }
        assert(r.to_multiset() =~= s.to_multiset().insert(x));
        assert forall|a: int, b: int| 0 <= a < b < r.len() implies #[trigger] r[a].1 >= #[trigger] r[b].1 by {
            if a > 0 {
                assert(r[a] == s[a - 1] && r[b] == s[b - 1]);
            } else {
                assert(r[b] == s[b - 1]);
                if b > 1 {
                    assert(s[0].1 >= s[b - 1].1);
                }
            }
        }
    } else {
        let t = s.drop_first();
        assert(descending(t)) by {
            assert forall|a: int, b: int| 0 <= a < b < t.len() implies #[trigger] t[a].1 >= #[trigger] t[b].1 by {
                assert(t[a] == s[a + 1] && t[b] == s[b + 1]);
            }
        }
        lemma_insert_ranked_facts(t, x);
        let u = insert_ranked(t, x);
        assert(r =~= seq![s[0]] + u);
        vstd::seq_lib::lemma_multiset_commutative(seq![s[0]], u);
        vstd::seq_lib::lemma_multiset_commutative(seq![s[0]], t);
        assert(seq![s[0]] + t =~= s);
        assert(r.to_multiset() =~= s.to_multiset().insert(x));
        assert forall|a: int, b: int| 0 <= a < b < r.len() implies #[trigger] r[a].1 >= #[trigger] r[b].1 by {
            if a > 0 {
                assert(r[a] == u[a - 1] && r[b] == u[b - 1]);
            } else {
                assert(r[b] == u[b - 1]);
                assert(u.to_multiset().count(u[b - 1]) > 0) by {
                    u.to_multiset_ensures();
                }
                assert(u[b - 1] == x || t.to_multiset().count(u[b - 1]) > 0);
                if u[b - 1] != x {
                    t.to_multiset_ensures();
                    assert(t.contains(u[b - 1]));
                    let k = choose|k: int| 0 <= k < t.len() && t[k] == u[b - 1];
                    assert(s[0].1 >= s[k + 1].1);
                }
            }
        }
    }
}

/// The ranking orders totals from largest to smallest and holds each total
/// of `t` exactly as often as `t` does.
pub proof fn lemma_ranked(t: Seq<(Seq<char>, int)>)
    ensures
        descending(ranked(t)),
        ranked(t).to_multiset() == t.to_multiset(),
    decreases t.len(),
{
    broadcast use vstd::seq_lib::group_seq_properties, vstd::multiset::group_multiset_axioms;

    if t.len() == 0 {
        assert(t =~= Seq::<(Seq<char>, int)>::empty());
        t.to_multiset_ensures();
        assert(ranked(t).to_multiset() =~= t.to_multiset());
    } else {
        let p = t.drop_last();
        lemma_ranked(p);
        lemma_insert_ranked_facts(ranked(p), t.last());
        p.to_multiset_ensures();
        assert(p.push(t.last()) =~= t);
    }
}

} // verus!
