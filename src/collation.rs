//! Locale-aware ordering of the daily city counts: cities are ordered by
//! the sort keys of a Hungarian collator, compared byte by byte.

use vstd::prelude::*;
use crate::text::{
    Tally,
    copy_text,
    lemma_text_lt_irreflexive,
    lemma_text_lt_total,
    tally,
    tally_texts,
    text_less,
    text_lt,
    texts_increasing,
    texts_of,
};

verus! {

/// The sort key that ICU4X's Hungarian collator (default options) writes
/// for a text.
pub uninterp spec fn hungarian_sort_key(s: Seq<char>) -> Seq<u8>;

/// Relies on icu_collator's `Collator::try_new` for the `hu` locale with
/// compiled data, and on `CollatorBorrowed::write_sort_key_to`: comparing
/// two such keys byte by byte orders the texts as the collator does. No key
/// when the collator cannot be built.
#[verifier::external_body]
fn collation_key(s: &Vec<char>) -> (r: Option<Vec<u8>>)
    ensures
        r matches Some(k) ==> k@ == hungarian_sort_key(s@),
{
    let locale: icu_locale_core::Locale = "hu".parse().ok()?;
    let collator = icu_collator::Collator::try_new((&locale).into(), Default::default()).ok()?;
    let text: String = s.iter().collect();
    let mut key: Vec<u8> = Vec::new();
    match collator.write_sort_key_to(text.as_str(), &mut key) {
        Ok(()) => Some(key),
        Err(never) => match never {},
    }
}

/// A sort key's bytes as characters of the same code, so that `text_lt`
/// on them is the bytewise order of the keys.
pub open spec fn key_text(k: Seq<u8>) -> Seq<char> {
    k.map_values(|b: u8| b as char)
}

/// The collation key of a city, as characters.
pub open spec fn city_collation_key(t: Tally) -> Seq<char> {
    key_text(hungarian_sort_key(t.text@))
}

/// The collation keys of cities, in their order.
pub open spec fn city_collation_keys(cities: Seq<Tally>) -> Seq<Seq<char>> {
    cities.map_values(|t: Tally| city_collation_key(t))
}

fn key_chars(k: &Vec<u8>) -> (r: Vec<char>)
    ensures
        r@ == key_text(k@),
{
    let mut r: Vec<char> = Vec::new();
    let mut i: usize = 0;
    while i < k.len()
        invariant
            i <= k@.len(),
            r@ == key_text(k@.take(i as int)),
        decreases k@.len() - i,
    {
        r.push(k[i] as char);
        assert(key_text(k@.take(i + 1)) =~= key_text(k@.take(i as int)).push(k@[i as int] as char));
        i += 1;
    }
    assert(k@.take(i as int) =~= k@);
    r
}

/// Position `i` occurs in `order`.
pub open spec fn occurs(order: Seq<usize>, i: int) -> bool {
    exists|p: int| 0 <= p < order.len() && order[p] == i
}

/// `order` lists every position of `keys` once, in increasing order of
/// key, equal keys in increasing order of position.
pub open spec fn is_key_order(keys: Seq<Seq<char>>, order: Seq<usize>) -> bool {
    &&& order.len() == keys.len()
    &&& forall|p: int| 0 <= p < order.len() ==> (#[trigger] order[p] as int) < keys.len()
    &&& forall|i: int| 0 <= i < keys.len() ==> #[trigger] occurs(order, i)
    &&& forall|a: int, b: int|
        0 <= a < b < order.len() ==> text_lt(keys[#[trigger] order[a] as int], keys[#[trigger] order[b] as int])
            || (keys[order[a] as int] == keys[order[b] as int] && order[a] < order[b])
}

pub(crate) fn same_text(a: &Vec<char>, b: &Vec<char>) -> (r: bool)
    ensures
        r == (a@ == b@),
{
    proof {
        lemma_text_lt_total(a@, b@);
        lemma_text_lt_irreflexive(a@);
    }
    !text_less(a, b) && !text_less(b, a)
}

/// Orders positions by their keys; equal keys keep their order.
pub fn order_by_keys(keys: &Vec<Vec<char>>) -> (order: Vec<usize>)
    ensures
        is_key_order(texts_of(keys@), order@),
{
    let ghost ks = texts_of(keys@);
    let n = keys.len();
    let mut copies: Vec<Vec<char>> = Vec::new();
    let mut q: usize = 0;
    while q < n
        invariant
            q <= n,
            n == keys@.len(),
            ks == texts_of(keys@),
            texts_of(copies@) == ks.take(q as int),
        decreases n - q,
    {
        let ghost prev = copies@;
        let c = copy_text(&keys[q]);
        copies.push(c);
        assert(copies@ == prev.push(c));
        assert(ks[q as int] == keys@[q as int]@);
        assert(ks.take(q + 1) =~= ks.take(q as int).push(ks[q as int]));
        assert(texts_of(copies@) =~= ks.take(q + 1));
        q += 1;
    }
    assert(ks.take(n as int) =~= ks);
    let groups = tally(copies);
    let ghost gs = tally_texts(groups@);
    let mut order: Vec<usize> = Vec::new();
    let ghost mut gi: Seq<int> = Seq::empty();
    let mut j: usize = 0;
    while j < groups.len()
        invariant
            j <= groups@.len(),
            n == keys@.len(),
            ks == texts_of(keys@),
            gs == tally_texts(groups@),
            texts_increasing(gs),
            forall|x: Seq<char>| gs.contains(x) <==> ks.contains(x),
            gi.len() == order@.len(),
            forall|p: int| 0 <= p < order@.len() ==> 0 <= #[trigger] gi[p] < j,
            forall|p: int|
                0 <= p < order@.len() ==> (#[trigger] order@[p] as int) < n && ks[order@[p] as int]
                    == gs[gi[p]],
            forall|a: int, b: int|
                0 <= a < b < order@.len() ==> gi[a] < gi[b] || (gi[a] == gi[b] && order@[a]
                    < order@[b]),
            forall|i: int, g: int|
                0 <= i < n && 0 <= g < j && ks[i] == gs[g] ==> exists|p: int|
                    0 <= p < order@.len() && #[trigger] order@[p] == i,
        decreases groups@.len() - j,
    {
        let mut i: usize = 0;
        let ghost start = order@.len();
        while i < n
            invariant
                i <= n,
                j < groups@.len(),
                n == keys@.len(),
                ks == texts_of(keys@),
                gs == tally_texts(groups@),
                start <= order@.len(),
                gi.len() == order@.len(),
                forall|p: int| 0 <= p < order@.len() ==> 0 <= #[trigger] gi[p] <= j,
                forall|p: int|
                    0 <= p < order@.len() ==> (#[trigger] order@[p] as int) < n && ks[order@[p] as int]
                        == gs[gi[p]],
                forall|p: int| start <= p < order@.len() ==> #[trigger] gi[p] == j,
                forall|p: int| start <= p < order@.len() ==> (#[trigger] order@[p] as int) < i,
                forall|p: int| 0 <= p < start ==> #[trigger] gi[p] < j,
                forall|a: int, b: int|
                    0 <= a < b < order@.len() ==> gi[a] < gi[b] || (gi[a] == gi[b] && order@[a]
                        < order@[b]),
                forall|i2: int, g: int|
                    0 <= i2 < n && 0 <= g < j && ks[i2] == gs[g] ==> exists|p: int|
                        0 <= p < order@.len() && #[trigger] order@[p] == i2,
                forall|i2: int|
                    0 <= i2 < i && ks[i2] == gs[j as int] ==> exists|p: int|
                        0 <= p < order@.len() && #[trigger] order@[p] == i2,
            decreases n - i,
        {
            assert(ks[i as int] == keys@[i as int]@);
            assert(gs[j as int] == groups@[j as int].text@);
            if same_text(&keys[i], &groups[j].text) {
                let ghost before = order@;
                order.push(i);
                proof {
                    gi = gi.push(j as int);
                    assert forall|i2: int, g: int|
                        0 <= i2 < n && 0 <= g < j && ks[i2] == gs[g] implies exists|p: int|
                        0 <= p < order@.len() && #[trigger] order@[p] == i2 by {
                        let p = choose|p: int| 0 <= p < before.len() && #[trigger] before[p] == i2;
                        assert(order@[p] == i2);
                    }
                    assert forall|i2: int|
                        0 <= i2 < i + 1 && ks[i2] == gs[j as int] implies exists|p: int|
                        0 <= p < order@.len() && #[trigger] order@[p] == i2 by {
                        if i2 == i {
                            assert(order@[before.len() as int] == i2);
                        } else {
                            let p = choose|p: int| 0 <= p < before.len() && #[trigger] before[p] == i2;
                            assert(order@[p] == i2);
                        }
                    }
                    assert forall|a: int, b: int|
                        0 <= a < b < order@.len() implies gi[a] < gi[b] || (gi[a] == gi[b]
                        && order@[a] < order@[b]) by {
                        if b == before.len() {
                            assert(order@[a] == before[a]);
                        } else {
                            assert(order@[a] == before[a]);
                            assert(order@[b] == before[b]);
                        }
                    }
                    assert forall|p: int| 0 <= p < order@.len() implies (#[trigger] order@[p] as int) < n
                        && ks[order@[p] as int] == gs[gi[p]] by {
                        if p < before.len() {
                            assert(order@[p] == before[p]);
                        }
                    }
                    assert forall|p: int| start <= p < order@.len() implies (
                    #[trigger] order@[p] as int) < i + 1 by {
                        if p < before.len() {
                            assert(order@[p] == before[p]);
                        }
                    }
                }
            }
            i += 1;
        }
        proof {
            assert forall|i2: int, g: int|
                0 <= i2 < n && 0 <= g < j + 1 && ks[i2] == gs[g] implies exists|p: int|
                0 <= p < order@.len() && #[trigger] order@[p] == i2 by {
                if g == j as int {
                    assert(ks[i2] == gs[j as int]);
                }
            }
        }
        j += 1;
    }
    proof {
        let ord = order@;
        assert forall|a: int, b: int| 0 <= a < b < ord.len() implies text_lt(
            ks[#[trigger] ord[a] as int],
            ks[#[trigger] ord[b] as int],
        ) || (ks[ord[a] as int] == ks[ord[b] as int] && ord[a] < ord[b]) by {
            if gi[a] < gi[b] {
                assert(text_lt(gs[gi[a]], gs[gi[b]]));
            }
        }
        // Every position occurs, each once, so there are exactly n of them.
        let taken = ord.map_values(|x: usize| x as int);
        assert forall|i: int| 0 <= i < n implies #[trigger] occurs(ord, i) by {
            assert(ks.contains(ks[i]));
            assert(gs.contains(ks[i]));
            let g = choose|g: int| 0 <= g < gs.len() && gs[g] == ks[i];
        }
        assert(taken.no_duplicates()) by {
            assert forall|a: int, b: int| 0 <= a < taken.len() && 0 <= b < taken.len() && a != b implies taken[a] != taken[b] by {
                let (x, y) = if a < b { (a, b) } else { (b, a) };
                if gi[x] < gi[y] {
                    assert(text_lt(gs[gi[x]], gs[gi[y]]));
                    lemma_text_lt_irreflexive(gs[gi[x]]);
                }
            }
        }
        taken.unique_seq_to_set();
        assert(taken.to_set() =~= vstd::set_lib::set_int_range(0, n as int)) by {
            assert forall|i: int| taken.to_set().contains(i) <==> vstd::set_lib::set_int_range(0, n as int).contains(i) by {
                if 0 <= i < n {
                    assert(occurs(ord, i));
                    let p = choose|p: int| 0 <= p < ord.len() && ord[p] == i;
                    assert(taken[p] == i);
                }
                if taken.to_set().contains(i) {
                    let p = choose|p: int| 0 <= p < taken.len() && taken[p] == i;
                    assert(ord[p] as int == i);
                }
            }
        }
        vstd::set_lib::lemma_int_range(0, n as int);
    }
    order
}

/// The city counts in the order of their keys, or no order at all when the
/// collator cannot be built.
pub fn collate_cities(cities: &Vec<Tally>) -> (r: Option<Vec<usize>>)
    ensures
        r matches Some(order) ==> is_key_order(
            city_collation_keys(cities@),
            order@,
        ),
{
    let mut keys: Vec<Vec<char>> = Vec::new();
    let mut i: usize = 0;
    while i < cities.len()
        invariant
            i <= cities@.len(),
            texts_of(keys@) == city_collation_keys(cities@.take(i as int)),
        decreases cities@.len() - i,
    {
        match collation_key(&cities[i].text) {
            Some(k) => {
                let c = key_chars(&k);
                let ghost prev = keys@;
                keys.push(c);
                assert(keys@ == prev.push(c));
                assert(c@ == city_collation_key(cities@[i as int]));
                assert(cities@.take(i + 1) =~= cities@.take(i as int).push(cities@[i as int]));
                assert(city_collation_keys(cities@.take(i + 1)) =~= city_collation_keys(
                    cities@.take(i as int),
                ).push(city_collation_key(cities@[i as int])));
                assert(texts_of(keys@) =~= city_collation_keys(cities@.take(i + 1)));
            },
            None => {
                return None;
            },
        }
        i += 1;
    }
    assert(cities@.take(i as int) =~= cities@);
    Some(order_by_keys(&keys))
}

/// The tallies in the given order.
pub fn reorder(cities: &Vec<Tally>, order: &Vec<usize>) -> (r: Vec<Tally>)
    requires
        forall|p: int| 0 <= p < order@.len() ==> (#[trigger] order@[p] as int) < cities@.len(),
    ensures
        r@.len() == order@.len(),
        forall|p: int|
            0 <= p < r@.len() ==> (#[trigger] r@[p]).text@ == cities@[order@[p] as int].text@
                && r@[p].count == cities@[order@[p] as int].count,
{
    let mut r: Vec<Tally> = Vec::new();
    let mut p: usize = 0;
    while p < order.len()
        invariant
            p <= order@.len(),
            forall|q: int| 0 <= q < order@.len() ==> (#[trigger] order@[q] as int) < cities@.len(),
            r@.len() == p,
            forall|q: int|
                0 <= q < p ==> (#[trigger] r@[q]).text@ == cities@[order@[q] as int].text@
                    && r@[q].count == cities@[order@[q] as int].count,
        decreases order@.len() - p,
    {
        let t = &cities[order[p]];
        r.push(Tally { text: copy_text(&t.text), count: t.count });
        p += 1;
    }
    r
}

} // verus!
