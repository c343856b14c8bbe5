//! Daily statistics: a day's country-wide extract of address records
//! turned into a distinct house-number count, per-city counts and a ranking
//! of editors; the reference total; and which old extracts to remove.

use vstd::prelude::*;
use crate::text::{
    Tally,
    append_text,
    copy_text,
    count_distinct,
    decimal,
    push_decimal,
    lemma_tally_len,
    lemma_text_lt_asymmetric,
    lemma_text_lt_irreflexive,
    lemma_text_lt_total,
    lemma_text_lt_transitive,
    split_on,
    split_text,
    tally,
    tally_texts,
    text_less,
    text_lt,
    texts_increasing,
    texts_of,
};

verus! {

/// What `str::to_lowercase` makes of a text.
pub uninterp spec fn lower_of(s: Seq<char>) -> Seq<char>;

/// Relies on `str::to_lowercase`: the lowercase form of a text depends on
/// its characters alone, and the empty text stays empty.
#[verifier::external_body]
fn lowercase(s: &Vec<char>) -> (r: Vec<char>)
    ensures
        r@ == lower_of(s@),
        s@.len() == 0 ==> r@.len() == 0,
{
    let text: String = s.iter().collect();
    text.to_lowercase().chars().collect()
}

/// A settlement-normalization entry: records with this postcode whose
/// lowercased city is `city` are counted under `key`.
pub struct CityAlias {
    pub postcode: Vec<char>,
    pub city: Vec<char>,
    pub key: Vec<char>,
}

/// The key of the first entry matching the postcode and lowercased city,
/// or that city itself when none does.
pub open spec fn alias_key(aliases: Seq<CityAlias>, postcode: Seq<char>, city: Seq<char>) -> Seq<
    char,
>
    decreases aliases.len(),
{
    if aliases.len() == 0 {
        city
    } else if aliases[0].postcode@ == postcode && aliases[0].city@ == city {
        aliases[0].key@
    } else {
        alias_key(aliases.drop_first(), postcode, city)
    }
}

/// The canonical city key of a record.
pub open spec fn city_key_of(aliases: Seq<CityAlias>, postcode: Seq<char>, city: Seq<char>) -> Seq<
    char,
> {
    alias_key(aliases, postcode, lower_of(city))
}

proof fn lemma_alias_key_skip(aliases: Seq<CityAlias>, postcode: Seq<char>, city: Seq<char>, i: int)
    requires
        0 <= i < aliases.len(),
        !(aliases[i].postcode@ == postcode && aliases[i].city@ == city),
    ensures
        alias_key(aliases.skip(i), postcode, city) == alias_key(aliases.skip(i + 1), postcode, city),
{
    assert(aliases.skip(i).drop_first() =~= aliases.skip(i + 1));
}

/// Combines a record's postcode and city into its canonical city key.
pub fn city_key(aliases: &Vec<CityAlias>, postcode: &Vec<char>, city: &Vec<char>) -> (r: Vec<char>)
    ensures
        r@ == city_key_of(aliases@, postcode@, city@),
{
    let lowered = lowercase(city);
    alias_lookup(aliases, postcode, &lowered)
}

/// Looks up the key of a postcode and an already lowercased city in the
/// alias table; the city itself when no entry matches.
pub fn alias_lookup(aliases: &Vec<CityAlias>, postcode: &Vec<char>, lowered: &Vec<char>) -> (r: Vec<
    char,
>)
    ensures
        r@ == alias_key(aliases@, postcode@, lowered@),
{
    let mut i: usize = 0;
    assert(aliases@.skip(0) =~= aliases@);
    while i < aliases.len()
        invariant
            i <= aliases@.len(),
            alias_key(aliases@, postcode@, lowered@) == alias_key(
                aliases@.skip(i as int),
                postcode@,
                lowered@,
            ),
        decreases aliases@.len() - i,
    {
        let a = &aliases[i];
        let same_postcode = !text_less(&a.postcode, postcode) && !text_less(postcode, &a.postcode);
        let same_city = !text_less(&a.city, lowered) && !text_less(lowered, &a.city);
        proof {
            lemma_text_lt_total(a.postcode@, postcode@);
            lemma_text_lt_irreflexive(postcode@);
            lemma_text_lt_total(a.city@, lowered@);
            lemma_text_lt_irreflexive(lowered@);
        }
        if same_postcode && same_city {
            assert(aliases@.skip(i as int)[0] == aliases@[i as int]);
            return copy_text(&a.key);
        }
        proof {
            lemma_alias_key_skip(aliases@, postcode@, lowered@, i as int);
        }
        i += 1;
    }
    assert(aliases@.skip(i as int) =~= Seq::<CityAlias>::empty());
    copy_text(lowered)
}

/// The values recorded under `key`.
pub open spec fn values_under(keys: Seq<Seq<char>>, values: Seq<Seq<char>>, key: Seq<char>) -> Set<
    Seq<char>,
> {
    Set::new(|v: Seq<char>| exists|q: int| 0 <= q < keys.len() && keys[q] == key && values[q] == v)
}

/// Finds the position of `key` among tallies in increasing order of text.
fn locate(t: &Vec<Tally>, key: &Vec<char>) -> (j: usize)
    requires
        texts_increasing(tally_texts(t@)),
        tally_texts(t@).contains(key@),
    ensures
        j < t@.len(),
        t@[j as int].text@ == key@,
{
    let ghost ts = tally_texts(t@);
    let ghost w = choose|w: int| 0 <= w < ts.len() && ts[w] == key@;
    let mut lo: usize = 0;
    let mut hi: usize = t.len();
    while lo + 1 < hi
        invariant
            ts == tally_texts(t@),
            texts_increasing(ts),
            0 <= w < ts.len(),
            ts[w] == key@,
            lo <= w < hi <= t@.len(),
        decreases hi - lo,
    {
        let mid = lo + (hi - lo) / 2;
        assert(ts[mid as int] == t@[mid as int].text@);
        if text_less(key, &t[mid].text) {
            proof {
                if w >= mid {
                    if w > mid {
                        assert(text_lt(ts[mid as int], ts[w]));
                    }
                    lemma_text_lt_asymmetric(key@, ts[mid as int]);
                    lemma_text_lt_irreflexive(key@);
                }
            }
            hi = mid;
        } else {
            proof {
                if w < mid {
                    assert(text_lt(ts[w], ts[mid as int]));
                }
            }
            lo = mid;
        }
    }
    assert(ts[lo as int] == t@[lo as int].text@);
    lo
}

/// Groups values by key and counts the different values under each key;
/// the groups come in increasing order of key.
pub fn group_counts(keys: &Vec<Vec<char>>, values: &Vec<Vec<char>>) -> (r: Vec<Tally>)
    requires
        keys@.len() == values@.len(),
    ensures
        texts_increasing(tally_texts(r@)),
        forall|x: Seq<char>| tally_texts(r@).contains(x) <==> texts_of(keys@).contains(x),
        forall|j: int|
            0 <= j < r@.len() ==> (#[trigger] r@[j]).count == values_under(
                texts_of(keys@),
                texts_of(values@),
                r@[j].text@,
            ).len(),
{
    let ghost ks = texts_of(keys@);
    let ghost vs = texts_of(values@);
    let mut all_keys: Vec<Vec<char>> = Vec::new();
    let mut q: usize = 0;
    while q < keys.len()
        invariant
            q <= keys@.len(),
            ks == texts_of(keys@),
            texts_of(all_keys@) == ks.take(q as int),
        decreases keys@.len() - q,
    {
        let ghost prev = all_keys@;
        let k = copy_text(&keys[q]);
        all_keys.push(k);
        assert(all_keys@ == prev.push(k));
        assert(ks[q as int] == keys@[q as int]@);
        assert(ks.take(q + 1) =~= ks.take(q as int).push(ks[q as int]));
        assert(texts_of(all_keys@) =~= ks.take(q + 1));
        q += 1;
    }
    assert(ks.take(q as int) =~= ks);
    let groups = tally(all_keys);
    let ghost gs = tally_texts(groups@);
    let mut buckets: Vec<Vec<Vec<char>>> = Vec::new();
    let mut j: usize = 0;
    while j < groups.len()
        invariant
            j <= groups@.len(),
            buckets@.len() == j,
            forall|b: int| 0 <= b < j ==> (#[trigger] buckets@[b])@.len() == 0,
        decreases groups@.len() - j,
    {
        buckets.push(Vec::new());
        j += 1;
    }
    q = 0;
    while q < keys.len()
        invariant
            q <= keys@.len(),
            ks == texts_of(keys@),
            vs == texts_of(values@),
            keys@.len() == values@.len(),
            ks.len() == keys@.len(),
            vs.len() == keys@.len(),
            gs == tally_texts(groups@),
            texts_increasing(gs),
            forall|x: Seq<char>| gs.contains(x) <==> ks.contains(x),
            buckets@.len() == groups@.len(),
            forall|b: int, v: Seq<char>|
                0 <= b < buckets@.len() ==> (#[trigger] texts_of(buckets@[b]@).contains(v) <==> exists|
                    p: int,
                | 0 <= p < q && ks[p] == gs[b] && vs[p] == v),
        decreases keys@.len() - q,
    {
        assert(ks[q as int] == keys@[q as int]@);
        assert(ks.contains(ks[q as int]));
        let g = locate(&groups, &keys[q]);
        let ghost before = buckets@;
        let value = copy_text(&values[q]);
        assert(value@ == vs[q as int]);
        assert(gs[g as int] == groups@[g as int].text@);
        assert(gs[g as int] == ks[q as int]);
        buckets[g].push(value);
        assert(buckets@[g as int]@ == before[g as int]@.push(value));
        assert(forall|b: int| 0 <= b < buckets@.len() && b != g ==> buckets@[b] == before[b]);
        proof {
            let ghost qi = q as int;
            assert forall|b: int, v: Seq<char>|
                0 <= b < buckets@.len() implies (#[trigger] texts_of(buckets@[b]@).contains(v)
                <==> exists|p: int| 0 <= p < qi + 1 && ks[p] == gs[b] && vs[p] == v) by {
                let old_has = texts_of(before[b]@).contains(v);
                assert(old_has <==> exists|p: int| 0 <= p < qi && ks[p] == gs[b] && vs[p] == v);
                if b == g as int {
                    let nb = texts_of(buckets@[b]@);
                    let ob = texts_of(before[b]@);
                    assert(nb =~= ob.push(vs[qi]));
                    if nb.contains(v) {
                        if v != vs[qi] {
                            let i = choose|i: int| 0 <= i < nb.len() && #[trigger] nb[i] == v;
                            assert(ob[i] == v);
                            assert(old_has);
                        } else {
                            assert(ks[qi] == gs[b] && vs[qi] == v);
                        }
                    }
                    if exists|p: int| 0 <= p < qi + 1 && ks[p] == gs[b] && vs[p] == v {
                        let p = choose|p: int| 0 <= p < qi + 1 && ks[p] == gs[b] && vs[p] == v;
                        if p == qi {
                            assert(nb[ob.len() as int] == v);
                        } else {
                            assert(old_has);
                            let i = choose|i: int| 0 <= i < ob.len() && #[trigger] ob[i] == v;
                            assert(nb[i] == v);
                        }
                    }
                } else {
                    assert(buckets@[b] == before[b]);
                    if ks[qi] == gs[b] {
                        assert(gs[b] == gs[g as int]);
                        if b < g as int {
                            assert(text_lt(gs[b], gs[g as int]));
                        } else {
                            assert(text_lt(gs[g as int], gs[b]));
                        }
                        lemma_text_lt_irreflexive(gs[b]);
                    }
                    if exists|p: int| 0 <= p < qi + 1 && ks[p] == gs[b] && vs[p] == v {
                        let p = choose|p: int| 0 <= p < qi + 1 && ks[p] == gs[b] && vs[p] == v;
                        assert(p < qi);
                    }
                }
            }
        }
        q += 1;
    }
    let mut r: Vec<Tally> = Vec::new();
    j = 0;
    while j < groups.len()
        invariant
            j <= groups@.len(),
            buckets@.len() == groups@.len(),
            ks == texts_of(keys@),
            vs == texts_of(values@),
            gs == tally_texts(groups@),
            r@.len() == j,
            forall|b: int| 0 <= b < j ==> (#[trigger] r@[b]).text@ == gs[b],
            forall|b: int|
                0 <= b < j ==> (#[trigger] r@[b]).count == values_under(ks, vs, gs[b]).len(),
            forall|b: int, v: Seq<char>|
                j <= b < buckets@.len() ==> (#[trigger] texts_of(buckets@[b]@).contains(v) <==> exists|
                    p: int,
                | 0 <= p < keys@.len() && ks[p] == gs[b] && vs[p] == v),
        decreases groups@.len() - j,
    {
        let mut bucket: Vec<Vec<char>> = Vec::new();
        let ghost before = buckets@;
        std::mem::swap(&mut bucket, &mut buckets[j]);
        assert(bucket == before[j as int]);
        assert(texts_of(bucket@).to_set() =~= values_under(ks, vs, gs[j as int])) by {
            assert forall|v: Seq<char>| texts_of(bucket@).to_set().contains(v) == values_under(
                ks,
                vs,
                gs[j as int],
            ).contains(v) by {
                assert(texts_of(before[j as int]@).contains(v) <==> exists|p: int|
                    0 <= p < keys@.len() && ks[p] == gs[j as int] && vs[p] == v);
            }
        }
        let count = count_distinct(bucket);
        assert(gs[j as int] == groups@[j as int].text@);
        r.push(Tally { text: copy_text(&groups[j].text), count });
        proof {
            assert forall|b: int, v: Seq<char>|
                j + 1 <= b < buckets@.len() implies (#[trigger] texts_of(buckets@[b]@).contains(v)
                <==> exists|p: int| 0 <= p < keys@.len() && ks[p] == gs[b] && vs[p] == v) by {
                assert(buckets@[b] == before[b]);
            }
        }
        j += 1;
    }
    proof {
        assert(tally_texts(r@) =~= gs);
    }
    r
}

/// `a` ranks above `b`: a higher count, or an equal count and a name that
/// sorts first.
pub open spec fn outranks(a: Tally, b: Tally) -> bool {
    ranks_before(a.count as int, a.text@, b.count as int, b.text@)
}

/// A text counted `ca` times ranks above one counted `cb` times: a higher
/// count, or an equal count and a text that sorts first.
pub open spec fn ranks_before(ca: int, ta: Seq<char>, cb: int, tb: Seq<char>) -> bool {
    ca > cb || (ca == cb && text_lt(ta, tb))
}

fn ranks_above(a: &Tally, b: &Tally) -> (r: bool)
    ensures
        r == outranks(*a, *b),
{
    a.count > b.count || (a.count == b.count && text_less(&a.text, &b.text))
}

proof fn lemma_outranks_transitive(a: Tally, b: Tally, c: Tally)
    requires
        outranks(a, b),
        outranks(b, c),
    ensures
        outranks(a, c),
{
    if a.count == b.count && b.count == c.count {
        lemma_text_lt_transitive(a.text@, b.text@, c.text@);
    }
}

/// `top` lists, best first, the positions in `t` of the highest-ranked
/// tallies, `limit` of them or all when there are fewer.
pub open spec fn is_top_ranking(t: Seq<Tally>, limit: int, top: Seq<usize>) -> bool {
    &&& top.len() == if limit < t.len() {
        limit
    } else {
        t.len() as int
    }
    &&& forall|k: int| 0 <= k < top.len() ==> (#[trigger] top[k] as int) < t.len()
    &&& forall|a: int, b: int|
        0 <= a < b < top.len() ==> outranks(t[#[trigger] top[a] as int], t[#[trigger] top[b] as int])
    &&& forall|i: int|
        0 <= i < t.len() && top.len() > 0 && (forall|k: int| 0 <= k < top.len() ==> #[trigger] top[k] != i)
            ==> outranks(t[top.last() as int], t[i])
}

/// Picks the `limit` highest-ranked tallies, best first.
pub fn top_ranked(t: &Vec<Tally>, limit: usize) -> (top: Vec<usize>)
    requires
        texts_increasing(tally_texts(t@)),
    ensures
        is_top_ranking(t@, limit as int, top@),
{
    let ghost ts = tally_texts(t@);
    let mut top: Vec<usize> = Vec::new();
    while top.len() < limit && top.len() < t.len()
        invariant
            ts == tally_texts(t@),
            texts_increasing(ts),
            top@.len() <= limit,
            top@.len() <= t@.len(),
            forall|k: int| 0 <= k < top@.len() ==> (#[trigger] top@[k] as int) < t@.len(),
            forall|a: int, b: int|
                0 <= a < b < top@.len() ==> outranks(
                    t@[#[trigger] top@[a] as int],
                    t@[#[trigger] top@[b] as int],
                ),
            forall|i: int|
                0 <= i < t@.len() && top@.len() > 0 && (forall|k: int| 0 <= k < top@.len() ==> #[trigger] top@[k] != i)
                    ==> outranks(t@[top@.last() as int], t@[i]),
        decreases t@.len() - top@.len(),
    {
        // Some position is not taken yet.
        let ghost taken = top@.map_values(|x: usize| x as int);
        proof {
            if forall|i: int| 0 <= i < t@.len() ==> taken.contains(i) {
                vstd::set_lib::lemma_int_range(0, t@.len() as int);
                taken.lemma_cardinality_of_set();
                assert(vstd::set_lib::set_int_range(0, t@.len() as int).subset_of(taken.to_set()));
                vstd::set_lib::lemma_len_subset(
                    vstd::set_lib::set_int_range(0, t@.len() as int),
                    taken.to_set(),
                );
            }
        }
        let ghost free = choose|i: int|
            0 <= i < t@.len() && !#[trigger] taken.contains(i);
        proof {
            assert forall|k: int| 0 <= k < top@.len() implies #[trigger] top@[k] != free by {
                assert(taken[k] == top@[k] as int);
            }
        }
        let mut best: usize = t.len();
        let mut i: usize = 0;
        while i < t.len()
            invariant
                ts == tally_texts(t@),
                texts_increasing(ts),
                0 <= free < t@.len(),
                forall|k: int| 0 <= k < top@.len() ==> #[trigger] top@[k] != free,
                forall|k: int| 0 <= k < top@.len() ==> (#[trigger] top@[k] as int) < t@.len(),
                forall|i: int|
                    0 <= i < t@.len() && top@.len() > 0 && (forall|k: int| 0 <= k < top@.len() ==> #[trigger] top@[k]
                        != i) ==> outranks(t@[top@.last() as int], t@[i]),
                i <= t@.len(),
                best <= t@.len(),
                best == t@.len() ==> i <= free,
                best == t@.len() ==> forall|c: int|
                    0 <= c < i ==> !(top@.len() == 0 || outranks(t@[top@.last() as int], #[trigger] t@[c])),
                best < t@.len() ==> best < i && (top@.len() == 0 || outranks(
                    t@[top@.last() as int],
                    t@[best as int],
                )),
                best < t@.len() ==> forall|c: int|
                    0 <= c < i && c != best && (top@.len() == 0 || outranks(
                        t@[top@.last() as int],
                        t@[c],
                    )) ==> outranks(t@[best as int], t@[c]),
            decreases t@.len() - i,
        {
            let candidate = top.len() == 0 || ranks_above(&t[top[top.len() - 1]], &t[i]);
            if candidate {
                if best == t.len() || ranks_above(&t[i], &t[best]) {
                    proof {
                        if best < t@.len() {
                            assert forall|c: int|
                                0 <= c < i + 1 && c != i && (top@.len() == 0 || outranks(
                                    t@[top@.last() as int],
                                    t@[c],
                                )) implies outranks(t@[i as int], t@[c]) by {
                                if c != best {
                                    lemma_outranks_transitive(t@[i as int], t@[best as int], t@[c]);
                                }
                            }
                        }
                    }
                    best = i;
                } else {
                    proof {
                        // Distinct texts make the ranking total.
                        if best != i {
                            assert(ts[best as int] == t@[best as int].text@);
                            assert(ts[i as int] == t@[i as int].text@);
                            if best < i {
                                assert(text_lt(ts[best as int], ts[i as int]));
                            }
                            lemma_text_lt_total(t@[i as int].text@, t@[best as int].text@);
                            if i < best {
                                assert(text_lt(ts[i as int], ts[best as int]));
                                lemma_text_lt_asymmetric(ts[i as int], ts[best as int]);
                            }
                        }
                    }
                }
            } else {
                proof {
                    if i as int == free {
                        assert(outranks(t@[top@.last() as int], t@[free]));
                    }
                }
            }
            i += 1;
        }
        proof {
            if best == t@.len() {
                assert(outranks(t@[top@.last() as int], t@[free]) || top@.len() == 0);
            }
        }
        let ghost before = top@;
        top.push(best);
        proof {
            assert forall|a: int, b: int|
                0 <= a < b < top@.len() implies outranks(
                t@[#[trigger] top@[a] as int],
                t@[#[trigger] top@[b] as int],
            ) by {
                if b == before.len() {
                    if a < before.len() - 1 {
                        lemma_outranks_transitive(
                            t@[before[a] as int],
                            t@[before.last() as int],
                            t@[best as int],
                        );
                    }
                } else {
                    assert(top@[a] == before[a]);
                    assert(top@[b] == before[b]);
                }
            }
            assert forall|c: int|
                0 <= c < t@.len() && top@.len() > 0 && (forall|k: int| 0 <= k < top@.len() ==> #[trigger] top@[k]
                    != c) implies outranks(t@[top@.last() as int], t@[c]) by {
                assert forall|k: int| 0 <= k < before.len() implies #[trigger] before[k] != c by {
                    assert(top@[k] == before[k]);
                }
                assert(top@[before.len() as int] == best);
            }
            assert forall|k: int| 0 <= k < top@.len() implies (#[trigger] top@[k] as int)
                < t@.len() by {
                if k < before.len() {
                    assert(top@[k] == before[k]);
                }
            }
        }
    }
    top
}


/// Number of editors that the daily ranking keeps.
pub const TOP_EDITORS: usize = 20;

/// Why a day's extract yields no statistics.
#[derive(Clone, Copy, Debug, PartialEq, Eq, Structural)]
pub enum ExtractError {
    /// The first line carries the error marker of the query service
    /// instead of a header.
    Rejected,
    /// The line with this number (counted from 1, the header being line
    /// 1) has fewer than five tab-separated fields.
    MalformedLine { line: usize },
}

/// The marker that opens an error document instead of a header line.
pub open spec fn error_marker() -> Seq<char> {
    seq!['<', '?', 'x', 'm', 'l']
}

pub open spec fn starts_with(s: Seq<char>, prefix: Seq<char>) -> bool {
    prefix.len() <= s.len() && s.take(prefix.len() as int) == prefix
}

/// The lines of an extract.
pub open spec fn extract_lines(text: Seq<char>) -> Seq<Seq<char>> {
    split_on(text, '\n')
}

/// The extract is an error document.
pub open spec fn is_rejected(text: Seq<char>) -> bool {
    starts_with(extract_lines(text)[0], error_marker())
}

/// The record lines: all after the header, but for the empty piece that a
/// final line break leaves.
pub open spec fn data_lines(text: Seq<char>) -> Seq<Seq<char>> {
    let body = extract_lines(text).drop_first();
    if body.len() > 0 && body.last().len() == 0 {
        body.drop_last()
    } else {
        body
    }
}

/// The tab-separated fields of a record line: postcode, city, street,
/// house number, and last the editor.
pub open spec fn record_fields(line: Seq<char>) -> Seq<Seq<char>> {
    split_on(line, '\t')
}

pub open spec fn well_formed(line: Seq<char>) -> bool {
    record_fields(line).len() >= 5
}

pub open spec fn tab_join(a: Seq<char>, b: Seq<char>) -> Seq<char> {
    a + seq!['\t'] + b
}

/// Identity of a house number: postcode, city, street and number; the
/// editor is left out.
pub open spec fn housenumber_key(line: Seq<char>) -> Seq<char> {
    let f = record_fields(line);
    tab_join(tab_join(tab_join(f[0], f[1]), f[2]), f[3])
}

/// Street and house number, as counted under a city.
pub open spec fn street_entry(line: Seq<char>) -> Seq<char> {
    let f = record_fields(line);
    tab_join(f[2], f[3])
}

pub open spec fn editor_of(line: Seq<char>) -> Seq<char> {
    record_fields(line).last()
}

pub open spec fn record_city(aliases: Seq<CityAlias>, line: Seq<char>) -> Seq<char> {
    let f = record_fields(line);
    city_key_of(aliases, f[0], f[1])
}

pub open spec fn housenumber_keys(lines: Seq<Seq<char>>) -> Seq<Seq<char>> {
    lines.map_values(|l: Seq<char>| housenumber_key(l))
}

pub open spec fn street_entries(lines: Seq<Seq<char>>) -> Seq<Seq<char>> {
    lines.map_values(|l: Seq<char>| street_entry(l))
}

pub open spec fn editors_of(lines: Seq<Seq<char>>) -> Seq<Seq<char>> {
    lines.map_values(|l: Seq<char>| editor_of(l))
}

pub open spec fn city_keys(aliases: Seq<CityAlias>, lines: Seq<Seq<char>>) -> Seq<Seq<char>> {
    lines.map_values(|l: Seq<char>| record_city(aliases, l))
}

/// A day's statistics.
pub struct DailyStats {
    /// Number of different house numbers.
    pub housenumbers: usize,
    /// Per city key, the number of different street and house number
    /// pairs, in increasing order of key.
    pub cities: Vec<Tally>,
    /// The most active editors with their record counts, best first; equal
    /// counts are ordered by name.
    pub top_editors: Vec<Tally>,
    /// Number of different editors.
    pub editors: usize,
}

/// `top` is the ranking of the editors of `lines`: their record counts,
/// best first, `TOP_EDITORS` of them or all when there are fewer.
pub open spec fn is_editor_ranking(lines: Seq<Seq<char>>, top: Seq<Tally>) -> bool {
    let eds = editors_of(lines);
    &&& top.len() == if (TOP_EDITORS as int) < eds.to_set().len() {
        TOP_EDITORS as int
    } else {
        eds.to_set().len() as int
    }
    &&& forall|k: int|
        0 <= k < top.len() ==> eds.contains((#[trigger] top[k]).text@) && top[k].count
            == eds.to_multiset().count(top[k].text@)
    &&& forall|a: int, b: int| 0 <= a < b < top.len() ==> outranks(#[trigger] top[a], #[trigger] top[b])
    &&& forall|e: Seq<char>|
        #[trigger] eds.contains(e) && top.len() > 0 && (forall|k: int|
            0 <= k < top.len() ==> (#[trigger] top[k]).text@ != e) ==> ranks_before(
            top.last().count as int,
            top.last().text@,
            eds.to_multiset().count(e) as int,
            e,
        )
}

/// `st` holds the statistics of the record lines `lines`.
pub open spec fn is_daily_stats(aliases: Seq<CityAlias>, lines: Seq<Seq<char>>, st: DailyStats) -> bool {
    let cities = city_keys(aliases, lines);
    &&& st.housenumbers == housenumber_keys(lines).to_set().len()
    &&& texts_increasing(tally_texts(st.cities@))
    &&& forall|x: Seq<char>| tally_texts(st.cities@).contains(x) <==> cities.contains(x)
    &&& forall|j: int|
        0 <= j < st.cities@.len() ==> (#[trigger] st.cities@[j]).count == values_under(
            cities,
            street_entries(lines),
            st.cities@[j].text@,
        ).len()
    &&& is_editor_ranking(lines, st.top_editors@)
    &&& st.editors == editors_of(lines).to_set().len()
}

fn starts_with_marker(line: &Vec<char>) -> (r: bool)
    ensures
        r == starts_with(line@, error_marker()),
{
    let r = line.len() >= 5 && line[0] == '<' && line[1] == '?' && line[2] == 'x' && line[3] == 'm'
        && line[4] == 'l';
    if line.len() >= 5 {
        assert(r == (line@.take(5) =~= error_marker()));
    }
    r
}

fn tab_joined(a: &Vec<char>, b: &Vec<char>) -> (r: Vec<char>)
    ensures
        r@ == tab_join(a@, b@),
{
    let mut r = copy_text(a);
    r.push('\t');
    append_text(&mut r, b);
    r
}

/// Aggregates one day's extract: its header line is skipped and each
/// further line is a record of postcode, city, street, house number and
/// editor, separated by tabs. An extract whose first line carries the
/// error marker, or with a record of fewer than five fields, yields no
/// statistics.
pub fn aggregate_extract(text: &Vec<char>, aliases: &Vec<CityAlias>) -> (r: Result<
    DailyStats,
    ExtractError,
>)
    ensures
        is_rejected(text@) ==> r matches Err(ExtractError::Rejected),
        match r {
            Err(ExtractError::Rejected) => is_rejected(text@),
            Err(ExtractError::MalformedLine { line }) => {
                &&& !is_rejected(text@)
                &&& 2 <= line <= data_lines(text@).len() + 1
                &&& !well_formed(data_lines(text@)[line - 2])
                &&& forall|k: int| 0 <= k < line - 2 ==> well_formed(#[trigger] data_lines(text@)[k])
            },
            Ok(st) => {
                &&& !is_rejected(text@)
                &&& forall|k: int|
                    0 <= k < data_lines(text@).len() ==> well_formed(#[trigger] data_lines(text@)[k])
                &&& is_daily_stats(aliases@, data_lines(text@), st)
            },
        },
{
    let lines = split_text(text.as_slice(), '\n');
    let ghost ls = extract_lines(text@);
    let ghost dl = data_lines(text@);
    assert(texts_of(lines@) == ls);
    assert(ls[0] == lines@[0]@);
    if starts_with_marker(&lines[0]) {
        return Err(ExtractError::Rejected);
    }
    let mut end = lines.len();
    if end > 1 && lines[end - 1].len() == 0 {
        end = end - 1;
    }
    assert(dl.len() == end - 1);
    assert(forall|k: int| 0 <= k < dl.len() ==> #[trigger] dl[k] == ls[k + 1]);
    let mut hn_keys: Vec<Vec<char>> = Vec::new();
    let mut entries: Vec<Vec<char>> = Vec::new();
    let mut editors: Vec<Vec<char>> = Vec::new();
    let mut cities: Vec<Vec<char>> = Vec::new();
    let mut i: usize = 1;
    while i < end
        invariant
            1 <= i <= end,
            !is_rejected(text@),
            dl == data_lines(text@),
            end <= lines@.len(),
            texts_of(lines@) == ls,
            dl.len() == end - 1,
            forall|k: int| 0 <= k < dl.len() ==> #[trigger] dl[k] == ls[k + 1],
            forall|k: int| 0 <= k < i - 1 ==> well_formed(#[trigger] dl[k]),
            texts_of(hn_keys@) == housenumber_keys(dl.take(i - 1)),
            texts_of(entries@) == street_entries(dl.take(i - 1)),
            texts_of(editors@) == editors_of(dl.take(i - 1)),
            texts_of(cities@) == city_keys(aliases@, dl.take(i - 1)),
        decreases end - i,
    {
        let f = split_text(lines[i].as_slice(), '\t');
        let ghost line = dl[i - 1];
        assert(line == lines@[i as int]@);
        assert(texts_of(f@) == record_fields(line));
        if f.len() < 5 {
            assert(!well_formed(dl[i - 1]));
            return Err(ExtractError::MalformedLine { line: i + 1 });
        }
        assert(f@[0]@ == record_fields(line)[0]);
        assert(f@[1]@ == record_fields(line)[1]);
        assert(f@[2]@ == record_fields(line)[2]);
        assert(f@[3]@ == record_fields(line)[3]);
        assert(f@[f@.len() - 1]@ == record_fields(line).last());
        let ab = tab_joined(&f[0], &f[1]);
        let abc = tab_joined(&ab, &f[2]);
        let key = tab_joined(&abc, &f[3]);
        let entry = tab_joined(&f[2], &f[3]);
        let editor = copy_text(&f[f.len() - 1]);
        let city = city_key(aliases, &f[0], &f[1]);
        assert(key@ == housenumber_key(line));
        assert(entry@ == street_entry(line));
        assert(editor@ == editor_of(line));
        assert(city@ == record_city(aliases@, line));
        let ghost (h0, e0, d0, c0) = (texts_of(hn_keys@), texts_of(entries@), texts_of(editors@), texts_of(cities@));
        hn_keys.push(key);
        entries.push(entry);
        editors.push(editor);
        cities.push(city);
        proof {
            let done = dl.take(i - 1);
            let next = dl.take(i as int);
            assert(next =~= done.push(line));
            assert(texts_of(hn_keys@) =~= h0.push(housenumber_key(line)));
            assert(texts_of(entries@) =~= e0.push(street_entry(line)));
            assert(texts_of(editors@) =~= d0.push(editor_of(line)));
            assert(texts_of(cities@) =~= c0.push(record_city(aliases@, line)));
            assert(texts_of(hn_keys@) =~= housenumber_keys(next));
            assert(texts_of(entries@) =~= street_entries(next));
            assert(texts_of(editors@) =~= editors_of(next));
            assert(texts_of(cities@) =~= city_keys(aliases@, next));
        }
        i += 1;
    }
    assert(dl.take(i - 1) =~= dl);
    let housenumbers = count_distinct(hn_keys);
    let city_counts = group_counts(&cities, &entries);
    let ghost eds = editors_of(dl);
    let per_editor = tally(editors);
    proof {
        lemma_tally_len(per_editor@, eds);
    }
    let editor_total = per_editor.len();
    let picks = top_ranked(&per_editor, TOP_EDITORS);
    let mut top: Vec<Tally> = Vec::new();
    let mut k: usize = 0;
    while k < picks.len()
        invariant
            k <= picks@.len(),
            is_top_ranking(per_editor@, TOP_EDITORS as int, picks@),
            top@.len() == k,
            forall|q: int|
                0 <= q < k ==> (#[trigger] top@[q]).text@ == per_editor@[picks@[q] as int].text@
                    && top@[q].count == per_editor@[picks@[q] as int].count,
        decreases picks@.len() - k,
    {
        let p = picks[k];
        top.push(Tally { text: copy_text(&per_editor[p].text), count: per_editor[p].count });
        k += 1;
    }
    let st = DailyStats {
        housenumbers,
        cities: city_counts,
        top_editors: top,
        editors: editor_total,
    };
    proof {
        let tops = st.top_editors@;
        let pe = per_editor@;
        assert forall|a: int, b: int| 0 <= a < b < tops.len() implies outranks(
            #[trigger] tops[a],
            #[trigger] tops[b],
        ) by {
            assert(outranks(pe[picks@[a] as int], pe[picks@[b] as int]));
        }
        assert forall|q: int| 0 <= q < tops.len() implies eds.contains((#[trigger] tops[q]).text@)
            && tops[q].count == eds.to_multiset().count(tops[q].text@) by {
            assert(tally_texts(pe)[picks@[q] as int] == pe[picks@[q] as int].text@);
        }
        assert forall|e: Seq<char>|
            #[trigger] eds.contains(e) && tops.len() > 0 && (forall|q: int|
                0 <= q < tops.len() ==> (#[trigger] tops[q]).text@ != e) implies ranks_before(
            tops.last().count as int,
            tops.last().text@,
            eds.to_multiset().count(e) as int,
            e,
        ) by {
            assert(tally_texts(pe).contains(e));
            let i = choose|i: int| 0 <= i < tally_texts(pe).len() && #[trigger] tally_texts(pe)[i] == e;
            assert(pe[i].text@ == e);
            assert forall|q: int| 0 <= q < picks@.len() implies #[trigger] picks@[q] != i by {
                assert(tops[q].text@ != e);
            }
            assert(outranks(pe[picks@.last() as int], pe[i]));
        }
    }
    Ok(st)
}


/// The line of a city in the daily city-count file.
pub open spec fn city_count_line(t: Tally) -> Seq<char> {
    t.text@ + seq!['\t'] + decimal(t.count as nat) + seq!['\n']
}

/// The daily city-count file: one line per city, in the given order.
pub open spec fn city_count_text(s: Seq<Tally>) -> Seq<char>
    decreases s.len(),
{
    if s.len() == 0 {
        Seq::empty()
    } else {
        city_count_text(s.drop_last()) + city_count_line(s.last())
    }
}

/// The line of an editor in the daily top-editors file.
pub open spec fn editor_line(t: Tally) -> Seq<char> {
    decimal(t.count as nat) + seq![' '] + t.text@ + seq!['\n']
}

/// The daily top-editors file: one line per editor, in the given order.
pub open spec fn top_editors_text(s: Seq<Tally>) -> Seq<char>
    decreases s.len(),
{
    if s.len() == 0 {
        Seq::empty()
    } else {
        top_editors_text(s.drop_last()) + editor_line(s.last())
    }
}

/// Renders the city-count file: `<key>\t<count>` lines.
pub fn render_city_counts(cities: &Vec<Tally>) -> (r: Vec<char>)
    ensures
        r@ == city_count_text(cities@),
{
    let mut out: Vec<char> = Vec::new();
    let mut i: usize = 0;
    while i < cities.len()
        invariant
            i <= cities@.len(),
            out@ == city_count_text(cities@.take(i as int)),
        decreases cities@.len() - i,
    {
        let t = &cities[i];
        append_text(&mut out, &t.text);
        out.push('\t');
        push_decimal(&mut out, t.count as u64);
        out.push('\n');
        assert(cities@.take(i + 1).drop_last() =~= cities@.take(i as int));
        assert(out@ =~= city_count_text(cities@.take(i + 1)));
        i += 1;
    }
    assert(cities@.take(i as int) =~= cities@);
    out
}

/// Renders the top-editors file: `<count> <editor>` lines.
pub fn render_top_editors(top: &Vec<Tally>) -> (r: Vec<char>)
    ensures
        r@ == top_editors_text(top@),
{
    let mut out: Vec<char> = Vec::new();
    let mut i: usize = 0;
    while i < top.len()
        invariant
            i <= top@.len(),
            out@ == top_editors_text(top@.take(i as int)),
        decreases top@.len() - i,
    {
        let t = &top[i];
        push_decimal(&mut out, t.count as u64);
        out.push(' ');
        append_text(&mut out, &t.text);
        out.push('\n');
        assert(top@.take(i + 1).drop_last() =~= top@.take(i as int));
        assert(out@ =~= top_editors_text(top@.take(i + 1)));
        i += 1;
    }
    assert(top@.take(i as int) =~= top@);
    out
}

/// Renders a count as a file holding the number alone, without a line break.
pub fn render_count(n: u64) -> (r: Vec<char>)
    ensures
        r@ == decimal(n as nat),
{
    let mut out: Vec<char> = Vec::new();
    push_decimal(&mut out, n);
    assert(out@ =~= decimal(n as nat));
    out
}

/// Renders a count as a file holding the number and a line break.
pub fn render_count_line(n: u64) -> (r: Vec<char>)
    ensures
        r@ == decimal(n as nat).push('\n'),
{
    let mut out: Vec<char> = Vec::new();
    push_decimal(&mut out, n);
    out.push('\n');
    assert(out@ =~= decimal(n as nat).push('\n'));
    out
}

/// Why the reference city-count table yields no total.
#[derive(Clone, Copy, Debug, PartialEq, Eq, Structural)]
pub enum RefCountError {
    /// The line with this number (counted from 1, the header being line 1)
    /// has no second field made of decimal digits.
    MalformedRow { line: usize },
    /// The total does not fit in 64 bits.
    Overflow,
}

pub open spec fn is_digit(c: char) -> bool {
    '0' <= c && c <= '9'
}

pub open spec fn all_digits(s: Seq<char>) -> bool {
    s.len() > 0 && forall|i: int| 0 <= i < s.len() ==> is_digit(#[trigger] s[i])
}

/// The number that a string of decimal digits denotes.
pub open spec fn digits_value(s: Seq<char>) -> nat
    decreases s.len(),
{
    if s.len() == 0 {
        0
    } else {
        digits_value(s.drop_last()) * 10 + ((s.last() as int) - ('0' as int)) as nat
    }
}

/// A row of the reference table: its second field is a count.
pub open spec fn ref_row_ok(line: Seq<char>) -> bool {
    record_fields(line).len() >= 2 && all_digits(record_fields(line)[1])
}

/// Sum of the second fields of `rows`.
pub open spec fn ref_sum(rows: Seq<Seq<char>>) -> nat
    decreases rows.len(),
{
    if rows.len() == 0 {
        0
    } else {
        ref_sum(rows.drop_last()) + digits_value(record_fields(rows.last())[1])
    }
}

pub(crate) fn check_digits(s: &Vec<char>) -> (r: bool)
    ensures
        r == all_digits(s@),
{
    if s.len() == 0 {
        return false;
    }
    let mut i: usize = 0;
    while i < s.len()
        invariant
            i <= s@.len(),
            forall|k: int| 0 <= k < i ==> is_digit(#[trigger] s@[k]),
        decreases s@.len() - i,
    {
        if !(s[i] >= '0' && s[i] <= '9') {
            return false;
        }
        i += 1;
    }
    true
}

/// The value of a string of digits, when it fits in 64 bits.
pub(crate) fn digits_to_u64(s: &Vec<char>) -> (r: Option<u64>)
    requires
        all_digits(s@),
    ensures
        match r {
            Some(v) => v as nat == digits_value(s@),
            None => digits_value(s@) > u64::MAX,
        },
{
    let mut v: u64 = 0;
    let mut i: usize = 0;
    while i < s.len()
        invariant
            i <= s@.len(),
            all_digits(s@),
            v as nat == digits_value(s@.take(i as int)),
        decreases s@.len() - i,
    {
        assert(s@.take(i + 1).drop_last() =~= s@.take(i as int));
        assert(is_digit(s@[i as int]));
        let d = (s[i] as u32 - '0' as u32) as u64;
        assert(d as int == (s@[i as int] as int) - ('0' as int));
        if v > (u64::MAX - d) / 10 {
            proof {
                lemma_digits_value_prefix_grows(s@, i as int + 1);
            }
            return None;
        }
        v = v * 10 + d;
        i += 1;
    }
    assert(s@.take(i as int) =~= s@);
    Some(v)
}

pub(crate) proof fn lemma_digits_value_prefix_grows(s: Seq<char>, k: int)
    requires
        0 <= k <= s.len(),
        all_digits(s),
    ensures
        digits_value(s.take(k)) <= digits_value(s),
    decreases s.len(),
{
    if k < s.len() {
        assert(s.drop_last().take(k) =~= s.take(k));
        assert(all_digits(s.drop_last()) || s.drop_last().len() == 0);
        if s.drop_last().len() > 0 {
            assert forall|i: int| 0 <= i < s.drop_last().len() implies is_digit(
                #[trigger] s.drop_last()[i],
            ) by {
                assert(s.drop_last()[i] == s[i]);
            }
            lemma_digits_value_prefix_grows(s.drop_last(), k);
        } else {
            assert(s.take(k) =~= Seq::<char>::empty());
        }
    } else {
        assert(s.take(k) =~= s);
    }
}

/// Sums the second column of the reference city-count table, skipping its
/// header line.
pub fn reference_total(text: &Vec<char>) -> (r: Result<u64, RefCountError>)
    ensures
        match r {
            Ok(total) => {
                &&& forall|k: int|
                    0 <= k < data_lines(text@).len() ==> ref_row_ok(#[trigger] data_lines(text@)[k])
                &&& total as nat == ref_sum(data_lines(text@))
            },
            Err(RefCountError::MalformedRow { line }) => {
                &&& 2 <= line <= data_lines(text@).len() + 1
                &&& !ref_row_ok(data_lines(text@)[line - 2])
                &&& forall|k: int| 0 <= k < line - 2 ==> ref_row_ok(#[trigger] data_lines(text@)[k])
            },
            Err(RefCountError::Overflow) => exists|k: int|
                0 <= k <= data_lines(text@).len() && (forall|j: int|
                    0 <= j < k ==> ref_row_ok(#[trigger] data_lines(text@)[j])) && ref_sum(
                    data_lines(text@).take(k),
                ) > u64::MAX,
        },
{
    let lines = split_text(text.as_slice(), '\n');
    let ghost ls = extract_lines(text@);
    let ghost dl = data_lines(text@);
    assert(texts_of(lines@) == ls);
    let mut end = lines.len();
    if end > 1 && lines[end - 1].len() == 0 {
        end = end - 1;
    }
    assert(dl.len() == end - 1);
    assert(forall|k: int| 0 <= k < dl.len() ==> #[trigger] dl[k] == ls[k + 1]);
    let mut total: u64 = 0;
    let mut i: usize = 1;
    assert(dl.take(0) =~= Seq::<Seq<char>>::empty());
    while i < end
        invariant
            1 <= i <= end,
            end <= lines@.len(),
            texts_of(lines@) == ls,
            dl == data_lines(text@),
            dl.len() == end - 1,
            forall|k: int| 0 <= k < dl.len() ==> #[trigger] dl[k] == ls[k + 1],
            forall|k: int| 0 <= k < i - 1 ==> ref_row_ok(#[trigger] dl[k]),
            total as nat == ref_sum(dl.take(i - 1)),
        decreases end - i,
    {
        let f = split_text(lines[i].as_slice(), '\t');
        let ghost line = dl[i - 1];
        assert(line == lines@[i as int]@);
        assert(texts_of(f@) == record_fields(line));
        if f.len() < 2 || !check_digits(&f[1]) {
            return Err(RefCountError::MalformedRow { line: i + 1 });
        }
        assert(f@[1]@ == record_fields(line)[1]);
        assert(dl.take(i as int).drop_last() =~= dl.take(i - 1));
        assert(dl.take(i as int).last() == line);
        match digits_to_u64(&f[1]) {
            Some(v) => {
                if v > u64::MAX - total {
                    assert(forall|j: int| 0 <= j < i ==> ref_row_ok(#[trigger] dl[j]));
                    return Err(RefCountError::Overflow);
                }
                total = total + v;
            },
            None => {
                assert(forall|j: int| 0 <= j < i ==> ref_row_ok(#[trigger] dl[j]));
                return Err(RefCountError::Overflow);
            },
        }
        i += 1;
    }
    assert(dl.take(i - 1) =~= dl);
    Ok(total)
}

/// Extracts are kept for seven days.
pub const RETENTION_SECS: u64 = 7 * 24 * 3600;

pub open spec fn ends_with(s: Seq<char>, suffix: Seq<char>) -> bool {
    suffix.len() <= s.len() && s.skip(s.len() - suffix.len()) == suffix
}

/// A file of the statistics directory is a daily extract (a regular file
/// named `*.csv`) older than the retention period, to be removed.
pub fn is_expired_extract(name: &Vec<char>, age_secs: u64, is_file: bool) -> (r: bool)
    ensures
        r == (is_file && ends_with(name@, seq!['.', 'c', 's', 'v']) && age_secs > RETENTION_SECS),
{
    let n = name.len();
    let csv = n >= 4 && name[n - 4] == '.' && name[n - 3] == 'c' && name[n - 2] == 's' && name[n
        - 1] == 'v';
    if n >= 4 {
        assert(csv == (name@.skip(n - 4) =~= seq!['.', 'c', 's', 'v']));
    }
    is_file && csv && age_secs > RETENTION_SECS
}


/// The suffix of a day's house-number count file.
pub open spec fn count_suffix() -> Seq<char> {
    seq!['.', 'c', 'o', 'u', 'n', 't']
}

/// The reference total's file, which is no day's count.
pub open spec fn reference_count_name() -> Seq<char> {
    seq!['r', 'e', 'f', '.', 'c', 'o', 'u', 'n', 't']
}

/// The digits of a count file: its text without one final line break.
pub open spec fn count_digits(content: Seq<char>) -> Seq<char> {
    if content.len() > 0 && content.last() == '\n' {
        content.drop_last()
    } else {
        content
    }
}

/// A day of the historical series: its date and its house-number count.
pub struct HistoryEntry {
    pub day: Vec<char>,
    pub count: u64,
}

/// Reads one file of the statistics directory into the historical series:
/// a day's count file `<day>.count` holding a number gives that day and
/// number; any other file, or a count that is not a 64-bit number, gives
/// nothing.
pub fn history_entry(name: &Vec<char>, content: &Vec<char>) -> (r: Option<HistoryEntry>)
    ensures
        match r {
            Some(e) => {
                &&& ends_with(name@, count_suffix())
                &&& name@ != reference_count_name()
                &&& e.day@ == name@.take(name@.len() - 6)
                &&& all_digits(count_digits(content@))
                &&& e.count as nat == digits_value(count_digits(content@))
            },
            None => !ends_with(name@, count_suffix()) || name@ == reference_count_name() || !all_digits(
                count_digits(content@),
            ) || digits_value(count_digits(content@)) > u64::MAX,
        },
{
    let n = name.len();
    let suffix = vec!['.', 'c', 'o', 'u', 'n', 't'];
    assert(suffix@ =~= count_suffix());
    if n < 6 {
        return None;
    }
    let mut i: usize = 0;
    while i < 6
        invariant
            i <= 6,
            n == name@.len(),
            n >= 6,
            suffix@ == count_suffix(),
            forall|k: int| 0 <= k < i ==> name@[n - 6 + k] == #[trigger] suffix@[k],
        decreases 6 - i,
    {
        if name[n - 6 + i] != suffix[i] {
            assert(name@.skip(n - 6)[i as int] != count_suffix()[i as int]);
            return None;
        }
        i += 1;
    }
    assert(name@.skip(n - 6) =~= count_suffix());
    let is_reference = n == 9 && name[0] == 'r' && name[1] == 'e' && name[2] == 'f';
    if is_reference {
        assert(name@ =~= reference_count_name());
        return None;
    }
    if n == 9 {
        assert(name@[0] != 'r' || name@[1] != 'e' || name@[2] != 'f');
    }
    let mut digits: Vec<char> = Vec::new();
    let mut end = content.len();
    if end > 0 && content[end - 1] == '\n' {
        end = end - 1;
    }
    let mut k: usize = 0;
    while k < end
        invariant
            k <= end,
            end <= content@.len(),
            end == count_digits(content@).len(),
            count_digits(content@) == content@.take(end as int),
            digits@ == content@.take(k as int),
        decreases end - k,
    {
        digits.push(content[k]);
        assert(content@.take(k + 1) =~= content@.take(k as int).push(content@[k as int]));
        k += 1;
    }
    proof {
        if content@.len() > 0 && content@.last() == '\n' {
            assert(content@.drop_last() =~= content@.take(end as int));
        } else {
            assert(content@ =~= content@.take(end as int));
        }
    }
    if !check_digits(&digits) {
        return None;
    }
    match digits_to_u64(&digits) {
        Some(count) => {
            let mut day: Vec<char> = Vec::new();
            let mut j: usize = 0;
            while j < n - 6
                invariant
                    j <= n - 6,
                    n == name@.len(),
                    day@ == name@.take(j as int),
                decreases n - 6 - j,
            {
                day.push(name[j]);
                assert(name@.take(j + 1) =~= name@.take(j as int).push(name@[j as int]));
                j += 1;
            }
            Some(HistoryEntry { day, count })
        },
        None => None,
    }
}

/// The lines of a table without a header: all pieces between line
/// breaks, but for the empty piece that a final line break leaves.
pub open spec fn table_lines(text: Seq<char>) -> Seq<Seq<char>> {
    let all = split_on(text, '\n');
    if all.last().len() == 0 {
        all.drop_last()
    } else {
        all
    }
}

/// An entry read from a table line of exactly three fields.
pub open spec fn alias_line(a: CityAlias, line: Seq<char>) -> bool {
    let f = record_fields(line);
    f.len() == 3 && a.postcode@ == f[0] && a.city@ == f[1] && a.key@ == f[2]
}

/// Reads the settlement-normalization table: one `postcode\tcity\tkey`
/// line per entry. A line without exactly three fields is reported by its
/// number, counted from 1.
pub fn parse_alias_table(text: &Vec<char>) -> (r: Result<Vec<CityAlias>, usize>)
    ensures
        match r {
            Ok(aliases) => {
                &&& aliases@.len() == table_lines(text@).len()
                &&& forall|k: int|
                    0 <= k < aliases@.len() ==> alias_line(#[trigger] aliases@[k], table_lines(text@)[k])
            },
            Err(line) => {
                &&& 1 <= line <= table_lines(text@).len()
                &&& record_fields(table_lines(text@)[line - 1]).len() != 3
                &&& forall|k: int|
                    0 <= k < line - 1 ==> record_fields(#[trigger] table_lines(text@)[k]).len() == 3
            },
        },
{
    let lines = split_text(text.as_slice(), '\n');
    let ghost ls = split_on(text@, '\n');
    let ghost tl = table_lines(text@);
    assert(texts_of(lines@) == ls);
    let mut end = lines.len();
    if lines[end - 1].len() == 0 {
        end = end - 1;
    }
    assert(tl.len() == end);
    assert(forall|k: int| 0 <= k < tl.len() ==> #[trigger] tl[k] == ls[k]);
    let mut aliases: Vec<CityAlias> = Vec::new();
    let mut i: usize = 0;
    while i < end
        invariant
            i <= end,
            end <= lines@.len(),
            texts_of(lines@) == ls,
            tl == table_lines(text@),
            tl.len() == end,
            forall|k: int| 0 <= k < tl.len() ==> #[trigger] tl[k] == ls[k],
            aliases@.len() == i,
            forall|k: int| 0 <= k < i ==> alias_line(#[trigger] aliases@[k], tl[k]),
        decreases end - i,
    {
        let f = split_text(lines[i].as_slice(), '\t');
        assert(tl[i as int] == lines@[i as int]@);
        assert(texts_of(f@) == record_fields(tl[i as int]));
        if f.len() != 3 {
            assert forall|k: int| 0 <= k < i implies record_fields(#[trigger] tl[k]).len() == 3 by {
                assert(alias_line(aliases@[k], tl[k]));
            }
            return Err(i + 1);
        }
        assert(f@[0]@ == record_fields(tl[i as int])[0]);
        assert(f@[1]@ == record_fields(tl[i as int])[1]);
        assert(f@[2]@ == record_fields(tl[i as int])[2]);
        let ghost before = aliases@;
        aliases.push(CityAlias {
            postcode: copy_text(&f[0]),
            city: copy_text(&f[1]),
            key: copy_text(&f[2]),
        });
        assert(alias_line(aliases@[i as int], tl[i as int]));
        assert forall|k: int| 0 <= k < i + 1 implies alias_line(#[trigger] aliases@[k], tl[k]) by {
            if k < i {
                assert(aliases@[k] == before[k]);
            }
        }
        i += 1;
    }
    Ok(aliases)
}

} // verus!
