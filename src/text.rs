//! Text helpers shared by the aggregation code: a lexicographic order on
//! character sequences, splitting on a separator, and decimal rendering.

use vstd::prelude::*;

verus! {

/// `a` sorts strictly before `b`, comparing characters by code point and
/// treating a proper prefix as smaller (the order of `Vec<char>`).
pub open spec fn text_lt(a: Seq<char>, b: Seq<char>) -> bool
    decreases a.len(),
{
    if a.len() == 0 {
        b.len() > 0
    } else if b.len() == 0 {
        false
    } else if a[0] != b[0] {
        (a[0] as int) < (b[0] as int)
    } else {
        text_lt(a.drop_first(), b.drop_first())
    }
}

/// Every element is at most each later one.
pub open spec fn texts_sorted(s: Seq<Seq<char>>) -> bool {
    forall|i: int, j: int| 0 <= i < j < s.len() ==> !text_lt(#[trigger] s[j], #[trigger] s[i])
}

/// Every element is strictly below each later one.
pub open spec fn texts_increasing(s: Seq<Seq<char>>) -> bool {
    forall|i: int, j: int| 0 <= i < j < s.len() ==> text_lt(#[trigger] s[i], #[trigger] s[j])
}

pub proof fn lemma_text_lt_irreflexive(a: Seq<char>)
    ensures
        !text_lt(a, a),
    decreases a.len(),
{
    if a.len() > 0 {
        lemma_text_lt_irreflexive(a.drop_first());
    }
}

pub proof fn lemma_text_lt_asymmetric(a: Seq<char>, b: Seq<char>)
    ensures
        !(text_lt(a, b) && text_lt(b, a)),
    decreases a.len(),
{
    if a.len() > 0 && b.len() > 0 && a[0] == b[0] {
        lemma_text_lt_asymmetric(a.drop_first(), b.drop_first());
    }
}

pub proof fn lemma_text_lt_total(a: Seq<char>, b: Seq<char>)
    ensures
        text_lt(a, b) || a == b || text_lt(b, a),
    decreases a.len(),
{
    if a.len() > 0 && b.len() > 0 {
        if a[0] == b[0] {
            lemma_text_lt_total(a.drop_first(), b.drop_first());
            if a.drop_first() == b.drop_first() {
                assert(a =~= seq![a[0]] + a.drop_first());
                assert(b =~= seq![b[0]] + b.drop_first());
            }
        } else {
            assert((a[0] as int) != (b[0] as int));
        }
    } else if a.len() == 0 && b.len() == 0 {
        assert(a =~= b);
    }
}

proof fn lemma_text_lt_common_prefix(a: Seq<char>, b: Seq<char>, i: int)
    requires
        0 <= i <= a.len(),
        i <= b.len(),
        a.take(i) == b.take(i),
    ensures
        text_lt(a, b) == text_lt(a.skip(i), b.skip(i)),
    decreases i,
{
    if i > 0 {
        assert(a[0] == a.take(i)[0]);
        assert(b[0] == b.take(i)[0]);
        assert(a.drop_first().take(i - 1) =~= a.take(i).drop_first());
        assert(b.drop_first().take(i - 1) =~= b.take(i).drop_first());
        lemma_text_lt_common_prefix(a.drop_first(), b.drop_first(), i - 1);
        assert(a.drop_first().skip(i - 1) =~= a.skip(i));
        assert(b.drop_first().skip(i - 1) =~= b.skip(i));
    } else {
        assert(a.skip(0) =~= a);
        assert(b.skip(0) =~= b);
    }
}

/// Compares two texts in the order of `text_lt`.
pub fn text_less(a: &Vec<char>, b: &Vec<char>) -> (r: bool)
    ensures
        r == text_lt(a@, b@),
{
    let mut i: usize = 0;
    while i < a.len() && i < b.len()
        invariant
            i <= a.len(),
            i <= b.len(),
            a@.take(i as int) == b@.take(i as int),
        decreases a.len() - i,
    {
        if a[i] != b[i] {
            proof {
                lemma_text_lt_common_prefix(a@, b@, i as int);
                assert(a@.skip(i as int)[0] == a@[i as int]);
                assert(b@.skip(i as int)[0] == b@[i as int]);
            }
            return a[i] < b[i];
        }
        assert(a@.take(i + 1) =~= a@.take(i as int).push(a@[i as int]));
        assert(b@.take(i + 1) =~= b@.take(i as int).push(b@[i as int]));
        i += 1;
    }
    proof {
        lemma_text_lt_common_prefix(a@, b@, i as int);
    }
    i < b.len()
}

/// Relies on `slice::sort` (through `Vec`'s deref): the elements are
/// rearranged into ascending order of `Vec<char>`, which compares
/// lexicographically, characters by code point.
#[verifier::external_body]
pub(crate) fn sort_texts(v: &mut Vec<Vec<char>>)
    ensures
        texts_of(final(v)@).to_multiset() == texts_of(old(v)@).to_multiset(),
        texts_sorted(texts_of(final(v)@)),
{
    v.sort();
}


pub proof fn lemma_text_lt_transitive(a: Seq<char>, b: Seq<char>, c: Seq<char>)
    requires
        text_lt(a, b),
        text_lt(b, c),
    ensures
        text_lt(a, c),
    decreases a.len(),
{
    if a.len() > 0 && a[0] == b[0] && b[0] == c[0] {
        lemma_text_lt_transitive(a.drop_first(), b.drop_first(), c.drop_first());
    }
}

/// Fields of `s` cut at every `sep`, built from the left: the fields that
/// are complete and the one still open.
pub open spec fn split_acc(s: Seq<char>, sep: char) -> (Seq<Seq<char>>, Seq<char>)
    decreases s.len(),
{
    if s.len() == 0 {
        (Seq::empty(), Seq::empty())
    } else {
        let (done, open) = split_acc(s.drop_last(), sep);
        if s.last() == sep {
            (done.push(open), Seq::empty())
        } else {
            (done, open.push(s.last()))
        }
    }
}

/// The pieces of `s` between occurrences of `sep`; `k` separators give
/// `k + 1` pieces, some of which may be empty.
pub open spec fn split_on(s: Seq<char>, sep: char) -> Seq<Seq<char>> {
    split_acc(s, sep).0.push(split_acc(s, sep).1)
}

/// Splits `s` at every `sep`.
pub fn split_text(s: &[char], sep: char) -> (r: Vec<Vec<char>>)
    ensures
        texts_of(r@) == split_on(s@, sep),
{
    let mut done: Vec<Vec<char>> = Vec::new();
    let mut open: Vec<char> = Vec::new();
    let mut i: usize = 0;
    while i < s.len()
        invariant
            i <= s@.len(),
            (texts_of(done@), open@) == split_acc(s@.take(i as int), sep),
        decreases s@.len() - i,
    {
        assert(s@.take(i + 1).drop_last() =~= s@.take(i as int));
        let c = s[i];
        if c == sep {
            let ghost d0 = texts_of(done@);
            let ghost o0 = open@;
            done.push(open);
            open = Vec::new();
            assert(texts_of(done@) =~= d0.push(o0));
            assert(open@ =~= Seq::<char>::empty());
        } else {
            open.push(c);
        }
        i += 1;
    }
    assert(s@.take(i as int) =~= s@);
    let ghost d0 = texts_of(done@);
    let ghost o0 = open@;
    done.push(open);
    assert(texts_of(done@) =~= d0.push(o0));
    done
}

/// A text and the number of times it occurs.
pub struct Tally {
    pub text: Vec<char>,
    pub count: usize,
}

/// The character sequences held by a list of texts.
pub open spec fn texts_of(v: Seq<Vec<char>>) -> Seq<Seq<char>> {
    v.map_values(|t: Vec<char>| t@)
}

pub open spec fn tally_texts(t: Seq<Tally>) -> Seq<Seq<char>> {
    t.map_values(|x: Tally| x.text@)
}

proof fn lemma_same_multiset_same_contains(a: Seq<Seq<char>>, b: Seq<Seq<char>>, x: Seq<char>)
    requires
        a.to_multiset() == b.to_multiset(),
    ensures
        a.contains(x) == b.contains(x),
{
    vstd::seq_lib::to_multiset_contains(a, x);
    vstd::seq_lib::to_multiset_contains(b, x);
}

/// A run of equal texts ends where the next one differs: nothing before
/// the new text equals it, and nothing from it on equals the old one.
proof fn lemma_sorted_boundary(s: Seq<Seq<char>>, i: int)
    requires
        texts_sorted(s),
        0 < i < s.len(),
        s[i] != s[i - 1],
    ensures
        text_lt(s[i - 1], s[i]),
        forall|k: int| 0 <= k < i ==> #[trigger] s[k] != s[i],
{
    lemma_text_lt_total(s[i - 1], s[i]);
    assert forall|k: int| 0 <= k < i implies #[trigger] s[k] != s[i] by {
        if k < i - 1 && s[k] == s[i] {
            assert(!text_lt(s[i - 1], s[k]));
        }
    }
}

/// Counts how often each different text occurs in `v`; the tallies come
/// in ascending order of their texts.
pub fn tally(v: Vec<Vec<char>>) -> (r: Vec<Tally>)
    ensures
        texts_increasing(tally_texts(r@)),
        forall|x: Seq<char>| tally_texts(r@).contains(x) <==> texts_of(v@).contains(x),
        forall|k: int|
            0 <= k < r@.len() ==> (#[trigger] r@[k]).count == texts_of(v@).to_multiset().count(
                r@[k].text@,
            ),
{
    broadcast use vstd::seq_lib::group_to_multiset_ensures;
    broadcast use vstd::multiset::group_multiset_axioms;

    let ghost orig = texts_of(v@);
    let mut s = v;
    sort_texts(&mut s);
    let ghost ss = texts_of(s@);
    let mut r: Vec<Tally> = Vec::new();
    if s.len() == 0 {
        assert forall|x: Seq<char>| !orig.contains(x) by {
            lemma_same_multiset_same_contains(orig, ss, x);
        }
        return r;
    }
    let mut cur: Vec<char> = s[0].clone();
    assert(cur@ =~= ss[0]);
    let mut cnt: usize = 1;
    let mut start: usize = 0;
    let mut i: usize = 1;
    assert(ss.take(1) =~= Seq::<Seq<char>>::empty().push(ss[0]));
    assert(tally_texts(r@) =~= Seq::<Seq<char>>::empty());
    assert(Seq::<Seq<char>>::empty().to_multiset().count(cur@) == 0);
    assert(tally_texts(r@).push(cur@) =~= seq![cur@]);
    while i < s.len()
        invariant
            ss == texts_of(s@),
            texts_sorted(ss),
            1 <= i <= ss.len(),
            start < i,
            cur@ == ss[start as int],
            forall|j: int| start <= j < i ==> #[trigger] ss[j] == cur@,
            forall|j: int| 0 <= j < start ==> #[trigger] ss[j] != cur@,
            1 <= cnt <= i,
            cnt == ss.take(i as int).to_multiset().count(cur@),
            texts_increasing(tally_texts(r@).push(cur@)),
            forall|k: int|
                0 <= k < r@.len() ==> (#[trigger] r@[k]).count == ss.take(
                    i as int,
                ).to_multiset().count(r@[k].text@),
            forall|x: Seq<char>|
                tally_texts(r@).push(cur@).contains(x) <==> ss.take(i as int).contains(x),
        decreases ss.len() - i,
    {
        assert(ss.take(i + 1) =~= ss.take(i as int).push(ss[i as int]));
        proof {
            vstd::seq_lib::to_multiset_build(ss.take(i as int), ss[i as int]);
        }
        assert(ss[start as int] == s@[start as int]@);
        assert(ss[i as int] == s@[i as int]@);
        let same = !text_less(&s[start], &s[i]);
        if same {
            assert(!text_lt(ss[i as int], ss[start as int]));
            proof { lemma_text_lt_total(ss[start as int], ss[i as int]); }
            assert(ss[i as int] == cur@);
            cnt += 1;
            assert forall|k: int| 0 <= k < r@.len() implies (#[trigger] r@[k]).count
                == ss.take(i + 1).to_multiset().count(r@[k].text@) by {
                assert(tally_texts(r@).push(cur@)[k] == r@[k].text@);
                assert(tally_texts(r@).push(cur@)[r@.len() as int] == cur@);
                lemma_text_lt_irreflexive(cur@);
                assert(text_lt(r@[k].text@, cur@));
            }
            assert forall|x: Seq<char>|
                tally_texts(r@).push(cur@).contains(x) <==> ss.take(i + 1).contains(x) by {
                if x == ss[i as int] {
                    assert(tally_texts(r@).push(cur@)[r@.len() as int] == x);
                }
                if ss.take(i + 1).contains(x) && x != ss[i as int] {
                    let w = choose|w: int| 0 <= w < i + 1 && #[trigger] ss.take(i + 1)[w] == x;
                    assert(ss.take(i as int)[w] == x);
                }
                if ss.take(i as int).contains(x) {
                    let w = choose|w: int| 0 <= w < i && #[trigger] ss.take(i as int)[w] == x;
                    assert(ss.take(i + 1)[w] == x);
                }
            }
        } else {
            proof {
                if ss[i as int] == ss[i - 1] {
                    assert(ss[i - 1] == cur@);
                }
                lemma_sorted_boundary(ss, i as int);
            }
            let ghost old_texts = tally_texts(r@).push(cur@);
            let ghost take_i = ss.take(i as int);
            let ghost r_old = r@;
            proof {
                assert forall|k: int| 0 <= k < r@.len() implies #[trigger] r@[k].text@
                    != ss[i as int] by {
                    assert(old_texts[k] == r@[k].text@);
                    assert(old_texts[r@.len() as int] == cur@);
                    lemma_text_lt_transitive(r@[k].text@, cur@, ss[i as int]);
                    lemma_text_lt_irreflexive(ss[i as int]);
                }
            }
            r.push(Tally { text: cur, count: cnt });
            cur = s[i].clone();
            assert(cur@ =~= ss[i as int]);
            cnt = 1;
            start = i;
            proof {
                assert(tally_texts(r@) =~= old_texts);
                assert forall|a: int, b: int|
                    0 <= a < b < tally_texts(r@).push(cur@).len() implies text_lt(
                    #[trigger] tally_texts(r@).push(cur@)[a],
                    #[trigger] tally_texts(r@).push(cur@)[b],
                ) by {
                    if b == r@.len() as int {
                        if a < r@.len() - 1 {
                            assert(text_lt(old_texts[a], old_texts[r@.len() - 1]));
                            lemma_text_lt_transitive(old_texts[a], old_texts[r@.len() - 1], cur@);
                        }
                    } else {
                        assert(text_lt(old_texts[a], old_texts[b]));
                    }
                }
                assert(!take_i.contains(cur@));
                assert(take_i.to_multiset().count(cur@) == 0) by {
                    broadcast use vstd::seq_lib::to_multiset_contains;

                }
                assert forall|k: int| 0 <= k < r@.len() implies (#[trigger] r@[k]).count
                    == ss.take(i + 1).to_multiset().count(r@[k].text@) by {
                    if k < r@.len() - 1 {
                        assert(r@[k] == r_old[k]);
                        assert(old_texts[k] == r@[k].text@);
                    }
                    assert(old_texts[k] == r@[k].text@);
                }
                assert forall|x: Seq<char>|
                    tally_texts(r@).push(cur@).contains(x) <==> ss.take(i + 1).contains(x) by {
                    if x == cur@ {
                        assert(tally_texts(r@).push(cur@)[r@.len() as int] == x);
                        assert(ss.take(i + 1)[i as int] == x);
                    }
                    if old_texts.contains(x) {
                        let w = choose|w: int| 0 <= w < old_texts.len() && #[trigger] old_texts[w] == x;
                        assert(tally_texts(r@).push(cur@)[w] == x);
                    }
                    if tally_texts(r@).push(cur@).contains(x) && x != cur@ {
                        let w = choose|w: int|
                            0 <= w < tally_texts(r@).push(cur@).len() && #[trigger] tally_texts(r@).push(
                                cur@,
                            )[w] == x;
                        assert(old_texts[w] == x);
                    }
                    if ss.take(i + 1).contains(x) && x != ss[i as int] {
                        let w = choose|w: int| 0 <= w < i + 1 && #[trigger] ss.take(i + 1)[w] == x;
                        assert(take_i[w] == x);
                    }
                    if take_i.contains(x) {
                        let w = choose|w: int| 0 <= w < i && #[trigger] take_i[w] == x;
                        assert(ss.take(i + 1)[w] == x);
                    }
                }
            }
        }
        i += 1;
    }
    assert(ss.take(i as int) =~= ss);
    let ghost old_texts = tally_texts(r@).push(cur@);
    let ghost r_old = r@;
    r.push(Tally { text: cur, count: cnt });
    proof {
        assert(tally_texts(r@) =~= old_texts);
        assert forall|k: int| 0 <= k < r@.len() implies (#[trigger] r@[k]).count
            == orig.to_multiset().count(r@[k].text@) by {
            if k < r@.len() - 1 {
                assert(r@[k] == r_old[k]);
            }
        }
        assert forall|x: Seq<char>| tally_texts(r@).contains(x) <==> orig.contains(x) by {
            lemma_same_multiset_same_contains(orig, ss, x);
        }
    }
    r
}


/// The tallies of `tally` hold each different text once, so there are as
/// many of them as there are different texts.
pub proof fn lemma_tally_len(t: Seq<Tally>, v: Seq<Seq<char>>)
    requires
        texts_increasing(tally_texts(t)),
        forall|x: Seq<char>| tally_texts(t).contains(x) <==> v.contains(x),
    ensures
        t.len() == v.to_set().len(),
{
    let ts = tally_texts(t);
    assert(ts.no_duplicates()) by {
        assert forall|a: int, b: int| 0 <= a < ts.len() && 0 <= b < ts.len() && a != b implies ts[a]
            != ts[b] by {
            lemma_text_lt_irreflexive(ts[a]);
            if a < b {
                assert(text_lt(ts[a], ts[b]));
            } else {
                assert(text_lt(ts[b], ts[a]));
            }
        }
    }
    ts.unique_seq_to_set();
    assert(ts.to_set() =~= v.to_set());
}

/// Number of different texts in `v`.
pub fn count_distinct(v: Vec<Vec<char>>) -> (n: usize)
    ensures
        n == texts_of(v@).to_set().len(),
{
    let ghost orig = texts_of(v@);
    let t = tally(v);
    proof {
        lemma_tally_len(t@, orig);
    }
    t.len()
}

/// A copy of a text.
pub fn copy_text(s: &Vec<char>) -> (r: Vec<char>)
    ensures
        r@ == s@,
{
    let r = s.clone();
    assert(r@ =~= s@);
    r
}

/// Appends the characters of `s` to `out`.
pub fn append_text(out: &mut Vec<char>, s: &Vec<char>)
    ensures
        final(out)@ == old(out)@ + s@,
{
    let mut i: usize = 0;
    while i < s.len()
        invariant
            i <= s@.len(),
            out@ == old(out)@ + s@.take(i as int),
        decreases s@.len() - i,
    {
        out.push(s[i]);
        assert(s@.take(i + 1) =~= s@.take(i as int).push(s@[i as int]));
        i += 1;
    }
    assert(s@.take(i as int) =~= s@);
}

/// The decimal digit for `d`.
pub open spec fn digit_char(d: nat) -> char {
    if d == 0 {
        '0'
    } else if d == 1 {
        '1'
    } else if d == 2 {
        '2'
    } else if d == 3 {
        '3'
    } else if d == 4 {
        '4'
    } else if d == 5 {
        '5'
    } else if d == 6 {
        '6'
    } else if d == 7 {
        '7'
    } else if d == 8 {
        '8'
    } else {
        '9'
    }
}

/// The decimal notation of `n`, without leading zeros.
pub open spec fn decimal(n: nat) -> Seq<char>
    decreases n,
{
    if n < 10 {
        seq![digit_char(n)]
    } else {
        decimal(n / 10).push(digit_char(n % 10))
    }
}

fn digit(d: u64) -> (c: char)
    requires
        d < 10,
    ensures
        c == digit_char(d as nat),
{
    if d == 0 {
        '0'
    } else if d == 1 {
        '1'
    } else if d == 2 {
        '2'
    } else if d == 3 {
        '3'
    } else if d == 4 {
        '4'
    } else if d == 5 {
        '5'
    } else if d == 6 {
        '6'
    } else if d == 7 {
        '7'
    } else if d == 8 {
        '8'
    } else {
        '9'
    }
}

/// Appends the decimal notation of `n` to `out`.
pub fn push_decimal(out: &mut Vec<char>, n: u64)
    ensures
        final(out)@ == old(out)@ + decimal(n as nat),
    decreases n,
{
    if n >= 10 {
        push_decimal(out, n / 10);
    }
    out.push(digit(n % 10));
    if n >= 10 {
        assert(final(out)@ =~= old(out)@ + decimal(n as nat));
    } else {
        assert(final(out)@ =~= old(out)@ + decimal(n as nat));
    }
}

} // verus!
