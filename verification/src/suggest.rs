//! Near misses: how far one word is from another, and which words of a list are nearest.

use vstd::prelude::*;

verus! {

/// The least of three numbers.
pub open spec fn min3(a: int, b: int, c: int) -> int {
    if a <= b && a <= c {
        a
    } else if b <= c {
        b
    } else {
        c
    }
}

/// The edit distance of two words, after Levenshtein: how many characters are to insert, to
/// delete or to replace by another to turn `a` into `b`. The distance from nothing is the
/// length; otherwise it is the least of what dropping the last character of `a`, of `b` or
/// of both leads to, with one edit more unless both were dropped and are the same.
pub open spec fn edit_distance(a: Seq<char>, b: Seq<char>) -> int
    decreases a.len() + b.len(),
{
    if a.len() == 0 {
        b.len() as int
    } else if b.len() == 0 {
        a.len() as int
    } else {
        min3(
            edit_distance(a.drop_last(), b) + 1,
            edit_distance(a, b.drop_last()) + 1,
            edit_distance(a.drop_last(), b.drop_last()) + if a.last() == b.last() {
                0int
            } else {
                1int
            },
        )
    }
}

/// No word is further from another than the longer of the two is long.
pub proof fn lemma_edit_distance_bounds(a: Seq<char>, b: Seq<char>)
    ensures
        0 <= edit_distance(a, b),
        edit_distance(a, b) <= a.len() || edit_distance(a, b) <= b.len(),
    decreases a.len() + b.len(),
{
    if a.len() > 0 && b.len() > 0 {
        lemma_edit_distance_bounds(a.drop_last(), b);
        lemma_edit_distance_bounds(a, b.drop_last());
        lemma_edit_distance_bounds(a.drop_last(), b.drop_last());
    }
}

/// Computes the edit distance of `a` and `b`.
#[verifier::rlimit(60)]
pub fn distance(a: &[char], b: &[char]) -> (d: usize)
    ensures
        d == edit_distance(a@, b@),
{
    let m = a.len();
    let n = b.len();
    // `row[j]` is the distance of the first `i` characters of `a` from the first `j` of `b`
    let mut row: Vec<usize> = Vec::new();
    let mut j: usize = 0;
    while j < n
        invariant
            0 <= j <= n,
            n == b@.len(),
            row@.len() == j,
            forall|k: int|
                0 <= k < j ==> row@[k] == edit_distance(a@.take(0), #[trigger] b@.take(k)),
        decreases n - j,
    {
        row.push(j);
        j = j + 1;
    }
    row.push(n);
    let mut i: usize = 0;
    while i < m
        invariant
            0 <= i <= m,
            m == a@.len(),
            n == b@.len(),
            row@.len() == n + 1,
            forall|k: int|
                0 <= k <= n ==> row@[k] == edit_distance(
                    a@.take(i as int),
                    #[trigger] b@.take(k),
                ),
        decreases m - i,
    {
        let ghost above = row@;
        let ghost upper = a@.take(i as int);
        let ghost lower = a@.take(i + 1);
        assert(lower.drop_last() =~= upper);
        // the corner: how far `upper` is from the characters of `b` left of the cell
        let mut corner: usize = row[0];
        assert(b@.take(0).len() == 0);
        row.set(0, i + 1);
        let mut c: usize = 0;
        while c < n
            invariant
                0 <= c <= n,
                i < m,
                m == a@.len(),
                n == b@.len(),
                row@.len() == n + 1,
                above.len() == n + 1,
                upper == a@.take(i as int),
                lower == a@.take(i + 1),
                lower.drop_last() == upper,
                lower.last() == a@[i as int],
                forall|k: int|
                    0 <= k <= n ==> above[k] == edit_distance(upper, #[trigger] b@.take(k)),
                forall|k: int|
                    0 <= k <= c ==> row@[k] == edit_distance(lower, #[trigger] b@.take(k)),
                forall|k: int| c < k <= n ==> row@[k] == above[k],
                corner == above[c as int],
            decreases n - c,
        {
            let ghost left_word = b@.take(c as int);
            let ghost word = b@.take(c + 1);
            assert(word.drop_last() =~= left_word);
            assert(word.last() == b@[c as int]);
            proof {
                lemma_edit_distance_bounds(upper, left_word);
                lemma_edit_distance_bounds(lower, word);
            }
            let up = row[c + 1];
            let left = row[c];
            let step: usize = if a[i] == b[c] {
                0
            } else {
                1
            };
            assert(corner == edit_distance(upper, left_word));
            assert(up == edit_distance(upper, word));
            assert(left == edit_distance(lower, left_word));
            let mut best = corner + step;
            if up < best {
                best = up + 1;
            }
            if left < best {
                best = left + 1;
            }
            assert(best == edit_distance(lower, word));
            corner = up;
            row.set(c + 1, best);
            c = c + 1;
        }
        i = i + 1;
    }
    assert(a@.take(m as int) =~= a@);
    assert(b@.take(n as int) =~= b@);
    row[n]
}

/// Entry `i` of a list is nearer than entry `j`: its distance is smaller, or it is the same
/// and `i` comes first in the list.
pub open spec fn nearer(dist: Seq<int>, i: int, j: int) -> bool {
    dist[i] < dist[j] || (dist[i] == dist[j] && i < j)
}

/// `order` ranks the entries of a list whose distances are `dist`: it names the `limit`
/// nearest entries, nearest first, or all entries where there are no more than `limit`.
/// Each entry that it names is nearer than each that follows and than each that it leaves
/// out.
pub open spec fn is_ranking(dist: Seq<int>, limit: int, order: Seq<int>) -> bool {
    &&& order.len() <= limit
    &&& forall|k: int| 0 <= k < order.len() ==> 0 <= (#[trigger] order[k]) < dist.len()
    &&& forall|k: int, l: int|
        0 <= k < l < order.len() ==> nearer(dist, #[trigger] order[k], #[trigger] order[l])
    &&& forall|j: int, k: int|
        0 <= j < dist.len() && !order.contains(j) && 0 <= k < order.len() ==> #[trigger] nearer(
            dist,
            order[k],
            j,
        )
    &&& forall|j: int|
        0 <= j < dist.len() && !#[trigger] order.contains(j) ==> order.len() == limit
}

/// The ranking of the entries of a list.
pub open spec fn ranking(dist: Seq<int>, limit: int) -> Seq<int> {
    choose|order: Seq<int>| is_ranking(dist, limit, order)
}

/// The numbers of `v`, unbounded.
pub open spec fn ints_of(v: Seq<usize>) -> Seq<int> {
    Seq::new(v.len(), |k: int| v[k] as int)
}

/// Where two rankings agree before place `p`, the entry that the first has there is not
/// nearer than the one that the second has there.
proof fn lemma_same_place_not_nearer(
    dist: Seq<int>,
    limit: int,
    o1: Seq<int>,
    o2: Seq<int>,
    p: int,
)
    requires
        is_ranking(dist, limit, o1),
        is_ranking(dist, limit, o2),
        0 <= p < o1.len(),
        p < o2.len(),
        forall|m: int| 0 <= m < p ==> o1[m] == o2[m],
    ensures
        !nearer(dist, o1[p], o2[p]),
{
    let x = o1[p];
    if o2.contains(x) {
        let m = choose|m: int| 0 <= m < o2.len() && o2[m] == x;
        if m < p {
            assert(o1[m] == x);
            assert(nearer(dist, o1[m], o1[p]));
        } else if m > p {
            assert(nearer(dist, o2[p], o2[m]));
        }
    } else {
        assert(nearer(dist, o2[p], x));
    }
}

/// Two rankings of the same entries agree in their first `k` places.
proof fn lemma_rankings_agree(dist: Seq<int>, limit: int, o1: Seq<int>, o2: Seq<int>, k: int)
    requires
        is_ranking(dist, limit, o1),
        is_ranking(dist, limit, o2),
        0 <= k <= o1.len(),
        k <= o2.len(),
    ensures
        forall|m: int| 0 <= m < k ==> o1[m] == o2[m],
    decreases k,
{
    if k > 0 {
        lemma_rankings_agree(dist, limit, o1, o2, k - 1);
        lemma_same_place_not_nearer(dist, limit, o1, o2, k - 1);
        lemma_same_place_not_nearer(dist, limit, o2, o1, k - 1);
    }
}

/// A ranking that agrees with another as far as it goes is as long as the other.
proof fn lemma_rankings_are_as_long(dist: Seq<int>, limit: int, short: Seq<int>, long: Seq<int>)
    requires
        is_ranking(dist, limit, short),
        is_ranking(dist, limit, long),
        short.len() <= long.len(),
        forall|m: int| 0 <= m < short.len() ==> short[m] == long[m],
    ensures
        short.len() == long.len(),
{
    if short.len() < long.len() {
        let z = long[short.len() as int];
        if short.contains(z) {
            let m = choose|m: int| 0 <= m < short.len() && short[m] == z;
            assert(nearer(dist, long[m], long[short.len() as int]));
        }
    }
}

/// The distances decide the ranking: two rankings of the same entries are one, which is
/// `ranking`.
pub proof fn lemma_ranking_is_unique(dist: Seq<int>, limit: int, o1: Seq<int>, o2: Seq<int>)
    requires
        is_ranking(dist, limit, o1),
        is_ranking(dist, limit, o2),
    ensures
        o1 == o2,
        o1 == ranking(dist, limit),
{
    lemma_rankings_are_one(dist, limit, o1, o2);
    lemma_rankings_are_one(dist, limit, o1, ranking(dist, limit));
}

/// Two rankings of the same entries are one.
proof fn lemma_rankings_are_one(dist: Seq<int>, limit: int, o1: Seq<int>, o2: Seq<int>)
    requires
        is_ranking(dist, limit, o1),
        is_ranking(dist, limit, o2),
    ensures
        o1 == o2,
{
    let k = if o1.len() <= o2.len() {
        o1.len() as int
    } else {
        o2.len() as int
    };
    lemma_rankings_agree(dist, limit, o1, o2, k);
    if o1.len() <= o2.len() {
        lemma_rankings_are_as_long(dist, limit, o1, o2);
    } else {
        lemma_rankings_are_as_long(dist, limit, o2, o1);
    }
    assert(o1 =~= o2);
}

/// A ranking names each entry once at most, so it is no longer than the list.
#[verifier::rlimit(60)]
pub proof fn lemma_ranking_is_short(dist: Seq<int>, limit: int, order: Seq<int>)
    requires
        is_ranking(dist, limit, order),
    ensures
        order.no_duplicates(),
        order.len() <= dist.len(),
{
    assert forall|k: int, l: int| 0 <= k < order.len() && 0 <= l < order.len() && k != l implies
        order[k] != order[l] by {
        if k < l {
            assert(nearer(dist, order[k], order[l]));
        } else {
            assert(nearer(dist, order[l], order[k]));
        }
    }
    let range = Set::new(|j: int| 0 <= j < dist.len());
    vstd::set_lib::lemma_int_range(0, dist.len() as int);
    assert(range =~= vstd::set_lib::set_int_range(0, dist.len() as int));
    order.unique_seq_to_set();
    assert(order.to_set().subset_of(range)) by {
        assert forall|j: int| order.to_set().contains(j) implies range.contains(j) by {
            let k = choose|k: int| 0 <= k < order.len() && order[k] == j;
        }
    }
    vstd::set_lib::lemma_len_subset(order.to_set(), range);
}

/// Ranks the entries of a list by their distances `dist`: the result is the ranking.
#[verifier::rlimit(60)]
pub fn rank(dist: &Vec<usize>, limit: usize) -> (order: Vec<usize>)
    ensures
        is_ranking(ints_of(dist@), limit as int, ints_of(order@)),
        ints_of(order@) == ranking(ints_of(dist@), limit as int),
{
    let n = dist.len();
    let ghost d = ints_of(dist@);
    let mut taken: Vec<bool> = Vec::new();
    while taken.len() < n
        invariant
            taken@.len() <= n,
            forall|i: int| 0 <= i < taken@.len() ==> !taken@[i],
        decreases n - taken@.len(),
    {
        taken.push(false);
    }
    let mut order: Vec<usize> = Vec::new();
    let mut exhausted = false;
    while order.len() < limit && !exhausted
        invariant
            n == dist@.len(),
            n == taken@.len(),
            d == ints_of(dist@),
            order@.len() <= limit,
            forall|i: int| 0 <= i < n ==> (#[trigger] taken@[i] <==> order@.contains(i as usize)),
            forall|k: int| 0 <= k < order@.len() ==> (#[trigger] order@[k]) < n,
            forall|k: int, l: int|
                0 <= k < l < order@.len() ==> nearer(
                    d,
                    #[trigger] order@[k] as int,
                    #[trigger] order@[l] as int,
                ),
            forall|j: int, k: int|
                0 <= j < n && !#[trigger] taken@[j] && 0 <= k < order@.len() ==> nearer(
                    d,
                    #[trigger] order@[k] as int,
                    j,
                ),
            exhausted ==> forall|j: int| 0 <= j < n ==> #[trigger] taken@[j],
        decreases limit - order@.len() + if exhausted { 0int } else { 1int },
    {
        let mut best: Option<usize> = None;
        let mut i: usize = 0;
        while i < n
            invariant
                0 <= i <= n,
                n == dist@.len(),
                n == taken@.len(),
                d == ints_of(dist@),
                match best {
                    Some(b) => b < i && !taken@[b as int] && forall|j: int|
                        0 <= j < i && !#[trigger] taken@[j] && j != b ==> nearer(d, b as int, j),
                    None => forall|j: int| 0 <= j < i ==> #[trigger] taken@[j],
                },
            decreases n - i,
        {
            if !taken[i] {
                match best {
                    Some(b) => {
                        if dist[i] < dist[b] {
                            best = Some(i);
                        }
                    },
                    None => {
                        best = Some(i);
                    },
                }
            }
            i = i + 1;
        }
        match best {
            Some(b) => {
                let ghost before = order@;
                assert(!before.contains(b));
                taken.set(b, true);
                order.push(b);
                assert forall|i: int| 0 <= i < n implies (#[trigger] taken@[i] <==> order@.contains(
                    i as usize,
                )) by {
                    if order@.contains(i as usize) {
                        let k = choose|k: int| 0 <= k < order@.len() && order@[k] == i as usize;
                        if k < before.len() {
                            assert(before[k] == i as usize);
                        }
                    }
                    if i == b {
                        assert(order@[before.len() as int] == b);
                    } else if before.contains(i as usize) {
                        let k = choose|k: int| 0 <= k < before.len() && before[k] == i as usize;
                        assert(order@[k] == i as usize);
                    }
                }
            },
            None => {
                exhausted = true;
            },
        }
    }
    proof {
        let o = ints_of(order@);
        assert forall|j: int| 0 <= j < n implies (o.contains(j) <==> order@.contains(
            j as usize,
        )) by {
            if o.contains(j) {
                let k = choose|k: int| 0 <= k < o.len() && o[k] == j;
                assert(order@[k] == j as usize);
            }
            if order@.contains(j as usize) {
                let k = choose|k: int| 0 <= k < order@.len() && order@[k] == j as usize;
                assert(o[k] == j);
            }
        }
        assert forall|k: int| 0 <= k < o.len() implies 0 <= (#[trigger] o[k]) < d.len() by {
            assert(o[k] == order@[k]);
        }
        assert forall|k: int, l: int| 0 <= k < l < o.len() implies nearer(
            d,
            #[trigger] o[k],
            #[trigger] o[l],
        ) by {
            assert(o[k] == order@[k] && o[l] == order@[l]);
        }
        assert forall|j: int, k: int|
            0 <= j < d.len() && !o.contains(j) && 0 <= k < o.len() implies #[trigger] nearer(
                d,
                o[k],
                j,
            ) by {
            assert(o[k] == order@[k]);
            assert(!taken@[j]);
        }
        assert forall|j: int| 0 <= j < d.len() && !#[trigger] o.contains(j) implies o.len()
            == limit by {
            assert(!taken@[j]);
        }
        lemma_ranking_is_unique(d, limit as int, o, o);
    }
    order
}

} // verus!
