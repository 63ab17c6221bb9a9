use vstd::prelude::*;

use crate::text::views;

verus! {

/// The length of a longest common subsequence of `a[i..]` and `b[j..]`.
pub open spec fn lcs_len(a: Seq<Seq<char>>, b: Seq<Seq<char>>, i: int, j: int) -> nat
    decreases a.len() - i + b.len() - j,
{
    if i < 0 || j < 0 || i >= a.len() || j >= b.len() {
        0
    } else if a[i] == b[j] {
        1 + lcs_len(a, b, i + 1, j + 1)
    } else {
        let down = lcs_len(a, b, i + 1, j);
        let right = lcs_len(a, b, i, j + 1);
        if down >= right {
            down
        } else {
            right
        }
    }
}

/// The pairs of matched positions that the walk through the length table
/// picks from `(i, j)`: equal items pair up; otherwise it skips an item of
/// `a` when that keeps the longest length, else an item of `b`.
pub open spec fn lcs_walk(a: Seq<Seq<char>>, b: Seq<Seq<char>>, i: int, j: int) -> Seq<(usize, usize)>
    decreases a.len() - i + b.len() - j,
{
    if i < 0 || j < 0 || i >= a.len() || j >= b.len() {
        Seq::<(usize, usize)>::empty()
    } else if a[i] == b[j] {
        seq![(i as usize, j as usize)] + lcs_walk(a, b, i + 1, j + 1)
    } else if lcs_len(a, b, i + 1, j) >= lcs_len(a, b, i, j + 1) {
        lcs_walk(a, b, i + 1, j)
    } else {
        lcs_walk(a, b, i, j + 1)
    }
}

/// `p` pairs equal items of `a[i..]` and `b[j..]`, strictly ascending on both sides.
pub open spec fn is_common_subsequence(
    a: Seq<Seq<char>>,
    b: Seq<Seq<char>>,
    p: Seq<(usize, usize)>,
    i: int,
    j: int,
) -> bool {
    &&& forall|k: int|
        0 <= k < p.len() ==> i <= (#[trigger] p[k]).0 < a.len() && j <= p[k].1 < b.len() && a[p[k].0 as int]
            == b[p[k].1 as int]
    &&& forall|k: int| 0 < k < p.len() ==> p[k - 1].0 < (#[trigger] p[k]).0 && p[k - 1].1 < p[k].1
}

proof fn lemma_lcs_len_bound(a: Seq<Seq<char>>, b: Seq<Seq<char>>, i: int, j: int)
    requires
        0 <= i <= a.len(),
        0 <= j <= b.len(),
    ensures
        lcs_len(a, b, i, j) <= a.len() - i,
        lcs_len(a, b, i, j) <= b.len() - j,
    decreases a.len() - i + b.len() - j,
{
    if i < a.len() && j < b.len() {
        lemma_lcs_len_bound(a, b, i + 1, j + 1);
        lemma_lcs_len_bound(a, b, i + 1, j);
        lemma_lcs_len_bound(a, b, i, j + 1);
    }
}

/// The walk pairs equal items in ascending order, and pairs as many as a
/// longest common subsequence has.
pub proof fn lemma_lcs_walk(a: Seq<Seq<char>>, b: Seq<Seq<char>>, i: int, j: int)
    requires
        0 <= i <= a.len(),
        0 <= j <= b.len(),
        a.len() <= usize::MAX,
        b.len() <= usize::MAX,
    ensures
        is_common_subsequence(a, b, lcs_walk(a, b, i, j), i, j),
        lcs_walk(a, b, i, j).len() == lcs_len(a, b, i, j),
    decreases a.len() - i + b.len() - j,
{
    if i < a.len() && j < b.len() {
        if a[i] == b[j] {
            lemma_lcs_walk(a, b, i + 1, j + 1);
            let w = lcs_walk(a, b, i + 1, j + 1);
            let p = seq![(i as usize, j as usize)] + w;
            assert forall|k: int| 0 < k < p.len() implies p[k - 1].0 < (#[trigger] p[k]).0 && p[k
                - 1].1 < p[k].1 by {
                assert(p[k] == w[k - 1]);
                if k > 1 {
                    assert(p[k - 1] == w[k - 2]);
                }
            }
            assert forall|k: int| 0 <= k < p.len() implies i <= (#[trigger] p[k]).0 < a.len() && j
                <= p[k].1 < b.len() && a[p[k].0 as int] == b[p[k].1 as int] by {
                if k > 0 {
                    assert(p[k] == w[k - 1]);
                }
            }
        } else if lcs_len(a, b, i + 1, j) >= lcs_len(a, b, i, j + 1) {
            lemma_lcs_walk(a, b, i + 1, j);
        } else {
            lemma_lcs_walk(a, b, i, j + 1);
        }
    }
}

/// No common subsequence of `a[i..]` and `b[j..]` is longer than `lcs_len`.
pub proof fn lemma_lcs_len_maximal(
    a: Seq<Seq<char>>,
    b: Seq<Seq<char>>,
    p: Seq<(usize, usize)>,
    i: int,
    j: int,
)
    requires
        0 <= i,
        0 <= j,
        is_common_subsequence(a, b, p, i, j),
    ensures
        p.len() <= lcs_len(a, b, i, j),
    decreases a.len() - i + b.len() - j,
{
    if p.len() > 0 {
        let (x, y) = p[0];
        assert(i <= x < a.len() && j <= y < b.len());
        if a[i] == b[j] {
            let q = p.drop_first();
            lemma_tail_common(a, b, p, i, j);
            lemma_lcs_len_maximal(a, b, q, i + 1, j + 1);
        } else if x > i {
            lemma_lcs_len_maximal(a, b, p, i + 1, j);
        } else {
            assert(y > j);
            lemma_lcs_len_maximal(a, b, p, i, j + 1);
        }
    }
}

proof fn lemma_tail_common(
    a: Seq<Seq<char>>,
    b: Seq<Seq<char>>,
    p: Seq<(usize, usize)>,
    i: int,
    j: int,
)
    requires
        p.len() > 0,
        is_common_subsequence(a, b, p, i, j),
    ensures
        is_common_subsequence(a, b, p.drop_first(), i + 1, j + 1),
{
    let q = p.drop_first();
    assert forall|k: int| 0 <= k < q.len() implies i + 1 <= (#[trigger] q[k]).0 && j + 1 <= q[k].1 by {
        assert(q[k] == p[k + 1]);
        lemma_ascending(p, k + 1);
    }
    assert forall|k: int| 0 < k < q.len() implies q[k - 1].0 < (#[trigger] q[k]).0 && q[k - 1].1
        < q[k].1 by {
        assert(q[k] == p[k + 1]);
        assert(q[k - 1] == p[k]);
    }
}

proof fn lemma_ascending(p: Seq<(usize, usize)>, k: int)
    requires
        0 < k < p.len(),
        forall|m: int| 0 < m < p.len() ==> p[m - 1].0 < (#[trigger] p[m]).0 && p[m - 1].1 < p[m].1,
    ensures
        p[0].0 < p[k].0,
        p[0].1 < p[k].1,
    decreases k,
{
    if k > 1 {
        lemma_ascending(p, k - 1);
        assert(p[k - 1].0 < p[k].0);
    }
}

/// The length recorded for column `k` of a table row (the column past the
/// last item is always 0).
fn cell(row: &Vec<usize>, k: usize) -> (v: usize)
    ensures
        v == if k < row@.len() { row@[k as int] } else { 0 },
{
    if k < row.len() {
        row[k]
    } else {
        0
    }
}

/// The pairs `(i, j)` of equal items that a longest-common-subsequence table
/// walk matches between `old` and `new`, in ascending order.
pub fn lcs(old: &[String], new: &[String]) -> (pairs: Vec<(usize, usize)>)
    ensures
        pairs@ == lcs_walk(views(old@), views(new@), 0, 0),
{
    let ghost a = views(old@);
    let ghost b = views(new@);
    let n = old.len();
    let m = new.len();
    // table[t] holds row n - t: table[t][k] == lcs_len(a, b, n - t, k) for k < m
    let mut table: Vec<Vec<usize>> = Vec::new();
    let mut last_row: Vec<usize> = Vec::new();
    let mut j: usize = 0;
    while j < m
        invariant
            j <= m,
            m == b.len(),
            last_row@.len() == j,
            forall|k: int| 0 <= k < j ==> #[trigger] last_row@[k] == 0,
        decreases m - j,
    {
        last_row.push(0);
        j = j + 1;
    }
    table.push(last_row);
    let mut t: usize = 0;
    while t < n
        invariant
            n == a.len(),
            m == b.len(),
            a == views(old@),
            b == views(new@),
            0 <= t <= n,
            table@.len() == t + 1,
            forall|r: int, k: int|
                0 <= r <= t && 0 <= k < m ==> (#[trigger] table@[r]@[k]) == lcs_len(
                    a,
                    b,
                    n - r,
                    k,
                ),
            forall|r: int| 0 <= r <= t ==> (#[trigger] table@[r]@.len()) == m,
        decreases n - t,
    {
        let i = n - 1 - t;
        let mut row: Vec<usize> = Vec::new();
        let mut k: usize = 0;
        while k < m
            invariant
                k <= m,
                row@.len() == k,
            decreases m - k,
        {
            row.push(0);
            k = k + 1;
        }
        let mut jj: usize = m;
        while jj > 0
            invariant
                n == a.len(),
                m == b.len(),
                a == views(old@),
                b == views(new@),
                0 <= t < n,
                i == n - 1 - t,
                table@.len() == t + 1,
                forall|r: int, k: int|
                    0 <= r <= t && 0 <= k < m ==> (#[trigger] table@[r]@[k]) == lcs_len(
                        a,
                        b,
                        n - r,
                        k,
                    ),
                forall|r: int| 0 <= r <= t ==> (#[trigger] table@[r]@.len()) == m,
                0 <= jj <= m,
                row@.len() == m,
                forall|k: int| jj <= k < m ==> (#[trigger] row@[k]) == lcs_len(a, b, i as int, k),
            decreases jj,
        {
            jj = jj - 1;
            let below = &table[t];
            let diag = cell(below, jj + 1);
            let down = below[jj];
            let right = cell(&row, jj + 1);
            proof {
                assert(down == lcs_len(a, b, i + 1, jj as int));
                assert(diag == lcs_len(a, b, i + 1, jj + 1));
                assert(right == lcs_len(a, b, i as int, jj + 1));
                lemma_lcs_len_bound(a, b, i + 1, jj + 1);
                assert(a[i as int] == old@[i as int]@);
                assert(b[jj as int] == new@[jj as int]@);
            }
            let value = if old[i] == new[jj] {
                diag + 1
            } else if down >= right {
                down
            } else {
                right
            };
            row.set(jj, value);
        }
        table.push(row);
        t = t + 1;
    }
    // walk the table from the top-left corner
    let mut result: Vec<(usize, usize)> = Vec::new();
    let mut i: usize = 0;
    let mut j: usize = 0;
    while i < n && j < m
        invariant
            n == a.len(),
            m == b.len(),
            a == views(old@),
            b == views(new@),
            table@.len() == n + 1,
            forall|r: int, k: int|
                0 <= r <= n && 0 <= k < m ==> (#[trigger] table@[r]@[k]) == lcs_len(
                    a,
                    b,
                    n - r,
                    k,
                ),
            forall|r: int| 0 <= r <= n ==> (#[trigger] table@[r]@.len()) == m,
            0 <= i <= n,
            0 <= j <= m,
            result@ + lcs_walk(a, b, i as int, j as int) == lcs_walk(a, b, 0, 0),
        decreases n - i + m - j,
    {
        proof {
            assert(a[i as int] == old@[i as int]@);
            assert(b[j as int] == new@[j as int]@);
        }
        if old[i] == new[j] {
            result.push((i, j));
            proof {
                assert(result@ + lcs_walk(a, b, i + 1, j + 1) =~= lcs_walk(a, b, 0, 0));
            }
            i = i + 1;
            j = j + 1;
        } else {
            let down = table[n - (i + 1)][j];
            let right = cell(&table[n - i], j + 1);
            proof {
                assert(down == lcs_len(a, b, i + 1, j as int));
                assert(right == lcs_len(a, b, i as int, j + 1));
            }
            if down >= right {
                i = i + 1;
            } else {
                j = j + 1;
            }
        }
    }
    assert(result@ =~= result@ + lcs_walk(a, b, i as int, j as int));
    result
}

} // verus!
