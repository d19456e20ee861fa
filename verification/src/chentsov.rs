//! Markov morphisms on the probability simplex.
//!
//! Chentsov's theorem asks a metric to be invariant under every Markov
//! morphism T: Δₙ₋₁ → Δₘ₋₁, given as an m×n matrix. The morphisms that the
//! library builds (identity, permutations, merging two categories) are
//! 0/1 matrices; they are held here exactly.

use vstd::prelude::*;

verus! {

/// The axioms that a metric on the probability simplex must satisfy:
/// invariance under sufficient statistics, positive definiteness,
/// smoothness and reparameterisation invariance.
pub struct InformationGeometryAxioms;

/// A Markov morphism given by an `nrows × ncols` matrix whose entry at
/// (r, c) is `entries[r][c]`.
#[derive(Debug, Clone)]
pub struct MarkovMorphism {
    pub nrows: usize,
    pub ncols: usize,
    pub entries: Vec<Vec<u8>>,
}

/// Sum of a finite sequence of integers.
pub open spec fn total(s: Seq<int>) -> int
    decreases s.len(),
{
    if s.len() == 0 {
        0
    } else {
        total(s.drop_last()) + s.last()
    }
}

/// Entry of the n×n identity.
pub open spec fn identity_entry(r: int, c: int) -> int {
    if r == c {
        1
    } else {
        0
    }
}

/// Entry of the permutation matrix that sends row r to column `perm[r]`;
/// rows beyond `perm` are zero.
pub open spec fn permutation_entry(perm: Seq<usize>, r: int, c: int) -> int {
    if 0 <= r < perm.len() && perm[r] == c {
        1
    } else {
        0
    }
}

/// `perm` is a bijection of {0, …, n−1}.
pub open spec fn is_permutation(perm: Seq<usize>, n: int) -> bool {
    &&& perm.len() == n
    &&& forall|r: int| 0 <= r < n ==> #[trigger] perm[r] < n
    &&& forall|a: int, b: int| 0 <= a < n && 0 <= b < n && a != b ==> perm[a] != perm[b]
}

/// Row of the coarse simplex that category `k` lands in when category `j`
/// is taken out: the categories before `j` keep their index, those after it
/// move down by one.
pub open spec fn coarse_row(j: int, k: int) -> int {
    if k < j {
        k
    } else {
        k - 1
    }
}

/// Coarse row that receives category `j` when it is merged into category
/// `i`: the coarse row of `i` when `i` is another category of the n-simplex.
/// When it is not (`i == j` or `i ≥ n`), there is no category to merge into
/// and `j` goes to row 0.
pub open spec fn merge_target(n: int, i: int, j: int) -> int {
    if i != j && 0 <= i < n {
        coarse_row(j, i)
    } else {
        0
    }
}

/// Entry (r, c) of the (n−1)×n matrix that merges category `j` into
/// category `i`: every category c ≠ j goes wholly to its coarse row, and
/// category `j` goes wholly to the row of `i` (see `merge_target`).
pub open spec fn merge_entry(n: int, i: int, j: int, r: int, c: int) -> int {
    if c != j {
        if r == coarse_row(j, c) {
            1
        } else {
            0
        }
    } else if r == merge_target(n, i, j) {
        1
    } else {
        0
    }
}

/// The state of the merge matrix once the columns before `k` are done.
spec fn merge_partial(n: int, i: int, j: int, k: int, r: int, c: int) -> int {
    if c < k {
        merge_entry(n, i, j, r, c)
    } else {
        0
    }
}

/// Changing one entry changes the total by the difference.
proof fn lemma_total_update(s: Seq<int>, k: int, v: int)
    requires
        0 <= k < s.len(),
    ensures
        total(s.update(k, v)) == total(s) - s[k] + v,
    decreases s.len(),
{
    let t = s.update(k, v);
    if k == s.len() - 1 {
        assert(t.drop_last() =~= s.drop_last());
    } else {
        assert(t.drop_last() =~= s.drop_last().update(k, v));
        lemma_total_update(s.drop_last(), k, v);
    }
}

/// A sequence of zeros sums to zero.
proof fn lemma_total_zeros(s: Seq<int>)
    requires
        forall|k: int| 0 <= k < s.len() ==> #[trigger] s[k] == 0,
    ensures
        total(s) == 0,
    decreases s.len(),
{
    if s.len() > 0 {
        lemma_total_zeros(s.drop_last());
    }
}

/// A sequence that is zero outside positions `a` and `b` sums to what
/// stands at those positions.
proof fn lemma_total_sparse(s: Seq<int>, a: int, b: int)
    requires
        0 <= a < s.len(),
        0 <= b < s.len(),
        forall|k: int| 0 <= k < s.len() && k != a && k != b ==> #[trigger] s[k] == 0,
    ensures
        total(s) == if a == b {
            s[a]
        } else {
            s[a] + s[b]
        },
{
    let t = s.update(a, 0);
    lemma_total_update(s, a, 0);
    let u = t.update(b, 0);
    lemma_total_update(t, b, 0);
    assert forall|k: int| 0 <= k < u.len() implies #[trigger] u[k] == 0 by {
        if k != a && k != b {
            assert(s[k] == 0);
        }
    }
    lemma_total_zeros(u);
}

/// A sequence that is zero outside position `a` sums to what stands there.
proof fn lemma_total_single(s: Seq<int>, a: int)
    requires
        0 <= a < s.len(),
        forall|k: int| 0 <= k < s.len() && k != a ==> #[trigger] s[k] == 0,
    ensures
        total(s) == s[a],
{
    lemma_total_sparse(s, a, a);
}

/// Every value below `n` is hit by a bijection of {0, …, n−1}.
proof fn lemma_permutation_onto(perm: Seq<usize>, n: int, c: int)
    requires
        is_permutation(perm, n),
        0 <= c < n,
    ensures
        exists|r: int| 0 <= r < n && perm[r] == c,
{
    let s = perm.map_values(|x: usize| x as int);
    assert(s.no_duplicates()) by {
        assert forall|a: int, b: int| 0 <= a < s.len() && 0 <= b < s.len() && a != b implies s[a]
            != s[b] by {
            assert(perm[a] != perm[b]);
        }
    }
    s.unique_seq_to_set();
    let range = vstd::set_lib::set_int_range(0, n);
    vstd::set_lib::lemma_int_range(0, n);
    assert(s.to_set().subset_of(range)) by {
        assert forall|x: int| s.to_set().contains(x) implies range.contains(x) by {
            let r = choose|r: int| 0 <= r < s.len() && s[r] == x;
            assert(perm[r] < n);
        }
    }
    vstd::seq_lib::seq_to_set_is_finite(s);
    vstd::set_lib::lemma_subset_equality(s.to_set(), range);
    assert(range.contains(c));
    assert(s.to_set().contains(c));
    let r = choose|r: int| 0 <= r < s.len() && s[r] == c;
    assert(perm[r] == c);
}

/// The identity morphism is doubly stochastic: every row and every column
/// of it sums to 1.
pub proof fn lemma_identity_doubly_stochastic(m: MarkovMorphism, n: int)
    requires
        m.well_formed(),
        m.nrows == n,
        m.ncols == n,
        forall|r: int, c: int|
            0 <= r < n && 0 <= c < n ==> #[trigger] m.entry(r, c) == identity_entry(r, c),
    ensures
        m.is_row_stochastic(),
        m.is_column_stochastic(),
{
    assert forall|r: int| 0 <= r < m.nrows implies total(#[trigger] m.row_entries(r)) == 1 by {
        let s = m.row_entries(r);
        assert forall|k: int| 0 <= k < s.len() && k != r implies #[trigger] s[k] == 0 by {
            assert(m.entry(r, k) == identity_entry(r, k));
        }
        assert(m.entry(r, r) == identity_entry(r, r));
        lemma_total_single(s, r);
    }
    assert forall|c: int| 0 <= c < m.ncols implies total(#[trigger] m.col_entries(c)) == 1 by {
        let s = m.col_entries(c);
        assert forall|k: int| 0 <= k < s.len() && k != c implies #[trigger] s[k] == 0 by {
            assert(m.entry(k, c) == identity_entry(k, c));
        }
        assert(m.entry(c, c) == identity_entry(c, c));
        lemma_total_single(s, c);
    }
}

/// A permutation morphism built from a full list (one target per row) is
/// row-stochastic; when the list is a bijection of {0, …, n−1} it is doubly
/// stochastic.
pub proof fn lemma_permutation_stochastic(m: MarkovMorphism, n: int, perm: Seq<usize>)
    requires
        m.well_formed(),
        m.nrows == n,
        m.ncols == n,
        perm.len() <= n,
        forall|r: int| 0 <= r < perm.len() ==> #[trigger] perm[r] < n,
        forall|r: int, c: int|
            0 <= r < n && 0 <= c < n ==> #[trigger] m.entry(r, c) == permutation_entry(perm, r, c),
    ensures
        perm.len() == n ==> m.is_row_stochastic(),
        is_permutation(perm, n) ==> m.is_column_stochastic(),
{
    if perm.len() == n {
        assert forall|r: int| 0 <= r < m.nrows implies total(#[trigger] m.row_entries(r))
            == 1 by {
            let s = m.row_entries(r);
            let p = perm[r] as int;
            assert forall|k: int| 0 <= k < s.len() && k != p implies #[trigger] s[k] == 0 by {
                assert(m.entry(r, k) == permutation_entry(perm, r, k));
            }
            assert(m.entry(r, p) == permutation_entry(perm, r, p));
            lemma_total_single(s, p);
        }
    }
    if is_permutation(perm, n) {
        assert forall|c: int| 0 <= c < m.ncols implies total(#[trigger] m.col_entries(c))
            == 1 by {
            let s = m.col_entries(c);
            lemma_permutation_onto(perm, n, c);
            let q = choose|r: int| 0 <= r < n && perm[r] == c;
            assert forall|k: int| 0 <= k < s.len() && k != q implies #[trigger] s[k] == 0 by {
                assert(m.entry(k, c) == permutation_entry(perm, k, c));
                assert(perm[k] != perm[q]);
            }
            assert(m.entry(q, c) == permutation_entry(perm, q, c));
            lemma_total_single(s, q);
        }
    }
}

/// Merging two categories keeps the mass of every category: each column
/// sums to 1, so the morphism maps the n-simplex onto the (n−1)-simplex.
/// Row r collects its own category and, on the merge target, category `j`
/// as well: it sums to 1 plus its entry in column `j`.
pub proof fn lemma_merge_totals(m: MarkovMorphism, n: int, i: int, j: int)
    requires
        2 <= n,
        0 <= i,
        0 <= j < n,
        m.well_formed(),
        m.nrows == n - 1,
        m.ncols == n,
        forall|r: int, c: int|
            0 <= r < n - 1 && 0 <= c < n ==> #[trigger] m.entry(r, c) == merge_entry(
                n,
                i,
                j,
                r,
                c,
            ),
    ensures
        m.is_column_stochastic(),
        forall|r: int| 0 <= r < n - 1 ==> total(#[trigger] m.row_entries(r)) == 1 + m.entry(r, j),
        total(m.row_entries(merge_target(n, i, j))) == 2,
{
    assert forall|c: int| 0 <= c < m.ncols implies total(#[trigger] m.col_entries(c)) == 1 by {
        let s = m.col_entries(c);
        let q = if c != j {
            coarse_row(j, c)
        } else {
            merge_target(n, i, j)
        };
        assert forall|k: int| 0 <= k < s.len() && k != q implies #[trigger] s[k] == 0 by {
            assert(m.entry(k, c) == merge_entry(n, i, j, k, c));
        }
        assert(m.entry(q, c) == merge_entry(n, i, j, q, c));
        lemma_total_single(s, q);
    }
    assert forall|r: int| 0 <= r < n - 1 implies total(#[trigger] m.row_entries(r)) == 1
        + m.entry(r, j) by {
        let s = m.row_entries(r);
        let c = if r < j {
            r
        } else {
            r + 1
        };
        assert forall|k: int| 0 <= k < s.len() && k != c && k != j implies #[trigger] s[k]
            == 0 by {
            assert(m.entry(r, k) == merge_entry(n, i, j, r, k));
        }
        assert(m.entry(r, c) == merge_entry(n, i, j, r, c));
        lemma_total_sparse(s, c, j);
    }
    let t = merge_target(n, i, j);
    assert(m.entry(t, j) == merge_entry(n, i, j, t, j));
}

/// Row r of a permutation morphism has its unit exactly in column
/// `perm[r]` and nothing elsewhere; the rows past the list are empty.
pub proof fn lemma_permutation_rows(m: MarkovMorphism, n: int, perm: Seq<usize>)
    requires
        m.well_formed(),
        m.nrows == n,
        m.ncols == n,
        perm.len() <= n,
        forall|r: int| 0 <= r < perm.len() ==> #[trigger] perm[r] < n,
        forall|r: int, c: int|
            0 <= r < n && 0 <= c < n ==> #[trigger] m.entry(r, c) == permutation_entry(perm, r, c),
    ensures
        forall|r: int| 0 <= r < perm.len() ==> #[trigger] m.entry(r, perm[r] as int) == 1,
        forall|r: int, c: int|
            0 <= r < n && 0 <= c < n && !(r < perm.len() && c == perm[r]) ==> #[trigger] m.entry(
                r,
                c,
            ) == 0,
{
    assert forall|r: int| 0 <= r < perm.len() implies #[trigger] m.entry(r, perm[r] as int)
        == 1 by {
        assert(m.entry(r, perm[r] as int) == permutation_entry(perm, r, perm[r] as int));
    }
}

/// Merging category `j` into category `i` puts `j` in the row that holds
/// `i` (row 0 when `i` is not another category), keeps every other category
/// alone in a row of its own, in the order of the categories, and every
/// category lands in exactly one row (entries are 0 or 1, columns sum to 1).
pub proof fn lemma_merge_structure(m: MarkovMorphism, n: int, i: int, j: int)
    requires
        2 <= n,
        0 <= i,
        0 <= j < n,
        m.well_formed(),
        m.nrows == n - 1,
        m.ncols == n,
        forall|r: int, c: int|
            0 <= r < n - 1 && 0 <= c < n ==> #[trigger] m.entry(r, c) == merge_entry(
                n,
                i,
                j,
                r,
                c,
            ),
    ensures
        forall|r: int, c: int|
            0 <= r < n - 1 && 0 <= c < n ==> #[trigger] m.entry(r, c) == 0 || m.entry(r, c) == 1,
        m.is_column_stochastic(),
        i != j && i < n ==> forall|r: int|
            0 <= r < n - 1 ==> #[trigger] m.entry(r, j) == m.entry(r, i),
        !(i != j && i < n) ==> m.entry(0, j) == 1,
        forall|r: int, c1: int, c2: int|
            0 <= r < n - 1 && 0 <= c1 < n && 0 <= c2 < n && c1 != c2 && c1 != j && c2 != j
                ==> !(#[trigger] m.entry(r, c1) == 1 && #[trigger] m.entry(r, c2) == 1),
        forall|r1: int, r2: int, c1: int, c2: int|
            0 <= r1 < n - 1 && 0 <= r2 < n - 1 && 0 <= c1 < c2 < n && c1 != j && c2 != j
                && #[trigger] m.entry(r1, c1) == 1 && #[trigger] m.entry(r2, c2) == 1 ==> r1 < r2,
{
    lemma_merge_totals(m, n, i, j);
    if i != j && i < n {
        assert forall|r: int| 0 <= r < n - 1 implies #[trigger] m.entry(r, j) == m.entry(r, i) by {
            assert(m.entry(r, j) == merge_entry(n, i, j, r, j));
            assert(m.entry(r, i) == merge_entry(n, i, j, r, i));
        }
    } else {
        assert(m.entry(0, j) == merge_entry(n, i, j, 0, j));
    }
    assert forall|r: int, c1: int, c2: int|
        0 <= r < n - 1 && 0 <= c1 < n && 0 <= c2 < n && c1 != c2 && c1 != j && c2 != j implies !(
    #[trigger] m.entry(r, c1) == 1 && #[trigger] m.entry(r, c2) == 1) by {
        assert(m.entry(r, c1) == merge_entry(n, i, j, r, c1));
        assert(m.entry(r, c2) == merge_entry(n, i, j, r, c2));
    }
    assert forall|r1: int, r2: int, c1: int, c2: int|
        0 <= r1 < n - 1 && 0 <= r2 < n - 1 && 0 <= c1 < c2 < n && c1 != j && c2 != j
            && #[trigger] m.entry(r1, c1) == 1 && #[trigger] m.entry(r2, c2) == 1 implies r1
        < r2 by {
        assert(m.entry(r1, c1) == merge_entry(n, i, j, r1, c1));
        assert(m.entry(r2, c2) == merge_entry(n, i, j, r2, c2));
    }
}

/// An `nrows × ncols` matrix of zeros.
fn zero_matrix(nrows: usize, ncols: usize) -> (mat: Vec<Vec<u8>>)
    ensures
        mat@.len() == nrows,
        forall|r: int| 0 <= r < nrows ==> (#[trigger] mat@[r])@.len() == ncols,
        forall|r: int, c: int| 0 <= r < nrows && 0 <= c < ncols ==> #[trigger] mat@[r]@[c] == 0,
{
    let mut mat: Vec<Vec<u8>> = Vec::new();
    for r in 0..nrows
        invariant
            mat@.len() == r,
            forall|rr: int| 0 <= rr < r ==> (#[trigger] mat@[rr])@.len() == ncols,
            forall|rr: int, c: int| 0 <= rr < r && 0 <= c < ncols ==> #[trigger] mat@[rr]@[c] == 0,
    {
        let mut row: Vec<u8> = Vec::new();
        for c in 0..ncols
            invariant
                row@.len() == c,
                forall|cc: int| 0 <= cc < c ==> row@[cc] == 0,
        {
            row.push(0);
        }
        mat.push(row);
    }
    mat
}

impl MarkovMorphism {
    /// Entry (r, c) in entries.
    pub open spec fn entry(&self, r: int, c: int) -> int {
        self.entries@[r]@[c] as int
    }

    /// `entries` has `nrows` rows of `ncols` entries each.
    pub open spec fn well_formed(&self) -> bool {
        &&& self.entries@.len() == self.nrows
        &&& forall|r: int| 0 <= r < self.nrows ==> (#[trigger] self.entries@[r])@.len() == self.ncols
    }

    pub open spec fn row_entries(&self, r: int) -> Seq<int> {
        Seq::new(self.ncols as nat, |c: int| self.entry(r, c))
    }

    pub open spec fn col_entries(&self, c: int) -> Seq<int> {
        Seq::new(self.nrows as nat, |r: int| self.entry(r, c))
    }

    /// Every row sums to 1.
    pub open spec fn is_row_stochastic(&self) -> bool {
        forall|r: int| 0 <= r < self.nrows ==> total(#[trigger] self.row_entries(r)) == 1
    }

    /// Every column sums to 1.
    pub open spec fn is_column_stochastic(&self) -> bool {
        forall|c: int| 0 <= c < self.ncols ==> total(#[trigger] self.col_entries(c)) == 1
    }

    /// Identity morphism on the n-simplex.
    pub fn identity(n: usize) -> (m: Self)
        ensures
            m.well_formed(),
            m.nrows == n,
            m.ncols == n,
            forall|r: int, c: int|
                0 <= r < n && 0 <= c < n ==> #[trigger] m.entry(r, c) == identity_entry(r, c),
    {
        let mut entries: Vec<Vec<u8>> = Vec::new();
        for r in 0..n
            invariant
                entries@.len() == r,
                forall|rr: int| 0 <= rr < r ==> (#[trigger] entries@[rr])@.len() == n,
                forall|rr: int, c: int|
                    0 <= rr < r && 0 <= c < n ==> entries@[rr]@[c] as int == identity_entry(rr, c),
        {
            let mut row: Vec<u8> = Vec::new();
            for c in 0..n
                invariant
                    row@.len() == c,
                    forall|cc: int| 0 <= cc < c ==> row@[cc] as int == identity_entry(r as int, cc),
            {
                if r == c {
                    row.push(1);
                } else {
                    row.push(0);
                }
            }
            entries.push(row);
        }
        MarkovMorphism { nrows: n, ncols: n, entries }
    }

    /// Permutation morphism: row r has its single unit entry in column
    /// `perm[r]`; rows from `perm.len()` on are zero.
    pub fn permutation(n: usize, perm: &[usize]) -> (m: Self)
        requires
            perm@.len() <= n,
            forall|r: int| 0 <= r < perm@.len() ==> #[trigger] perm@[r] < n,
        ensures
            m.well_formed(),
            m.nrows == n,
            m.ncols == n,
            forall|r: int, c: int|
                0 <= r < n && 0 <= c < n ==> #[trigger] m.entry(r, c) == permutation_entry(
                    perm@,
                    r,
                    c,
                ),
            forall|r: int| 0 <= r < perm@.len() ==> #[trigger] m.entry(r, perm@[r] as int) == 1,
            forall|r: int, c: int|
                0 <= r < n && 0 <= c < n && !(r < perm@.len() && c == perm@[r]) ==> #[trigger] m.entry(
                    r,
                    c,
                ) == 0,
    {
        let mut mat = zero_matrix(n, n);
        for i in 0..perm.len()
            invariant
                perm@.len() <= n,
                forall|r: int| 0 <= r < perm@.len() ==> #[trigger] perm@[r] < n,
                mat@.len() == n,
                forall|r: int| 0 <= r < n ==> (#[trigger] mat@[r])@.len() == n,
                forall|r: int, c: int|
                    0 <= r < n && 0 <= c < n ==> #[trigger] mat@[r]@[c] as int == (if r < i
                        && perm@[r] == c {
                        1int
                    } else {
                        0
                    }),
        {
            let ghost before = mat@;
            mat[i][perm[i]] = 1;
            assert forall|r: int, c: int| 0 <= r < n && 0 <= c < n implies #[trigger] mat@[r]@[c]
                as int == (if r < i + 1 && perm@[r] == c {
                1int
            } else {
                0
            }) by {
                assert(before[r]@[c] as int == (if r < i && perm@[r] == c {
                    1int
                } else {
                    0
                }));
            }
        }
        let m = MarkovMorphism { nrows: n, ncols: n, entries: mat };
        proof {
            lemma_permutation_rows(m, n as int, perm@);
        }
        m
    }

    /// Coarse-graining: merges category `j` of the n-simplex into category
    /// `i`, giving the (n−1)×n matrix of `merge_entry`.
    pub fn merge_categories(n: usize, i: usize, j: usize) -> (m: Self)
        requires
            2 <= n,
            j < n,
        ensures
            m.well_formed(),
            m.nrows == n - 1,
            m.ncols == n,
            forall|r: int, c: int|
                0 <= r < n - 1 && 0 <= c < n ==> #[trigger] m.entry(r, c) == merge_entry(
                    n as int,
                    i as int,
                    j as int,
                    r,
                    c,
                ),
            m.is_column_stochastic(),
            i != j && i < n ==> forall|r: int|
                0 <= r < n - 1 ==> #[trigger] m.entry(r, j as int) == m.entry(r, i as int),
            !(i != j && i < n) ==> m.entry(0, j as int) == 1,
            forall|r: int, c1: int, c2: int|
                0 <= r < n - 1 && 0 <= c1 < n && 0 <= c2 < n && c1 != c2 && c1 != j && c2 != j
                    ==> !(#[trigger] m.entry(r, c1) == 1 && #[trigger] m.entry(r, c2) == 1),
            forall|r1: int, r2: int, c1: int, c2: int|
                0 <= r1 < n - 1 && 0 <= r2 < n - 1 && 0 <= c1 < c2 < n && c1 != j && c2 != j
                    && #[trigger] m.entry(r1, c1) == 1 && #[trigger] m.entry(r2, c2) == 1 ==> r1
                    < r2,
    {
        let m = n - 1;
        let mut mat = zero_matrix(m, n);
        let target: usize = if i != j && i < n {
            if i < j {
                i
            } else {
                i - 1
            }
        } else {
            0
        };
        let mut row: usize = 0;
        for k in 0..n
            invariant
                2 <= n,
                j < n,
                m == n - 1,
                target == merge_target(n as int, i as int, j as int),
                mat@.len() == m,
                forall|r: int| 0 <= r < m ==> (#[trigger] mat@[r])@.len() == n,
                row == (if k <= j {
                    k as int
                } else {
                    k - 1
                }),
                forall|r: int, c: int|
                    0 <= r < m && 0 <= c < n ==> #[trigger] mat@[r]@[c] as int == merge_partial(
                        n as int,
                        i as int,
                        j as int,
                        k as int,
                        r,
                        c,
                    ),
        {
            let ghost before = mat@;
            if k == j {
                mat[target][k] = 1;
            } else {
                mat[row][k] = 1;
                row += 1;
            }
            assert forall|r: int, c: int| 0 <= r < m && 0 <= c < n implies mat@[r]@[c] as int
                == merge_partial(n as int, i as int, j as int, k + 1, r, c) by {
                assert(before[r]@[c] as int == merge_partial(
                    n as int,
                    i as int,
                    j as int,
                    k as int,
                    r,
                    c,
                ));
            }
        }
        let result = MarkovMorphism { nrows: m, ncols: n, entries: mat };
        proof {
            lemma_merge_structure(result, n as int, i as int, j as int);
        }
        result
    }
}

} // verus!
