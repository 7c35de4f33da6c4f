use vstd::prelude::*;

use crate::arithmetic::Arithmetic;
use crate::errors::GridError;
use crate::matrix::Matrix;
use crate::polynomial::coeff_views;

verus! {

/// The packed offset of the first edge of row `m` of the triangle: the
/// number of unordered pairs whose smaller node is below `m`, which is the
/// sum of `size - 1 - t` over `t < m`.
pub open spec fn row_base(size: int, m: int) -> int
    decreases m,
{
    if m <= 0 {
        0
    } else {
        row_base(size, m - 1) + (size - m)
    }
}

/// The number of unordered pairs of distinct nodes among `size` nodes.
pub open spec fn edge_count(size: int) -> int {
    row_base(size, size - 1)
}

/// The packed offset of the edge between two distinct nodes: the offsets
/// of all pairs with a smaller low node come first, then the pairs with
/// the same low node in order of their high node. Symmetric by
/// construction.
pub open spec fn edge_offset(size: int, a: int, b: int) -> int {
    let lo = if a < b {
        a
    } else {
        b
    };
    let hi = if a < b {
        b
    } else {
        a
    };
    row_base(size, lo) + (hi - 1 - lo)
}

/// The model of the edge value between two distinct nodes.
pub open spec fn edge_at<T: Arithmetic>(v: Seq<T::V>, size: int, a: int, b: int) -> T::V {
    v[edge_offset(size, a, b)]
}

/// The packed pair count satisfies the closed formula `size*(size-1)/2`.
pub proof fn lemma_edge_count_closed(size: int)
    requires
        size >= 0,
    ensures
        edge_count(size) == size * (size - 1) / 2,
{
    lemma_double_row_base(size, size - 1);
    assert(2 * edge_count(size) == size * (size - 1)) by (nonlinear_arith)
        requires
            2 * row_base(size, size - 1) == (size - 1) * (2 * size - (size - 1) - 1) + 2 * 0
                || size < 1,
            2 * edge_count(size) == 2 * row_base(size, size - 1),
            size >= 0,
            size < 1 ==> edge_count(size) == 0,
    ;
}

/// Twice a partial row sum, in closed form.
proof fn lemma_double_row_base(size: int, m: int)
    ensures
        m >= 0 ==> 2 * row_base(size, m) == m * (2 * size - m - 1),
        m < 0 ==> row_base(size, m) == 0,
    decreases m,
{
    if m > 0 {
        lemma_double_row_base(size, m - 1);
        assert(row_base(size, m) == row_base(size, m - 1) + (size - m));
        assert((m - 1) * (2 * size - (m - 1) - 1) + 2 * (size - m) == m * (2 * size - m - 1))
            by (nonlinear_arith);
    } else if m == 0 {
        assert(row_base(size, 0) == 0);
        assert(m * (2 * size - m - 1) == 0) by (nonlinear_arith)
            requires
                m == 0,
        ;
    }
}

/// Row bases grow with the row, and stay at or under the pair count.
proof fn lemma_row_base_le(size: int, m1: int, m2: int)
    requires
        0 <= m1 <= m2 <= size - 1,
    ensures
        row_base(size, m1) <= row_base(size, m2),
    decreases m2 - m1,
{
    if m1 < m2 {
        lemma_row_base_le(size, m1, m2 - 1);
    }
}

/// Peeling the first node off the triangle: offsets of pairs above node 0
/// recur into the triangle one size smaller.
proof fn lemma_row_base_shift(size: int, m: int)
    requires
        m >= 1,
    ensures
        row_base(size, m) == (size - 1) + row_base(size - 1, m - 1),
    decreases m,
{
    if m > 1 {
        lemma_row_base_shift(size, m - 1);
        assert(row_base(size, m) == row_base(size, m - 1) + (size - m));
        assert(row_base(size - 1, m - 1) == row_base(size - 1, m - 2) + (size - 1 - (m - 1)));
    } else {
        assert(row_base(size, 1) == row_base(size, 0) + (size - 1));
        assert(row_base(size, 0) == 0);
        assert(row_base(size - 1, 0) == 0);
    }
}

/// Every valid pair's offset lies inside the packed range.
pub proof fn lemma_offset_range(size: int, lo: int, hi: int)
    requires
        0 <= lo < hi < size,
    ensures
        0 <= edge_offset(size, lo, hi) < edge_count(size),
    decreases lo,
{
    if lo == 0 {
        if size >= 2 {
            lemma_row_base_le(size, 1, size - 1);
        }
    } else {
        lemma_offset_range(size - 1, lo - 1, hi - 1);
        lemma_row_base_shift(size, lo);
        lemma_row_base_shift(size, size - 1);
    }
}

/// Distinct unordered pairs never share an offset.
pub proof fn lemma_offset_inj(size: int, l1: int, h1: int, l2: int, h2: int)
    requires
        0 <= l1 < h1 < size,
        0 <= l2 < h2 < size,
        edge_offset(size, l1, h1) == edge_offset(size, l2, h2),
    ensures
        l1 == l2,
        h1 == h2,
    decreases l1,
{
    if l1 == 0 && l2 == 0 {
    } else if l1 == 0 {
        lemma_offset_range(size - 1, l2 - 1, h2 - 1);
        lemma_row_base_shift(size, l2);
        assert(false);
    } else if l2 == 0 {
        lemma_offset_range(size - 1, l1 - 1, h1 - 1);
        lemma_row_base_shift(size, l1);
        assert(false);
    } else {
        lemma_row_base_shift(size, l1);
        lemma_row_base_shift(size, l2);
        lemma_offset_inj(size - 1, l1 - 1, h1 - 1, l2 - 1, h2 - 1);
    }
}

/// Every offset in the packed range is the offset of some pair: together
/// with the previous two lemmas, the packed numbering is a bijection
/// between the unordered pairs and `0 .. size*(size-1)/2`.
pub proof fn lemma_offset_surj(size: int, k: int)
    requires
        0 <= k < edge_count(size),
    ensures
        exists|a: int, b: int|
            0 <= a < b < size && #[trigger] edge_offset(size, a, b) == k,
    decreases size,
{
    if size >= 1 {
        lemma_row_base_shift(size, size - 1);
    }
    if k < size - 1 {
        assert(edge_offset(size, 0, k + 1) == k);
    } else {
        lemma_offset_surj(size - 1, k - (size - 1));
        let (a, b) = choose|a: int, b: int|
            0 <= a < b < size - 1 && #[trigger] edge_offset(size - 1, a, b) == k - (size - 1);
        lemma_row_base_shift(size, a + 1);
        assert(edge_offset(size, a + 1, b + 1) == k);
    }
}

/// The packed numbering in one statement: offsets are symmetric, stay in
/// range, and distinct pairs get distinct offsets; with `lemma_offset_surj`
/// giving a pair for every offset in range, the numbering is a bijection
/// between the unordered pairs and `0 .. size*(size-1)/2`.
pub proof fn lemma_edge_index_bijection(size: int)
    requires
        size >= 0,
    ensures
        forall|a: int, b: int|
            0 <= a < size && 0 <= b < size && a != b ==> #[trigger] edge_offset(size, a, b)
                == edge_offset(size, b, a),
        forall|a: int, b: int|
            0 <= a < b < size ==> 0 <= #[trigger] edge_offset(size, a, b) < size * (size - 1) / 2,
        forall|a1: int, b1: int, a2: int, b2: int|
            0 <= a1 < b1 < size && 0 <= a2 < b2 < size && #[trigger] edge_offset(size, a1, b1)
                == #[trigger] edge_offset(size, a2, b2) ==> a1 == a2 && b1 == b2,
        edge_count(size) == size * (size - 1) / 2,
{
    lemma_edge_count_closed(size);
    assert forall|a: int, b: int| 0 <= a < b < size implies 0 <= #[trigger] edge_offset(size, a, b)
        < size * (size - 1) / 2 by {
        lemma_offset_range(size, a, b);
    }
    assert forall|a1: int, b1: int, a2: int, b2: int|
        0 <= a1 < b1 < size && 0 <= a2 < b2 < size && #[trigger] edge_offset(size, a1, b1)
            == #[trigger] edge_offset(size, a2, b2) implies a1 == a2 && b1 == b2 by {
        lemma_offset_inj(size, a1, b1, a2, b2);
    }
}

/// The label a node carries after nodes `n1` and `n2` exchange identities.
pub open spec fn swap_label(x: int, n1: int, n2: int) -> int {
    if x == n1 {
        n2
    } else if x == n2 {
        n1
    } else {
        x
    }
}

/// The `j`-th neighbour of node `n`, skipping `n` itself.
pub open spec fn nbr(j: int, n: int) -> int {
    if j < n {
        j
    } else {
        j + 1
    }
}

/// The position of neighbour `o` in node `n`'s neighbour list (`o != n`).
pub open spec fn nbr_pos(o: int, n: int) -> int {
    if o < n {
        o
    } else {
        o - 1
    }
}

/// The edge values after the first `bound` neighbour slots of node `n2`
/// have received node `n1`'s old neighbour values (the `n1`–`n2` edge is
/// skipped); everything else still holds the values of `v0`.
pub open spec fn swap_phase1<T: Arithmetic>(
    v0: Seq<T::V>,
    size: int,
    n1: int,
    n2: int,
    bound: int,
    a: int,
    b: int,
) -> T::V {
    let o = if a == n2 {
        b
    } else {
        a
    };
    if (a == n2 || b == n2) && o != n1 && nbr_pos(o, n1) < bound {
        edge_at::<T>(v0, size, n1, o)
    } else {
        edge_at::<T>(v0, size, a, b)
    }
}

/// The edge values after, in addition, the first `bound` neighbour slots
/// of node `n1` have received node `n2`'s old neighbour values.
pub open spec fn swap_phase2<T: Arithmetic>(
    v0: Seq<T::V>,
    size: int,
    n1: int,
    n2: int,
    bound: int,
    a: int,
    b: int,
) -> T::V {
    let o = if a == n1 {
        b
    } else {
        a
    };
    if (a == n1 || b == n1) && o != n2 && nbr_pos(o, n2) < bound {
        edge_at::<T>(v0, size, n2, o)
    } else {
        swap_phase1::<T>(v0, size, n1, n2, size - 1, a, b)
    }
}

/// Relabelling twice with the same nodes restores every edge value: the
/// node swap is an involution.
pub proof fn lemma_swap_involution<T: Arithmetic>(
    v0: Seq<T::V>,
    v1: Seq<T::V>,
    v2: Seq<T::V>,
    size: int,
    n1: int,
    n2: int,
)
    requires
        0 <= n1 < size,
        0 <= n2 < size,
        v0.len() == edge_count(size),
        v1.len() == v0.len(),
        v2.len() == v0.len(),
        forall|a: int, b: int|
            0 <= a < size && 0 <= b < size && a != b ==> #[trigger] edge_at::<T>(v1, size, a, b)
                == edge_at::<T>(v0, size, swap_label(a, n1, n2), swap_label(b, n1, n2)),
        forall|a: int, b: int|
            0 <= a < size && 0 <= b < size && a != b ==> #[trigger] edge_at::<T>(v2, size, a, b)
                == edge_at::<T>(v1, size, swap_label(a, n1, n2), swap_label(b, n1, n2)),
    ensures
        v2 == v0,
{
    assert forall|k: int| 0 <= k < v2.len() implies v2[k] == v0[k] by {
        lemma_offset_surj(size, k);
        let (a, b) = choose|a: int, b: int|
            0 <= a < b < size && #[trigger] edge_offset(size, a, b) == k;
        let sa = swap_label(a, n1, n2);
        let sb = swap_label(b, n1, n2);
        assert(edge_at::<T>(v2, size, a, b) == edge_at::<T>(v1, size, sa, sb));
        assert(edge_at::<T>(v1, size, sa, sb) == edge_at::<T>(
            v0,
            size,
            swap_label(sa, n1, n2),
            swap_label(sb, n1, n2),
        ));
        assert(swap_label(sa, n1, n2) == a);
        assert(swap_label(sb, n1, n2) == b);
    }
    assert(v2 =~= v0);
}

/// Packed symmetric edge storage over the complete graph on `size` nodes:
/// one value per unordered pair of distinct nodes, no self-edges.
pub struct ImpedanceNetwork<T: Arithmetic> {
    size: usize,
    data: Vec<T>,
}

impl<T: Arithmetic> View for ImpedanceNetwork<T> {
    type V = Seq<T::V>;

    closed spec fn view(&self) -> Seq<T::V> {
        coeff_views(self.data@)
    }
}

impl<T: Arithmetic> ImpedanceNetwork<T> {
    /// The storage invariant: exactly one packed slot per unordered pair.
    pub open spec fn wf(&self) -> bool {
        self@.len() == edge_count(self.spec_size() as int)
    }

    pub closed spec fn spec_size(&self) -> int {
        self.size as int
    }

    pub fn size(&self) -> (r: usize)
        ensures
            r == self.spec_size(),
    {
        self.size
    }

    /// A network of `size` nodes with every edge at the additive identity.
    pub fn new(size: usize) -> (r: ImpedanceNetwork<T>)
        ensures
            r.wf(),
            r.spec_size() == size,
            forall|t: int| 0 <= t < r@.len() ==> r@[t] == T::zero_model(),
    {
        let mut data: Vec<T> = Vec::new();
        let mut lo: usize = 0;
        while lo < size
            invariant
                lo <= size,
                data@.len() == row_base(size as int, lo as int),
                forall|t: int| 0 <= t < data@.len() ==> data@[t]@ == T::zero_model(),
            decreases size - lo,
        {
            let mut hi: usize = lo + 1;
            while hi < size
                invariant
                    lo < size,
                    lo < hi,
                    hi <= size,
                    data@.len() == row_base(size as int, lo as int) + (hi - 1 - lo),
                    forall|t: int| 0 <= t < data@.len() ==> data@[t]@ == T::zero_model(),
                decreases size - hi,
            {
                data.push(T::zero());
                hi = hi + 1;
            }
            lo = lo + 1;
        }
        proof {
            if size >= 1 {
                assert(row_base(size as int, size as int) == row_base(size as int, size as int - 1)
                    + (size as int - size as int));
            }
        }
        let r = ImpedanceNetwork { size, data };
        proof {
            assert forall|t: int| 0 <= t < r@.len() implies r@[t] == T::zero_model() by {
                assert(r@[t] == r.data@[t]@);
            }
        }
        r
    }

    /// An independent deep copy: two holders can mutate their own copies
    /// without observing each other's writes.
    pub fn clone_network(&self) -> (r: ImpedanceNetwork<T>)
        ensures
            r@ == self@,
            r.spec_size() == self.spec_size(),
    {
        let r = ImpedanceNetwork {
            size: self.size,
            data: crate::arithmetic::clone_values(&self.data),
        };
        proof {
            assert(r@ =~= self@);
        }
        r
    }

    /// Exchanges the identities of nodes `n1` and `n2`: every edge value
    /// moves to the slot the relabelled pair occupies, so each pair's
    /// value afterwards is the value the swapped pair held before. The
    /// direct `n1`–`n2` edge stays in place (its pair is fixed by the
    /// relabelling), and swapping a node with itself changes nothing.
    /// Applying the same swap twice restores the original assignment; see
    /// `lemma_swap_involution`.
    pub fn swap_nodes(&mut self, n1: usize, n2: usize)
        requires
            old(self).wf(),
            n1 < old(self).spec_size(),
            n2 < old(self).spec_size(),
        ensures
            final(self).wf(),
            final(self).spec_size() == old(self).spec_size(),
            final(self)@.len() == old(self)@.len(),
            forall|a: int, b: int|
                0 <= a < old(self).spec_size() && 0 <= b < old(self).spec_size() && a != b
                    ==> #[trigger] edge_at::<T>(final(self)@, old(self).spec_size(), a, b)
                    == edge_at::<T>(
                    old(self)@,
                    old(self).spec_size(),
                    swap_label(a, n1 as int, n2 as int),
                    swap_label(b, n1 as int, n2 as int),
                ),
    {
        if n1 == n2 {
            return ;
        }
        let size = self.size;
        let ghost v0 = self@;
        let mut n1_neighbours: Vec<T> = Vec::new();
        let mut n2_neighbours: Vec<T> = Vec::new();
        let mut i: usize = 0;
        while i < size
            invariant
                size == self.spec_size(),
                self.wf(),
                self@ == v0,
                n1 != n2,
                n1 < size,
                n2 < size,
                i <= size,
                n1_neighbours@.len() == (if i <= n1 {
                    i as int
                } else {
                    i as int - 1
                }),
                n2_neighbours@.len() == (if i <= n2 {
                    i as int
                } else {
                    i as int - 1
                }),
                forall|j: int|
                    0 <= j < n1_neighbours@.len() ==> (#[trigger] n1_neighbours@[j])@ == edge_at::<
                    T,
                >(v0, size as int, n1 as int, nbr(j, n1 as int)),
                forall|j: int|
                    0 <= j < n2_neighbours@.len() ==> (#[trigger] n2_neighbours@[j])@ == edge_at::<
                    T,
                >(v0, size as int, n2 as int, nbr(j, n2 as int)),
            decreases size - i,
        {
            if i != n1 {
                let k = self.offset_of(n1, i);
                proof {
                    assert(nbr(n1_neighbours@.len() as int, n1 as int) == i);
                }
                n1_neighbours.push(self.data[k].clone_val());
            }
            if i != n2 {
                let k = self.offset_of(n2, i);
                proof {
                    assert(nbr(n2_neighbours@.len() as int, n2 as int) == i);
                }
                n2_neighbours.push(self.data[k].clone_val());
            }
            i = i + 1;
        }
        proof {
            assert forall|a: int, b: int|
                0 <= a < size && 0 <= b < size && a != b implies edge_at::<T>(
                self@,
                size as int,
                a,
                b,
            ) == #[trigger] swap_phase1::<T>(v0, size as int, n1 as int, n2 as int, 0, a, b) by {}
        }
        let mut ni: usize = 0;
        while ni < size - 1
            invariant
                size == self.spec_size(),
                self.wf(),
                self@.len() == v0.len(),
                v0.len() == edge_count(size as int),
                n1 != n2,
                n1 < size,
                n2 < size,
                size >= 2,
                ni <= size - 1,
                n1_neighbours@.len() == size - 1,
                forall|j: int|
                    0 <= j < n1_neighbours@.len() ==> (#[trigger] n1_neighbours@[j])@ == edge_at::<
                    T,
                >(v0, size as int, n1 as int, nbr(j, n1 as int)),
                n2_neighbours@.len() == size - 1,
                forall|j: int|
                    0 <= j < n2_neighbours@.len() ==> (#[trigger] n2_neighbours@[j])@ == edge_at::<
                    T,
                >(v0, size as int, n2 as int, nbr(j, n2 as int)),
                forall|a: int, b: int|
                    0 <= a < size && 0 <= b < size && a != b ==> edge_at::<T>(
                        self@,
                        size as int,
                        a,
                        b,
                    ) == #[trigger] swap_phase1::<T>(
                        v0,
                        size as int,
                        n1 as int,
                        n2 as int,
                        ni as int,
                        a,
                        b,
                    ),
            decreases size - 1 - ni,
        {
            let target = if ni < n1 {
                ni
            } else {
                ni + 1
            };
            let ghost dpre = self@;
            if target != n2 {
                let k = self.offset_of(n2, target);
                let val = n1_neighbours[ni].clone_val();
                let e = &mut self.data[k];
                *e = val;
            }
            proof {
                assert forall|a: int, b: int|
                    0 <= a < size && 0 <= b < size && a != b implies edge_at::<T>(
                    self@,
                    size as int,
                    a,
                    b,
                ) == #[trigger] swap_phase1::<T>(
                    v0,
                    size as int,
                    n1 as int,
                    n2 as int,
                    ni as int + 1,
                    a,
                    b,
                ) by {
                    let lo = if a < b {
                        a
                    } else {
                        b
                    };
                    let hi = if a < b {
                        b
                    } else {
                        a
                    };
                    lemma_offset_range(size as int, lo, hi);
                    assert(dpre[edge_offset(size as int, a, b)] == swap_phase1::<T>(
                        v0,
                        size as int,
                        n1 as int,
                        n2 as int,
                        ni as int,
                        a,
                        b,
                    ));
                    if target != n2 {
                        let tlo = if n2 < target {
                            n2 as int
                        } else {
                            target as int
                        };
                        let thi = if n2 < target {
                            target as int
                        } else {
                            n2 as int
                        };
                        if edge_offset(size as int, a, b) == edge_offset(
                            size as int,
                            n2 as int,
                            target as int,
                        ) {
                            lemma_offset_inj(size as int, lo, hi, tlo, thi);
                            assert(nbr(ni as int, n1 as int) == target);
                        }
                    }
                }
            }
            ni = ni + 1;
        }
        proof {
            assert forall|a: int, b: int|
                0 <= a < size && 0 <= b < size && a != b implies edge_at::<T>(
                self@,
                size as int,
                a,
                b,
            ) == #[trigger] swap_phase2::<T>(v0, size as int, n1 as int, n2 as int, 0, a, b) by {
                assert(edge_at::<T>(self@, size as int, a, b) == swap_phase1::<T>(
                    v0,
                    size as int,
                    n1 as int,
                    n2 as int,
                    size as int - 1,
                    a,
                    b,
                ));
            }
        }
        let mut ni: usize = 0;
        while ni < size - 1
            invariant
                size == self.spec_size(),
                self.wf(),
                self@.len() == v0.len(),
                v0.len() == edge_count(size as int),
                n1 != n2,
                n1 < size,
                n2 < size,
                size >= 2,
                ni <= size - 1,
                n2_neighbours@.len() == size - 1,
                forall|j: int|
                    0 <= j < n2_neighbours@.len() ==> (#[trigger] n2_neighbours@[j])@ == edge_at::<
                    T,
                >(v0, size as int, n2 as int, nbr(j, n2 as int)),
                forall|a: int, b: int|
                    0 <= a < size && 0 <= b < size && a != b ==> edge_at::<T>(
                        self@,
                        size as int,
                        a,
                        b,
                    ) == #[trigger] swap_phase2::<T>(
                        v0,
                        size as int,
                        n1 as int,
                        n2 as int,
                        ni as int,
                        a,
                        b,
                    ),
            decreases size - 1 - ni,
        {
            let target = if ni < n2 {
                ni
            } else {
                ni + 1
            };
            let ghost dpre = self@;
            if target != n1 {
                let k = self.offset_of(n1, target);
                let val = n2_neighbours[ni].clone_val();
                let e = &mut self.data[k];
                *e = val;
            }
            proof {
                assert forall|a: int, b: int|
                    0 <= a < size && 0 <= b < size && a != b implies edge_at::<T>(
                    self@,
                    size as int,
                    a,
                    b,
                ) == #[trigger] swap_phase2::<T>(
                    v0,
                    size as int,
                    n1 as int,
                    n2 as int,
                    ni as int + 1,
                    a,
                    b,
                ) by {
                    let lo = if a < b {
                        a
                    } else {
                        b
                    };
                    let hi = if a < b {
                        b
                    } else {
                        a
                    };
                    lemma_offset_range(size as int, lo, hi);
                    assert(dpre[edge_offset(size as int, a, b)] == swap_phase2::<T>(
                        v0,
                        size as int,
                        n1 as int,
                        n2 as int,
                        ni as int,
                        a,
                        b,
                    ));
                    if target != n1 {
                        let tlo = if n1 < target {
                            n1 as int
                        } else {
                            target as int
                        };
                        let thi = if n1 < target {
                            target as int
                        } else {
                            n1 as int
                        };
                        if edge_offset(size as int, a, b) == edge_offset(
                            size as int,
                            n1 as int,
                            target as int,
                        ) {
                            lemma_offset_inj(size as int, lo, hi, tlo, thi);
                            assert(nbr(ni as int, n2 as int) == target);
                        }
                    }
                }
            }
            ni = ni + 1;
        }
        proof {
            assert forall|a: int, b: int|
                0 <= a < size && 0 <= b < size && a != b implies #[trigger] edge_at::<T>(
                self@,
                size as int,
                a,
                b,
            ) == edge_at::<T>(
                v0,
                size as int,
                swap_label(a, n1 as int, n2 as int),
                swap_label(b, n1 as int, n2 as int),
            ) by {
                assert(edge_at::<T>(self@, size as int, a, b) == swap_phase2::<T>(
                    v0,
                    size as int,
                    n1 as int,
                    n2 as int,
                    size as int - 1,
                    a,
                    b,
                ));
            }
        }
    }

    /// The packed offset of the edge between two distinct in-range nodes.
    fn offset_of(&self, a: usize, b: usize) -> (k: usize)
        requires
            self.wf(),
            a != b,
            a < self.spec_size(),
            b < self.spec_size(),
        ensures
            k == edge_offset(self.spec_size(), a as int, b as int),
            k < self@.len(),
    {
        let lo = if a < b {
            a
        } else {
            b
        };
        let hi = if a < b {
            b
        } else {
            a
        };
        proof {
            lemma_offset_range(self.spec_size(), lo as int, hi as int);
        }
        let dl = self.data.len();
        proof {
            assert(self@.len() <= usize::MAX) by {
                assert(dl == self.data@.len());
            }
        }
        let mut result: usize = 0;
        let mut t: usize = 0;
        while t < lo
            invariant
                t <= lo,
                lo < hi < self.size,
                self.wf(),
                result == row_base(self.spec_size(), t as int),
                result <= edge_count(self.spec_size()),
                self@.len() == edge_count(self.spec_size()),
                self@.len() <= usize::MAX,
                edge_offset(self.spec_size(), lo as int, hi as int) < edge_count(self.spec_size()),
            decreases lo - t,
        {
            proof {
                assert(row_base(self.spec_size(), t as int + 1) == row_base(
                    self.spec_size(),
                    t as int,
                ) + (self.spec_size() - (t as int + 1)));
                lemma_row_base_le(self.spec_size(), t as int + 1, self.spec_size() - 1);
            }
            result = result + (self.size - 1 - t);
            t = t + 1;
        }
        result + (hi - 1 - lo)
    }

    /// The packed offset of the edge between nodes `a` and `b`: a
    /// self-edge is invalid, a node at or past the node count is out of
    /// range, and those are the only failures. Symmetric in its
    /// arguments, and a bijection onto the packed range over valid pairs.
    pub fn index(&self, a: usize, b: usize) -> (r: Result<usize, GridError>)
        requires
            self.wf(),
        ensures
            a == b ==> r == Err::<usize, GridError>(GridError::InvalidEdge),
            a != b && (a >= self.spec_size() || b >= self.spec_size()) ==> r == Err::<
                usize,
                GridError,
            >(GridError::NodeOutOfRange),
            a != b && a < self.spec_size() && b < self.spec_size() ==> (r matches Ok(k) && k
                == edge_offset(self.spec_size(), a as int, b as int) && k < self@.len()),
    {
        if a == b {
            return Err(GridError::InvalidEdge);
        }
        if a >= self.size || b >= self.size {
            return Err(GridError::NodeOutOfRange);
        }
        Ok(self.offset_of(a, b))
    }

    /// The edge value between nodes `a` and `b`, under the same failure
    /// conditions as `index`.
    pub fn get_edge(&self, a: usize, b: usize) -> (r: Result<&T, GridError>)
        requires
            self.wf(),
        ensures
            a == b ==> r == Err::<&T, GridError>(GridError::InvalidEdge),
            a != b && (a >= self.spec_size() || b >= self.spec_size()) ==> r == Err::<
                &T,
                GridError,
            >(GridError::NodeOutOfRange),
            a != b && a < self.spec_size() && b < self.spec_size() ==> (r matches Ok(v) && v@
                == edge_at::<T>(self@, self.spec_size(), a as int, b as int)),
    {
        if a == b {
            return Err(GridError::InvalidEdge);
        }
        if a >= self.size || b >= self.size {
            return Err(GridError::NodeOutOfRange);
        }
        let k = self.offset_of(a, b);
        Ok(&self.data[k])
    }

    /// Replaces the edge value between nodes `a` and `b`, under the same
    /// failure conditions as `index` (the network is then unchanged).
    pub fn set_edge(&mut self, a: usize, b: usize, value: T) -> (r: Result<(), GridError>)
        requires
            old(self).wf(),
        ensures
            final(self).wf(),
            final(self).spec_size() == old(self).spec_size(),
            a == b ==> r == Err::<(), GridError>(GridError::InvalidEdge) && final(self)@ == old(
                self,
            )@,
            a != b && (a >= old(self).spec_size() || b >= old(self).spec_size()) ==> r == Err::<
                (),
                GridError,
            >(GridError::NodeOutOfRange) && final(self)@ == old(self)@,
            a != b && a < old(self).spec_size() && b < old(self).spec_size() ==> r == Ok::<
                (),
                GridError,
            >(()) && final(self)@ == old(self)@.update(
                edge_offset(old(self).spec_size(), a as int, b as int),
                value@,
            ),
    {
        if a == b {
            return Err(GridError::InvalidEdge);
        }
        if a >= self.size || b >= self.size {
            return Err(GridError::NodeOutOfRange);
        }
        let k = self.offset_of(a, b);
        let e = &mut self.data[k];
        *e = value;
        proof {
            assert(self@ =~= old(self)@.update(
                edge_offset(old(self).spec_size(), a as int, b as int),
                value@,
            ));
        }
        Ok(())
    }

    /// A square scaffold matrix of dimension `1 + size*(size-1)/2`, seeded
    /// entirely with `additive_identity_element` except the origin, which
    /// holds `multiplicative_identity_element`; filling in the actual
    /// topology is its caller's business.
    pub fn get_matrix(
        &self,
        additive_identity_element: T,
        multiplicative_identity_element: T,
    ) -> (r: Matrix<T>)
        requires
            self.wf(),
            self@.len() < usize::MAX,
        ensures
            r.wf(),
            r.spec_rows() == 1 + edge_count(self.spec_size()),
            r.spec_cols() == r.spec_rows(),
            r@.len() > 0,
            r@[0] == multiplicative_identity_element@,
            forall|t: int| 1 <= t < r@.len() ==> r@[t] == additive_identity_element@,
    {
        let dim = 1 + self.data.len();
        let mut m = Matrix::new(dim, &additive_identity_element);
        let ghost before = m@;
        match m.set(0, 0, multiplicative_identity_element) {
            Ok(_) => {},
            Err(_) => {
                proof {
                    assert(false);
                }
            },
        }
        proof {
            assert(dim as int * dim as int >= dim as int) by (nonlinear_arith)
                requires
                    dim as int >= 1,
            ;
            assert(m@.len() >= 1);
            assert(m@[0] == multiplicative_identity_element@);
        }
        m
    }
}

} // verus!
