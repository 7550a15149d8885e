//! Places on a cycle: betweenness, neighbours, and what reading the cycle
//! from another place on and writing a block of it backwards do to them.

use vstd::prelude::*;

verus! {

/// Whether `mid` is met strictly before `to` when counting upwards from
/// `from` and wrapping around past the largest position. The count begins at
/// `from` itself: `from` is met first of all, and nothing is met before it.
pub open spec fn spec_between(from: int, mid: int, to: int) -> bool {
    if from <= to {
        from <= mid && mid < to
    } else {
        mid >= from || mid < to
    }
}

/// The same question for positions that are counted downwards.
pub open spec fn spec_between_down(from: int, mid: int, to: int) -> bool {
    if from >= to {
        from >= mid && mid > to
    } else {
        mid <= from || mid > to
    }
}

/// Cyclic betweenness of three positions: walking upwards from `from`, with
/// wrap-around, `mid` is reached strictly before `to`. The walk begins at
/// `from` itself, so `between(a, a, c)` holds for `c` other than `a`, and
/// neither `between(a, b, b)` nor `between(a, b, a)` ever holds.
pub fn between(from: usize, mid: usize, to: usize) -> (r: bool)
    ensures
        r == spec_between(from as int, mid as int, to as int),
{
    if from <= to {
        from <= mid && mid < to
    } else {
        mid >= from || mid < to
    }
}

/// Cyclic betweenness of three positions that are counted downwards.
pub fn between_down(from: usize, mid: usize, to: usize) -> (r: bool)
    ensures
        r == spec_between_down(from as int, mid as int, to as int),
{
    if from >= to {
        from >= mid && mid > to
    } else {
        mid <= from || mid > to
    }
}

/// For three different positions, betweenness does not depend on which of
/// them the walk starts from.
pub proof fn lemma_between_rotates(a: int, b: int, c: int)
    requires
        a != b,
        b != c,
        c != a,
    ensures
        spec_between(a, b, c) == spec_between(b, c, a),
        spec_between(b, c, a) == spec_between(c, a, b),
{
}

/// Of three different positions, exactly one of the two remaining orders
/// is the order of the walk.
pub proof fn lemma_between_swaps(a: int, b: int, c: int)
    requires
        a != b,
        b != c,
        c != a,
    ensures
        spec_between(a, b, c) == !spec_between(a, c, b),
{
}

/// The place that follows place `p` on a cycle of `n` places.
pub open spec fn next_place(p: int, n: int) -> int {
    if p + 1 < n {
        p + 1
    } else {
        0
    }
}

/// The place that precedes place `p` on a cycle of `n` places.
pub open spec fn prev_place(p: int, n: int) -> int {
    if p > 0 {
        p - 1
    } else {
        n - 1
    }
}

/// The entry of a cyclic sequence that follows position `p`.
pub open spec fn after(s: Seq<usize>, p: int) -> usize {
    if p + 1 < s.len() {
        s[p + 1]
    } else {
        s[0]
    }
}

/// The entry of a cyclic sequence that precedes position `p`.
pub open spec fn before(s: Seq<usize>, p: int) -> usize {
    if p > 0 {
        s[p - 1]
    } else {
        s[s.len() - 1]
    }
}

/// Whether two places of a cycle of `n` places lie next to each other.
pub open spec fn adjacent(p: int, q: int, n: int) -> bool {
    q == next_place(p, n) || q == prev_place(p, n)
}

/// Whether the places `p` and `q` are the places `s` and `t`, in this order
/// or the other.
pub open spec fn same_places(p: int, q: int, s: int, t: int) -> bool {
    (p == s && q == t) || (p == t && q == s)
}

/// Position `p` of a cycle of `n` places, counted from place `r` instead of
/// from place zero.
pub open spec fn shifted(r: int, n: int, p: int) -> int {
    if p >= r {
        p - r
    } else {
        p - r + n
    }
}

/// Position `q` of a cyclic sequence read from `r` on, as a position of
/// the sequence itself.
pub open spec fn unshifted(r: int, n: int, q: int) -> int {
    if q + r < n {
        q + r
    } else {
        q + r - n
    }
}

/// The cyclic sequence `s` read from position `r` on.
pub open spec fn rotated(s: Seq<usize>, r: int) -> Seq<usize> {
    Seq::new(s.len(), |p: int| s[unshifted(r, s.len() as int, p)])
}

/// Reading a cyclic sequence from another position on does not change the
/// neighbours of any entry.
pub proof fn lemma_rotated_neighbours(s: Seq<usize>, r: int, p: int)
    requires
        0 <= r <= s.len(),
        0 <= p < s.len(),
    ensures
        0 <= shifted(r, s.len() as int, p) < s.len(),
        rotated(s, r)[shifted(r, s.len() as int, p)] == s[p],
        after(rotated(s, r), shifted(r, s.len() as int, p)) == after(s, p),
        before(rotated(s, r), shifted(r, s.len() as int, p)) == before(s, p),
{
    let n = s.len() as int;
    let t = rotated(s, r);
    let q = shifted(r, n, p);
    assert(t[q] == s[p]);
    if q + 1 < n {
        assert(t[q + 1] == s[if q + 1 + r < n {
            q + 1 + r
        } else {
            q + 1 + r - n
        }]);
    } else {
        assert(t[0] == s[if r < n {
            r
        } else {
            r - n
        }]);
    }
    if q > 0 {
        assert(t[q - 1] == s[if q - 1 + r < n {
            q - 1 + r
        } else {
            q - 1 + r - n
        }]);
    } else {
        assert(t[n - 1] == s[if n - 1 + r < n {
            n - 1 + r
        } else {
            r - 1
        }]);
    }
}

/// Counting the places of a cycle from another place on keeps neighbours
/// next to each other and different places apart.
pub proof fn lemma_shifted_adjacent(n: int, r: int, p: int, q: int)
    requires
        0 <= r <= n,
        0 <= p < n,
        0 <= q < n,
    ensures
        0 <= shifted(r, n, p) < n,
        unshifted(r, n, shifted(r, n, p)) == p,
        shifted(r, n, p) == shifted(r, n, q) <==> p == q,
        shifted(r, n, next_place(p, n)) == next_place(shifted(r, n, p), n),
        shifted(r, n, prev_place(p, n)) == prev_place(shifted(r, n, p), n),
        adjacent(shifted(r, n, p), shifted(r, n, q), n) == adjacent(p, q, n),
{
}

/// Position `p` mirrored inside the block `i..=j`; positions outside the
/// block stay where they are.
pub open spec fn mirror(i: int, j: int, p: int) -> int {
    if i <= p <= j {
        i + j - p
    } else {
        p
    }
}

/// The sequence `s` with the block `i..=j` written backwards.
pub open spec fn reverse_block(s: Seq<usize>, i: int, j: int) -> Seq<usize> {
    Seq::new(s.len(), |p: int| s[mirror(i, j, p)])
}

/// The neighbours of every entry after a block that is not the whole
/// sequence has been written backwards: inside the block the two
/// neighbours change places, and across the two cuts the ends of the block
/// change places.
pub proof fn lemma_reverse_block_neighbours(s: Seq<usize>, i: int, j: int, p: int)
    requires
        0 <= i <= j < s.len(),
        0 <= p < s.len(),
        !(i == 0 && j == s.len() - 1),
    ensures
        after(reverse_block(s, i, j), mirror(i, j, p)) == (if i <= p <= j {
            if p > i {
                before(s, p)
            } else {
                after(s, j)
            }
        } else if after(s, p) == s[i] && (p + 1 == i || (p == s.len() - 1 && i == 0)) {
            s[j]
        } else {
            after(s, p)
        }),
        before(reverse_block(s, i, j), mirror(i, j, p)) == (if i <= p <= j {
            if p < j {
                after(s, p)
            } else {
                before(s, i)
            }
        } else if before(s, p) == s[j] && (p - 1 == j || (p == 0 && j == s.len() - 1)) {
            s[i]
        } else {
            before(s, p)
        }),
{
    let t = reverse_block(s, i, j);
    let n = s.len() as int;
    let q = mirror(i, j, p);
    if q + 1 < n {
        assert(t[q + 1] == s[mirror(i, j, q + 1)]);
    } else {
        assert(t[0] == s[mirror(i, j, 0)]);
    }
    if q > 0 {
        assert(t[q - 1] == s[mirror(i, j, q - 1)]);
    } else {
        assert(t[n - 1] == s[mirror(i, j, n - 1)]);
    }
}

/// Writing the whole sequence backwards exchanges the two neighbours of
/// every entry.
pub proof fn lemma_reverse_all_neighbours(s: Seq<usize>, p: int)
    requires
        0 <= p < s.len(),
    ensures
        after(reverse_block(s, 0, s.len() - 1), mirror(0, s.len() - 1, p)) == before(s, p),
        before(reverse_block(s, 0, s.len() - 1), mirror(0, s.len() - 1, p)) == after(s, p),
{
    let n = s.len() as int;
    let t = reverse_block(s, 0, n - 1);
    let q = mirror(0, n - 1, p);
    if q + 1 < n {
        assert(t[q + 1] == s[mirror(0, n - 1, q + 1)]);
    } else {
        assert(t[0] == s[mirror(0, n - 1, 0)]);
    }
    if q > 0 {
        assert(t[q - 1] == s[mirror(0, n - 1, q - 1)]);
    } else {
        assert(t[n - 1] == s[mirror(0, n - 1, n - 1)]);
    }
}

/// Which places lie next to each other after the block `i..=j` of a cycle
/// has been written backwards.
pub proof fn lemma_mirror_adjacent(n: int, i: int, j: int, p: int, q: int)
    requires
        0 <= i <= j < n,
        !(i == 0 && j == n - 1),
        0 <= p < n,
        0 <= q < n,
    ensures
        adjacent(mirror(i, j, p), mirror(i, j, q), n) == ((adjacent(p, q, n) && !same_places(
            p,
            q,
            prev_place(i, n),
            i,
        ) && !same_places(p, q, j, next_place(j, n))) || same_places(p, q, prev_place(i, n), j)
            || same_places(p, q, i, next_place(j, n))),
{
    if i <= p <= j {
        if i <= q <= j {
        } else {
        }
    } else {
        if i <= q <= j {
        } else {
        }
    }
}

/// The neighbours of the entry at position `p` after the sequence has been
/// read from `r` on and the block `i..=j` of that reading has been written
/// backwards: inside the block the two neighbours change places, and across
/// the two cuts the ends of the block change places.
pub proof fn lemma_turned_neighbours(s: Seq<usize>, r: int, i: int, j: int, p: int)
    requires
        0 <= r <= s.len(),
        0 <= i <= j < s.len(),
        !(i == 0 && j == s.len() - 1),
        0 <= p < s.len(),
    ensures
        ({
            let n = s.len() as int;
            let t = reverse_block(rotated(s, r), i, j);
            let q = shifted(r, n, p);
            let z = mirror(i, j, q);
            let pf = unshifted(r, n, i);
            let pl = unshifted(r, n, j);
            &&& 0 <= z < n
            &&& 0 <= pf < n
            &&& 0 <= pl < n
            &&& t[z] == s[p]
            &&& shifted(r, n, pf) == i
            &&& shifted(r, n, pl) == j
            &&& after(t, z) == (if i <= q <= j {
                if q > i {
                    before(s, p)
                } else {
                    after(s, pl)
                }
            } else if p == prev_place(pf, n) {
                s[pl]
            } else {
                after(s, p)
            })
            &&& before(t, z) == (if i <= q <= j {
                if q < j {
                    after(s, p)
                } else {
                    before(s, pf)
                }
            } else if p == next_place(pl, n) {
                s[pf]
            } else {
                before(s, p)
            })
            &&& (q == i <==> p == pf)
            &&& (q == j <==> p == pl)
            &&& !(i <= shifted(r, n, prev_place(pf, n)) <= j)
            &&& !(i <= shifted(r, n, next_place(pl, n)) <= j)
        }),
{
    let n = s.len() as int;
    let rot = rotated(s, r);
    let q = shifted(r, n, p);
    let pf = unshifted(r, n, i);
    let pl = unshifted(r, n, j);
    lemma_rotated_neighbours(s, r, p);
    lemma_rotated_neighbours(s, r, pf);
    lemma_rotated_neighbours(s, r, pl);
    lemma_reverse_block_neighbours(rot, i, j, q);
    assert(rot[i] == s[pf]);
    assert(rot[j] == s[pl]);
    assert(reverse_block(rot, i, j)[mirror(i, j, q)] == rot[mirror(i, j, mirror(i, j, q))]);
}

/// Which places lie next to each other after a cycle has been read from
/// `r` on and the block `i..=j` of that reading has been written backwards:
/// the two pairs of places across the cuts are taken apart, the two ends of
/// the block meet the places on the far side of the cuts, and every other
/// pair stays as it is.
pub proof fn lemma_turned_adjacent(n: int, r: int, i: int, j: int, p: int, q: int)
    requires
        0 <= r <= n,
        0 <= i <= j < n,
        !(i == 0 && j == n - 1),
        0 <= p < n,
        0 <= q < n,
    ensures
        ({
            let pf = unshifted(r, n, i);
            let pl = unshifted(r, n, j);
            let zp = mirror(i, j, shifted(r, n, p));
            let zq = mirror(i, j, shifted(r, n, q));
            adjacent(zp, zq, n) == ((adjacent(p, q, n) && !same_places(
                p,
                q,
                prev_place(pf, n),
                pf,
            ) && !same_places(p, q, pl, next_place(pl, n))) || same_places(
                p,
                q,
                prev_place(pf, n),
                pl,
            ) || same_places(p, q, pf, next_place(pl, n)))
        }),
{
    let pf = unshifted(r, n, i);
    let pl = unshifted(r, n, j);
    let sp = shifted(r, n, p);
    let sq = shifted(r, n, q);
    lemma_shifted_adjacent(n, r, p, q);
    lemma_shifted_adjacent(n, r, q, p);
    lemma_shifted_adjacent(n, r, pf, pl);
    lemma_shifted_adjacent(n, r, pl, pf);
    lemma_mirror_adjacent(n, i, j, sp, sq);
    assert(shifted(r, n, pf) == i);
    assert(shifted(r, n, pl) == j);
    let xf = prev_place(pf, n);
    let yl = next_place(pl, n);
    lemma_shifted_adjacent(n, r, p, xf);
    lemma_shifted_adjacent(n, r, q, xf);
    lemma_shifted_adjacent(n, r, p, yl);
    lemma_shifted_adjacent(n, r, q, yl);
    lemma_shifted_adjacent(n, r, p, pf);
    lemma_shifted_adjacent(n, r, q, pf);
    lemma_shifted_adjacent(n, r, p, pl);
    lemma_shifted_adjacent(n, r, q, pl);
    assert(same_places(sp, sq, prev_place(i, n), i) == same_places(p, q, xf, pf));
    assert(same_places(sp, sq, j, next_place(j, n)) == same_places(p, q, pl, yl));
    assert(same_places(sp, sq, prev_place(i, n), j) == same_places(p, q, xf, pl));
    assert(same_places(sp, sq, i, next_place(j, n)) == same_places(p, q, pf, yl));
}

} // verus!
