use vstd::prelude::*;
use crate::cell::Coordinate;

verus! {

/// Row `y` of a grid `width` cells wide, left to right.
pub open spec fn row_coords(width: usize, y: usize) -> Seq<Coordinate> {
    Seq::new(width as nat, |x: int| Coordinate { x: x as usize, y })
}

/// Every position of a `width` × `height` grid, row by row.
pub open spec fn all_coords(width: usize, height: usize) -> Seq<Coordinate>
    decreases height,
{
    if height == 0 {
        Seq::empty()
    } else {
        all_coords(width, (height - 1) as usize) + row_coords(width, (height - 1) as usize)
    }
}

/// `s` with the entries at `i` and `j` exchanged.
pub open spec fn swap_at(s: Seq<Coordinate>, i: int, j: int) -> Seq<Coordinate> {
    s.update(i, s[j]).update(j, s[i])
}

/// The first `k` steps of a Fisher-Yates shuffle of `s`: step `i` exchanges
/// entry `i` with entry `i + draws[i] % (len - i)`.
pub open spec fn shuffle_prefix(s: Seq<Coordinate>, draws: Seq<usize>, k: nat) -> Seq<Coordinate>
    decreases k,
{
    if k == 0 {
        s
    } else {
        let i = k - 1;
        swap_at(shuffle_prefix(s, draws, i as nat), i, i + (draws[i] as int) % (s.len() - i))
    }
}

/// Every entry lies on a `width` × `height` grid.
pub open spec fn all_in_bounds(s: Seq<Coordinate>, width: usize, height: usize) -> bool {
    forall|i: int| 0 <= i < s.len() ==> (#[trigger] s[i]).x < width && s[i].y < height
}

pub proof fn lemma_all_coords(width: usize, height: usize)
    ensures
        all_coords(width, height).len() == width * height,
        all_coords(width, height).no_duplicates(),
        all_in_bounds(all_coords(width, height), width, height),
    decreases height,
{
    if height > 0 {
        let h1 = (height - 1) as usize;
        lemma_all_coords(width, h1);
        let a = all_coords(width, h1);
        let r = row_coords(width, h1);
        assert(width * h1 + width == width * height) by (nonlinear_arith)
            requires
                h1 + 1 == height,
        ;
        let s = a + r;
        assert forall|i: int, j: int| 0 <= i < s.len() && 0 <= j < s.len() && i != j implies s[i]
            != s[j] by {
            if i < a.len() && j >= a.len() {
                assert(s[i].y < h1);
            } else if j < a.len() && i >= a.len() {
                assert(s[j].y < h1);
            } else if i >= a.len() && j >= a.len() {
                assert(s[i].x == i - a.len());
                assert(s[j].x == j - a.len());
            }
        }
    }
}

pub proof fn lemma_swap_keeps(s: Seq<Coordinate>, i: int, j: int, width: usize, height: usize)
    requires
        0 <= i < s.len(),
        0 <= j < s.len(),
        s.no_duplicates(),
        all_in_bounds(s, width, height),
    ensures
        swap_at(s, i, j).len() == s.len(),
        swap_at(s, i, j).no_duplicates(),
        all_in_bounds(swap_at(s, i, j), width, height),
{
    let t = swap_at(s, i, j);
    assert forall|p: int, q: int| 0 <= p < t.len() && 0 <= q < t.len() && p != q implies t[p]
        != t[q] by {
        let sp = if p == j { i } else if p == i { j } else { p };
        let sq = if q == j { i } else if q == i { j } else { q };
        assert(t[p] == s[sp]);
        assert(t[q] == s[sq]);
    }
    assert forall|p: int| 0 <= p < t.len() implies (#[trigger] t[p]).x < width && t[p].y < height by {
        let sp = if p == j { i } else if p == i { j } else { p };
        assert(t[p] == s[sp]);
    }
}

pub proof fn lemma_shuffle_keeps(s: Seq<Coordinate>, draws: Seq<usize>, k: nat, width: usize, height: usize)
    requires
        k <= s.len(),
        s.no_duplicates(),
        all_in_bounds(s, width, height),
    ensures
        shuffle_prefix(s, draws, k).len() == s.len(),
        shuffle_prefix(s, draws, k).no_duplicates(),
        all_in_bounds(shuffle_prefix(s, draws, k), width, height),
    decreases k,
{
    if k > 0 {
        let i = k - 1;
        lemma_shuffle_keeps(s, draws, i as nat, width, height);
        let j = i + (draws[i] as int) % (s.len() - i);
        lemma_swap_keeps(shuffle_prefix(s, draws, i as nat), i, j, width, height);
    }
}

/// Lists every position of a `width` × `height` grid, row by row.
pub fn build_coords(width: usize, height: usize) -> (r: Vec<Coordinate>)
    ensures
        r@ == all_coords(width, height),
{
    let mut v: Vec<Coordinate> = Vec::new();
    let mut y: usize = 0;
    while y < height
        invariant
            y <= height,
            v@ == all_coords(width, y),
        decreases height - y,
    {
        let mut x: usize = 0;
        while x < width
            invariant
                x <= width,
                y < height,
                v@ == all_coords(width, y) + row_coords(width, y).take(x as int),
            decreases width - x,
        {
            v.push(Coordinate { x, y });
            assert(row_coords(width, y).take(x as int + 1) =~= row_coords(width, y).take(x as int).push(
                Coordinate { x, y },
            ));
            x = x + 1;
        }
        assert(row_coords(width, y).take(width as int) =~= row_coords(width, y));
        assert(all_coords(width, (y + 1) as usize) == all_coords(width, y) + row_coords(width, y));
        y = y + 1;
    }
    v
}

/// Runs the first `k` steps of the shuffle on `v` in place.
pub fn shuffle_prefix_in_place(v: &mut Vec<Coordinate>, draws: &Vec<usize>, k: usize)
    requires
        k <= old(v)@.len(),
        k <= draws@.len(),
    ensures
        final(v)@ == shuffle_prefix(old(v)@, draws@, k as nat),
{
    let n = v.len();
    let mut i: usize = 0;
    while i < k
        invariant
            i <= k,
            k <= n,
            k <= draws@.len(),
            n == old(v)@.len(),
            v@.len() == n,
            v@ == shuffle_prefix(old(v)@, draws@, i as nat),
        decreases k - i,
    {
        let j = i + draws[i] % (n - i);
        let a = v[i];
        let b = v[j];
        v.set(i, b);
        v.set(j, a);
        assert(v@ == swap_at(shuffle_prefix(old(v)@, draws@, i as nat), i as int, j as int));
        i = i + 1;
    }
}

} // verus!
