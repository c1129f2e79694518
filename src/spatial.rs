//! Spatial hash from integer cells to the indices of the points in them.
use crate::grid::coords;
use crate::utils::{cell_of, coord_of, from_linear, lemma_cell_of_linear, linear_of, shape_product, within_shape};
use smallvec::SmallVec;
use std::collections::HashMap;
use vstd::prelude::*;
use vstd::wrapping::u64_specs;

verus! {

/// Indices of the points in one bucket of the spatial hash, held inline up
/// to four.
#[verifier::external_body]
pub struct Bucket {
    items: SmallVec<[u32; 4]>,
}

/// The indices held by a bucket, in the order they were pushed.
pub uninterp spec fn bucket_items(b: Bucket) -> Seq<u32>;

/// Relies on smallvec::SmallVec::new: a new vector is empty.
#[verifier::external_body]
fn bucket_new() -> (r: Bucket)
    ensures
        bucket_items(r) == Seq::<u32>::empty(),
{
    Bucket { items: SmallVec::new() }
}

/// Relies on smallvec::SmallVec::push: the value is appended at the end. It
/// panics when the length would overflow, which `requires` leaves out.
#[verifier::external_body]
fn bucket_push(b: &mut Bucket, v: u32)
    requires
        bucket_items(*old(b)).len() < usize::MAX,
    ensures
        bucket_items(*final(b)) == bucket_items(*old(b)).push(v),
{
    b.items.push(v)
}

/// Relies on smallvec::SmallVec::len: the number of values held.
#[verifier::external_body]
fn bucket_len(b: &Bucket) -> (r: usize)
    ensures
        r == bucket_items(*b).len(),
{
    b.items.len()
}

/// Relies on indexing a smallvec::SmallVec, through its slice: the value at
/// position `i`.
#[verifier::external_body]
fn bucket_get(b: &Bucket, i: usize) -> (r: u32)
    requires
        i < bucket_items(*b).len(),
    ensures
        r == bucket_items(*b)[i as int],
{
    b.items[i]
}

/// Multiplier of the hash of a cell.
pub const KEY_FACTOR: u64 = 0x9E37_79B9_7F4A_7C15;

/// Hash of the first `i` coordinates of a cell.
pub open spec fn key_prefix(c: Seq<i32>, i: nat) -> u64
    decreases i,
{
    if i == 0 {
        0
    } else {
        u64_specs::wrapping_add(
            u64_specs::wrapping_mul(key_prefix(c, (i - 1) as nat), KEY_FACTOR),
            (c[i - 1] as u32) as u64,
        )
    }
}

/// Hash of a cell: the key of its bucket. Distinct cells may share one.
#[verifier::opaque]
pub open spec fn cell_key(c: Seq<i32>) -> u64 {
    key_prefix(c, c.len())
}

/// Hash of the cell `c`.
pub fn key_of<const N: usize>(c: [i32; N]) -> (r: u64)
    ensures
        r == cell_key(c@),
{
    let mut h: u64 = 0;
    let mut i: usize = 0;
    while i < N
        invariant
            i <= N,
            h == key_prefix(c@, i as nat),
        decreases N - i,
    {
        h = h.wrapping_mul(KEY_FACTOR).wrapping_add(c[i] as u32 as u64);
        i += 1;
    }
    proof {
        reveal(cell_key);
    }
    h
}

/// Indices below `n`, in increasing order, of the cells whose key is `k`.
pub open spec fn indices_with_key<const N: usize>(cells: Seq<[i32; N]>, k: u64, n: nat) -> Seq<
    u32,
>
    decreases n,
{
    if n == 0 {
        Seq::empty()
    } else {
        let prev = indices_with_key(cells, k, (n - 1) as nat);
        if cell_key(cells[n - 1]@) == k {
            prev.push((n - 1) as u32)
        } else {
            prev
        }
    }
}

/// Cells that differ by at most one along every axis.
pub open spec fn adjacent<const N: usize>(a: [i32; N], b: [i32; N]) -> bool {
    forall|ax: int| 0 <= ax < N ==> -1 <= #[trigger] a[ax] - b[ax] <= 1
}

/// Extents of the box `{0, 1, 2}^n` that numbers the offsets of a
/// neighbourhood.
pub open spec fn three(n: nat) -> Seq<u32> {
    Seq::new(n, |_i: int| 3u32)
}

/// The cell `c` moved by the `o`-th offset of `{-1, 0, 1}^n`, in the order in
/// which the first axis varies fastest.
pub open spec fn shifted(c: Seq<i32>, o: nat) -> Seq<int> {
    Seq::new(c.len(), |ax: int| c[ax] + coord_of(o, three(c.len()), ax) - 1)
}

/// Whether the cells `a` and `b` differ by at most one along every axis.
pub fn is_adjacent<const N: usize>(a: &[i32; N], b: &[i32; N]) -> (r: bool)
    ensures
        r == adjacent(*a, *b),
{
    let mut ax: usize = 0;
    while ax < N
        invariant
            ax <= N,
            forall|k: int| 0 <= k < ax ==> -1 <= #[trigger] a[k] - b[k] <= 1,
        decreases N - ax,
    {
        let diff = a[ax] as i64 - b[ax] as i64;
        if diff < -1 || diff > 1 {
            return false;
        }
        ax += 1;
    }
    true
}

/// `c` moved by `d - 1` along every axis, or `None` where a coordinate leaves
/// the range of `i32`.
fn shift_cell<const N: usize>(c: [i32; N], d: [u32; N]) -> (r: Option<[i32; N]>)
    ensures
        r is Some <==> forall|ax: int|
            0 <= ax < N ==> i32::MIN <= #[trigger] c[ax] + d[ax] - 1 <= i32::MAX,
        r matches Some(t) ==> forall|ax: int| 0 <= ax < N ==> #[trigger] t[ax] == c[ax] + d[ax] - 1,
{
    let mut t: [i32; N] = [0i32; N];
    let mut ax: usize = 0;
    while ax < N
        invariant
            ax <= N,
            forall|k: int| 0 <= k < ax ==> #[trigger] t[k] == c[k] + d[k] - 1,
        decreases N - ax,
    {
        let v = c[ax] as i64 + d[ax] as i64 - 1;
        if v < i32::MIN as i64 || v > i32::MAX as i64 {
            proof {
                assert(!(i32::MIN <= c[ax as int] + d[ax as int] - 1 <= i32::MAX));
            }
            return None;
        }
        t[ax] = v as i32;
        ax += 1;
    }
    proof {
        assert forall|ax: int| 0 <= ax < N implies i32::MIN <= #[trigger] c[ax] + d[ax] - 1
            <= i32::MAX by {
            assert(t[ax] == c[ax] + d[ax] - 1);
        }
    }
    Some(t)
}

fn contains_key(keys: &Vec<u64>, k: u64) -> (r: bool)
    ensures
        r == keys@.contains(k),
{
    let mut p: usize = 0;
    while p < keys.len()
        invariant
            p <= keys@.len(),
            forall|q: int| 0 <= q < p ==> keys@[q] != k,
        decreases keys@.len() - p,
    {
        if keys[p] == k {
            return true;
        }
        p += 1;
    }
    false
}

proof fn lemma_indices_with_key<const N: usize>(cells: Seq<[i32; N]>, k: u64, n: nat)
    requires
        n <= cells.len(),
        n <= u32::MAX + 1,
    ensures
        forall|q: int|
            0 <= q < indices_with_key(cells, k, n).len() ==> {
                let x = #[trigger] indices_with_key(cells, k, n)[q];
                &&& x < n
                &&& cell_key(cells[x as int]@) == k
            },
        forall|a: int, b: int|
            0 <= a < b < indices_with_key(cells, k, n).len() ==> indices_with_key(cells, k, n)[a]
                < indices_with_key(cells, k, n)[b],
        forall|x: u32|
            x < n && cell_key(cells[x as int]@) == k ==> #[trigger] indices_with_key(
                cells,
                k,
                n,
            ).contains(x),
    decreases n,
{
    if n > 0 {
        lemma_indices_with_key(cells, k, (n - 1) as nat);
        let prev = indices_with_key(cells, k, (n - 1) as nat);
        let cur = indices_with_key(cells, k, n);
        assert forall|x: u32| x < n && cell_key(cells[x as int]@) == k implies #[trigger] cur.contains(x) by {
            if x < n - 1 {
                assert(prev.contains(x));
                let q = choose|q: int| 0 <= q < prev.len() && prev[q] == x;
                assert(cur[q] == x);
            } else {
                assert(cur[cur.len() - 1] == x);
            }
        }
    }
}

/// Points grouped by the cell that holds them.
pub struct PointGrid<const N: usize> {
    table: HashMap<u64, Bucket>,
    cells: Vec<[i32; N]>,
}

impl<const N: usize> PointGrid<N> {
    /// Cell of each point, by index.
    pub closed spec fn spec_cells(&self) -> Seq<[i32; N]> {
        self.cells@
    }

    /// The indices in the bucket of key `k`.
    pub closed spec fn spec_bucket(&self, k: u64) -> Seq<u32> {
        map_bucket(self.table@, k)
    }

    /// Each bucket holds, in increasing order, the indices of the points whose
    /// cell has its key.
    pub closed spec fn wf(&self) -> bool {
        &&& self.cells@.len() <= u32::MAX + 1
        &&& forall|k: u64|
            #[trigger] self.spec_bucket(k) == indices_with_key(
                self.cells@,
                k,
                self.cells@.len() as nat,
            )
    }

    /// A grid that holds no point.
    pub fn new() -> (r: Self)
        ensures
            r.wf(),
            r.spec_cells() == Seq::<[i32; N]>::empty(),
    {
        let r = PointGrid { table: HashMap::new(), cells: Vec::new() };
        proof {
            assert forall|k: u64| #[trigger] r.spec_bucket(k) == indices_with_key(
                r.cells@,
                k,
                0,
            ) by {}
        }
        r
    }

    /// Replaces the points by points in the given cells, one per index.
    pub fn update(&mut self, cells: Vec<[i32; N]>)
        requires
            cells@.len() <= u32::MAX + 1,
        ensures
            final(self).wf(),
            final(self).spec_cells() == cells@,
    {
        self.table.clear();
        let n = cells.len();
        let mut j: usize = 0;
        while j < n
            invariant
                j <= n,
                n == cells@.len(),
                n <= u32::MAX + 1,
                forall|k: u64|
                    #[trigger] map_bucket(self.table@, k) == indices_with_key(cells@, k, j as nat),
            decreases n - j,
        {
            let k = key_of(cells[j]);
            let ghost before = self.table@;
            let b = self.table.remove(&k);
            let ghost removed = self.table@;
            let mut b = match b {
                Some(b) => b,
                None => bucket_new(),
            };
            proof {
                assert(removed == before.remove(k));
                assert(bucket_items(b) == map_bucket(before, k));
                lemma_indices_len(cells@, k, j as nat);
            }
            bucket_push(&mut b, j as u32);
            self.table.insert(k, b);
            proof {
                assert(self.table@ == removed.insert(k, b));
                lemma_bucket_step(cells@, before, self.table@, k, j as nat);
            }
            j += 1;
        }
        self.cells = cells;
        proof {
            assert forall|k: u64| #[trigger] self.spec_bucket(k) == indices_with_key(
                self.cells@,
                k,
                self.cells@.len() as nat,
            ) by {
                assert(self.spec_bucket(k) == map_bucket(self.table@, k));
            }
        }
    }

    /// Number of points held.
    pub fn len(&self) -> (r: usize)
        ensures
            r == self.spec_cells().len(),
    {
        self.cells.len()
    }

    /// Cell of the point `i`.
    pub fn cell(&self, i: usize) -> (r: [i32; N])
        requires
            i < self.spec_cells().len(),
        ensures
            r == self.spec_cells()[i as int],
    {
        self.cells[i]
    }

    /// Appends to `out` the points of bucket `b`, of key `k`, that neighbour
    /// point `i` of cell `c`.
    fn scan_bucket(
        &self,
        b: &Bucket,
        k: u64,
        i: usize,
        c: &[i32; N],
        out: &mut Vec<u32>,
        visited: Ghost<Seq<u64>>,
    )
        requires
            self.cells@.len() <= u32::MAX + 1,
            i < self.cells@.len(),
            *c == self.cells@[i as int],
            bucket_items(*b) == indices_with_key(self.cells@, k, self.cells@.len() as nat),
            !visited@.contains(k),
            old(out)@.no_duplicates(),
            found_only(self.cells@, i, *c, visited@, old(out)@),
            found_all(self.cells@, i, *c, visited@, old(out)@),
        ensures
            final(out)@.no_duplicates(),
            found_only(self.cells@, i, *c, visited@.push(k), final(out)@),
            found_all(self.cells@, i, *c, visited@.push(k), final(out)@),
    {
        let n = self.cells.len();
        let ghost items = bucket_items(*b);
        proof {
            lemma_indices_with_key(self.cells@, k, n as nat);
        }
        let len = bucket_len(b);
        let mut p: usize = 0;
        while p < len
            invariant
                n == self.cells@.len(),
                i < n,
                *c == self.cells@[i as int],
                items == bucket_items(*b),
                len == items.len(),
                p <= len,
                !visited@.contains(k),
                forall|q: int|
                    0 <= q < items.len() ==> {
                        let x = #[trigger] items[q];
                        &&& x < n
                        &&& cell_key(self.cells@[x as int]@) == k
                    },
                forall|a: int, b: int| 0 <= a < b < items.len() ==> items[a] < items[b],
                out@.no_duplicates(),
                forall|y: u32|
                    #[trigger] out@.contains(y) ==> is_near(self.cells@, i, *c, y) && (
                    visited@.contains(cell_key(self.cells@[y as int]@)) || (cell_key(
                        self.cells@[y as int]@,
                    ) == k && p > 0 && y <= items[p - 1])),
                found_all(self.cells@, i, *c, visited@, out@),
                forall|q: int|
                    0 <= q < p && is_near(self.cells@, i, *c, items[q]) ==> out@.contains(
                        #[trigger] items[q],
                    ),
            decreases len - p,
        {
            let y = bucket_get(b, p);
            if y as usize != i && is_adjacent(&self.cells[y as usize], c) {
                proof {
                    if out@.contains(y) {
                        assert(!visited@.contains(cell_key(self.cells@[y as int]@)));
                        assert(p > 0 && y <= items[p - 1]);
                        assert(items[p - 1] < items[p as int]);
                    }
                }
                let ghost before = out@;
                out.push(y);
                proof {
                    lemma_push_contains(before, y);
                }
            }
            proof {
                if p > 0 {
                    assert(items[p - 1] < items[p as int]);
                }
            }
            p += 1;
        }
        proof {
            lemma_indices_with_key(self.cells@, k, n as nat);
            lemma_push_contains(visited@, k);
            assert forall|y: u32| #[trigger] out@.contains(y) implies is_near(self.cells@, i, *c, y)
                && visited@.push(k).contains(cell_key(self.cells@[y as int]@)) by {}
            assert forall|y: u32|
                is_near(self.cells@, i, *c, y) && visited@.push(k).contains(
                    cell_key(self.cells@[y as int]@),
                ) implies #[trigger] out@.contains(y) by {
                if cell_key(self.cells@[y as int]@) == k {
                    assert(items.contains(y));
                    let q = choose|q: int| 0 <= q < items.len() && items[q] == y;
                    assert(out@.contains(items[q]));
                } else {
                    assert(visited@.contains(cell_key(self.cells@[y as int]@)));
                }
            }
        }
    }

    /// `f` of each point's index and neighbour list, in index order. Every
    /// result is computed before the caller can apply any of them, so each
    /// sees the same positions.
    pub fn map_neighborhoods<D, F: Fn(usize, Vec<u32>) -> D>(&self, f: F) -> (r: Vec<D>)
        requires
            self.wf(),
            shape_product(three(N as nat)) <= usize::MAX,
            forall|i: usize, nb: Vec<u32>| #[trigger] f.requires((i, nb)),
        ensures
            r@.len() == self.spec_cells().len(),
            forall|i: int|
                0 <= i < r@.len() ==> computed_from(f, self.spec_cells(), i as usize, #[trigger] r@[i]),
    {
        let n = self.cells.len();
        let mut out: Vec<D> = Vec::with_capacity(n);
        let mut i: usize = 0;
        while i < n
            invariant
                self.wf(),
                shape_product(three(N as nat)) <= usize::MAX,
                forall|i: usize, nb: Vec<u32>| #[trigger] f.requires((i, nb)),
                n == self.cells@.len(),
                i <= n,
                out@.len() == i,
                forall|j: int|
                    0 <= j < i ==> computed_from(f, self.spec_cells(), j as usize, #[trigger] out@[j]),
            decreases n - i,
        {
            let nb = self.neighbors(i);
            let ghost nbv = nb;
            let d = f(i, nb);
            let ghost before = out@;
            out.push(d);
            proof {
                assert(neighbor_list(self.spec_cells(), i, nbv@));
                assert(computed_from(f, self.spec_cells(), i, d));
                assert forall|j: int|
                    0 <= j < i + 1 implies computed_from(f, self.spec_cells(), j as usize, #[trigger] out@[j]) by {
                    if j < i {
                        assert(out@[j] == before[j]);
                    }
                }
            }
            i += 1;
        }
        out
    }

    /// Indices of the other points whose cell lies in the `3^N` cells around
    /// the cell of point `i`, each once.
    pub fn neighbors(&self, i: usize) -> (r: Vec<u32>)
        requires
            self.wf(),
            i < self.spec_cells().len(),
            shape_product(three(N as nat)) <= usize::MAX,
        ensures
            r@.no_duplicates(),
            forall|x: u32|
                #[trigger] r@.contains(x) <==> (x < self.spec_cells().len() && x != i && adjacent(
                    self.spec_cells()[x as int],
                    self.spec_cells()[i as int],
                )),
    {
        let n = self.cells.len();
        let c = self.cells[i];
        let three_arr: [u32; N] = [3u32; N];
        proof {
            assert(three_arr@ =~= three(N as nat));
        }
        let count = crate::array::product_of(three_arr);
        let mut visited: Vec<u64> = Vec::new();
        let mut out: Vec<u32> = Vec::new();
        let mut o: usize = 0;
        while o < count
            invariant
                self.wf(),
                n == self.cells@.len(),
                i < n,
                c == self.cells@[i as int],
                three_arr@ == three(N as nat),
                count == shape_product(three(N as nat)),
                o <= count,
                out@.no_duplicates(),
                found_only(self.cells@, i, c, visited@, out@),
                found_all(self.cells@, i, c, visited@, out@),
                forall|o2: nat, t: [i32; N]|
                    #![trigger shifted(c@, o2), coords(t)]
                    o2 < o && coords(t) == shifted(c@, o2) ==> visited@.contains(cell_key(t@)),
            decreases count - o,
        {
            proof {
                crate::utils::lemma_cell_of_within(o as nat, three(N as nat));
                crate::utils::lemma_product_positive(three(N as nat));
            }
            let d = from_linear(o, three_arr);
            let shifted_cell = shift_cell(c, d);
            let ghost visited_before = visited@;
            if let Some(t) = shifted_cell {
                let k = key_of(t);
                if !contains_key(&visited, k) {
                    if let Some(b) = self.table.get(&k) {
                        proof {
                            assert(self.spec_bucket(k) == bucket_items(*b));
                            assert(bucket_items(*b) == indices_with_key(self.cells@, k, n as nat));
                        }
                        self.scan_bucket(b, k, i, &c, &mut out, Ghost(visited@));
                    } else {
                        proof {
                            assert(self.spec_bucket(k) == Seq::<u32>::empty());
                            lemma_indices_with_key(self.cells@, k, n as nat);
                            assert forall|y: u32|
                                y < n && cell_key(self.cells@[y as int]@) == k implies false by {
                                assert(indices_with_key(self.cells@, k, n as nat).contains(y));
                            }
                        }
                    }
                    let ghost before = visited@;
                    visited.push(k);
                    proof {
                        lemma_push_contains(before, k);
                    }
                }
                proof {
                    assert(visited@.contains(k));
                    assert forall|t2: [i32; N]| coords(t2) == shifted(c@, o as nat) implies visited@.contains(
                        cell_key(t2@),
                    ) by {
                        assert(t2@ =~= t@) by {
                            assert forall|ax: int| 0 <= ax < N implies t2@[ax] == t@[ax] by {
                                assert(coords(t2)[ax] == shifted(c@, o as nat)[ax]);
                                assert(t[ax] == c[ax] + d[ax] - 1);
                            }
                        }
                    }
                }
            } else {
                proof {
                    assert forall|t2: [i32; N]| coords(t2) == shifted(c@, o as nat) implies false by {
                        let ax = choose|ax: int|
                            0 <= ax < N && !(i32::MIN <= #[trigger] c[ax] + d[ax] - 1 <= i32::MAX);
                        assert(coords(t2)[ax] == t2[ax] as int);
                        assert(shifted(c@, o as nat)[ax] == c[ax] + d[ax] - 1);
                    }
                }
            }
            proof {
                assert forall|o2: nat, t2: [i32; N]|
                    #![trigger shifted(c@, o2), coords(t2)]
                    o2 < o + 1 && coords(t2) == shifted(c@, o2) implies visited@.contains(
                        cell_key(t2@),
                    ) by {
                    if o2 < o {
                        assert(visited_before.contains(cell_key(t2@)));
                    }
                }
            }
            o += 1;
        }
        proof {
            assert forall|x: u32|
                x < n && x != i && adjacent(self.cells@[x as int], c) implies #[trigger] out@.contains(x) by {
                let o2 = lemma_offset_of(c, self.cells@[x as int]);
                assert(visited@.contains(cell_key(self.cells@[x as int]@)));
                assert(is_near(self.cells@, i, c, x));
            }
        }
        out
    }
}

/// A cell next to `c` is `c` moved by one of the offsets of its
/// neighbourhood.
proof fn lemma_offset_of<const N: usize>(c: [i32; N], cx: [i32; N]) -> (o: nat)
    requires
        adjacent(cx, c),
    ensures
        o < shape_product(three(N as nat)),
        coords(cx) == shifted(c@, o),
{
    let u = Seq::new(N as nat, |ax: int| (cx[ax] - c[ax] + 1) as u32);
    assert(within_shape(u, three(N as nat))) by {
        assert forall|ax: int| 0 <= ax < N implies u[ax] < three(N as nat)[ax] by {
            assert(-1 <= cx[ax] - c[ax] <= 1);
        }
    }
    crate::utils::lemma_linear_bound(u, three(N as nat));
    lemma_cell_of_linear(u, three(N as nat));
    let o = linear_of(u, three(N as nat));
    assert(coords(cx) =~= shifted(c@, o)) by {
        assert forall|ax: int| 0 <= ax < N implies coords(cx)[ax] == shifted(c@, o)[ax] by {
            assert(cell_of(o, three(N as nat))[ax] == u[ax]);
            assert(-1 <= cx[ax] - c[ax] <= 1);
        }
    }
    o
}

proof fn lemma_push_contains<T>(s: Seq<T>, v: T)
    ensures
        forall|z: T| #[trigger] s.push(v).contains(z) <==> (s.contains(z) || z == v),
{
    assert forall|z: T| #[trigger] s.push(v).contains(z) implies (s.contains(z) || z == v) by {
        let q = choose|q: int| 0 <= q < s.len() + 1 && s.push(v)[q] == z;
        if q < s.len() {
            assert(s[q] == z);
        }
    }
    assert forall|z: T| (s.contains(z) || z == v) implies #[trigger] s.push(v).contains(z) by {
        if s.contains(z) {
            let q = choose|q: int| 0 <= q < s.len() && s[q] == z;
            assert(s.push(v)[q] == z);
        } else {
            assert(s.push(v)[s.len() as int] == z);
        }
    }
}

/// `nb` lists, each once, the other points whose cell neighbours that of
/// point `i`.
pub open spec fn neighbor_list<const N: usize>(cells: Seq<[i32; N]>, i: usize, nb: Seq<u32>) -> bool {
    &&& nb.no_duplicates()
    &&& forall|x: u32| #[trigger] nb.contains(x) <==> is_near(cells, i, cells[i as int], x)
}

/// `d` is what `f` returns for point `i` and some list of its neighbours.
pub open spec fn computed_from<const N: usize, D, F: Fn(usize, Vec<u32>) -> D>(
    f: F,
    cells: Seq<[i32; N]>,
    i: usize,
    d: D,
) -> bool {
    exists|nb: Vec<u32>| neighbor_list(cells, i, nb@) && #[trigger] f.ensures((i, nb), d)
}

/// `y` is another point than `i` whose cell neighbours `c`.
pub open spec fn is_near<const N: usize>(cells: Seq<[i32; N]>, i: usize, c: [i32; N], y: u32) -> bool {
    y < cells.len() && y != i && adjacent(cells[y as int], c)
}

/// Every point of `out` neighbours `c` and has a key among `keys`.
pub open spec fn found_only<const N: usize>(
    cells: Seq<[i32; N]>,
    i: usize,
    c: [i32; N],
    keys: Seq<u64>,
    out: Seq<u32>,
) -> bool {
    forall|y: u32|
        #[trigger] out.contains(y) ==> is_near(cells, i, c, y) && keys.contains(
            cell_key(cells[y as int]@),
        )
}

/// Every point that neighbours `c` and has a key among `keys` is in `out`.
pub open spec fn found_all<const N: usize>(
    cells: Seq<[i32; N]>,
    i: usize,
    c: [i32; N],
    keys: Seq<u64>,
    out: Seq<u32>,
) -> bool {
    forall|y: u32|
        is_near(cells, i, c, y) && keys.contains(cell_key(cells[y as int]@)) ==> #[trigger] out.contains(y)
}

/// The indices in the bucket of key `k` of a table's contents.
pub open spec fn map_bucket(m: Map<u64, Bucket>, k: u64) -> Seq<u32> {
    if m.contains_key(k) {
        bucket_items(m[k])
    } else {
        Seq::empty()
    }
}

proof fn lemma_indices_len<const N: usize>(cells: Seq<[i32; N]>, k: u64, n: nat)
    ensures
        indices_with_key(cells, k, n).len() <= n,
    decreases n,
{
    if n > 0 {
        lemma_indices_len(cells, k, (n - 1) as nat);
    }
}

/// Whether two points neighbour each other does not depend on which one is
/// asked about: each appears in the other's neighbour list exactly when the
/// other appears in its own.
pub proof fn lemma_neighbors_symmetric<const N: usize>(cells: Seq<[i32; N]>, i: usize, j: usize)
    requires
        i < cells.len(),
        j < cells.len(),
        cells.len() <= u32::MAX + 1,
    ensures
        is_near(cells, i, cells[i as int], j as u32) == is_near(cells, j, cells[j as int], i as u32),
{
    if adjacent(cells[j as int], cells[i as int]) {
        assert forall|ax: int| 0 <= ax < N implies -1 <= #[trigger] cells[i as int][ax]
            - cells[j as int][ax] <= 1 by {
            assert(-1 <= cells[j as int][ax] - cells[i as int][ax] <= 1);
        }
    }
    if adjacent(cells[i as int], cells[j as int]) {
        assert forall|ax: int| 0 <= ax < N implies -1 <= #[trigger] cells[j as int][ax]
            - cells[i as int][ax] <= 1 by {
            assert(-1 <= cells[i as int][ax] - cells[j as int][ax] <= 1);
        }
    }
}

proof fn lemma_bucket_step<const N: usize>(
    cells: Seq<[i32; N]>,
    before: Map<u64, Bucket>,
    after: Map<u64, Bucket>,
    k: u64,
    j: nat,
)
    requires
        j < cells.len(),
        j <= u32::MAX,
        k == cell_key(cells[j as int]@),
        forall|k2: u64| #[trigger] map_bucket(before, k2) == indices_with_key(cells, k2, j),
        after == before.remove(k).insert(k, after[k]),
        bucket_items(after[k]) == map_bucket(before, k).push(j as u32),
    ensures
        forall|k2: u64| #[trigger] map_bucket(after, k2) == indices_with_key(cells, k2, j + 1),
{
    assert forall|k2: u64| #[trigger] map_bucket(after, k2) == indices_with_key(cells, k2, j + 1) by {
        if k2 != k {
            assert(map_bucket(after, k2) == map_bucket(before, k2));
        }
    }
}

} // verus!
