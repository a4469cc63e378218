use vstd::prelude::*;

verus! {

/// One stored non-zero cell on an axis chain: `index` is the column on a row
/// chain and the row on a column chain.
#[derive(Clone, Copy)]
pub struct Entry {
    pub index: usize,
    pub value: i64,
}

/// A chain holds strictly increasing indices below `bound` and no zero value.
pub open spec fn sorted_chain(c: Seq<Entry>, bound: int) -> bool {
    &&& forall|a: int, b: int| 0 <= a < b < c.len() ==> c[a].index < c[b].index
    &&& forall|a: int| 0 <= a < c.len() ==> c[a].index < bound && c[a].value != 0
}

/// The value that a chain gives to index `k`: the stored value, or zero.
pub open spec fn chain_at(c: Seq<Entry>, k: int) -> i64 {
    if exists|a: int| 0 <= a < c.len() && c[a].index == k {
        c[choose|a: int| 0 <= a < c.len() && c[a].index == k].value
    } else {
        0
    }
}

/// The dense line of `n` values that a chain stands for.
pub open spec fn chain_line(c: Seq<Entry>, n: int) -> Seq<i64> {
    Seq::new(n as nat, |k: int| chain_at(c, k))
}

/// Number of non-zero values in a line.
pub open spec fn line_nnz(s: Seq<i64>) -> nat
    decreases s.len(),
{
    if s.len() == 0 {
        0
    } else {
        line_nnz(s.drop_last()) + if s.last() != 0 { 1nat } else { 0nat }
    }
}

/// Number of non-zero cells in a grid.
pub open spec fn grid_nnz(m: Seq<Seq<i64>>) -> nat
    decreases m.len(),
{
    if m.len() == 0 {
        0
    } else {
        grid_nnz(m.drop_last()) + line_nnz(m.last())
    }
}

/// The grid that a jagged sequence of rows stands for: `cols` columns, with
/// missing trailing cells read as zero.
pub open spec fn padded(v: Seq<Seq<i64>>, cols: int) -> Seq<Seq<i64>> {
    Seq::new(v.len(), |i: int| Seq::new(cols as nat, |j: int| if j < v[i].len() { v[i][j] } else { 0 }))
}

/// The largest row length of a jagged sequence of rows (zero when there is none).
pub open spec fn max_len(v: Seq<Seq<i64>>) -> nat
    decreases v.len(),
{
    if v.len() == 0 {
        0
    } else {
        let m = max_len(v.drop_last());
        if v.last().len() > m { v.last().len() } else { m }
    }
}

pub proof fn lemma_chain_hit(c: Seq<Entry>, bound: int, a: int)
    requires
        sorted_chain(c, bound),
        0 <= a < c.len(),
    ensures
        chain_at(c, c[a].index as int) == c[a].value,
{
    let k = c[a].index as int;
    assert(exists|x: int| 0 <= x < c.len() && c[x].index == k);
    let w = choose|x: int| 0 <= x < c.len() && c[x].index == k;
    if w < a {
        assert(c[w].index < c[a].index);
    } else if w > a {
        assert(c[a].index < c[w].index);
    }
}

pub proof fn lemma_chain_miss(c: Seq<Entry>, k: int)
    requires
        forall|a: int| 0 <= a < c.len() ==> c[a].index != k,
    ensures
        chain_at(c, k) == 0,
{
}

/// A chain's length is the number of non-zero values on its line.
proof fn lemma_chain_nnz(c: Seq<Entry>, n: int)
    requires
        0 <= n,
        sorted_chain(c, n),
    ensures
        line_nnz(chain_line(c, n)) == c.len(),
    decreases n,
{
    if n == 0 {
        if c.len() > 0 {
            assert(c[0].index < 0);
        }
    } else {
        let line = chain_line(c, n);
        assert(line.drop_last() =~= chain_line(c, n - 1)) by {
            assert forall|k: int| 0 <= k < n - 1 implies line.drop_last()[k] == chain_line(c, n - 1)[k] by {}
        }
        if c.len() > 0 && c.last().index == n - 1 {
            let d = c.drop_last();
            lemma_chain_hit(c, n, c.len() - 1);
            assert(sorted_chain(d, n - 1)) by {
                assert forall|a: int| 0 <= a < d.len() implies d[a].index < n - 1 by {
                    assert(c[a].index < c[c.len() - 1].index);
                }
            }
            assert(chain_line(c, n - 1) =~= chain_line(d, n - 1)) by {
                assert forall|k: int| 0 <= k < n - 1 implies chain_at(c, k) == chain_at(d, k) by {
                    if exists|a: int| 0 <= a < d.len() && d[a].index == k {
                        let a = choose|a: int| 0 <= a < d.len() && d[a].index == k;
                        lemma_chain_hit(d, n - 1, a);
                        lemma_chain_hit(c, n, a);
                    } else {
                        assert forall|a: int| 0 <= a < c.len() implies c[a].index != k by {
                            if a < d.len() {
                                assert(d[a] == c[a]);
                                assert(!(0 <= a < d.len() && d[a].index == k));
                            }
                        }
                    }
                }
            }
            lemma_chain_nnz(d, n - 1);
        } else {
            assert forall|a: int| 0 <= a < c.len() implies c[a].index != n - 1 by {
                if c[a].index == n - 1 {
                    if a < c.len() - 1 {
                        assert(c[a].index < c[c.len() - 1].index);
                    }
                }
            }
            assert(sorted_chain(c, n - 1)) by {
                assert forall|a: int| 0 <= a < c.len() implies c[a].index < n - 1 by {
                    assert(c[a].index != n - 1);
                }
            }
            lemma_chain_nnz(c, n - 1);
        }
    }
}

/// Offset of the first entry whose index is at least `k`.
fn lower_bound(c: &Vec<Entry>, k: usize, Ghost(bound): Ghost<int>) -> (a: usize)
    requires
        sorted_chain(c@, bound),
    ensures
        a <= c@.len(),
        forall|m: int| 0 <= m < a ==> c@[m].index < k,
        forall|m: int| a <= m < c@.len() ==> c@[m].index >= k,
{
    let mut a: usize = 0;
    while a < c.len() && c[a].index < k
        invariant
            sorted_chain(c@, bound),
            a <= c@.len(),
            forall|m: int| 0 <= m < a ==> c@[m].index < k,
        decreases c@.len() - a,
    {
        a = a + 1;
    }
    proof {
        assert forall|m: int| a <= m < c@.len() implies c@[m].index >= k by {
            if m > a {
                assert(c@[a as int].index < c@[m].index);
            }
        }
    }
    a
}

/// The value at index `k` of a chain.
fn chain_lookup(c: &Vec<Entry>, k: usize, Ghost(bound): Ghost<int>) -> (r: i64)
    requires
        sorted_chain(c@, bound),
    ensures
        r == chain_at(c@, k as int),
{
    let a = lower_bound(c, k, Ghost(bound));
    if a < c.len() && c[a].index == k {
        proof { lemma_chain_hit(c@, bound, a as int); }
        c[a].value
    } else {
        proof {
            assert forall|m: int| 0 <= m < c@.len() implies c@[m].index != k by {
                if m > a {
                    assert(c@[a as int].index < c@[m].index);
                }
            }
        }
        0
    }
}

/// Gives index `k` of a chain the value `v`, storing, overwriting or
/// unlinking its entry as `v` and the old value ask.
fn chain_assign(c: &mut Vec<Entry>, k: usize, v: i64, Ghost(bound): Ghost<int>)
    requires
        sorted_chain(old(c)@, bound),
        k < bound,
    ensures
        sorted_chain(final(c)@, bound),
        forall|x: int| chain_at(final(c)@, x) == if x == k { v } else { chain_at(old(c)@, x) },
        final(c)@.len() == old(c)@.len() + (if chain_at(old(c)@, k as int) == 0 && v != 0 { 1int } else { 0int })
            - (if chain_at(old(c)@, k as int) != 0 && v == 0 { 1int } else { 0int }),
{
    let ghost o = c@;
    let a = lower_bound(c, k, Ghost(bound));
    let hit = a < c.len() && c[a].index == k;
    proof {
        if hit {
            lemma_chain_hit(o, bound, a as int);
        } else {
            assert forall|m: int| 0 <= m < o.len() implies o[m].index != k by {
                if m > a {
                    assert(o[a as int].index < o[m].index);
                }
            }
        }
    }
    if hit {
        if v == 0 {
            c.remove(a);
            proof {
                let n = c@;
                assert(n =~= o.remove(a as int));
                assert forall|x: int| chain_at(n, x) == if x == k { v } else { chain_at(o, x) } by {
                    if exists|m: int| 0 <= m < n.len() && n[m].index == x {
                        let m = choose|m: int| 0 <= m < n.len() && n[m].index == x;
                        lemma_chain_hit(n, bound, m);
                        if m < a {
                            lemma_chain_hit(o, bound, m);
                        } else {
                            lemma_chain_hit(o, bound, m + 1);
                            assert(o[a as int].index < o[m + 1].index);
                        }
                    } else {
                        assert forall|m: int| 0 <= m < o.len() && m != a implies o[m].index != x by {
                            if m < a {
                                assert(n[m] == o[m]);
                            } else {
                                assert(n[m - 1] == o[m]);
                            }
                        }
                        if x != k {
                            lemma_chain_miss(o, x);
                        }
                    }
                }
            }
        } else {
            c.set(a, Entry { index: k, value: v });
            proof {
                let n = c@;
                assert forall|x: int| chain_at(n, x) == if x == k { v } else { chain_at(o, x) } by {
                    lemma_chain_hit(n, bound, a as int);
                    if exists|m: int| 0 <= m < n.len() && n[m].index == x {
                        let m = choose|m: int| 0 <= m < n.len() && n[m].index == x;
                        lemma_chain_hit(n, bound, m);
                        lemma_chain_hit(o, bound, m);
                    } else {
                        assert forall|m: int| 0 <= m < o.len() implies o[m].index != x by {
                            assert(n[m].index == o[m].index);
                        }
                    }
                }
            }
        }
    } else {
        if v != 0 {
            c.insert(a, Entry { index: k, value: v });
            proof {
                let n = c@;
                assert(n =~= o.insert(a as int, Entry { index: k, value: v }));
                assert(sorted_chain(n, bound)) by {
                    assert forall|p: int, q: int| 0 <= p < q < n.len() implies n[p].index < n[q].index by {
                        if q < a {
                        } else if q == a {
                        } else if p < a {
                        } else if p == a {
                            assert(o[q - 1].index >= k);
                            assert(o[q - 1].index != k);
                        } else {
                        }
                    }
                }
                assert forall|x: int| chain_at(n, x) == if x == k { v } else { chain_at(o, x) } by {
                    lemma_chain_hit(n, bound, a as int);
                    if exists|m: int| 0 <= m < n.len() && n[m].index == x {
                        let m = choose|m: int| 0 <= m < n.len() && n[m].index == x;
                        lemma_chain_hit(n, bound, m);
                        if m < a {
                            lemma_chain_hit(o, bound, m);
                        } else if m > a {
                            lemma_chain_hit(o, bound, m - 1);
                        }
                    } else {
                        assert forall|m: int| 0 <= m < o.len() implies o[m].index != x by {
                            if m < a {
                                assert(n[m] == o[m]);
                            } else {
                                assert(n[m + 1] == o[m]);
                            }
                        }
                    }
                }
            }
        } else {
            proof {
                assert forall|x: int| chain_at(c@, x) == if x == k { v } else { chain_at(o, x) } by {
                    if x == k {
                        lemma_chain_miss(o, x);
                    }
                }
            }
        }
    }
}

/// A stored entry appended to a chain leaves every other index as it was and
/// gives its own index its value.
proof fn lemma_chain_push(c: Seq<Entry>, e: Entry, bound: int)
    requires
        sorted_chain(c.push(e), bound),
    ensures
        chain_at(c.push(e), e.index as int) == e.value,
        forall|x: int| x != e.index ==> chain_at(c.push(e), x) == chain_at(c, x),
{
    let n = c.push(e);
    lemma_chain_hit(n, bound, c.len() as int);
    assert(sorted_chain(c, bound)) by {
        assert forall|a: int, b: int| 0 <= a < b < c.len() implies c[a].index < c[b].index by {
            assert(n[a] == c[a] && n[b] == c[b]);
        }
        assert forall|a: int| 0 <= a < c.len() implies c[a].index < bound && c[a].value != 0 by {
            assert(n[a] == c[a]);
        }
    }
    assert forall|x: int| x != e.index implies chain_at(n, x) == chain_at(c, x) by {
        if exists|m: int| 0 <= m < c.len() && c[m].index == x {
            let m = choose|m: int| 0 <= m < c.len() && c[m].index == x;
            lemma_chain_hit(c, bound, m);
            assert(n[m] == c[m]);
            lemma_chain_hit(n, bound, m);
        } else {
            assert forall|m: int| 0 <= m < n.len() implies n[m].index != x by {
                if m < c.len() {
                    assert(n[m] == c[m]);
                }
            }
        }
    }
}

/// Total number of entries over a sequence of chains.
pub open spec fn total_len(rows: Seq<Vec<Entry>>) -> nat
    decreases rows.len(),
{
    if rows.len() == 0 {
        0
    } else {
        total_len(rows.drop_last()) + rows.last()@.len()
    }
}

/// The dense grid that a sequence of row chains stands for.
pub open spec fn grid_of(rows: Seq<Vec<Entry>>, cols: int) -> Seq<Seq<i64>> {
    Seq::new(rows.len(), |i: int| chain_line(rows[i]@, cols))
}

proof fn lemma_total_update(rows: Seq<Vec<Entry>>, i: int, x: Vec<Entry>)
    requires
        0 <= i < rows.len(),
    ensures
        total_len(rows.update(i, x)) + rows[i]@.len() == total_len(rows) + x@.len(),
    decreases rows.len(),
{
    let n = rows.update(i, x);
    if i == rows.len() - 1 {
        assert(n.drop_last() =~= rows.drop_last());
    } else {
        assert(n.drop_last() =~= rows.drop_last().update(i, x));
        lemma_total_update(rows.drop_last(), i, x);
    }
}

proof fn lemma_total_nnz(rows: Seq<Vec<Entry>>, cols: int)
    requires
        0 <= cols,
        forall|i: int| 0 <= i < rows.len() ==> sorted_chain(#[trigger] rows[i]@, cols),
    ensures
        total_len(rows) == grid_nnz(grid_of(rows, cols)),
    decreases rows.len(),
{
    if rows.len() > 0 {
        let g = grid_of(rows, cols);
        assert(g.drop_last() =~= grid_of(rows.drop_last(), cols));
        lemma_total_nnz(rows.drop_last(), cols);
        lemma_chain_nnz(rows.last()@, cols);
    }
}

#[derive(Debug, Clone, Copy, PartialEq, Eq)]
pub enum MatrixError {
    /// Two matrices of different shapes were combined.
    IncompatibleShapes,
    /// A cell outside the matrix's shape was addressed.
    OutOfShape,
}

/// An `r x c` grid of integers in which only non-zero cells are stored, each
/// on the chain of its row and on the chain of its column.
pub struct SparseMatrix {
    row_heads: Vec<Vec<Entry>>,
    col_heads: Vec<Vec<Entry>>,
    size: usize,
}

impl View for SparseMatrix {
    type V = Seq<Seq<i64>>;

    closed spec fn view(&self) -> Seq<Seq<i64>> {
        grid_of(self.row_heads@, self.col_heads@.len() as int)
    }
}

/// A cursor along one row or one column that yields every cell of the line in
/// order, zeros included.
pub struct AxisIter<'a> {
    chain: &'a Vec<Entry>,
    cursor: usize,
    index: usize,
    len: usize,
}

impl<'a> AxisIter<'a> {
    pub closed spec fn wf(&self) -> bool {
        &&& sorted_chain(self.chain@, self.len as int)
        &&& self.cursor <= self.chain@.len()
        &&& self.index <= self.len
        &&& forall|m: int| 0 <= m < self.cursor ==> self.chain@[m].index < self.index
        &&& forall|m: int| self.cursor <= m < self.chain@.len() ==> self.chain@[m].index >= self.index
    }

    /// Every value of the line, from its start.
    pub closed spec fn line(&self) -> Seq<i64> {
        chain_line(self.chain@, self.len as int)
    }

    /// How many values have been handed out.
    pub closed spec fn position(&self) -> nat {
        self.index as nat
    }

    pub fn next(&mut self) -> (r: Option<i64>)
        requires
            old(self).wf(),
        ensures
            final(self).wf(),
            final(self).line() == old(self).line(),
            old(self).position() < old(self).line().len() ==> r == Some(old(self).line()[old(self).position() as int])
                && final(self).position() == old(self).position() + 1,
            old(self).position() >= old(self).line().len() ==> r.is_none() && final(self).position() == old(self).position(),
    {
        if self.index >= self.len {
            return None;
        }
        let ghost c = self.chain@;
        let k = self.index;
        let v: i64;
        if self.cursor < self.chain.len() && self.chain[self.cursor].index == k {
            proof { lemma_chain_hit(c, self.len as int, self.cursor as int); }
            v = self.chain[self.cursor].value;
            self.cursor = self.cursor + 1;
            proof {
                assert forall|m: int| self.cursor <= m < c.len() implies c[m].index >= k + 1 by {
                    assert(c[self.cursor - 1].index < c[m].index);
                }
            }
        } else {
            proof {
                assert forall|m: int| 0 <= m < c.len() implies c[m].index != k by {
                    if m > self.cursor {
                        assert(c[self.cursor as int].index < c[m].index);
                    }
                }
            }
            v = 0;
        }
        self.index = k + 1;
        Some(v)
    }
}

/// Hands out what is left of a line, as a vector.
fn collect_line(it: AxisIter) -> (r: Vec<i64>)
    requires
        it.wf(),
        it.position() == 0,
    ensures
        r@ == it.line(),
{
    let mut it = it;
    let ghost line = it.line();
    let mut out: Vec<i64> = Vec::new();
    while it.index < it.len
        invariant
            it.wf(),
            it.line() == line,
            out@.len() == it.position(),
            forall|k: int| 0 <= k < out@.len() ==> out@[k] == line[k],
        decreases it.len - it.index,
    {
        let v = it.next();
        match v {
            Some(x) => out.push(x),
            None => {},
        }
    }
    assert(out@ =~= line);
    out
}

/// The sequence of rows that a vector of row vectors holds.
pub open spec fn rows_of(v: Seq<Vec<i64>>) -> Seq<Seq<i64>> {
    v.map_values(|r: Vec<i64>| r@)
}

/// The chain of the non-zero cells of a row, in column order.
fn row_chain(row: &Vec<i64>, Ghost(cols): Ghost<int>) -> (c: Vec<Entry>)
    requires
        row@.len() <= cols,
    ensures
        sorted_chain(c@, cols),
        forall|x: int| 0 <= x < cols ==> chain_at(c@, x) == if x < row@.len() { row@[x] } else { 0 },
{
    let mut c: Vec<Entry> = Vec::new();
    let mut k: usize = 0;
    while k < row.len()
        invariant
            k <= row@.len() <= cols,
            sorted_chain(c@, k as int),
            forall|x: int| 0 <= x < cols ==> chain_at(c@, x) == if x < k { row@[x] } else { 0 },
        decreases row@.len() - k,
    {
        let ghost o = c@;
        if row[k] != 0 {
            let e = Entry { index: k, value: row[k] };
            c.push(e);
            proof {
                lemma_chain_push(o, e, k + 1);
                assert forall|x: int| 0 <= x < cols implies chain_at(c@, x) == if x < k + 1 { row@[x] } else { 0 } by {
                    if x != k {
                        assert(chain_at(c@, x) == chain_at(o, x));
                    }
                }
            }
        } else {
            proof {
                assert forall|x: int| 0 <= x < cols implies chain_at(c@, x) == if x < k + 1 { row@[x] } else { 0 } by {
                    if x == k {
                        lemma_chain_miss(c@, x);
                    }
                }
            }
        }
        k = k + 1;
    }
    c
}

impl SparseMatrix {
    /// The chains of both axes agree and are ordered; `size` counts the stored cells.
    pub closed spec fn wf(&self) -> bool {
        let r = self.row_heads@.len() as int;
        let c = self.col_heads@.len() as int;
        &&& forall|i: int| 0 <= i < r ==> sorted_chain(#[trigger] self.row_heads@[i]@, c)
        &&& forall|j: int| 0 <= j < c ==> sorted_chain(#[trigger] self.col_heads@[j]@, r)
        &&& forall|i: int, j: int|
            0 <= i < r && 0 <= j < c ==> #[trigger] chain_at(self.row_heads@[i]@, j) == chain_at(
                self.col_heads@[j]@,
                i,
            )
        &&& self.size == total_len(self.row_heads@)
        &&& r * c <= usize::MAX
    }

    /// The number of columns (the grid's rows carry it, but a grid may have no row).
    pub closed spec fn num_cols(&self) -> nat {
        self.col_heads@.len()
    }

    /// The stored cells of row `i`, walked along the row chain, as (column, value).
    pub closed spec fn row_walk(&self, i: int) -> Seq<(int, i64)> {
        self.row_heads@[i]@.map_values(|e: Entry| (e.index as int, e.value))
    }

    /// The stored cells of column `j`, walked along the column chain, as (row, value).
    pub closed spec fn col_walk(&self, j: int) -> Seq<(int, i64)> {
        self.col_heads@[j]@.map_values(|e: Entry| (e.index as int, e.value))
    }

    pub fn new(rows: usize, cols: usize) -> (r: Self)
        requires
            rows * cols <= usize::MAX,
        ensures
            r.wf(),
            r@ == Seq::new(rows as nat, |i: int| Seq::new(cols as nat, |j: int| 0i64)),
            r.num_cols() == cols,
    {
        let mut row_heads: Vec<Vec<Entry>> = Vec::new();
        let mut i: usize = 0;
        while i < rows
            invariant
                i <= rows,
                row_heads@.len() == i,
                forall|m: int| 0 <= m < i ==> (#[trigger] row_heads@[m])@.len() == 0,
                total_len(row_heads@) == 0,
            decreases rows - i,
        {
            let ghost o = row_heads@;
            row_heads.push(Vec::new());
            assert(row_heads@.drop_last() =~= o);
            i = i + 1;
        }
        let mut col_heads: Vec<Vec<Entry>> = Vec::new();
        let mut j: usize = 0;
        while j < cols
            invariant
                j <= cols,
                col_heads@.len() == j,
                forall|m: int| 0 <= m < j ==> (#[trigger] col_heads@[m])@.len() == 0,
            decreases cols - j,
        {
            col_heads.push(Vec::new());
            j = j + 1;
        }
        let r = SparseMatrix { row_heads, col_heads, size: 0 };
        assert(r@ =~= Seq::new(rows as nat, |i: int| Seq::new(cols as nat, |j: int| 0i64))) by {
            assert forall|i: int| 0 <= i < rows implies r@[i] =~= Seq::new(cols as nat, |j: int| 0i64) by {
                assert forall|j: int| 0 <= j < cols implies r@[i][j] == 0 by {
                    lemma_chain_miss(r.row_heads@[i]@, j);
                }
            }
        }
        r
    }

    pub fn rows(&self) -> (r: usize)
        ensures
            r == self@.len(),
            forall|i: int| 0 <= i < self@.len() ==> (#[trigger] self@[i]).len() == self.num_cols(),
    {
        self.row_heads.len()
    }

    pub fn cols(&self) -> (r: usize)
        ensures
            r == self.num_cols(),
            forall|i: int| 0 <= i < self@.len() ==> (#[trigger] self@[i]).len() == self.num_cols(),
    {
        self.col_heads.len()
    }

    /// The number of stored cells, which is the number of non-zero cells.
    pub fn size(&self) -> (r: usize)
        requires
            self.wf(),
        ensures
            r == grid_nnz(self@),
    {
        proof { lemma_total_nnz(self.row_heads@, self.col_heads@.len() as int); }
        self.size
    }

    /// Builds a matrix of `cols` columns from rows that are no longer than that.
    fn from_rows(data: &Vec<Vec<i64>>, cols: usize) -> (r: Self)
        requires
            forall|i: int| 0 <= i < data@.len() ==> (#[trigger] data@[i])@.len() <= cols,
            data@.len() * cols <= usize::MAX,
        ensures
            r.wf(),
            r@ == padded(rows_of(data@), cols as int),
            r.num_cols() == cols,
    {
        let ghost g = padded(rows_of(data@), cols as int);
        let rows = data.len();
        let mut row_heads: Vec<Vec<Entry>> = Vec::new();
        let mut size: usize = 0;
        let mut i: usize = 0;
        while i < rows
            invariant
                i <= rows == data@.len(),
                g == padded(rows_of(data@), cols as int),
                forall|m: int| 0 <= m < data@.len() ==> (#[trigger] data@[m])@.len() <= cols,
                row_heads@.len() == i,
                forall|m: int| 0 <= m < i ==> sorted_chain(#[trigger] row_heads@[m]@, cols as int),
                forall|m: int, x: int| 0 <= m < i && 0 <= x < cols ==> #[trigger] chain_at(row_heads@[m]@, x) == g[m][x],
                size == total_len(row_heads@),
                size <= i * cols,
                rows * cols <= usize::MAX,
            decreases rows - i,
        {
            let ghost o = row_heads@;
            let c = row_chain(&data[i], Ghost(cols as int));
            proof {
                lemma_chain_len_bound(c@, cols as int);
                assert((i + 1) * cols == i * cols + cols) by (nonlinear_arith);
                assert((i + 1) * cols <= rows * cols) by (nonlinear_arith)
                    requires i + 1 <= rows;
            }
            size = size + c.len();
            row_heads.push(c);
            assert(row_heads@.drop_last() =~= o);
            i = i + 1;
        }
        let mut col_heads: Vec<Vec<Entry>> = Vec::new();
        let mut j: usize = 0;
        while j < cols
            invariant
                j <= cols,
                col_heads@.len() == j,
                forall|m: int| 0 <= m < j ==> (#[trigger] col_heads@[m])@.len() == 0,
            decreases cols - j,
        {
            col_heads.push(Vec::new());
            j = j + 1;
        }
        assert forall|jj: int, x: int| 0 <= jj < cols implies #[trigger] chain_at(col_heads@[jj]@, x) == 0 by {
            lemma_chain_miss(col_heads@[jj]@, x);
        }
        let mut i: usize = 0;
        while i < rows
            invariant
                i <= rows == row_heads@.len(),
                col_heads@.len() == cols,
                forall|m: int| 0 <= m < rows ==> sorted_chain(#[trigger] row_heads@[m]@, cols as int),
                forall|jj: int| 0 <= jj < cols ==> sorted_chain(#[trigger] col_heads@[jj]@, i as int),
                forall|jj: int, x: int| 0 <= jj < cols && 0 <= x < rows ==> #[trigger] chain_at(col_heads@[jj]@, x)
                    == if x < i { chain_at(row_heads@[x]@, jj) } else { 0 },
            decreases rows - i,
        {
            let row = &row_heads[i];
            let ghost rc = row@;
            let mut m: usize = 0;
            while m < row.len()
                invariant
                    i < rows == row_heads@.len(),
                    rc == row_heads@[i as int]@,
                    row@ == rc,
                    m <= rc.len(),
                    sorted_chain(rc, cols as int),
                    col_heads@.len() == cols,
                    forall|jj: int| 0 <= jj < cols ==> sorted_chain(#[trigger] col_heads@[jj]@,
                        if m < rc.len() && jj >= rc[m as int].index { i as int } else { i + 1 }),
                    forall|jj: int, x: int| 0 <= jj < cols && 0 <= x < rows ==> #[trigger] chain_at(col_heads@[jj]@, x)
                        == if x < i { chain_at(row_heads@[x]@, jj) } else if x == i { chain_at(rc.take(m as int), jj) } else { 0 },
                decreases rc.len() - m,
            {
                let e = row[m];
                let ghost old_cols = col_heads@;
                let ghost oc = col_heads@[e.index as int]@;
                let ne = Entry { index: i, value: e.value };
                proof {
                    assert(sorted_chain(oc.push(ne), i + 1)) by {
                        assert forall|a: int, b: int| 0 <= a < b < oc.len() + 1 implies oc.push(ne)[a].index < oc.push(ne)[b].index by {
                            if b == oc.len() {
                            }
                        }
                    }
                    lemma_chain_push(oc, ne, i + 1);
                    assert(rc.take(m + 1) =~= rc.take(m as int).push(e));
                    lemma_sorted_take(rc, cols as int, m + 1);
                    lemma_chain_push(rc.take(m as int), e, cols as int);
                }
                col_heads[e.index].push(ne);
                proof {
                    assert(col_heads@[e.index as int]@ == oc.push(ne));
                    assert forall|jj: int| 0 <= jj < cols implies sorted_chain(#[trigger] col_heads@[jj]@,
                        if m + 1 < rc.len() && jj >= rc[m + 1].index { i as int } else { i + 1 }) by {
                        if jj != e.index {
                            assert(col_heads@[jj] == old_cols[jj]);
                            if m + 1 < rc.len() {
                                assert(rc[m as int].index < rc[m + 1].index);
                            }
                        } else {
                            if m + 1 < rc.len() {
                                assert(rc[m as int].index < rc[m + 1].index);
                            }
                        }
                    }
                    assert forall|jj: int, x: int| 0 <= jj < cols && 0 <= x < rows implies #[trigger] chain_at(col_heads@[jj]@, x)
                        == if x < i { chain_at(row_heads@[x]@, jj) } else if x == i { chain_at(rc.take(m + 1), jj) } else { 0 } by {
                        if jj != e.index {
                            assert(col_heads@[jj] == old_cols[jj]);
                            assert(chain_at(rc.take(m + 1), jj) == chain_at(rc.take(m as int), jj));
                        } else if x != i {
                            assert(chain_at(oc.push(ne), x) == chain_at(oc, x));
                        }
                    }
                }
                m = m + 1;
            }
            assert(rc.take(rc.len() as int) =~= rc);
            i = i + 1;
        }
        let r = SparseMatrix { row_heads, col_heads, size };
        assert(r@ =~= g) by {
            assert forall|ii: int| 0 <= ii < rows implies r@[ii] =~= g[ii] by {}
        }
        r
    }

    /// Builds a matrix from a jagged sequence of rows: as many rows as given,
    /// as many columns as the longest row, missing cells zero.
    pub fn from_2d_vec(vec: Vec<Vec<i64>>) -> (r: Self)
        requires
            vec@.len() * max_len(rows_of(vec@)) <= usize::MAX,
        ensures
            r.wf(),
            r.num_cols() == max_len(rows_of(vec@)),
            r@ == padded(rows_of(vec@), max_len(rows_of(vec@)) as int),
    {
        let mut cols: usize = 0;
        let mut i: usize = 0;
        while i < vec.len()
            invariant
                i <= vec@.len(),
                cols == max_len(rows_of(vec@.take(i as int))),
                forall|m: int| 0 <= m < i ==> (#[trigger] vec@[m])@.len() <= cols,
            decreases vec@.len() - i,
        {
            assert(rows_of(vec@.take(i + 1)).drop_last() =~= rows_of(vec@.take(i as int)));
            if vec[i].len() > cols {
                cols = vec[i].len();
            }
            i = i + 1;
        }
        assert(vec@.take(vec@.len() as int) =~= vec@);
        Self::from_rows(&vec, cols)
    }

    /// The value of cell (`row`, `col`).
    pub fn get(&self, row: usize, col: usize) -> (r: i64)
        requires
            self.wf(),
            row < self@.len(),
            col < self.num_cols(),
        ensures
            r == self@[row as int][col as int],
    {
        if row > col {
            chain_lookup(&self.row_heads[row], col, Ghost(self.col_heads@.len() as int))
        } else {
            chain_lookup(&self.col_heads[col], row, Ghost(self.row_heads@.len() as int))
        }
    }

    /// Gives cell (`row`, `col`) the value `value`: a zero unlinks the stored
    /// cell, a non-zero overwrites it or links a new one into both chains.
    pub fn set(&mut self, value: i64, row: usize, col: usize) -> (r: Result<(), MatrixError>)
        requires
            old(self).wf(),
        ensures
            final(self).wf(),
            final(self).num_cols() == old(self).num_cols(),
            row < old(self)@.len() && col < old(self).num_cols() ==> r is Ok
                && final(self)@ == old(self)@.update(row as int, old(self)@[row as int].update(col as int, value)),
            !(row < old(self)@.len() && col < old(self).num_cols()) ==> r == Err::<(), MatrixError>(MatrixError::OutOfShape)
                && final(self)@ == old(self)@,
    {
        if row >= self.row_heads.len() || col >= self.col_heads.len() {
            return Err(MatrixError::OutOfShape);
        }
        let ghost o = *self;
        let nr = self.row_heads.len();
        let nc = self.col_heads.len();
        let before = chain_lookup(&self.row_heads[row], col, Ghost(nc as int));
        proof {
            lemma_total_nnz(self.row_heads@, nc as int);
            lemma_total_le(self.row_heads@, row as int);
        }
        chain_assign(&mut self.row_heads[row], col, value, Ghost(nc as int));
        chain_assign(&mut self.col_heads[col], row, value, Ghost(nr as int));
        proof {
            lemma_total_update(o.row_heads@, row as int, self.row_heads@[row as int]);
            assert(self.row_heads@ == o.row_heads@.update(row as int, self.row_heads@[row as int]));
            assert forall|i: int| 0 <= i < nr implies sorted_chain(#[trigger] self.row_heads@[i]@, nc as int) by {
                if i != row {
                    assert(self.row_heads@[i] == o.row_heads@[i]);
                }
            }
            lemma_total_bound(self.row_heads@, nc as int);
        }
        if before == 0 && value != 0 {
            self.size = self.size + 1;
        } else if before != 0 && value == 0 {
            self.size = self.size - 1;
        }
        proof {
            let n = *self;
            assert forall|i: int, j: int| 0 <= i < nr && 0 <= j < nc implies #[trigger] chain_at(n.row_heads@[i]@, j)
                == chain_at(n.col_heads@[j]@, i) by {
                if i != row {
                    assert(n.row_heads@[i] == o.row_heads@[i]);
                }
                if j != col {
                    assert(n.col_heads@[j] == o.col_heads@[j]);
                }
            }
            assert forall|i: int| 0 <= i < nr implies sorted_chain(#[trigger] n.row_heads@[i]@, nc as int) by {
                if i != row {
                    assert(n.row_heads@[i] == o.row_heads@[i]);
                }
            }
            assert forall|j: int| 0 <= j < nc implies sorted_chain(#[trigger] n.col_heads@[j]@, nr as int) by {
                if j != col {
                    assert(n.col_heads@[j] == o.col_heads@[j]);
                }
            }
            assert(n@ =~= o@.update(row as int, o@[row as int].update(col as int, value))) by {
                assert forall|i: int| 0 <= i < nr implies n@[i] =~= o@.update(row as int, o@[row as int].update(col as int, value))[i] by {
                    if i != row {
                        assert(n.row_heads@[i] == o.row_heads@[i]);
                    }
                }
            }
        }
        Ok(())
    }

    /// A cursor over row `row`, yielding `cols()` values.
    pub fn row_iter(&self, row: usize) -> (r: AxisIter<'_>)
        requires
            self.wf(),
            row < self@.len(),
        ensures
            r.wf(),
            r.position() == 0,
            r.line() == self@[row as int],
    {
        AxisIter { chain: &self.row_heads[row], cursor: 0, index: 0, len: self.col_heads.len() }
    }

    /// A cursor over column `col`, yielding `rows()` values.
    pub fn col_iter(&self, col: usize) -> (r: AxisIter<'_>)
        requires
            self.wf(),
            col < self.num_cols(),
        ensures
            r.wf(),
            r.position() == 0,
            r.line() == Seq::new(self@.len(), |i: int| self@[i][col as int]),
    {
        let r = AxisIter { chain: &self.col_heads[col], cursor: 0, index: 0, len: self.row_heads.len() };
        assert(r.line() =~= Seq::new(self@.len(), |i: int| self@[i][col as int]));
        r
    }
}

/// Cellwise sum of two grids of the same shape.
pub open spec fn grid_add(a: Seq<Seq<i64>>, b: Seq<Seq<i64>>) -> Seq<Seq<i64>> {
    Seq::new(a.len(), |i: int| Seq::new(a[i].len(), |j: int| (a[i][j] + b[i][j]) as i64))
}

/// Every cell of a grid multiplied by `k`.
pub open spec fn grid_scale(a: Seq<Seq<i64>>, k: i64) -> Seq<Seq<i64>> {
    Seq::new(a.len(), |i: int| Seq::new(a[i].len(), |j: int| (a[i][j] * k) as i64))
}

/// The transpose of a grid of `cols` columns.
pub open spec fn grid_transpose(a: Seq<Seq<i64>>, cols: int) -> Seq<Seq<i64>> {
    Seq::new(cols as nat, |j: int| Seq::new(a.len(), |i: int| a[i][j]))
}

impl SparseMatrix {
    /// Every row of the grid has `num_cols()` cells.
    pub proof fn lemma_shape(&self)
        ensures
            forall|i: int| 0 <= i < self@.len() ==> (#[trigger] self@[i]).len() == self.num_cols(),
    {
    }

    /// The cellwise sum with a matrix of the same shape.
    pub fn add(&self, other: &Self) -> (r: Result<Self, MatrixError>)
        requires
            self.wf(),
            other.wf(),
            self@.len() == other@.len() && self.num_cols() == other.num_cols() ==> forall|i: int, j: int|
                0 <= i < self@.len() && 0 <= j < self.num_cols() ==> i64::MIN <= #[trigger] self@[i][j] + other@[i][j]
                    <= i64::MAX,
        ensures
            self@.len() == other@.len() && self.num_cols() == other.num_cols() ==> r is Ok && r->Ok_0.wf()
                && r->Ok_0@ == grid_add(self@, other@) && r->Ok_0.num_cols() == self.num_cols(),
            !(self@.len() == other@.len() && self.num_cols() == other.num_cols()) ==> r == Err::<Self, MatrixError>(
                MatrixError::IncompatibleShapes,
            ),
    {
        if self.row_heads.len() != other.row_heads.len() || self.col_heads.len() != other.col_heads.len() {
            return Err(MatrixError::IncompatibleShapes);
        }
        let rows = self.row_heads.len();
        let cols = self.col_heads.len();
        let ghost g = grid_add(self@, other@);
        let mut data: Vec<Vec<i64>> = Vec::new();
        let mut i: usize = 0;
        while i < rows
            invariant
                i <= rows == self@.len() == other@.len(),
                cols == self.num_cols() == other.num_cols(),
                self.wf(),
                other.wf(),
                g == grid_add(self@, other@),
                forall|i: int, j: int| 0 <= i < self@.len() && 0 <= j < self.num_cols() ==> i64::MIN <= #[trigger] self@[i][j] + other@[i][j]
                    <= i64::MAX,
                data@.len() == i,
                forall|m: int| 0 <= m < i ==> (#[trigger] data@[m])@ == g[m],
            decreases rows - i,
        {
            let a = collect_line(self.row_iter(i));
            let b = collect_line(other.row_iter(i));
            let mut s: Vec<i64> = Vec::new();
            let mut j: usize = 0;
            while j < cols
                invariant
                    i < rows == self@.len() == other@.len(),
                    cols == self.num_cols() == other.num_cols(),
                    j <= cols,
                    a@ == self@[i as int],
                    b@ == other@[i as int],
                    a@.len() == cols,
                    b@.len() == cols,
                    forall|i: int, j: int| 0 <= i < self@.len() && 0 <= j < self.num_cols() ==> i64::MIN <= #[trigger] self@[i][j] + other@[i][j]
                        <= i64::MAX,
                    s@.len() == j,
                    forall|m: int| 0 <= m < j ==> s@[m] == a@[m] + b@[m],
                decreases cols - j,
            {
                assert(i64::MIN <= self@[i as int][j as int] + other@[i as int][j as int] <= i64::MAX);
                s.push(a[j] + b[j]);
                j = j + 1;
            }
            assert(s@ =~= g[i as int]);
            data.push(s);
            i = i + 1;
        }
        let r = Self::from_rows(&data, cols);
        assert(r@ =~= g) by {
            assert forall|m: int| 0 <= m < rows implies r@[m] =~= g[m] by {}
        }
        Ok(r)
    }

    /// The matrix with every cell multiplied by `num`; a zero factor gives a
    /// matrix with no stored cell.
    pub fn mul_by(&self, num: i64) -> (r: Self)
        requires
            self.wf(),
            forall|i: int, j: int| 0 <= i < self@.len() && 0 <= j < self.num_cols() ==> i64::MIN <= #[trigger] self@[i][j] * num
                <= i64::MAX,
        ensures
            r.wf(),
            r@ == grid_scale(self@, num),
            r.num_cols() == self.num_cols(),
    {
        let rows = self.row_heads.len();
        let cols = self.col_heads.len();
        let ghost g = grid_scale(self@, num);
        let mut data: Vec<Vec<i64>> = Vec::new();
        let mut i: usize = 0;
        while i < rows
            invariant
                i <= rows == self@.len(),
                cols == self.num_cols(),
                self.wf(),
                g == grid_scale(self@, num),
                forall|i: int, j: int| 0 <= i < self@.len() && 0 <= j < self.num_cols() ==> i64::MIN <= #[trigger] self@[i][j] * num
                    <= i64::MAX,
                data@.len() == i,
                forall|m: int| 0 <= m < i ==> (#[trigger] data@[m])@ == g[m],
            decreases rows - i,
        {
            let a = collect_line(self.row_iter(i));
            let mut s: Vec<i64> = Vec::new();
            let mut j: usize = 0;
            while j < cols
                invariant
                    i < rows == self@.len(),
                    cols == self.num_cols(),
                    j <= cols,
                    a@ == self@[i as int],
                    a@.len() == cols,
                    forall|i: int, j: int| 0 <= i < self@.len() && 0 <= j < self.num_cols() ==> i64::MIN <= #[trigger] self@[i][j] * num
                        <= i64::MAX,
                    s@.len() == j,
                    forall|m: int| 0 <= m < j ==> s@[m] == a@[m] * num,
                decreases cols - j,
            {
                assert(i64::MIN <= self@[i as int][j as int] * num <= i64::MAX);
                s.push(a[j] * num);
                j = j + 1;
            }
            assert(s@ =~= g[i as int]);
            data.push(s);
            i = i + 1;
        }
        let r = Self::from_rows(&data, cols);
        assert(r@ =~= g) by {
            assert forall|m: int| 0 <= m < rows implies r@[m] =~= g[m] by {}
        }
        r
    }

    /// The matrix with rows and columns exchanged.
    pub fn transposed(&self) -> (r: Self)
        requires
            self.wf(),
        ensures
            r.wf(),
            r@ == grid_transpose(self@, self.num_cols() as int),
            r.num_cols() == self@.len(),
    {
        let rows = self.row_heads.len();
        let cols = self.col_heads.len();
        let ghost g = grid_transpose(self@, cols as int);
        let mut data: Vec<Vec<i64>> = Vec::new();
        let mut j: usize = 0;
        while j < cols
            invariant
                j <= cols == self.num_cols(),
                rows == self@.len(),
                self.wf(),
                g == grid_transpose(self@, cols as int),
                data@.len() == j,
                forall|m: int| 0 <= m < j ==> (#[trigger] data@[m])@ == g[m],
            decreases cols - j,
        {
            let c = collect_line(self.col_iter(j));
            assert(c@ =~= g[j as int]);
            data.push(c);
            j = j + 1;
        }
        proof {
            assert(cols * rows == rows * cols) by (nonlinear_arith);
        }
        let r = Self::from_rows(&data, rows);
        assert(r@ =~= g) by {
            assert forall|m: int| 0 <= m < cols implies r@[m] =~= g[m] by {}
        }
        r
    }

    /// An independent copy with the same shape and cells.
    pub fn clone(&self) -> (r: Self)
        requires
            self.wf(),
        ensures
            r.wf(),
            r@ == self@,
            r.num_cols() == self.num_cols(),
    {
        let rows = self.row_heads.len();
        let cols = self.col_heads.len();
        let mut data: Vec<Vec<i64>> = Vec::new();
        let mut i: usize = 0;
        while i < rows
            invariant
                i <= rows == self@.len(),
                cols == self.num_cols(),
                self.wf(),
                data@.len() == i,
                forall|m: int| 0 <= m < i ==> (#[trigger] data@[m])@ == self@[m],
            decreases rows - i,
        {
            let a = collect_line(self.row_iter(i));
            data.push(a);
            i = i + 1;
        }
        let r = Self::from_rows(&data, cols);
        assert(r@ =~= self@) by {
            assert forall|m: int| 0 <= m < rows implies r@[m] =~= self@[m] by {}
        }
        r
    }
}

impl Default for SparseMatrix {
    fn default() -> (r: Self)
        ensures
            r.wf(),
            r@ == Seq::new(2, |i: int| Seq::new(2, |j: int| 0i64)),
            r.num_cols() == 2,
    {
        Self::new(2, 2)
    }
}

/// For every row `i` and column `j`, the walk of row `i` and the walk of
/// column `j` meet in the same stored cell: (`j`, `v`) is on the row walk
/// exactly when (`i`, `v`) is on the column walk, and then `v` is the cell's
/// non-zero value. Both walks run in strictly increasing order.
pub proof fn lemma_walks_agree(m: &SparseMatrix, i: int, j: int, v: i64)
    requires
        m.wf(),
        0 <= i < m@.len(),
        0 <= j < m.num_cols(),
    ensures
        m.row_walk(i).contains((j, v)) <==> m.col_walk(j).contains((i, v)),
        m.row_walk(i).contains((j, v)) ==> v == m@[i][j] && v != 0,
        forall|a: int, b: int| 0 <= a < b < m.row_walk(i).len() ==> m.row_walk(i)[a].0 < m.row_walk(i)[b].0,
        forall|a: int, b: int| 0 <= a < b < m.col_walk(j).len() ==> m.col_walk(j)[a].0 < m.col_walk(j)[b].0,
{
    let rc = m.row_heads@[i]@;
    let cc = m.col_heads@[j]@;
    let nr = m.row_heads@.len() as int;
    let nc = m.col_heads@.len() as int;
    assert(sorted_chain(rc, nc));
    assert(sorted_chain(cc, nr));
    assert(chain_at(rc, j) == chain_at(cc, i));
    if m.row_walk(i).contains((j, v)) {
        let a = choose|a: int| 0 <= a < m.row_walk(i).len() && m.row_walk(i)[a] == (j, v);
        lemma_chain_hit(rc, nc, a);
        assert(chain_at(cc, i) != 0);
        let b = choose|b: int| 0 <= b < cc.len() && cc[b].index == i;
        lemma_chain_hit(cc, nr, b);
        assert(m.col_walk(j)[b] == (i, v));
    }
    if m.col_walk(j).contains((i, v)) {
        let b = choose|b: int| 0 <= b < m.col_walk(j).len() && m.col_walk(j)[b] == (i, v);
        lemma_chain_hit(cc, nr, b);
        assert(chain_at(rc, j) != 0);
        let a = choose|a: int| 0 <= a < rc.len() && rc[a].index == j;
        lemma_chain_hit(rc, nc, a);
        assert(m.row_walk(i)[a] == (j, v));
    }
}

/// Reading back a matrix built from a jagged sequence of rows gives each
/// given cell, and zero where a row was too short.
pub proof fn lemma_from_2d_round_trip(v: Seq<Seq<i64>>, m: SparseMatrix)
    requires
        m.num_cols() == max_len(v),
        m@ == padded(v, max_len(v) as int),
    ensures
        m@.len() == v.len(),
        forall|i: int, j: int| 0 <= i < v.len() && 0 <= j < max_len(v) ==> #[trigger] m@[i][j] == if j < v[i].len() {
            v[i][j]
        } else {
            0
        },
{
}

/// Transposing twice gives back the same cells and shape.
pub proof fn lemma_transpose_twice(m: SparseMatrix, t: SparseMatrix, tt: SparseMatrix)
    requires
        m.wf(),
        t@ == grid_transpose(m@, m.num_cols() as int),
        t.num_cols() == m@.len(),
        tt@ == grid_transpose(t@, t.num_cols() as int),
        tt.num_cols() == t@.len(),
    ensures
        tt@ == m@,
        tt.num_cols() == m.num_cols(),
        grid_nnz(tt@) == grid_nnz(m@),
{
    assert(tt@ =~= m@) by {
        assert forall|i: int| 0 <= i < m@.len() implies tt@[i] =~= m@[i] by {}
    }
}

/// A copy of a copy shows the same shape and cells as the first copy.
pub proof fn lemma_clone_twice(m: SparseMatrix, c: SparseMatrix, cc: SparseMatrix)
    requires
        c@ == m@,
        c.num_cols() == m.num_cols(),
        cc@ == c@,
        cc.num_cols() == c.num_cols(),
    ensures
        cc@ == c@,
        cc.num_cols() == c.num_cols(),
        grid_nnz(cc@) == grid_nnz(c@),
{
}

proof fn lemma_sorted_take(c: Seq<Entry>, bound: int, m: int)
    requires
        sorted_chain(c, bound),
        0 <= m <= c.len(),
    ensures
        sorted_chain(c.take(m), bound),
{
}

/// A sorted chain below `bound` holds at most `bound` entries.
proof fn lemma_chain_len_bound(c: Seq<Entry>, bound: int)
    requires
        0 <= bound,
        sorted_chain(c, bound),
    ensures
        c.len() <= bound,
    decreases c.len(),
{
    if c.len() > 0 {
        let d = c.drop_last();
        assert(c[c.len() - 1].index < bound);
        assert(sorted_chain(d, c.last().index as int)) by {
            assert forall|a: int| 0 <= a < d.len() implies d[a].index < c.last().index by {
                assert(c[a].index < c[c.len() - 1].index);
            }
        }
        lemma_chain_len_bound(d, c.last().index as int);
    }
}

/// Chains below `cols` hold at most `rows * cols` entries together.
proof fn lemma_total_bound(rows: Seq<Vec<Entry>>, cols: int)
    requires
        0 <= cols,
        forall|i: int| 0 <= i < rows.len() ==> sorted_chain(#[trigger] rows[i]@, cols),
    ensures
        total_len(rows) <= rows.len() * cols,
    decreases rows.len(),
{
    if rows.len() > 0 {
        lemma_total_bound(rows.drop_last(), cols);
        lemma_chain_len_bound(rows.last()@, cols);
        let n = rows.len() as int;
        assert((n - 1) * cols + cols == n * cols) by (nonlinear_arith);
    }
}

/// One chain's length is at most the total.
proof fn lemma_total_le(rows: Seq<Vec<Entry>>, i: int)
    requires
        0 <= i < rows.len(),
    ensures
        rows[i]@.len() <= total_len(rows),
    decreases rows.len(),
{
    if i < rows.len() - 1 {
        lemma_total_le(rows.drop_last(), i);
    }
}

} // verus!
