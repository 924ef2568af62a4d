use vstd::prelude::*;

verus! {

/// One cell of the orthogonal list. `right` and `down` are positions in the
/// matrix's node store: the next node of the row-major list and of the
/// column-major list. Position 0 is the sentinel, which closes both lists.
pub struct MatrixNode {
    pub row: usize,
    pub col: usize,
    pub value: i32,
    pub right: usize,
    pub down: usize,
}

impl MatrixNode {
    fn new(row: usize, col: usize, value: i32) -> (r: MatrixNode)
        ensures
            r.row == row,
            r.col == col,
            r.value == value,
            r.right == 0,
            r.down == 0,
    {
        MatrixNode { row, col, value, right: 0, down: 0 }
    }
}

/// Why a matrix could not be built or combined.
#[derive(PartialEq, Eq, Structural, Debug, Clone, Copy)]
pub enum MatrixError {
    /// A triplet names a row or a column outside the matrix.
    OutOfBounds,
    /// Two triplets name the same cell.
    DuplicateEntry,
    /// The operands' shapes do not fit the operation.
    DimensionMismatch,
}

/// `(r1, c1)` comes before `(r2, c2)` in row-major order.
pub open spec fn rc_lt(r1: int, c1: int, r2: int, c2: int) -> bool {
    r1 < r2 || (r1 == r2 && c1 < c2)
}

/// Every triplet lies inside a `rows` by `cols` matrix (indices from 1).
pub open spec fn triplets_in_bounds(t: Seq<(usize, usize, i32)>, rows: int, cols: int) -> bool {
    forall|i: int| 0 <= i < t.len() ==> 1 <= #[trigger] t[i].0 <= rows && 1 <= t[i].1 <= cols
}

/// No two triplets name the same cell.
pub open spec fn triplets_distinct(t: Seq<(usize, usize, i32)>) -> bool {
    forall|i: int, j: int|
        0 <= i < j < t.len() ==> !(#[trigger] t[i].0 == #[trigger] t[j].0 && t[i].1 == t[j].1)
}

/// The value that the triplets give to cell `(r, c)`: 0 where none names it.
pub open spec fn triplet_at(t: Seq<(usize, usize, i32)>, r: int, c: int) -> int {
    if exists|i: int| 0 <= i < t.len() && #[trigger] t[i].0 == r && t[i].1 == c {
        t[choose|i: int| 0 <= i < t.len() && #[trigger] t[i].0 == r && t[i].1 == c].2 as int
    } else {
        0
    }
}

/// Some triplet names cell `(r, c)`.
pub open spec fn names_cell(t: Seq<(usize, usize, i32)>, r: int, c: int) -> bool {
    exists|i: int| 0 <= i < t.len() && #[trigger] t[i].0 == r && t[i].1 == c
}

/// The value that a list of nodes gives to cell `(r, c)`: 0 where none holds it.
pub open spec fn node_at(s: Seq<MatrixNode>, r: int, c: int) -> int {
    if exists|i: int| 0 <= i < s.len() && #[trigger] s[i].row == r && s[i].col == c {
        s[choose|i: int| 0 <= i < s.len() && #[trigger] s[i].row == r && s[i].col == c].value as int
    } else {
        0
    }
}

/// The nodes are in strictly increasing row-major order.
pub open spec fn row_sorted(s: Seq<MatrixNode>) -> bool {
    forall|i: int, j: int|
        0 <= i < j < s.len() ==> rc_lt(
            #[trigger] s[i].row as int,
            s[i].col as int,
            #[trigger] s[j].row as int,
            s[j].col as int,
        )
}

/// Every node lies inside a `rows` by `cols` matrix.
pub open spec fn nodes_in_bounds(s: Seq<MatrixNode>, rows: int, cols: int) -> bool {
    forall|i: int| 0 <= i < s.len() ==> 1 <= #[trigger] s[i].row <= rows && 1 <= s[i].col <= cols
}

/// In a row-sorted list the node at `i` is the one that `node_at` reads at its cell.
proof fn lemma_node_at_index(s: Seq<MatrixNode>, i: int)
    requires
        row_sorted(s),
        0 <= i < s.len(),
    ensures
        node_at(s, s[i].row as int, s[i].col as int) == s[i].value,
{
    let r = s[i].row as int;
    let c = s[i].col as int;
    assert(s[i].row == r && s[i].col == c);
    let k = choose|k: int| 0 <= k < s.len() && #[trigger] s[k].row == r && s[k].col == c;
    if k < i {
        assert(rc_lt(s[k].row as int, s[k].col as int, s[i].row as int, s[i].col as int));
    } else if k > i {
        assert(rc_lt(s[i].row as int, s[i].col as int, s[k].row as int, s[k].col as int));
    }
}

/// The node holds exactly the triplet's cell and value.
pub open spec fn holds(x: (usize, usize, i32), n: MatrixNode) -> bool {
    x.0 == n.row && x.1 == n.col && x.2 == n.value
}

/// Some triplet of `t` is held by `n`.
pub open spec fn holding(t: Seq<(usize, usize, i32)>, n: MatrixNode) -> bool {
    exists|m: int| 0 <= m < t.len() && #[trigger] holds(t[m], n)
}

/// Some node of `s` holds `x`.
pub open spec fn held_by(s: Seq<MatrixNode>, x: (usize, usize, i32)) -> bool {
    exists|j: int| 0 <= j < s.len() && #[trigger] holds(x, s[j])
}

/// Each node of `s` holds a triplet of `t`, and each triplet of `t` is held by a node of `s`.
pub open spec fn holds_triplets(s: Seq<MatrixNode>, t: Seq<(usize, usize, i32)>) -> bool {
    &&& forall|j: int| 0 <= j < s.len() ==> #[trigger] holding(t, s[j])
    &&& forall|m: int| 0 <= m < t.len() ==> #[trigger] held_by(s, t[m])
}

proof fn lemma_triplet_at_index(t: Seq<(usize, usize, i32)>, m: int)
    requires
        triplets_distinct(t),
        0 <= m < t.len(),
    ensures
        triplet_at(t, t[m].0 as int, t[m].1 as int) == t[m].2,
{
    let r = t[m].0 as int;
    let c = t[m].1 as int;
    assert(t[m].0 == r && t[m].1 == c);
    let k = choose|k: int| 0 <= k < t.len() && #[trigger] t[k].0 == r && t[k].1 == c;
    if k < m {
        assert(!(t[k].0 == t[m].0 && t[k].1 == t[m].1));
    } else if k > m {
        assert(!(t[m].0 == t[k].0 && t[m].1 == t[k].1));
    }
}

proof fn lemma_holds_has(s: Seq<MatrixNode>, t: Seq<(usize, usize, i32)>, r: int, c: int)
    requires
        holds_triplets(s, t),
    ensures
        has_cell(s, r, c) == names_cell(t, r, c),
{
    if has_cell(s, r, c) {
        let i = choose|i: int| 0 <= i < s.len() && #[trigger] s[i].row == r && s[i].col == c;
        assert(holding(t, s[i]));
        let m = choose|m: int| 0 <= m < t.len() && #[trigger] holds(t[m], s[i]);
        assert(t[m].0 == r && t[m].1 == c);
    }
    if names_cell(t, r, c) {
        let m = choose|m: int| 0 <= m < t.len() && #[trigger] t[m].0 == r && t[m].1 == c;
        assert(held_by(s, t[m]));
        let j = choose|j: int| 0 <= j < s.len() && #[trigger] holds(t[m], s[j]);
        assert(s[j].row == r && s[j].col == c);
    }
}

proof fn lemma_holds_at(s: Seq<MatrixNode>, t: Seq<(usize, usize, i32)>, r: int, c: int)
    requires
        holds_triplets(s, t),
        row_sorted(s),
        triplets_distinct(t),
    ensures
        node_at(s, r, c) == triplet_at(t, r, c),
{
    if exists|i: int| 0 <= i < s.len() && #[trigger] s[i].row == r && s[i].col == c {
        let i = choose|i: int| 0 <= i < s.len() && #[trigger] s[i].row == r && s[i].col == c;
        lemma_node_at_index(s, i);
        assert(holding(t, s[i]));
        let m = choose|m: int| 0 <= m < t.len() && #[trigger] holds(t[m], s[i]);
        lemma_triplet_at_index(t, m);
    } else if exists|m: int| 0 <= m < t.len() && #[trigger] t[m].0 == r && t[m].1 == c {
        let m = choose|m: int| 0 <= m < t.len() && #[trigger] t[m].0 == r && t[m].1 == c;
        assert(held_by(s, t[m]));
        let j = choose|j: int| 0 <= j < s.len() && #[trigger] holds(t[m], s[j]);
        assert(s[j].row == r && s[j].col == c);
    }
}

/// Sorts the triplets into row-major order as nodes, or finds two that name
/// the same cell.
fn sorted_nodes(triplets: &Vec<(usize, usize, i32)>) -> (r: Result<Vec<MatrixNode>, MatrixError>)
    ensures
        r is Err <==> !triplets_distinct(triplets@),
        r is Err ==> r == Err::<Vec<MatrixNode>, MatrixError>(MatrixError::DuplicateEntry),
        r matches Ok(s) ==> row_sorted(s@) && holds_triplets(s@, triplets@) && s@.len()
            == triplets@.len(),
{
    let ghost t = triplets@;
    let mut s: Vec<MatrixNode> = Vec::new();
    let mut k: usize = 0;
    while k < triplets.len()
        invariant
            k <= triplets.len(),
            t == triplets@,
            s@.len() == k,
            row_sorted(s@),
            holds_triplets(s@, t.subrange(0, k as int)),
            triplets_distinct(t.subrange(0, k as int)),
        decreases triplets.len() - k,
    {
        let (row, col, value) = triplets[k];
        let mut p: usize = 0;
        while p < s.len() && (s[p].row < row || (s[p].row == row && s[p].col < col))
            invariant
                p <= s@.len(),
                forall|j: int| 0 <= j < p ==> rc_lt(#[trigger] s@[j].row as int, s@[j].col as int, row as int, col as int),
            decreases s.len() - p,
        {
            p = p + 1;
        }
        let ghost pre = t.subrange(0, k as int);
        if p < s.len() && s[p].row == row && s[p].col == col {
            proof {
                assert(holding(pre, s@[p as int]));
                let m = choose|m: int| 0 <= m < pre.len() && #[trigger] holds(pre[m], s@[p as int]);
                assert(t[m].0 == t[k as int].0 && t[m].1 == t[k as int].1);
                assert(!triplets_distinct(t)) by {
                    assert(!(!(t[m].0 == t[k as int].0 && t[m].1 == t[k as int].1)));
                }
            }
            return Err(MatrixError::DuplicateEntry);
        }
        let ghost old_s = s@;
        let node = MatrixNode::new(row, col, value);
        s.insert(p, node);
        proof {
            let next = t.subrange(0, k as int + 1);
            assert(next == pre.push(t[k as int]));
            assert forall|j: int| p < j < s@.len() implies rc_lt(row as int, col as int, #[trigger] s@[j].row as int, s@[j].col as int) by {
                assert(s@[j] == old_s[j - 1]);
                if j - 1 > p {
                    assert(rc_lt(old_s[p as int].row as int, old_s[p as int].col as int, old_s[j - 1].row as int, old_s[j - 1].col as int));
                }
            }
            assert(row_sorted(s@)) by {
                assert forall|a: int, b: int| 0 <= a < b < s@.len() implies rc_lt(
                    #[trigger] s@[a].row as int, s@[a].col as int, #[trigger] s@[b].row as int, s@[b].col as int) by {
                    if a < p && b > p {
                        assert(s@[a] == old_s[a]);
                        assert(rc_lt(s@[a].row as int, s@[a].col as int, row as int, col as int));
                    } else if a < p && b < p {
                        assert(s@[a] == old_s[a] && s@[b] == old_s[b]);
                    } else if a > p {
                        assert(s@[a] == old_s[a - 1] && s@[b] == old_s[b - 1]);
                    } else if a < p && b == p {
                        assert(s@[a] == old_s[a]);
                    }
                }
            }
            assert forall|j: int| 0 <= j < s@.len() implies #[trigger] holding(next, s@[j]) by {
                if j == p {
                    assert(holds(next[k as int], s@[j]));
                } else {
                    let jj = if j < p { j } else { j - 1 };
                    assert(s@[j] == old_s[jj]);
                    assert(holding(pre, old_s[jj]));
                    let m = choose|m: int| 0 <= m < pre.len() && #[trigger] holds(pre[m], old_s[jj]);
                    assert(holds(next[m], s@[j]));
                }
            }
            assert forall|m: int| 0 <= m < next.len() implies #[trigger] held_by(s@, next[m]) by {
                if m == k {
                    assert(holds(next[m], s@[p as int]));
                } else {
                    assert(next[m] == pre[m]);
                    assert(held_by(old_s, pre[m]));
                    let jj = choose|jj: int| 0 <= jj < old_s.len() && #[trigger] holds(pre[m], old_s[jj]);
                    let j = if jj < p { jj } else { jj + 1 };
                    assert(s@[j] == old_s[jj]);
                    assert(holds(next[m], s@[j]));
                }
            }
            assert forall|a: int, b: int| 0 <= a < b < next.len() implies !(#[trigger] next[a].0 == #[trigger] next[b].0 && next[a].1 == next[b].1) by {
                if b == k {
                    assert(held_by(old_s, pre[a]));
                    let jj = choose|jj: int| 0 <= jj < old_s.len() && #[trigger] holds(pre[a], old_s[jj]);
                    if jj < p {
                        assert(rc_lt(old_s[jj].row as int, old_s[jj].col as int, row as int, col as int));
                    } else if jj > p {
                        assert(rc_lt(old_s[p as int].row as int, old_s[p as int].col as int, old_s[jj].row as int, old_s[jj].col as int));
                    }
                } else {
                    assert(next[a] == pre[a] && next[b] == pre[b]);
                }
            }
        }
        k = k + 1;
    }
    assert(t.subrange(0, k as int) == t);
    Ok(s)
}

/// The cell of each node: `(row, col)`.
pub open spec fn keys(s: Seq<MatrixNode>) -> Seq<(usize, usize)> {
    s.map_values(|n: MatrixNode| (n.row, n.col))
}

/// The cells at positions 1.. are in strictly increasing row-major order.
pub open spec fn keys_sorted(ks: Seq<(usize, usize)>) -> bool {
    forall|a: int, b: int|
        1 <= a < b < ks.len() ==> rc_lt(
            #[trigger] ks[a].0 as int,
            ks[a].1 as int,
            #[trigger] ks[b].0 as int,
            ks[b].1 as int,
        )
}

/// Position `k` holds an entry that comes after position `i` in column-major
/// order; every entry comes after the sentinel at position 0.
pub open spec fn col_after(ks: Seq<(usize, usize)>, i: int, k: int) -> bool {
    1 <= k < ks.len() && (i == 0 || rc_lt(ks[i].1 as int, ks[i].0 as int, ks[k].1 as int, ks[k].0 as int))
}

/// `d` is where the column list goes from position `i`: the first entry after
/// `i` in column-major order, or the sentinel 0 where there is none.
pub open spec fn down_ok(ks: Seq<(usize, usize)>, i: int, d: int) -> bool {
    ||| (d == 0 && forall|k: int| !#[trigger] col_after(ks, i, k))
    ||| (col_after(ks, i, d) && forall|k: int|
        #[trigger] col_after(ks, i, k) ==> !rc_lt(ks[k].1 as int, ks[k].0 as int, ks[d].1 as int, ks[d].0 as int))
}

/// `h` is the first position in `[1, lim)` whose entry lies in column `c`, or 0 where none does.
pub open spec fn col_head(ks: Seq<(usize, usize)>, c: int, h: int, lim: int) -> bool {
    ||| (h == 0 && forall|j: int| 1 <= j < lim ==> #[trigger] ks[j].1 != c)
    ||| (1 <= h < lim && ks[h].1 == c && forall|j: int| 1 <= j < h ==> #[trigger] ks[j].1 != c)
}

/// `t` is the last position in `[1, lim)` whose entry lies in column `c`, or 0 where none does.
pub open spec fn col_tail(ks: Seq<(usize, usize)>, c: int, t: int, lim: int) -> bool {
    ||| (t == 0 && forall|j: int| 1 <= j < lim ==> #[trigger] ks[j].1 != c)
    ||| (1 <= t < lim && ks[t].1 == c && forall|j: int| t < j < lim ==> #[trigger] ks[j].1 != c)
}

proof fn lemma_col_order(ks: Seq<(usize, usize)>, a: int, b: int)
    requires
        keys_sorted(ks),
        1 <= a < ks.len(),
        1 <= b < ks.len(),
        ks[a].1 == ks[b].1,
    ensures
        a < b <==> ks[a].0 < ks[b].0,
{
    if a < b {
        assert(rc_lt(ks[a].0 as int, ks[a].1 as int, ks[b].0 as int, ks[b].1 as int));
    } else if b < a {
        assert(rc_lt(ks[b].0 as int, ks[b].1 as int, ks[a].0 as int, ks[a].1 as int));
    }
}

/// Computes the column list: for each position, the position that follows it
/// in column-major order. Entries are chained column by column in row order,
/// then the chains are joined in increasing column order.
fn link_columns(nodes: &Vec<MatrixNode>, cols: usize) -> (downs: Vec<usize>)
    requires
        nodes@.len() >= 1,
        keys_sorted(keys(nodes@)),
        forall|j: int| 1 <= j < nodes@.len() ==> 1 <= #[trigger] nodes@[j].col <= cols,
        cols < usize::MAX,
    ensures
        downs@.len() == nodes@.len(),
        forall|i: int| 0 <= i < nodes@.len() ==> down_ok(keys(nodes@), i, #[trigger] downs@[i] as int),
{
    let ghost ks = keys(nodes@);
    let len = nodes.len();
    let mut downs: Vec<usize> = Vec::new();
    let mut heads: Vec<usize> = Vec::new();
    let mut tails: Vec<usize> = Vec::new();
    let mut i: usize = 0;
    while i < len
        invariant
            i <= len,
            len == nodes@.len(),
            downs@.len() == i,
            forall|j: int| 0 <= j < i ==> #[trigger] downs@[j] == 0,
        decreases len - i,
    {
        downs.push(0);
        i = i + 1;
    }
    let mut c: usize = 0;
    while c <= cols
        invariant
            c <= cols + 1,
            cols < usize::MAX,
            heads@.len() == c,
            tails@.len() == c,
            forall|x: int| 0 <= x < c ==> #[trigger] heads@[x] == 0,
            forall|x: int| 0 <= x < c ==> #[trigger] tails@[x] == 0,
        decreases cols + 1 - c,
    {
        heads.push(0);
        tails.push(0);
        c = c + 1;
    }
    assert forall|x: int| 1 <= x <= cols implies col_tail(ks, x, #[trigger] tails@[x] as int, 1) && col_head(ks, x, heads@[x] as int, 1) by {
        assert(tails@[x] == 0 && heads@[x] == 0);
    }
    assert forall|j: int| 1 <= j < len implies 1 <= #[trigger] ks[j].1 <= cols by {
        assert(ks[j].1 == nodes@[j].col);
    }
    let mut i: usize = 1;
    while i < len
        invariant
            1 <= i <= len,
            len == nodes@.len(),
            ks == keys(nodes@),
            ks.len() == len,
            keys_sorted(ks),
            forall|j: int| 1 <= j < len ==> 1 <= #[trigger] ks[j].1 <= cols,
            downs@.len() == len,
            heads@.len() == cols + 1,
            tails@.len() == cols + 1,
            forall|x: int| 1 <= x <= cols ==> col_head(ks, x, #[trigger] heads@[x] as int, i as int),
            forall|x: int| 1 <= x <= cols ==> col_tail(ks, x, #[trigger] tails@[x] as int, i as int),
            forall|j: int|
                1 <= j < i && j != tails@[ks[j].1 as int] ==> down_ok(ks, j, #[trigger] downs@[j] as int),
        decreases len - i,
    {
        let cc = nodes[i].col;
        assert(ks[i as int].1 == cc);
        let ghost old_tails = tails@;
        let ghost old_downs = downs@;
        if heads[cc] == 0 {
            heads.set(cc, i);
        } else {
            let t = tails[cc];
            downs.set(t, i);
            proof {
                let ti = t as int;
                assert(ks[ti].1 == cc);
                lemma_col_order(ks, ti, i as int);
                assert(col_after(ks, ti, i as int));
                assert forall|k: int| #[trigger] col_after(ks, ti, k) implies !rc_lt(
                    ks[k].1 as int, ks[k].0 as int, ks[i as int].1 as int, ks[i as int].0 as int) by {
                    if rc_lt(ks[k].1 as int, ks[k].0 as int, ks[i as int].1 as int, ks[i as int].0 as int) {
                        lemma_col_order(ks, ti, k);
                        lemma_col_order(ks, k, i as int);
                        assert(ks[k].1 != cc);
                    }
                }
            }
        }
        tails.set(cc, i);
        proof {
            assert forall|j: int| 1 <= j < i + 1 && j != tails@[ks[j].1 as int] implies down_ok(ks, j, #[trigger] downs@[j] as int) by {
                if j < i && j != old_tails[cc as int] {
                    assert(old_downs[j] == downs@[j]);
                    if ks[j].1 == cc {
                        assert(j != old_tails[ks[j].1 as int]);
                    } else {
                        assert(tails@[ks[j].1 as int] == old_tails[ks[j].1 as int]);
                    }
                }
            }
            assert forall|x: int| 1 <= x <= cols implies col_tail(ks, x, #[trigger] tails@[x] as int, i + 1) by {
                if x != cc {
                    assert(tails@[x] == old_tails[x]);
                }
            }
        }
        i = i + 1;
    }
    let mut last: usize = 0;
    let mut c: usize = 1;
    while c <= cols
        invariant
            1 <= c <= cols + 1,
            cols < usize::MAX,
            len == nodes@.len(),
            ks == keys(nodes@),
            ks.len() == len,
            keys_sorted(ks),
            forall|j: int| 1 <= j < len ==> 1 <= #[trigger] ks[j].1 <= cols,
            downs@.len() == len,
            heads@.len() == cols + 1,
            tails@.len() == cols + 1,
            forall|x: int| 1 <= x <= cols ==> col_head(ks, x, #[trigger] heads@[x] as int, len as int),
            forall|x: int| 1 <= x <= cols ==> col_tail(ks, x, #[trigger] tails@[x] as int, len as int),
            forall|j: int|
                1 <= j < len && j != tails@[ks[j].1 as int] ==> down_ok(ks, j, #[trigger] downs@[j] as int),
            last == 0 ==> forall|j: int| 1 <= j < len ==> #[trigger] ks[j].1 >= c,
            last != 0 ==> 1 <= last < len && ks[last as int].1 < c && tails@[ks[last as int].1 as int] == last,
            last != 0 ==> forall|j: int| 1 <= j < len ==> !(ks[last as int].1 < #[trigger] ks[j].1 < c),
            forall|j: int|
                0 <= j < len && j != last && (j == 0 || (j == tails@[ks[j].1 as int] && ks[j].1 < c))
                    ==> down_ok(ks, j, #[trigger] downs@[j] as int),
        decreases cols + 1 - c,
    {
        let h = heads[c];
        if h != 0 {
            let ghost old_downs = downs@;
            let ghost old_last = last as int;
            proof {
                let hi = h as int;
                let li = last as int;
                assert(col_head(ks, c as int, hi, len as int));
                assert(ks[hi].1 == c);
                assert(col_after(ks, li, hi));
                assert forall|k: int| #[trigger] col_after(ks, li, k) implies !rc_lt(
                    ks[k].1 as int, ks[k].0 as int, ks[hi].1 as int, ks[hi].0 as int) by {
                    if rc_lt(ks[k].1 as int, ks[k].0 as int, ks[hi].1 as int, ks[hi].0 as int) {
                        if ks[k].1 < c {
                            if last != 0 {
                                assert(col_tail(ks, ks[li].1 as int, li, len as int));
                                if ks[k].1 == ks[li].1 {
                                    lemma_col_order(ks, li, k);
                                }
                            }
                        } else {
                            lemma_col_order(ks, k, hi);
                        }
                    }
                }
                assert(down_ok(ks, li, hi));
            }
            downs.set(last, h);
            last = tails[c];
            proof {
                assert(col_tail(ks, c as int, last as int, len as int));
                assert forall|j: int|
                    0 <= j < len && j != last && (j == 0 || (j == tails@[ks[j].1 as int] && ks[j].1 < c + 1))
                    implies down_ok(ks, j, #[trigger] downs@[j] as int) by {
                    if j != old_last {
                        assert(old_downs[j] == downs@[j]);
                        if j != 0 && ks[j].1 == c {
                            assert(j == last);
                        }
                    }
                }
            }
        }
        c = c + 1;
    }
    proof {
        let li = last as int;
        assert forall|k: int| !#[trigger] col_after(ks, li, k) by {
            if col_after(ks, li, k) {
                assert(1 <= ks[k].1 <= cols);
                if last == 0 {
                    assert(ks[k].1 >= c);
                } else {
                    assert(col_tail(ks, ks[li].1 as int, li, len as int));
                    if ks[k].1 == ks[li].1 {
                        lemma_col_order(ks, li, k);
                    }
                }
            }
        }
    }
    downs.set(last, 0);
    assert forall|i: int| 0 <= i < nodes@.len() implies down_ok(keys(nodes@), i, #[trigger] downs@[i] as int) by {
        if i != 0 && i != last && i == tails@[ks[i].1 as int] {
            assert(ks[i].1 < c);
        }
    }
    downs
}

/// The two lists hold the same cells with the same values, in the same order.
pub open spec fn same_cells(a: Seq<MatrixNode>, b: Seq<MatrixNode>) -> bool {
    &&& a.len() == b.len()
    &&& forall|i: int|
        0 <= i < a.len() ==> (#[trigger] a[i]).row == b[i].row && a[i].col == b[i].col && a[i].value
            == b[i].value
}

proof fn lemma_same_cells_at(a: Seq<MatrixNode>, b: Seq<MatrixNode>, r: int, c: int)
    requires
        same_cells(a, b),
        row_sorted(a),
    ensures
        row_sorted(b),
        node_at(a, r, c) == node_at(b, r, c),
{
    assert forall|i: int, j: int| 0 <= i < j < b.len() implies rc_lt(
        #[trigger] b[i].row as int, b[i].col as int, #[trigger] b[j].row as int, b[j].col as int) by {
        assert(a[i].row == b[i].row && a[j].row == b[j].row);
        assert(rc_lt(a[i].row as int, a[i].col as int, a[j].row as int, a[j].col as int));
    }
    if exists|i: int| 0 <= i < a.len() && #[trigger] a[i].row == r && a[i].col == c {
        let i = choose|i: int| 0 <= i < a.len() && #[trigger] a[i].row == r && a[i].col == c;
        lemma_node_at_index(a, i);
        assert(b[i].row == r && b[i].col == c);
        lemma_node_at_index(b, i);
    } else if exists|i: int| 0 <= i < b.len() && #[trigger] b[i].row == r && b[i].col == c {
        let i = choose|i: int| 0 <= i < b.len() && #[trigger] b[i].row == r && b[i].col == c;
        assert(a[i].row == r && a[i].col == c);
    }
}

/// Some node of `s` lies at cell `(r, c)`.
pub open spec fn has_cell(s: Seq<MatrixNode>, r: int, c: int) -> bool {
    exists|i: int| 0 <= i < s.len() && #[trigger] s[i].row == r && s[i].col == c
}

/// Node `x` comes before node `y` in row-major order.
pub open spec fn node_lt(x: MatrixNode, y: MatrixNode) -> bool {
    rc_lt(x.row as int, x.col as int, y.row as int, y.col as int)
}

/// Where two matrices are added, cell `(r, c)` keeps an entry: one of the two
/// has an entry there, and they do not both have one whose values cancel.
pub open spec fn sum_kept(a: Seq<MatrixNode>, b: Seq<MatrixNode>, r: int, c: int) -> bool {
    (has_cell(a, r, c) || has_cell(b, r, c)) && !(has_cell(a, r, c) && has_cell(b, r, c) && node_at(a, r, c)
        + node_at(b, r, c) == 0)
}

proof fn lemma_push_at(s: Seq<MatrixNode>, n: MatrixNode, r: int, c: int)
    requires
        row_sorted(s.push(n)),
        !has_cell(s, n.row as int, n.col as int),
    ensures
        node_at(s.push(n), r, c) == (if n.row == r && n.col == c { n.value as int } else { node_at(s, r, c) }),
        has_cell(s.push(n), r, c) == (has_cell(s, r, c) || (n.row == r && n.col == c)),
{
    let t = s.push(n);
    assert forall|a: int, b: int| 0 <= a < b < s.len() implies rc_lt(
        #[trigger] s[a].row as int, s[a].col as int, #[trigger] s[b].row as int, s[b].col as int) by {
        assert(t[a] == s[a] && t[b] == s[b]);
        assert(rc_lt(t[a].row as int, t[a].col as int, t[b].row as int, t[b].col as int));
    }
    if n.row == r && n.col == c {
        assert(t[s.len() as int] == n);
        lemma_node_at_index(t, s.len() as int);
    } else if has_cell(s, r, c) {
        let i = choose|i: int| 0 <= i < s.len() && #[trigger] s[i].row == r && s[i].col == c;
        lemma_node_at_index(s, i);
        assert(t[i] == s[i]);
        lemma_node_at_index(t, i);
    } else {
        if has_cell(t, r, c) {
            let i = choose|i: int| 0 <= i < t.len() && #[trigger] t[i].row == r && t[i].col == c;
            if i < s.len() {
                assert(t[i] == s[i]);
            }
        }
    }
}

proof fn lemma_same_cells_has(a: Seq<MatrixNode>, b: Seq<MatrixNode>, r: int, c: int)
    requires
        same_cells(a, b),
    ensures
        has_cell(a, r, c) == has_cell(b, r, c),
{
    if has_cell(a, r, c) {
        let i = choose|i: int| 0 <= i < a.len() && #[trigger] a[i].row == r && a[i].col == c;
        assert(b[i].row == r && b[i].col == c);
    }
    if has_cell(b, r, c) {
        let i = choose|i: int| 0 <= i < b.len() && #[trigger] b[i].row == r && b[i].col == c;
        assert(a[i].row == r && a[i].col == c);
    }
}

/// `out` holds the sum of `a` and `b`: each cell's value is the sum of theirs,
/// and `out` has an entry where `sum_kept` says so.
pub open spec fn merged(out: Seq<MatrixNode>, a: Seq<MatrixNode>, b: Seq<MatrixNode>) -> bool {
    forall|i: int, j: int|
        #[trigger] node_at(out, i, j) == node_at(a, i, j) + node_at(b, i, j) && has_cell(out, i, j)
            == sum_kept(a, b, i, j)
}

proof fn lemma_merge_push_a(out: Seq<MatrixNode>, a: Seq<MatrixNode>, b: Seq<MatrixNode>, n: MatrixNode, x: MatrixNode)
    requires
        merged(out, a, b),
        row_sorted(out.push(n)),
        row_sorted(a.push(x)),
        n.row == x.row && n.col == x.col && n.value == x.value,
        !has_cell(out, n.row as int, n.col as int),
        !has_cell(a, n.row as int, n.col as int),
        !has_cell(b, n.row as int, n.col as int),
    ensures
        merged(out.push(n), a.push(x), b),
{
    assert forall|i: int, j: int| #[trigger] node_at(out.push(n), i, j) == node_at(a.push(x), i, j) + node_at(b, i, j)
        && has_cell(out.push(n), i, j) == sum_kept(a.push(x), b, i, j) by {
        lemma_push_at(out, n, i, j);
        lemma_push_at(a, x, i, j);
        assert(node_at(out, i, j) == node_at(a, i, j) + node_at(b, i, j));
        assert(has_cell(out, i, j) == sum_kept(a, b, i, j));
    }
}

proof fn lemma_merge_push_b(out: Seq<MatrixNode>, a: Seq<MatrixNode>, b: Seq<MatrixNode>, n: MatrixNode, y: MatrixNode)
    requires
        merged(out, a, b),
        row_sorted(out.push(n)),
        row_sorted(b.push(y)),
        n.row == y.row && n.col == y.col && n.value == y.value,
        !has_cell(out, n.row as int, n.col as int),
        !has_cell(a, n.row as int, n.col as int),
        !has_cell(b, n.row as int, n.col as int),
    ensures
        merged(out.push(n), a, b.push(y)),
{
    assert forall|i: int, j: int| #[trigger] node_at(out.push(n), i, j) == node_at(a, i, j) + node_at(b.push(y), i, j)
        && has_cell(out.push(n), i, j) == sum_kept(a, b.push(y), i, j) by {
        lemma_push_at(out, n, i, j);
        lemma_push_at(b, y, i, j);
        assert(node_at(out, i, j) == node_at(a, i, j) + node_at(b, i, j));
        assert(has_cell(out, i, j) == sum_kept(a, b, i, j));
    }
}

proof fn lemma_merge_both(out: Seq<MatrixNode>, a: Seq<MatrixNode>, b: Seq<MatrixNode>, n: MatrixNode, x: MatrixNode, y: MatrixNode)
    requires
        merged(out, a, b),
        row_sorted(out.push(n)),
        row_sorted(a.push(x)),
        row_sorted(b.push(y)),
        n.row == x.row && n.col == x.col && n.row == y.row && n.col == y.col,
        n.value == x.value + y.value,
        !has_cell(out, n.row as int, n.col as int),
        !has_cell(a, n.row as int, n.col as int),
        !has_cell(b, n.row as int, n.col as int),
    ensures
        n.value != 0 ==> merged(out.push(n), a.push(x), b.push(y)),
        n.value == 0 ==> merged(out, a.push(x), b.push(y)),
{
    if n.value != 0 {
        assert forall|i: int, j: int| #[trigger] node_at(out.push(n), i, j) == node_at(a.push(x), i, j) + node_at(b.push(y), i, j)
            && has_cell(out.push(n), i, j) == sum_kept(a.push(x), b.push(y), i, j) by {
            lemma_push_at(out, n, i, j);
            lemma_push_at(a, x, i, j);
            lemma_push_at(b, y, i, j);
            assert(node_at(out, i, j) == node_at(a, i, j) + node_at(b, i, j));
            assert(has_cell(out, i, j) == sum_kept(a, b, i, j));
        }
    } else {
        assert forall|i: int, j: int| #[trigger] node_at(out, i, j) == node_at(a.push(x), i, j) + node_at(b.push(y), i, j)
            && has_cell(out, i, j) == sum_kept(a.push(x), b.push(y), i, j) by {
            lemma_push_at(a, x, i, j);
            lemma_push_at(b, y, i, j);
            assert(node_at(out, i, j) == node_at(a, i, j) + node_at(b, i, j));
            assert(has_cell(out, i, j) == sum_kept(a, b, i, j));
            if n.row == i && n.col == j {
                assert(node_at(out, i, j) == 0);
            }
        }
    }
}

/// The positions whose entries come after position `p` in column-major order.
pub open spec fn later(ks: Seq<(usize, usize)>, p: int) -> Set<int> {
    Set::new(|k: int| col_after(ks, p, k))
}

proof fn lemma_later_bounded(ks: Seq<(usize, usize)>, p: int)
    requires
        ks.len() >= 1,
    ensures
        later(ks, p).finite(),
        later(ks, p).len() <= ks.len() - 1,
        p == 0 ==> later(ks, p).len() == ks.len() - 1,
{
    vstd::set_lib::lemma_int_range(1, ks.len() as int);
    let r = vstd::set_lib::set_int_range(1, ks.len() as int);
    assert(later(ks, p).subset_of(r));
    vstd::set_lib::lemma_len_subset(later(ks, p), r);
    if p == 0 {
        assert(later(ks, p) =~= r);
    }
}

proof fn lemma_later_step(ks: Seq<(usize, usize)>, prev: int, p: int)
    requires
        ks.len() >= 1,
        down_ok(ks, prev, p),
        p != 0,
    ensures
        later(ks, p).len() < later(ks, prev).len(),
{
    lemma_later_bounded(ks, prev);
    let smaller = later(ks, prev).remove(p);
    assert(later(ks, p).subset_of(smaller));
    assert(later(ks, prev).contains(p));
    vstd::set_lib::lemma_len_subset(later(ks, p), smaller);
}

/// A sparse matrix of `i32` values held as an orthogonal list. All nodes live
/// in one store; position 0 is the sentinel, whose `row` and `col` are the
/// matrix's dimensions. The entries follow at positions 1.. in row-major order,
/// so the row list runs through the store in position order and back to 0.
pub struct SparseMatrix {
    nodes: Vec<MatrixNode>,
}

/// The position that follows `i` in a row list over `len` nodes.
pub open spec fn right_of(i: int, len: int) -> int {
    if i + 1 < len {
        i + 1
    } else {
        0
    }
}

impl SparseMatrix {
    pub closed spec fn store(self) -> Seq<MatrixNode> {
        self.nodes@
    }

    /// The number of rows.
    pub closed spec fn rows(self) -> int {
        self.nodes@[0].row as int
    }

    /// The number of columns.
    pub closed spec fn cols(self) -> int {
        self.nodes@[0].col as int
    }

    /// The stored entries, in row-major order.
    pub closed spec fn entries(self) -> Seq<MatrixNode> {
        self.nodes@.drop_first()
    }

    /// The value of cell `(r, c)`, counting rows and columns from 1; 0 where no entry is stored.
    pub closed spec fn at(self, r: int, c: int) -> int {
        node_at(self.entries(), r, c)
    }

    /// The matrix's structure: a sentinel, entries inside the bounds in strictly
    /// increasing row-major order, a row list through them in that order and a
    /// column list through them in column-major order.
    pub closed spec fn wf(self) -> bool {
        &&& self.nodes@.len() >= 1
        &&& self.nodes@[0].value == 0
        &&& self.nodes@[0].col < usize::MAX
        &&& forall|i: int| 0 <= i < self.nodes@.len() ==> #[trigger] self.nodes@[i].right == right_of(i, self.nodes@.len() as int)
        &&& forall|i: int|
            0 <= i < self.nodes@.len() ==> down_ok(keys(self.nodes@), i, #[trigger] self.nodes@[i].down as int)
        &&& row_sorted(self.entries())
        &&& nodes_in_bounds(self.entries(), self.rows(), self.cols())
    }

    /// An empty `rows` by `cols` matrix.
    pub fn new(rows: usize, cols: usize) -> (r: SparseMatrix)
        requires
            cols < usize::MAX,
        ensures
            r.wf(),
            r.rows() == rows,
            r.cols() == cols,
            r.entries().len() == 0,
            forall|i: int, j: int| r.at(i, j) == 0,
    {
        let mut nodes: Vec<MatrixNode> = Vec::new();
        nodes.push(MatrixNode::new(rows, cols, 0));
        let r = SparseMatrix { nodes };
        assert(r.entries().len() == 0);
        assert(down_ok(keys(r.nodes@), 0, 0));
        r
    }

    /// The matrix's dimensions, rows first.
    pub fn dims(&self) -> (r: (usize, usize))
        requires
            self.wf(),
        ensures
            r.0 == self.rows(),
            r.1 == self.cols(),
    {
        (self.nodes[0].row, self.nodes[0].col)
    }

    /// Builds a `rows` by `cols` matrix whose entries hold the given cells in the
    /// given order, with both lists linked.
    fn assemble(rows: usize, cols: usize, entries: &Vec<MatrixNode>) -> (m: SparseMatrix)
        requires
            row_sorted(entries@),
            nodes_in_bounds(entries@, rows as int, cols as int),
            cols < usize::MAX,
            entries@.len() < usize::MAX,
        ensures
            m.wf(),
            m.rows() == rows,
            m.cols() == cols,
            same_cells(entries@, m.entries()),
    {
        let n = entries.len();
        let mut nodes: Vec<MatrixNode> = Vec::new();
        let first: usize = if n > 0 { 1 } else { 0 };
        nodes.push(MatrixNode { row: rows, col: cols, value: 0, right: first, down: 0 });
        let mut i: usize = 0;
        while i < n
            invariant
                i <= n,
                n == entries@.len(),
                n < usize::MAX,
                nodes@.len() == i + 1,
                nodes@[0].row == rows && nodes@[0].col == cols && nodes@[0].value == 0,
                forall|j: int| 0 <= j <= i ==> #[trigger] nodes@[j].right == right_of(j, n + 1),
                forall|j: int|
                    0 <= j < i ==> (#[trigger] nodes@[j + 1]).row == entries@[j].row && nodes@[j + 1].col
                        == entries@[j].col && nodes@[j + 1].value == entries@[j].value,
            decreases n - i,
        {
            let e = &entries[i];
            let right: usize = if i + 1 < n { i + 2 } else { 0 };
            nodes.push(MatrixNode { row: e.row, col: e.col, value: e.value, right, down: 0 });
            i = i + 1;
        }
        proof {
            let ks = keys(nodes@);
            assert forall|a: int, b: int| 1 <= a < b < ks.len() implies rc_lt(
                #[trigger] ks[a].0 as int, ks[a].1 as int, #[trigger] ks[b].0 as int, ks[b].1 as int) by {
                assert(nodes@[a] == nodes@[(a - 1) + 1]);
                assert(nodes@[b] == nodes@[(b - 1) + 1]);
                assert(rc_lt(entries@[a - 1].row as int, entries@[a - 1].col as int, entries@[b - 1].row as int, entries@[b - 1].col as int));
            }
            assert forall|j: int| 1 <= j < nodes@.len() implies 1 <= #[trigger] nodes@[j].col <= cols by {
                assert(nodes@[j] == nodes@[(j - 1) + 1]);
                assert(1 <= entries@[j - 1].col <= cols);
            }
        }
        let downs = link_columns(&nodes, cols);
        let mut linked: Vec<MatrixNode> = Vec::new();
        let mut i: usize = 0;
        while i < nodes.len()
            invariant
                i <= nodes@.len(),
                downs@.len() == nodes@.len(),
                linked@.len() == i,
                forall|j: int|
                    0 <= j < i ==> (#[trigger] linked@[j]).row == nodes@[j].row && linked@[j].col
                        == nodes@[j].col && linked@[j].value == nodes@[j].value && linked@[j].right
                        == nodes@[j].right && linked@[j].down == downs@[j],
            decreases nodes@.len() - i,
        {
            let e = &nodes[i];
            linked.push(MatrixNode { row: e.row, col: e.col, value: e.value, right: e.right, down: downs[i] });
            i = i + 1;
        }
        let m = SparseMatrix { nodes: linked };
        proof {
            assert(keys(linked@) =~= keys(nodes@));
            assert forall|j: int| 0 <= j < entries@.len() implies (#[trigger] entries@[j]).row == m.entries()[j].row
                && entries@[j].col == m.entries()[j].col && entries@[j].value == m.entries()[j].value by {
                assert(m.entries()[j] == linked@[j + 1]);
            }
            lemma_same_cells_at(entries@, m.entries(), 0, 0);
            assert forall|j: int| 0 <= j < m.entries().len() implies 1 <= #[trigger] m.entries()[j].row <= rows
                && 1 <= m.entries()[j].col <= cols by {
                assert(m.entries()[j].row == entries@[j].row);
            }
            assert forall|j: int| 0 <= j < linked@.len() implies #[trigger] linked@[j].right == right_of(j, linked@.len() as int) by {
            }
            assert forall|j: int| 0 <= j < linked@.len() implies down_ok(keys(linked@), j, #[trigger] linked@[j].down as int) by {
            }
        }
        m
    }

    /// Builds a `rows` by `cols` matrix from `(row, col, value)` triplets, rows
    /// and columns counted from 1. Each triplet becomes an entry, whatever its
    /// value. Fails where a triplet lies outside the matrix, or, all lying
    /// inside, where two name the same cell.
    pub fn from_triplets(rows: usize, cols: usize, triplets: Vec<(usize, usize, i32)>) -> (r: Result<SparseMatrix, MatrixError>)
        requires
            cols < usize::MAX,
            triplets@.len() < usize::MAX,
        ensures
            !triplets_in_bounds(triplets@, rows as int, cols as int) ==> r == Err::<SparseMatrix, MatrixError>(MatrixError::OutOfBounds),
            triplets_in_bounds(triplets@, rows as int, cols as int) && !triplets_distinct(triplets@) ==> r == Err::<SparseMatrix, MatrixError>(MatrixError::DuplicateEntry),
            triplets_in_bounds(triplets@, rows as int, cols as int) && triplets_distinct(triplets@) ==> r is Ok,
            r matches Ok(m) ==> m.wf() && m.rows() == rows && m.cols() == cols && m.nnz() == triplets@.len()
                && (forall|i: int, j: int| m.at(i, j) == triplet_at(triplets@, i, j))
                && (forall|i: int, j: int| m.has(i, j) == names_cell(triplets@, i, j)),
    {
        let mut k: usize = 0;
        while k < triplets.len()
            invariant
                k <= triplets@.len(),
                forall|i: int| 0 <= i < k ==> 1 <= #[trigger] triplets@[i].0 <= rows && 1 <= triplets@[i].1 <= cols,
            decreases triplets.len() - k,
        {
            let (r, c, _v) = triplets[k];
            if r < 1 || r > rows || c < 1 || c > cols {
                return Err(MatrixError::OutOfBounds);
            }
            k = k + 1;
        }
        match sorted_nodes(&triplets) {
            Err(e) => Err(e),
            Ok(entries) => {
                proof {
                    assert forall|j: int| 0 <= j < entries@.len() implies 1 <= #[trigger] entries@[j].row <= rows && 1 <= entries@[j].col <= cols by {
                        assert(holding(triplets@, entries@[j]));
                        let m = choose|m: int| 0 <= m < triplets@.len() && #[trigger] holds(triplets@[m], entries@[j]);
                        assert(1 <= triplets@[m].0 <= rows);
                    }
                }
                let m = SparseMatrix::assemble(rows, cols, &entries);
                proof {
                    assert forall|i: int, j: int| m.at(i, j) == triplet_at(triplets@, i, j) by {
                        lemma_holds_at(entries@, triplets@, i, j);
                        lemma_same_cells_at(entries@, m.entries(), i, j);
                    }
                    assert forall|i: int, j: int| m.has(i, j) == names_cell(triplets@, i, j) by {
                        lemma_holds_has(entries@, triplets@, i, j);
                        lemma_same_cells_has(entries@, m.entries(), i, j);
                    }
                }
                Ok(m)
            },
        }
    }

    /// The number of stored entries.
    pub closed spec fn nnz(self) -> nat {
        self.entries().len()
    }

    /// Does some entry lie at cell `(r, c)`?
    pub closed spec fn has(self, r: int, c: int) -> bool {
        has_cell(self.entries(), r, c)
    }

    proof fn lemma_store(self)
        requires
            self.wf(),
        ensures
            forall|a: int, b: int| 1 <= a < b < self.nodes@.len() ==> node_lt(#[trigger] self.nodes@[a], #[trigger] self.nodes@[b]),
            forall|a: int| 1 <= a < self.nodes@.len() ==> 1 <= #[trigger] self.nodes@[a].row <= self.rows() && 1 <= self.nodes@[a].col <= self.cols(),
            forall|a: int| 1 <= a <= self.nodes@.len() ==> #[trigger] self.nodes@.subrange(1, a) == self.entries().take(a - 1),
            self.entries() == self.nodes@.subrange(1, self.nodes@.len() as int),
    {
        assert forall|a: int, b: int| 1 <= a < b < self.nodes@.len() implies node_lt(#[trigger] self.nodes@[a], #[trigger] self.nodes@[b]) by {
            assert(self.entries()[a - 1] == self.nodes@[a]);
            assert(self.entries()[b - 1] == self.nodes@[b]);
        }
        assert forall|a: int| 1 <= a < self.nodes@.len() implies 1 <= #[trigger] self.nodes@[a].row <= self.rows() && 1 <= self.nodes@[a].col <= self.cols() by {
            assert(self.entries()[a - 1] == self.nodes@[a]);
        }
        assert forall|a: int| 1 <= a <= self.nodes@.len() implies #[trigger] self.nodes@.subrange(1, a) == self.entries().take(a - 1) by {
            assert(self.nodes@.subrange(1, a) =~= self.entries().take(a - 1));
        }
        assert(self.entries() =~= self.nodes@.subrange(1, self.nodes@.len() as int));
    }

    /// Adds two matrices of the same shape. The row lists are merged in
    /// row-major order; where both hold a cell the values are summed, and a sum
    /// of 0 leaves no entry. Fails where the shapes differ.
    #[verifier::rlimit(100)]
    pub fn add(&self, other: &SparseMatrix) -> (r: Result<SparseMatrix, MatrixError>)
        requires
            self.wf(),
            other.wf(),
            forall|i: int, j: int| i32::MIN <= #[trigger] self.at(i, j) + other.at(i, j) <= i32::MAX,
            self.nnz() + other.nnz() < usize::MAX,
        ensures
            self.rows() != other.rows() || self.cols() != other.cols() ==> r == Err::<SparseMatrix, MatrixError>(MatrixError::DimensionMismatch),
            self.rows() == other.rows() && self.cols() == other.cols() ==> r is Ok,
            r matches Ok(m) ==> m.wf() && m.rows() == self.rows() && m.cols() == self.cols()
                && (forall|i: int, j: int| #[trigger] m.at(i, j) == self.at(i, j) + other.at(i, j))
                && (forall|i: int, j: int|
                #[trigger] m.has(i, j) == ((self.has(i, j) || other.has(i, j)) && !(self.has(i, j) && other.has(i, j)
                    && self.at(i, j) + other.at(i, j) == 0))),
    {
        let (rows, cols) = self.dims();
        let (orows, ocols) = other.dims();
        if rows != orows || cols != ocols {
            return Err(MatrixError::DimensionMismatch);
        }
        let ghost a = self.nodes@;
        let ghost b = other.nodes@;
        let ghost la = a.len() as int;
        let ghost lb = b.len() as int;
        proof {
            self.lemma_store();
            other.lemma_store();
        }
        let mut pa: usize = self.nodes[0].right;
        let mut pb: usize = other.nodes[0].right;
        let ghost mut ca: int = 1;
        let ghost mut cb: int = 1;
        let mut out: Vec<MatrixNode> = Vec::new();
        proof {
            assert(a.subrange(1, ca).len() == 0);
            assert(b.subrange(1, cb).len() == 0);
            assert(merged(out@, a.subrange(1, ca), b.subrange(1, cb)));
        }
        while pa != 0 || pb != 0
            invariant
                self.wf(),
                other.wf(),
                a == self.nodes@,
                b == other.nodes@,
                la == a.len(),
                lb == b.len(),
                rows == self.rows() && cols == self.cols() && rows == other.rows() && cols == other.cols(),
                forall|i: int, j: int| i32::MIN <= #[trigger] self.at(i, j) + other.at(i, j) <= i32::MAX,
                self.nnz() + other.nnz() < usize::MAX,
                forall|x: int, y: int| 1 <= x < y < la ==> node_lt(#[trigger] a[x], #[trigger] a[y]),
                forall|x: int, y: int| 1 <= x < y < lb ==> node_lt(#[trigger] b[x], #[trigger] b[y]),
                forall|x: int| 1 <= x < la ==> 1 <= #[trigger] a[x].row <= rows && 1 <= a[x].col <= cols,
                forall|x: int| 1 <= x < lb ==> 1 <= #[trigger] b[x].row <= rows && 1 <= b[x].col <= cols,
                forall|x: int| 1 <= x <= la ==> #[trigger] a.subrange(1, x) == self.entries().take(x - 1),
                forall|x: int| 1 <= x <= lb ==> #[trigger] b.subrange(1, x) == other.entries().take(x - 1),
                self.entries() == a.subrange(1, la),
                other.entries() == b.subrange(1, lb),
                1 <= ca <= la,
                1 <= cb <= lb,
                pa == (if ca < la { ca } else { 0 }),
                pb == (if cb < lb { cb } else { 0 }),
                row_sorted(out@),
                nodes_in_bounds(out@, rows as int, cols as int),
                out@.len() <= (ca - 1) + (cb - 1),
                forall|j: int| 0 <= j < out@.len() ==> (ca < la ==> node_lt(#[trigger] out@[j], a[ca])) && (cb < lb ==> node_lt(out@[j], b[cb])),
                forall|j: int| 1 <= j < ca ==> (cb < lb ==> node_lt(#[trigger] a[j], b[cb])),
                forall|j: int| 1 <= j < cb ==> (ca < la ==> node_lt(#[trigger] b[j], a[ca])),
                merged(out@, a.subrange(1, ca), b.subrange(1, cb)),
            decreases (la - ca) + (lb - cb),
        {
            let a_is_head = pa == 0;
            let b_is_head = pb == 0;
            let key_a: (usize, usize) = if a_is_head { (usize::MAX, usize::MAX) } else { (self.nodes[pa].row, self.nodes[pa].col) };
            let key_b: (usize, usize) = if b_is_head { (usize::MAX, usize::MAX) } else { (other.nodes[pb].row, other.nodes[pb].col) };
            let a_first = !a_is_head && (b_is_head || key_a.0 < key_b.0 || (key_a.0 == key_b.0 && key_a.1 < key_b.1));
            let b_first = !b_is_head && (a_is_head || key_b.0 < key_a.0 || (key_b.0 == key_a.0 && key_b.1 < key_a.1));
            let ghost old_out = out@;
            let ghost as0 = a.subrange(1, ca);
            let ghost bs0 = b.subrange(1, cb);
            if a_first {
                let n = MatrixNode::new(key_a.0, key_a.1, self.nodes[pa].value);
                proof {
                    assert(a.subrange(1, ca + 1) == as0.push(a[ca]));
                    assert(!has_cell(as0, n.row as int, n.col as int)) by {
                        if has_cell(as0, n.row as int, n.col as int) {
                            let i = choose|i: int| 0 <= i < as0.len() && #[trigger] as0[i].row == n.row && as0[i].col == n.col;
                            assert(as0[i] == a[i + 1]);
                            assert(node_lt(a[i + 1], a[ca]));
                        }
                    }
                    assert(!has_cell(bs0, n.row as int, n.col as int)) by {
                        if has_cell(bs0, n.row as int, n.col as int) {
                            let i = choose|i: int| 0 <= i < bs0.len() && #[trigger] bs0[i].row == n.row && bs0[i].col == n.col;
                            assert(bs0[i] == b[i + 1]);
                            assert(node_lt(b[i + 1], a[ca]));
                        }
                    }
                    assert(!has_cell(old_out, n.row as int, n.col as int)) by {
                        if has_cell(old_out, n.row as int, n.col as int) {
                            let i = choose|i: int| 0 <= i < old_out.len() && #[trigger] old_out[i].row == n.row && old_out[i].col == n.col;
                            assert(node_lt(old_out[i], a[ca]));
                        }
                    }
                    assert(row_sorted(as0.push(a[ca]))) by {
                        assert(as0.push(a[ca]) == self.entries().take(ca));
                    }
                    assert(row_sorted(old_out.push(n))) by {
                        assert forall|x: int, y: int| 0 <= x < y < old_out.len() + 1 implies rc_lt(
                            #[trigger] old_out.push(n)[x].row as int, old_out.push(n)[x].col as int,
                            #[trigger] old_out.push(n)[y].row as int, old_out.push(n)[y].col as int) by {
                            if y == old_out.len() {
                                assert(node_lt(old_out[x], a[ca]));
                            } else {
                                assert(old_out.push(n)[x] == old_out[x] && old_out.push(n)[y] == old_out[y]);
                            }
                        }
                    }
                }
                out.push(n);
                pa = self.nodes[pa].right;
                proof {
                    let nc = ca + 1;
                    lemma_merge_push_a(old_out, as0, bs0, n, a[ca]);
                    assert forall|j: int| 0 <= j < out@.len() implies (nc < la ==> node_lt(#[trigger] out@[j], a[nc])) && (cb < lb ==> node_lt(out@[j], b[cb])) by {
                        if j < old_out.len() {
                            assert(out@[j] == old_out[j]);
                            if nc < la {
                                assert(node_lt(a[ca], a[nc]));
                            }
                        } else {
                            if nc < la {
                                assert(node_lt(a[ca], a[nc]));
                            }
                        }
                    }
                    assert forall|j: int| 1 <= j < cb && nc < la implies node_lt(#[trigger] b[j], a[nc]) by {
                        if nc < la {
                            assert(node_lt(a[ca], a[nc]));
                        }
                    }
                    ca = nc;
                }
            } else if b_first {
                let n = MatrixNode::new(key_b.0, key_b.1, other.nodes[pb].value);
                proof {
                    assert(b.subrange(1, cb + 1) == bs0.push(b[cb]));
                    assert(!has_cell(bs0, n.row as int, n.col as int)) by {
                        if has_cell(bs0, n.row as int, n.col as int) {
                            let i = choose|i: int| 0 <= i < bs0.len() && #[trigger] bs0[i].row == n.row && bs0[i].col == n.col;
                            assert(bs0[i] == b[i + 1]);
                            assert(node_lt(b[i + 1], b[cb]));
                        }
                    }
                    assert(!has_cell(as0, n.row as int, n.col as int)) by {
                        if has_cell(as0, n.row as int, n.col as int) {
                            let i = choose|i: int| 0 <= i < as0.len() && #[trigger] as0[i].row == n.row && as0[i].col == n.col;
                            assert(as0[i] == a[i + 1]);
                            assert(node_lt(a[i + 1], b[cb]));
                        }
                    }
                    assert(!has_cell(old_out, n.row as int, n.col as int)) by {
                        if has_cell(old_out, n.row as int, n.col as int) {
                            let i = choose|i: int| 0 <= i < old_out.len() && #[trigger] old_out[i].row == n.row && old_out[i].col == n.col;
                            assert(node_lt(old_out[i], b[cb]));
                        }
                    }
                    assert(row_sorted(bs0.push(b[cb]))) by {
                        assert(bs0.push(b[cb]) == other.entries().take(cb));
                    }
                    assert(row_sorted(old_out.push(n))) by {
                        assert forall|x: int, y: int| 0 <= x < y < old_out.len() + 1 implies rc_lt(
                            #[trigger] old_out.push(n)[x].row as int, old_out.push(n)[x].col as int,
                            #[trigger] old_out.push(n)[y].row as int, old_out.push(n)[y].col as int) by {
                            if y == old_out.len() {
                                assert(node_lt(old_out[x], b[cb]));
                            } else {
                                assert(old_out.push(n)[x] == old_out[x] && old_out.push(n)[y] == old_out[y]);
                            }
                        }
                    }
                }
                out.push(n);
                pb = other.nodes[pb].right;
                proof {
                    let nc = cb + 1;
                    lemma_merge_push_b(old_out, as0, bs0, n, b[cb]);
                    assert forall|j: int| 0 <= j < out@.len() implies (ca < la ==> node_lt(#[trigger] out@[j], a[ca])) && (nc < lb ==> node_lt(out@[j], b[nc])) by {
                        if j < old_out.len() {
                            assert(out@[j] == old_out[j]);
                        }
                        if nc < lb {
                            assert(node_lt(b[cb], b[nc]));
                        }
                    }
                    assert forall|j: int| 1 <= j < ca && nc < lb implies node_lt(#[trigger] a[j], b[nc]) by {
                        if nc < lb {
                            assert(node_lt(b[cb], b[nc]));
                        }
                    }
                    cb = nc;
                }
            } else {
                let va = self.nodes[pa].value;
                let vb = other.nodes[pb].value;
                proof {
                    assert(a[ca].row == b[cb].row && a[ca].col == b[cb].col);
                    assert(self.entries()[ca - 1] == a[ca]);
                    assert(other.entries()[cb - 1] == b[cb]);
                    lemma_node_at_index(self.entries(), ca - 1);
                    lemma_node_at_index(other.entries(), cb - 1);
                    assert(i32::MIN <= self.at(a[ca].row as int, a[ca].col as int) + other.at(a[ca].row as int, a[ca].col as int) <= i32::MAX);
                }
                let sum = va + vb;
                let n = MatrixNode::new(key_a.0, key_a.1, sum);
                let ghost na = a[ca];
                let ghost nb = b[cb];
                proof {
                    assert(a.subrange(1, ca + 1) == as0.push(na));
                    assert(b.subrange(1, cb + 1) == bs0.push(nb));
                    assert(!has_cell(as0, n.row as int, n.col as int)) by {
                        if has_cell(as0, n.row as int, n.col as int) {
                            let i = choose|i: int| 0 <= i < as0.len() && #[trigger] as0[i].row == n.row && as0[i].col == n.col;
                            assert(as0[i] == a[i + 1]);
                            assert(node_lt(a[i + 1], a[ca]));
                        }
                    }
                    assert(!has_cell(bs0, n.row as int, n.col as int)) by {
                        if has_cell(bs0, n.row as int, n.col as int) {
                            let i = choose|i: int| 0 <= i < bs0.len() && #[trigger] bs0[i].row == n.row && bs0[i].col == n.col;
                            assert(bs0[i] == b[i + 1]);
                            assert(node_lt(b[i + 1], b[cb]));
                        }
                    }
                    assert(!has_cell(old_out, n.row as int, n.col as int)) by {
                        if has_cell(old_out, n.row as int, n.col as int) {
                            let i = choose|i: int| 0 <= i < old_out.len() && #[trigger] old_out[i].row == n.row && old_out[i].col == n.col;
                            assert(node_lt(old_out[i], a[ca]));
                        }
                    }
                    assert(row_sorted(as0.push(na))) by {
                        assert(as0.push(na) == self.entries().take(ca));
                    }
                    assert(row_sorted(bs0.push(nb))) by {
                        assert(bs0.push(nb) == other.entries().take(cb));
                    }
                    assert(row_sorted(old_out.push(n))) by {
                        assert forall|x: int, y: int| 0 <= x < y < old_out.len() + 1 implies rc_lt(
                            #[trigger] old_out.push(n)[x].row as int, old_out.push(n)[x].col as int,
                            #[trigger] old_out.push(n)[y].row as int, old_out.push(n)[y].col as int) by {
                            if y == old_out.len() {
                                assert(node_lt(old_out[x], a[ca]));
                            } else {
                                assert(old_out.push(n)[x] == old_out[x] && old_out.push(n)[y] == old_out[y]);
                            }
                        }
                    }
                }
                if sum != 0 {
                    out.push(n);
                }
                pa = self.nodes[pa].right;
                pb = other.nodes[pb].right;
                proof {
                    let nca = ca + 1;
                    let ncb = cb + 1;
                    assert(na.value == va && nb.value == vb && n.value == sum);
                    lemma_merge_both(old_out, as0, bs0, n, na, nb);
                    if sum != 0 {
                        assert(out@ == old_out.push(n));
                    } else {
                        assert(out@ == old_out);
                    }
                    assert forall|j: int| 0 <= j < out@.len() implies (nca < la ==> node_lt(#[trigger] out@[j], a[nca])) && (ncb < lb ==> node_lt(out@[j], b[ncb])) by {
                        if j < old_out.len() {
                            assert(out@[j] == old_out[j]);
                        }
                        if nca < la {
                            assert(node_lt(a[ca], a[nca]));
                        }
                        if ncb < lb {
                            assert(node_lt(b[cb], b[ncb]));
                        }
                    }
                    assert forall|j: int| 1 <= j < nca && ncb < lb implies node_lt(#[trigger] a[j], b[ncb]) by {
                        if ncb < lb {
                            assert(node_lt(b[cb], b[ncb]));
                            if j < ca {
                                assert(node_lt(a[j], a[ca]));
                            }
                        }
                    }
                    assert forall|j: int| 1 <= j < ncb && nca < la implies node_lt(#[trigger] b[j], a[nca]) by {
                        if nca < la {
                            assert(node_lt(a[ca], a[nca]));
                            if j < cb {
                                assert(node_lt(b[j], b[cb]));
                            }
                        }
                    }
                    ca = nca;
                    cb = ncb;
                }
            }
        }
        let m = SparseMatrix::assemble(rows, cols, &out);
        proof {
            assert(a.subrange(1, ca) == self.entries());
            assert(b.subrange(1, cb) == other.entries());
            assert forall|i: int, j: int| #[trigger] m.at(i, j) == self.at(i, j) + other.at(i, j) by {
                lemma_same_cells_at(out@, m.entries(), i, j);
                assert(node_at(out@, i, j) == node_at(a.subrange(1, ca), i, j) + node_at(b.subrange(1, cb), i, j)
                    && has_cell(out@, i, j) == sum_kept(a.subrange(1, ca), b.subrange(1, cb), i, j));
            }
            assert forall|i: int, j: int| #[trigger] m.has(i, j) == sum_kept(self.entries(), other.entries(), i, j) by {
                lemma_same_cells_has(out@, m.entries(), i, j);
                assert(node_at(out@, i, j) == node_at(a.subrange(1, ca), i, j) + node_at(b.subrange(1, cb), i, j)
                    && has_cell(out@, i, j) == sum_kept(a.subrange(1, ca), b.subrange(1, cb), i, j));
            }
        }
        Ok(m)
    }

    /// The first `m` terms of the dot product of row `i` of `a` with column `j`
    /// of `b`: the sum over `k` in `1..=m` of `a(i, k) * b(k, j)`.
    pub open spec fn dot(a: SparseMatrix, b: SparseMatrix, i: int, j: int, m: int) -> int
        decreases m,
    {
        if m <= 0 {
            0
        } else {
            SparseMatrix::dot(a, b, i, j, m - 1) + a.at(i, m) * b.at(m, j)
        }
    }

    /// Cell `(i, j)` of the product of `a` and `b`.
    pub open spec fn product_at(a: SparseMatrix, b: SparseMatrix, i: int, j: int) -> int {
        SparseMatrix::dot(a, b, i, j, b.rows())
    }

    proof fn lemma_dot_flat(a: SparseMatrix, b: SparseMatrix, i: int, j: int, m1: int, m2: int)
        requires
            m1 <= m2,
            forall|k: int| m1 < k <= m2 ==> #[trigger] b.at(k, j) == 0,
        ensures
            SparseMatrix::dot(a, b, i, j, m2) == SparseMatrix::dot(a, b, i, j, m1),
        decreases m2 - m1,
    {
        if m1 < m2 {
            SparseMatrix::lemma_dot_flat(a, b, i, j, m1, m2 - 1);
            assert(b.at(m2, j) == 0);
            if m2 > 0 {
                assert(a.at(i, m2) * b.at(m2, j) == 0);
            }
        }
    }

    proof fn lemma_dot_zero_row(a: SparseMatrix, b: SparseMatrix, i: int, j: int, m: int)
        requires
            forall|k: int| #[trigger] a.at(i, k) == 0,
        ensures
            SparseMatrix::dot(a, b, i, j, m) == 0,
        decreases m,
    {
        if m > 0 {
            SparseMatrix::lemma_dot_zero_row(a, b, i, j, m - 1);
            assert(a.at(i, m) == 0);
            assert(a.at(i, m) * b.at(m, j) == 0);
        }
    }

    /// The value at a stored position is what `at` reads at its cell.
    proof fn lemma_at_index(self, x: int)
        requires
            self.wf(),
            1 <= x < self.nodes@.len(),
        ensures
            self.at(self.nodes@[x].row as int, self.nodes@[x].col as int) == self.nodes@[x].value,
            self.has(self.nodes@[x].row as int, self.nodes@[x].col as int),
    {
        assert(self.entries()[x - 1] == self.nodes@[x]);
        lemma_node_at_index(self.entries(), x - 1);
    }

    /// A cell that no stored position holds reads 0.
    proof fn lemma_at_absent(self, r: int, c: int)
        requires
            self.wf(),
            forall|x: int| 1 <= x < self.nodes@.len() ==> !(#[trigger] self.nodes@[x].row == r && self.nodes@[x].col == c),
        ensures
            self.at(r, c) == 0,
            !self.has(r, c),
    {
        if has_cell(self.entries(), r, c) {
            let q = choose|q: int| 0 <= q < self.entries().len() && #[trigger] self.entries()[q].row == r && self.entries()[q].col == c;
            assert(self.entries()[q] == self.nodes@[q + 1]);
        }
    }

    /// A nonzero cell is held by some stored position.
    proof fn lemma_at_nonzero(self, r: int, c: int)
        requires
            self.wf(),
            self.at(r, c) != 0,
        ensures
            exists|x: int| 1 <= x < self.nodes@.len() && #[trigger] self.nodes@[x].row == r && self.nodes@[x].col == c,
    {
        if !(exists|x: int| 1 <= x < self.nodes@.len() && #[trigger] self.nodes@[x].row == r && self.nodes@[x].col == c) {
            self.lemma_at_absent(r, c);
        }
    }

    /// No stored position holds a cell that lies strictly between positions
    /// `prev` and `p` of the column list.
    proof fn lemma_col_gap(self, prev: int, p: int, r: int, c: int)
        requires
            self.wf(),
            0 <= prev < self.nodes@.len(),
            p == self.nodes@[prev].down,
            prev == 0 || rc_lt(self.nodes@[prev].col as int, self.nodes@[prev].row as int, c, r),
            p == 0 || rc_lt(c, r, self.nodes@[p].col as int, self.nodes@[p].row as int),
        ensures
            self.at(r, c) == 0,
    {
        let ks = keys(self.nodes@);
        assert(down_ok(ks, prev, p));
        assert forall|x: int| 1 <= x < self.nodes@.len() implies !(#[trigger] self.nodes@[x].row == r && self.nodes@[x].col == c) by {
            if self.nodes@[x].row == r && self.nodes@[x].col == c {
                assert(ks[x] == (self.nodes@[x].row, self.nodes@[x].col));
                assert(ks[prev] == (self.nodes@[prev].row, self.nodes@[prev].col));
                assert(col_after(ks, prev, x));
                if p != 0 {
                    assert(ks[p] == (self.nodes@[p].row, self.nodes@[p].col));
                }
            }
        }
        self.lemma_at_absent(r, c);
    }

    proof fn lemma_dot_nonzero(a: SparseMatrix, b: SparseMatrix, i: int, j: int, m: int)
        requires
            SparseMatrix::dot(a, b, i, j, m) != 0,
        ensures
            exists|k: int| 1 <= k <= m && #[trigger] a.at(i, k) != 0 && b.at(k, j) != 0,
        decreases m,
    {
        if m > 0 {
            if SparseMatrix::dot(a, b, i, j, m - 1) != 0 {
                SparseMatrix::lemma_dot_nonzero(a, b, i, j, m - 1);
            } else {
                assert(a.at(i, m) * b.at(m, j) != 0);
                assert(a.at(i, m) != 0 && b.at(m, j) != 0) by (nonlinear_arith)
                    requires a.at(i, m) * b.at(m, j) != 0;
            }
        }
    }

    /// The entries of row `i` sit at positions `s..e` and nowhere else.
    pub closed spec fn row_group(self, i: int, s: int, e: int) -> bool {
        &&& 1 <= s < e <= self.nodes@.len()
        &&& forall|x: int| 1 <= x < self.nodes@.len() ==> (#[trigger] self.nodes@[x].row == i <==> s <= x < e)
    }

    /// The value of cell `(i, k)`, read from the entries of row `i` at positions `s..e`.
    fn row_entry(&self, i: usize, s: usize, e: usize, k: usize) -> (r: i32)
        requires
            self.wf(),
            self.row_group(i as int, s as int, e as int),
        ensures
            r == self.at(i as int, k as int),
    {
        let mut q: usize = s;
        while q < e
            invariant
                self.wf(),
                self.row_group(i as int, s as int, e as int),
                s <= q <= e,
                forall|x: int| s <= x < q ==> #[trigger] self.nodes@[x].col != k,
            decreases e - q,
        {
            if self.nodes[q].col == k {
                proof {
                    self.lemma_at_index(q as int);
                }
                return self.nodes[q].value;
            }
            q = q + 1;
        }
        proof {
            assert forall|x: int| 1 <= x < self.nodes@.len() implies !(#[trigger] self.nodes@[x].row == i && self.nodes@[x].col == k) by {
                if self.nodes@[x].row == i {
                    assert(s <= x < e);
                }
            }
            self.lemma_at_absent(i as int, k as int);
        }
        0
    }

    /// Sweeps the whole column list of `other` against row `i` of `self`, whose
    /// entries sit at positions `s..e`, and appends `(i, j, value)` for each
    /// column `j` whose product cell is not 0, in increasing column order.
    #[verifier::rlimit(100)]
    fn row_times(&self, other: &SparseMatrix, i: usize, s: usize, e: usize, out: &mut Vec<(usize, usize, i32)>)
        requires
            self.wf(),
            other.wf(),
            self.cols() == other.rows(),
            self.row_group(i as int, s as int, e as int),
            forall|x: int, y: int, m: int|
                0 <= m <= other.rows() ==> i32::MIN <= #[trigger] SparseMatrix::dot(*self, *other, x, y, m) <= i32::MAX,
        ensures
            final(out)@.len() >= old(out)@.len(),
            final(out)@.len() - old(out)@.len() <= other.nnz(),
            final(out)@.subrange(0, old(out)@.len() as int) == old(out)@,
            forall|q: int|
                old(out)@.len() <= q < final(out)@.len() ==> (#[trigger] final(out)@[q]).0 == i && 1 <= final(out)@[q].1
                    <= other.cols() && final(out)@[q].2 == SparseMatrix::product_at(*self, *other, i as int, final(out)@[q].1 as int)
                    && final(out)@[q].2 != 0,
            forall|q1: int, q2: int|
                old(out)@.len() <= q1 < q2 < final(out)@.len() ==> (#[trigger] final(out)@[q1]).1 < (#[trigger] final(out)@[q2]).1,
            forall|j: int|
                1 <= j && #[trigger] SparseMatrix::product_at(*self, *other, i as int, j) != 0 ==> exists|q: int|
                    old(out)@.len() <= q < final(out)@.len() && #[trigger] final(out)@[q].1 == j,
    {
        let ghost b = other.nodes@;
        let ghost ks = keys(b);
        let ghost lb = b.len() as int;
        let ghost rb = other.rows();
        let ghost start = out@;
        let ghost n0 = out@.len() as int;
        let mut p: usize = other.nodes[0].down;
        let ghost mut prev: int = 0;
        let mut cur_col: usize = 0;
        let mut acc: i32 = 0;
        let mut started = false;
        let ghost mut visits: int = 0;
        proof {
            lemma_later_bounded(ks, 0);
            other.lemma_store();
            assert(other.entries().len() == lb - 1);
        }
        while p != 0
            invariant
                self.wf(),
                other.wf(),
                self.cols() == other.rows(),
                self.row_group(i as int, s as int, e as int),
                forall|x: int, y: int, m: int|
                    0 <= m <= other.rows() ==> i32::MIN <= #[trigger] SparseMatrix::dot(*self, *other, x, y, m) <= i32::MAX,
                b == other.nodes@,
                ks == keys(b),
                lb == b.len(),
                rb == other.rows(),
                other.nnz() == lb - 1,
                forall|x: int| 1 <= x < lb ==> 1 <= #[trigger] b[x].row <= rb && 1 <= b[x].col <= other.cols(),
                0 <= prev < lb,
                p == b[prev].down,
                started == (prev != 0),
                prev == 0 ==> cur_col == 0 && acc == 0 && out@.len() == n0,
                prev != 0 ==> cur_col == b[prev].col && acc == SparseMatrix::dot(*self, *other, i as int, cur_col as int, b[prev].row as int),
                0 <= n0 <= out@.len(),
                out@.subrange(0, n0) == start,
                forall|q: int|
                    n0 <= q < out@.len() ==> (#[trigger] out@[q]).0 == i && 1 <= out@[q].1 < cur_col && out@[q].1 <= other.cols()
                        && out@[q].2 == SparseMatrix::product_at(*self, *other, i as int, out@[q].1 as int) && out@[q].2 != 0,
                forall|q1: int, q2: int| n0 <= q1 < q2 < out@.len() ==> (#[trigger] out@[q1]).1 < (#[trigger] out@[q2]).1,
                forall|j: int|
                    1 <= j < cur_col && #[trigger] SparseMatrix::product_at(*self, *other, i as int, j) != 0 ==> exists|q: int|
                        n0 <= q < out@.len() && #[trigger] out@[q].1 == j,
                later(ks, prev).finite(),
                out@.len() - n0 + (if started { 1int } else { 0int }) <= visits,
                visits + later(ks, prev).len() <= lb - 1,
            decreases later(ks, prev).len(),
        {
            proof {
                assert(down_ok(ks, prev, p as int));
                assert(ks[p as int] == (b[p as int].row, b[p as int].col));
                assert(ks[prev] == (b[prev].row, b[prev].col));
            }
            let col = other.nodes[p].col;
            let row = other.nodes[p].row;
            if !started || col != cur_col {
                let ghost old_col = cur_col as int;
                let ghost old_out = out@;
                if acc != 0 {
                    proof {
                        assert forall|k: int| b[prev].row < k <= rb implies #[trigger] other.at(k, old_col) == 0 by {
                            other.lemma_col_gap(prev, p as int, k, old_col);
                        }
                        SparseMatrix::lemma_dot_flat(*self, *other, i as int, old_col, b[prev].row as int, rb);
                    }
                    out.push((i, cur_col, acc));
                    proof {
                        assert(out@ == old_out.push((i, old_col as usize, acc)));
                        lemma_push_prefix(old_out, (i, old_col as usize, acc), n0);
                    }
                }
                proof {
                    assert forall|j: int|
                        1 <= j < col && #[trigger] SparseMatrix::product_at(*self, *other, i as int, j) != 0 implies exists|q: int|
                            n0 <= q < out@.len() && #[trigger] out@[q].1 == j by {
                        if j < old_col {
                            let q = choose|q: int| n0 <= q < old_out.len() && #[trigger] old_out[q].1 == j;
                            assert(out@[q] == old_out[q]);
                        } else if j == old_col {
                            if prev == 0 {
                            } else {
                                assert forall|k: int| b[prev].row < k <= rb implies #[trigger] other.at(k, old_col) == 0 by {
                                    other.lemma_col_gap(prev, p as int, k, old_col);
                                }
                                SparseMatrix::lemma_dot_flat(*self, *other, i as int, old_col, b[prev].row as int, rb);
                                assert(out@[out@.len() - 1].1 == j);
                            }
                        } else {
                            assert forall|k: int| 0 < k <= rb implies #[trigger] other.at(k, j) == 0 by {
                                other.lemma_col_gap(prev, p as int, k, j);
                            }
                            SparseMatrix::lemma_dot_flat(*self, *other, i as int, j, 0, rb);
                        }
                    }
                    assert forall|k: int| 0 < k <= row - 1 implies #[trigger] other.at(k, col as int) == 0 by {
                        other.lemma_col_gap(prev, p as int, k, col as int);
                    }
                    SparseMatrix::lemma_dot_flat(*self, *other, i as int, col as int, 0, row - 1);
                }
                acc = 0;
                cur_col = col;
                started = true;
            } else {
                proof {
                    assert forall|k: int| b[prev].row < k <= row - 1 implies #[trigger] other.at(k, col as int) == 0 by {
                        other.lemma_col_gap(prev, p as int, k, col as int);
                    }
                    SparseMatrix::lemma_dot_flat(*self, *other, i as int, col as int, b[prev].row as int, row - 1);
                }
            }
            let v = other.nodes[p].value;
            let av = self.row_entry(i, s, e, row);
            proof {
                other.lemma_at_index(p as int);
                lemma_mul_i32(av as int, v as int);
                assert(SparseMatrix::dot(*self, *other, i as int, col as int, row as int)
                    == acc + av * v);
                assert(i32::MIN <= SparseMatrix::dot(*self, *other, i as int, col as int, row as int) <= i32::MAX);
            }
            acc = ((acc as i64) + (av as i64) * (v as i64)) as i32;
            proof {
                lemma_later_step(ks, prev, p as int);
                lemma_later_bounded(ks, p as int);
                prev = p as int;
                visits = visits + 1;
            }
            p = other.nodes[p].down;
        }
        let ghost old_out = out@;
        let ghost old_col = cur_col as int;
        if acc != 0 {
            proof {
                assert forall|k: int| b[prev].row < k <= rb implies #[trigger] other.at(k, old_col) == 0 by {
                    other.lemma_col_gap(prev, 0, k, old_col);
                }
                SparseMatrix::lemma_dot_flat(*self, *other, i as int, old_col, b[prev].row as int, rb);
            }
            out.push((i, cur_col, acc));
            proof {
                assert(out@ == old_out.push((i, old_col as usize, acc)));
                lemma_push_prefix(old_out, (i, old_col as usize, acc), n0);
            }
        }
        proof {
            assert forall|j: int|
                1 <= j && #[trigger] SparseMatrix::product_at(*self, *other, i as int, j) != 0 implies exists|q: int|
                    n0 <= q < out@.len() && #[trigger] out@[q].1 == j by {
                if j < old_col {
                    let q = choose|q: int| n0 <= q < old_out.len() && #[trigger] old_out[q].1 == j;
                    assert(out@[q] == old_out[q]);
                } else if j == old_col && prev != 0 {
                    assert forall|k: int| b[prev].row < k <= rb implies #[trigger] other.at(k, old_col) == 0 by {
                        other.lemma_col_gap(prev, 0, k, old_col);
                    }
                    SparseMatrix::lemma_dot_flat(*self, *other, i as int, old_col, b[prev].row as int, rb);
                    assert(out@[out@.len() - 1].1 == j);
                } else {
                    assert forall|k: int| 0 < k <= rb implies #[trigger] other.at(k, j) == 0 by {
                        other.lemma_col_gap(prev, 0, k, j);
                    }
                    SparseMatrix::lemma_dot_flat(*self, *other, i as int, j, 0, rb);
                }
            }
        }
    }

    /// Multiplies `self` by `other`. Each non-empty row of `self` is swept
    /// against the whole column list of `other`; the cells whose sum is not 0
    /// become the triplets of the product. Fails where the number of columns
    /// of `self` differs from the number of rows of `other`.
    pub fn multiply(&self, other: &SparseMatrix) -> (r: Result<SparseMatrix, MatrixError>)
        requires
            self.wf(),
            other.wf(),
            forall|x: int, y: int, m: int|
                0 <= m <= other.rows() ==> i32::MIN <= #[trigger] SparseMatrix::dot(*self, *other, x, y, m) <= i32::MAX,
            self.nnz() * other.nnz() + 1 < usize::MAX,
        ensures
            self.cols() != other.rows() ==> r == Err::<SparseMatrix, MatrixError>(MatrixError::DimensionMismatch),
            self.cols() == other.rows() ==> r is Ok,
            r matches Ok(m) ==> m.wf() && m.rows() == self.rows() && m.cols() == other.cols()
                && (forall|i: int, j: int| #[trigger] m.at(i, j) == SparseMatrix::product_at(*self, *other, i, j))
                && (forall|i: int, j: int| #[trigger] m.has(i, j) == (SparseMatrix::product_at(*self, *other, i, j) != 0)),
    {
        let (ra, ca) = self.dims();
        let (rb, cb) = other.dims();
        if ca != rb {
            return Err(MatrixError::DimensionMismatch);
        }
        let ghost a = self.nodes@;
        let ghost nb = other.nnz() as int;
        let la = self.nodes.len();
        proof {
            self.lemma_store();
            other.lemma_store();
        }
        let mut triplets: Vec<(usize, usize, i32)> = Vec::new();
        let mut s: usize = 1;
        while s < la
            invariant
                self.wf(),
                other.wf(),
                ca == rb,
                ra == self.rows() && ca == self.cols() && rb == other.rows() && cb == other.cols(),
                forall|x: int, y: int, m: int|
                    0 <= m <= other.rows() ==> i32::MIN <= #[trigger] SparseMatrix::dot(*self, *other, x, y, m) <= i32::MAX,
                self.nnz() * other.nnz() + 1 < usize::MAX,
                a == self.nodes@,
                la == a.len(),
                nb == other.nnz(),
                self.nnz() == la - 1,
                forall|x: int, y: int| 1 <= x < y < la ==> node_lt(#[trigger] a[x], #[trigger] a[y]),
                forall|x: int| 1 <= x < la ==> 1 <= #[trigger] a[x].row <= ra && 1 <= a[x].col <= ca,
                1 <= s <= la,
                s < la && s > 1 ==> a[s - 1].row < a[s as int].row,
                forall|q: int|
                    0 <= q < triplets@.len() ==> 1 <= (#[trigger] triplets@[q]).0 <= ra && 1 <= triplets@[q].1 <= cb
                        && triplets@[q].2 == SparseMatrix::product_at(*self, *other, triplets@[q].0 as int, triplets@[q].1 as int)
                        && triplets@[q].2 != 0 && (s < la ==> triplets@[q].0 < a[s as int].row),
                triplets_distinct(triplets@),
                forall|x: int, j: int|
                    1 <= x < s && 1 <= j && #[trigger] SparseMatrix::product_at(*self, *other, a[x].row as int, j) != 0
                        ==> exists|q: int| 0 <= q < triplets@.len() && #[trigger] triplets@[q] == (a[x].row, j as usize, triplets@[q].2),
                triplets@.len() <= (s - 1) * nb,
            decreases la - s,
        {
            let i = self.nodes[s].row;
            let mut e: usize = s + 1;
            while e < la && self.nodes[e].row == i
                invariant
                    s < e <= la,
                    la == a.len(),
                    a == self.nodes@,
                    forall|x: int| s <= x < e ==> #[trigger] a[x].row == i,
                decreases la - e,
            {
                e = e + 1;
            }
            proof {
                assert forall|x: int| 1 <= x < la implies (#[trigger] a[x].row == i <==> s <= x < e) by {
                    if x < s {
                        if x < s - 1 {
                            assert(node_lt(a[x], a[s - 1]));
                        }
                    } else if x >= e {
                        assert(node_lt(a[e as int - 1], a[e as int]));
                        if x > e {
                            assert(node_lt(a[e as int], a[x]));
                        }
                    }
                }
                assert(self.row_group(i as int, s as int, e as int));
            }
            let ghost before = triplets@;
            self.row_times(other, i, s, e, &mut triplets);
            proof {
                let n0 = before.len() as int;
                assert forall|q: int| 0 <= q < n0 implies #[trigger] triplets@[q] == before[q] by {
                    assert(triplets@.subrange(0, n0)[q] == triplets@[q]);
                }
                assert(triplets@.len() <= (e - 1) * nb) by (nonlinear_arith)
                    requires
                        triplets@.len() <= n0 + nb,
                        n0 <= (s - 1) * nb,
                        e >= s + 1,
                        nb >= 0,
                ;
                assert forall|q: int| 0 <= q < triplets@.len() implies 1 <= (#[trigger] triplets@[q]).0 <= ra && 1 <= triplets@[q].1 <= cb
                    && triplets@[q].2 == SparseMatrix::product_at(*self, *other, triplets@[q].0 as int, triplets@[q].1 as int)
                    && triplets@[q].2 != 0 && (e < la ==> triplets@[q].0 < a[e as int].row) by {
                    if e < la {
                        assert(node_lt(a[e as int - 1], a[e as int]));
                    }
                    if q < n0 {
                        assert(triplets@[q] == before[q]);
                    } else {
                        assert(1 <= i <= ra);
                    }
                }
                assert forall|q1: int, q2: int| 0 <= q1 < q2 < triplets@.len() implies !(#[trigger] triplets@[q1].0 == #[trigger] triplets@[q2].0
                    && triplets@[q1].1 == triplets@[q2].1) by {
                    if q2 < n0 {
                        assert(triplets@[q1] == before[q1] && triplets@[q2] == before[q2]);
                    } else if q1 < n0 {
                        assert(triplets@[q1] == before[q1]);
                    }
                }
                assert forall|x: int, j: int|
                    1 <= x < e && 1 <= j && #[trigger] SparseMatrix::product_at(*self, *other, a[x].row as int, j) != 0
                    implies exists|q: int| 0 <= q < triplets@.len() && #[trigger] triplets@[q] == (a[x].row, j as usize, triplets@[q].2) by {
                    if x < s {
                        let q = choose|q: int| 0 <= q < before.len() && #[trigger] before[q] == (a[x].row, j as usize, before[q].2);
                        assert(triplets@[q] == before[q]);
                    } else {
                        assert(a[x].row == i);
                        let q = choose|q: int| n0 <= q < triplets@.len() && #[trigger] triplets@[q].1 == j;
                        assert(triplets@[q] == (a[x].row, j as usize, triplets@[q].2));
                    }
                }
            }
            s = e;
        }
        proof {
            assert(triplets@.len() <= self.nnz() * other.nnz());
        }
        let ghost t = triplets@;
        match SparseMatrix::from_triplets(ra, cb, triplets) {
            Ok(m) => {
                proof {
                    assert forall|i: int, j: int| #[trigger] m.at(i, j) == SparseMatrix::product_at(*self, *other, i, j) by {
                        let v = SparseMatrix::product_at(*self, *other, i, j);
                        if exists|q: int| 0 <= q < t.len() && #[trigger] t[q].0 == i && t[q].1 == j {
                            let q = choose|q: int| 0 <= q < t.len() && #[trigger] t[q].0 == i && t[q].1 == j;
                            lemma_triplet_at_index(t, q);
                        } else if v != 0 {
                            SparseMatrix::lemma_dot_nonzero(*self, *other, i, j, other.rows());
                            let k = choose|k: int| 1 <= k <= other.rows() && #[trigger] self.at(i, k) != 0 && other.at(k, j) != 0;
                            self.lemma_at_nonzero(i, k);
                            other.lemma_at_nonzero(k, j);
                            let x = choose|x: int| 1 <= x < self.nodes@.len() && #[trigger] self.nodes@[x].row == i && self.nodes@[x].col == k;
                            let y = choose|y: int| 1 <= y < other.nodes@.len() && #[trigger] other.nodes@[y].row == k && other.nodes@[y].col == j;
                            assert(1 <= other.nodes@[y].col);
                            let q = choose|q: int| 0 <= q < t.len() && #[trigger] t[q] == (a[x].row, j as usize, t[q].2);
                            assert(t[q].0 == i && t[q].1 == j);
                        }
                    }
                    assert forall|i: int, j: int| #[trigger] m.has(i, j) == (SparseMatrix::product_at(*self, *other, i, j) != 0) by {
                        assert(m.at(i, j) == SparseMatrix::product_at(*self, *other, i, j));
                        if names_cell(t, i, j) {
                            let q = choose|q: int| 0 <= q < t.len() && #[trigger] t[q].0 == i && t[q].1 == j;
                            lemma_triplet_at_index(t, q);
                        }
                    }
                }
                Ok(m)
            },
            Err(e) => Err(e),
        }
    }

    /// The dense view: `rows` rows of `cols` values, cell `(r, c)` at `[r - 1][c - 1]`.
    pub open spec fn grid(self) -> Seq<Seq<int>> {
        Seq::new(self.rows() as nat, |i: int| Seq::new(self.cols() as nat, |j: int| self.at(i + 1, j + 1)))
    }

    /// The dense rows of the matrix, each value in its cell and 0 elsewhere.
    /// The row list is walked once: its cursor moves on only when it stands
    /// at the cell being filled.
    pub fn to_dense(&self) -> (d: Vec<Vec<i32>>)
        requires
            self.wf(),
        ensures
            d@.len() == self.rows(),
            forall|i: int| 0 <= i < d@.len() ==> (#[trigger] d@[i])@.len() == self.cols(),
            forall|i: int, j: int|
                0 <= i < self.rows() && 0 <= j < self.cols() ==> (#[trigger] d@[i]@[j]) as int == self.grid()[i][j],
    {
        let (rows, cols) = self.dims();
        let ghost a = self.nodes@;
        let ghost la = a.len() as int;
        proof {
            self.lemma_store();
        }
        let mut d: Vec<Vec<i32>> = Vec::new();
        let mut p: usize = self.nodes[0].right;
        let ghost mut cur: int = 1;
        let mut ri: usize = 0;
        while ri < rows
            invariant
                self.wf(),
                a == self.nodes@,
                la == a.len(),
                rows == self.rows() && cols == self.cols(),
                forall|x: int, y: int| 1 <= x < y < la ==> node_lt(#[trigger] a[x], #[trigger] a[y]),
                forall|x: int| 1 <= x < la ==> 1 <= #[trigger] a[x].row <= rows && 1 <= a[x].col <= cols,
                ri <= rows,
                1 <= cur <= la,
                p == (if cur < la { cur } else { 0 }),
                forall|x: int| 1 <= x < cur ==> (#[trigger] a[x]).row <= ri,
                forall|x: int| cur <= x < la ==> (#[trigger] a[x]).row > ri,
                d@.len() == ri,
                forall|i: int| 0 <= i < ri ==> (#[trigger] d@[i])@.len() == cols,
                forall|i: int, j: int| 0 <= i < ri && 0 <= j < cols ==> (#[trigger] d@[i]@[j]) as int == self.at(i + 1, j + 1),
            decreases rows - ri,
        {
            let r = ri + 1;
            let mut line: Vec<i32> = Vec::new();
            let mut ci: usize = 0;
            while ci < cols
                invariant
                    self.wf(),
                    a == self.nodes@,
                    la == a.len(),
                    rows == self.rows() && cols == self.cols(),
                    forall|x: int, y: int| 1 <= x < y < la ==> node_lt(#[trigger] a[x], #[trigger] a[y]),
                    forall|x: int| 1 <= x < la ==> 1 <= #[trigger] a[x].row <= rows && 1 <= a[x].col <= cols,
                    r == ri + 1,
                    ri < rows,
                    ci <= cols,
                    1 <= cur <= la,
                    p == (if cur < la { cur } else { 0 }),
                    forall|x: int| 1 <= x < cur ==> rc_lt((#[trigger] a[x]).row as int, a[x].col as int, r as int, ci + 1),
                    forall|x: int| cur <= x < la ==> !rc_lt((#[trigger] a[x]).row as int, a[x].col as int, r as int, ci + 1),
                    line@.len() == ci,
                    forall|j: int| 0 <= j < ci ==> (#[trigger] line@[j]) as int == self.at(r as int, j + 1),
                decreases cols - ci,
            {
                let c = ci + 1;
                let mut val: i32 = 0;
                if p != 0 && self.nodes[p].row == r && self.nodes[p].col == c {
                    val = self.nodes[p].value;
                    proof {
                        self.lemma_at_index(p as int);
                    }
                    p = self.nodes[p].right;
                    proof {
                        cur = cur + 1;
                    }
                } else {
                    proof {
                        assert forall|x: int| 1 <= x < la implies !(#[trigger] a[x].row == r && a[x].col == c) by {
                            if x > cur {
                                assert(node_lt(a[cur], a[x]));
                            }
                        }
                        self.lemma_at_absent(r as int, c as int);
                    }
                }
                line.push(val);
                proof {
                    assert forall|x: int| cur <= x < la implies !rc_lt((#[trigger] a[x]).row as int, a[x].col as int, r as int, c + 1) by {
                        if x > cur {
                            assert(node_lt(a[cur], a[x]));
                        }
                    }
                }
                ci = ci + 1;
            }
            proof {
                assert forall|x: int| cur <= x < la implies (#[trigger] a[x]).row > r by {
                    assert(!rc_lt(a[x].row as int, a[x].col as int, r as int, cols + 1));
                }
            }
            d.push(line);
            ri = ri + 1;
        }
        d
    }
}

/// Round trip: a matrix built from triplets that lie inside it and name
/// distinct cells renders densely with each triplet's value at its cell and 0
/// at every cell that no triplet names.
pub proof fn round_trip(rows: usize, cols: usize, t: Seq<(usize, usize, i32)>, m: SparseMatrix)
    requires
        triplets_in_bounds(t, rows as int, cols as int),
        triplets_distinct(t),
        m.wf(),
        m.rows() == rows,
        m.cols() == cols,
        forall|i: int, j: int| m.at(i, j) == triplet_at(t, i, j),
    ensures
        m.grid().len() == rows,
        forall|i: int| 0 <= i < rows ==> (#[trigger] m.grid()[i]).len() == cols,
        forall|q: int| 0 <= q < t.len() ==> m.grid()[(#[trigger] t[q]).0 - 1][t[q].1 - 1] == t[q].2,
        forall|i: int, j: int|
            0 <= i < rows && 0 <= j < cols && !(exists|q: int| 0 <= q < t.len() && #[trigger] t[q].0 == i + 1 && t[q].1 == j + 1)
                ==> #[trigger] m.grid()[i][j] == 0,
{
    assert forall|q: int| 0 <= q < t.len() implies m.grid()[(#[trigger] t[q]).0 - 1][t[q].1 - 1] == t[q].2 by {
        lemma_triplet_at_index(t, q);
    }
}

/// Addition commutes: `a + b` and `b + a` have the same dense view.
pub proof fn add_commutes(a: SparseMatrix, b: SparseMatrix, ab: SparseMatrix, ba: SparseMatrix)
    requires
        a.rows() == b.rows() && a.cols() == b.cols(),
        ab.rows() == a.rows() && ab.cols() == a.cols(),
        ba.rows() == b.rows() && ba.cols() == b.cols(),
        forall|i: int, j: int| #[trigger] ab.at(i, j) == a.at(i, j) + b.at(i, j),
        forall|i: int, j: int| #[trigger] ba.at(i, j) == b.at(i, j) + a.at(i, j),
    ensures
        ab.grid() == ba.grid(),
{
    assert forall|i: int| 0 <= i < ab.rows() implies #[trigger] ab.grid()[i] == ba.grid()[i] by {
        assert(ab.grid()[i] =~= ba.grid()[i]);
    }
    assert(ab.grid() =~= ba.grid());
}

/// Adding a matrix to itself doubles every cell.
pub proof fn add_doubles(a: SparseMatrix, s: SparseMatrix)
    requires
        forall|i: int, j: int| #[trigger] s.at(i, j) == a.at(i, j) + a.at(i, j),
    ensures
        forall|i: int, j: int| #[trigger] s.at(i, j) == 2 * a.at(i, j),
{
}

/// Where both operands hold an entry at `(r, c)` and the two values cancel,
/// the sum holds no entry there and reads 0.
pub proof fn add_cancels(a: SparseMatrix, b: SparseMatrix, s: SparseMatrix, r: int, c: int)
    requires
        a.has(r, c),
        b.has(r, c),
        a.at(r, c) + b.at(r, c) == 0,
        forall|i: int, j: int| #[trigger] s.at(i, j) == a.at(i, j) + b.at(i, j),
        forall|i: int, j: int|
            #[trigger] s.has(i, j) == ((a.has(i, j) || b.has(i, j)) && !(a.has(i, j) && b.has(i, j) && a.at(i, j)
                + b.at(i, j) == 0)),
    ensures
        !s.has(r, c),
        s.at(r, c) == 0,
{
    assert(s.has(r, c) == ((a.has(r, c) || b.has(r, c)) && !(a.has(r, c) && b.has(r, c) && a.at(r, c) + b.at(r, c) == 0)));
    assert(s.at(r, c) == a.at(r, c) + b.at(r, c));
}

proof fn lemma_push_prefix<T>(s: Seq<T>, x: T, n: int)
    requires
        0 <= n <= s.len(),
    ensures
        s.push(x).subrange(0, n) == s.subrange(0, n),
        forall|q: int| 0 <= q < s.len() ==> #[trigger] s.push(x)[q] == s[q],
{
    assert(s.push(x).subrange(0, n) =~= s.subrange(0, n));
}

proof fn lemma_mul_i32(x: int, y: int)
    requires
        i32::MIN <= x <= i32::MAX,
        i32::MIN <= y <= i32::MAX,
    ensures
        -0x4000_0000_0000_0000 <= x * y <= 0x4000_0000_0000_0000,
{
    assert(-0x4000_0000_0000_0000 <= x * y <= 0x4000_0000_0000_0000) by (nonlinear_arith)
        requires
            -0x8000_0000 <= x <= 0x7fff_ffff,
            -0x8000_0000 <= y <= 0x7fff_ffff,
    ;
}

} // verus!
