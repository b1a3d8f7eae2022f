//! Polyomino pieces: their rotations and reflections, a canonical form,
//! and the standard sets of tetrominoes and pentominoes.

use vstd::prelude::*;

verus! {

/// A piece: rows of cells, `true` where the piece covers the cell.
pub type Polyomino = Vec<Vec<bool>>;

/// The rows of a piece as sequences.
pub open spec fn piece_view(p: Seq<Vec<bool>>) -> Seq<Seq<bool>> {
    Seq::new(p.len(), |i: int| p[i]@)
}

/// A non-empty rectangle of cells: at least one row, all of one length.
pub open spec fn rectangular(p: Seq<Seq<bool>>) -> bool {
    p.len() > 0 && forall|i: int| 0 <= i < p.len() ==> (#[trigger] p[i]).len() == p[0].len()
}

/// The piece turned by a quarter: cell `(j, k)` of the result is cell
/// `(h - 1 - k, j)` of the piece.
pub open spec fn rotated(p: Seq<Seq<bool>>) -> Seq<Seq<bool>> {
    Seq::new(p[0].len(), |j: int| Seq::new(p.len(), |k: int| p[p.len() - 1 - k][j]))
}

/// The piece mirrored left to right.
pub open spec fn flipped(p: Seq<Seq<bool>>) -> Seq<Seq<bool>> {
    Seq::new(p.len(), |i: int| Seq::new(p[0].len(), |j: int| p[i][p[0].len() - 1 - j]))
}

/// `a` comes before `b`: the first differing entry is `false` in `a`, or
/// `a` is a proper prefix of `b`.
pub open spec fn row_less(a: Seq<bool>, b: Seq<bool>) -> bool
    decreases a.len(),
{
    if a.len() == 0 {
        b.len() > 0
    } else if b.len() == 0 {
        false
    } else if a[0] != b[0] {
        !a[0] && b[0]
    } else {
        row_less(a.drop_first(), b.drop_first())
    }
}

/// `a` comes before `b`, comparing row by row.
pub open spec fn piece_less(a: Seq<Seq<bool>>, b: Seq<Seq<bool>>) -> bool
    decreases a.len(),
{
    if a.len() == 0 {
        b.len() > 0
    } else if b.len() == 0 {
        false
    } else if a[0] != b[0] {
        row_less(a[0], b[0])
    } else {
        piece_less(a.drop_first(), b.drop_first())
    }
}

fn copy_row(row: &Vec<bool>) -> (r: Vec<bool>)
    ensures
        r@ == row@,
{
    let mut r: Vec<bool> = Vec::new();
    let mut i: usize = 0;
    while i < row.len()
        invariant
            i <= row@.len(),
            r@ == row@.subrange(0, i as int),
        decreases row@.len() - i,
    {
        r.push(row[i]);
        i += 1;
        assert(r@ =~= row@.subrange(0, i as int));
    }
    assert(r@ =~= row@);
    r
}

/// A copy of a piece.
pub fn copy_piece(p: &Vec<Vec<bool>>) -> (r: Vec<Vec<bool>>)
    ensures
        piece_view(r@) == piece_view(p@),
{
    let mut r: Vec<Vec<bool>> = Vec::new();
    let mut i: usize = 0;
    while i < p.len()
        invariant
            i <= p@.len(),
            r@.len() == i,
            forall|k: int| 0 <= k < i ==> (#[trigger] r@[k])@ == p@[k]@,
        decreases p@.len() - i,
    {
        r.push(copy_row(&p[i]));
        i += 1;
    }
    assert(piece_view(r@) =~= piece_view(p@));
    r
}

/// Whether two rows are equal.
fn rows_equal(a: &Vec<bool>, b: &Vec<bool>) -> (r: bool)
    ensures
        r == (a@ == b@),
{
    if a.len() != b.len() {
        return false;
    }
    let mut i: usize = 0;
    while i < a.len()
        invariant
            a@.len() == b@.len(),
            i <= a@.len(),
            forall|k: int| 0 <= k < i ==> a@[k] == b@[k],
        decreases a@.len() - i,
    {
        if a[i] != b[i] {
            return false;
        }
        i += 1;
    }
    assert(a@ =~= b@);
    true
}

proof fn lemma_row_less_skip(a: Seq<bool>, b: Seq<bool>, i: int)
    requires
        0 <= i < a.len(),
        i < b.len(),
        a[i] == b[i],
    ensures
        row_less(a.skip(i), b.skip(i)) == row_less(a.skip(i + 1), b.skip(i + 1)),
{
    assert(a.skip(i).drop_first() =~= a.skip(i + 1));
    assert(b.skip(i).drop_first() =~= b.skip(i + 1));
}

/// Whether row `a` comes before row `b`.
fn row_before(a: &Vec<bool>, b: &Vec<bool>) -> (r: bool)
    ensures
        r == row_less(a@, b@),
{
    let mut i: usize = 0;
    assert(a@.skip(0) =~= a@);
    assert(b@.skip(0) =~= b@);
    while i < a.len() && i < b.len()
        invariant
            i <= a@.len(),
            i <= b@.len(),
            row_less(a@, b@) == row_less(a@.skip(i as int), b@.skip(i as int)),
        decreases a@.len() - i,
    {
        if a[i] != b[i] {
            return !a[i] && b[i];
        }
        proof {
            lemma_row_less_skip(a@, b@, i as int);
        }
        i += 1;
    }
    a.len() < b.len()
}

proof fn lemma_piece_less_skip(a: Seq<Seq<bool>>, b: Seq<Seq<bool>>, i: int)
    requires
        0 <= i < a.len(),
        i < b.len(),
        a[i] == b[i],
    ensures
        piece_less(a.skip(i), b.skip(i)) == piece_less(a.skip(i + 1), b.skip(i + 1)),
{
    assert(a.skip(i).drop_first() =~= a.skip(i + 1));
    assert(b.skip(i).drop_first() =~= b.skip(i + 1));
}

/// Whether piece `a` comes before piece `b`.
pub fn piece_before(a: &Vec<Vec<bool>>, b: &Vec<Vec<bool>>) -> (r: bool)
    ensures
        r == piece_less(piece_view(a@), piece_view(b@)),
{
    let ghost pa = piece_view(a@);
    let ghost pb = piece_view(b@);
    let mut i: usize = 0;
    assert(pa.skip(0) =~= pa);
    assert(pb.skip(0) =~= pb);
    while i < a.len() && i < b.len()
        invariant
            pa == piece_view(a@),
            pb == piece_view(b@),
            i <= a@.len(),
            i <= b@.len(),
            piece_less(pa, pb) == piece_less(pa.skip(i as int), pb.skip(i as int)),
        decreases a@.len() - i,
    {
        if !rows_equal(&a[i], &b[i]) {
            proof {
                assert(pa.skip(i as int)[0] == a@[i as int]@);
                assert(pb.skip(i as int)[0] == b@[i as int]@);
            }
            return row_before(&a[i], &b[i]);
        }
        proof {
            lemma_piece_less_skip(pa, pb, i as int);
        }
        i += 1;
    }
    a.len() < b.len()
}

/// The piece turned by a quarter.
pub fn rotate_piece_90(piece: &Vec<Vec<bool>>) -> (r: Vec<Vec<bool>>)
    requires
        rectangular(piece_view(piece@)),
    ensures
        piece_view(r@) == rotated(piece_view(piece@)),
        rectangular(piece_view(r@)) || piece@[0]@.len() == 0,
{
    let ghost p = piece_view(piece@);
    let h = piece.len();
    let w = piece[0].len();
    let mut ret: Vec<Vec<bool>> = Vec::new();
    let mut j: usize = 0;
    while j < w
        invariant
            p == piece_view(piece@),
            rectangular(p),
            h == p.len(),
            w == p[0].len(),
            j <= w,
            ret@.len() == j,
            forall|a: int| 0 <= a < j ==> (#[trigger] ret@[a])@ == Seq::new(h as nat, |k: int| p[h - 1 - k][a]),
        decreases w - j,
    {
        let mut row: Vec<bool> = Vec::new();
        let mut k: usize = 0;
        while k < h
            invariant
                p == piece_view(piece@),
                rectangular(p),
                h == p.len(),
                w == p[0].len(),
                j < w,
                k <= h,
                row@ == Seq::new(k as nat, |t: int| p[h - 1 - t][j as int]),
            decreases h - k,
        {
            assert(p[h - 1 - k as int].len() == w);
            row.push(piece[h - 1 - k][j]);
            k += 1;
            assert(row@ =~= Seq::new(k as nat, |t: int| p[h - 1 - t][j as int]));
        }
        ret.push(row);
        j += 1;
    }
    assert(piece_view(ret@) =~= rotated(p));
    ret
}

/// The piece mirrored left to right.
pub fn flip_piece(piece: &Vec<Vec<bool>>) -> (r: Vec<Vec<bool>>)
    requires
        rectangular(piece_view(piece@)),
    ensures
        piece_view(r@) == flipped(piece_view(piece@)),
        rectangular(piece_view(r@)),
{
    let ghost p = piece_view(piece@);
    let h = piece.len();
    let w = piece[0].len();
    let mut ret: Vec<Vec<bool>> = Vec::new();
    let mut i: usize = 0;
    while i < h
        invariant
            p == piece_view(piece@),
            rectangular(p),
            h == p.len(),
            w == p[0].len(),
            i <= h,
            ret@.len() == i,
            forall|a: int| 0 <= a < i ==> (#[trigger] ret@[a])@ == Seq::new(w as nat, |j: int| p[a][w - 1 - j]),
        decreases h - i,
    {
        let mut row: Vec<bool> = Vec::new();
        let mut j: usize = 0;
        assert(p[i as int].len() == w);
        while j < w
            invariant
                p == piece_view(piece@),
                h == p.len(),
                w == p[0].len(),
                i < h,
                p[i as int].len() == w,
                j <= w,
                row@ == Seq::new(j as nat, |t: int| p[i as int][w - 1 - t]),
            decreases w - j,
        {
            row.push(piece[i][w - 1 - j]);
            j += 1;
            assert(row@ =~= Seq::new(j as nat, |t: int| p[i as int][w - 1 - t]));
        }
        ret.push(row);
        i += 1;
    }
    assert(piece_view(ret@) =~= flipped(p));
    ret
}

/// The piece turned by `n` quarter turns.
pub open spec fn turned(p: Seq<Seq<bool>>, n: nat) -> Seq<Seq<bool>>
    decreases n,
{
    if n == 0 {
        p
    } else {
        rotated(turned(p, (n - 1) as nat))
    }
}

/// Orientation `k` of a piece, `0 <= k < 8`: `k / 2` quarter turns, then
/// mirrored where `k` is odd.
pub open spec fn orientation(p: Seq<Seq<bool>>, k: int) -> Seq<Seq<bool>> {
    if k % 2 == 0 {
        turned(p, (k / 2) as nat)
    } else {
        flipped(turned(p, (k / 2) as nat))
    }
}

proof fn lemma_row_less_asym(a: Seq<bool>, b: Seq<bool>)
    ensures
        !(row_less(a, b) && row_less(b, a)),
    decreases a.len(),
{
    if a.len() > 0 && b.len() > 0 && a[0] == b[0] {
        lemma_row_less_asym(a.drop_first(), b.drop_first());
    }
}

proof fn lemma_row_less_trans(a: Seq<bool>, b: Seq<bool>, c: Seq<bool>)
    requires
        row_less(a, b),
        row_less(b, c),
    ensures
        row_less(a, c),
    decreases a.len(),
{
    if a.len() > 0 && b.len() > 0 && c.len() > 0 && a[0] == b[0] && b[0] == c[0] {
        lemma_row_less_trans(a.drop_first(), b.drop_first(), c.drop_first());
    }
}

/// Piece order is transitive.
pub proof fn lemma_piece_less_trans(a: Seq<Seq<bool>>, b: Seq<Seq<bool>>, c: Seq<Seq<bool>>)
    requires
        piece_less(a, b),
        piece_less(b, c),
    ensures
        piece_less(a, c),
    decreases a.len(),
{
    if a.len() > 0 && b.len() > 0 && c.len() > 0 {
        if a[0] != b[0] && b[0] != c[0] {
            if a[0] == c[0] {
                lemma_row_less_asym(a[0], b[0]);
            } else {
                lemma_row_less_trans(a[0], b[0], c[0]);
            }
        } else if a[0] == b[0] && b[0] == c[0] {
            lemma_piece_less_trans(a.drop_first(), b.drop_first(), c.drop_first());
        }
    }
}

/// The eight orientations of a piece: each of four quarter turns, then its
/// mirror image.
pub fn enumerate_piece_transformations(piece: &Vec<Vec<bool>>) -> (r: Vec<Vec<Vec<bool>>>)
    requires
        rectangular(piece_view(piece@)),
        piece@[0]@.len() > 0,
    ensures
        r@.len() == 8,
        piece_view(r@[0]@) == piece_view(piece@),
        forall|k: int| 0 <= k < 8 ==> rectangular(piece_view((#[trigger] r@[k])@)),
        forall|k: int| 0 <= k < 8 ==> piece_view((#[trigger] r@[k])@) == orientation(piece_view(piece@), k),
{
    let mut cur = copy_piece(piece);
    let mut ret: Vec<Vec<Vec<bool>>> = Vec::new();
    let mut t: usize = 0;
    while t < 4
        invariant
            t <= 4,
            rectangular(piece_view(cur@)),
            piece_view(cur@)[0].len() > 0,
            ret@.len() == 2 * t,
            t == 0 ==> piece_view(cur@) == piece_view(piece@),
            t > 0 ==> piece_view(ret@[0]@) == piece_view(piece@),
            forall|k: int| 0 <= k < ret@.len() ==> rectangular(piece_view((#[trigger] ret@[k])@)),
            piece_view(cur@) == turned(piece_view(piece@), t as nat),
            forall|k: int| 0 <= k < ret@.len() ==> piece_view((#[trigger] ret@[k])@) == orientation(piece_view(piece@), k),
        decreases 4 - t,
    {
        let flipped = flip_piece(&cur);
        let next = rotate_piece_90(&cur);
        let ghost prev = ret@;
        let ghost c = cur;
        ret.push(cur);
        ret.push(flipped);
        proof {
            assert(ret@[prev.len() as int] == c);
            assert forall|k: int| 0 <= k < ret@.len() implies rectangular(piece_view((#[trigger] ret@[k])@)) by {
                if k < prev.len() {
                    assert(ret@[k] == prev[k]);
                }
            }
            assert forall|k: int| 0 <= k < ret@.len() implies piece_view((#[trigger] ret@[k])@) == orientation(piece_view(piece@), k) by {
                if k < prev.len() {
                    assert(ret@[k] == prev[k]);
                } else if k == prev.len() {
                    assert(k / 2 == t);
                    assert(k % 2 == 0);
                } else {
                    assert(k / 2 == t);
                    assert(k % 2 == 1);
                    assert(ret@[k] == flipped);
                }
            }
            assert(piece_view(next@) == turned(piece_view(piece@), (t + 1) as nat));
            let pc = piece_view(c@);
            let pn = piece_view(next@);
            assert(pn.len() == pc[0].len());
            assert(pn[0].len() == pc.len());
        }
        cur = next;
        t += 1;
    }
    ret
}

/// The first of the eight orientations in piece order: a form shared by
/// all orientations of a piece.
pub fn normalize_piece(piece: &Vec<Vec<bool>>) -> (r: Vec<Vec<bool>>)
    requires
        rectangular(piece_view(piece@)),
        piece@[0]@.len() > 0,
    ensures
        rectangular(piece_view(r@)),
        exists|k: int| 0 <= k < 8 && piece_view(r@) == orientation(piece_view(piece@), k),
        forall|k: int| 0 <= k < 8 ==> !piece_less(#[trigger] orientation(piece_view(piece@), k), piece_view(r@)),
{
    let ts = enumerate_piece_transformations(piece);
    let ghost p = piece_view(piece@);
    let mut best: usize = 0;
    let mut k: usize = 1;
    proof {
        lemma_row_less_irrefl_piece(piece_view(ts@[0]@));
    }
    while k < ts.len()
        invariant
            ts@.len() == 8,
            1 <= k <= 8,
            best < k,
            forall|j: int| 0 <= j < 8 ==> rectangular(piece_view((#[trigger] ts@[j])@)),
            forall|j: int| 0 <= j < 8 ==> piece_view((#[trigger] ts@[j])@) == orientation(p, j),
            forall|j: int| 0 <= j < k ==> !piece_less(piece_view((#[trigger] ts@[j])@), piece_view(ts@[best as int]@)),
        decreases 8 - k,
    {
        if piece_before(&ts[k], &ts[best]) {
            proof {
                let nb = piece_view(ts@[k as int]@);
                let ob = piece_view(ts@[best as int]@);
                lemma_row_less_irrefl_piece(nb);
                assert forall|j: int| 0 <= j < k + 1 implies !piece_less(piece_view((#[trigger] ts@[j])@), nb) by {
                    if j < k && piece_less(piece_view(ts@[j]@), nb) {
                        lemma_piece_less_trans(piece_view(ts@[j]@), nb, ob);
                    }
                }
            }
            best = k;
        }
        k += 1;
    }
    let r = copy_piece(&ts[best]);
    proof {
        assert forall|j: int| 0 <= j < 8 implies !piece_less(#[trigger] orientation(p, j), piece_view(r@)) by {
            assert(piece_view(ts@[j]@) == orientation(p, j));
        }
    }
    r
}

/// No piece comes before itself.
proof fn lemma_row_less_irrefl_piece(a: Seq<Seq<bool>>)
    ensures
        !piece_less(a, a),
    decreases a.len(),
{
    if a.len() > 0 {
        lemma_row_less_irrefl_piece(a.drop_first());
    }
}

/// Whether two pieces are equal.
fn pieces_equal(a: &Vec<Vec<bool>>, b: &Vec<Vec<bool>>) -> (r: bool)
    ensures
        r == (piece_view(a@) == piece_view(b@)),
{
    if a.len() != b.len() {
        assert(piece_view(a@).len() != piece_view(b@).len());
        return false;
    }
    let mut i: usize = 0;
    while i < a.len()
        invariant
            a@.len() == b@.len(),
            i <= a@.len(),
            forall|k: int| 0 <= k < i ==> a@[k]@ == b@[k]@,
        decreases a@.len() - i,
    {
        if !rows_equal(&a[i], &b[i]) {
            assert(piece_view(a@)[i as int] != piece_view(b@)[i as int]);
            return false;
        }
        i += 1;
    }
    assert(piece_view(a@) =~= piece_view(b@));
    true
}

/// The sum of the counts.
pub open spec fn total(s: Seq<usize>) -> int
    decreases s.len(),
{
    if s.len() == 0 {
        0
    } else {
        total(s.drop_last()) + s.last()
    }
}

/// Every piece is a non-empty rectangle with non-empty rows.
pub open spec fn pieces_ok(pieces: Seq<Vec<Vec<bool>>>) -> bool {
    forall|k: int| 0 <= k < pieces.len() ==> rectangular(piece_view((#[trigger] pieces[k])@)) && pieces[k]@[0]@.len() > 0
}

/// `r` is the normal form of `p`: an orientation of `p` that no orientation
/// of `p` precedes.
#[verifier::opaque]
pub open spec fn is_normal_form(p: Seq<Seq<bool>>, r: Seq<Seq<bool>>) -> bool {
    &&& exists|k: int| 0 <= k < 8 && r == orientation(p, k)
    &&& forall|k: int| 0 <= k < 8 ==> !piece_less(#[trigger] orientation(p, k), r)
}

/// `q` is the normal form of one of the pieces `ps`.
pub open spec fn normal_form_of_some(ps: Seq<Vec<Vec<bool>>>, q: Seq<Seq<bool>>) -> bool {
    exists|t: int| 0 <= t < ps.len() && is_normal_form(piece_view(ps[t]@), q)
}

/// One of the pieces `rs` is the normal form of `p`.
pub open spec fn has_normal_form_among(rs: Seq<Vec<Vec<bool>>>, p: Seq<Seq<bool>>) -> bool {
    exists|k: int| 0 <= k < rs.len() && is_normal_form(p, piece_view(rs[k]@))
}

/// One of the pieces `rs` looks like `v`.
pub open spec fn appears_among(rs: Seq<Vec<Vec<bool>>>, v: Seq<Seq<bool>>) -> bool {
    exists|k: int| 0 <= k < rs.len() && piece_view(rs[k]@) == v
}

proof fn lemma_piece_less_asym(a: Seq<Seq<bool>>, b: Seq<Seq<bool>>)
    ensures
        !(piece_less(a, b) && piece_less(b, a)),
{
    if piece_less(a, b) && piece_less(b, a) {
        lemma_piece_less_trans(a, b, a);
        lemma_row_less_irrefl_piece(a);
    }
}

/// The number of entries of `vs` equal to `q`.
pub open spec fn count_equal(vs: Seq<Seq<Seq<bool>>>, q: Seq<Seq<bool>>) -> nat
    decreases vs.len(),
{
    if vs.len() == 0 {
        0
    } else {
        count_equal(vs.drop_last(), q) + (if vs.last() == q { 1nat } else { 0nat })
    }
}

/// The number of pieces of `ps` whose normal form is `q`.
pub open spec fn count_normal_form(ps: Seq<Vec<Vec<bool>>>, q: Seq<Seq<bool>>) -> nat
    decreases ps.len(),
{
    if ps.len() == 0 {
        0
    } else {
        count_normal_form(ps.drop_last(), q) + (if is_normal_form(piece_view(ps.last()@), q) { 1nat } else { 0nat })
    }
}

/// A value that no entry equals is counted zero times.
proof fn lemma_count_absent(vs: Seq<Seq<Seq<bool>>>, q: Seq<Seq<bool>>)
    requires
        forall|t: int| 0 <= t < vs.len() ==> #[trigger] vs[t] != q,
    ensures
        count_equal(vs, q) == 0,
    decreases vs.len(),
{
    if vs.len() > 0 {
        assert(vs.last() == vs[vs.len() - 1]);
        assert forall|t: int| 0 <= t < vs.drop_last().len() implies #[trigger] vs.drop_last()[t] != q by {
            assert(vs.drop_last()[t] == vs[t]);
        }
        lemma_count_absent(vs.drop_last(), q);
    }
}

/// Inserting an entry counts it once.
proof fn lemma_count_insert(vs: Seq<Seq<Seq<bool>>>, pos: int, x: Seq<Seq<bool>>, q: Seq<Seq<bool>>)
    requires
        0 <= pos <= vs.len(),
    ensures
        count_equal(vs.insert(pos, x), q) == count_equal(vs, q) + (if x == q { 1nat } else { 0nat }),
    decreases vs.len(),
{
    if pos == vs.len() {
        assert(vs.insert(pos, x).drop_last() =~= vs);
    } else {
        assert(vs.insert(pos, x).drop_last() =~= vs.drop_last().insert(pos, x));
        assert(vs.insert(pos, x).last() == vs.last());
        lemma_count_insert(vs.drop_last(), pos, x, q);
    }
}

/// A piece has one normal form.
proof fn lemma_normal_form_unique(p: Seq<Seq<bool>>, a: Seq<Seq<bool>>, b: Seq<Seq<bool>>)
    requires
        is_normal_form(p, a),
        is_normal_form(p, b),
    ensures
        a == b,
{
    reveal(is_normal_form);
    let ka = choose|k: int| 0 <= k < 8 && a == orientation(p, k);
    let kb = choose|k: int| 0 <= k < 8 && b == orientation(p, k);
    assert(!piece_less(orientation(p, kb), a));
    assert(!piece_less(orientation(p, ka), b));
    if a != b {
        lemma_piece_less_total(a, b);
    }
}

/// The normal forms of the pieces, in piece order.
fn sort_normal_forms(pieces: &Vec<Polyomino>) -> (r: Vec<Polyomino>)
    requires
        pieces_ok(pieces@),
    ensures
        r@.len() == pieces@.len(),
        forall|k: int| 0 <= k < r@.len() ==> rectangular(piece_view((#[trigger] r@[k])@)),
        forall|k: int| 0 <= k < r@.len() ==> normal_form_of_some(pieces@, piece_view((#[trigger] r@[k])@)),
        forall|t: int| 0 <= t < pieces@.len() ==> has_normal_form_among(r@, piece_view((#[trigger] pieces@[t])@)),
        forall|a: int, b: int| 0 <= a < b < r@.len() ==> !piece_less(piece_view(r@[b]@), piece_view(r@[a]@)),
        forall|q: Seq<Seq<bool>>| #[trigger] count_equal(views(r@), q) == count_normal_form(pieces@, q),
{
    let mut sorted: Vec<Polyomino> = Vec::new();
    let mut i: usize = 0;
    while i < pieces.len()
        invariant
            pieces_ok(pieces@),
            i <= pieces@.len(),
            sorted@.len() == i,
            forall|k: int| 0 <= k < sorted@.len() ==> rectangular(piece_view((#[trigger] sorted@[k])@)),
            forall|k: int| 0 <= k < sorted@.len() ==> normal_form_of_some(pieces@, piece_view((#[trigger] sorted@[k])@)),
            forall|t: int| 0 <= t < i ==> has_normal_form_among(sorted@, piece_view((#[trigger] pieces@[t])@)),
            forall|a: int, b: int| 0 <= a < b < sorted@.len() ==> !piece_less(piece_view(sorted@[b]@), piece_view(sorted@[a]@)),
            forall|q: Seq<Seq<bool>>| #[trigger] count_equal(views(sorted@), q) == count_normal_form(pieces@.take(i as int), q),
        decreases pieces@.len() - i,
    {
        let p = normalize_piece(&pieces[i]);
        let mut pos = sorted.len();
        while pos > 0 && piece_before(&p, &sorted[pos - 1])
            invariant
                pos <= sorted@.len(),
                forall|k: int| pos <= k < sorted@.len() ==> piece_less(piece_view(p@), piece_view(#[trigger] sorted@[k]@)),
            decreases pos,
        {
            pos -= 1;
        }
        let ghost prev = sorted@;
        let ghost pp = p;
        sorted.insert(pos, p);
        proof {
            assert(views(sorted@) =~= views(prev).insert(pos as int, piece_view(pp@))) by {
                assert(sorted@ =~= prev.insert(pos as int, pp));
            }
            assert(is_normal_form(piece_view(pieces@[i as int]@), piece_view(pp@))) by {
                reveal(is_normal_form);
            }
            assert forall|q: Seq<Seq<bool>>| #[trigger] count_equal(views(sorted@), q) == count_normal_form(pieces@.take(i + 1), q) by {
                lemma_count_insert(views(prev), pos as int, piece_view(pp@), q);
                assert(pieces@.take(i + 1).drop_last() =~= pieces@.take(i as int));
                assert(pieces@.take(i + 1).last() == pieces@[i as int]);
                if is_normal_form(piece_view(pieces@[i as int]@), q) {
                    lemma_normal_form_unique(piece_view(pieces@[i as int]@), q, piece_view(pp@));
                }
            }
            assert(is_normal_form(piece_view(pieces@[i as int]@), piece_view(pp@))) by {
                reveal(is_normal_form);
            }
            assert forall|k: int| 0 <= k < sorted@.len() implies rectangular(piece_view((#[trigger] sorted@[k])@)) by {
                if k < pos {
                    assert(sorted@[k] == prev[k]);
                } else if k == pos {
                    assert(sorted@[k] == pp);
                } else {
                    assert(sorted@[k] == prev[k - 1]);
                }
            }
            assert forall|k: int| 0 <= k < sorted@.len() implies normal_form_of_some(pieces@, piece_view((#[trigger] sorted@[k])@)) by {
                if k < pos {
                    assert(sorted@[k] == prev[k]);
                } else if k == pos {
                    assert(sorted@[k] == pp);
                    assert(is_normal_form(piece_view(pieces@[i as int]@), piece_view(sorted@[k]@)));
                } else {
                    assert(sorted@[k] == prev[k - 1]);
                }
            }
            assert forall|t: int| 0 <= t < i + 1 implies has_normal_form_among(sorted@, piece_view((#[trigger] pieces@[t])@)) by {
                if t == i {
                    assert(sorted@[pos as int] == pp);
                } else {
                    assert(has_normal_form_among(prev, piece_view(pieces@[t]@)));
                    let k0 = choose|k: int| 0 <= k < prev.len() && is_normal_form(piece_view(pieces@[t]@), piece_view(prev[k]@));
                    if k0 < pos {
                        assert(sorted@[k0] == prev[k0]);
                    } else {
                        assert(sorted@[k0 + 1] == prev[k0]);
                    }
                }
            }
            let pv = piece_view(pp@);
            assert forall|a: int, b: int| 0 <= a < b < sorted@.len() implies !piece_less(piece_view(sorted@[b]@), piece_view(sorted@[a]@)) by {
                let va = piece_view(sorted@[a]@);
                let vb = piece_view(sorted@[b]@);
                if b < pos {
                    assert(sorted@[a] == prev[a] && sorted@[b] == prev[b]);
                } else if b == pos {
                    assert(sorted@[a] == prev[a]);
                    assert(vb == pv);
                    // p does not come before prev[pos - 1], which does not come before prev[a]
                    let last = piece_view(prev[pos - 1]@);
                    assert(!piece_less(pv, last));
                    if piece_less(pv, va) {
                        if va != last {
                            assert(!piece_less(last, va));
                            lemma_piece_less_total(va, last);
                            lemma_piece_less_trans(pv, va, last);
                        }
                    }
                } else if a < pos {
                    assert(sorted@[a] == prev[a] && sorted@[b] == prev[b - 1]);
                } else if a == pos {
                    assert(sorted@[b] == prev[b - 1]);
                    assert(va == pv);
                    assert(piece_less(pv, vb));
                    lemma_piece_less_asym(pv, vb);
                } else {
                    assert(sorted@[a] == prev[a - 1] && sorted@[b] == prev[b - 1]);
                }
            }
        }
        i += 1;
    }
    assert(pieces@.take(pieces@.len() as int) =~= pieces@);
    sorted
}

/// The views of the pieces.
pub open spec fn views(ps: Seq<Vec<Vec<bool>>>) -> Seq<Seq<Seq<bool>>> {
    Seq::new(ps.len(), |k: int| piece_view(ps[k]@))
}

/// Each piece comes before the next, so each comes before all later ones.
proof fn lemma_chain_increasing(vs: Seq<Seq<Seq<bool>>>)
    requires
        forall|a: int| 0 <= a && a + 1 < vs.len() ==> piece_less(#[trigger] vs[a], vs[a + 1]),
    ensures
        forall|a: int, b: int| 0 <= a < b < vs.len() ==> piece_less(vs[a], vs[b]),
    decreases vs.len(),
{
    if vs.len() > 1 {
        let init = vs.drop_last();
        assert forall|a: int| 0 <= a && a + 1 < init.len() implies piece_less(#[trigger] init[a], init[a + 1]) by {
            assert(init[a] == vs[a] && init[a + 1] == vs[a + 1]);
        }
        lemma_chain_increasing(init);
        let n = vs.len() - 1;
        assert forall|a: int, b: int| 0 <= a < b < vs.len() implies piece_less(vs[a], vs[b]) by {
            if b < n {
                assert(init[a] == vs[a] && init[b] == vs[b]);
            } else if a < n - 1 {
                assert(init[a] == vs[a] && init[n - 1] == vs[n - 1]);
                assert(piece_less(vs[n - 1], vs[n]));
                lemma_piece_less_trans(vs[a], vs[n - 1], vs[n]);
            }
        }
    }
}

/// Runs of equal pieces in `sorted` merged into one piece with the length of
/// the run.
fn merge_runs(sorted: Vec<Polyomino>) -> (r: (Vec<Polyomino>, Vec<usize>))
    requires
        forall|k: int| 0 <= k < sorted@.len() ==> rectangular(piece_view((#[trigger] sorted@[k])@)),
        forall|a: int, b: int| 0 <= a < b < sorted@.len() ==> !piece_less(views(sorted@)[b], views(sorted@)[a]),
    ensures
        r.0@.len() == r.1@.len(),
        total(r.1@) == sorted@.len(),
        forall|k: int| 0 <= k < r.1@.len() ==> (#[trigger] r.1@[k]) >= 1,
        forall|k: int| 0 <= k < r.0@.len() ==> appears_among(sorted@, #[trigger] views(r.0@)[k]),
        forall|t: int| 0 <= t < sorted@.len() ==> appears_among(r.0@, #[trigger] views(sorted@)[t]),
        forall|a: int, b: int| 0 <= a < b < r.0@.len() ==> piece_less(views(r.0@)[a], views(r.0@)[b]),
        forall|k: int| 0 <= k < r.1@.len() ==> (#[trigger] r.1@[k]) == count_equal(views(sorted@), views(r.0@)[k]),
{
    let mut ret: Vec<Polyomino> = Vec::new();
    let mut cnt: Vec<usize> = Vec::new();
    let n = sorted.len();
    let ghost s0 = sorted@;
    let ghost sv = views(s0);
    let ghost mut origin: Seq<int> = Seq::empty();
    let ghost mut cover: Seq<int> = Seq::empty();
    let mut rest = sorted;
    let mut j: usize = 0;
    while j < n
        invariant
            n == s0.len(),
            sv == views(s0),
            j <= n,
            rest@ == s0.subrange(j as int, n as int),
            forall|a: int, b: int| 0 <= a < b < s0.len() ==> !piece_less(sv[b], sv[a]),
            ret@.len() == cnt@.len(),
            total(cnt@) == j,
            forall|k: int| 0 <= k < cnt@.len() ==> 1 <= (#[trigger] cnt@[k]) <= j,
            origin.len() == ret@.len(),
            forall|k: int| 0 <= k < ret@.len() ==> 0 <= #[trigger] origin[k] < j && ret@[k] == s0[origin[k]],
            j > 0 ==> ret@.len() > 0 && origin[ret@.len() - 1] == j - 1 || (ret@.len() > 0 && views(ret@)[ret@.len() - 1] == sv[j - 1]),
            cover.len() == j,
            forall|t: int| 0 <= t < j ==> 0 <= #[trigger] cover[t] < ret@.len() && sv[t] == views(ret@)[cover[t]],
            forall|a: int| 0 <= a && a + 1 < ret@.len() ==> piece_less(#[trigger] views(ret@)[a], views(ret@)[a + 1]),
            forall|k: int| 0 <= k < cnt@.len() ==> (#[trigger] cnt@[k]) == count_equal(sv.take(j as int), views(ret@)[k]),
        decreases n - j,
    {
        let p = rest.remove(0);
        assert(p == s0[j as int]);
        let m = ret.len();
        proof {
            assert(sv.take(j + 1).drop_last() =~= sv.take(j as int));
            assert(sv.take(j + 1).last() == sv[j as int]);
            lemma_chain_increasing(views(ret@));
        }
        if m > 0 && pieces_equal(&ret[m - 1], &p) {
            let c = cnt[m - 1];
            let ghost cv = cnt@;
            cnt.set(m - 1, c + 1);
            proof {
                assert(cnt@.drop_last() =~= cv.drop_last());
                assert(views(ret@)[m - 1] == sv[j as int]);
                cover = cover.push(m - 1);
                assert forall|k: int| 0 <= k < cnt@.len() implies (#[trigger] cnt@[k]) == count_equal(sv.take(j + 1), views(ret@)[k]) by {
                    if k < m - 1 {
                        assert(piece_less(views(ret@)[k], views(ret@)[m - 1]));
                        lemma_piece_less_asym(views(ret@)[k], views(ret@)[k]);
                        assert(views(ret@)[k] != sv[j as int]);
                    }
                }
            }
        } else {
            let ghost prev = ret@;
            ret.push(p);
            let ghost cv = cnt@;
            cnt.push(1);
            proof {
                assert(cnt@.drop_last() =~= cv);
                assert forall|k: int| 0 <= k < prev.len() implies #[trigger] views(ret@)[k] == views(prev)[k] by {
                    assert(ret@[k] == prev[k]);
                }
                assert(views(ret@)[m as int] == sv[j as int]);
                if m > 0 {
                    let lastv = views(prev)[m - 1];
                    assert(lastv == sv[j - 1]) by {
                        let o = origin[m - 1];
                        if o != j - 1 {
                            assert(views(ret@)[m - 1] == views(prev)[m - 1]);
                        }
                    }
                    assert(!piece_less(sv[j as int], sv[j - 1]));
                    assert(lastv != sv[j as int]);
                    lemma_piece_less_total(lastv, sv[j as int]);
                }
                origin = origin.push(j as int);
                cover = cover.push(m as int);
                assert forall|t: int| 0 <= t < j + 1 implies 0 <= #[trigger] cover[t] < ret@.len() && sv[t] == views(ret@)[cover[t]] by {
                    if t < j {
                        assert(views(ret@)[cover[t]] == views(prev)[cover[t]]);
                    }
                }
                assert forall|a: int| 0 <= a && a + 1 < ret@.len() implies piece_less(#[trigger] views(ret@)[a], views(ret@)[a + 1]) by {
                    if a + 1 < m {
                        assert(views(ret@)[a + 1] == views(prev)[a + 1]);
                    }
                }
                // every earlier entry is a kept value, all of which come before the new one
                assert forall|k: int| 0 <= k < m implies piece_less(#[trigger] views(prev)[k], sv[j as int]) by {
                    if k < m - 1 {
                        lemma_piece_less_trans(views(prev)[k], views(prev)[m - 1], sv[j as int]);
                    }
                }
                assert(count_equal(sv.take(j as int), sv[j as int]) == 0) by {
                    assert forall|t: int| 0 <= t < j implies #[trigger] sv.take(j as int)[t] != sv[j as int] by {
                        let c = cover[t];
                        assert(sv[t] == views(ret@)[c]);
                        assert(views(ret@)[c] == views(prev)[c]);
                        lemma_piece_less_asym(sv[j as int], sv[j as int]);
                    }
                    lemma_count_absent(sv.take(j as int), sv[j as int]);
                }
                assert forall|k: int| 0 <= k < cnt@.len() implies (#[trigger] cnt@[k]) == count_equal(sv.take(j + 1), views(ret@)[k]) by {
                    if k < m {
                        assert(cnt@[k] == cv[k]);
                        lemma_piece_less_asym(sv[j as int], sv[j as int]);
                        assert(views(ret@)[k] != sv[j as int]);
                    }
                }
            }
        }
        j += 1;
    }
    proof {
        assert(sv.take(n as int) =~= sv);
    }
    proof {
        lemma_chain_increasing(views(ret@));
        assert forall|k: int| 0 <= k < ret@.len() implies appears_among(s0, #[trigger] views(ret@)[k]) by {
            assert(ret@[k] == s0[origin[k]]);
            assert(piece_view(s0[origin[k]]@) == views(ret@)[k]);
        }
        assert forall|t: int| 0 <= t < s0.len() implies appears_among(ret@, #[trigger] views(s0)[t]) by {
            let c = cover[t];
            assert(sv[t] == views(ret@)[c]);
            assert(piece_view(ret@[c]@) == views(ret@)[c]);
        }
    }
    (ret, cnt)
}

/// The distinct pieces up to rotation and reflection, each in its
/// canonical form, in piece order, with how often each occurs.
pub fn normalize_and_merge_pieces(pieces: &Vec<Polyomino>) -> (r: (Vec<Polyomino>, Vec<usize>))
    requires
        pieces_ok(pieces@),
    ensures
        r.0@.len() == r.1@.len(),
        total(r.1@) == pieces@.len(),
        forall|k: int| 0 <= k < r.1@.len() ==> (#[trigger] r.1@[k]) >= 1,
        forall|k: int| 0 <= k < r.0@.len() ==> rectangular(piece_view((#[trigger] r.0@[k])@)),
        forall|k: int| 0 <= k < r.0@.len() ==> normal_form_of_some(pieces@, piece_view((#[trigger] r.0@[k])@)),
        forall|i: int| 0 <= i < pieces@.len() ==> has_normal_form_among(r.0@, piece_view((#[trigger] pieces@[i])@)),
        forall|a: int, b: int| 0 <= a < b < r.0@.len() ==> piece_less(views(r.0@)[a], views(r.0@)[b]),
        forall|k: int| 0 <= k < r.1@.len() ==> (#[trigger] r.1@[k]) == count_normal_form(pieces@, views(r.0@)[k]),
{
    let sorted = sort_normal_forms(pieces);
    let ghost s0 = sorted@;
    proof {
        assert forall|a: int, b: int| 0 <= a < b < s0.len() implies !piece_less(views(s0)[b], views(s0)[a]) by {
            assert(views(s0)[a] == piece_view(s0[a]@));
            assert(views(s0)[b] == piece_view(s0[b]@));
        }
    }
    let r = merge_runs(sorted);
    proof {
        assert forall|k: int| 0 <= k < r.1@.len() implies (#[trigger] r.1@[k]) == count_normal_form(pieces@, views(r.0@)[k]) by {
            assert(r.1@[k] == count_equal(views(s0), views(r.0@)[k]));
            assert(count_equal(views(s0), views(r.0@)[k]) == count_normal_form(pieces@, views(r.0@)[k]));
        }
        assert forall|k: int| 0 <= k < r.0@.len() implies rectangular(piece_view((#[trigger] r.0@[k])@))
            && normal_form_of_some(pieces@, piece_view(r.0@[k]@)) by {
            assert(views(r.0@)[k] == piece_view(r.0@[k]@));
            assert(appears_among(s0, views(r.0@)[k]));
            let t = choose|t: int| 0 <= t < s0.len() && piece_view(s0[t]@) == views(r.0@)[k];
            assert(rectangular(piece_view(s0[t]@)));
            assert(normal_form_of_some(pieces@, piece_view(s0[t]@)));
        }
        assert forall|i: int| 0 <= i < pieces@.len() implies has_normal_form_among(r.0@, piece_view((#[trigger] pieces@[i])@)) by {
            assert(has_normal_form_among(s0, piece_view(pieces@[i]@)));
            let t = choose|t: int| 0 <= t < s0.len() && is_normal_form(piece_view(pieces@[i]@), piece_view(s0[t]@));
            assert(views(s0)[t] == piece_view(s0[t]@));
            assert(appears_among(r.0@, views(s0)[t]));
            let k = choose|k: int| 0 <= k < r.0@.len() && piece_view(r.0@[k]@) == views(s0)[t];
            assert(is_normal_form(piece_view(pieces@[i]@), piece_view(r.0@[k]@)));
        }
    }
    r
}

fn row_of(cells: &[bool]) -> (r: Vec<bool>)
    ensures
        r@ == cells@,
{
    let mut r: Vec<bool> = Vec::new();
    let mut i: usize = 0;
    while i < cells.len()
        invariant
            i <= cells@.len(),
            r@ == cells@.subrange(0, i as int),
        decreases cells@.len() - i,
    {
        r.push(cells[i]);
        i += 1;
        assert(r@ =~= cells@.subrange(0, i as int));
    }
    assert(r@ =~= cells@);
    r
}

/// The cells of each of the five tetrominoes, row by row.
pub open spec fn tetromino_shapes() -> Seq<Seq<Seq<bool>>> {
    seq![
        seq![seq![true, true, true, true]],
        seq![seq![true, true, true], seq![true, false, false]],
        seq![seq![true, true, true], seq![false, true, false]],
        seq![seq![true, true, false], seq![false, true, true]],
        seq![seq![true, true], seq![true, true]],
    ]
}

/// The five tetrominoes (I, L, T, S, O), up to rotation and reflection.
pub fn tetrominoes() -> (r: Vec<Polyomino>)
    ensures
        views(r@) == tetromino_shapes(),
{
    let mut r: Vec<Polyomino> = Vec::new();
    let mut p: Polyomino = Vec::new();
    p.push(row_of(&[true, true, true, true]));
    assert(piece_view(p@) =~= seq![seq![true, true, true, true]]);
    r.push(p);
    let mut p: Polyomino = Vec::new();
    p.push(row_of(&[true, true, true]));
    p.push(row_of(&[true, false, false]));
    assert(piece_view(p@) =~= seq![seq![true, true, true], seq![true, false, false]]);
    r.push(p);
    let mut p: Polyomino = Vec::new();
    p.push(row_of(&[true, true, true]));
    p.push(row_of(&[false, true, false]));
    assert(piece_view(p@) =~= seq![seq![true, true, true], seq![false, true, false]]);
    r.push(p);
    let mut p: Polyomino = Vec::new();
    p.push(row_of(&[true, true, false]));
    p.push(row_of(&[false, true, true]));
    assert(piece_view(p@) =~= seq![seq![true, true, false], seq![false, true, true]]);
    r.push(p);
    let mut p: Polyomino = Vec::new();
    p.push(row_of(&[true, true]));
    p.push(row_of(&[true, true]));
    assert(piece_view(p@) =~= seq![seq![true, true], seq![true, true]]);
    r.push(p);
    assert(views(r@) =~= tetromino_shapes());
    r
}

/// The cells of each of the twelve pentominoes, row by row.
pub open spec fn pentomino_shapes() -> Seq<Seq<Seq<bool>>> {
    seq![
        seq![seq![false, false, true], seq![true, true, true], seq![false, true, false]],
        seq![seq![true], seq![true], seq![true], seq![true], seq![true]],
        seq![seq![false, true], seq![false, true], seq![false, true], seq![true, true]],
        seq![seq![false, true], seq![false, true], seq![true, true], seq![true, false]],
        seq![seq![false, true], seq![true, true], seq![true, true]],
        seq![seq![false, false, true], seq![true, true, true], seq![false, false, true]],
        seq![seq![true, true], seq![false, true], seq![true, true]],
        seq![seq![false, false, true], seq![false, false, true], seq![true, true, true]],
        seq![seq![false, false, true], seq![false, true, true], seq![true, true, false]],
        seq![seq![false, true, false], seq![true, true, true], seq![false, true, false]],
        seq![seq![false, true], seq![false, true], seq![true, true], seq![false, true]],
        seq![seq![false, false, true], seq![true, true, true], seq![true, false, false]],
    ]
}

/// The twelve pentominoes, up to rotation and reflection.
pub fn pentominoes() -> (r: Vec<Polyomino>)
    ensures
        views(r@) == pentomino_shapes(),
{
    let mut r: Vec<Polyomino> = Vec::new();
    let mut p: Polyomino = Vec::new();
    p.push(row_of(&[false, false, true]));
    p.push(row_of(&[true, true, true]));
    p.push(row_of(&[false, true, false]));
    assert(piece_view(p@) =~= seq![seq![false, false, true], seq![true, true, true], seq![false, true, false]]);
    r.push(p);
    let mut p: Polyomino = Vec::new();
    p.push(row_of(&[true]));
    p.push(row_of(&[true]));
    p.push(row_of(&[true]));
    p.push(row_of(&[true]));
    p.push(row_of(&[true]));
    assert forall|k: int| 0 <= k < 5 implies #[trigger] piece_view(p@)[k] =~= seq![true] by {
        assert(p@[k]@ == seq![true]);
    }
    assert(piece_view(p@) =~= seq![seq![true], seq![true], seq![true], seq![true], seq![true]]);
    r.push(p);
    let mut p: Polyomino = Vec::new();
    p.push(row_of(&[false, true]));
    p.push(row_of(&[false, true]));
    p.push(row_of(&[false, true]));
    p.push(row_of(&[true, true]));
    assert(piece_view(p@) =~= seq![seq![false, true], seq![false, true], seq![false, true], seq![true, true]]);
    r.push(p);
    let mut p: Polyomino = Vec::new();
    p.push(row_of(&[false, true]));
    p.push(row_of(&[false, true]));
    p.push(row_of(&[true, true]));
    p.push(row_of(&[true, false]));
    assert(piece_view(p@) =~= seq![seq![false, true], seq![false, true], seq![true, true], seq![true, false]]);
    r.push(p);
    let mut p: Polyomino = Vec::new();
    p.push(row_of(&[false, true]));
    p.push(row_of(&[true, true]));
    p.push(row_of(&[true, true]));
    assert(piece_view(p@) =~= seq![seq![false, true], seq![true, true], seq![true, true]]);
    r.push(p);
    let mut p: Polyomino = Vec::new();
    p.push(row_of(&[false, false, true]));
    p.push(row_of(&[true, true, true]));
    p.push(row_of(&[false, false, true]));
    assert(piece_view(p@) =~= seq![seq![false, false, true], seq![true, true, true], seq![false, false, true]]);
    r.push(p);
    let mut p: Polyomino = Vec::new();
    p.push(row_of(&[true, true]));
    p.push(row_of(&[false, true]));
    p.push(row_of(&[true, true]));
    assert(piece_view(p@) =~= seq![seq![true, true], seq![false, true], seq![true, true]]);
    r.push(p);
    let mut p: Polyomino = Vec::new();
    p.push(row_of(&[false, false, true]));
    p.push(row_of(&[false, false, true]));
    p.push(row_of(&[true, true, true]));
    assert(piece_view(p@) =~= seq![seq![false, false, true], seq![false, false, true], seq![true, true, true]]);
    r.push(p);
    let mut p: Polyomino = Vec::new();
    p.push(row_of(&[false, false, true]));
    p.push(row_of(&[false, true, true]));
    p.push(row_of(&[true, true, false]));
    assert(piece_view(p@) =~= seq![seq![false, false, true], seq![false, true, true], seq![true, true, false]]);
    r.push(p);
    let mut p: Polyomino = Vec::new();
    p.push(row_of(&[false, true, false]));
    p.push(row_of(&[true, true, true]));
    p.push(row_of(&[false, true, false]));
    assert(piece_view(p@) =~= seq![seq![false, true, false], seq![true, true, true], seq![false, true, false]]);
    r.push(p);
    let mut p: Polyomino = Vec::new();
    p.push(row_of(&[false, true]));
    p.push(row_of(&[false, true]));
    p.push(row_of(&[true, true]));
    p.push(row_of(&[false, true]));
    assert(piece_view(p@) =~= seq![seq![false, true], seq![false, true], seq![true, true], seq![false, true]]);
    r.push(p);
    let mut p: Polyomino = Vec::new();
    p.push(row_of(&[false, false, true]));
    p.push(row_of(&[true, true, true]));
    p.push(row_of(&[true, false, false]));
    assert(piece_view(p@) =~= seq![seq![false, false, true], seq![true, true, true], seq![true, false, false]]);
    r.push(p);
    assert(views(r@) =~= pentomino_shapes());
    r
}


/// The piece turned by half a turn: cell `(i, j)` of the result is cell
/// `(h - 1 - i, w - 1 - j)` of the piece.
pub open spec fn half_turned(p: Seq<Seq<bool>>) -> Seq<Seq<bool>> {
    Seq::new(p.len(), |i: int| Seq::new(p[0].len(), |j: int| p[p.len() - 1 - i][p[0].len() - 1 - j]))
}

/// A quarter turn of a rectangular piece is rectangular, with height and
/// width exchanged.
pub proof fn lemma_rotated_rectangular(p: Seq<Seq<bool>>)
    requires
        rectangular(p),
        p[0].len() > 0,
    ensures
        rectangular(rotated(p)),
        rotated(p).len() == p[0].len(),
        rotated(p)[0].len() == p.len(),
{
}

/// Two quarter turns make a half turn.
pub proof fn lemma_rotated_twice(p: Seq<Seq<bool>>)
    requires
        rectangular(p),
        p[0].len() > 0,
    ensures
        rotated(rotated(p)) == half_turned(p),
{
    lemma_rotated_rectangular(p);
    let r = rotated(p);
    let rr = rotated(r);
    let h = half_turned(p);
    assert(rr.len() == h.len());
    assert forall|i: int| 0 <= i < rr.len() implies #[trigger] rr[i] == h[i] by {
        assert(rr[i] =~= h[i]);
    }
    assert(rr =~= h);
}

/// Four quarter turns give the piece back.
pub proof fn lemma_rotation_cycle(p: Seq<Seq<bool>>)
    requires
        rectangular(p),
        p[0].len() > 0,
    ensures
        rotated(rotated(rotated(rotated(p)))) == p,
{
    lemma_rotated_twice(p);
    let h = half_turned(p);
    assert(rectangular(h));
    assert(h[0].len() == p[0].len());
    lemma_rotated_twice(h);
    let hh = half_turned(h);
    assert forall|i: int| 0 <= i < p.len() implies #[trigger] hh[i] == p[i] by {
        assert(hh[i] =~= p[i]);
    }
    assert(hh =~= p);
}

/// Mirroring a rectangular piece twice gives it back.
pub proof fn lemma_flip_involution(p: Seq<Seq<bool>>)
    requires
        rectangular(p),
    ensures
        flipped(flipped(p)) == p,
{
    let f = flipped(p);
    let ff = flipped(f);
    assert forall|i: int| 0 <= i < p.len() implies #[trigger] ff[i] == p[i] by {
        assert(ff[i] =~= p[i]);
    }
    assert(ff =~= p);
}


proof fn lemma_row_less_total(a: Seq<bool>, b: Seq<bool>)
    requires
        a != b,
    ensures
        row_less(a, b) || row_less(b, a),
    decreases a.len(),
{
    if a.len() == 0 {
        assert(b.len() > 0) by {
            if b.len() == 0 {
                assert(a =~= b);
            }
        }
    } else if b.len() > 0 && a[0] == b[0] {
        assert(a.drop_first() != b.drop_first()) by {
            if a.drop_first() == b.drop_first() {
                assert(a.drop_first().len() == b.drop_first().len());
                assert(a.len() == b.len());
                assert forall|i: int| 0 <= i < a.len() implies a[i] == b[i] by {
                    if i > 0 {
                        assert(a.drop_first()[i - 1] == a[i]);
                        assert(b.drop_first()[i - 1] == b[i]);
                    }
                }
                assert(a =~= b);
            }
        }
        lemma_row_less_total(a.drop_first(), b.drop_first());
    }
}

/// Of two different pieces, one comes before the other.
pub proof fn lemma_piece_less_total(a: Seq<Seq<bool>>, b: Seq<Seq<bool>>)
    requires
        a != b,
    ensures
        piece_less(a, b) || piece_less(b, a),
    decreases a.len(),
{
    if a.len() == 0 {
        assert(b.len() > 0) by {
            if b.len() == 0 {
                assert(a =~= b);
            }
        }
    } else if b.len() > 0 {
        if a[0] == b[0] {
            assert(a.drop_first() != b.drop_first()) by {
                if a.drop_first() == b.drop_first() {
                    assert(a.drop_first().len() == b.drop_first().len());
                    assert(a.len() == b.len());
                    assert forall|i: int| 0 <= i < a.len() implies a[i] == b[i] by {
                        if i > 0 {
                            assert(a.drop_first()[i - 1] == a[i]);
                            assert(b.drop_first()[i - 1] == b[i]);
                        }
                    }
                    assert(a =~= b);
                }
            }
            lemma_piece_less_total(a.drop_first(), b.drop_first());
        } else {
            lemma_row_less_total(a[0], b[0]);
        }
    }
}

proof fn lemma_turned_add(p: Seq<Seq<bool>>, m: nat, n: nat)
    ensures
        turned(turned(p, m), n) == turned(p, m + n),
    decreases n,
{
    if n > 0 {
        lemma_turned_add(p, m, (n - 1) as nat);
        assert(turned(p, m + n) == rotated(turned(p, (m + n - 1) as nat)));
    }
}

proof fn lemma_turned_rect(p: Seq<Seq<bool>>, n: nat)
    requires
        rectangular(p),
        p[0].len() > 0,
    ensures
        rectangular(turned(p, n)),
        turned(p, n)[0].len() > 0,
    decreases n,
{
    if n > 0 {
        lemma_turned_rect(p, (n - 1) as nat);
        let q = turned(p, (n - 1) as nat);
        lemma_rotated_rectangular(q);
    }
}

/// Turning by four quarter turns more or less changes nothing.
proof fn lemma_turned_mod(p: Seq<Seq<bool>>, n: nat)
    requires
        rectangular(p),
        p[0].len() > 0,
    ensures
        turned(p, n) == turned(p, n % 4),
    decreases n,
{
    if n >= 4 {
        lemma_turned_mod(p, (n - 4) as nat);
        lemma_turned_add(p, 4, (n - 4) as nat);
        assert(turned(p, 4) == p) by {
            reveal_with_fuel(turned, 5);
            lemma_rotation_cycle(p);
        }
        lemma_turned_add(p, 0, (n - 4) as nat);
        assert((n - 4) as nat % 4 == n % 4);
    }
}

proof fn lemma_flipped_rect(p: Seq<Seq<bool>>)
    requires
        rectangular(p),
        p[0].len() > 0,
    ensures
        rectangular(flipped(p)),
        flipped(p)[0].len() == p[0].len(),
{
}

/// A quarter turn of a mirror image is the mirror image of three quarter turns.
proof fn lemma_rotated_flipped(q: Seq<Seq<bool>>)
    requires
        rectangular(q),
        q[0].len() > 0,
    ensures
        rotated(flipped(q)) == flipped(turned(q, 3)),
{
    reveal_with_fuel(turned, 4);
    lemma_rotated_rectangular(q);
    let r1 = rotated(q);
    lemma_rotated_rectangular(r1);
    let r2 = rotated(r1);
    lemma_rotated_rectangular(r2);
    let r3 = rotated(r2);
    lemma_flipped_rect(q);
    let lhs = rotated(flipped(q));
    let rhs = flipped(r3);
    assert(lhs.len() == rhs.len());
    assert forall|j: int| 0 <= j < lhs.len() implies #[trigger] lhs[j] == rhs[j] by {
        assert(lhs[j] =~= rhs[j]);
    }
    assert(lhs =~= rhs);
}

proof fn lemma_turned_flipped(r: Seq<Seq<bool>>, b: nat)
    requires
        rectangular(r),
        r[0].len() > 0,
    ensures
        turned(flipped(r), b) == flipped(turned(r, 3 * b)),
    decreases b,
{
    if b > 0 {
        lemma_turned_flipped(r, (b - 1) as nat);
        let t = turned(r, (3 * (b - 1)) as nat);
        lemma_turned_rect(r, (3 * (b - 1)) as nat);
        lemma_rotated_flipped(t);
        lemma_turned_add(r, (3 * (b - 1)) as nat, 3);
        assert((3 * (b - 1)) as nat + 3 == 3 * b);
    }
}

/// Every orientation of an orientation of `p` is an orientation of `p`.
proof fn lemma_orientation_closed(p: Seq<Seq<bool>>, j: int, k: int)
    requires
        rectangular(p),
        p[0].len() > 0,
        0 <= j < 8,
        0 <= k < 8,
    ensures
        exists|k2: int| 0 <= k2 < 8 && orientation(orientation(p, j), k) == orientation(p, k2),
{
    let a = (j / 2) as nat;
    let b = (k / 2) as nat;
    let r = turned(p, a);
    lemma_turned_rect(p, a);
    if j % 2 == 0 {
        lemma_turned_add(p, a, b);
        lemma_turned_mod(p, a + b);
        let m = ((a + b) % 4) as int;
        if k % 2 == 0 {
            assert(orientation(p, 2 * m) == turned(p, m as nat));
        } else {
            assert(orientation(p, 2 * m + 1) == flipped(turned(p, m as nat)));
        }
    } else {
        lemma_turned_flipped(r, b);
        lemma_turned_add(p, a, 3 * b);
        lemma_turned_mod(p, a + 3 * b);
        let m = ((a + 3 * b) % 4) as int;
        if k % 2 == 0 {
            assert(orientation(p, 2 * m + 1) == flipped(turned(p, m as nat)));
        } else {
            lemma_turned_rect(p, (a + 3 * b) as nat);
            lemma_flip_involution(turned(p, (a + 3 * b) as nat));
            assert(orientation(p, 2 * m) == turned(p, m as nat));
        }
    }
}

/// `p` is an orientation of each of its orientations.
proof fn lemma_orientation_back(p: Seq<Seq<bool>>, j: int)
    requires
        rectangular(p),
        p[0].len() > 0,
        0 <= j < 8,
    ensures
        exists|k: int| 0 <= k < 8 && orientation(orientation(p, j), k) == p,
{
    let a = (j / 2) as nat;
    let q = orientation(p, j);
    lemma_turned_rect(p, a);
    let b = ((4 - a % 4) % 4) as nat;
    if j % 2 == 0 {
        lemma_turned_add(p, a, b);
        lemma_turned_mod(p, a + b);
        assert((a + b) % 4 == 0);
        assert(orientation(q, 2 * b as int) == p);
    } else {
        let r = turned(p, a);
        lemma_flip_involution(r);
        // orientation 1 of q undoes the mirror; then turn back
        assert(orientation(q, 1) == r);
        lemma_flipped_rect(r);
        lemma_turned_add(p, a, b);
        lemma_turned_mod(p, a + b);
        assert(turned(r, b) == p);
        // a turn of q is the mirror image of three turns of r
        let c = ((3 * b) % 4) as nat;
        lemma_turned_flipped(r, c);
        lemma_turned_rect(r, 3 * c);
        lemma_turned_mod(r, 3 * c);
        assert((3 * c) % 4 == (9 * b) % 4);
        assert((9 * b) % 4 == b % 4);
        lemma_turned_mod(r, b);
        assert(b % 4 == b);
        // orientation(q, 2c + 1) = flipped(turned(q, c)) = flipped(flipped(turned(r, 3c))) = turned(r, b) = p
        lemma_turned_rect(r, (3 * c) as nat);
        lemma_flip_involution(turned(r, (3 * c) as nat));
        assert(orientation(q, 2 * c as int + 1) == p);
    }
}

/// All orientations of a piece share one normal form: if `r1` is an
/// orientation of `p` that no orientation of `p` precedes, and `r2` is such
/// an orientation of `q`, itself an orientation of `p`, then `r1` and `r2`
/// are equal.
pub proof fn lemma_normal_form_shared(p: Seq<Seq<bool>>, j: int, r1: Seq<Seq<bool>>, r2: Seq<Seq<bool>>)
    requires
        rectangular(p),
        p[0].len() > 0,
        0 <= j < 8,
        exists|k: int| 0 <= k < 8 && r1 == orientation(p, k),
        forall|k: int| 0 <= k < 8 ==> !piece_less(#[trigger] orientation(p, k), r1),
        exists|k: int| 0 <= k < 8 && r2 == orientation(orientation(p, j), k),
        forall|k: int| 0 <= k < 8 ==> !piece_less(#[trigger] orientation(orientation(p, j), k), r2),
    ensures
        r1 == r2,
{
    let q = orientation(p, j);
    let k2 = choose|k: int| 0 <= k < 8 && r2 == orientation(q, k);
    lemma_orientation_closed(p, j, k2);
    let k2p = choose|k: int| 0 <= k < 8 && orientation(q, k2) == orientation(p, k);
    assert(!piece_less(orientation(p, k2p), r1));
    assert(!piece_less(r2, r1));
    let k1 = choose|k: int| 0 <= k < 8 && r1 == orientation(p, k);
    assert(exists|k: int| 0 <= k < 8 && orientation(q, k) == p) by {
        lemma_orientation_back(p, j);
    }
    let b = choose|k: int| 0 <= k < 8 && orientation(q, k) == p;
    lemma_turned_rect(p, (j / 2) as nat);
    let qa = turned(p, (j / 2) as nat);
    assert(rectangular(q) && q[0].len() > 0) by {
        if j % 2 == 1 {
            lemma_flipped_rect(qa);
        }
    }
    lemma_orientation_closed(q, b, k1);
    let k1q = choose|k: int| 0 <= k < 8 && orientation(orientation(q, b), k1) == orientation(q, k);
    assert(orientation(q, k1q) == r1);
    assert(!piece_less(r1, r2));
    if r1 != r2 {
        lemma_piece_less_total(r1, r2);
    }
}

} // verus!
