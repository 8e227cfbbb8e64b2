//! Multi-layer grid geometry: layer bounds, flat indexing over the
//! concatenated layers, 8-neighbor adjacency, and portal edges.

use vstd::prelude::*;

use crate::common::{lemma_index_in_range, lemma_loc_of_index, lemma_mul_fits};
use crate::errors::Error;

verus! {

/// A cell position: the layer it lies on and its coordinates there.
#[derive(Debug, Hash, PartialEq, Eq, Clone, Copy, Structural)]
pub struct PixelLoc {
    pub layer: u8,
    pub i: i32,
    pub j: i32,
}

pub open spec fn imin_of(a: PixelLoc, b: PixelLoc) -> int {
    vstd::math::min(a.i as int, b.i as int)
}

pub open spec fn imax_of(a: PixelLoc, b: PixelLoc) -> int {
    vstd::math::max(a.i as int, b.i as int)
}

/// The row that the ideal line from `a` to `b` passes through at column
/// `i`: the floor of `a.j + (b.j - a.j) * (i - a.i) / (b.i - a.i)`.
pub open spec fn col_j(a: PixelLoc, b: PixelLoc, i: int) -> int {
    let di = b.i - a.i;
    let dj = b.j - a.j;
    let t = i - a.i;
    if di > 0 {
        a.j + (dj * t) / di
    } else {
        a.j + ((-dj) * t) / (-di)
    }
}

/// The cells of column `i` with rows `lo ..= hi`, bottom to top.
pub open spec fn column_points(layer: u8, i: int, lo: int, hi: int) -> Seq<PixelLoc> {
    Seq::new((hi - lo + 1) as nat, |k: int| PixelLoc { layer, i: i as i32, j: (lo + k) as i32 })
}

/// The rows that column `i` of the line from `a` to `b` covers: just the
/// line's own row in the first column, and from the previous column's row
/// to this column's row everywhere else, so that no diagonal gap opens.
pub open spec fn line_span(a: PixelLoc, b: PixelLoc, i: int) -> (int, int) {
    let j1 = col_j(a, b, i);
    if i <= imin_of(a, b) {
        (j1, j1)
    } else {
        let j0 = col_j(a, b, i - 1);
        (vstd::math::min(j0, j1), vstd::math::max(j0, j1))
    }
}

/// The cells of the line from `a` to `b` in columns `imin ..= i`.
pub open spec fn sloped_line_prefix(a: PixelLoc, b: PixelLoc, i: int) -> Seq<PixelLoc>
    decreases i - imin_of(a, b),
{
    if i < imin_of(a, b) {
        Seq::empty()
    } else if i == imin_of(a, b) {
        column_points(a.layer, i, line_span(a, b, i).0, line_span(a, b, i).1)
    } else {
        sloped_line_prefix(a, b, i - 1) + column_points(
            a.layer,
            i,
            line_span(a, b, i).0,
            line_span(a, b, i).1,
        )
    }
}

/// The cells of the vertical line from `a` to row `other_j`.
pub open spec fn vertical_line_seq(a: PixelLoc, other_j: int) -> Seq<PixelLoc> {
    column_points(
        a.layer,
        a.i as int,
        vstd::math::min(a.j as int, other_j),
        vstd::math::max(a.j as int, other_j),
    )
}

/// The cells of the line from `a` to `b`, column by column.
pub open spec fn line_to_seq(a: PixelLoc, b: PixelLoc) -> Seq<PixelLoc> {
    if a.i == b.i {
        vertical_line_seq(a, b.j as int)
    } else {
        sloped_line_prefix(a, b, imax_of(a, b))
    }
}

/// Quotients `(n * u) / q` for `0 <= u <= q` stay between `0` and `n`.
proof fn lemma_mul_div_range(n: int, u: int, q: int)
    requires
        q > 0,
        0 <= u <= q,
    ensures
        vstd::math::min(0, n) <= (n * u) / q <= vstd::math::max(0, n),
{
    if n >= 0 {
        assert(0 <= n * u <= n * q) by (nonlinear_arith)
            requires
                q > 0,
                0 <= u <= q,
                n >= 0,
        ;
        vstd::arithmetic::div_mod::lemma_div_pos_is_pos(n * u, q);
        vstd::arithmetic::div_mod::lemma_div_is_ordered(n * u, n * q, q);
        assert((q * n) / q == n) by {
            vstd::arithmetic::div_mod::lemma_div_multiples_vanish(n, q);
        }
        assert(n * q == q * n) by (nonlinear_arith);
    } else {
        assert(n * q <= n * u <= 0) by (nonlinear_arith)
            requires
                q > 0,
                0 <= u <= q,
                n < 0,
        ;
        vstd::arithmetic::div_mod::lemma_div_is_ordered(n * q, n * u, q);
        vstd::arithmetic::div_mod::lemma_div_is_ordered(n * u, 0, q);
        assert((q * n) / q == n) by {
            vstd::arithmetic::div_mod::lemma_div_multiples_vanish(n, q);
        }
        assert(n * q == q * n) by (nonlinear_arith);
        assert(0int / q == 0) by {
            vstd::arithmetic::div_mod::lemma_basic_div(0, q);
        }
    }
}

/// Along the line, every column's row stays between the endpoints' rows.
pub proof fn lemma_col_j_bounds(a: PixelLoc, b: PixelLoc, i: int)
    requires
        a.i != b.i,
        imin_of(a, b) <= i <= imax_of(a, b),
    ensures
        vstd::math::min(a.j as int, b.j as int) <= col_j(a, b, i),
        col_j(a, b, i) <= vstd::math::max(a.j as int, b.j as int),
{
    let di = b.i - a.i;
    let dj = b.j - a.j;
    let t = i - a.i;
    if di > 0 {
        lemma_mul_div_range(dj as int, t, di as int);
    } else {
        assert((-dj) * t == dj * (-t)) by (nonlinear_arith);
        lemma_mul_div_range(dj as int, -t, -di as int);
    }
}

/// The geometry of one rectangular layer.
#[derive(Debug, Clone, Copy)]
pub struct RectangularArray {
    pub width: u32,
    pub height: u32,
}

impl RectangularArray {
    /// Bounds small enough that in-layer flat indices fit the 32-bit
    /// arithmetic of the index formulas.
    pub open spec fn well_formed(self) -> bool {
        &&& self.width <= i32::MAX
        &&& self.height <= i32::MAX
        &&& self.width * self.height <= u32::MAX
    }

    /// In-bounds for this layer's rectangle; the `layer` field plays no part.
    pub open spec fn spec_valid(self, loc: PixelLoc) -> bool {
        &&& 0 <= loc.i < self.width
        &&& 0 <= loc.j < self.height
    }

    /// Row-major flat index within the layer.
    pub open spec fn spec_index_of(self, loc: PixelLoc) -> int {
        loc.j * self.width + loc.i
    }

    pub open spec fn spec_len(self) -> int {
        self.width * self.height
    }

    pub fn is_valid(&self, loc: PixelLoc) -> (r: bool)
        ensures
            r == self.spec_valid(loc),
    {
        (loc.i >= 0)
            && (loc.j >= 0)
            && ((loc.i as i64) < (self.width as i64))
            && ((loc.j as i64) < (self.height as i64))
    }

    pub fn get_index(&self, loc: PixelLoc) -> (r: Option<usize>)
        requires
            self.well_formed(),
        ensures
            match r {
                Some(k) => self.spec_valid(loc) && k == self.spec_index_of(loc)
                    && k < self.spec_len(),
                None => !self.spec_valid(loc),
            },
    {
        if self.is_valid(loc) {
            proof {
                lemma_index_in_range(
                    self.width as int,
                    self.height as int,
                    loc.i as int,
                    loc.j as int,
                );
            }
            Some((loc.j as usize) * (self.width as usize) + (loc.i as usize))
        } else {
            None
        }
    }

    /// The location on layer `layer` whose in-layer flat index is `index`.
    pub fn get_loc(&self, layer: u8, index: usize) -> (r: Option<PixelLoc>)
        requires
            self.well_formed(),
        ensures
            match r {
                Some(loc) => index < self.spec_len() && self.spec_valid(loc)
                    && self.spec_index_of(loc) == index && loc.layer == layer,
                None => index >= self.spec_len(),
            },
    {
        if index < self.len() {
            proof {
                lemma_loc_of_index(self.width as int, self.height as int, index as int);
            }
            let w = self.width as usize;
            Some(PixelLoc { layer, i: (index % w) as i32, j: (index / w) as i32 })
        } else {
            None
        }
    }

    pub fn len(&self) -> (r: usize)
        requires
            self.well_formed(),
        ensures
            r == self.spec_len(),
    {
        proof {
            lemma_mul_fits(self.width as int, self.height as int);
        }
        (self.width as usize) * (self.height as usize)
    }
}

/// Either a one-element sequence or an empty one, used to describe the
/// neighbor list of a cell.
pub open spec fn maybe_loc(cond: bool, l: PixelLoc) -> Seq<PixelLoc> {
    if cond {
        seq![l]
    } else {
        Seq::empty()
    }
}

/// `loc` shifted by `(di, dj)` on its own layer.
pub open spec fn adj_loc(loc: PixelLoc, di: int, dj: int) -> PixelLoc {
    PixelLoc { layer: loc.layer, i: (loc.i + di) as i32, j: (loc.j + dj) as i32 }
}

impl RectangularArray {
    /// Whether `loc` shifted by `(di, dj)` stays inside this layer.
    pub open spec fn adj_ok(self, loc: PixelLoc, di: int, dj: int) -> bool {
        &&& 0 <= loc.i + di < self.width
        &&& 0 <= loc.j + dj < self.height
    }

    /// The up-to-8 same-layer neighbors that are in bounds, in row-major
    /// order of the offsets.
    pub open spec fn spec_adjacent(self, loc: PixelLoc) -> Seq<PixelLoc> {
        maybe_loc(self.adj_ok(loc, -1, -1), adj_loc(loc, -1, -1))
            + maybe_loc(self.adj_ok(loc, -1, 0), adj_loc(loc, -1, 0))
            + maybe_loc(self.adj_ok(loc, -1, 1), adj_loc(loc, -1, 1))
            + maybe_loc(self.adj_ok(loc, 0, -1), adj_loc(loc, 0, -1))
            + maybe_loc(self.adj_ok(loc, 0, 1), adj_loc(loc, 0, 1))
            + maybe_loc(self.adj_ok(loc, 1, -1), adj_loc(loc, 1, -1))
            + maybe_loc(self.adj_ok(loc, 1, 0), adj_loc(loc, 1, 0))
            + maybe_loc(self.adj_ok(loc, 1, 1), adj_loc(loc, 1, 1))
    }

    /// Appends the neighbor at offset `(di, dj)` if it is in bounds.
    fn push_if_adjacent(&self, v: &mut Vec<PixelLoc>, loc: PixelLoc, di: i8, dj: i8)
        requires
            self.well_formed(),
            -1 <= di <= 1,
            -1 <= dj <= 1,
        ensures
            final(v)@ == old(v)@ + maybe_loc(
                self.adj_ok(loc, di as int, dj as int),
                adj_loc(loc, di as int, dj as int),
            ),
    {
        let ni = loc.i as i64 + di as i64;
        let nj = loc.j as i64 + dj as i64;
        if 0 <= ni && ni < self.width as i64 && 0 <= nj && nj < self.height as i64 {
            v.push(PixelLoc { layer: loc.layer, i: ni as i32, j: nj as i32 });
        } else {
            assert(v@ =~= old(v)@ + Seq::<PixelLoc>::empty());
        }
    }

    /// The in-bounds same-layer neighbors of `loc`, portal edges excluded.
    pub fn iter_adjacent(&self, loc: PixelLoc) -> (r: Vec<PixelLoc>)
        requires
            self.well_formed(),
        ensures
            r@ == self.spec_adjacent(loc),
    {
        let mut v: Vec<PixelLoc> = Vec::new();
        self.push_if_adjacent(&mut v, loc, -1, -1);
        self.push_if_adjacent(&mut v, loc, -1, 0);
        self.push_if_adjacent(&mut v, loc, -1, 1);
        self.push_if_adjacent(&mut v, loc, 0, -1);
        self.push_if_adjacent(&mut v, loc, 0, 1);
        self.push_if_adjacent(&mut v, loc, 1, -1);
        self.push_if_adjacent(&mut v, loc, 1, 0);
        self.push_if_adjacent(&mut v, loc, 1, 1);
        assert(v@ =~= self.spec_adjacent(loc));
        v
    }
}

/// A product of two factors below `m` in magnitude stays below `m * m`.
proof fn lemma_mul_magnitude(x: int, y: int, m: int)
    by (nonlinear_arith)
    requires
        0 < m,
        -m < x < m,
        -m < y < m,
    ensures
        -(m * m) < x * y < m * m,
{
}

/// Floor division by a positive divisor, computed on magnitudes so that
/// negative numerators still round toward minus infinity.
fn floor_div_i128(p: i128, q: i128) -> (r: i128)
    requires
        0 < q < 0x1_0000_0000_0000_0000,
        -0x1_0000_0000_0000_0000_0000 < p < 0x1_0000_0000_0000_0000_0000,
    ensures
        r == (p as int) / (q as int),
{
    if p >= 0 {
        let d = ((p as u128) / (q as u128)) as i128;
        proof {
            vstd::arithmetic::div_mod::lemma_div_pos_is_pos(p as int, q as int);
            vstd::arithmetic::div_mod::lemma_div_is_ordered(p as int, p as int, q as int);
            vstd::arithmetic::div_mod::lemma_div_nonincreasing(p as int, q as int);
        }
        d
    } else {
        let a = (-p) as u128;
        let c = ((a + (q as u128) - 1) / (q as u128)) as i128;
        proof {
            let pi = p as int;
            let qi = q as int;
            let f = pi / qi;
            let rm = pi % qi;
            vstd::arithmetic::div_mod::lemma_fundamental_div_mod(pi, qi);
            vstd::arithmetic::div_mod::lemma_mod_division_less_than_divisor(pi, qi);
            assert((-pi) + qi - 1 == qi * (-f) + (qi - 1 - rm)) by (nonlinear_arith)
                requires
                    pi == qi * f + rm,
            ;
            vstd::arithmetic::div_mod::lemma_div_multiples_vanish_fancy(-f, qi - 1 - rm, qi);
            assert(((-pi) + qi - 1) / qi == -f);
            vstd::arithmetic::div_mod::lemma_div_pos_is_pos((-pi) + qi - 1, qi);
            vstd::arithmetic::div_mod::lemma_div_nonincreasing((-pi) + qi - 1, qi);
        }
        -c
    }
}

impl PixelLoc {
    /// The row of the line from `self` to `other` at column `i`, bounded
    /// by the endpoint rows.
    fn col_j_exec(&self, other: PixelLoc, i: i64) -> (r: i64)
        requires
            self.i != other.i,
            imin_of(*self, other) <= i <= imax_of(*self, other),
        ensures
            r == col_j(*self, other, i as int),
            vstd::math::min(self.j as int, other.j as int) <= r,
            r <= vstd::math::max(self.j as int, other.j as int),
    {
        proof {
            lemma_col_j_bounds(*self, other, i as int);
        }
        let di = other.i as i64 - self.i as i64;
        let dj = other.j as i64 - self.j as i64;
        let t = i - self.i as i64;
        proof {
            lemma_mul_magnitude(dj as int, t as int, 0x10_0000_0000);
            lemma_mul_magnitude(-(dj as int), t as int, 0x10_0000_0000);
        }
        let p: i128;
        let q: i128;
        if di > 0 {
            p = (dj as i128) * (t as i128);
            q = di as i128;
        } else {
            p = (-(dj as i128)) * (t as i128);
            q = -(di as i128);
        }
        let f = floor_div_i128(p, q);
        self.j as i64 + f as i64
    }

    /// The cells of the line from `self` to `other`, both endpoints
    /// included. Bresenham-style, but widened so that consecutive columns
    /// always overlap or touch by row: no diagonal opening is left. Both
    /// points are taken to lie on `self`'s layer.
    pub fn line_to(&self, other: PixelLoc) -> (r: Vec<PixelLoc>)
        ensures
            r@ == line_to_seq(*self, other),
    {
        if self.i == other.i {
            self.vertical_line_to(other.j)
        } else {
            self.finite_slope_line_to(other)
        }
    }

    fn vertical_line_to(&self, other_j: i32) -> (r: Vec<PixelLoc>)
        ensures
            r@ == vertical_line_seq(*self, other_j as int),
    {
        let jmin = if self.j <= other_j { self.j } else { other_j };
        let jmax = if self.j <= other_j { other_j } else { self.j };
        let mut out: Vec<PixelLoc> = Vec::new();
        let mut j: i64 = jmin as i64;
        while j <= jmax as i64
            invariant
                jmin as int <= j <= jmax as int + 1,
                out@.len() == j - jmin,
                forall|k: int| 0 <= k < out@.len()
                    ==> out@[k] == (PixelLoc { layer: self.layer, i: self.i, j: (jmin + k) as i32 }),
            decreases jmax as int + 1 - j,
        {
            out.push(PixelLoc { layer: self.layer, i: self.i, j: j as i32 });
            j = j + 1;
        }
        proof {
            assert(out@ =~= vertical_line_seq(*self, other_j as int));
        }
        out
    }

    fn finite_slope_line_to(&self, other: PixelLoc) -> (r: Vec<PixelLoc>)
        requires
            self.i != other.i,
        ensures
            r@ == sloped_line_prefix(*self, other, imax_of(*self, other)),
    {
        let imin: i64 = if self.i <= other.i { self.i as i64 } else { other.i as i64 };
        let imax: i64 = if self.i <= other.i { other.i as i64 } else { self.i as i64 };
        let mut out: Vec<PixelLoc> = Vec::new();
        let mut prev_j: i64 = self.col_j_exec(other, imin);
        out.push(PixelLoc { layer: self.layer, i: imin as i32, j: prev_j as i32 });
        proof {
            assert(out@ =~= sloped_line_prefix(*self, other, imin as int));
        }
        let mut i: i64 = imin + 1;
        while i <= imax
            invariant
                self.i != other.i,
                imin == imin_of(*self, other),
                imax == imax_of(*self, other),
                imin + 1 <= i <= imax + 1,
                prev_j == col_j(*self, other, i - 1),
                vstd::math::min(self.j as int, other.j as int) <= prev_j,
                prev_j <= vstd::math::max(self.j as int, other.j as int),
                out@ == sloped_line_prefix(*self, other, i - 1),
            decreases imax + 1 - i,
        {
            let j1 = self.col_j_exec(other, i);
            let jlo = if prev_j <= j1 { prev_j } else { j1 };
            let jhi = if prev_j <= j1 { j1 } else { prev_j };
            let ghost col = column_points(self.layer, i as int, jlo as int, jhi as int);
            let ghost out_before = out@;
            let mut j: i64 = jlo;
            while j <= jhi
                invariant
                    jlo <= j <= jhi + 1,
                    -0x8000_0000 <= jlo <= jhi < 0x8000_0000,
                    i as int == i as i32 as int,
                    col == column_points(self.layer, i as int, jlo as int, jhi as int),
                    out@.len() == out_before.len() + (j - jlo),
                    out@ == out_before + col.subrange(0, j - jlo),
                decreases jhi + 1 - j,
            {
                out.push(PixelLoc { layer: self.layer, i: i as i32, j: j as i32 });
                proof {
                    assert(out@ =~= out_before + col.subrange(0, j + 1 - jlo));
                }
                j = j + 1;
            }
            proof {
                assert(col.subrange(0, jhi + 1 - jlo) =~= col);
                assert(out@ == sloped_line_prefix(*self, other, i as int));
            }
            prev_j = j1;
            i = i + 1;
        }
        out
    }
}

/// A registered portal partner always stands first in the neighbor list,
/// so filling one end of a portal edge reaches the other.
pub proof fn lemma_portal_in_adjacent(t: Topology, a: PixelLoc, b: PixelLoc)
    requires
        t.portal_spec(a) == Some(b),
    ensures
        t.spec_adjacent(a).len() > 0,
        t.spec_adjacent(a)[0] == b,
        t.spec_adjacent(a).contains(b),
{
    assert(t.spec_adjacent(a)[0] == b);
}

/// Two distinct valid cells of one layer never share an in-layer index.
pub proof fn lemma_layer_index_injective(ra: RectangularArray, a: PixelLoc, b: PixelLoc)
    by (nonlinear_arith)
    requires
        ra.spec_valid(a),
        ra.spec_valid(b),
        a.layer == b.layer,
        ra.spec_index_of(a) == ra.spec_index_of(b),
    ensures
        a == b,
{
}

/// The grid geometry of every layer plus the portal table, with a flat
/// index space formed by concatenating the layers in order.
pub struct Topology {
    pub layers: Vec<RectangularArray>,
    /// Portal partner of each flat index, if one is registered.
    pub portals: Vec<Option<PixelLoc>>,
}

/// Total cell count of the first `l` layers.
pub open spec fn prefix_len(layers: Seq<RectangularArray>, l: int) -> int
    decreases l,
{
    if l <= 0 {
        0
    } else {
        prefix_len(layers, l - 1) + layers[l - 1].spec_len()
    }
}

/// The prefix sums of layer sizes never decrease.
pub proof fn lemma_prefix_len_monotone(layers: Seq<RectangularArray>, a: int, b: int)
    requires
        0 <= a <= b <= layers.len(),
    ensures
        prefix_len(layers, a) <= prefix_len(layers, b),
    decreases b,
{
    if a < b {
        lemma_prefix_len_monotone(layers, a, b - 1);
        lemma_mul_fits(layers[b - 1].width as int, layers[b - 1].height as int);
    }
}

impl Topology {
    /// Layers acceptable for flat indexing: at most 256 of them (a layer
    /// index is a `u8`), each well formed, and the whole canvas addressable
    /// by a `usize`.
    pub open spec fn layers_acceptable(layers: Seq<RectangularArray>) -> bool {
        &&& layers.len() <= 256
        &&& forall|l: int| 0 <= l < layers.len() ==> (#[trigger] layers[l]).well_formed()
        &&& prefix_len(layers, layers.len() as int) <= usize::MAX
    }

    pub open spec fn spec_len(self) -> int {
        prefix_len(self.layers@, self.layers@.len() as int)
    }

    pub open spec fn spec_valid(self, loc: PixelLoc) -> bool {
        &&& (loc.layer as int) < self.layers@.len()
        &&& self.layers@[loc.layer as int].spec_valid(loc)
    }

    /// Flat index over the concatenated layers.
    pub open spec fn spec_index_of(self, loc: PixelLoc) -> int {
        prefix_len(self.layers@, loc.layer as int)
            + self.layers@[loc.layer as int].spec_index_of(loc)
    }

    pub open spec fn well_formed(self) -> bool {
        &&& Topology::layers_acceptable(self.layers@)
        &&& self.portals@.len() == self.spec_len()
        &&& forall|k: int| 0 <= k < self.portals@.len()
            ==> ((#[trigger] self.portals@[k]) matches Some(q) ==> self.spec_valid(q))
    }

    /// The registered portal partner of `loc`, if any.
    pub open spec fn portal_spec(self, loc: PixelLoc) -> Option<PixelLoc> {
        if self.spec_valid(loc) {
            self.portals@[self.spec_index_of(loc)]
        } else {
            None
        }
    }

    /// Builds a topology with the given layers and no portals; rejects
    /// layer lists whose flat index space cannot be addressed.
    pub fn new(layers: Vec<RectangularArray>) -> (r: Result<Topology, Error>)
        ensures
            match r {
                Ok(t) => Topology::layers_acceptable(layers@) && t.layers@ == layers@
                    && t.well_formed()
                    && forall|loc: PixelLoc| t.portal_spec(loc) is None,
                Err(e) => !Topology::layers_acceptable(layers@) && e == Error::CanvasTooLarge,
            },
    {
        if layers.len() > 256 {
            return Err(Error::CanvasTooLarge);
        }
        let mut total: u64 = 0;
        let mut l: usize = 0;
        while l < layers.len()
            invariant
                l <= layers.len() <= 256,
                total == prefix_len(layers@, l as int),
                total <= (l as int) * 0x1_0000_0000,
                forall|m: int| 0 <= m < l ==> (#[trigger] layers@[m]).well_formed(),
            decreases layers.len() - l,
        {
            let layer = layers[l];
            if layer.width > i32::MAX as u32 || layer.height > i32::MAX as u32 {
                return Err(Error::CanvasTooLarge);
            }
            assert((layer.width as int) * (layer.height as int) < 0x4000_0000_0000_0000)
                by (nonlinear_arith)
                requires
                    (layer.width as int) <= 0x7fff_ffff,
                    (layer.height as int) <= 0x7fff_ffff,
            ;
            let area = (layer.width as u64) * (layer.height as u64);
            if area > u32::MAX as u64 {
                proof {
                    lemma_mul_fits(layer.width as int, layer.height as int);
                }
                return Err(Error::CanvasTooLarge);
            }
            total = total + area;
            l = l + 1;
        }
        if total > usize::MAX as u64 {
            return Err(Error::CanvasTooLarge);
        }
        let n = total as usize;
        let mut portals: Vec<Option<PixelLoc>> = Vec::new();
        let mut k: usize = 0;
        while k < n
            invariant
                portals@.len() == k <= n,
                forall|m: int| 0 <= m < k ==> (#[trigger] portals@[m]) is None,
            decreases n - k,
        {
            portals.push(None);
            k = k + 1;
        }
        let t = Topology { layers, portals };
        proof {
            assert forall|loc: PixelLoc| t.portal_spec(loc) is None by {
                if t.spec_valid(loc) {
                    lemma_topology_index_in_range(t, loc);
                }
            }
        }
        Ok(t)
    }

    pub fn is_valid(&self, loc: PixelLoc) -> (r: bool)
        ensures
            r == self.spec_valid(loc),
    {
        let lu = loc.layer as usize;
        if lu < self.layers.len() {
            self.layers[lu].is_valid(loc)
        } else {
            false
        }
    }

    /// The flat index of `loc` over the concatenated layers, or `None` if
    /// the location is invalid.
    pub fn get_index(&self, loc: PixelLoc) -> (r: Option<usize>)
        requires
            self.well_formed(),
        ensures
            match r {
                Some(k) => self.spec_valid(loc) && k == self.spec_index_of(loc)
                    && k < self.spec_len(),
                None => !self.spec_valid(loc),
            },
    {
        let lu = loc.layer as usize;
        if lu >= self.layers.len() {
            return None;
        }
        let in_layer = self.layers[lu].get_index(loc);
        match in_layer {
            None => None,
            Some(in_layer_index) => {
                let offset = self.prefix_sum(lu);
                proof {
                    lemma_topology_index_in_range(*self, loc);
                }
                Some(offset + in_layer_index)
            },
        }
    }

    /// Total cell count of layers `0 .. l`.
    fn prefix_sum(&self, l: usize) -> (r: usize)
        requires
            self.well_formed(),
            l <= self.layers@.len(),
        ensures
            r == prefix_len(self.layers@, l as int),
    {
        let mut off: usize = 0;
        let mut m: usize = 0;
        while m < l
            invariant
                m <= l <= self.layers@.len(),
                self.well_formed(),
                off == prefix_len(self.layers@, m as int),
            decreases l - m,
        {
            proof {
                lemma_prefix_len_monotone(self.layers@, m + 1, self.layers@.len() as int);
            }
            off = off + self.layers[m].len();
            m = m + 1;
        }
        off
    }

    /// The flat index range `[start, end)` that layer `layer` occupies, or
    /// `None` if there is no such layer.
    pub fn get_layer_bounds(&self, layer: u8) -> (r: Option<(usize, usize)>)
        requires
            self.well_formed(),
        ensures
            match r {
                Some(b) => (layer as int) < self.layers@.len()
                    && b.0 == prefix_len(self.layers@, layer as int)
                    && b.1 == prefix_len(self.layers@, layer as int + 1)
                    && b.0 <= b.1 <= self.spec_len(),
                None => (layer as int) >= self.layers@.len(),
            },
    {
        let lu = layer as usize;
        if lu < self.layers.len() {
            let offset = self.prefix_sum(lu);
            proof {
                lemma_prefix_len_monotone(self.layers@, lu as int + 1, self.layers@.len() as int);
                lemma_mul_fits(
                    self.layers@[lu as int].width as int,
                    self.layers@[lu as int].height as int,
                );
            }
            let len = self.layers[lu].len();
            Some((offset, offset + len))
        } else {
            None
        }
    }

    /// The location whose flat index is `index`, or `None` past the end of
    /// the last layer.
    pub fn get_loc(&self, index: usize) -> (r: Option<PixelLoc>)
        requires
            self.well_formed(),
        ensures
            match r {
                Some(loc) => index < self.spec_len() && self.spec_valid(loc)
                    && self.spec_index_of(loc) == index,
                None => index >= self.spec_len(),
            },
    {
        let mut cum: usize = 0;
        let mut l: usize = 0;
        while l < self.layers.len()
            invariant
                l <= self.layers@.len(),
                self.well_formed(),
                cum == prefix_len(self.layers@, l as int),
                index >= cum,
            decreases self.layers@.len() - l,
        {
            proof {
                lemma_prefix_len_monotone(self.layers@, l + 1, self.layers@.len() as int);
            }
            let llen = self.layers[l].len();
            if index - cum < llen {
                let r = self.layers[l].get_loc(l as u8, index - cum);
                proof {
                    lemma_prefix_len_monotone(self.layers@, 0, l as int);
                }
                return r;
            }
            cum = cum + llen;
            l = l + 1;
        }
        None
    }

    pub fn len(&self) -> (r: usize)
        requires
            self.well_formed(),
        ensures
            r == self.spec_len(),
    {
        self.prefix_sum(self.layers.len())
    }

    /// A fresh deep copy of this topology.
    pub fn duplicate(&self) -> (r: Topology)
        ensures
            r.layers@ == self.layers@,
            r.portals@ == self.portals@,
    {
        let mut layers: Vec<RectangularArray> = Vec::new();
        let mut k: usize = 0;
        while k < self.layers.len()
            invariant
                k <= self.layers@.len(),
                layers@ =~= self.layers@.subrange(0, k as int),
            decreases self.layers@.len() - k,
        {
            layers.push(self.layers[k]);
            k = k + 1;
        }
        let mut portals: Vec<Option<PixelLoc>> = Vec::new();
        let mut m: usize = 0;
        while m < self.portals.len()
            invariant
                m <= self.portals@.len(),
                portals@ =~= self.portals@.subrange(0, m as int),
            decreases self.portals@.len() - m,
        {
            portals.push(self.portals[m]);
            m = m + 1;
        }
        proof {
            assert(layers@ =~= self.layers@);
            assert(portals@ =~= self.portals@);
        }
        Topology { layers, portals }
    }

    /// Neighbors of `loc`: its portal partner, if registered, followed by
    /// its in-bounds same-layer grid neighbors.
    pub open spec fn spec_adjacent(self, loc: PixelLoc) -> Seq<PixelLoc> {
        (match self.portal_spec(loc) {
            Some(p) => seq![p],
            None => Seq::empty(),
        }) + (if (loc.layer as int) < self.layers@.len() {
            self.layers@[loc.layer as int].spec_adjacent(loc)
        } else {
            Seq::empty()
        })
    }

    /// The neighbor list of `loc`: the registered portal partner first,
    /// then the up-to-8 in-bounds grid neighbors.
    pub fn iter_adjacent(&self, loc: PixelLoc) -> (r: Vec<PixelLoc>)
        requires
            self.well_formed(),
        ensures
            r@ == self.spec_adjacent(loc),
    {
        let mut v: Vec<PixelLoc> = Vec::new();
        match self.get_index(loc) {
            Some(k) => {
                match self.portals[k] {
                    Some(p) => { v.push(p); },
                    None => {},
                }
            },
            None => {},
        }
        let lu = loc.layer as usize;
        if lu < self.layers.len() {
            let mut grid = self.layers[lu].iter_adjacent(loc);
            v.append(&mut grid);
        }
        assert(v@ =~= self.spec_adjacent(loc));
        v
    }

    /// The last pair in `pairs` whose source is `loc` and whose endpoints
    /// are both valid, read as the portal partner it installs.
    pub open spec fn spec_portal_from_pairs(
        self,
        pairs: Seq<(PixelLoc, PixelLoc)>,
        loc: PixelLoc,
    ) -> Option<PixelLoc>
        decreases pairs.len(),
    {
        if pairs.len() == 0 {
            None
        } else {
            let lp = pairs.last();
            if lp.0 == loc && self.spec_valid(lp.0) && self.spec_valid(lp.1) {
                Some(lp.1)
            } else {
                self.spec_portal_from_pairs(pairs.drop_last(), loc)
            }
        }
    }

    /// Replaces the whole portal table with the given directed pairs;
    /// pairs with an invalid endpoint are dropped, and a later pair for
    /// the same source wins.
    pub fn set_portals(&mut self, pairs: &Vec<(PixelLoc, PixelLoc)>)
        requires
            old(self).well_formed(),
        ensures
            final(self).well_formed(),
            final(self).layers@ == old(self).layers@,
            forall|loc: PixelLoc| #[trigger] final(self).portal_spec(loc)
                == old(self).spec_portal_from_pairs(pairs@, loc),
    {
        let ghost t0 = *old(self);
        let mut k: usize = 0;
        while k < self.portals.len()
            invariant
                self.layers@ == t0.layers@,
                self.portals@.len() == t0.portals@.len(),
                t0.well_formed(),
                k <= self.portals@.len(),
                forall|m: int| 0 <= m < k ==> (#[trigger] self.portals@[m]) is None,
            decreases self.portals@.len() - k,
        {
            self.portals.set(k, None);
            k = k + 1;
        }
        let ghost cleared = *self;
        proof {
            assert forall|loc: PixelLoc| #[trigger] self.portal_spec(loc)
                == t0.spec_portal_from_pairs(Seq::empty(), loc) by {
                if self.spec_valid(loc) {
                    lemma_topology_index_in_range(*self, loc);
                }
            }
        }
        let mut p: usize = 0;
        while p < pairs.len()
            invariant
                self.layers@ == t0.layers@,
                self.portals@.len() == t0.portals@.len(),
                t0.well_formed(),
                self.well_formed(),
                p <= pairs@.len(),
                forall|loc: PixelLoc| #[trigger] self.portal_spec(loc)
                    == t0.spec_portal_from_pairs(pairs@.subrange(0, p as int), loc),
            decreases pairs@.len() - p,
        {
            let (a, b) = pairs[p];
            let ghost before = *self;
            if self.is_valid(b) {
                match self.get_index(a) {
                    Some(ka) => {
                        self.portals.set(ka, Some(b));
                    },
                    None => {},
                }
            }
            proof {
                let sub1 = pairs@.subrange(0, p + 1);
                assert(sub1.drop_last() =~= pairs@.subrange(0, p as int));
                assert(sub1.last() == pairs@[p as int]);
                assert forall|loc: PixelLoc| #[trigger] self.portal_spec(loc)
                    == t0.spec_portal_from_pairs(sub1, loc) by {
                    if self.spec_valid(loc) {
                        lemma_topology_index_in_range(*self, loc);
                        if self.spec_valid(a) && self.spec_valid(b) {
                            lemma_topology_index_in_range(*self, a);
                            if loc == a {
                                assert(self.portal_spec(loc) == Some(b));
                            } else {
                                if self.spec_index_of(loc) == self.spec_index_of(a) {
                                    lemma_topology_index_injective(*self, loc, a);
                                    assert(false);
                                }
                                assert(self.portal_spec(loc) == before.portal_spec(loc));
                            }
                        } else {
                            assert(self.portal_spec(loc) == before.portal_spec(loc));
                        }
                    }
                }
            }
            p = p + 1;
        }
        proof {
            assert(pairs@.subrange(0, pairs@.len() as int) =~= pairs@);
        }
    }
}

/// A valid location's flat index lies inside the flat index space, and past
/// the start of its own layer's range.
pub proof fn lemma_topology_index_in_range(t: Topology, loc: PixelLoc)
    requires
        Topology::layers_acceptable(t.layers@),
        t.spec_valid(loc),
    ensures
        prefix_len(t.layers@, loc.layer as int) <= t.spec_index_of(loc),
        t.spec_index_of(loc) < prefix_len(t.layers@, loc.layer as int + 1),
        0 <= t.spec_index_of(loc) < t.spec_len(),
{
    let layers = t.layers@;
    let l = loc.layer as int;
    let ra = layers[l];
    lemma_index_in_range(ra.width as int, ra.height as int, loc.i as int, loc.j as int);
    lemma_prefix_len_monotone(layers, 0, l);
    lemma_prefix_len_monotone(layers, l + 1, layers.len() as int);
}

/// Every geometric spec function of a topology depends only on its layer
/// and portal views, so two topologies with equal views agree on all of
/// them.
pub proof fn lemma_topology_view_congruence(t1: Topology, t2: Topology, loc: PixelLoc)
    requires
        t1.layers@ == t2.layers@,
        t1.portals@ == t2.portals@,
    ensures
        t1.spec_len() == t2.spec_len(),
        t1.spec_valid(loc) == t2.spec_valid(loc),
        t1.spec_index_of(loc) == t2.spec_index_of(loc),
        t1.portal_spec(loc) == t2.portal_spec(loc),
        t1.spec_adjacent(loc) == t2.spec_adjacent(loc),
{
}

/// The portal lookup over a pair list depends only on which locations are
/// valid, hence only on the layer view.
pub proof fn lemma_portal_from_pairs_congruence(
    t1: Topology,
    t2: Topology,
    pairs: Seq<(PixelLoc, PixelLoc)>,
    loc: PixelLoc,
)
    requires
        t1.layers@ == t2.layers@,
    ensures
        t1.spec_portal_from_pairs(pairs, loc) == t2.spec_portal_from_pairs(pairs, loc),
    decreases pairs.len(),
{
    if pairs.len() > 0 {
        lemma_portal_from_pairs_congruence(t1, t2, pairs.drop_last(), loc);
    }
}

/// Two distinct valid locations never share a flat index.
pub proof fn lemma_topology_index_injective(t: Topology, a: PixelLoc, b: PixelLoc)
    requires
        Topology::layers_acceptable(t.layers@),
        t.spec_valid(a),
        t.spec_valid(b),
        t.spec_index_of(a) == t.spec_index_of(b),
    ensures
        a == b,
{
    lemma_topology_index_in_range(t, a);
    lemma_topology_index_in_range(t, b);
    if a.layer == b.layer {
        lemma_layer_index_injective(t.layers@[a.layer as int], a, b);
    } else if (a.layer as int) < (b.layer as int) {
        lemma_prefix_len_monotone(t.layers@, a.layer as int + 1, b.layer as int);
    } else {
        lemma_prefix_len_monotone(t.layers@, b.layer as int + 1, a.layer as int);
    }
}

} // verus!
