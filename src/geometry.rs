use vstd::prelude::*;

verus! {

/// A point, or a vector from the origin, in the plane.
#[derive(Debug, Clone, Copy, PartialEq)]
pub struct Point<T> {
    pub x: T,
    pub y: T,
}

impl<T> Point<T> {
    pub fn new(x: T, y: T) -> (r: Point<T>)
        ensures
            r.x == x,
            r.y == y,
    {
        Point { x, y }
    }
}

/// `v` fits in a signed 64-bit integer.
pub open spec fn fits(v: int) -> bool {
    i64::MIN <= v <= i64::MAX
}

/// Rust's integer division, which rounds toward zero.
pub open spec fn div_trunc(a: int, b: int) -> int {
    if a >= 0 {
        a / b
    } else {
        -((-a) / b)
    }
}

/// A quotient is no larger in magnitude than its dividend.
pub proof fn lemma_div_magnitude(a: int, b: int)
    requires
        a >= 0,
        b != 0,
    ensures
        -a <= a / b <= a,
{
    vstd::arithmetic::div_mod::lemma_fundamental_div_mod(a, b);
    let q = a / b;
    let r = a % b;
    if b > 0 {
        assert(0 <= q <= a) by (nonlinear_arith)
            requires a == b * q + r, 0 <= r < b, a >= 0;
    } else {
        assert(-a <= q <= 0) by (nonlinear_arith)
            requires a == b * q + r, 0 <= r < -b, a >= 0, b < 0;
    }
}

/// The truncated quotient of 64-bit values that `div_ok` admits fits in 64 bits.
pub proof fn lemma_div_trunc_fits(a: int, b: int)
    requires
        fits(a),
        div_ok(a, b),
    ensures
        fits(div_trunc(a, b)),
{
    if a >= 0 {
        lemma_div_magnitude(a, b);
    } else {
        lemma_div_magnitude(-a, b);
        if a == i64::MIN {
            if b > 0 {
                vstd::arithmetic::div_mod::lemma_div_pos_is_pos(-a, b);
            } else {
                assert(b <= -2);
                vstd::arithmetic::div_mod::lemma_fundamental_div_mod(-a, b);
                let q = (-a) / b;
                let r = (-a) % b;
                assert(-q <= i64::MAX) by (nonlinear_arith)
                    requires -a == b * q + r, 0 <= r < -b, b <= -2, -a == 0x8000_0000_0000_0000;
            }
        }
    }
}

/// `a / b` can be computed on 64-bit values.
pub open spec fn div_ok(a: int, b: int) -> bool {
    b != 0 && !(a == i64::MIN && b == -1)
}

pub open spec fn spec_cross(p1: Point<i64>, p2: Point<i64>) -> int {
    p1.x * p2.y - p1.y * p2.x
}

pub open spec fn spec_dot(p1: Point<i64>, p2: Point<i64>) -> int {
    p1.x * p2.x + p1.y * p2.y
}

pub open spec fn spec_norm(p: Point<i64>) -> int {
    p.x * p.x + p.y * p.y
}

/// The products and the sum or difference of a two-term formula all fit.
pub open spec fn pair_fits(a: int, b: int) -> bool {
    fits(a) && fits(b) && fits(a - b) && fits(a + b)
}

pub fn point_add(p: Point<i64>, q: Point<i64>) -> (r: Point<i64>)
    requires
        fits(p.x + q.x),
        fits(p.y + q.y),
    ensures
        r.x == p.x + q.x,
        r.y == p.y + q.y,
{
    Point { x: p.x + q.x, y: p.y + q.y }
}

pub fn point_sub(p: Point<i64>, q: Point<i64>) -> (r: Point<i64>)
    requires
        fits(p.x - q.x),
        fits(p.y - q.y),
    ensures
        r.x == p.x - q.x,
        r.y == p.y - q.y,
{
    Point { x: p.x - q.x, y: p.y - q.y }
}

/// The cross product `p1.x * p2.y - p1.y * p2.x`.
pub fn cross(p1: Point<i64>, p2: Point<i64>) -> (r: i64)
    requires
        pair_fits(p1.x * p2.y, p1.y * p2.x),
    ensures
        r == spec_cross(p1, p2),
{
    p1.x * p2.y - p1.y * p2.x
}

/// The dot product `p1.x * p2.x + p1.y * p2.y`.
pub fn dot(p1: Point<i64>, p2: Point<i64>) -> (r: i64)
    requires
        pair_fits(p1.x * p2.x, p1.y * p2.y),
    ensures
        r == spec_dot(p1, p2),
{
    p1.x * p2.x + p1.y * p2.y
}

/// The squared length `p.x^2 + p.y^2`.
pub fn norm(p: Point<i64>) -> (r: i64)
    requires
        pair_fits(p.x * p.x, p.y * p.y),
    ensures
        r == spec_norm(p),
{
    p.x * p.x + p.y * p.y
}

/// What `ccw` computes from `b - a` and `c - a`.
pub open spec fn spec_ccw(a: Point<i64>, b: Point<i64>, c: Point<i64>) -> int {
    let bx = b.x - a.x;
    let by = b.y - a.y;
    let cx = c.x - a.x;
    let cy = c.y - a.y;
    if bx * cy - by * cx > 0 {
        1
    } else if bx * cy - by * cx < 0 {
        -1
    } else if bx * cx + by * cy < 0 {
        2
    } else if bx * bx + by * by < cx * cx + cy * cy {
        -2
    } else {
        0
    }
}

/// Every intermediate value of `ccw` fits in 64 bits.
pub open spec fn ccw_fits(a: Point<i64>, b: Point<i64>, c: Point<i64>) -> bool {
    let bx = b.x - a.x;
    let by = b.y - a.y;
    let cx = c.x - a.x;
    let cy = c.y - a.y;
    fits(bx) && fits(by) && fits(cx) && fits(cy) && pair_fits(bx * cy, by * cx) && pair_fits(
        bx * cx,
        by * cy,
    ) && pair_fits(bx * bx, by * by) && pair_fits(cx * cx, cy * cy)
}

/// Where `c` lies as seen walking from `a` to `b`: 1 counter-clockwise, -1
/// clockwise, 2 on the line behind `a`, -2 on the line beyond `b`, and 0 on
/// the segment.
pub fn ccw(a: Point<i64>, b: Point<i64>, c: Point<i64>) -> (r: isize)
    requires
        ccw_fits(a, b, c),
    ensures
        r == spec_ccw(a, b, c),
{
    let b = point_sub(b, a);
    let c = point_sub(c, a);
    let cr = cross(b, c);
    if cr > 0 {
        1
    } else if cr < 0 {
        -1
    } else if dot(b, c) < 0 {
        2
    } else if norm(b) < norm(c) {
        -2
    } else {
        0
    }
}

/// Every intermediate value of the parallel and orthogonal tests fits in 64 bits.
pub open spec fn segments_fit(p11: Point<i64>, p12: Point<i64>, p21: Point<i64>, p22: Point<i64>) -> bool {
    let dx1 = p12.x - p11.x;
    let dy1 = p12.y - p11.y;
    let dx2 = p22.x - p21.x;
    let dy2 = p22.y - p21.y;
    fits(dx1) && fits(dy1) && fits(dx2) && fits(dy2) && fits(-dx2) && fits(dy1 * dx2) && fits(
        dy2 * dx1,
    ) && fits(dy1 * dy2) && fits(-dx2 * dx1)
}

/// Segment `p11 p12` is parallel to segment `p21 p22`.
pub fn is_parallel(p11: Point<i64>, p12: Point<i64>, p21: Point<i64>, p22: Point<i64>) -> (r: bool)
    requires
        segments_fit(p11, p12, p21, p22),
    ensures
        r == ((p12.y - p11.y) * (p22.x - p21.x) == (p22.y - p21.y) * (p12.x - p11.x)),
{
    (p12.y - p11.y) * (p22.x - p21.x) == (p22.y - p21.y) * (p12.x - p11.x)
}

/// Segment `p11 p12` is orthogonal to segment `p21 p22`.
pub fn is_orthogonal(p11: Point<i64>, p12: Point<i64>, p21: Point<i64>, p22: Point<i64>) -> (r: bool)
    requires
        segments_fit(p11, p12, p21, p22),
    ensures
        r == ((p12.y - p11.y) * (p22.y - p21.y) == -(p22.x - p21.x) * (p12.x - p11.x)),
{
    (p12.y - p11.y) * (p22.y - p21.y) == -(p22.x - p21.x) * (p12.x - p11.x)
}

/// The kind of a line: `y = a` (horizontal), `x = b` (vertical), or `y = a x + b`.
#[derive(Debug, Clone, Copy, PartialEq, Eq, Structural)]
pub enum LineStatus {
    Horizontal,
    Vertical,
    Normal,
}

/// A line in the plane: for `Normal`, `y = a x + b`; for `Horizontal`,
/// `y = b`; for `Vertical`, `x = b`. `a` is 0 unless the line is `Normal`.
#[derive(Debug, Clone, Copy, PartialEq)]
pub struct Line<T> {
    a: T,
    b: T,
    status: LineStatus,
}

impl Line<i64> {
    pub closed spec fn slope(&self) -> int {
        self.a as int
    }

    pub closed spec fn intercept(&self) -> int {
        self.b as int
    }

    pub closed spec fn kind(&self) -> LineStatus {
        self.status
    }

    /// The line `y = a x + b`.
    pub fn new(a: i64, b: i64) -> (r: Line<i64>)
        ensures
            r.slope() == a,
            r.intercept() == b,
            r.kind() == LineStatus::Normal,
    {
        Line { a, b, status: LineStatus::Normal }
    }

    /// The line `y = y0`.
    pub fn new_horizontal(y: i64) -> (r: Line<i64>)
        ensures
            r.slope() == 0,
            r.intercept() == y,
            r.kind() == LineStatus::Horizontal,
    {
        Line { a: 0, b: y, status: LineStatus::Horizontal }
    }

    /// The line `x = x0`.
    pub fn new_vertical(x: i64) -> (r: Line<i64>)
        ensures
            r.slope() == 0,
            r.intercept() == x,
            r.kind() == LineStatus::Vertical,
    {
        Line { a: 0, b: x, status: LineStatus::Vertical }
    }

    /// The line through two points, or `None` when they coincide. The slope
    /// of a slanted line is the integer quotient of the differences.
    pub fn from(l1: Point<i64>, l2: Point<i64>) -> (r: Option<Line<i64>>)
        requires
            fits(l1.y - l2.y),
            fits(l1.x - l2.x),
            l1.x != l2.x && l1.y != l2.y ==> div_ok(l1.y - l2.y, l1.x - l2.x) && fits(
                div_trunc(l1.y - l2.y, l1.x - l2.x) * l1.x,
            ) && fits(l1.y - div_trunc(l1.y - l2.y, l1.x - l2.x) * l1.x),
        ensures
            (l1.x == l2.x && l1.y == l2.y) <==> r is None,
            r matches Some(l) ==> {
                if l1.x == l2.x {
                    l.kind() == LineStatus::Vertical && l.slope() == 0 && l.intercept() == l1.x
                } else if l1.y == l2.y {
                    l.kind() == LineStatus::Horizontal && l.slope() == 0 && l.intercept() == l1.y
                } else {
                    &&& l.kind() == LineStatus::Normal
                    &&& l.slope() == div_trunc(l1.y - l2.y, l1.x - l2.x)
                    &&& l.intercept() == l1.y - l.slope() * l1.x
                }
            },
    {
        if l1.x == l2.x && l1.y == l2.y {
            return None;
        }
        if l1.x == l2.x {
            Some(Line { a: 0, b: l1.x, status: LineStatus::Vertical })
        } else if l1.y == l2.y {
            Some(Line { a: 0, b: l1.y, status: LineStatus::Horizontal })
        } else {
            proof {
                lemma_div_trunc_fits(l1.y - l2.y, l1.x - l2.x);
            }
            let a = (l1.y - l2.y) / (l1.x - l2.x);
            assert(a == div_trunc(l1.y - l2.y, l1.x - l2.x));
            let b = l1.y - a * l1.x;
            Some(Line { a, b, status: LineStatus::Normal })
        }
    }

    /// The line through `p` of kind `s`, with slope `a` when it is slanted.
    pub fn from_point_slope(p: Point<i64>, a: i64, s: LineStatus) -> (r: Line<i64>)
        requires
            s == LineStatus::Normal ==> fits(a * p.x) && fits(p.y - a * p.x),
        ensures
            r.kind() == s,
            s == LineStatus::Horizontal ==> r.slope() == 0 && r.intercept() == p.y,
            s == LineStatus::Vertical ==> r.slope() == 0 && r.intercept() == p.x,
            s == LineStatus::Normal ==> r.slope() == a && r.intercept() == p.y - a * p.x,
    {
        match s {
            LineStatus::Horizontal => Line::new_horizontal(p.y),
            LineStatus::Vertical => Line::new_vertical(p.x),
            LineStatus::Normal => Line::new(a, p.y - a * p.x),
        }
    }

    pub fn get_slope(&self) -> (r: i64)
        ensures
            r == self.slope(),
    {
        self.a
    }

    pub fn get_intercept(&self) -> (r: i64)
        ensures
            r == self.intercept(),
    {
        self.b
    }

    pub fn get_data(&self) -> (r: (i64, i64))
        ensures
            r.0 == self.slope(),
            r.1 == self.intercept(),
    {
        (self.a, self.b)
    }

    pub fn is_horizontal(&self) -> (r: bool)
        ensures
            r == (self.kind() == LineStatus::Horizontal),
    {
        self.status == LineStatus::Horizontal
    }

    pub fn is_vertical(&self) -> (r: bool)
        ensures
            r == (self.kind() == LineStatus::Vertical),
    {
        self.status == LineStatus::Vertical
    }

    pub fn get_status(&self) -> (r: LineStatus)
        ensures
            r == self.kind(),
    {
        self.status
    }

    /// The `y` of the point of the line at `x`; `None` for a vertical line.
    pub fn substitution_x(&self, x: i64) -> (r: Option<i64>)
        requires
            self.kind() == LineStatus::Normal ==> fits(self.slope() * x) && fits(
                self.slope() * x + self.intercept(),
            ),
        ensures
            r == spec_substitution_x(*self, x as int),
    {
        if self.is_horizontal() {
            Some(self.b)
        } else if self.is_vertical() {
            None
        } else {
            Some(self.a * x + self.b)
        }
    }

    /// The `x` of the point of the line at `y`, rounded toward zero; `None`
    /// for a horizontal line.
    pub fn substitution_y(&self, y: i64) -> (r: Option<i64>)
        requires
            self.kind() == LineStatus::Normal ==> fits(y - self.intercept()) && div_ok(
                y - self.intercept(),
                self.slope(),
            ),
        ensures
            r == spec_substitution_y(*self, y as int),
    {
        if self.is_horizontal() {
            None
        } else if self.is_vertical() {
            Some(self.b)
        } else {
            Some((y - self.b) / self.a)
        }
    }

    /// The point where two lines meet, or `None` when they are of the same
    /// axis-parallel kind. Coordinates of a slanted line are rounded toward zero.
    pub fn get_intersection(&self, other: Line<i64>) -> (r: Option<Point<i64>>)
        requires
            intersection_ok(*self, other),
        ensures
            r == spec_intersection(*self, other),
    {
        if self.get_status() == LineStatus::Normal && other.get_status() == LineStatus::Normal {
            proof {
                lemma_div_trunc_fits(other.b - self.b, self.a - other.a);
            }
            let x = (other.get_intercept() - self.get_intercept()) / (self.get_slope()
                - other.get_slope());
            assert(x == normal_meet_x(*self, other));
            Some(Point { x, y: x * self.get_slope() + self.get_intercept() })
        } else if self.status == other.status {
            None
        } else if self.is_horizontal() && other.is_vertical() {
            Some(Point { x: other.get_intercept(), y: self.get_intercept() })
        } else if self.is_vertical() && other.is_horizontal() {
            Some(Point { y: other.get_intercept(), x: self.get_intercept() })
        } else if self.is_horizontal() {
            let y = self.get_intercept();
            let x = match other.substitution_y(y) {
                Some(v) => v,
                None => 0,
            };
            Some(Point { x, y })
        } else if self.is_vertical() {
            let x = self.get_intercept();
            let y = match other.substitution_x(x) {
                Some(v) => v,
                None => 0,
            };
            Some(Point { x, y })
        } else if other.is_horizontal() {
            let y = other.get_intercept();
            let x = match self.substitution_y(y) {
                Some(v) => v,
                None => 0,
            };
            Some(Point { x, y })
        } else {
            let x = other.get_intercept();
            let y = match self.substitution_x(x) {
                Some(v) => v,
                None => 0,
            };
            Some(Point { x, y })
        }
    }
}

pub open spec fn spec_substitution_x(l: Line<i64>, x: int) -> Option<i64> {
    match l.kind() {
        LineStatus::Horizontal => Some(l.intercept() as i64),
        LineStatus::Vertical => None,
        LineStatus::Normal => Some((l.slope() * x + l.intercept()) as i64),
    }
}

pub open spec fn spec_substitution_y(l: Line<i64>, y: int) -> Option<i64> {
    match l.kind() {
        LineStatus::Horizontal => None,
        LineStatus::Vertical => Some(l.intercept() as i64),
        LineStatus::Normal => Some(div_trunc(y - l.intercept(), l.slope()) as i64),
    }
}

/// Both lines are slanted; the `x` where they meet, rounded toward zero.
pub open spec fn normal_meet_x(l1: Line<i64>, l2: Line<i64>) -> int {
    div_trunc(l2.intercept() - l1.intercept(), l1.slope() - l2.slope())
}

/// The arithmetic of `get_intersection` stays in 64 bits and divides by no zero.
pub open spec fn intersection_ok(l1: Line<i64>, l2: Line<i64>) -> bool {
    if l1.kind() == LineStatus::Normal && l2.kind() == LineStatus::Normal {
        &&& fits(l2.intercept() - l1.intercept())
        &&& fits(l1.slope() - l2.slope())
        &&& div_ok(l2.intercept() - l1.intercept(), l1.slope() - l2.slope())
        &&& fits(normal_meet_x(l1, l2) * l1.slope())
        &&& fits(normal_meet_x(l1, l2) * l1.slope() + l1.intercept())
    } else if l1.kind() == l2.kind() {
        true
    } else if l2.kind() == LineStatus::Normal {
        if l1.kind() == LineStatus::Horizontal {
            fits(l1.intercept() - l2.intercept()) && div_ok(l1.intercept() - l2.intercept(), l2.slope())
        } else {
            fits(l2.slope() * l1.intercept()) && fits(l2.slope() * l1.intercept() + l2.intercept())
        }
    } else if l1.kind() == LineStatus::Normal {
        if l2.kind() == LineStatus::Horizontal {
            fits(l2.intercept() - l1.intercept()) && div_ok(l2.intercept() - l1.intercept(), l1.slope())
        } else {
            fits(l1.slope() * l2.intercept()) && fits(l1.slope() * l2.intercept() + l1.intercept())
        }
    } else {
        true
    }
}

/// The point where two lines meet, or `None` when both are horizontal or
/// both vertical (or both slanted with equal slopes, which is excluded).
pub open spec fn spec_intersection(l1: Line<i64>, l2: Line<i64>) -> Option<Point<i64>> {
    if l1.kind() == LineStatus::Normal && l2.kind() == LineStatus::Normal {
        let x = normal_meet_x(l1, l2);
        Some(Point { x: x as i64, y: (x * l1.slope() + l1.intercept()) as i64 })
    } else if l1.kind() == l2.kind() {
        None
    } else if l1.kind() == LineStatus::Horizontal && l2.kind() == LineStatus::Vertical {
        Some(Point { x: l2.intercept() as i64, y: l1.intercept() as i64 })
    } else if l1.kind() == LineStatus::Vertical && l2.kind() == LineStatus::Horizontal {
        Some(Point { x: l1.intercept() as i64, y: l2.intercept() as i64 })
    } else if l1.kind() == LineStatus::Horizontal {
        Some(Point { x: div_trunc(l1.intercept() - l2.intercept(), l2.slope()) as i64, y: l1.intercept() as i64 })
    } else if l1.kind() == LineStatus::Vertical {
        Some(Point { x: l1.intercept() as i64, y: (l2.slope() * l1.intercept() + l2.intercept()) as i64 })
    } else if l2.kind() == LineStatus::Horizontal {
        Some(Point { x: div_trunc(l2.intercept() - l1.intercept(), l1.slope()) as i64, y: l2.intercept() as i64 })
    } else {
        Some(Point { x: l2.intercept() as i64, y: (l1.slope() * l2.intercept() + l1.intercept()) as i64 })
    }
}

} // verus!
