//! The sizing and layout rules of the standard widgets, as functions from
//! the sizes they are given to the sizes and bounds they hand out.
//!
//! Extents are at most `MAX_EXTENT` logical pixels either way;
//! divisions round toward zero.
use vstd::prelude::*;
use crate::geo::{Point, Rect, Size};

verus! {

/// The largest extent of a size.
pub const MAX_EXTENT: i64 = 0x7fff_ffff;

/// The largest number of children that a row or a list lays out.
pub const MAX_CHILDREN: usize = 0x7fff_ffff;

/// An extent of at most `MAX_EXTENT` either way.
pub open spec fn extent_ok(v: i64) -> bool {
    -MAX_EXTENT <= v <= MAX_EXTENT
}

/// Both extents of `s` are in range.
pub open spec fn size_ok(s: Size) -> bool {
    extent_ok(s.width) && extent_ok(s.height)
}

/// `a / b` rounded toward zero.
pub open spec fn div_trunc(a: int, b: int) -> int {
    if a >= 0 {
        a / b
    } else {
        -((-a) / b)
    }
}

fn div_trunc_exec(a: i64, b: i64) -> (q: i64)
    requires
        b > 0,
        a > i64::MIN,
    ensures
        q == div_trunc(a as int, b as int),
{
    if a >= 0 {
        a / b
    } else {
        -((-a) / b)
    }
}

/// The smaller of two extents.
pub open spec fn min_i64(a: i64, b: i64) -> i64 {
    if a <= b {
        a
    } else {
        b
    }
}

fn min_exec(a: i64, b: i64) -> (m: i64)
    ensures
        m == min_i64(a, b),
{
    if a <= b {
        a
    } else {
        b
    }
}

/// The larger of two extents.
pub open spec fn max_i64(a: i64, b: i64) -> i64 {
    if a >= b {
        a
    } else {
        b
    }
}

fn max_exec(a: i64, b: i64) -> (m: i64)
    ensures
        m == max_i64(a, b),
{
    if a >= b {
        a
    } else {
        b
    }
}

/// Limits on the size of a widget: an optional largest and smallest width
/// and height.
#[derive(Clone, Copy, PartialEq, Eq, Structural, Debug)]
pub struct BoxConstraints {
    pub max_width: Option<i64>,
    pub max_height: Option<i64>,
    pub min_width: Option<i64>,
    pub min_height: Option<i64>,
}

impl BoxConstraints {
    /// No limits.
    pub fn new() -> (c: BoxConstraints)
        ensures
            c.max_width is None,
            c.max_height is None,
            c.min_width is None,
            c.min_height is None,
    {
        BoxConstraints { max_width: None, max_height: None, min_width: None, min_height: None }
    }

    /// The given largest width and height.
    pub fn new_with_max(width: i64, height: i64) -> (c: BoxConstraints)
        ensures
            c.max_width == Some(width),
            c.max_height == Some(height),
            c.min_width is None,
            c.min_height is None,
    {
        BoxConstraints { max_width: Some(width), max_height: Some(height), min_width: None, min_height: None }
    }

    /// These limits with the given largest width.
    pub fn with_max_width(self, width: i64) -> (c: BoxConstraints)
        ensures
            c == (BoxConstraints { max_width: Some(width), ..self }),
    {
        BoxConstraints { max_width: Some(width), ..self }
    }

    /// These limits with the given largest height.
    pub fn with_max_height(self, height: i64) -> (c: BoxConstraints)
        ensures
            c == (BoxConstraints { max_height: Some(height), ..self }),
    {
        BoxConstraints { max_height: Some(height), ..self }
    }

    /// These limits with the given smallest width.
    pub fn with_min_width(self, width: i64) -> (c: BoxConstraints)
        ensures
            c == (BoxConstraints { min_width: Some(width), ..self }),
    {
        BoxConstraints { min_width: Some(width), ..self }
    }

    /// These limits with the given smallest height.
    pub fn with_min_height(self, height: i64) -> (c: BoxConstraints)
        ensures
            c == (BoxConstraints { min_height: Some(height), ..self }),
    {
        BoxConstraints { min_height: Some(height), ..self }
    }

    pub fn min_width(&self) -> (w: Option<i64>)
        ensures
            w == self.min_width,
    {
        self.min_width
    }

    pub fn min_height(&self) -> (h: Option<i64>)
        ensures
            h == self.min_height,
    {
        self.min_height
    }

    pub fn max_width(&self) -> (w: Option<i64>)
        ensures
            w == self.max_width,
    {
        self.max_width
    }

    pub fn max_height(&self) -> (h: Option<i64>)
        ensures
            h == self.max_height,
    {
        self.max_height
    }

    /// The largest size, when both limits are given.
    pub fn max_size(&self) -> (s: Size)
        requires
            self.max_width is Some,
            self.max_height is Some,
        ensures
            s == (Size { width: self.max_width->0, height: self.max_height->0 }),
    {
        Size::new(self.max_width.unwrap(), self.max_height.unwrap())
    }
}

/// Space to keep free on each side of a child.
#[derive(Clone, Copy, PartialEq, Eq, Structural, Debug, Default)]
pub struct Insets {
    pub left: i64,
    pub right: i64,
    pub top: i64,
    pub bottom: i64,
}

impl Insets {
    pub fn all(left: i64, right: i64, top: i64, bottom: i64) -> (i: Insets)
        ensures
            i == (Insets { left, right, top, bottom }),
    {
        Insets { left, right, top, bottom }
    }

    /// Space on the left and right only.
    pub fn horizontal(left: i64, right: i64) -> (i: Insets)
        ensures
            i == (Insets { left, right, top: 0, bottom: 0 }),
    {
        Insets { left, right, top: 0, bottom: 0 }
    }

    /// Space on the top and bottom only.
    pub fn vertical(top: i64, bottom: i64) -> (i: Insets)
        ensures
            i == (Insets { left: 0, right: 0, top, bottom }),
    {
        Insets { left: 0, right: 0, top, bottom }
    }
}

/// All the space that the constraints allow: the size of a widget that
/// fills what it is given (centering, scrolling, colored boxes).
pub fn fill_size(constraints: &BoxConstraints) -> (s: Size)
    requires
        constraints.max_width is Some,
        constraints.max_height is Some,
    ensures
        s.width == constraints.max_width->0,
        s.height == constraints.max_height->0,
{
    constraints.max_size()
}

/// Where a centering widget of size `size` places a child of size `c`.
pub open spec fn centered(size: Size, c: Size) -> Rect {
    Rect {
        position: Point {
            x: (div_trunc(size.width as int, 2) - div_trunc(c.width as int, 2)) as i64,
            y: (div_trunc(size.height as int, 2) - div_trunc(c.height as int, 2)) as i64,
        },
        size: c,
    }
}

/// The bounds of the only child of a centering widget of size `size`: the
/// child's preferred size, or the whole size, placed in the middle.
pub fn center_child_bounds(size: Size, child_size: Option<Size>) -> (r: Rect)
    requires
        size_ok(size),
        child_size is Some ==> size_ok(child_size->0),
    ensures
        r == centered(size, if child_size is Some { child_size->0 } else { size }),
{
    let c = match child_size {
        Some(c) => c,
        None => size,
    };
    Rect::new(Point::new(size.width / 2 - c.width / 2, size.height / 2 - c.height / 2), c)
}

/// The bounds of the only child of a widget that gives it its preferred
/// size, or its own size, at its top-left corner.
pub fn fit_child_bounds(size: Size, child_size: Option<Size>) -> (r: Rect)
    ensures
        r.position == (Point { x: 0, y: 0 }),
        r.size == if child_size is Some { child_size->0 } else { size },
{
    let c = match child_size {
        Some(c) => c,
        None => size,
    };
    Rect::new_from_size(c)
}

/// The bounds of the child of a viewport scrolled by `offset`: its preferred
/// size, or the viewport's size, at the offset.
pub fn viewport_child_bounds(size: Size, offset: Point, child_size: Option<Size>) -> (r: Rect)
    ensures
        r.position == offset,
        r.size == if child_size is Some { child_size->0 } else { size },
{
    let c = match child_size {
        Some(c) => c,
        None => size,
    };
    Rect::new(offset, c)
}

/// `v` cut to the limit `max` and raised to the limit `min`, each when
/// given; when the limits conflict, the smallest extent wins.
pub open spec fn within(v: i64, min: Option<i64>, max: Option<i64>) -> i64 {
    let cut = match max {
        Some(m) => min_i64(m, v),
        None => v,
    };
    match min {
        Some(m) => max_i64(m, cut),
        None => cut,
    }
}

fn within_exec(v: i64, min: Option<i64>, max: Option<i64>) -> (r: i64)
    ensures
        r == within(v, min, max),
{
    let cut = match max {
        Some(m) => min_exec(m, v),
        None => v,
    };
    match min {
        Some(m) => max_exec(m, cut),
        None => cut,
    }
}

/// The size of a box of fixed size `fixed` within `c`: each extent kept
/// within its limits, when there are any.
pub open spec fn sized_box_size_spec(fixed: Size, c: BoxConstraints) -> Size {
    Size {
        width: within(fixed.width, c.min_width, c.max_width),
        height: within(fixed.height, c.min_height, c.max_height),
    }
}

/// The size of a box of fixed size `fixed`, within the constraints.
pub fn sized_box_size(fixed: Size, constraints: &BoxConstraints) -> (s: Size)
    ensures
        s == sized_box_size_spec(fixed, *constraints),
{
    let width = within_exec(fixed.width, constraints.min_width, constraints.max_width);
    let height = within_exec(fixed.height, constraints.min_height, constraints.max_height);
    Size::new(width, height)
}

/// The bounds of the children of a sized box of size `size`: its only child
/// fills it; with any other number of children, none gets bounds.
pub fn sized_box_child_bounds(size: Size, child_count: usize) -> (r: Option<Rect>)
    ensures
        child_count == 1 ==> r == Some(Rect { position: Point { x: 0, y: 0 }, size }),
        child_count != 1 ==> r is None,
{
    if child_count == 1 {
        Some(Rect::new(Point::new(0, 0), size))
    } else {
        None
    }
}

/// The size of a container with an optional fixed width and height: the
/// fixed extent within the constraint, or the constraint when none is fixed.
pub fn container_size(width: Option<i64>, height: Option<i64>, constraints: &BoxConstraints) -> (s: Size)
    requires
        width is Some || constraints.max_width is Some,
        height is Some || constraints.max_height is Some,
    ensures
        s.width == match width {
            Some(w) => match constraints.max_width {
                Some(m) => min_i64(m, w),
                None => w,
            },
            None => constraints.max_width->0,
        },
        s.height == match height {
            Some(h) => match constraints.max_height {
                Some(m) => min_i64(m, h),
                None => h,
            },
            None => constraints.max_height->0,
        },
{
    let w = match width {
        Some(w) => match constraints.max_width {
            Some(m) => min_exec(m, w),
            None => w,
        },
        None => constraints.max_width.unwrap(),
    };
    let h = match height {
        Some(h) => match constraints.max_height {
            Some(m) => min_exec(m, h),
            None => h,
        },
        None => constraints.max_height.unwrap(),
    };
    Size::new(w, h)
}

/// The insets are each an extent in range.
pub open spec fn insets_ok(p: Insets) -> bool {
    extent_ok(p.left) && extent_ok(p.right) && extent_ok(p.top) && extent_ok(p.bottom)
}

/// The constraints that a container of size `size` with `padding` gives its
/// child: the size less the padding.
pub fn container_child_constraints(size: Size, padding: Insets) -> (c: BoxConstraints)
    requires
        size_ok(size),
        insets_ok(padding),
    ensures
        c.max_width == Some((size.width - padding.left - padding.right) as i64),
        c.max_height == Some((size.height - padding.top - padding.bottom) as i64),
{
    BoxConstraints::new()
        .with_max_width(size.width - padding.left - padding.right)
        .with_max_height(size.height - padding.top - padding.bottom)
}

/// The bounds of the child of a container of size `size` with `padding`:
/// its preferred size cut to the container's size, or the size less the
/// padding, centered in the container.
pub fn container_child_bounds(size: Size, padding: Insets, child_size: Option<Size>) -> (r: Rect)
    requires
        size_ok(size),
        insets_ok(padding),
        child_size is Some ==> size_ok(child_size->0),
    ensures
        ({
            let c = match child_size {
                Some(c) => Size { width: min_i64(c.width, size.width), height: min_i64(c.height, size.height) },
                None => Size {
                    width: (size.width - padding.left - padding.right) as i64,
                    height: (size.height - padding.top - padding.bottom) as i64,
                },
            };
            &&& r.size == c
            &&& r.position.x == div_trunc(size.width - c.width, 2)
            &&& r.position.y == div_trunc(size.height - c.height, 2)
        }),
{
    let c = match child_size {
        Some(c) => Size::new(min_exec(c.width, size.width), min_exec(c.height, size.height)),
        None => Size::new(size.width - padding.left - padding.right, size.height - padding.top - padding.bottom),
    };
    let x = div_trunc_exec(size.width - c.width, 2);
    let y = div_trunc_exec(size.height - c.height, 2);
    Rect::new(Point::new(x, y), c)
}

/// The total width of the children that have a preferred size.
pub open spec fn constrained_width(sizes: Seq<Option<Size>>) -> int
    decreases sizes.len(),
{
    if sizes.len() == 0 {
        0
    } else {
        constrained_width(sizes.drop_last()) + match sizes.last() {
            Some(s) => s.width as int,
            None => 0,
        }
    }
}

/// The number of children without a preferred size.
pub open spec fn unconstrained_count(sizes: Seq<Option<Size>>) -> int
    decreases sizes.len(),
{
    if sizes.len() == 0 {
        0
    } else {
        unconstrained_count(sizes.drop_last()) + if sizes.last() is None {
            1int
        } else {
            0
        }
    }
}

/// The width that a row of width `width` gives each child without a
/// preferred size: what the others leave, shared equally.
pub open spec fn unconstrained_child_width(width: int, sizes: Seq<Option<Size>>) -> int {
    let n = unconstrained_count(sizes);
    div_trunc(width - constrained_width(sizes), if n > 0 { n } else { 1 })
}

/// The bounds that a row of size `size` gives its child `i`: a child with a
/// preferred size keeps it, vertically centered, after the children with a
/// preferred size before it; a child without one gets the shared width and
/// the full height, at the same place.
pub open spec fn row_child_bounds_spec(size: Size, sizes: Seq<Option<Size>>, i: int) -> Rect {
    let x = constrained_width(sizes.take(i));
    match sizes[i] {
        Some(c) => Rect {
            position: Point { x: x as i64, y: (div_trunc(size.height as int, 2) - div_trunc(c.height as int, 2)) as i64 },
            size: c,
        },
        None => Rect {
            position: Point { x: x as i64, y: 0 },
            size: Size { width: unconstrained_child_width(size.width as int, sizes) as i64, height: size.height },
        },
    }
}

proof fn lemma_row_sums(sizes: Seq<Option<Size>>, i: int)
    requires
        0 <= i <= sizes.len(),
        forall|j: int| 0 <= j < sizes.len() && (#[trigger] sizes[j]) is Some ==> size_ok(sizes[j]->0),
    ensures
        -(i * MAX_EXTENT) <= constrained_width(sizes.take(i)) <= i * MAX_EXTENT,
        0 <= unconstrained_count(sizes.take(i)) <= i,
    decreases i,
{
    if i > 0 {
        lemma_row_sums(sizes, i - 1);
        assert(sizes.take(i).drop_last() =~= sizes.take(i - 1));
        assert(sizes.take(i).last() == sizes[i - 1]);
    }
}

/// The bounds that a row of size `size` gives each of its children, whose
/// preferred sizes are `sizes`.
pub fn row_child_bounds(size: Size, sizes: &Vec<Option<Size>>) -> (r: Vec<Rect>)
    requires
        size_ok(size),
        sizes@.len() <= MAX_CHILDREN,
        forall|j: int| 0 <= j < sizes@.len() && (#[trigger] sizes@[j]) is Some ==> size_ok(sizes@[j]->0),
    ensures
        r@.len() == sizes@.len(),
        forall|i: int| 0 <= i < sizes@.len() ==> #[trigger] r@[i] == row_child_bounds_spec(size, sizes@, i),
{
    let n = sizes.len();
    let mut total: i64 = 0;
    let mut unconstrained: i64 = 0;
    let mut i: usize = 0;
    while i < n
        invariant
            n == sizes@.len(),
            n <= MAX_CHILDREN,
            i <= n,
            forall|j: int| 0 <= j < sizes@.len() && (#[trigger] sizes@[j]) is Some ==> size_ok(sizes@[j]->0),
            total == constrained_width(sizes@.take(i as int)),
            unconstrained == unconstrained_count(sizes@.take(i as int)),
        decreases n - i,
    {
        proof {
            lemma_row_sums(sizes@, i as int);
            lemma_row_sums(sizes@, i + 1);
            assert(sizes@.take(i + 1).drop_last() =~= sizes@.take(i as int));
            assert(sizes@.take(i + 1).last() == sizes@[i as int]);
        }
        match sizes[i] {
            Some(c) => {
                total = total + c.width;
            },
            None => {
                unconstrained = unconstrained + 1;
            },
        }
        i += 1;
    }
    proof {
        lemma_row_sums(sizes@, n as int);
        assert(sizes@.take(n as int) =~= sizes@);
    }
    let shared = if unconstrained > 0 { unconstrained } else { 1 };
    let child_width = div_trunc_exec(size.width - total, shared);
    let mut result: Vec<Rect> = Vec::new();
    let mut x: i64 = 0;
    let mut j: usize = 0;
    while j < n
        invariant
            n == sizes@.len(),
            n <= MAX_CHILDREN,
            j <= n,
            size_ok(size),
            forall|k: int| 0 <= k < sizes@.len() && (#[trigger] sizes@[k]) is Some ==> size_ok(sizes@[k]->0),
            x == constrained_width(sizes@.take(j as int)),
            child_width == unconstrained_child_width(size.width as int, sizes@),
            result@.len() == j,
            forall|k: int| 0 <= k < j ==> #[trigger] result@[k] == row_child_bounds_spec(size, sizes@, k),
        decreases n - j,
    {
        proof {
            lemma_row_sums(sizes@, j as int);
            lemma_row_sums(sizes@, j + 1);
            assert(sizes@.take(j + 1).drop_last() =~= sizes@.take(j as int));
            assert(sizes@.take(j + 1).last() == sizes@[j as int]);
        }
        match sizes[j] {
            Some(c) => {
                result.push(Rect::new(Point::new(x, size.height / 2 - c.height / 2), c));
                x = x + c.width;
            },
            None => {
                result.push(Rect::new(Point::new(x, 0), Size::new(child_width, size.height)));
            },
        }
        j += 1;
    }
    result
}

/// The total height of the children that have a preferred size.
pub open spec fn stacked_height(sizes: Seq<Option<Size>>) -> int
    decreases sizes.len(),
{
    if sizes.len() == 0 {
        0
    } else {
        stacked_height(sizes.drop_last()) + match sizes.last() {
            Some(s) => s.height as int,
            None => 0,
        }
    }
}

proof fn lemma_stack_sum(sizes: Seq<Option<Size>>, i: int)
    requires
        0 <= i <= sizes.len(),
        forall|j: int| 0 <= j < sizes.len() && (#[trigger] sizes[j]) is Some ==> size_ok(sizes[j]->0),
    ensures
        -(i * MAX_EXTENT) <= stacked_height(sizes.take(i)) <= i * MAX_EXTENT,
    decreases i,
{
    if i > 0 {
        lemma_stack_sum(sizes, i - 1);
        assert(sizes.take(i).drop_last() =~= sizes.take(i - 1));
        assert(sizes.take(i).last() == sizes[i - 1]);
    }
}

/// The size of a list of width `width` whose children, given that width,
/// prefer the sizes `sizes`: the width and the total height.
pub fn list_size(width: i64, sizes: &Vec<Option<Size>>) -> (s: Size)
    requires
        sizes@.len() <= MAX_CHILDREN,
        forall|j: int| 0 <= j < sizes@.len() && (#[trigger] sizes@[j]) is Some ==> size_ok(sizes@[j]->0),
    ensures
        s.width == width,
        s.height == stacked_height(sizes@),
{
    let n = sizes.len();
    let mut height: i64 = 0;
    let mut i: usize = 0;
    while i < n
        invariant
            n == sizes@.len(),
            n <= MAX_CHILDREN,
            i <= n,
            forall|j: int| 0 <= j < sizes@.len() && (#[trigger] sizes@[j]) is Some ==> size_ok(sizes@[j]->0),
            height == stacked_height(sizes@.take(i as int)),
        decreases n - i,
    {
        proof {
            lemma_stack_sum(sizes@, i as int);
            lemma_stack_sum(sizes@, i + 1);
            assert(sizes@.take(i + 1).drop_last() =~= sizes@.take(i as int));
            assert(sizes@.take(i + 1).last() == sizes@[i as int]);
        }
        if let Some(c) = sizes[i] {
            height = height + c.height;
        }
        i += 1;
    }
    proof {
        assert(sizes@.take(n as int) =~= sizes@);
    }
    Size::new(width, height)
}

/// The bounds that a list of size `size` gives its child `i`: the full width
/// and the preferred height, below the children before it; a child without
/// a preferred size gets no bounds.
pub open spec fn list_child_bounds_spec(size: Size, sizes: Seq<Option<Size>>, i: int) -> Option<Rect> {
    match sizes[i] {
        Some(c) => Some(Rect {
            position: Point { x: 0, y: stacked_height(sizes.take(i)) as i64 },
            size: Size { width: size.width, height: c.height },
        }),
        None => None,
    }
}

/// The bounds that a list of size `size` gives each of its children.
pub fn list_child_bounds(size: Size, sizes: &Vec<Option<Size>>) -> (r: Vec<Option<Rect>>)
    requires
        sizes@.len() <= MAX_CHILDREN,
        forall|j: int| 0 <= j < sizes@.len() && (#[trigger] sizes@[j]) is Some ==> size_ok(sizes@[j]->0),
    ensures
        r@.len() == sizes@.len(),
        forall|i: int| 0 <= i < sizes@.len() ==> #[trigger] r@[i] == list_child_bounds_spec(size, sizes@, i),
{
    let n = sizes.len();
    let mut y: i64 = 0;
    let mut result: Vec<Option<Rect>> = Vec::new();
    let mut i: usize = 0;
    while i < n
        invariant
            n == sizes@.len(),
            n <= MAX_CHILDREN,
            i <= n,
            forall|j: int| 0 <= j < sizes@.len() && (#[trigger] sizes@[j]) is Some ==> size_ok(sizes@[j]->0),
            y == stacked_height(sizes@.take(i as int)),
            result@.len() == i,
            forall|k: int| 0 <= k < i ==> #[trigger] result@[k] == list_child_bounds_spec(size, sizes@, k),
        decreases n - i,
    {
        proof {
            lemma_stack_sum(sizes@, i as int);
            lemma_stack_sum(sizes@, i + 1);
            assert(sizes@.take(i + 1).drop_last() =~= sizes@.take(i as int));
            assert(sizes@.take(i + 1).last() == sizes@[i as int]);
        }
        match sizes[i] {
            Some(c) => {
                result.push(Some(Rect::new(Point::new(0, y), Size::new(size.width, c.height))));
                y = y + c.height;
            },
            None => {
                result.push(None);
            },
        }
        i += 1;
    }
    result
}

/// A sized box keeps its fixed size when the constraints allow it; it never
/// goes below a smallest extent it is given, nor above a largest one that
/// does not conflict with the smallest.
pub proof fn law_sized_box_within_limits(fixed: Size, c: BoxConstraints)
    ensures
        ({
            let s = sized_box_size_spec(fixed, c);
            &&& c.min_width is Some ==> s.width >= c.min_width->0
            &&& c.min_height is Some ==> s.height >= c.min_height->0
            &&& c.max_width is Some && (c.min_width is None || c.min_width->0 <= c.max_width->0)
                ==> s.width <= c.max_width->0
            &&& c.max_height is Some && (c.min_height is None || c.min_height->0 <= c.max_height->0)
                ==> s.height <= c.max_height->0
            &&& (c.min_width is None || c.min_width->0 <= fixed.width) && (c.max_width is None || fixed.width <= c.max_width->0)
                ==> s.width == fixed.width
            &&& (c.min_height is None || c.min_height->0 <= fixed.height) && (c.max_height is None || fixed.height <= c.max_height->0)
                ==> s.height == fixed.height
        }),
{
}

/// A centered child leaves the same space, up to one pixel of rounding, on
/// its left and right, and on its top and bottom, when no extent is negative.
pub proof fn law_centered_is_balanced(size: Size, c: Size)
    requires
        size_ok(size),
        size_ok(c),
        0 <= size.width && 0 <= size.height,
        0 <= c.width && 0 <= c.height,
    ensures
        ({
            let r = centered(size, c);
            let left = r.position.x as int;
            let right = size.width - (r.position.x + c.width);
            let top = r.position.y as int;
            let bottom = size.height - (r.position.y + c.height);
            &&& -1 <= left - right <= 1
            &&& -1 <= top - bottom <= 1
        }),
{
}

/// In a list, a child with a preferred size starts where the one before it,
/// with a preferred size too, ends.
pub proof fn law_list_children_touch(size: Size, sizes: Seq<Option<Size>>, i: int)
    requires
        0 <= i < sizes.len() - 1,
        sizes[i] is Some,
        sizes[i + 1] is Some,
        forall|j: int| 0 <= j < sizes.len() && (#[trigger] sizes[j]) is Some ==> size_ok(sizes[j]->0),
        sizes.len() <= MAX_CHILDREN,
    ensures
        list_child_bounds_spec(size, sizes, i + 1)->0.position.y
            == list_child_bounds_spec(size, sizes, i)->0.position.y + list_child_bounds_spec(size, sizes, i)->0.size.height,
{
    lemma_stack_sum(sizes, i);
    lemma_stack_sum(sizes, i + 1);
    assert(sizes.take(i + 1).drop_last() =~= sizes.take(i));
    assert(sizes.take(i + 1).last() == sizes[i]);
}

/// In a row, a child with a preferred size starts where the one before it,
/// with a preferred size too, ends.
pub proof fn law_row_children_touch(size: Size, sizes: Seq<Option<Size>>, i: int)
    requires
        0 <= i < sizes.len() - 1,
        sizes[i] is Some,
        sizes[i + 1] is Some,
        forall|j: int| 0 <= j < sizes.len() && (#[trigger] sizes[j]) is Some ==> size_ok(sizes[j]->0),
        sizes.len() <= MAX_CHILDREN,
    ensures
        row_child_bounds_spec(size, sizes, i + 1).position.x
            == row_child_bounds_spec(size, sizes, i).position.x + row_child_bounds_spec(size, sizes, i).size.width,
{
    lemma_row_sums(sizes, i);
    lemma_row_sums(sizes, i + 1);
    assert(sizes.take(i + 1).drop_last() =~= sizes.take(i));
    assert(sizes.take(i + 1).last() == sizes[i]);
}

/// The number of children without a preferred size is the number of
/// `None` entries, and the width the others take is the sum of their
/// preferred widths.
proof fn lemma_row_counts(sizes: Seq<Option<Size>>)
    ensures
        unconstrained_count(sizes) == sizes.filter(|s: Option<Size>| s is None).len(),
        constrained_width(sizes) == sizes.fold_left(0int, |acc: int, s: Option<Size>| acc + if s is Some { s->0.width as int } else { 0 }),
    decreases sizes.len(),
{
    reveal_with_fuel(Seq::filter, 1);
    if sizes.len() > 0 {
        lemma_row_counts(sizes.drop_last());
    }
}

/// In a row, a child without a preferred size gets, from its left edge at
/// the sum of the preferred widths before it, the full height and the
/// width that the children with a preferred size leave, shared equally by
/// the children without one; a child with a preferred size keeps it.
pub proof fn law_row_shares_the_leftover(size: Size, sizes: Seq<Option<Size>>, i: int)
    requires
        0 <= i < sizes.len(),
    ensures
        ({
            let r = row_child_bounds_spec(size, sizes, i);
            let shared = sizes.filter(|s: Option<Size>| s is None).len();
            let preferred = sizes.fold_left(0int, |acc: int, s: Option<Size>| acc + if s is Some { s->0.width as int } else { 0 });
            let before = sizes.take(i).fold_left(0int, |acc: int, s: Option<Size>| acc + if s is Some { s->0.width as int } else { 0 });
            &&& r.position.x == before as i64
            &&& sizes[i] is None ==> shared > 0
                && r.size.width == div_trunc(size.width - preferred, shared as int) as i64
                && r.size.height == size.height && r.position.y == 0
            &&& sizes[i] is Some ==> r.size == sizes[i]->0
        }),
{
    lemma_row_counts(sizes);
    lemma_row_counts(sizes.take(i));
    if sizes[i] is None {
        let f = |s: Option<Size>| s is None;
        broadcast use vstd::seq_lib::group_filter_ensures;
        assert(sizes.filter(f).contains(sizes[i]));
    }
}

} // verus!
