//! The canvas store: the current colour of every cell that was ever written.
//!
//! The store keeps one row per written cell, in the order in which the cells
//! were first written. Writing a cell again replaces its row in place.

use crate::assoc::distinct_keys;
use crate::assoc::lemma_written_keys;
use crate::assoc::lemma_written_last;
use crate::assoc::lemma_written_push;
use crate::assoc::lemma_written_update;
use crate::assoc::written;
use crate::types::pixel_views;
use crate::types::CanvasError;
use crate::types::Pixel;
use crate::types::PixelView;
use vstd::prelude::*;

verus! {

/// Whether a row stands at the coordinate `(x, y)`.
pub open spec fn at(row: PixelView, x: nat, y: nat) -> bool {
    row.x == x && row.y == y
}

/// Whether some row stands at `(x, y)`.
pub open spec fn has_row(rows: Seq<PixelView>, x: nat, y: nat) -> bool {
    exists|i: int| 0 <= i < rows.len() && at(#[trigger] rows[i], x, y)
}

/// The place of a row at `(x, y)`, where there is one.
pub open spec fn row_index(rows: Seq<PixelView>, x: nat, y: nat) -> int {
    choose|i: int| 0 <= i < rows.len() && at(#[trigger] rows[i], x, y)
}

/// The rows after `cell` is written: its row is replaced where it stands, or
/// added at the end if the cell was never written.
pub open spec fn put(rows: Seq<PixelView>, cell: PixelView) -> Seq<PixelView> {
    if has_row(rows, cell.x, cell.y) {
        rows.update(row_index(rows, cell.x, cell.y), cell)
    } else {
        rows.push(cell)
    }
}

/// Every row lies within a canvas of the given size, and no two rows share a
/// coordinate.
pub open spec fn rows_ok(rows: Seq<PixelView>, width: nat, height: nat) -> bool {
    &&& forall|i: int|
        0 <= i < rows.len() ==> (#[trigger] rows[i]).x < width && rows[i].y < height
    &&& forall|i: int, j: int|
        #![trigger rows[i], rows[j]]
        0 <= i < j < rows.len() ==> !at(rows[j], rows[i].x, rows[i].y)
}

/// The rows as writes of a colour to a coordinate.
pub open spec fn cell_writes(rows: Seq<PixelView>) -> Seq<((nat, nat), Seq<char>)> {
    rows.map_values(|row: PixelView| ((row.x, row.y), row.color))
}

/// The colour that the rows show at each written coordinate.
pub open spec fn painted(rows: Seq<PixelView>) -> Map<(nat, nat), Seq<char>> {
    written(cell_writes(rows))
}

/// A coordinate is painted exactly when a row stands at it.
pub proof fn lemma_painted_keys(rows: Seq<PixelView>, x: nat, y: nat)
    ensures
        painted(rows).contains_key((x, y)) <==> has_row(rows, x, y),
{
    let writes = cell_writes(rows);
    lemma_written_keys(writes, (x, y));
    if painted(rows).contains_key((x, y)) {
        let i = choose|i: int| 0 <= i < writes.len() && (#[trigger] writes[i]).0 == (x, y);
        assert(at(rows[i], x, y));
    }
    if has_row(rows, x, y) {
        let i = row_index(rows, x, y);
        assert(writes[i].0 == (x, y));
    }
}

/// Among rows with distinct coordinates, each row's colour is the one painted
/// at its coordinate.
pub proof fn lemma_painted_row(rows: Seq<PixelView>, width: nat, height: nat, i: int)
    requires
        rows_ok(rows, width, height),
        0 <= i < rows.len(),
    ensures
        painted(rows).contains_key((rows[i].x, rows[i].y)),
        painted(rows)[(rows[i].x, rows[i].y)] == rows[i].color,
{
    let writes = cell_writes(rows);
    assert forall|j: int| i < j < writes.len() implies (#[trigger] writes[j]).0
        != writes[i].0 by {
        assert(!at(rows[j], rows[i].x, rows[i].y));
    }
    lemma_written_last(writes, i);
}

/// Writing a cell within bounds keeps the rows in order and changes the
/// painted colour at that one coordinate.
pub proof fn lemma_put(rows: Seq<PixelView>, width: nat, height: nat, cell: PixelView)
    requires
        rows_ok(rows, width, height),
        cell.x < width,
        cell.y < height,
    ensures
        rows_ok(put(rows, cell), width, height),
        painted(put(rows, cell)) == painted(rows).insert((cell.x, cell.y), cell.color),
{
    let writes = cell_writes(rows);
    if has_row(rows, cell.x, cell.y) {
        let i = row_index(rows, cell.x, cell.y);
        let after = rows.update(i, cell);
        assert(distinct_keys(writes)) by {
            assert forall|a: int, b: int|
                #![trigger writes[a], writes[b]]
                0 <= a < b < writes.len() implies writes[a].0 != writes[b].0 by {
                assert(!at(rows[b], rows[a].x, rows[a].y));
            }
        }
        assert(cell_writes(after) =~= writes.update(i, (writes[i].0, cell.color)));
        lemma_written_update(writes, i, cell.color);
        assert forall|a: int, b: int|
            #![trigger after[a], after[b]]
            0 <= a < b < after.len() implies !at(after[b], after[a].x, after[a].y) by {
            assert(!at(rows[b], rows[a].x, rows[a].y));
        }
    } else {
        let after = rows.push(cell);
        assert(cell_writes(after) =~= writes.push(((cell.x, cell.y), cell.color)));
        lemma_written_push(writes, (cell.x, cell.y), cell.color);
        assert forall|a: int, b: int|
            #![trigger after[a], after[b]]
            0 <= a < b < after.len() implies !at(after[b], after[a].x, after[a].y) by {
            if b < rows.len() {
                assert(!at(rows[b], rows[a].x, rows[a].y));
            } else {
                assert(!at(rows[a], cell.x, cell.y));
            }
        }
    }
}

/// The authoritative colour of every written cell of a canvas of fixed size.
pub struct CanvasStore {
    width: u32,
    height: u32,
    cells: Vec<Pixel>,
}

impl View for CanvasStore {
    type V = Map<(nat, nat), Seq<char>>;

    /// The current colour at each written coordinate.
    open spec fn view(&self) -> Map<(nat, nat), Seq<char>> {
        painted(self.rows())
    }
}

impl CanvasStore {
    /// The rows of the store, in the order in which their cells were first written.
    pub closed spec fn rows(&self) -> Seq<PixelView> {
        pixel_views(self.cells@)
    }

    /// The configured width.
    pub closed spec fn spec_width(&self) -> nat {
        self.width as nat
    }

    /// The configured height.
    pub closed spec fn spec_height(&self) -> nat {
        self.height as nat
    }

    /// Whether `(x, y)` is a coordinate of this canvas.
    pub open spec fn in_bounds(&self, x: nat, y: nat) -> bool {
        x < self.spec_width() && y < self.spec_height()
    }

    /// Every row lies within bounds and no coordinate has two rows.
    pub open spec fn wf(&self) -> bool {
        rows_ok(self.rows(), self.spec_width(), self.spec_height())
    }

    /// An empty store for a canvas of the given size.
    pub fn new(width: u32, height: u32) -> (store: Self)
        ensures
            store.wf(),
            store.rows() == Seq::<PixelView>::empty(),
            store@ == Map::<(nat, nat), Seq<char>>::empty(),
            store.spec_width() == width,
            store.spec_height() == height,
    {
        let store = CanvasStore { width, height, cells: Vec::new() };
        assert(store.rows() =~= Seq::<PixelView>::empty());
        store
    }

    /// The configured width.
    pub fn width(&self) -> (w: u32)
        ensures
            w == self.spec_width(),
    {
        self.width
    }

    /// The configured height.
    pub fn height(&self) -> (h: u32)
        ensures
            h == self.spec_height(),
    {
        self.height
    }

    /// How many cells have been written.
    pub fn len(&self) -> (n: usize)
        ensures
            n == self.rows().len(),
    {
        self.cells.len()
    }

    /// Where the row of `(x, y)` stands, if the cell was written.
    fn find(&self, x: u32, y: u32) -> (found: Option<usize>)
        ensures
            match found {
                Some(i) => i < self.rows().len() && at(self.rows()[i as int], x as nat, y as nat),
                None => !has_row(self.rows(), x as nat, y as nat),
            },
    {
        let mut i: usize = 0;
        while i < self.cells.len()
            invariant
                i <= self.cells.len(),
                forall|j: int| 0 <= j < i ==> !at(#[trigger] self.rows()[j], x as nat, y as nat),
            decreases self.cells.len() - i,
        {
            if self.cells[i].x == x && self.cells[i].y == y {
                return Some(i);
            }
            i += 1;
        }
        None
    }

    /// The current colour of `(x, y)`, or `None` if the cell was never written.
    pub fn get(&self, x: u32, y: u32) -> (color: Option<&String>)
        requires
            self.wf(),
        ensures
            match color {
                Some(c) => self@.contains_key((x as nat, y as nat)) && c@ == self@[(
                    x as nat,
                    y as nat,
                )],
                None => !self@.contains_key((x as nat, y as nat)),
            },
    {
        proof {
            lemma_painted_keys(self.rows(), x as nat, y as nat);
        }
        match self.find(x, y) {
            Some(i) => {
                proof {
                    lemma_painted_row(
                        self.rows(),
                        self.spec_width(),
                        self.spec_height(),
                        i as int,
                    );
                }
                Some(&self.cells[i].color)
            },
            None => None,
        }
    }

    /// Writes `color` at `(x, y)` and returns the colour that stood there.
    ///
    /// A coordinate outside the canvas is refused and nothing changes.
    pub fn set(&mut self, x: u32, y: u32, color: String) -> (previous: Result<
        Option<String>,
        CanvasError,
    >)
        requires
            old(self).wf(),
        ensures
            final(self).wf(),
            final(self).spec_width() == old(self).spec_width(),
            final(self).spec_height() == old(self).spec_height(),
            !old(self).in_bounds(x as nat, y as nat) ==> previous == Err::<
                Option<String>,
                CanvasError,
            >(CanvasError::OutOfBounds) && *final(self) == *old(self),
            old(self).in_bounds(x as nat, y as nat) ==> previous is Ok && final(self).rows()
                == put(old(self).rows(), PixelView { x: x as nat, y: y as nat, color: color@ })
                && final(self)@ == old(self)@.insert((x as nat, y as nat), color@),
            previous matches Ok(Some(before)) ==> old(self)@.contains_key((x as nat, y as nat))
                && before@ == old(self)@[(x as nat, y as nat)],
            previous matches Ok(None) ==> !old(self)@.contains_key((x as nat, y as nat)),
    {
        if x >= self.width || y >= self.height {
            return Err(CanvasError::OutOfBounds);
        }
        let ghost cell = PixelView { x: x as nat, y: y as nat, color: color@ };
        proof {
            lemma_painted_keys(self.rows(), x as nat, y as nat);
            lemma_put(self.rows(), self.spec_width(), self.spec_height(), cell);
        }
        match self.find(x, y) {
            Some(i) => {
                proof {
                    lemma_painted_row(
                        self.rows(),
                        self.spec_width(),
                        self.spec_height(),
                        i as int,
                    );
                    assert(row_index(self.rows(), x as nat, y as nat) == i) by {
                        let k = row_index(self.rows(), x as nat, y as nat);
                        if k < i {
                            assert(!at(self.rows()[i as int], self.rows()[k].x, self.rows()[k].y));
                        } else if i < k {
                            assert(!at(self.rows()[k], self.rows()[i as int].x, self.rows()[i as int].y));
                        }
                    }
                }
                let mut before = color;
                core::mem::swap(&mut self.cells[i].color, &mut before);
                assert(self.rows() =~= old(self).rows().update(i as int, cell));
                Ok(Some(before))
            },
            None => {
                self.cells.push(Pixel { x, y, color });
                assert(self.rows() =~= old(self).rows().push(cell));
                Ok(None)
            },
        }
    }

    /// A copy of every written cell, in the order in which the cells were
    /// first written.
    pub fn snapshot(&self) -> (cells: Vec<Pixel>)
        ensures
            pixel_views(cells@) == self.rows(),
    {
        let mut cells: Vec<Pixel> = Vec::new();
        let mut i: usize = 0;
        while i < self.cells.len()
            invariant
                i <= self.cells.len(),
                cells@ == self.cells@.subrange(0, i as int),
            decreases self.cells.len() - i,
        {
            cells.push(self.cells[i].clone());
            assert(cells@ =~= self.cells@.subrange(0, i + 1));
            i += 1;
        }
        assert(cells@ =~= self.cells@);
        cells
    }
}

} // verus!
