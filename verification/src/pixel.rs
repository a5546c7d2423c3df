//! Pixels and the last-writer-wins canvas.

use vstd::prelude::*;

verus! {

/// One cell of the canvas. Its identity is `(x, y)`; `updated` is the logical
/// time of the write that produced `colour`.
#[derive(Clone, Copy, Debug, PartialEq, Eq)]
pub struct Pixel {
    pub x: i32,
    pub y: i32,
    pub colour: i32,
    pub updated: i32,
}

impl Pixel {
    /// The position that identifies the pixel.
    pub open spec fn key(self) -> (i32, i32) {
        (self.x, self.y)
    }
}

/// The canvas as a mathematical object: at most one pixel per position.
pub type CanvasMap = Map<(i32, i32), Pixel>;

/// Last writer wins: the stored pixel is replaced only by a strictly newer one.
pub open spec fn lww_upsert(m: CanvasMap, p: Pixel) -> CanvasMap {
    if m.contains_key(p.key()) && p.updated <= m[p.key()].updated {
        m
    } else {
        m.insert(p.key(), p)
    }
}

/// The canvas after the writes `ps` have been applied to `m` in order.
pub open spec fn lww_apply(m: CanvasMap, ps: Seq<Pixel>) -> CanvasMap
    decreases ps.len(),
{
    if ps.len() == 0 {
        m
    } else {
        lww_upsert(lww_apply(m, ps.drop_last()), ps.last())
    }
}

/// No two rows share a position.
pub open spec fn distinct_keys(rows: Seq<Pixel>) -> bool {
    forall|i: int, j: int|
        0 <= i < rows.len() && 0 <= j < rows.len() && i != j ==> rows[i].key() != rows[j].key()
}

/// How many of the writes `ps`, applied in order to `m`, change the canvas.
pub open spec fn lww_written(m: CanvasMap, ps: Seq<Pixel>) -> nat
    decreases ps.len(),
{
    if ps.len() == 0 {
        0
    } else {
        let before = lww_apply(m, ps.drop_last());
        let here: nat = if lww_upsert(before, ps.last()) == before {
            0
        } else {
            1
        };
        lww_written(m, ps.drop_last()) + here
    }
}

/// Rows with distinct positions are exactly the canvas they fold into.
pub proof fn lemma_rows_are_canvas(rows: Seq<Pixel>)
    requires
        distinct_keys(rows),
    ensures
        forall|i: int|
            0 <= i < rows.len() ==> {
                &&& #[trigger] lww_apply(Map::empty(), rows).contains_key(rows[i].key())
                &&& lww_apply(Map::empty(), rows)[rows[i].key()] == rows[i]
            },
        forall|k: (i32, i32)| #[trigger]
            lww_apply(Map::empty(), rows).contains_key(k) ==> exists|i: int|
                0 <= i < rows.len() && #[trigger] rows[i].key() == k,
    decreases rows.len(),
{
    if rows.len() > 0 {
        let init = rows.drop_last();
        lemma_rows_are_canvas(init);
        let before = lww_apply(Map::empty(), init);
        let last = rows.last();
        if before.contains_key(last.key()) {
            let i = choose|i: int| 0 <= i < init.len() && #[trigger] init[i].key() == last.key();
            assert(rows[i].key() == rows[rows.len() - 1].key());
        }
        assert(lww_apply(Map::empty(), rows) == before.insert(last.key(), last));
        assert forall|i: int| 0 <= i < rows.len() implies {
            &&& #[trigger] lww_apply(Map::empty(), rows).contains_key(rows[i].key())
            &&& lww_apply(Map::empty(), rows)[rows[i].key()] == rows[i]
        } by {
            if i < rows.len() - 1 {
                assert(init[i] == rows[i]);
                assert(before.contains_key(init[i].key()));
            }
        }
        assert forall|k: (i32, i32)| #[trigger]
            lww_apply(Map::empty(), rows).contains_key(k) implies exists|i: int|
            0 <= i < rows.len() && #[trigger] rows[i].key() == k by {
            if k == last.key() {
                assert(rows[rows.len() - 1].key() == k);
            } else {
                assert(before.contains_key(k));
                let i = choose|i: int| 0 <= i < init.len() && #[trigger] init[i].key() == k;
                assert(rows[i].key() == k);
            }
        }
    }
}

/// Last writer wins. After the writes `ps` have been applied to `m`, a
/// position holds a pixel exactly when `m` held one or some write went
/// there; what it holds is what `m` held or one of those writes; and no
/// write to that position, nor what `m` held, is newer than it.
pub proof fn lemma_lww_greatest(m: CanvasMap, ps: Seq<Pixel>, k: (i32, i32))
    requires
        forall|q: (i32, i32)| m.contains_key(q) ==> #[trigger] m[q].key() == q,
    ensures
        forall|q: (i32, i32)| #[trigger]
            lww_apply(m, ps).contains_key(q) ==> lww_apply(m, ps)[q].key() == q,
        lww_apply(m, ps).contains_key(k) <==> m.contains_key(k) || exists|i: int|
            0 <= i < ps.len() && (#[trigger] ps[i]).key() == k,
        lww_apply(m, ps).contains_key(k) ==> (m.contains_key(k) && lww_apply(m, ps)[k] == m[k])
            || exists|i: int| 0 <= i < ps.len() && #[trigger] ps[i] == lww_apply(m, ps)[k],
        m.contains_key(k) ==> m[k].updated <= lww_apply(m, ps)[k].updated,
        forall|i: int|
            0 <= i < ps.len() && (#[trigger] ps[i]).key() == k ==> ps[i].updated <= lww_apply(
                m,
                ps,
            )[k].updated,
    decreases ps.len(),
{
    if ps.len() > 0 {
        let init = ps.drop_last();
        let last = ps.last();
        lemma_lww_greatest(m, init, k);
        lemma_lww_greatest(m, init, last.key());
        let before = lww_apply(m, init);
        let after = lww_apply(m, ps);
        assert(after == lww_upsert(before, last));
        assert forall|q: (i32, i32)| #[trigger] after.contains_key(q) implies after[q].key()
            == q by {
            if before.contains_key(q) {
                assert(before[q].key() == q);
            }
        }
        if exists|i: int| 0 <= i < init.len() && (#[trigger] init[i]).key() == k {
            let i = choose|i: int| 0 <= i < init.len() && (#[trigger] init[i]).key() == k;
            assert(ps[i].key() == k);
        }
        if exists|i: int| 0 <= i < ps.len() && (#[trigger] ps[i]).key() == k {
            let i = choose|i: int| 0 <= i < ps.len() && (#[trigger] ps[i]).key() == k;
            if i < init.len() {
                assert(init[i].key() == k);
            }
        }
        if after.contains_key(k) {
            if last.key() == k && after[k] == last {
                assert(ps[ps.len() - 1] == after[k]);
            } else {
                assert(after[k] == before[k]);
                if !(m.contains_key(k) && before[k] == m[k]) {
                    let i = choose|i: int| 0 <= i < init.len() && #[trigger] init[i] == before[k];
                    assert(ps[i] == after[k]);
                }
            }
        }
        assert forall|i: int| 0 <= i < ps.len() && (#[trigger] ps[i]).key() == k implies ps[i].updated
            <= after[k].updated by {
            if i < init.len() {
                assert(init[i].key() == k);
                assert(init[i].updated <= before[k].updated);
            }
        }
    }
}

/// Convergence. Two replicas that start from empty canvases and have seen
/// the same writes, in whatever order and however often, hold the same
/// canvas, provided that two writes to one position with the same time
/// stamp carry the same colour.
pub proof fn lemma_lww_convergence(a: Seq<Pixel>, b: Seq<Pixel>)
    requires
        forall|p: Pixel| a.contains(p) <==> b.contains(p),
        forall|i: int, j: int|
            0 <= i < a.len() && 0 <= j < a.len() && (#[trigger] a[i]).key() == (#[trigger] a[j]).key()
                && a[i].updated == a[j].updated ==> a[i].colour == a[j].colour,
    ensures
        lww_apply(Map::empty(), a) == lww_apply(Map::empty(), b),
{
    let ma = lww_apply(Map::empty(), a);
    let mb = lww_apply(Map::empty(), b);
    let empty = Map::<(i32, i32), Pixel>::empty();
    assert forall|k: (i32, i32)|
        (#[trigger] ma.contains_key(k)) == mb.contains_key(k) && (ma.contains_key(k) ==> ma[k]
            == mb[k]) by {
        lemma_lww_greatest(empty, a, k);
        lemma_lww_greatest(empty, b, k);
        if ma.contains_key(k) {
            let i = choose|i: int| 0 <= i < a.len() && (#[trigger] a[i]).key() == k;
            assert(a.contains(a[i]));
            let j = choose|j: int| 0 <= j < b.len() && b[j] == a[i];
            assert(b[j].key() == k);
        }
        if mb.contains_key(k) {
            let j = choose|j: int| 0 <= j < b.len() && (#[trigger] b[j]).key() == k;
            assert(b.contains(b[j]));
            let i = choose|i: int| 0 <= i < a.len() && a[i] == b[j];
            assert(a[i].key() == k);
        }
        if ma.contains_key(k) {
            let ia = choose|i: int| 0 <= i < a.len() && #[trigger] a[i] == ma[k];
            let jb = choose|j: int| 0 <= j < b.len() && #[trigger] b[j] == mb[k];
            assert(a.contains(a[ia]));
            let ib = choose|j: int| 0 <= j < b.len() && b[j] == a[ia];
            assert(b[ib].key() == k);
            assert(b[ib].updated <= mb[k].updated);
            assert(b.contains(b[jb]));
            let ja = choose|i: int| 0 <= i < a.len() && a[i] == b[jb];
            assert(a[ja].key() == k);
            assert(a[ja].updated <= ma[k].updated);
            assert(a[ia].key() == a[ja].key());
            assert(a[ia].colour == a[ja].colour);
        }
    }
    assert forall|k: (i32, i32)| #[trigger] mb.contains_key(k) implies ma.contains_key(k) by {
        assert(ma.contains_key(k) == mb.contains_key(k));
    }
    assert(ma.dom() =~= mb.dom());
    assert(ma =~= mb);
}

/// A replica's copy of the canvas.
pub struct Canvas {
    rows: Vec<Pixel>,
}

impl View for Canvas {
    type V = CanvasMap;

    closed spec fn view(&self) -> CanvasMap {
        lww_apply(Map::empty(), self.rows@)
    }
}

impl Canvas {
    /// Holds for every canvas that this module hands out.
    pub closed spec fn wf(&self) -> bool {
        distinct_keys(self.rows@)
    }

    /// The empty canvas.
    pub fn new() -> (canvas: Canvas)
        ensures
            canvas.wf(),
            canvas@ == Map::<(i32, i32), Pixel>::empty(),
    {
        Canvas { rows: Vec::new() }
    }

    /// The pixel stored at `(x, y)`, if there is one.
    pub fn get(&self, x: i32, y: i32) -> (found: Option<Pixel>)
        requires
            self.wf(),
        ensures
            found == if self@.contains_key((x, y)) {
                Some(self@[(x, y)])
            } else {
                None
            },
    {
        proof {
            lemma_rows_are_canvas(self.rows@);
        }
        match self.position(x, y) {
            Some(i) => Some(self.rows[i]),
            None => None,
        }
    }

    /// Number of stored pixels.
    pub fn len(&self) -> (n: usize)
        requires
            self.wf(),
        ensures
            n == self@.dom().len(),
            self@.dom().finite(),
    {
        proof {
            lemma_rows_cardinality(self.rows@);
        }
        self.rows.len()
    }

    fn position(&self, x: i32, y: i32) -> (found: Option<usize>)
        ensures
            match found {
                Some(i) => i < self.rows@.len() && self.rows@[i as int].key() == (x, y),
                None => forall|j: int| 0 <= j < self.rows@.len() ==> self.rows@[j].key() != (x, y),
            },
    {
        let mut i: usize = 0;
        while i < self.rows.len()
            invariant
                i <= self.rows@.len(),
                forall|j: int| 0 <= j < i ==> self.rows@[j].key() != (x, y),
            decreases self.rows@.len() - i,
        {
            if self.rows[i].x == x && self.rows[i].y == y {
                return Some(i);
            }
            i += 1;
        }
        None
    }
}

/// A canvas built from rows with distinct positions has one entry per row.
pub proof fn lemma_rows_cardinality(rows: Seq<Pixel>)
    requires
        distinct_keys(rows),
    ensures
        lww_apply(Map::empty(), rows).dom().finite(),
        lww_apply(Map::empty(), rows).dom().len() == rows.len(),
    decreases rows.len(),
{
    if rows.len() > 0 {
        let init = rows.drop_last();
        lemma_rows_cardinality(init);
        lemma_rows_are_canvas(init);
        let before = lww_apply(Map::empty(), init);
        let last = rows.last();
        if before.contains_key(last.key()) {
            let i = choose|i: int| 0 <= i < init.len() && #[trigger] init[i].key() == last.key();
            assert(rows[i].key() == rows[rows.len() - 1].key());
        }
        assert(lww_apply(Map::empty(), rows) == before.insert(last.key(), last));
        assert(before.insert(last.key(), last).dom() =~= before.dom().insert(last.key()));
    }
}

impl Pixel {
    /// Every stored pixel, once. Writing the result into an empty canvas gives
    /// this canvas back.
    pub fn all(canvas: &Canvas) -> (pixels: Vec<Pixel>)
        requires
            canvas.wf(),
        ensures
            distinct_keys(pixels@),
            lww_apply(Map::empty(), pixels@) == canvas@,
    {
        let mut pixels: Vec<Pixel> = Vec::new();
        let mut i: usize = 0;
        while i < canvas.rows.len()
            invariant
                i <= canvas.rows@.len(),
                pixels@ == canvas.rows@.subrange(0, i as int),
            decreases canvas.rows@.len() - i,
        {
            pixels.push(canvas.rows[i]);
            proof {
                assert(pixels@ =~= canvas.rows@.subrange(0, i + 1));
            }
            i += 1;
        }
        proof {
            assert(pixels@ =~= canvas.rows@);
        }
        pixels
    }

    /// Writes `pixel` under the last-writer-wins rule. Returns the number of
    /// rows written: 1 when the pixel was stored, 0 when the canvas already
    /// held one at that position that is as new or newer.
    pub fn insert_pixel(canvas: &mut Canvas, pixel: &Pixel) -> (written: u64)
        requires
            old(canvas).wf(),
        ensures
            final(canvas).wf(),
            final(canvas)@ == lww_upsert(old(canvas)@, *pixel),
            written == if final(canvas)@ == old(canvas)@ {
                0u64
            } else {
                1u64
            },
    {
        proof {
            lemma_rows_are_canvas(canvas.rows@);
        }
        let ghost before = canvas.rows@;
        match canvas.position(pixel.x, pixel.y) {
            Some(i) => {
                let stored = canvas.rows[i];
                if pixel.updated > stored.updated {
                    canvas.rows.set(i, *pixel);
                    proof {
                        let after = canvas.rows@;
                        assert(distinct_keys(after)) by {
                            assert forall|a: int, b: int|
                                0 <= a < after.len() && 0 <= b < after.len() && a != b implies after[a].key()
                                != after[b].key() by {
                                assert(after[a].key() == before[a].key());
                                assert(after[b].key() == before[b].key());
                            }
                        }
                        lemma_rows_are_canvas(after);
                        let m0 = lww_apply(Map::empty(), before);
                        let m1 = lww_apply(Map::empty(), after);
                        assert(m1 =~= m0.insert(pixel.key(), *pixel)) by {
                            assert forall|k: (i32, i32)| m1.contains_key(k) <==> m0.insert(
                                pixel.key(),
                                *pixel,
                            ).contains_key(k) by {
                                if m1.contains_key(k) {
                                    let j = choose|j: int|
                                        0 <= j < after.len() && #[trigger] after[j].key() == k;
                                    assert(before[j].key() == k);
                                    assert(m0.contains_key(before[j].key()));
                                }
                                if m0.contains_key(k) {
                                    let j = choose|j: int|
                                        0 <= j < before.len() && #[trigger] before[j].key() == k;
                                    assert(after[j].key() == k);
                                    assert(m1.contains_key(after[j].key()));
                                }
                                if k == pixel.key() {
                                    assert(m1.contains_key(after[i as int].key()));
                                }
                            }
                            assert forall|k: (i32, i32)| m1.contains_key(k) implies m1[k]
                                == m0.insert(pixel.key(), *pixel)[k] by {
                                let j = choose|j: int|
                                    0 <= j < after.len() && #[trigger] after[j].key() == k;
                                assert(m1.contains_key(after[j].key()));
                                assert(m0.contains_key(before[j].key()));
                                if j == i {
                                } else {
                                    assert(after[j] == before[j]);
                                }
                            }
                        }
                        assert(m0.contains_key(before[i as int].key()));
                        assert(m0[pixel.key()] == stored);
                        assert(m1[pixel.key()] == *pixel);
                    }
                    1
                } else {
                    proof {
                        assert(lww_apply(Map::empty(), before).contains_key(
                            before[i as int].key(),
                        ));
                    }
                    0
                }
            },
            None => {
                canvas.rows.push(*pixel);
                proof {
                    let after = canvas.rows@;
                    assert(after.drop_last() =~= before);
                    assert(after.last() == *pixel);
                    let m0 = lww_apply(Map::empty(), before);
                    if m0.contains_key(pixel.key()) {
                        let j = choose|j: int|
                            0 <= j < before.len() && #[trigger] before[j].key() == pixel.key();
                        assert(false);
                    }
                    assert(distinct_keys(after)) by {
                        assert forall|a: int, b: int|
                            0 <= a < after.len() && 0 <= b < after.len() && a != b implies after[a].key()
                            != after[b].key() by {
                            if a < before.len() {
                                assert(after[a] == before[a]);
                            }
                            if b < before.len() {
                                assert(after[b] == before[b]);
                            }
                        }
                    }
                    assert(!(m0.insert(pixel.key(), *pixel) == m0)) by {
                        assert(m0.insert(pixel.key(), *pixel).contains_key(pixel.key()));
                    }
                }
                1
            },
        }
    }

    /// Writes a decoded payload. `None` stands for a payload that could not be
    /// decoded: nothing is written then.
    pub fn insert(canvas: &mut Canvas, data: Option<Pixel>) -> (written: u64)
        requires
            old(canvas).wf(),
        ensures
            final(canvas).wf(),
            final(canvas)@ == match data {
                Some(pixel) => lww_upsert(old(canvas)@, pixel),
                None => old(canvas)@,
            },
            written == if final(canvas)@ == old(canvas)@ {
                0u64
            } else {
                1u64
            },
    {
        match data {
            Some(pixel) => Pixel::insert_pixel(canvas, &pixel),
            None => 0,
        }
    }

    /// Full resynchronisation: empties the canvas, then writes `pixels` in
    /// order. Returns the number of rows written.
    pub fn update_all(canvas: &mut Canvas, pixels: &Vec<Pixel>) -> (written: u64)
        requires
            old(canvas).wf(),
        ensures
            final(canvas).wf(),
            final(canvas)@ == lww_apply(Map::empty(), pixels@),
            written == lww_written(Map::empty(), pixels@),
    {
        canvas.rows = Vec::new();
        let mut written: u64 = 0;
        let mut i: usize = 0;
        while i < pixels.len()
            invariant
                i <= pixels@.len(),
                canvas.wf(),
                canvas@ == lww_apply(Map::empty(), pixels@.subrange(0, i as int)),
                written == lww_written(Map::empty(), pixels@.subrange(0, i as int)),
                written <= i,
            decreases pixels@.len() - i,
        {
            let ghost prefix = pixels@.subrange(0, i as int);
            let ghost next = pixels@.subrange(0, i + 1);
            proof {
                assert(next.drop_last() =~= prefix);
                assert(next.last() == pixels@[i as int]);
            }
            let n = Pixel::insert_pixel(canvas, &pixels[i]);
            written = written + n;
            i += 1;
        }
        proof {
            assert(pixels@.subrange(0, i as int) =~= pixels@);
        }
        written
    }
}

} // verus!
