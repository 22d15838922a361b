//! Output that was decoded without the preceding window.
//!
//! A back-reference into the unknown prefix leaves a placeholder byte and a
//! [`Marker`]. Once the bytes before the chunk are known, [`resolve_markers`]
//! fills in every placeholder.
use vstd::prelude::*;
use crate::deflate::DeflateError;
use crate::deflate::cells::{
    Cell, known, cell_back, copy_cells, within, filled, lemma_copy_cells_window, lemma_copy_cells_extends,
};
use crate::deflate::format::copy_back;
use crate::deflate::symbols::append_match;

verus! {

/// One byte that could not be resolved yet.
#[derive(Debug, Clone, Copy, PartialEq, Eq, Structural)]
pub struct Marker {
    pub out_pos: usize,
    /// How far before the last byte of the unknown prefix the byte stands.
    pub prefix_offset: u16,
}

/// What a decode without its window keeps beside its output.
#[derive(Debug)]
pub struct SpeculativeContext {
    pub markers: Vec<Marker>,
}

/// One chunk of output, decoded without the bytes before it.
#[derive(Debug)]
pub struct SpeculativeChunk {
    pub bytes: Vec<u8>,
    pub markers: Vec<Marker>,
}

/// The output bytes of cells: a cell of the prefix leaves 0.
pub open spec fn bytes_of(cells: Seq<Cell>) -> Seq<u8> {
    Seq::new(
        cells.len(),
        |i: int|
            match cells[i] {
                Cell::Byte(b) => b,
                Cell::Before(_) => 0u8,
            },
    )
}

/// The markers of cells that stand at output position `base` and after.
pub open spec fn markers_of(cells: Seq<Cell>, base: int) -> Seq<Marker>
    decreases cells.len(),
{
    if cells.len() == 0 {
        Seq::empty()
    } else {
        let rest = markers_of(cells.drop_last(), base);
        match cells.last() {
            Cell::Byte(_) => rest,
            Cell::Before(k) => rest.push(Marker { out_pos: (base + cells.len() - 1) as usize, prefix_offset: k as u16 }),
        }
    }
}

/// What a wide cell stands for.
pub open spec fn cell_of(c: u16) -> Cell {
    if c & SpeculativeChunk::MARKER16 != 0 {
        Cell::Before((c & 0x7fff) as nat)
    } else {
        Cell::Byte(c as u8)
    }
}

/// What wide cells stand for.
pub open spec fn cells_of(scratch: Seq<u16>) -> Seq<Cell> {
    Seq::new(scratch.len(), |i: int| cell_of(scratch[i]))
}

/// The output after the first `n` markers have been filled in from `prefix`.
pub open spec fn patched(bytes: Seq<u8>, markers: Seq<Marker>, prefix: Seq<u8>, n: int) -> Seq<u8>
    decreases n,
{
    if n <= 0 {
        bytes
    } else {
        let m = markers[n - 1];
        patched(bytes, markers, prefix, n - 1).update(
            m.out_pos as int,
            prefix[prefix.len() - 1 - m.prefix_offset],
        )
    }
}

/// The number of markers before the first that lies outside a prefix of `len` bytes.
pub open spec fn resolvable(markers: Seq<Marker>, len: nat) -> int
    decreases markers.len(),
{
    if markers.len() == 0 {
        0
    } else {
        let n = resolvable(markers.drop_last(), len);
        if n == markers.len() - 1 && markers.last().prefix_offset < len {
            markers.len() as int
        } else {
            n
        }
    }
}

impl SpeculativeChunk {
    /// High bit of a wide cell: set if the cell stands for a byte of the prefix.
    pub const MARKER16: u16 = 0x8000;

    /// An empty chunk.
    pub fn new() -> (c: SpeculativeChunk)
        ensures
            c.bytes@ == Seq::<u8>::empty(),
            c.markers@ == Seq::<Marker>::empty(),
    {
        SpeculativeChunk { bytes: Vec::new(), markers: Vec::new() }
    }

    /// True if no byte waits for the prefix.
    pub fn is_resolved(&self) -> (b: bool)
        ensures
            b == (self.markers@.len() == 0),
    {
        self.markers.len() == 0
    }

    /// Makes room for `n` more bytes.
    pub fn reserve_bytes(&mut self, n: usize)
        ensures
            final(self).bytes@ == old(self).bytes@,
            final(self).markers@ == old(self).markers@,
    {
        self.bytes.reserve(n);
    }

    /// Appends wide cells: their bytes, and a marker for each cell of the prefix.
    pub fn extract_from_u16(&mut self, scratch: &[u16])
        ensures
            final(self).bytes@ == old(self).bytes@ + bytes_of(cells_of(scratch@)),
            final(self).markers@ == old(self).markers@ + markers_of(
                cells_of(scratch@),
                old(self).bytes@.len() as int,
            ),
    {
        let ghost base = self.bytes@.len() as int;
        let ghost cells = cells_of(scratch@);
        let mut i: usize = 0;
        proof {
            assert(cells.take(0) =~= Seq::<Cell>::empty());
            assert(self.bytes@ =~= old(self).bytes@ + bytes_of(cells.take(0)));
            assert(self.markers@ =~= old(self).markers@ + markers_of(cells.take(0), base));
        }
        while i < scratch.len()
            invariant
                i <= scratch@.len(),
                cells == cells_of(scratch@),
                base == old(self).bytes@.len(),
                self.bytes@ == old(self).bytes@ + bytes_of(cells.take(i as int)),
                self.markers@ == old(self).markers@ + markers_of(cells.take(i as int), base),
            decreases scratch@.len() - i,
        {
            let cell: u16 = scratch[i];
            proof {
                lemma_take_next(cells, i as int, base);
            }
            let ghost bytes0 = self.bytes@;
            let ghost markers0 = self.markers@;
            if cell & SpeculativeChunk::MARKER16 != 0 {
                let out_pos: usize = self.bytes.len();
                self.markers.push(Marker { out_pos, prefix_offset: cell & 0x7fff });
                self.bytes.push(0);
            } else {
                self.bytes.push(#[verifier::truncate] (cell as u8));
            }
            proof {
                assert(self.bytes@ =~= old(self).bytes@ + bytes_of(cells.take(i + 1)));
                assert(self.markers@ =~= old(self).markers@ + markers_of(cells.take(i + 1), base));
            }
            i = i + 1;
        }
        assert(cells.take(cells.len() as int) =~= cells);
    }

    /// Appends the markers of a decode whose output starts at position `base`.
    pub fn bytes_offset_markers(&mut self, src: &[Marker], base: usize)
        requires
            forall|i: int| 0 <= i < src@.len() ==> base + (#[trigger] src@[i]).out_pos <= usize::MAX,
        ensures
            final(self).bytes@ == old(self).bytes@,
            final(self).markers@ == old(self).markers@ + shifted(src@, base as int),
    {
        let mut i: usize = 0;
        assert(self.markers@ =~= old(self).markers@ + shifted(src@.take(0), base as int));
        while i < src.len()
            invariant
                i <= src@.len(),
                forall|i: int| 0 <= i < src@.len() ==> base + (#[trigger] src@[i]).out_pos <= usize::MAX,
                self.bytes@ == old(self).bytes@,
                self.markers@ == old(self).markers@ + shifted(src@.take(i as int), base as int),
            decreases src@.len() - i,
        {
            let m: Marker = src[i];
            let pos: usize = base + m.out_pos;
            self.markers.push(
                Marker { out_pos: pos, prefix_offset: m.prefix_offset },
            );
            assert(self.markers@ =~= old(self).markers@ + shifted(src@.take(i + 1), base as int));
            i = i + 1;
        }
        assert(src@.take(src@.len() as int) =~= src@);
    }
}

impl Default for SpeculativeChunk {
    fn default() -> (c: SpeculativeChunk)
        ensures
            c.bytes@ == Seq::<u8>::empty(),
            c.markers@ == Seq::<Marker>::empty(),
    {
        SpeculativeChunk::new()
    }
}

/// Markers moved `base` positions up.
pub open spec fn shifted(src: Seq<Marker>, base: int) -> Seq<Marker> {
    Seq::new(
        src.len(),
        |i: int| Marker { out_pos: (base + src[i].out_pos) as usize, prefix_offset: src[i].prefix_offset },
    )
}

proof fn lemma_take_next(cells: Seq<Cell>, i: int, base: int)
    requires
        0 <= i < cells.len(),
    ensures
        cells.take(i + 1).drop_last() == cells.take(i),
        cells.take(i + 1).last() == cells[i],
        bytes_of(cells.take(i + 1)) == bytes_of(cells.take(i)).push(
            match cells[i] {
                Cell::Byte(b) => b,
                Cell::Before(_) => 0u8,
            },
        ),
{
    assert(cells.take(i + 1).drop_last() =~= cells.take(i));
    assert(bytes_of(cells.take(i + 1)) =~= bytes_of(cells.take(i)).push(
        match cells[i] {
            Cell::Byte(b) => b,
            Cell::Before(_) => 0u8,
        },
    ));
}

/// Fills in the placeholders of a chunk from the bytes before it. At the first
/// marker that lies outside these bytes it stops, and the markers stay.
pub fn resolve_markers(chunk: &mut SpeculativeChunk, prev_tail: &[u8]) -> (r: Result<(), DeflateError>)
    requires
        forall|i: int|
            0 <= i < old(chunk).markers@.len() ==> (#[trigger] old(chunk).markers@[i]).out_pos < old(chunk).bytes@.len(),
    ensures
        final(chunk).bytes@ == patched(
            old(chunk).bytes@,
            old(chunk).markers@,
            prev_tail@,
            resolvable(old(chunk).markers@, prev_tail@.len()),
        ),
        resolvable(old(chunk).markers@, prev_tail@.len()) == old(chunk).markers@.len() ==> r is Ok
            && final(chunk).markers@ == Seq::<Marker>::empty(),
        resolvable(old(chunk).markers@, prev_tail@.len()) < old(chunk).markers@.len() ==> r == Err::<(), DeflateError>(
            DeflateError::Invalid("marker references bytes outside the available prefix window"),
        ) && final(chunk).markers@ == old(chunk).markers@,
{
    let tail_len: usize = prev_tail.len();
    let ghost markers = chunk.markers@;
    let mut i: usize = 0;
    assert(markers.take(0) =~= Seq::<Marker>::empty());
    while i < chunk.markers.len()
        invariant
            i <= markers.len(),
            markers == chunk.markers@,
            markers == old(chunk).markers@,
            tail_len == prev_tail@.len(),
            chunk.bytes@.len() == old(chunk).bytes@.len(),
            forall|j: int| 0 <= j < markers.len() ==> (#[trigger] markers[j]).out_pos < chunk.bytes@.len(),
            chunk.bytes@ == patched(old(chunk).bytes@, markers, prev_tail@, i as int),
            resolvable(markers.take(i as int), tail_len as nat) == i,
        decreases markers.len() - i,
    {
        let m: Marker = chunk.markers[i];
        let off: usize = m.prefix_offset as usize;
        proof {
            assert(markers.take(i + 1).drop_last() =~= markers.take(i as int));
            assert(markers.take(i + 1).last() == m);
        }
        if off >= tail_len {
            proof {
                lemma_resolvable_stops(markers, tail_len as nat, i + 1, markers.len() as int);
                assert(markers.take(markers.len() as int) =~= markers);
            }
            return Err(DeflateError::Invalid("marker references bytes outside the available prefix window"));
        }
        chunk.bytes.set(m.out_pos, prev_tail[tail_len - 1 - off]);
        i = i + 1;
    }
    assert(markers.take(markers.len() as int) =~= markers);
    chunk.markers.clear();
    assert(chunk.markers@ =~= Seq::<Marker>::empty());
    Ok(())
}

pub proof fn lemma_resolvable_bound(markers: Seq<Marker>, len: nat)
    ensures
        0 <= resolvable(markers, len) <= markers.len(),
    decreases markers.len(),
{
    if markers.len() > 0 {
        lemma_resolvable_bound(markers.drop_last(), len);
    }
}

proof fn lemma_resolvable_stops(markers: Seq<Marker>, len: nat, i: int, n: int)
    requires
        0 <= i <= n <= markers.len(),
        resolvable(markers.take(i), len) < i,
    ensures
        resolvable(markers.take(n), len) == resolvable(markers.take(i), len),
    decreases n - i,
{
    if i < n {
        lemma_resolvable_stops(markers, len, i, n - 1);
        assert(markers.take(n).drop_last() =~= markers.take(n - 1));
    }
}

/// Markers of cells in two parts.
pub proof fn lemma_markers_append(a: Seq<Cell>, b: Seq<Cell>, base: int)
    ensures
        markers_of(a + b, base) == markers_of(a, base) + markers_of(b, base + a.len()),
        bytes_of(a + b) == bytes_of(a) + bytes_of(b),
    decreases b.len(),
{
    assert(bytes_of(a + b) =~= bytes_of(a) + bytes_of(b));
    if b.len() == 0 {
        assert(a + b =~= a);
        assert(markers_of(a, base) =~= markers_of(a, base) + markers_of(b, base + a.len()));
    } else {
        assert((a + b).drop_last() =~= a + b.drop_last());
        lemma_markers_append(a, b.drop_last(), base);
        assert(markers_of(a + b, base) =~= markers_of(a, base) + markers_of(b, base + a.len()));
    }
}

/// Known bytes leave no markers.
pub proof fn lemma_known_markers(bytes: Seq<u8>, base: int)
    ensures
        markers_of(known(bytes), base) == Seq::<Marker>::empty(),
        bytes_of(known(bytes)) == bytes,
    decreases bytes.len(),
{
    assert(bytes_of(known(bytes)) =~= bytes);
    if bytes.len() > 0 {
        assert(known(bytes).drop_last() =~= known(bytes.drop_last()));
        lemma_known_markers(bytes.drop_last(), base);
    }
}

/// A chunk that holds `cells`.
pub open spec fn holds(chunk: &SpeculativeChunk, cells: Seq<Cell>) -> bool {
    &&& chunk.bytes@ == bytes_of(cells)
    &&& chunk.markers@ == markers_of(cells, 0)
}

/// Every marker points into the output, in ascending order of position.
pub proof fn law_markers_ascend(cells: Seq<Cell>, base: int)
    requires
        0 <= base,
        base + cells.len() <= usize::MAX,
    ensures
        forall|i: int|
            0 <= i < markers_of(cells, base).len() ==> base <= (#[trigger] markers_of(cells, base)[i]).out_pos < base
                + cells.len(),
        forall|i: int, j: int|
            0 <= i < j < markers_of(cells, base).len() ==> (#[trigger] markers_of(cells, base)[i]).out_pos < (
            #[trigger] markers_of(cells, base)[j]).out_pos,
    decreases cells.len(),
{
    if cells.len() > 0 {
        let c1 = cells.drop_last();
        law_markers_ascend(c1, base);
        let rest = markers_of(c1, base);
        let all = markers_of(cells, base);
        assert forall|i: int| 0 <= i < all.len() implies base <= (#[trigger] all[i]).out_pos < base + cells.len() by {
            if i < rest.len() {
                assert(all[i] == rest[i]);
            }
        }
        assert forall|i: int, j: int| 0 <= i < j < all.len() implies (#[trigger] all[i]).out_pos < (
        #[trigger] all[j]).out_pos by {
            assert(all[i] == rest[i]);
            if j < rest.len() {
                assert(all[j] == rest[j]);
            }
        }
    }
}

proof fn lemma_patched_prefix(bytes: Seq<u8>, markers: Seq<Marker>, m: Marker, prefix: Seq<u8>, n: int)
    requires
        0 <= n <= markers.len(),
    ensures
        patched(bytes, markers.push(m), prefix, n) == patched(bytes, markers, prefix, n),
    decreases n,
{
    if n > 0 {
        lemma_patched_prefix(bytes, markers, m, prefix, n - 1);
    }
}

/// Filling in the markers of cells gives the bytes that the cells stand for.
proof fn lemma_patched_is_filled(cells: Seq<Cell>, prefix: Seq<u8>, suffix: Seq<u8>)
    requires
        cells.len() <= usize::MAX,
        within(cells, 32768),
        within(cells, prefix.len()),
    ensures
        patched(bytes_of(cells) + suffix, markers_of(cells, 0), prefix, markers_of(cells, 0).len() as int) == filled(
            cells,
            prefix,
        ) + suffix,
    decreases cells.len(),
{
    if cells.len() == 0 {
        assert(bytes_of(cells) + suffix =~= filled(cells, prefix) + suffix);
    } else {
        let c1 = cells.drop_last();
        let x = bytes_of(cells).last();
        let rest = markers_of(c1, 0);
        assert(within(c1, 32768) && within(c1, prefix.len()));
        assert(bytes_of(cells) + suffix =~= bytes_of(c1) + (seq![x] + suffix));
        lemma_patched_is_filled(c1, prefix, seq![x] + suffix);
        match cells.last() {
            Cell::Byte(b) => {
                assert(filled(c1, prefix) + (seq![x] + suffix) =~= filled(cells, prefix) + suffix);
            },
            Cell::Before(k) => {
                assert(cells[cells.len() - 1] == cells.last());
                assert(k < 32768 && k < prefix.len());
                let m = Marker { out_pos: (0 + cells.len() - 1) as usize, prefix_offset: k as u16 };
                lemma_patched_prefix(bytes_of(cells) + suffix, rest, m, prefix, rest.len() as int);
                assert((filled(c1, prefix) + (seq![x] + suffix)).update(cells.len() - 1, prefix[prefix.len() - 1 - k])
                    =~= filled(cells, prefix) + suffix);
            },
        }
    }
}

proof fn lemma_resolvable_within(cells: Seq<Cell>, base: int, len: nat)
    requires
        within(cells, 32768),
    ensures
        0 <= resolvable(markers_of(cells, base), len) <= markers_of(cells, base).len(),
        (resolvable(markers_of(cells, base), len) == markers_of(cells, base).len()) == within(cells, len),
    decreases cells.len(),
{
    if cells.len() > 0 {
        let c1 = cells.drop_last();
        assert(within(c1, 32768));
        lemma_resolvable_within(c1, base, len);
        let rest = markers_of(c1, base);
        assert(cells[cells.len() - 1] == cells.last());
        assert(within(cells, len) == (within(c1, len) && match cells.last() {
            Cell::Byte(_) => true,
            Cell::Before(k) => k < len,
        })) by {
            if within(c1, len) {
                assert forall|i: int| 0 <= i < cells.len() - 1 implies match #[trigger] cells[i] {
                    Cell::Byte(_) => true,
                    Cell::Before(k) => k < len,
                } by {
                    assert(c1[i] == cells[i]);
                }
            }
            if within(cells, len) {
                assert forall|i: int| 0 <= i < c1.len() implies match #[trigger] c1[i] {
                    Cell::Byte(_) => true,
                    Cell::Before(k) => k < len,
                } by {
                    assert(c1[i] == cells[i]);
                }
            }
        }
        if let Cell::Before(k) = cells.last() {
            let m = Marker { out_pos: (base + cells.len() - 1) as usize, prefix_offset: k as u16 };
            assert(markers_of(cells, base) == rest.push(m));
            assert(rest.push(m).drop_last() =~= rest);
        }
    }
}

/// Resolving a chunk that holds `cells` succeeds exactly when every cell lies
/// within the given prefix, and then leaves the bytes that the cells stand for.
pub proof fn law_resolve_fills(cells: Seq<Cell>, prefix: Seq<u8>)
    requires
        cells.len() <= usize::MAX,
        within(cells, 32768),
    ensures
        (resolvable(markers_of(cells, 0), prefix.len()) == markers_of(cells, 0).len()) == within(cells, prefix.len()),
        within(cells, prefix.len()) ==> patched(
            bytes_of(cells),
            markers_of(cells, 0),
            prefix,
            resolvable(markers_of(cells, 0), prefix.len()),
        ) == filled(cells, prefix),
{
    lemma_resolvable_within(cells, 0, prefix.len());
    if within(cells, prefix.len()) {
        lemma_patched_is_filled(cells, prefix, Seq::empty());
        assert(bytes_of(cells) + Seq::<u8>::empty() =~= bytes_of(cells));
        assert(filled(cells, prefix) + Seq::<u8>::empty() =~= filled(cells, prefix));
    }
}

/// The markers of cells: in ascending order of position, one for each cell of the prefix.
pub proof fn lemma_markers(cells: Seq<Cell>)
    requires
        cells.len() <= usize::MAX,
        within(cells, 32768),
    ensures
        markers_of(cells, 0).len() <= cells.len(),
        forall|i: int|
            0 <= i < markers_of(cells, 0).len() ==> (#[trigger] markers_of(cells, 0)[i]).out_pos < cells.len()
                && cells[markers_of(cells, 0)[i].out_pos as int] == Cell::Before(
                markers_of(cells, 0)[i].prefix_offset as nat,
            ),
        forall|i: int, j: int|
            0 <= i < j < markers_of(cells, 0).len() ==> (#[trigger] markers_of(cells, 0)[i]).out_pos < (
            #[trigger] markers_of(cells, 0)[j]).out_pos,
        forall|k: int|
            0 <= k < cells.len() && #[trigger] cells[k] is Before ==> exists|i: int|
                0 <= i < markers_of(cells, 0).len() && (#[trigger] markers_of(cells, 0)[i]).out_pos == k,
    decreases cells.len(),
{
    if cells.len() > 0 {
        let c1 = cells.drop_last();
        assert(within(c1, 32768));
        lemma_markers(c1);
        let rest = markers_of(c1, 0);
        let all = markers_of(cells, 0);
        assert(cells.last() == cells[cells.len() - 1]);
        assert forall|i: int| 0 <= i < all.len() implies (#[trigger] all[i]).out_pos < cells.len()
            && cells[all[i].out_pos as int] == Cell::Before(all[i].prefix_offset as nat) by {
            if i < rest.len() {
                assert(all[i] == rest[i]);
                assert(c1[rest[i].out_pos as int] == cells[rest[i].out_pos as int]);
            }
        }
        assert forall|i: int, j: int| 0 <= i < j < all.len() implies (#[trigger] all[i]).out_pos < (
        #[trigger] all[j]).out_pos by {
            assert(all[i] == rest[i]);
            if j < rest.len() {
                assert(all[j] == rest[j]);
            }
        }
        assert forall|k: int| 0 <= k < cells.len() && #[trigger] cells[k] is Before implies exists|i: int|
            0 <= i < all.len() && (#[trigger] all[i]).out_pos == k by {
            if k < cells.len() - 1 {
                assert(c1[k] == cells[k]);
                let i = choose|i: int| 0 <= i < rest.len() && (#[trigger] rest[i]).out_pos == k;
                assert(all[i] == rest[i]);
            } else {
                assert(all[all.len() - 1].out_pos == k);
            }
        }
    }
}

/// A decode in progress: its output `out` stands after the bytes `pre`.
pub open spec fn in_progress(out: Seq<u8>, markers: Seq<Marker>, pre: Seq<u8>, cells: Seq<Cell>) -> bool {
    &&& out == pre + bytes_of(cells)
    &&& markers == markers_of(cells, 0)
    &&& within(cells, 32768)
}

proof fn lemma_push_cell(cells: Seq<Cell>, c: Cell)
    ensures
        bytes_of(cells.push(c)) == bytes_of(cells).push(
            match c {
                Cell::Byte(b) => b,
                Cell::Before(_) => 0u8,
            },
        ),
        markers_of(cells.push(c), 0) == match c {
            Cell::Byte(_) => markers_of(cells, 0),
            Cell::Before(k) => markers_of(cells, 0).push(
                Marker { out_pos: cells.len() as usize, prefix_offset: k as u16 },
            ),
        },
{
    assert(cells.push(c).drop_last() =~= cells);
    assert(bytes_of(cells.push(c)) =~= bytes_of(cells).push(
        match c {
            Cell::Byte(b) => b,
            Cell::Before(_) => 0u8,
        },
    ));
}

/// Appends a known byte.
pub(crate) fn push_literal(
    out: &mut Vec<u8>,
    ctx: &SpeculativeContext,
    b: u8,
    Ghost(pre): Ghost<Seq<u8>>,
    Ghost(cells): Ghost<Seq<Cell>>,
)
    requires
        in_progress(old(out)@, ctx.markers@, pre, cells),
    ensures
        in_progress(final(out)@, ctx.markers@, pre, cells.push(Cell::Byte(b))),
{
    proof {
        lemma_push_cell(cells, Cell::Byte(b));
    }
    out.push(b);
    assert(out@ =~= pre + bytes_of(cells.push(Cell::Byte(b))));
}

/// Records `count` bytes of the prefix, the first at position `emitted` of the
/// output and `dist` before it.
pub(crate) fn record_match_prefix(
    ctx: &mut SpeculativeContext,
    emitted: usize,
    dist: usize,
    count: usize,
    Ghost(cells): Ghost<Seq<Cell>>,
)
    requires
        old(ctx).markers@ == markers_of(cells, 0),
        within(cells, 32768),
        emitted == cells.len(),
        dist <= 32768,
        emitted + count <= dist,
    ensures
        final(ctx).markers@ == markers_of(copy_cells(cells, dist as int, count as int), 0),
{
    let mut k: usize = 0;
    let ghost mut c = cells;
    while k < count
        invariant
            k <= count,
            emitted + count <= dist <= 32768,
            c.len() == emitted + k,
            within(c, 32768),
            ctx.markers@ == markers_of(c, 0),
            copy_cells(c, dist as int, count - k) == copy_cells(cells, dist as int, count as int),
        decreases count - k,
    {
        let out_pos: usize = emitted + k;
        let prefix_offset: usize = dist - emitted - k - 1;
        ctx.markers.push(Marker { out_pos, prefix_offset: prefix_offset as u16 });
        proof {
            let b = cell_back(c, dist as int);
            lemma_push_cell(c, b);
            c = c.push(b);
        }
        k = k + 1;
    }
}

/// The first marker at or after position `pos`.
pub(crate) fn first_marker(markers: &Vec<Marker>, pos: usize) -> (r: usize)
    requires
        forall|i: int, j: int| 0 <= i < j < markers@.len() ==> (#[trigger] markers@[i]).out_pos < (
        #[trigger] markers@[j]).out_pos,
    ensures
        r <= markers@.len(),
        forall|i: int| 0 <= i < r ==> (#[trigger] markers@[i]).out_pos < pos,
        forall|i: int| r <= i < markers@.len() ==> (#[trigger] markers@[i]).out_pos >= pos,
{
    let mut lo: usize = 0;
    let mut hi: usize = markers.len();
    while lo < hi
        invariant
            lo <= hi <= markers@.len(),
            forall|i: int, j: int| 0 <= i < j < markers@.len() ==> (#[trigger] markers@[i]).out_pos < (
            #[trigger] markers@[j]).out_pos,
            forall|i: int| 0 <= i < lo ==> (#[trigger] markers@[i]).out_pos < pos,
            forall|i: int| hi <= i < markers@.len() ==> (#[trigger] markers@[i]).out_pos >= pos,
        decreases hi - lo,
    {
        let mid: usize = lo + (hi - lo) / 2;
        if markers[mid].out_pos < pos {
            lo = mid + 1;
        } else {
            hi = mid;
        }
    }
    lo
}

/// Copying known bytes makes no markers.
proof fn lemma_copy_no_markers(cells: Seq<Cell>, dist: int, n: int)
    requires
        1 <= dist <= cells.len(),
        forall|k: int| cells.len() - dist <= k < cells.len() ==> #[trigger] cells[k] is Byte,
    ensures
        markers_of(copy_cells(cells, dist, n), 0) == markers_of(cells, 0),
    decreases n,
{
    if n > 0 {
        let b = cell_back(cells, dist);
        lemma_push_cell(cells, b);
        let c1 = cells.push(b);
        assert forall|k: int| c1.len() - dist <= k < c1.len() implies #[trigger] c1[k] is Byte by {
            if k < cells.len() {
                assert(c1[k] == cells[k]);
            }
        }
        lemma_copy_no_markers(c1, dist, n - 1);
    }
}

/// Records the markers that a copy of `len` cells brings along, the first at
/// position `emitted` of the output and `dist` before it.
pub(crate) fn propagate_match_cached(
    ctx: &mut SpeculativeContext,
    emitted: usize,
    dist: usize,
    len: usize,
    Ghost(cells): Ghost<Seq<Cell>>,
)
    requires
        old(ctx).markers@ == markers_of(cells, 0),
        within(cells, 32768),
        emitted == cells.len(),
        1 <= dist <= emitted,
        emitted + len <= usize::MAX,
    ensures
        final(ctx).markers@ == markers_of(copy_cells(cells, dist as int, len as int), 0),
{
    proof {
        lemma_markers(cells);
    }
    let src_lo: usize = emitted - dist;
    let mut cursor: usize = first_marker(&ctx.markers, src_lo);
    if cursor == ctx.markers.len() {
        proof {
            lemma_copy_no_markers(cells, dist as int, len as int);
        }
        return;
    }
    let mut k: usize = 0;
    let ghost mut c = cells;
    while k < len
        invariant
            k <= len,
            1 <= dist <= emitted,
            emitted + len <= usize::MAX,
            src_lo == emitted - dist,
            c.len() == emitted + k,
            within(c, 32768),
            ctx.markers@ == markers_of(c, 0),
            copy_cells(c, dist as int, len - k) == copy_cells(cells, dist as int, len as int),
            cursor <= ctx.markers@.len(),
            forall|i: int| 0 <= i < cursor ==> (#[trigger] ctx.markers@[i]).out_pos < src_lo + k,
            forall|i: int| cursor <= i < ctx.markers@.len() ==> (#[trigger] ctx.markers@[i]).out_pos >= src_lo + k,
        decreases len - k,
    {
        let src_pos: usize = src_lo + k;
        let ghost b = cell_back(c, dist as int);
        proof {
            lemma_markers(c);
            lemma_push_cell(c, b);
            assert(within(c.push(b), 32768));
            lemma_markers(c.push(b));
        }
        if cursor < ctx.markers.len() && ctx.markers[cursor].out_pos == src_pos {
            let prefix_offset: u16 = ctx.markers[cursor].prefix_offset;
            ctx.markers.push(Marker { out_pos: emitted + k, prefix_offset });
            cursor = cursor + 1;
        } else {
            assert(c[src_pos as int] is Byte);
        }
        proof {
            c = c.push(b);
        }
        k = k + 1;
    }
}

proof fn lemma_copy_cells_steps(cells: Seq<Cell>, dist: int, a: int, n: int)
    requires
        0 <= a <= n,
    ensures
        copy_cells(copy_cells(cells, dist, a), dist, n - a) == copy_cells(cells, dist, n),
    decreases a,
{
    if a > 0 {
        lemma_copy_cells_steps(cells.push(cell_back(cells, dist)), dist, a - 1, n - 1);
    }
}

/// The output bytes of a copy inside the chunk are a copy of its output bytes.
proof fn lemma_copy_bytes(pre: Seq<u8>, cells: Seq<Cell>, dist: int, n: int)
    requires
        1 <= dist <= cells.len(),
    ensures
        pre + bytes_of(copy_cells(cells, dist, n)) == copy_back(pre + bytes_of(cells), dist, n),
    decreases n,
{
    if n > 0 {
        let b = cell_back(cells, dist);
        lemma_push_cell(cells, b);
        let h = pre + bytes_of(cells);
        assert(h.push(h[h.len() - dist]) =~= pre + bytes_of(cells.push(b)));
        lemma_copy_bytes(pre, cells.push(b), dist, n - 1);
    }
}

/// Appends a match that may reach into the unknown prefix.
pub(crate) fn append_match_speculative(
    out: &mut Vec<u8>,
    ctx: &mut SpeculativeContext,
    chunk_base: usize,
    distance: usize,
    length: usize,
    Ghost(pre): Ghost<Seq<u8>>,
    Ghost(cells): Ghost<Seq<Cell>>,
)
    requires
        in_progress(old(out)@, old(ctx).markers@, pre, cells),
        pre.len() == chunk_base,
        1 <= distance <= 32768,
        length <= 258,
    ensures
        in_progress(final(out)@, final(ctx).markers@, pre, copy_cells(cells, distance as int, length as int)),
{
    let emitted: usize = out.len() - chunk_base;
    let prefix_count: usize = if distance <= emitted {
        0
    } else if distance - emitted < length {
        distance - emitted
    } else {
        length
    };
    if prefix_count > 0 {
        record_match_prefix(ctx, emitted, distance, prefix_count, Ghost(cells));
    }
    let ghost mut c = cells;
    let mut k: usize = 0;
    while k < prefix_count
        invariant
            k <= prefix_count,
            prefix_count == 0 || emitted + prefix_count <= distance,
            c.len() == emitted + k,
            out@ == pre + bytes_of(c),
            copy_cells(c, distance as int, prefix_count - k) == copy_cells(
                cells,
                distance as int,
                prefix_count as int,
            ),
        decreases prefix_count - k,
    {
        out.push(0);
        proof {
            let b = cell_back(c, distance as int);
            lemma_push_cell(c, b);
            c = c.push(b);
            assert(out@ =~= pre + bytes_of(c));
        }
        k = k + 1;
    }
    proof {
        lemma_copy_cells_window(cells, distance as int, prefix_count as int);
        lemma_copy_cells_window(cells, distance as int, length as int);
        lemma_copy_cells_steps(cells, distance as int, prefix_count as int, length as int);
    }
    let rest: usize = length - prefix_count;
    if rest > 0 {
        proof {
            lemma_copy_bytes(pre, c, distance as int, rest as int);
            lemma_copy_cells_extends(c, distance as int, rest as int);
        }
        append_match(out, distance, rest);
        let end: usize = out.len();
        propagate_match_cached(ctx, emitted + prefix_count, distance, rest, Ghost(c));
    }
}

/// The markers of a decode, moved to where its output starts.
pub proof fn lemma_shifted_markers(cells: Seq<Cell>, base: int)
    requires
        cells.len() <= usize::MAX,
    ensures
        shifted(markers_of(cells, 0), base) == markers_of(cells, base),
    decreases cells.len(),
{
    if cells.len() == 0 {
        assert(shifted(markers_of(cells, 0), base) =~= markers_of(cells, base));
    } else {
        lemma_shifted_markers(cells.drop_last(), base);
        assert(shifted(markers_of(cells, 0), base) =~= markers_of(cells, base));
    }
}

/// Appending known bytes to a decode in progress.
pub proof fn lemma_push_known(out: Seq<u8>, markers: Seq<Marker>, pre: Seq<u8>, cells: Seq<Cell>, bytes: Seq<u8>)
    requires
        in_progress(out, markers, pre, cells),
    ensures
        in_progress(out + bytes, markers, pre, cells + known(bytes)),
    decreases bytes.len(),
{
    if bytes.len() == 0 {
        assert(cells + known(bytes) =~= cells);
        assert(out + bytes =~= out);
    } else {
        let b1 = bytes.drop_last();
        lemma_push_known(out, markers, pre, cells, b1);
        let c1 = cells + known(b1);
        lemma_push_cell(c1, Cell::Byte(bytes.last()));
        assert(c1.push(Cell::Byte(bytes.last())) =~= cells + known(bytes));
        assert(out + bytes =~= (out + b1).push(bytes.last()));
        assert((pre + bytes_of(c1)).push(bytes.last()) =~= pre + bytes_of(cells + known(bytes)));
    }
}

} // verus!
