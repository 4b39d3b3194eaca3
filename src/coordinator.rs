//! The render coordinator: which worker gets which row, and how finished rows
//! are folded into the frame buffer.
//!
//! The coordinator is a state machine driven from outside. Each step the
//! driver either hands the order returned by [`Coordinator::dispatch`] to the
//! named worker, or polls for a finished row and passes it to
//! [`Coordinator::accept`]. The frame is done when
//! [`Coordinator::is_complete`] says so; [`Coordinator::begin_frame`] then
//! starts the next one.
use vstd::prelude::*;
use crate::frame::{assemble, distinct_rows, lemma_row_order_independent, place_row, rows_fit};

verus! {

/// One row to compute, for one worker.
#[derive(Debug, Clone, Copy, PartialEq, Eq, Structural)]
pub struct WorkOrder {
    pub worker_id: usize,
    pub y: usize,
}

/// One finished row, reported by the worker that computed it.
#[derive(Debug, Clone, PartialEq, Eq)]
pub struct WorkResult {
    pub worker_id: usize,
    pub y: usize,
    pub pixels: Vec<u8>,
}

/// Why a coordinator cannot be set up.
#[derive(Debug, Clone, Copy, PartialEq, Eq, Structural)]
pub enum ConfigError {
    ZeroWidth,
    ZeroHeight,
    NoWorkers,
}

/// Why a reported row is refused.
#[derive(Debug, Clone, Copy, PartialEq, Eq, Structural)]
pub enum ResultError {
    /// The worker id names no worker of the pool.
    UnknownWorker,
    /// The worker has no outstanding order for that row.
    NotAssigned,
    /// The row does not hold one pixel per column.
    WrongLength,
}

/// The number of workers with an outstanding order.
pub open spec fn busy_count(slots: Seq<Option<usize>>) -> nat
    decreases slots.len(),
{
    if slots.len() == 0 {
        0
    } else {
        busy_count(slots.drop_last()) + if slots.last() is Some {
            1nat
        } else {
            0nat
        }
    }
}

/// A frame buffer of `n` zero bytes.
pub open spec fn blank(n: nat) -> Seq<u8> {
    Seq::new(n, |_i: int| 0u8)
}

/// The state of a coordinator.
pub struct CoordinatorView {
    /// Frame width in pixels.
    pub width: nat,
    /// Frame height in pixels.
    pub height: nat,
    /// For each worker, the row it is computing, if any.
    pub slots: Seq<Option<usize>>,
    /// The next row to hand out.
    pub next_y: nat,
    /// The number of orders handed out and not yet answered.
    pub in_flight: nat,
    /// The frame buffer, row-major, four bytes per pixel.
    pub frame: Seq<u8>,
    /// The rows folded into the frame so far, in the order they came.
    pub folded: Seq<(nat, Seq<u8>)>,
}

impl CoordinatorView {
    /// Bytes in one row of the frame.
    pub open spec fn row_len(self) -> nat {
        self.width * 4
    }

    /// The state at the start of a frame: every worker idle, no row handed
    /// out, an all-zero buffer.
    pub open spec fn initial(width: nat, height: nat, workers: nat) -> CoordinatorView {
        CoordinatorView {
            width,
            height,
            slots: Seq::new(workers, |_i: int| None),
            next_y: 0,
            in_flight: 0,
            frame: blank(width * 4 * height),
            folded: Seq::empty(),
        }
    }

    /// Worker `w` exists and has an outstanding order.
    pub open spec fn busy(self, w: int) -> bool {
        0 <= w < self.slots.len() && self.slots[w] is Some
    }

    /// Row `y` is outstanding at some worker.
    pub open spec fn outstanding(self, y: nat) -> bool {
        exists|w: int| self.busy(w) && self.slots[w] == Some(y as usize)
    }

    /// Row `y` has been folded into the frame.
    pub open spec fn is_folded(self, y: nat) -> bool {
        exists|k: int| 0 <= k < self.folded.len() && (#[trigger] self.folded[k]).0 == y
    }

    /// The invariant of every reachable state.
    pub open spec fn valid(self) -> bool {
        &&& self.width > 0
        &&& self.height > 0
        &&& self.slots.len() > 0
        &&& self.width * 4 * self.height <= usize::MAX
        &&& self.next_y <= self.height
        &&& self.in_flight == busy_count(self.slots)
        &&& forall|w: int| #[trigger] self.busy(w) ==> (self.slots[w]->0 as nat) < self.next_y
        &&& forall|v: int, w: int|
            #[trigger] self.busy(v) && #[trigger] self.busy(w) && v != w ==> self.slots[v]
                != self.slots[w]
        &&& rows_fit(self.folded, self.row_len(), self.height)
        &&& distinct_rows(self.folded)
        &&& forall|k: int|
            0 <= k < self.folded.len() ==> (#[trigger] self.folded[k]).0 < self.next_y
                && !self.outstanding(self.folded[k].0)
        &&& forall|y: nat| y < self.next_y ==> #[trigger] self.is_folded(y) || self.outstanding(y)
        &&& self.frame == assemble(blank(self.row_len() * self.height), self.row_len(), self.folded)
    }

    /// Some row is left to hand out, and some worker is idle.
    pub open spec fn can_dispatch(self) -> bool {
        self.next_y < self.height && exists|w: int| 0 <= w < self.slots.len() && self.slots[w] is None
    }

    /// The state after row `next_y` is handed to worker `w`.
    pub open spec fn after_dispatch(self, w: int) -> CoordinatorView {
        CoordinatorView {
            slots: self.slots.update(w, Some(self.next_y as usize)),
            next_y: self.next_y + 1,
            in_flight: self.in_flight + 1,
            ..self
        }
    }

    /// What becomes of a row `y` of `len` bytes reported by worker `w`.
    pub open spec fn check_result(self, w: nat, y: nat, len: nat) -> Result<(), ResultError> {
        if w >= self.slots.len() {
            Err(ResultError::UnknownWorker)
        } else if self.slots[w as int] != Some(y as usize) {
            Err(ResultError::NotAssigned)
        } else if len != self.row_len() {
            Err(ResultError::WrongLength)
        } else {
            Ok(())
        }
    }

    /// The state after worker `w`'s row `y` is folded into the frame.
    pub open spec fn after_accept(self, w: nat, y: nat, pixels: Seq<u8>) -> CoordinatorView {
        CoordinatorView {
            slots: self.slots.update(w as int, None),
            in_flight: (self.in_flight - 1) as nat,
            frame: place_row(self.frame, (y * self.row_len()) as int, pixels),
            folded: self.folded.push((y, pixels)),
            ..self
        }
    }

    /// Every row has been handed out and every worker is idle again.
    pub open spec fn complete(self) -> bool {
        self.next_y >= self.height && self.in_flight == 0
    }
}

/// Dispatches rows to a fixed pool of workers and assembles their results.
pub struct Coordinator {
    width: usize,
    height: usize,
    slots: Vec<Option<usize>>,
    next_y: usize,
    in_flight: usize,
    frame: Vec<u8>,
    folded: Ghost<Seq<(nat, Seq<u8>)>>,
}

impl View for Coordinator {
    type V = CoordinatorView;

    closed spec fn view(&self) -> CoordinatorView {
        CoordinatorView {
            width: self.width as nat,
            height: self.height as nat,
            slots: self.slots@,
            next_y: self.next_y as nat,
            in_flight: self.in_flight as nat,
            frame: self.frame@,
            folded: self.folded@,
        }
    }
}


proof fn lemma_busy_count_le(slots: Seq<Option<usize>>)
    ensures
        busy_count(slots) <= slots.len(),
    decreases slots.len(),
{
    if slots.len() > 0 {
        lemma_busy_count_le(slots.drop_last());
    }
}

proof fn lemma_busy_count_update(slots: Seq<Option<usize>>, i: int, v: Option<usize>)
    requires
        0 <= i < slots.len(),
    ensures
        busy_count(slots.update(i, v)) + (if slots[i] is Some { 1int } else { 0int })
            == busy_count(slots) + (if v is Some { 1int } else { 0int }),
    decreases slots.len(),
{
    let u = slots.update(i, v);
    if i == slots.len() - 1 {
        assert(u.drop_last() =~= slots.drop_last());
    } else {
        assert(u.drop_last() =~= slots.drop_last().update(i, v));
        lemma_busy_count_update(slots.drop_last(), i, v);
    }
}

proof fn lemma_busy_count_zero(slots: Seq<Option<usize>>, i: int)
    requires
        busy_count(slots) == 0,
        0 <= i < slots.len(),
    ensures
        slots[i] is None,
    decreases slots.len(),
{
    if i < slots.len() - 1 {
        assert(slots.drop_last()[i] == slots[i]);
        lemma_busy_count_zero(slots.drop_last(), i);
    }
}

proof fn lemma_busy_count_idle(slots: Seq<Option<usize>>)
    requires
        forall|i: int| 0 <= i < slots.len() ==> slots[i] is None,
    ensures
        busy_count(slots) == 0,
    decreases slots.len(),
{
    if slots.len() > 0 {
        lemma_busy_count_idle(slots.drop_last());
    }
}

proof fn lemma_row_len_fits(width: nat, height: nat)
    requires
        height > 0,
    ensures
        width * 4 <= width * 4 * height,
{
    assert(width * 4 <= width * 4 * height) by (nonlinear_arith)
        requires
            height > 0,
    ;
}

/// The first idle worker, if any.
fn first_idle(slots: &Vec<Option<usize>>) -> (r: Option<usize>)
    ensures
        match r {
            Some(w) => w < slots@.len() && slots@[w as int] is None && forall|j: int|
                0 <= j < w ==> slots@[j] is Some,
            None => forall|j: int| 0 <= j < slots@.len() ==> slots@[j] is Some,
        },
{
    let mut w: usize = 0;
    while w < slots.len()
        invariant
            w <= slots@.len(),
            forall|j: int| 0 <= j < w ==> slots@[j] is Some,
        decreases slots@.len() - w,
    {
        if slots[w].is_none() {
            return Some(w);
        }
        w += 1;
    }
    None
}

/// Writes `row` over `frame` from byte `start` on.
fn write_row(frame: &mut Vec<u8>, start: usize, row: &Vec<u8>)
    requires
        start + row@.len() <= old(frame)@.len(),
    ensures
        final(frame)@ == place_row(old(frame)@, start as int, row@),
{
    let n = row.len();
    let len = frame.len();
    let mut j: usize = 0;
    while j < n
        invariant
            n == row@.len(),
            j <= n,
            start + n <= len,
            len == old(frame)@.len(),
            frame@ == Seq::new(
                old(frame)@.len(),
                |i: int|
                    if start <= i < start + j {
                        row@[i - start]
                    } else {
                        old(frame)@[i]
                    },
            ),
        decreases n - j,
    {
        frame.set(start + j, row[j]);
        j += 1;
        assert(frame@ =~= Seq::new(
            old(frame)@.len(),
            |i: int|
                if start <= i < start + j {
                    row@[i - start]
                } else {
                    old(frame)@[i]
                },
        ));
    }
    assert(frame@ =~= place_row(old(frame)@, start as int, row@));
}

impl Coordinator {
    /// Whether the coordinator is in a reachable state.
    pub open spec fn wf(&self) -> bool {
        self@.valid()
    }

    /// A coordinator for frames of `width` by `height` pixels and a pool of
    /// `workers` workers, at the start of its first frame.
    pub fn new(width: usize, height: usize, workers: usize) -> (r: Result<Coordinator, ConfigError>)
        requires
            width * 4 * height <= usize::MAX,
        ensures
            width == 0 ==> r == Err::<Coordinator, ConfigError>(ConfigError::ZeroWidth),
            width > 0 && height == 0 ==> r == Err::<Coordinator, ConfigError>(
                ConfigError::ZeroHeight,
            ),
            width > 0 && height > 0 && workers == 0 ==> r == Err::<Coordinator, ConfigError>(
                ConfigError::NoWorkers,
            ),
            width > 0 && height > 0 && workers > 0 ==> (r matches Ok(c) && c.wf() && c@
                == CoordinatorView::initial(width as nat, height as nat, workers as nat)),
    {
        if width == 0 {
            return Err(ConfigError::ZeroWidth);
        }
        if height == 0 {
            return Err(ConfigError::ZeroHeight);
        }
        if workers == 0 {
            return Err(ConfigError::NoWorkers);
        }
        let mut slots: Vec<Option<usize>> = Vec::with_capacity(workers);
        let mut i: usize = 0;
        while i < workers
            invariant
                i <= workers,
                slots@ == Seq::new(i as nat, |_j: int| None::<usize>),
            decreases workers - i,
        {
            slots.push(None);
            i += 1;
            assert(slots@ =~= Seq::new(i as nat, |_j: int| None::<usize>));
        }
        assert(width * 4 <= width * 4 * height) by (nonlinear_arith)
            requires
                height > 0,
        ;
        let frame: Vec<u8> = vec![0u8; width * 4 * height];
        let c = Coordinator {
            width,
            height,
            slots,
            next_y: 0,
            in_flight: 0,
            frame,
            folded: Ghost(Seq::empty()),
        };
        proof {
            assert(c@.frame =~= blank(width as nat * 4 * height as nat));
            lemma_busy_count_idle(c@.slots);
            assert(c@ == CoordinatorView::initial(width as nat, height as nat, workers as nat));
        }
        Ok(c)
    }

    /// Hands the next row to the first idle worker, in ascending worker id,
    /// if a row is left and a worker is idle; otherwise changes nothing.
    pub fn dispatch(&mut self) -> (r: Option<WorkOrder>)
        requires
            old(self).wf(),
        ensures
            final(self).wf(),
            r is Some <==> old(self)@.can_dispatch(),
            r is None ==> final(self)@ == old(self)@,
            r matches Some(o) ==> {
                &&& o.y == old(self)@.next_y
                &&& o.worker_id < old(self)@.slots.len()
                &&& old(self)@.slots[o.worker_id as int] is None
                &&& forall|j: int| 0 <= j < o.worker_id ==> old(self)@.busy(j)
                &&& final(self)@ == old(self)@.after_dispatch(o.worker_id as int)
            },
    {
        if self.next_y >= self.height {
            return None;
        }
        match first_idle(&self.slots) {
            None => None,
            Some(w) => {
                let ghost prev = self@;
                let y = self.next_y;
                let n = self.slots.len();
                proof {
                    lemma_busy_count_update(self.slots@, w as int, Some(y));
                    lemma_busy_count_le(self.slots@.update(w as int, Some(y)));
                }
                self.slots.set(w, Some(y));
                self.next_y = y + 1;
                self.in_flight = self.in_flight + 1;
                proof {
                    let cur = self@;
                    assert(cur == prev.after_dispatch(w as int));
                    assert forall|v: int| #[trigger] cur.busy(v) implies (cur.slots[v]->0 as nat)
                        < cur.next_y by {
                        if v != w {
                            assert(prev.busy(v));
                        }
                    }
                    assert forall|u: int, v: int|
                        #[trigger] cur.busy(u) && #[trigger] cur.busy(v) && u != v implies cur.slots[u]
                        != cur.slots[v] by {
                        if u != w {
                            assert(prev.busy(u));
                        }
                        if v != w {
                            assert(prev.busy(v));
                        }
                    }
                    assert forall|k: int| 0 <= k < cur.folded.len() implies (
                    #[trigger] cur.folded[k]).0 < cur.next_y && !cur.outstanding(
                        cur.folded[k].0,
                    ) by {
                        let fy = cur.folded[k].0;
                        assert(fy < prev.next_y);
                        if cur.outstanding(fy) {
                            let v = choose|v: int|
                                cur.busy(v) && cur.slots[v] == Some(fy as usize);
                            assert(v != w);
                            assert(prev.busy(v));
                        }
                    }
                    assert forall|yy: nat| yy < cur.next_y implies #[trigger] cur.is_folded(yy)
                        || cur.outstanding(yy) by {
                        if yy == y {
                            assert(cur.busy(w as int));
                        } else {
                            assert(prev.is_folded(yy) || prev.outstanding(yy));
                            if prev.outstanding(yy) {
                                let v = choose|v: int|
                                    prev.busy(v) && prev.slots[v] == Some(yy as usize);
                                assert(cur.busy(v));
                            }
                        }
                    }
                }
                Some(WorkOrder { worker_id: w, y })
            },
        }
    }

    /// Folds a finished row into the frame and marks its worker idle. The
    /// row is refused, and nothing changes, when its worker does not exist,
    /// has no outstanding order for that row, or the row is not one frame
    /// row long.
    pub fn accept(&mut self, result: WorkResult) -> (r: Result<(), ResultError>)
        requires
            old(self).wf(),
        ensures
            final(self).wf(),
            r == old(self)@.check_result(
                result.worker_id as nat,
                result.y as nat,
                result.pixels@.len(),
            ),
            r is Err ==> final(self)@ == old(self)@,
            r is Ok ==> final(self)@ == old(self)@.after_accept(
                result.worker_id as nat,
                result.y as nat,
                result.pixels@,
            ),
    {
        let w = result.worker_id;
        let y = result.y;
        if w >= self.slots.len() {
            return Err(ResultError::UnknownWorker);
        }
        match self.slots[w] {
            Some(row) => {
                if row != y {
                    return Err(ResultError::NotAssigned);
                }
            },
            None => {
                return Err(ResultError::NotAssigned);
            },
        }
        proof {
            lemma_row_len_fits(self.width as nat, self.height as nat);
        }
        let row_len = self.width * 4;
        if result.pixels.len() != row_len {
            return Err(ResultError::WrongLength);
        }
        let ghost prev = self@;
        proof {
            assert(prev.busy(w as int));
            assert((y as nat) < prev.height);
            assert(y * row_len + row_len <= row_len * self.height) by (nonlinear_arith)
                requires
                    y < self.height,
            ;
            lemma_busy_count_update(self.slots@, w as int, None);
            crate::frame::lemma_assemble_len(
                blank(prev.row_len() * prev.height),
                prev.row_len(),
                prev.folded,
            );
        }
        let start = y * row_len;
        write_row(&mut self.frame, start, &result.pixels);
        self.slots.set(w, None);
        self.in_flight = self.in_flight - 1;
        self.folded = Ghost(self.folded@.push((y as nat, result.pixels@)));
        proof {
            let cur = self@;
            let entry = (y as nat, result.pixels@);
            assert(cur == prev.after_accept(w as nat, y as nat, result.pixels@));
            assert(cur.folded.drop_last() =~= prev.folded);
            assert(cur.folded.last() == entry);
            assert forall|v: int| #[trigger] cur.busy(v) implies prev.busy(v) && cur.slots[v]
                == prev.slots[v] by {}
            assert(!prev.is_folded(y as nat));
            assert(rows_fit(cur.folded, cur.row_len(), cur.height)) by {
                assert forall|k: int| 0 <= k < cur.folded.len() implies (
                #[trigger] cur.folded[k]).0 < cur.height && cur.folded[k].1.len()
                    == cur.row_len() by {
                    if k < prev.folded.len() {
                        assert(cur.folded[k] == prev.folded[k]);
                    }
                }
            }
            assert(distinct_rows(cur.folded)) by {
                assert forall|a: int, b: int|
                    0 <= a < cur.folded.len() && 0 <= b < cur.folded.len() && a != b implies (
                #[trigger] cur.folded[a]).0 != (#[trigger] cur.folded[b]).0 by {
                    if a < prev.folded.len() {
                        assert(cur.folded[a] == prev.folded[a]);
                    }
                    if b < prev.folded.len() {
                        assert(cur.folded[b] == prev.folded[b]);
                    }
                }
            }
            assert forall|k: int| 0 <= k < cur.folded.len() implies (
            #[trigger] cur.folded[k]).0 < cur.next_y && !cur.outstanding(cur.folded[k].0) by {
                if k < prev.folded.len() {
                    assert(cur.folded[k] == prev.folded[k]);
                    assert(!prev.outstanding(prev.folded[k].0));
                } else {
                    if cur.outstanding(y as nat) {
                        let v = choose|v: int| cur.busy(v) && cur.slots[v] == Some(y);
                        assert(prev.busy(v) && prev.busy(w as int));
                    }
                }
            }
            assert forall|yy: nat| yy < cur.next_y implies #[trigger] cur.is_folded(yy)
                || cur.outstanding(yy) by {
                if yy == y {
                    assert(cur.folded[prev.folded.len() as int] == entry);
                } else {
                    assert(prev.is_folded(yy) || prev.outstanding(yy));
                    if prev.is_folded(yy) {
                        let k = choose|k: int|
                            0 <= k < prev.folded.len() && (#[trigger] prev.folded[k]).0 == yy;
                        assert(cur.folded[k] == prev.folded[k]);
                    } else {
                        let v = choose|v: int| prev.busy(v) && prev.slots[v] == Some(yy as usize);
                        assert(v != w);
                        assert(cur.busy(v));
                    }
                }
            }
        }
        Ok(())
    }

    /// Whether every row has been handed out and every worker is idle again.
    pub fn is_complete(&self) -> (r: bool)
        ensures
            r == self@.complete(),
    {
        self.next_y >= self.height && self.in_flight == 0
    }

    /// Starts a new frame once the current one is complete: rows are handed
    /// out from the top again, over an all-zero buffer.
    pub fn begin_frame(&mut self)
        requires
            old(self).wf(),
            old(self)@.complete(),
        ensures
            final(self).wf(),
            final(self)@ == CoordinatorView::initial(
                old(self)@.width,
                old(self)@.height,
                old(self)@.slots.len(),
            ),
    {
        proof {
            assert forall|i: int| 0 <= i < self.slots@.len() implies self.slots@[i] is None by {
                lemma_busy_count_zero(self.slots@, i);
            }
            assert(self.slots@ =~= Seq::new(self.slots@.len(), |_i: int| None::<usize>));
        }
        proof {
            lemma_row_len_fits(self.width as nat, self.height as nat);
        }
        self.frame = vec![0u8; self.width * 4 * self.height];
        self.next_y = 0;
        self.folded = Ghost(Seq::empty());
        proof {
            assert(self@.frame =~= blank(self@.row_len() * self@.height));
        }
    }

    /// The frame buffer: row-major, four bytes per pixel.
    pub fn frame(&self) -> (r: &Vec<u8>)
        ensures
            r@ == self@.frame,
    {
        &self.frame
    }

    /// Frame width in pixels.
    pub fn width(&self) -> (r: usize)
        ensures
            r == self@.width,
    {
        self.width
    }

    /// Frame height in pixels.
    pub fn height(&self) -> (r: usize)
        ensures
            r == self@.height,
    {
        self.height
    }

    /// The number of workers in the pool.
    pub fn worker_count(&self) -> (r: usize)
        ensures
            r == self@.slots.len(),
    {
        self.slots.len()
    }
}

/// A frame is complete only when every row index below the height has been
/// folded into the buffer exactly once, and the buffer is those rows written
/// over a blank one.
pub proof fn lemma_complete_frame(v: CoordinatorView)
    requires
        v.valid(),
        v.complete(),
    ensures
        forall|y: nat| y < v.height ==> #[trigger] v.is_folded(y),
        forall|k: int| 0 <= k < v.folded.len() ==> (#[trigger] v.folded[k]).0 < v.height,
        distinct_rows(v.folded),
        v.frame == assemble(blank(v.row_len() * v.height), v.row_len(), v.folded),
{
    assert forall|y: nat| y < v.height implies #[trigger] v.is_folded(y) by {
        if v.outstanding(y) {
            let w = choose|w: int| v.busy(w) && v.slots[w] == Some(y as usize);
            lemma_busy_count_zero(v.slots, w);
        }
    }
    assert forall|k: int| 0 <= k < v.folded.len() implies (#[trigger] v.folded[k]).0
        < v.height by {}
}

/// The frame does not depend on the order in which rows came back: two
/// reachable states of the same frame size that have folded the same rows,
/// in any order, hold the same buffer.
pub proof fn lemma_frame_independent_of_order(a: CoordinatorView, b: CoordinatorView)
    requires
        a.valid(),
        b.valid(),
        a.width == b.width,
        a.height == b.height,
        a.folded.to_multiset() == b.folded.to_multiset(),
    ensures
        a.frame == b.frame,
{
    lemma_row_order_independent(
        blank(a.row_len() * a.height),
        a.row_len(),
        a.height,
        a.folded,
        b.folded,
    );
}

} // verus!
