//! A fixed-capacity circular delay line with a write cursor.
use vstd::arithmetic::div_mod::{
    lemma_fundamental_div_mod, lemma_fundamental_div_mod_converse_mod, lemma_mod_bound,
};
use vstd::prelude::*;

verus! {

/// The delay applied on a line of `len` cells when `delay` samples are
/// asked for: requests past the capacity are held at `len - 1`.
pub open spec fn clamped_delay(len: nat, delay: nat) -> nat {
    if delay < len {
        delay
    } else {
        (len - 1) as nat
    }
}

/// The cell `delay` steps behind `cursor` on a ring of `len` cells,
/// wrapping from the first cell round to the last.
pub open spec fn tap_index(len: nat, cursor: nat, delay: nat) -> int {
    if cursor >= delay {
        cursor - delay
    } else {
        len - (delay - cursor)
    }
}

/// The cell after `cursor` on a ring of `len` cells, wrapping from the last
/// cell round to the first.
pub open spec fn next_cursor(len: nat, cursor: nat) -> nat {
    if cursor + 1 < len {
        (cursor + 1) as nat
    } else {
        0
    }
}

/// On a ring, stepping back is subtraction modulo the number of cells.
proof fn lemma_tap_index_mod(len: nat, cursor: nat, delay: nat)
    requires
        cursor < len,
        delay < len,
    ensures
        tap_index(len, cursor, delay) == (cursor - delay) % (len as int),
{
    let w = cursor as int;
    let d = delay as int;
    if w >= d {
        lemma_fundamental_div_mod_converse_mod(w - d, len as int, 0, w - d);
    } else {
        lemma_fundamental_div_mod_converse_mod(w - d, len as int, -1, len - (d - w));
    }
}

/// The cells of a ring after `vals` were written into successive cells,
/// the first of them at `cursor`.
pub open spec fn written<T>(cells: Seq<T>, cursor: nat, vals: Seq<T>) -> Seq<T>
    decreases vals.len(),
{
    if vals.len() == 0 {
        cells
    } else {
        written(cells, cursor, vals.drop_last()).update(
            (cursor + vals.len() - 1) % (cells.len() as int),
            vals.last(),
        )
    }
}

/// The cursor of a ring of `len` cells after `steps` writes from `cursor`.
pub open spec fn cursor_after(len: nat, cursor: nat, steps: nat) -> nat {
    ((cursor + steps) as int % (len as int)) as nat
}

/// What cell `i` holds after `vals` were written from `cursor`: the last
/// value that landed there, or what it held before if none did.
proof fn lemma_written_cell<T>(cells: Seq<T>, cursor: nat, vals: Seq<T>, i: int)
    requires
        cursor < cells.len(),
        0 <= i < cells.len(),
    ensures
        written(cells, cursor, vals).len() == cells.len(),
        ({
            let k = vals.len() as int;
            let m = (cursor + k - 1 - i) % (cells.len() as int);
            written(cells, cursor, vals)[i] == if m < k {
                vals[k - 1 - m]
            } else {
                cells[i]
            }
        }),
    decreases vals.len(),
{
    let len = cells.len() as int;
    let k = vals.len() as int;
    let x = cursor + k - 1;
    let m = (x - i) % len;
    let q = (x - i) / len;
    lemma_fundamental_div_mod(x - i, len);
    lemma_mod_bound(x - i, len);
    assert(x - i == q * len + m) by (nonlinear_arith)
        requires
            x - i == len * q + m,
    ;
    if k > 0 {
        let prev = vals.drop_last();
        lemma_written_cell(cells, cursor, prev, i);
        let p = x % len;
        lemma_fundamental_div_mod(x, len);
        lemma_mod_bound(x, len);
        if i == p {
            assert(x - i == (x / len) * len + 0) by (nonlinear_arith)
                requires
                    x == len * (x / len) + p,
                    i == p,
            ;
            lemma_fundamental_div_mod_converse_mod(x - i, len, x / len, 0);
        } else {
            if m == 0 {
                lemma_fundamental_div_mod_converse_mod(x, len, q, i);
            }
            lemma_fundamental_div_mod_converse_mod(x - i - 1, len, q, m - 1);
        }
    }
}

/// Writing one more value continues the model where the earlier writes left
/// off: the cell under the cursor takes the value and the cursor moves on by
/// one cell, as one `DelayLine::process` call does.
pub proof fn lemma_written_step<T>(cells: Seq<T>, cursor: nat, vals: Seq<T>, v: T)
    requires
        cursor < cells.len(),
    ensures
        written(cells, cursor, seq![]) == cells,
        cursor_after(cells.len(), cursor, 0) == cursor,
        written(cells, cursor, vals.push(v)) == written(cells, cursor, vals).update(
            cursor_after(cells.len(), cursor, vals.len()) as int,
            v,
        ),
        cursor_after(cells.len(), cursor, vals.len() + 1) == next_cursor(
            cells.len(),
            cursor_after(cells.len(), cursor, vals.len()),
        ),
{
    let len = cells.len() as int;
    let x = cursor + vals.len() as int;
    lemma_fundamental_div_mod_converse_mod(cursor as int, len, 0, cursor as int);
    assert(vals.push(v).drop_last() =~= vals);
    lemma_fundamental_div_mod(x, len);
    lemma_mod_bound(x, len);
    let q = x / len;
    let r = x % len;
    assert(x + 1 == q * len + (r + 1)) by (nonlinear_arith)
        requires
            x == len * q + r,
    ;
    if r + 1 < len {
        lemma_fundamental_div_mod_converse_mod(x + 1, len, q, r + 1);
        lemma_fundamental_div_mod_converse_mod(r + 1, len, 0, r + 1);
    } else {
        assert(x + 1 == (q + 1) * len + 0) by (nonlinear_arith)
            requires
                x + 1 == q * len + (r + 1),
                r + 1 == len,
        ;
        lemma_fundamental_div_mod_converse_mod(x + 1, len, q + 1, 0);
        lemma_fundamental_div_mod_converse_mod(r + 1, len, 1, 0);
    }
}

/// A value written into a line is read back exactly `delay` writes later,
/// for every delay from one sample up to the capacity less one; until then a
/// read at that delay returns what the cells held before the writes began.
pub proof fn lemma_echo<T>(cells: Seq<T>, cursor: nat, vals: Seq<T>, delay: nat)
    requires
        cursor < cells.len(),
        1 <= delay < cells.len(),
    ensures
        ({
            let len = cells.len();
            let k = vals.len();
            let heard = written(cells, cursor, vals)[tap_index(
                len,
                cursor_after(len, cursor, k),
                clamped_delay(len, delay),
            )];
            if k >= delay {
                heard == vals[k - delay]
            } else {
                heard == cells[tap_index(len, cursor, (delay - k) as nat)]
            }
        }),
{
    let len = cells.len() as int;
    let k = vals.len() as int;
    let d = delay as int;
    let c1 = cursor_after(cells.len(), cursor, vals.len()) as int;
    let i = tap_index(cells.len(), c1 as nat, delay);
    lemma_fundamental_div_mod(cursor + k, len);
    lemma_mod_bound(cursor + k, len);
    lemma_tap_index_mod(cells.len(), c1 as nat, delay);
    lemma_fundamental_div_mod(c1 - d, len);
    lemma_mod_bound(c1 - d, len);
    let q1 = (cursor + k) / len;
    let q2 = (c1 - d) / len;
    assert(cursor + k - 1 - i == (q1 + q2) * len + (d - 1)) by (nonlinear_arith)
        requires
            cursor + k == len * q1 + c1,
            c1 - d == len * q2 + i,
    ;
    lemma_fundamental_div_mod_converse_mod(cursor + k - 1 - i, len, q1 + q2, d - 1);
    lemma_written_cell(cells, cursor, vals, i);
    if k < d {
        assert(cursor - (d - k) == (q1 + q2) * len + i) by (nonlinear_arith)
            requires
                cursor + k == len * q1 + c1,
                c1 - d == len * q2 + i,
        ;
        lemma_fundamental_div_mod_converse_mod(cursor - (d - k), len, q1 + q2, i);
        lemma_tap_index_mod(cells.len(), cursor, (d - k) as nat);
    }
}

/// Writing nothing but silence into a silent line keeps every cell silent,
/// so every later read, at any delay, returns silence.
pub proof fn lemma_silence_persists<T>(len: nat, cursor: nat, silence: T, vals: Seq<T>)
    requires
        cursor < len,
        forall|j: int| 0 <= j < vals.len() ==> vals[j] == silence,
    ensures
        written(Seq::new(len, |_i: int| silence), cursor, vals) == Seq::new(len, |_i: int| silence),
    decreases vals.len(),
{
    if vals.len() > 0 {
        lemma_silence_persists(len, cursor, silence, vals.drop_last());
        let prev = written(Seq::new(len, |_i: int| silence), cursor, vals.drop_last());
        lemma_mod_bound(cursor + vals.len() - 1, len as int);
        assert(prev.update((cursor + vals.len() - 1) % (len as int), vals.last()) =~= prev);
    }
}

/// A circular buffer of samples and the cell that the next write fills.
///
/// A line built for a maximum delay of `n` samples holds `n + 1` cells, so a
/// read at the largest delay never meets the cell being written.
pub struct DelayLine<T> {
    buffer: Vec<T>,
    write_pos: usize,
    silence: T,
}

impl<T: Copy> DelayLine<T> {
    /// The cells of the line, by their position in the ring.
    pub closed spec fn cells(&self) -> Seq<T> {
        self.buffer@
    }

    /// Index of the cell that the next `process` call writes.
    pub closed spec fn cursor(&self) -> nat {
        self.write_pos as nat
    }

    /// The value that `new` and `reset` fill the cells with.
    pub closed spec fn silence(&self) -> T {
        self.silence
    }

    /// The line has at least one cell and its cursor points into it.
    pub open spec fn inv(&self) -> bool {
        &&& self.cells().len() >= 1
        &&& self.cursor() < self.cells().len()
    }

    /// The number of cells.
    pub open spec fn capacity(&self) -> nat {
        self.cells().len()
    }

    /// What a `process` call asking for `delay` samples reads.
    pub open spec fn tap(&self, delay: nat) -> T {
        self.cells()[tap_index(self.capacity(), self.cursor(), clamped_delay(self.capacity(), delay))]
    }

    /// Every cell holds the line's silence and the cursor is at the first cell.
    pub open spec fn is_cleared(&self) -> bool {
        &&& self.cells() == Seq::new(self.capacity(), |_i: int| self.silence())
        &&& self.cursor() == 0
    }

    /// What a cleared line holds depends on its capacity and its silence
    /// alone: a line reset twice is the line reset once, and a reset line is
    /// the line that `new` builds for the same capacity and silence.
    pub proof fn lemma_reset_idempotent(a: &Self, b: &Self)
        requires
            a.is_cleared(),
            b.is_cleared(),
            a.capacity() == b.capacity(),
            a.silence() == b.silence(),
        ensures
            a.cells() == b.cells(),
            a.cursor() == b.cursor(),
    {
        assert(a.cells() =~= b.cells());
    }

    /// Builds a line able to delay by up to `max_delay_samples` samples,
    /// every cell holding `silence` and the cursor at the first cell.
    pub fn new(max_delay_samples: usize, silence: T) -> (r: Self)
        requires
            max_delay_samples < usize::MAX,
        ensures
            r.inv(),
            r.is_cleared(),
            r.capacity() == max_delay_samples + 1,
            r.cells() == Seq::new(max_delay_samples as nat + 1, |_i: int| silence),
            r.cursor() == 0,
            r.silence() == silence,
    {
        let len: usize = max_delay_samples + 1;
        let mut buffer: Vec<T> = Vec::with_capacity(len);
        while buffer.len() < len
            invariant
                buffer.len() <= len,
                forall|i: int| 0 <= i < buffer.len() ==> buffer@[i] == silence,
            decreases len - buffer.len(),
        {
            buffer.push(silence);
        }
        let r = DelayLine { buffer, write_pos: 0, silence };
        assert(r.cells() =~= Seq::new(len as nat, |_i: int| silence));
        r
    }

    /// The number of cells: the largest delay the line can give, plus one.
    pub fn len(&self) -> (r: usize)
        ensures
            r == self.capacity(),
    {
        self.buffer.len()
    }

    /// Fills every cell with silence and moves the cursor to the first cell.
    pub fn reset(&mut self)
        requires
            old(self).inv(),
        ensures
            final(self).inv(),
            final(self).is_cleared(),
            final(self).capacity() == old(self).capacity(),
            final(self).silence() == old(self).silence(),
    {
        let len = self.buffer.len();
        let mut i: usize = 0;
        while i < len
            invariant
                self.buffer.len() == len,
                i <= len,
                forall|j: int| 0 <= j < i ==> self.buffer@[j] == self.silence,
                self.silence == old(self).silence,
            decreases len - i,
        {
            let s = self.silence;
            self.buffer[i] = s;
            i = i + 1;
        }
        self.write_pos = 0;
        assert(self.cells() =~= Seq::new(self.capacity(), |_i: int| self.silence()));
    }

    /// Gives the line room for delays of up to `max_delay_samples` samples,
    /// discarding what it held: afterwards it is as `new` would build it.
    pub fn set_max_delay(&mut self, max_delay_samples: usize)
        requires
            old(self).inv(),
            max_delay_samples < usize::MAX,
        ensures
            final(self).inv(),
            final(self).is_cleared(),
            final(self).capacity() == max_delay_samples + 1,
            final(self).silence() == old(self).silence(),
    {
        let len: usize = max_delay_samples + 1;
        self.buffer.truncate(len);
        while self.buffer.len() < len
            invariant
                self.buffer.len() <= len,
                self.silence == old(self).silence,
            decreases len - self.buffer.len(),
        {
            let s = self.silence;
            self.buffer.push(s);
        }
        self.write_pos = 0;
        self.reset();
    }

    /// Reads the sample `delay_samples` steps back (at most `capacity - 1`),
    /// writes `feed(input, delayed)` into the cell under the cursor, moves the
    /// cursor on by one cell, and returns the value read.
    ///
    /// The value returned is the one read before the write: the freshly
    /// written sample is heard only a full delay later.
    pub fn process<F: Fn(T, T) -> T>(&mut self, input: T, delay_samples: usize, feed: F) -> (delayed: T)
        requires
            old(self).inv(),
            forall|x: T, d: T| feed.requires((x, d)),
        ensures
            final(self).inv(),
            delayed == old(self).tap(delay_samples as nat),
            feed.ensures((input, delayed), final(self).cells()[old(self).cursor() as int]),
            final(self).cells() == old(self).cells().update(
                old(self).cursor() as int,
                final(self).cells()[old(self).cursor() as int],
            ),
            final(self).cursor() == next_cursor(old(self).capacity(), old(self).cursor()),
            final(self).silence() == old(self).silence(),
    {
        let len = self.buffer.len();
        let delay = if delay_samples < len {
            delay_samples
        } else {
            len - 1
        };
        let read_pos = if self.write_pos >= delay {
            self.write_pos - delay
        } else {
            len - (delay - self.write_pos)
        };
        let delayed = self.buffer[read_pos];
        let written = feed(input, delayed);
        let w = self.write_pos;
        self.buffer[w] = written;
        self.write_pos = if w + 1 < len {
            w + 1
        } else {
            0
        };
        delayed
    }
}

} // verus!
