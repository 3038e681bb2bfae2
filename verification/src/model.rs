//! The mathematical model of a window cursor.
//!
//! A cursor is the text that still lies ahead and the window size. Everything
//! the iterator does is stated as a step of this model, and the laws of the
//! window sequence are proved here, over the model alone.

use vstd::prelude::*;
use vstd::utf8::*;
use crate::boundary::{byte_offset, lemma_byte_offset_increasing};

verus! {

/// Abstract state of a window iterator.
pub struct Cursor {
    /// The scalar values from the start of the current window to the end of
    /// the text.
    pub text: Seq<char>,
    /// Number of scalar values in each window.
    pub size: nat,
}

/// All windows of `size` scalar values over `text`, from left to right.
pub open spec fn windows(text: Seq<char>, size: nat) -> Seq<Seq<char>>
    recommends
        size > 0,
{
    Seq::new(window_count(text, size), |i: int| text.subrange(i, i + size))
}

/// How many windows of `size` scalar values fit into `text`.
pub open spec fn window_count(text: Seq<char>, size: nat) -> nat
    recommends
        size > 0,
{
    if text.len() >= size {
        (text.len() - size + 1) as nat
    } else {
        0
    }
}

/// Fewest scalar values that `text` can hold, judged by the length of its
/// encoding alone: a scalar value takes at most four bytes.
pub open spec fn min_chars(text: Seq<char>) -> nat {
    (encode_utf8(text).len() + 3) / 4
}

/// Most scalar values that `text` can hold, judged by the length of its
/// encoding alone: a scalar value takes at least one byte.
pub open spec fn max_chars(text: Seq<char>) -> nat {
    encode_utf8(text).len()
}

/// `n` scalar values give `n - (size - 1)` windows, and none where that is
/// negative.
pub open spec fn windows_among(n: nat, size: nat) -> nat
    recommends
        size > 0,
{
    if n >= size - 1 {
        (n - (size - 1)) as nat
    } else {
        0
    }
}

impl Cursor {
    /// What the next step hands out: a window, or nothing once the text is
    /// too short. With size 0 every step hands out the empty window.
    pub open spec fn window(self) -> Option<Seq<char>> {
        if self.text.len() >= self.size {
            Some(self.text.take(self.size as int))
        } else {
            None
        }
    }

    /// The state after one step: the window has moved one scalar value to the
    /// right. A cursor of size 0 and one that has run out stay as they are.
    pub open spec fn advance(self) -> Cursor {
        if self.size > 0 && self.text.len() >= self.size {
            Cursor { text: self.text.drop_first(), size: self.size }
        } else {
            self
        }
    }

    /// The state after `k` steps.
    pub open spec fn after(self, k: nat) -> Cursor
        decreases k,
    {
        if k == 0 {
            self
        } else {
            self.advance().after((k - 1) as nat)
        }
    }

    /// Lower bound of the size hint.
    pub open spec fn hint_lower(self) -> nat {
        if self.size == 0 {
            usize::MAX as nat
        } else {
            windows_among(min_chars(self.text), self.size)
        }
    }

    /// Upper bound of the size hint; a cursor of size 0 never ends and has
    /// none.
    pub open spec fn hint_upper(self) -> Option<nat> {
        if self.size == 0 {
            None
        } else {
            Some(windows_among(max_chars(self.text), self.size))
        }
    }
}

/// After `k` steps a cursor with a window size above 0 has dropped `k`
/// scalar values from the front, or as many as there were windows.
pub proof fn lemma_after(text: Seq<char>, size: nat, k: nat)
    requires
        size > 0,
    ensures
        (Cursor { text, size }).after(k) == (Cursor {
            text: text.skip(
                if k < window_count(text, size) {
                    k as int
                } else {
                    window_count(text, size) as int
                },
            ),
            size,
        }),
    decreases k,
{
    let c = Cursor { text, size };
    if k == 0 {
        assert(text.skip(0) =~= text);
    } else if text.len() >= size {
        let rest = text.drop_first();
        lemma_after(rest, size, (k - 1) as nat);
        let n = window_count(text, size);
        assert(window_count(rest, size) == n - 1);
        if k < n {
            assert(rest.skip(k - 1) =~= text.skip(k as int));
        } else {
            assert(rest.skip(n - 1) =~= text.skip(n as int));
        }
    } else {
        lemma_after(text, size, (k - 1) as nat);
    }
}

/// The steps of a cursor hand out the windows of its text in order and then
/// nothing: step `k` gives window `k` while `k` is below the window count,
/// which is `len - size + 1` where the text holds at least `size` scalar
/// values and 0 where it does not.
pub proof fn lemma_steps_give_windows(text: Seq<char>, size: nat, k: nat)
    requires
        size > 0,
    ensures
        window_count(text, size) == (if text.len() - size + 1 > 0 {
            text.len() - size + 1
        } else {
            0
        }),
        windows(text, size).len() == window_count(text, size),
        k < window_count(text, size) ==> (Cursor { text, size }).after(k).window() == Some(
            windows(text, size)[k as int],
        ),
        k >= window_count(text, size) ==> (Cursor { text, size }).after(k).window() is None,
{
    lemma_after(text, size, k);
    if k < window_count(text, size) {
        assert(text.skip(k as int).take(size as int) =~= text.subrange(
            k as int,
            (k + size) as int,
        ));
    }
}

/// Every window that a step hands out holds exactly `size` scalar values.
pub proof fn lemma_window_len(text: Seq<char>, size: nat, k: nat)
    requires
        size > 0,
    ensures
        (Cursor { text, size }).after(k).window() matches Some(w) ==> w.len() == size,
        k < windows(text, size).len() ==> windows(text, size)[k as int].len() == size,
{
    lemma_after(text, size, k);
}

/// Each window that a step hands out is the one before it without its first
/// scalar value and with the next scalar value of the text appended.
pub proof fn lemma_windows_slide(text: Seq<char>, size: nat, k: nat)
    requires
        size > 0,
        (Cursor { text, size }).after(k + 1).window() is Some,
    ensures
        k + size < text.len(),
        (Cursor { text, size }).after(k).window() is Some,
        (Cursor { text, size }).after(k + 1).window()->0 == (Cursor { text, size }).after(
            k,
        ).window()->0.drop_first().push(text[(k + size) as int]),
        windows(text, size)[k as int + 1] == windows(text, size)[k as int].drop_first().push(
            text[(k + size) as int],
        ),
{
    let i = k as int;
    let n = size as int;
    lemma_steps_give_windows(text, size, k);
    lemma_steps_give_windows(text, size, k + 1);
    assert(text.subrange(i + 1, i + 1 + n) =~= text.subrange(i, i + n).drop_first().push(
        text[i + n],
    ));
}

/// A cursor of size 0 hands out the empty window at every step, without end.
pub proof fn lemma_size_zero_never_ends(text: Seq<char>, k: nat)
    ensures
        (Cursor { text, size: 0 }).after(k) == (Cursor { text, size: 0 }),
        (Cursor { text, size: 0 }).after(k).window() == Some(Seq::<char>::empty()),
    decreases k,
{
    if k > 0 {
        lemma_size_zero_never_ends(text, (k - 1) as nat);
    }
    assert(text.take(0) =~= Seq::<char>::empty());
}

/// Text with fewer scalar values than a window holds has no windows: no step
/// hands one out.
pub proof fn lemma_short_text_has_no_windows(text: Seq<char>, size: nat, k: nat)
    requires
        size > text.len(),
    ensures
        windows(text, size).len() == 0,
        (Cursor { text, size }).after(k).window() is None,
{
    lemma_steps_give_windows(text, size, k);
}

/// Once a step hands out nothing, the cursor stays as it is, and every later
/// step hands out nothing.
pub proof fn lemma_fused(c: Cursor, j: nat, k: nat)
    requires
        c.after(j).window() is None,
        j <= k,
    ensures
        c.after(k) == c.after(j),
        c.after(k).window() is None,
{
    if c.size == 0 {
        lemma_size_zero_never_ends(c.text, j);
        assert((Cursor { text: c.text, size: 0 }) == c);
    } else {
        assert((Cursor { text: c.text, size: c.size }) == c);
        lemma_after(c.text, c.size, j);
        lemma_after(c.text, c.size, k);
        lemma_steps_give_windows(c.text, c.size, j);
    }
}

/// The first scalar values of the windows that the steps hand out, in order,
/// are the text without its last `size - 1` scalar values.
pub proof fn lemma_window_heads(text: Seq<char>, size: nat)
    requires
        size > 0,
    ensures
        Seq::new(
            window_count(text, size),
            |k: int| (Cursor { text, size }).after(k as nat).window()->0[0],
        ) == text.take(window_count(text, size) as int),
        windows(text, size).map_values(|w: Seq<char>| w[0]) == text.take(
            window_count(text, size) as int,
        ),
        text.len() >= size - 1 ==> window_count(text, size) == text.len() - (size - 1),
{
    let n = window_count(text, size);
    let stepped = Seq::new(n, |k: int| (Cursor { text, size }).after(k as nat).window()->0[0]);
    let heads = windows(text, size).map_values(|w: Seq<char>| w[0]);
    assert forall|k: int| 0 <= k < n implies stepped[k] == text[k] by {
        lemma_steps_give_windows(text, size, k as nat);
    }
    assert(stepped =~= text.take(n as int));
    assert(heads =~= text.take(n as int));
}

/// The bounds that the length of the encoding puts on the number of scalar
/// values hold, and so the size hint brackets the number of windows left.
pub proof fn lemma_hint_brackets_count(text: Seq<char>, size: nat)
    requires
        size > 0,
    ensures
        min_chars(text) <= text.len() <= max_chars(text),
        (Cursor { text, size }).hint_lower() <= window_count(text, size),
        window_count(text, size) <= (Cursor { text, size }).hint_upper()->0,
{
    assert(text.take(0) =~= Seq::<char>::empty());
    assert(text.take(text.len() as int) =~= text);
    if text.len() > 0 {
        lemma_byte_offset_increasing(text, 0, text.len() as int);
    }
    assert(byte_offset(text, 0) == 0);
    assert(byte_offset(text, text.len() as int) == encode_utf8(text).len());
}

} // verus!
