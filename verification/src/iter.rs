//! The window iterator.
//!
//! [`StrWindowsIter`] keeps the text that lies ahead and the byte offset at
//! which the current window ends. Each step cuts the window off the front of
//! that text and moves both ends one scalar value to the right, looking only
//! at the scalar value that leaves the window and the one that enters it.

use crate::boundary::{
    byte_len, byte_offset, lemma_byte_offset_increasing, lemma_byte_offset_skip,
    lemma_byte_offset_step, lemma_split_at_offset, next_indice, nth_indice, split_at_index,
};
use crate::model::{lemma_hint_brackets_count, window_count, windows_among, Cursor};
use std::iter::FusedIterator;
use vstd::prelude::*;
use vstd::std_specs::iter::IteratorSpecImpl;
use vstd::string::*;

verus! {

/// Lazy producer of the windows of a string, made by [`str_windows`].
///
/// Its view is a [`Cursor`]: the text from the start of the current window on,
/// and the window size. The windows it hands out borrow from the string it
/// was made from.
pub struct StrWindowsIter<'a> {
    /// The text from the start of the current window on.
    inner: &'a str,
    /// Byte offset in `inner` at which the current window ends; `None` once
    /// `inner` holds fewer than `size` scalar values.
    end: Option<usize>,
    /// Number of scalar values in each window.
    size: usize,
}

impl<'a> View for StrWindowsIter<'a> {
    type V = Cursor;

    closed spec fn view(&self) -> Cursor {
        Cursor { text: self.inner@, size: self.size as nat }
    }
}

/// Where the window of `size` scalar values that starts `s` ends, if `s` holds
/// that many.
fn first_window_end(s: &str, size: usize) -> (r: Option<usize>)
    ensures
        match r {
            Some(e) => s@.len() >= size && e == byte_offset(s@, size as int),
            None => s@.len() < size,
        },
{
    if size == 0 {
        proof {
            assert(s@.take(0) =~= Seq::<char>::empty());
        }
        return Some(0);
    }
    let len: usize = byte_len(s);
    let last: usize = nth_indice(s, size - 1);
    proof {
        if size - 1 < s@.len() {
            lemma_byte_offset_increasing(s@, size - 1, s@.len() as int);
        }
    }
    if last < len {
        let (_, tail) = split_at_index(s, last, Ghost(size - 1));
        let width: usize = next_indice(tail);
        proof {
            lemma_byte_offset_step(s@, size - 1);
            lemma_split_at_offset(s@, size as int);
        }
        Some(last + width)
    } else {
        None
    }
}

/// Number of windows of `size` scalar values among `n` scalar values.
fn windows_among_exec(n: usize, size: usize) -> (r: usize)
    requires
        size > 0,
    ensures
        r == windows_among(n as nat, size as nat),
{
    n.checked_sub(size - 1).unwrap_or(0)
}

/// Returns the substrings of `input` that hold `size` scalar values each, from
/// left to right, each one starting one scalar value after the one before.
///
/// Where `input` holds fewer than `size` scalar values there is no window.
/// With `size` 0 the iterator hands out the empty string without end.
///
/// ```
/// use str_windows::str_windows;
///
/// let mut windows = str_windows("s 😀😁", 3);
/// assert_eq!(windows.next(), Some("s 😀"));
/// assert_eq!(windows.next(), Some(" 😀😁"));
/// assert_eq!(windows.next(), None);
/// ```
pub fn str_windows<'a>(input: &'a str, size: usize) -> (iter: StrWindowsIter<'a>)
    ensures
        iter@ == (Cursor { text: input@, size: size as nat }),
{
    StrWindowsIter { inner: input, end: first_window_end(input, size), size }
}

impl<'a> StrWindowsIter<'a> {
    #[verifier::type_invariant]
    spec fn well_formed(self) -> bool {
        match self.end {
            Some(e) => self.inner@.len() >= self.size && e == byte_offset(
                self.inner@,
                self.size as int,
            ),
            None => self.inner@.len() < self.size,
        }
    }
}

impl<'a> Iterator for StrWindowsIter<'a> {
    type Item = &'a str;

    /// Hands out the current window and moves one scalar value to the right;
    /// hands out nothing, and changes nothing, once fewer scalar values are
    /// left than a window holds. With size 0 it hands out the empty string at
    /// every call.
    fn next(&mut self) -> (r: Option<&'a str>)
        ensures
            final(self)@ == old(self)@.advance(),
            match r {
                Some(w) => old(self)@.window() == Some(w@),
                None => old(self)@.window() is None,
            },
    {
        proof {
            use_type_invariant(&*self);
        }
        if self.size == 0 {
            proof {
                reveal_strlit("");
                assert(self.inner@.take(0) =~= ""@);
            }
            return Some("");
        }
        let end: usize = match self.end {
            Some(e) => e,
            None => {
                return None;
            },
        };
        let ghost text = self.inner@;
        let ghost size = self.size as int;
        let (window, rest) = split_at_index(self.inner, end, Ghost(size));
        let skip_len: usize = next_indice(self.inner);
        proof {
            lemma_byte_offset_step(text, 0);
            lemma_byte_offset_skip(text, 1, size - 1);
            if size > 1 {
                lemma_byte_offset_increasing(text, 1, size);
            }
        }
        let (_, tail) = split_at_index(self.inner, skip_len, Ghost(1));
        let next_end: Option<usize> = if end < byte_len(self.inner) {
            let width: usize = next_indice(rest);
            proof {
                lemma_byte_offset_step(text, size);
                lemma_byte_offset_skip(text, 1, size);
                lemma_split_at_offset(text, size + 1);
            }
            Some(end - skip_len + width)
        } else {
            None
        };
        proof {
            if size < text.len() {
                lemma_byte_offset_increasing(text, size, text.len() as int);
            }
            assert(tail@ =~= text.drop_first());
        }
        *self = StrWindowsIter { inner: tail, end: next_end, size: self.size };
        Some(window)
    }

    /// Bounds on the number of windows still to come, taken from the length
    /// of the remaining text in bytes without decoding it. With size 0 the
    /// windows never end: the lower bound is the largest `usize` and there is
    /// no upper bound.
    fn size_hint(&self) -> (r: (usize, Option<usize>))
        ensures
            r.0 == self@.hint_lower(),
            match r.1 {
                Some(upper) => self@.hint_upper() == Some(upper as nat),
                None => self@.hint_upper() is None,
            },
            self@.size > 0 ==> r.0 <= window_count(self@.text, self@.size) <= r.1->0,
    {
        if self.size == 0 {
            return (usize::MAX, None);
        }
        let len: usize = byte_len(self.inner);
        let min: usize = if len % 4 == 0 {
            len / 4
        } else {
            len / 4 + 1
        };
        let max: usize = len;
        proof {
            lemma_hint_brackets_count(self.inner@, self.size as nat);
        }
        (windows_among_exec(min, self.size), Some(windows_among_exec(max, self.size)))
    }
}

/// Once `next` has handed out nothing it leaves the iterator as it is, so it
/// hands out nothing ever after.
impl<'a> FusedIterator for StrWindowsIter<'a> {}

/// What the iterator hands out is stated by the contract of `next`, over the
/// cursor. The laws of vstd's ghost iterators are for iterators that end, and
/// speak of the items themselves; an iterator of size 0 never ends, so they
/// are not claimed here.
impl<'a> IteratorSpecImpl for StrWindowsIter<'a> {
    open spec fn obeys_prophetic_iter_laws(&self) -> bool {
        false
    }

    open spec fn remaining(&self) -> Seq<&'a str> {
        Seq::empty()
    }

    open spec fn will_return_none(&self) -> bool {
        false
    }

    open spec fn decrease(&self) -> Option<nat> {
        None
    }

    open spec fn initial_value_relation(&self, init: &Self) -> bool {
        true
    }

    open spec fn peek(&self, index: int) -> Option<&'a str> {
        None
    }
}

} // verus!
