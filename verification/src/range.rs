//! Ranges of the plaintext: words, sentences and the like are substrings of
//! a DNM's plaintext, held as a start and end offset together with a
//! reference to the DNM.

use vstd::prelude::*;

use crate::chars::{char_is_whitespace, is_ws_char};
use crate::dnm::DNM;
use crate::rules::Normalizer;
use vstd::string::StrSliceExecFns;

verus! {

/// A substring of a DNM's plaintext: character offsets `start <= end` into
/// `dnm.plaintext`, with a reference to the DNM.
pub struct DNMRange<'a, N: Normalizer> {
    /// Character offset of the first character of the range.
    pub start: usize,
    /// Character offset one past the last character of the range.
    pub end: usize,
    /// The DNM the offsets point into.
    pub dnm: &'a DNM<N>,
}

impl<'a, N: Normalizer> Clone for DNMRange<'a, N> {
    /// A shallow copy, still bound to the same DNM.
    fn clone(&self) -> (r: Self)
        ensures
            r == *self,
    {
        DNMRange { start: self.start, end: self.end, dnm: self.dnm }
    }
}

impl<'a, N: Normalizer> Copy for DNMRange<'a, N> {

}

/// The first offset in `[start, end)` from which `t` holds no further
/// leading whitespace; `end` itself when the whole range is whitespace.
pub open spec fn trim_start_spec(t: Seq<char>, start: int, end: int) -> int
    decreases end - start,
{
    if start >= end {
        start
    } else if is_ws_char(t[start]) {
        trim_start_spec(t, start + 1, end)
    } else {
        start
    }
}

/// The offset at which the trailing whitespace of `t[start..end)` begins;
/// `start` itself when the whole range is whitespace.
pub open spec fn trim_end_spec(t: Seq<char>, start: int, end: int) -> int
    decreases end - start,
{
    if end <= start {
        end
    } else if is_ws_char(t[end - 1]) {
        trim_end_spec(t, start, end - 1)
    } else {
        end
    }
}

/// Both trimmed offsets at once: what `trim` computes. On a range of
/// nothing but whitespace the two scans cross; the result is then clamped
/// to the empty range at the scanned start, so that every trimmed range is
/// a valid sub-range.
pub open spec fn trim_spec(t: Seq<char>, start: int, end: int) -> (int, int) {
    let s1 = trim_start_spec(t, start, end);
    let e1 = trim_end_spec(t, start, end);
    if s1 <= e1 {
        (s1, e1)
    } else {
        (s1, s1)
    }
}

/// The start trimmer stays within `[start, end]` and lands either on a
/// non-whitespace character or on `end`.
pub proof fn lemma_trim_start_shape(t: Seq<char>, start: int, end: int)
    requires
        start <= end,
    ensures
        start <= trim_start_spec(t, start, end) <= end,
        trim_start_spec(t, start, end) < end ==> !is_ws_char(t[trim_start_spec(t, start, end)]),
        forall|i: int| start <= i < trim_start_spec(t, start, end) ==> is_ws_char(#[trigger] t[i]),
    decreases end - start,
{
    if start < end && is_ws_char(t[start]) {
        lemma_trim_start_shape(t, start + 1, end);
    }
}

/// The end trimmer stays within `[start, end]` and lands either just past a
/// non-whitespace character or on `start`.
pub proof fn lemma_trim_end_shape(t: Seq<char>, start: int, end: int)
    requires
        start <= end,
    ensures
        start <= trim_end_spec(t, start, end) <= end,
        trim_end_spec(t, start, end) > start ==> !is_ws_char(t[trim_end_spec(t, start, end) - 1]),
        forall|i: int| trim_end_spec(t, start, end) <= i < end ==> is_ws_char(#[trigger] t[i]),
    decreases end - start,
{
    if end > start && is_ws_char(t[end - 1]) {
        lemma_trim_end_shape(t, start, end - 1);
    }
}

/// The trimmed offsets are a valid sub-range of the input range.
pub proof fn lemma_trim_valid(t: Seq<char>, start: int, end: int)
    requires
        start <= end <= t.len(),
    ensures
        start <= trim_spec(t, start, end).0,
        trim_spec(t, start, end).0 <= trim_spec(t, start, end).1,
        trim_spec(t, start, end).1 <= end,
{
    lemma_trim_start_shape(t, start, end);
    lemma_trim_end_shape(t, start, end);
}

/// Trimming is idempotent: trimming a trimmed range changes nothing. This
/// holds for every range, also for a whitespace-only one, which trims to an
/// empty range that a second trim leaves as it is.
pub proof fn lemma_trim_idempotent(t: Seq<char>, start: int, end: int)
    requires
        start <= end <= t.len(),
    ensures
        trim_spec(t, trim_spec(t, start, end).0, trim_spec(t, start, end).1) == trim_spec(
            t,
            start,
            end,
        ),
{
    let s1 = trim_start_spec(t, start, end);
    let e1 = trim_end_spec(t, start, end);
    lemma_trim_start_shape(t, start, end);
    lemma_trim_end_shape(t, start, end);
    if s1 > e1 {
        // a whitespace-only range: the result is the empty range at s1, and
        // trimming an empty range changes nothing
        assert(trim_start_spec(t, s1, s1) == s1);
        assert(trim_end_spec(t, s1, s1) == s1);
    } else if s1 == e1 {
        assert(trim_start_spec(t, s1, e1) == s1);
        assert(trim_end_spec(t, s1, e1) == e1);
    } else {
        // the trimmed range begins and ends in non-whitespace
        assert(!is_ws_char(t[s1]));
        assert(!is_ws_char(t[e1 - 1]));
        assert(trim_start_spec(t, s1, e1) == s1);
        assert(trim_end_spec(t, s1, e1) == e1);
    }
}

impl<'a, N: Normalizer> DNMRange<'a, N> {
    /// The offsets lie within the plaintext, in order.
    pub open spec fn wf(self) -> bool {
        self.start <= self.end <= self.dnm.plaintext@.len()
    }

    /// Get the plaintext substring corresponding to the range.
    pub fn get_plaintext(&self) -> (r: String)
        requires
            self.wf(),
        ensures
            r@ == self.dnm.plaintext@.subrange(self.start as int, self.end as int),
    {
        self.dnm.plaintext.as_str().substring_char(self.start, self.end).to_owned()
    }

    /// Get the plaintext of the range without its trailing whitespace.
    pub fn get_plaintext_truncated(&self) -> (r: String)
        requires
            self.wf(),
        ensures
            r@ == self.dnm.plaintext@.subrange(
                self.start as int,
                trim_end_spec(self.dnm.plaintext@, self.start as int, self.end as int),
            ),
    {
        let t = &self.dnm.plaintext;
        let mut e = self.end;
        while e > self.start && char_is_whitespace(t.as_str().get_char(e - 1))
            invariant
                self.wf(),
                self.start <= e <= self.end,
                t == &self.dnm.plaintext,
                trim_end_spec(t@, self.start as int, self.end as int) == trim_end_spec(
                    t@,
                    self.start as int,
                    e as int,
                ),
            decreases e,
        {
            e = e - 1;
        }
        t.as_str().substring_char(self.start, e).to_owned()
    }

    /// Shrink the range past its leading and trailing whitespace: purely a
    /// range-narrowing operation, the plaintext is not copied. A range of
    /// nothing but whitespace trims to the empty range at its scanned
    /// start; the result is always a valid sub-range.
    pub fn trim(&self) -> (r: DNMRange<'a, N>)
        requires
            self.wf(),
        ensures
            r.dnm == self.dnm,
            r.start as int == trim_spec(self.dnm.plaintext@, self.start as int, self.end as int).0,
            r.end as int == trim_spec(self.dnm.plaintext@, self.start as int, self.end as int).1,
            self.start <= r.start <= r.end <= self.end,
            r.wf(),
    {
        let t = &self.dnm.plaintext;
        let mut s = self.start;
        let mut e = self.end;
        while s < self.end && char_is_whitespace(t.as_str().get_char(s))
            invariant
                self.wf(),
                self.start <= s <= self.end,
                t == &self.dnm.plaintext,
                trim_start_spec(t@, self.start as int, self.end as int) == trim_start_spec(
                    t@,
                    s as int,
                    self.end as int,
                ),
            decreases self.end - s,
        {
            s = s + 1;
        }
        while e > self.start && char_is_whitespace(t.as_str().get_char(e - 1))
            invariant
                self.wf(),
                self.start <= e <= self.end,
                t == &self.dnm.plaintext,
                trim_end_spec(t@, self.start as int, self.end as int) == trim_end_spec(
                    t@,
                    self.start as int,
                    e as int,
                ),
            decreases e,
        {
            e = e - 1;
        }
        proof {
            lemma_trim_start_shape(t@, self.start as int, self.end as int);
            lemma_trim_end_shape(t@, self.start as int, self.end as int);
        }
        if e < s {
            // the whole range was whitespace: clamp to the empty range at s
            e = s;
        }
        DNMRange { start: s, end: e, dnm: self.dnm }
    }
}

} // verus!
