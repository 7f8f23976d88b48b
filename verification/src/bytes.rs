//! Byte classes of the line grammar and greedy runs over them.

use vstd::prelude::*;

verus! {

/// `[`
pub const OPEN_BRACKET: u8 = 0x5b;

/// `]`
pub const CLOSE_BRACKET: u8 = 0x5d;

/// `/`
pub const SLASH: u8 = 0x2f;

/// `.`
pub const POINT: u8 = 0x2e;

/// `0`
pub const ZERO: u8 = 0x30;

/// `9`
pub const NINE: u8 = 0x39;

/// The space character.
pub const BLANK: u8 = 0x20;

pub const TAB: u8 = 0x09;

pub const LINE_FEED: u8 = 0x0a;

pub const CARRIAGE_RETURN: u8 = 0x0d;

/// The sets of bytes that the grammar takes greedy runs of.
#[derive(Clone, Copy, Debug, PartialEq, Eq)]
pub enum ByteClass {
    /// `0` to `9`.
    Digit,
    /// A digit or the decimal point.
    Numeric,
    /// The space character alone.
    Blank,
    /// Space, tab, carriage return and line feed.
    Space,
    /// Anything but `[`.
    Name,
}

impl ByteClass {
    /// Whether `b` belongs to the class.
    pub open spec fn has(self, b: u8) -> bool {
        match self {
            ByteClass::Digit => ZERO <= b <= NINE,
            ByteClass::Numeric => ZERO <= b <= NINE || b == POINT,
            ByteClass::Blank => b == BLANK,
            ByteClass::Space => b == BLANK || b == TAB || b == CARRIAGE_RETURN || b == LINE_FEED,
            ByteClass::Name => b != OPEN_BRACKET,
        }
    }

    /// Whether `b` belongs to the class.
    pub fn contains(self, b: u8) -> (r: bool)
        ensures
            r == self.has(b),
    {
        match self {
            ByteClass::Digit => ZERO <= b && b <= NINE,
            ByteClass::Numeric => (ZERO <= b && b <= NINE) || b == POINT,
            ByteClass::Blank => b == BLANK,
            ByteClass::Space => b == BLANK || b == TAB || b == CARRIAGE_RETURN || b == LINE_FEED,
            ByteClass::Name => b != OPEN_BRACKET,
        }
    }
}

/// Whether every byte of `t` belongs to `class`.
pub open spec fn all_in(t: Seq<u8>, class: ByteClass) -> bool {
    forall|i: int| 0 <= i < t.len() ==> class.has(#[trigger] t[i])
}

/// Whether `r` is empty or starts with a byte outside `class`: a greedy run of
/// `class` stops in front of such a text.
pub open spec fn stops(r: Seq<u8>, class: ByteClass) -> bool {
    r.len() == 0 || !class.has(r[0])
}

/// The length of the longest prefix of `r` made of bytes of `class`.
pub open spec fn run_len(r: Seq<u8>, class: ByteClass) -> nat
    decreases r.len(),
{
    if r.len() > 0 && class.has(r[0]) {
        1 + run_len(r.drop_first(), class)
    } else {
        0
    }
}

/// A run is a prefix, lies within the class, and ends at the first byte
/// outside it.
pub proof fn lemma_run_len(r: Seq<u8>, class: ByteClass)
    ensures
        run_len(r, class) <= r.len(),
        all_in(r.take(run_len(r, class) as int), class),
        stops(r.skip(run_len(r, class) as int), class),
    decreases r.len(),
{
    if r.len() > 0 && class.has(r[0]) {
        let d = r.drop_first();
        lemma_run_len(d, class);
        let n = run_len(d, class) as int;
        assert forall|i: int| 0 <= i < n + 1 implies class.has(#[trigger] r.take(n + 1)[i]) by {
            if i > 0 {
                assert(r.take(n + 1)[i] == d.take(n)[i - 1]);
            }
        }
        if n + 1 < r.len() {
            assert(r.skip(n + 1)[0] == d.skip(n)[0]);
        }
    }
}

/// A text of the class followed by one that stops the run is taken whole.
pub proof fn lemma_run_of_concat(w: Seq<u8>, t: Seq<u8>, class: ByteClass)
    requires
        all_in(w, class),
        stops(t, class),
    ensures
        run_len(w + t, class) == w.len(),
        (w + t).take(w.len() as int) == w,
        (w + t).skip(w.len() as int) == t,
    decreases w.len(),
{
    assert((w + t).take(w.len() as int) =~= w);
    assert((w + t).skip(w.len() as int) =~= t);
    if w.len() == 0 {
        assert(w + t =~= t);
    } else {
        assert(class.has(w[0]));
        assert((w + t)[0] == w[0]);
        assert((w + t).drop_first() =~= w.drop_first() + t);
        assert forall|i: int| 0 <= i < w.drop_first().len() implies class.has(
            #[trigger] w.drop_first()[i],
        ) by {
            assert(w.drop_first()[i] == w[i + 1]);
        }
        lemma_run_of_concat(w.drop_first(), t, class);
    }
}

/// The end of the greedy run of `class` that starts at `pos`.
pub fn scan(s: &[u8], pos: usize, class: ByteClass) -> (end: usize)
    requires
        pos <= s.len(),
    ensures
        pos <= end <= s.len(),
        end - pos == run_len(s@.skip(pos as int), class),
{
    let mut i: usize = pos;
    while i < s.len() && class.contains(s[i])
        invariant
            pos <= i <= s.len(),
            run_len(s@.skip(pos as int), class) == (i - pos) + run_len(s@.skip(i as int), class),
        decreases s.len() - i,
    {
        assert(s@.skip(i as int).drop_first() =~= s@.skip(i as int + 1));
        i = i + 1;
    }
    i
}

/// The number that the decimal digits `d` write, most significant first.
pub open spec fn digits_value(d: Seq<u8>) -> nat
    decreases d.len(),
{
    if d.len() == 0 {
        0
    } else {
        (digits_value(d.drop_last()) * 10 + (d.last() - ZERO)) as nat
    }
}

/// A longer digit text writes a number that is no smaller than its prefix's.
pub proof fn lemma_digits_value_grows(d: Seq<u8>, k: int)
    requires
        all_in(d, ByteClass::Digit),
        0 <= k <= d.len(),
    ensures
        digits_value(d.take(k)) <= digits_value(d),
    decreases d.len() - k,
{
    if k == d.len() {
        assert(d.take(k) =~= d);
    } else {
        assert(d.take(k + 1).drop_last() =~= d.take(k));
        assert(ByteClass::Digit.has(d[k]));
        assert(d.take(k + 1).last() == d[k]);
        lemma_digits_value_grows(d, k + 1);
    }
}

} // verus!
