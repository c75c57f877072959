use vstd::prelude::*;

use std::collections::VecDeque;

use crate::ids::{decimal, u32_text};

verus! {

/// How serious a logged entry is.
#[derive(Debug, Clone, Copy, PartialEq, Eq, Structural)]
pub enum Severity {
    Info,
    Error,
}

impl Severity {
    /// The lowercase name of the severity.
    pub fn as_str(&self) -> (r: &'static str)
        ensures
            r@ == match *self {
                Severity::Info => "info"@,
                Severity::Error => "error"@,
            },
    {
        match self {
            Severity::Info => "info",
            Severity::Error => "error",
        }
    }
}

/// `n` in decimal, with zeros in front up to `width` characters.
pub open spec fn zero_padded(n: nat, width: nat) -> Seq<char> {
    let d = decimal(n);
    if d.len() < width {
        Seq::new((width - d.len()) as nat, |i: int| '0') + d
    } else {
        d
    }
}

/// A time of day as `hh:mm:ss.mmm`, each field zero-padded.
pub open spec fn time_of_day(hours: nat, minutes: nat, seconds: nat, millis: nat) -> Seq<char> {
    zero_padded(hours, 2) + seq![':'] + zero_padded(minutes, 2) + seq![':'] + zero_padded(seconds, 2)
        + seq!['.'] + zero_padded(millis, 3)
}

/// The number of decimal digits of `n`: one below ten, two below a
/// hundred, three or more from there.
proof fn lemma_decimal_len(n: nat)
    ensures
        n < 10 ==> decimal(n).len() == 1,
        10 <= n < 100 ==> decimal(n).len() == 2,
        100 <= n ==> decimal(n).len() >= 3,
    decreases n,
{
    if n >= 10 {
        lemma_decimal_len(n / 10);
    }
}

/// Appends `n` in decimal, zero-padded to `width` characters, where
/// `width` is two or three.
fn push_padded(out: &mut String, n: u32, width: usize)
    requires
        width == 2 || width == 3,
    ensures
        final(out)@ == old(out)@ + zero_padded(n as nat, width as nat),
{
    proof {
        lemma_decimal_len(n as nat);
        reveal_strlit("0");
        reveal_strlit("00");
    }
    let ghost start = out@;
    if n < 10 {
        if width == 3 {
            out.push_str("00");
        } else {
            out.push_str("0");
        }
    } else if n < 100 && width == 3 {
        out.push_str("0");
    }
    let digits = u32_text(n);
    out.push_str(digits.as_str());
    proof {
        assert(out@ =~= start + zero_padded(n as nat, width as nat));
    }
}

/// Formats a time of day as `hh:mm:ss.mmm`, each field zero-padded (a
/// field too large for its width keeps all its digits).
pub fn time_text(hours: u32, minutes: u32, seconds: u32, millis: u32) -> (r: String)
    ensures
        r@ == time_of_day(hours as nat, minutes as nat, seconds as nat, millis as nat),
{
    proof {
        reveal_strlit(":");
        reveal_strlit(".");
    }
    let mut r = String::new();
    push_padded(&mut r, hours, 2);
    r.push_str(":");
    push_padded(&mut r, minutes, 2);
    r.push_str(":");
    push_padded(&mut r, seconds, 2);
    r.push_str(".");
    push_padded(&mut r, millis, 3);
    proof {
        assert(r@ =~= time_of_day(hours as nat, minutes as nat, seconds as nat, millis as nat));
    }
    r
}

/// The number of entries a log keeps unless told otherwise.
pub const DEFAULT_MAX_ENTRIES: usize = 100;

/// The last `max` items of `s`, or all of them where there are fewer.
pub open spec fn newest<T>(s: Seq<T>, max: nat) -> Seq<T> {
    if s.len() > max {
        s.skip(s.len() - max)
    } else {
        s
    }
}

/// A log that keeps only its most recent entries.
pub struct Log<T> {
    entries: VecDeque<T>,
    max_entries: usize,
}

impl<T> View for Log<T> {
    type V = Seq<T>;

    closed spec fn view(&self) -> Seq<T> {
        self.entries@
    }
}

impl<T> Log<T> {
    /// The number of entries the log keeps.
    pub closed spec fn max(&self) -> nat {
        self.max_entries as nat
    }

    /// The log never holds more than its maximum.
    pub closed spec fn wf(&self) -> bool {
        self.entries@.len() <= self.max_entries
    }

    /// Whatever calls made it, a log holds no more entries than its
    /// maximum: every constructor and every call keeps `wf`.
    pub proof fn law_bounded(&self)
        requires
            self.wf(),
        ensures
            self@.len() <= self.max(),
    {
    }

    /// A log made by `new` holds at most a hundred entries, whatever calls
    /// followed: they all keep its maximum and keep it well formed.
    pub proof fn law_default_bounded(&self)
        requires
            self.wf(),
            self.max() == DEFAULT_MAX_ENTRIES,
        ensures
            self@.len() <= 100,
    {
    }

    /// An empty log that keeps the last hundred entries.
    pub fn new() -> (r: Log<T>)
        ensures
            r.wf(),
            r@ == Seq::<T>::empty(),
            r.max() == DEFAULT_MAX_ENTRIES,
    {
        Log { entries: VecDeque::new(), max_entries: DEFAULT_MAX_ENTRIES }
    }

    /// An empty log that keeps the last `max_entries` entries.
    pub fn with_max(max_entries: usize) -> (r: Log<T>)
        ensures
            r.wf(),
            r@ == Seq::<T>::empty(),
            r.max() == max_entries,
    {
        Log { entries: VecDeque::new(), max_entries }
    }

    /// Appends an entry, dropping the oldest ones beyond the maximum.
    pub fn log(&mut self, entry: T)
        ensures
            final(self).wf(),
            final(self).max() == old(self).max(),
            final(self)@ == newest(old(self)@.push(entry), old(self).max()),
            final(self)@.len() <= final(self).max(),
    {
        let ghost v = entry;
        self.entries.push_back(entry);
        let ghost all = self.entries@;
        assert(all.skip(0) =~= all);
        while self.entries.len() > self.max_entries
            invariant
                self.max_entries == old(self).max_entries,
                all == old(self)@.push(v),
                all.len() > self.max_entries ==> self.entries@.len() >= self.max_entries,
                all.len() <= self.max_entries ==> self.entries@.len() == all.len(),
                self.entries@ == all.skip(all.len() - self.entries@.len()),
                all.len() >= self.entries@.len(),
            decreases self.entries@.len(),
        {
            let ghost before = self.entries@;
            self.entries.pop_front();
            assert(self.entries@ =~= all.skip(all.len() - self.entries@.len()));
        }
        proof {
            if all.len() > self.max_entries {
                assert(self.entries@.len() == self.max_entries);
            } else {
                assert(self.entries@ =~= all);
            }
        }
    }

    /// The number of entries.
    pub fn len(&self) -> (r: usize)
        ensures
            r == self@.len(),
    {
        self.entries.len()
    }

    /// Removes all entries.
    pub fn clear(&mut self)
        ensures
            final(self).wf(),
            final(self).max() == old(self).max(),
            final(self)@ == Seq::<T>::empty(),
    {
        self.entries.clear();
    }

    /// The entry at position `i`, oldest first.
    pub fn get(&self, i: usize) -> (r: &T)
        requires
            i < self@.len(),
        ensures
            *r == self@[i as int],
    {
        &self.entries[i]
    }
}

impl<T: Clone> Log<T> {
    /// Copies of the entries, oldest first.
    pub fn entries(&self) -> (r: Vec<T>)
        ensures
            r@.len() == self@.len(),
            forall|i: int| 0 <= i < r@.len() ==> cloned::<T>(self@[i], #[trigger] r@[i]),
    {
        let mut r: Vec<T> = Vec::new();
        let mut i: usize = 0;
        while i < self.entries.len()
            invariant
                0 <= i <= self@.len(),
                r@.len() == i,
                forall|j: int| 0 <= j < i ==> cloned::<T>(self@[j], #[trigger] r@[j]),
            decreases self@.len() - i,
        {
            r.push(self.entries[i].clone());
            i = i + 1;
        }
        r
    }
}

} // verus!
