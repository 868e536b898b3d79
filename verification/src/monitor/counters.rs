//! Track counters.

use crate::text::{decimal_digits, push_padded_decimal, string_of};
use vstd::prelude::*;

verus! {

/// What an operation counts.
#[derive(Debug, Clone, Copy, PartialEq, Eq, Structural)]
pub enum Counter {
    BandsDone,
    BandsTotal,
    FilesDone,
    IndexBytesDone,
    BlockBytesDone,
    BlockRead,
    BlockWrite,
    BlockMatchExisting,
    BlockCacheHit,
    Files,
    FileBytes,
}

/// The number of counters.
pub const COUNTER_COUNT: usize = 11;

impl Counter {
    /// The place of the counter among all counters.
    pub open spec fn index_of(self) -> int {
        match self {
            Counter::BandsDone => 0,
            Counter::BandsTotal => 1,
            Counter::FilesDone => 2,
            Counter::IndexBytesDone => 3,
            Counter::BlockBytesDone => 4,
            Counter::BlockRead => 5,
            Counter::BlockWrite => 6,
            Counter::BlockMatchExisting => 7,
            Counter::BlockCacheHit => 8,
            Counter::Files => 9,
            Counter::FileBytes => 10,
        }
    }

    /// The place of the counter among all counters.
    pub fn index(self) -> (i: usize)
        ensures
            i == self.index_of(),
            i < COUNTER_COUNT,
    {
        match self {
            Counter::BandsDone => 0,
            Counter::BandsTotal => 1,
            Counter::FilesDone => 2,
            Counter::IndexBytesDone => 3,
            Counter::BlockBytesDone => 4,
            Counter::BlockRead => 5,
            Counter::BlockWrite => 6,
            Counter::BlockMatchExisting => 7,
            Counter::BlockCacheHit => 8,
            Counter::Files => 9,
            Counter::FileBytes => 10,
        }
    }

    /// The counter at the place `i`.
    pub fn from_index(i: usize) -> (c: Option<Counter>)
        ensures
            match c {
                Some(c) => c.index_of() == i,
                None => i >= COUNTER_COUNT,
            },
    {
        if i == 0 {
            Some(Counter::BandsDone)
        } else if i == 1 {
            Some(Counter::BandsTotal)
        } else if i == 2 {
            Some(Counter::FilesDone)
        } else if i == 3 {
            Some(Counter::IndexBytesDone)
        } else if i == 4 {
            Some(Counter::BlockBytesDone)
        } else if i == 5 {
            Some(Counter::BlockRead)
        } else if i == 6 {
            Some(Counter::BlockWrite)
        } else if i == 7 {
            Some(Counter::BlockMatchExisting)
        } else if i == 8 {
            Some(Counter::BlockCacheHit)
        } else if i == 9 {
            Some(Counter::Files)
        } else if i == 10 {
            Some(Counter::FileBytes)
        } else {
            None
        }
    }

    /// The name of the counter.
    pub open spec fn name_text(self) -> Seq<char> {
        match self {
            Counter::BandsDone => "BandsDone"@,
            Counter::BandsTotal => "BandsTotal"@,
            Counter::FilesDone => "FilesDone"@,
            Counter::IndexBytesDone => "IndexBytesDone"@,
            Counter::BlockBytesDone => "BlockBytesDone"@,
            Counter::BlockRead => "BlockRead"@,
            Counter::BlockWrite => "BlockWrite"@,
            Counter::BlockMatchExisting => "BlockMatchExisting"@,
            Counter::BlockCacheHit => "BlockCacheHit"@,
            Counter::Files => "Files"@,
            Counter::FileBytes => "FileBytes"@,
        }
    }

    /// The name of the counter.
    pub fn name(self) -> (s: &'static str)
        ensures
            s@ == self.name_text(),
    {
        match self {
            Counter::BandsDone => "BandsDone",
            Counter::BandsTotal => "BandsTotal",
            Counter::FilesDone => "FilesDone",
            Counter::IndexBytesDone => "IndexBytesDone",
            Counter::BlockBytesDone => "BlockBytesDone",
            Counter::BlockRead => "BlockRead",
            Counter::BlockWrite => "BlockWrite",
            Counter::BlockMatchExisting => "BlockMatchExisting",
            Counter::BlockCacheHit => "BlockCacheHit",
            Counter::Files => "Files",
            Counter::FileBytes => "FileBytes",
        }
    }
}

/// The counter at the place `i`.
pub open spec fn counter_at(i: int) -> Counter {
    if i == 0 {
        Counter::BandsDone
    } else if i == 1 {
        Counter::BandsTotal
    } else if i == 2 {
        Counter::FilesDone
    } else if i == 3 {
        Counter::IndexBytesDone
    } else if i == 4 {
        Counter::BlockBytesDone
    } else if i == 5 {
        Counter::BlockRead
    } else if i == 6 {
        Counter::BlockWrite
    } else if i == 7 {
        Counter::BlockMatchExisting
    } else if i == 8 {
        Counter::BlockCacheHit
    } else if i == 9 {
        Counter::Files
    } else {
        Counter::FileBytes
    }
}

/// The first `n` of the counts `values`, each as the name of its counter,
/// a colon and the count, with commas between them.
pub open spec fn fields_text(values: Seq<usize>, n: nat) -> Seq<char>
    decreases n,
{
    if n == 0 {
        Seq::empty()
    } else {
        fields_text(values, (n - 1) as nat) + (if n > 1 {
            ", "@
        } else {
            Seq::empty()
        }) + counter_at(n - 1).name_text() + ": "@ + decimal_digits(values[n - 1] as nat)
    }
}

/// The counts `values` as a record: the name `Counters`, and between
/// braces each counter with its count.
pub open spec fn counters_text(values: Seq<usize>) -> Seq<char> {
    "Counters { "@ + fields_text(values, COUNTER_COUNT as nat) + " }"@
}

/// One count for each [`Counter`].
#[derive(Debug, PartialEq, Eq)]
pub struct Counters {
    counters: [usize; COUNTER_COUNT],
}

impl View for Counters {
    type V = Seq<usize>;

    /// The counts, each at the place of its counter.
    closed spec fn view(&self) -> Seq<usize> {
        self.counters@
    }
}

impl Default for Counters {
    /// All counts at zero.
    fn default() -> (c: Counters)
        ensures
            c@.len() == COUNTER_COUNT,
            forall|i: int| 0 <= i < COUNTER_COUNT ==> c@[i] == 0,
    {
        Counters { counters: [0; COUNTER_COUNT] }
    }
}

impl Counters {
    /// There is one count for each counter.
    pub proof fn lemma_len(&self)
        ensures
            self@.len() == COUNTER_COUNT,
    {
    }

    /// The count of `counter`.
    pub open spec fn value(&self, counter: Counter) -> usize {
        self@[counter.index_of()]
    }

    /// Adds `increment` to the count of `counter`. A count that passes the
    /// largest number that it can hold starts again from zero.
    pub fn count(&mut self, counter: Counter, increment: usize)
        ensures
            final(self)@ == old(self)@.update(
                counter.index_of(),
                old(self).value(counter).wrapping_add(increment),
            ),
            final(self)@.len() == old(self)@.len(),
    {
        let i = counter.index();
        let v = self.counters[i].wrapping_add(increment);
        self.counters[i] = v;
    }

    /// Sets the count of `counter` to `value`.
    pub fn set(&mut self, counter: Counter, value: usize)
        ensures
            final(self)@ == old(self)@.update(counter.index_of(), value),
            final(self)@.len() == old(self)@.len(),
    {
        let i = counter.index();
        self.counters[i] = value;
    }

    /// The counts as a record, for a reader: the name `Counters`, and
    /// between braces each counter with its count.
    pub fn debug_text(&self) -> (s: String)
        ensures
            s@ == counters_text(self@),
    {
        let mut s = "Counters { ".to_owned();
        let mut i: usize = 0;
        while i < COUNTER_COUNT
            invariant
                i <= COUNTER_COUNT,
                s@ == "Counters { "@ + fields_text(self@, i as nat),
            decreases COUNTER_COUNT - i,
        {
            let ghost before = fields_text(self@, i as nat);
            if i > 0 {
                s.append(", ");
            }
            let counter = match Counter::from_index(i) {
                Some(c) => c,
                None => Counter::BandsDone,
            };
            assert(counter == counter_at(i as int));
            s.append(counter.name());
            s.append(": ");
            let mut digits: Vec<char> = Vec::new();
            push_padded_decimal(&mut digits, self.counters[i] as u64, 0);
            let number = string_of(&digits);
            s.append(number.as_str());
            proof {
                assert(number@ =~= decimal_digits(self@[i as int] as nat));
                assert(s@ =~= "Counters { "@ + fields_text(self@, (i + 1) as nat));
            }
            i += 1;
        }
        s.append(" }");
        s
    }

    /// The count of `counter`.
    pub fn get(&self, counter: Counter) -> (v: usize)
        ensures
            v == self.value(counter),
    {
        self.counters[counter.index()]
    }
}

} // verus!
