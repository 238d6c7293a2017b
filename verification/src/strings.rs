//! Scanning a byte stream for printable strings of four or more bytes.

use vstd::prelude::*;

verus! {

/// The line feed that ends each string in the output.
pub const NEWLINE: u8 = 0x0a;

/// The shortest run of printable bytes that counts as a string.
pub const MIN_RUN: usize = 4;

/// Characters or bytes that can be printable.
pub trait IsPrintable: Sized {
    /// Whether this value is printable.
    spec fn printable(self) -> bool;

    /// Is this character printable?
    fn is_printable(self) -> (yes: bool)
        ensures
            yes == self.printable(),
    ;
}

/// A byte is printable when it is a visible ASCII character or the space: no byte
/// sequence is decoded, so every byte above `~` is unprintable.
impl IsPrintable for u8 {
    open spec fn printable(self) -> bool {
        0x20 <= self <= 0x7e
    }

    fn is_printable(self) -> (yes: bool) {
        self >= 0x20 && self <= 0x7e
    }
}

/// A buffer holding the first printable bytes of the current run, up to four.
#[derive(Copy, Clone)]
pub struct Trailing {
    chars: [u8; 4],
    current: usize,
}

impl Trailing {
    /// The four slots of the buffer.
    pub closed spec fn slots(self) -> Seq<u8> {
        self.chars@
    }

    /// The number of slots in use.
    pub closed spec fn count(self) -> nat {
        self.current as nat
    }

    /// The bytes held, oldest first: the slots in use.
    pub open spec fn held(self) -> Seq<u8> {
        self.slots().take(self.count() as int)
    }

    /// The buffer has four slots and never uses more.
    pub open spec fn well_formed(self) -> bool {
        self.slots().len() == MIN_RUN && self.count() <= MIN_RUN
    }

    /// An empty buffer.
    pub fn new() -> (trailing: Trailing)
        ensures
            trailing.well_formed(),
            trailing.count() == 0,
            trailing.slots() == seq![0u8, 0u8, 0u8, 0u8],
    {
        let trailing = Trailing { chars: [0; 4], current: 0 };
        assert(trailing.chars@ =~= seq![0u8, 0u8, 0u8, 0u8]);
        trailing
    }

    /// Appends a byte, and tells whether the buffer is now full.
    pub fn set(&mut self, b: u8) -> (complete: bool)
        requires
            old(self).well_formed(),
            old(self).count() < MIN_RUN,
        ensures
            final(self).well_formed(),
            final(self).count() == old(self).count() + 1,
            final(self).slots() == old(self).slots().update(old(self).count() as int, b),
            final(self).held() == old(self).held().push(b),
            complete == (final(self).count() == MIN_RUN),
    {
        self.chars[self.current] = b;
        self.current += 1;
        assert(self.held() =~= old(self).held().push(b));
        self.is_complete()
    }

    /// Empties the buffer. The slots keep what they hold.
    pub fn reset(&mut self)
        ensures
            final(self).count() == 0,
            final(self).slots() == old(self).slots(),
    {
        self.current = 0;
    }

    /// Whether the buffer holds four bytes.
    pub fn is_complete(self) -> (complete: bool)
        ensures
            complete == (self.count() == MIN_RUN),
    {
        self.current == 4
    }

    /// The four slots of the buffer: the bytes held come first.
    pub fn chars(self) -> (slots: [u8; 4])
        ensures
            slots@ == self.slots(),
    {
        self.chars
    }
}

/// What a scanner gives out for the byte `b`, where `held` are the first bytes, four at
/// most, of the run before it.
///
/// A printable byte that makes the run four long releases the whole run so far; one
/// that extends a longer run is passed on; one in a shorter run is held back. A byte
/// that is not printable ends a run of four or more with a line feed.
pub open spec fn released(held: Seq<u8>, b: u8) -> Seq<u8> {
    if b.printable() {
        if held.len() >= MIN_RUN {
            seq![b]
        } else if held.len() == MIN_RUN - 1 {
            held.push(b)
        } else {
            Seq::empty()
        }
    } else if held.len() >= MIN_RUN {
        seq![NEWLINE]
    } else {
        Seq::empty()
    }
}

/// The bytes held after the byte `b`: a printable byte joins them while there is room,
/// any other byte empties the buffer.
pub open spec fn held_after(held: Seq<u8>, b: u8) -> Seq<u8> {
    if !b.printable() {
        Seq::empty()
    } else if held.len() >= MIN_RUN {
        held
    } else {
        held.push(b)
    }
}

/// Takes the next byte of a stream: keeps it in `trailing` or appends to `output` what
/// it releases.
pub fn scan(trailing: &mut Trailing, b: u8, output: &mut Vec<u8>)
    requires
        old(trailing).well_formed(),
    ensures
        final(trailing).well_formed(),
        final(trailing).held() == held_after(old(trailing).held(), b),
        final(output)@ == old(output)@ + released(old(trailing).held(), b),
{
    if b.is_printable() {
        if trailing.is_complete() {
            output.push(b);
            assert(output@ =~= old(output)@ + seq![b]);
        } else if trailing.set(b) {
            let slots = trailing.chars();
            let mut k: usize = 0;
            while k < 4
                invariant
                    k <= 4,
                    slots@ == trailing.held(),
                    trailing.held().len() == 4,
                    output@ == old(output)@ + trailing.held().take(k as int),
                decreases 4 - k,
            {
                output.push(slots[k]);
                assert(trailing.held().take(k + 1) =~= trailing.held().take(k as int).push(
                    slots@[k as int],
                ));
                k += 1;
            }
            assert(trailing.held().take(4) =~= trailing.held());
        } else {
            assert(output@ =~= old(output)@ + Seq::<u8>::empty());
        }
    } else {
        if trailing.is_complete() {
            output.push(NEWLINE);
            assert(output@ =~= old(output)@ + seq![NEWLINE]);
        } else {
            assert(output@ =~= old(output)@ + Seq::<u8>::empty());
        }
        trailing.reset();
        assert(trailing.held() =~= Seq::<u8>::empty());
    }
}

/// How many printable bytes end `s`: the length of the run that a next byte would extend.
pub open spec fn run_length(s: Seq<u8>) -> nat
    decreases s.len(),
{
    if s.len() > 0 && s.last().printable() {
        1 + run_length(s.drop_last())
    } else {
        0
    }
}

/// The first bytes, four at most, of the run of printable bytes that ends `s`.
pub open spec fn run_start(s: Seq<u8>) -> Seq<u8> {
    let run = run_length(s);
    s.subrange(s.len() - run, s.len() - run + if run < MIN_RUN { run } else { MIN_RUN as nat })
}

/// The printable strings of four or more bytes in `s`, each but an unfinished last one
/// followed by a line feed.
pub open spec fn printable_strings(s: Seq<u8>) -> Seq<u8>
    decreases s.len(),
{
    if s.len() == 0 {
        Seq::empty()
    } else {
        printable_strings(s.drop_last()) + released(run_start(s.drop_last()), s.last())
    }
}

/// Reads a stream of bytes and gives back its printable strings of four or more bytes,
/// separated by line feeds.
pub fn read(input: &[u8]) -> (output: Vec<u8>)
    ensures
        output@ == printable_strings(input@),
{
    let mut output: Vec<u8> = Vec::new();
    let mut trailing = Trailing::new();
    let mut i: usize = 0;
    proof {
        assert(trailing.held() =~= run_start(input@.take(0)));
    }
    while i < input.len()
        invariant
            i <= input.len(),
            trailing.well_formed(),
            trailing.held() == run_start(input@.take(i as int)),
            output@ == printable_strings(input@.take(i as int)),
        decreases input.len() - i,
    {
        proof {
            lemma_run_start_step(input@.take(i + 1));
            assert(input@.take(i + 1).drop_last() =~= input@.take(i as int));
        }
        scan(&mut trailing, input[i], &mut output);
        i += 1;
    }
    proof {
        assert(input@.take(input.len() as int) =~= input@);
    }
    output
}

/// The start of a run after one more byte is what a scanner holds after that byte.
pub proof fn lemma_run_start_step(s: Seq<u8>)
    requires
        s.len() > 0,
    ensures
        run_start(s) == held_after(run_start(s.drop_last()), s.last()),
{
    let before = s.drop_last();
    lemma_run_length_bound(before);
    assert(run_start(s) =~= held_after(run_start(before), s.last()));
}

/// A run is no longer than the sequence it ends.
proof fn lemma_run_length_bound(s: Seq<u8>)
    ensures
        run_length(s) <= s.len(),
    decreases s.len(),
{
    if s.len() > 0 && s.last().printable() {
        lemma_run_length_bound(s.drop_last());
    }
}

} // verus!
