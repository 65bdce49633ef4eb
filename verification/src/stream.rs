//! A byte source held in memory.
//!
//! A source is read one byte at a time. Each read delivers a byte or fails;
//! a failed read delivers nothing and the next read goes on behind it. When
//! the reads run out the source has ended, for good.

use vstd::prelude::*;

verus! {

/// The outcome of one read from a byte source.
#[derive(Clone, Copy, Debug, PartialEq, Eq, Structural)]
pub enum ByteRead {
    /// The read delivered this byte.
    Byte(u8),
    /// The transport failed on this read and delivered nothing.
    Failed,
}

/// The bytes that `reads` deliver, in order: the failed reads leave no trace.
pub open spec fn delivered(reads: Seq<ByteRead>) -> Seq<u8>
    decreases reads.len(),
{
    if reads.len() == 0 {
        Seq::empty()
    } else {
        match reads[0] {
            ByteRead::Byte(byte) => seq![byte] + delivered(reads.drop_first()),
            ByteRead::Failed => delivered(reads.drop_first()),
        }
    }
}

/// The number of reads it takes to get `count` bytes out of `reads`: all
/// reads up to the one that delivers the last of these bytes, or every read
/// when `reads` deliver fewer.
pub open spec fn reads_for(reads: Seq<ByteRead>, count: nat) -> nat
    decreases reads.len(),
{
    if count == 0 || reads.len() == 0 {
        0
    } else if reads[0] is Byte {
        1 + reads_for(reads.drop_first(), (count - 1) as nat)
    } else {
        1 + reads_for(reads.drop_first(), count)
    }
}

/// The reads that are left of `reads` once `count` bytes were asked of them.
pub open spec fn reads_after(reads: Seq<ByteRead>, count: nat) -> Seq<ByteRead> {
    reads.skip(reads_for(reads, count) as int)
}

/// Getting `count` bytes uses up no more reads than there are, at least one
/// if any byte is asked for, and leaves the bytes behind the first `count`.
pub proof fn lemma_reads_for(reads: Seq<ByteRead>, count: nat)
    ensures
        reads_for(reads, count) <= reads.len(),
        count > 0 && reads.len() > 0 ==> reads_for(reads, count) > 0,
        count <= delivered(reads).len() ==> delivered(reads_after(reads, count)) == delivered(
            reads,
        ).skip(count as int),
        count > delivered(reads).len() ==> reads_for(reads, count) == reads.len(),
    decreases reads.len(),
{
    if count == 0 || reads.len() == 0 {
        assert(reads.skip(0) == reads);
        assert(delivered(reads).skip(0) == delivered(reads));
    } else {
        let rest = reads.drop_first();
        let left: nat = if reads[0] is Byte {
            (count - 1) as nat
        } else {
            count
        };
        lemma_reads_for(rest, left);
        assert(reads_after(reads, count) == reads_after(rest, left));
        if reads[0] is Byte && count <= delivered(reads).len() {
            assert(delivered(reads).skip(count as int) == delivered(rest).skip(left as int));
        }
    }
}

/// Bytes may be asked for in two turns: the second turn starts on the reads
/// that the first one left.
pub proof fn lemma_reads_for_add(reads: Seq<ByteRead>, first: nat, second: nat)
    ensures
        reads_for(reads, first + second) == reads_for(reads, first) + reads_for(
            reads_after(reads, first),
            second,
        ),
        reads_after(reads, first + second) == reads_after(reads_after(reads, first), second),
    decreases reads.len(),
{
    lemma_reads_for(reads, first);
    lemma_reads_for(reads_after(reads, first), second);
    if first == 0 || reads.len() == 0 {
        assert(reads.skip(0) == reads);
    } else {
        let rest = reads.drop_first();
        let left: nat = if reads[0] is Byte {
            (first - 1) as nat
        } else {
            first
        };
        lemma_reads_for_add(rest, left, second);
        assert(reads_after(reads, first) == reads_after(rest, left));
    }
    assert(reads_after(reads, first + second) == reads_after(reads_after(reads, first), second));
}

/// Reads that all deliver their byte deliver just these bytes.
pub proof fn lemma_delivered_bytes(bytes: Seq<u8>)
    ensures
        delivered(bytes.map_values(|byte: u8| ByteRead::Byte(byte))) == bytes,
    decreases bytes.len(),
{
    let reads = bytes.map_values(|byte: u8| ByteRead::Byte(byte));
    if bytes.len() > 0 {
        lemma_delivered_bytes(bytes.drop_first());
        assert(reads.drop_first() == bytes.drop_first().map_values(
            |byte: u8| ByteRead::Byte(byte),
        ));
    }
}

/// What two runs of reads deliver one after the other is what the first
/// delivers, then what the second delivers.
pub proof fn lemma_delivered_add(first: Seq<ByteRead>, second: Seq<ByteRead>)
    ensures
        delivered(first + second) == delivered(first) + delivered(second),
    decreases first.len(),
{
    if first.len() == 0 {
        assert(first + second == second);
    } else {
        lemma_delivered_add(first.drop_first(), second);
        assert((first + second).drop_first() == first.drop_first() + second);
    }
}

/// A finite byte source: a fixed run of reads and a cursor that only moves
/// forward.
pub struct ByteStream {
    reads: Vec<ByteRead>,
    pos: usize,
}

impl View for ByteStream {
    type V = Seq<ByteRead>;

    /// The reads that have not been made yet.
    closed spec fn view(&self) -> Seq<ByteRead> {
        self.reads@.skip(self.pos as int)
    }
}

impl ByteStream {
    #[verifier::type_invariant]
    spec fn cursor_in_range(self) -> bool {
        self.pos <= self.reads.len()
    }

    /// The bytes that the source has yet to deliver.
    pub open spec fn bytes(self) -> Seq<u8> {
        delivered(self@)
    }

    /// The reads that will be left once `count` more bytes were asked for.
    pub open spec fn after(self, count: nat) -> Seq<ByteRead> {
        reads_after(self@, count)
    }

    /// A source that makes the given reads and then ends.
    pub fn new(reads: Vec<ByteRead>) -> (stream: ByteStream)
        ensures
            stream@ == reads@,
    {
        ByteStream { reads, pos: 0 }
    }

    /// A source that delivers the given bytes without a failure and then
    /// ends.
    pub fn from_bytes(bytes: &[u8]) -> (stream: ByteStream)
        ensures
            stream@ == bytes@.map_values(|byte: u8| ByteRead::Byte(byte)),
            stream.bytes() == bytes@,
    {
        let mut reads: Vec<ByteRead> = Vec::new();
        let mut i: usize = 0;
        while i < bytes.len()
            invariant
                i <= bytes.len(),
                reads@ == bytes@.take(i as int).map_values(|byte: u8| ByteRead::Byte(byte)),
            decreases bytes.len() - i,
        {
            reads.push(ByteRead::Byte(bytes[i]));
            i = i + 1;
        }
        proof {
            assert(bytes@.take(i as int) == bytes@);
            lemma_delivered_bytes(bytes@);
        }
        ByteStream::new(reads)
    }

    /// Makes the next read. `None` means that the source has ended.
    pub fn read_next_byte(&mut self) -> (read: Option<ByteRead>)
        ensures
            read == if old(self)@.len() > 0 {
                Some(old(self)@[0])
            } else {
                None
            },
            final(self)@ == if old(self)@.len() > 0 {
                old(self)@.drop_first()
            } else {
                old(self)@
            },
    {
        proof {
            use_type_invariant(&*self);
        }
        if self.pos < self.reads.len() {
            let read = self.reads[self.pos];
            self.pos = self.pos + 1;
            Some(read)
        } else {
            None
        }
    }

    /// Reads on until a byte is delivered, passing over the failed reads.
    /// `None` means that the source ended first.
    pub fn next_byte(&mut self) -> (byte: Option<u8>)
        ensures
            byte == if old(self).bytes().len() > 0 {
                Some(old(self).bytes()[0])
            } else {
                None
            },
            final(self)@ == old(self).after(1),
            byte is Some ==> final(self).bytes() == old(self).bytes().drop_first(),
            byte is Some ==> final(self)@.len() < old(self)@.len(),
            byte is None ==> final(self)@.len() == 0,
    {
        let ghost mut passed: nat = 0;
        loop
            invariant
                passed <= old(self)@.len(),
                self@ == old(self)@.skip(passed as int),
                reads_for(old(self)@, 1) == passed + reads_for(self@, 1),
                delivered(old(self)@) == delivered(self@),
            decreases self@.len(),
        {
            let ghost before = self@;
            match self.read_next_byte() {
                None => {
                    return None;
                },
                Some(ByteRead::Byte(byte)) => {
                    proof {
                        assert(reads_for(before.drop_first(), 0) == 0);
                    }
                    return Some(byte);
                },
                Some(ByteRead::Failed) => {
                    proof {
                        passed = passed + 1;
                    }
                },
            }
        }
    }
}

} // verus!
