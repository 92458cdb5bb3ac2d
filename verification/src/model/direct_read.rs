use vstd::prelude::*;

use crate::model::loader::{LoadError, DIRECT_CHUNK};

verus! {

/// Which reads of a file are left.
#[derive(Debug, Clone, Copy, PartialEq, Eq, Structural)]
pub enum ReadPhase {
    /// Full chunks, unbuffered.
    Bulk,
    /// What is left of the aligned part, unbuffered.
    Rest,
    /// The bytes behind the aligned part, buffered.
    Tail,
    /// None.
    End,
}

/// What to read next.
#[derive(Debug, Clone, Copy, PartialEq, Eq, Structural)]
pub enum ReadStep {
    /// Read `len` bytes at `offset` of the file to `offset` of the buffer.
    /// `direct` says whether the read bypasses the page cache.
    Read { offset: usize, len: usize, direct: bool },
    /// Nothing.
    Finished,
}

/// A file that is read whole, bypassing the page cache as far as the
/// alignment of such reads allows.
#[derive(Debug, Clone, Copy, PartialEq, Eq, Structural)]
pub struct DirectRead {
    pub file_len: usize,
    pub align: usize,
    /// Bytes read so far.
    pub written: usize,
    pub phase: ReadPhase,
}

/// The part of a file that aligned reads can reach.
pub open spec fn aligned_part(file_len: int, align: int) -> int {
    file_len / align * align
}

impl DirectRead {
    pub open spec fn wf(&self) -> bool {
        &&& self.align > 0
        &&& self.phase != ReadPhase::End ==> self.written <= aligned_part(
            self.file_len as int,
            self.align as int,
        )
        &&& self.written <= self.file_len
    }

    /// What is to be read next, with the phase that the read belongs to. Full
    /// chunks are read while they fit into the aligned part; then the rest of
    /// the aligned part in one read; then the tail in one read.
    pub open spec fn next_step(&self) -> (ReadPhase, ReadStep) {
        let aligned = aligned_part(self.file_len as int, self.align as int);
        if self.phase is Bulk && self.written + DIRECT_CHUNK <= aligned {
            (
                ReadPhase::Bulk,
                ReadStep::Read { offset: self.written, len: DIRECT_CHUNK, direct: true },
            )
        } else if (self.phase is Bulk || self.phase is Rest) && self.written < aligned {
            (
                ReadPhase::Rest,
                ReadStep::Read {
                    offset: self.written,
                    len: (aligned - self.written) as usize,
                    direct: true,
                },
            )
        } else if !(self.phase is End) && self.file_len > aligned {
            (
                ReadPhase::Tail,
                ReadStep::Read {
                    offset: self.written,
                    len: (self.file_len - aligned) as usize,
                    direct: false,
                },
            )
        } else {
            (ReadPhase::End, ReadStep::Finished)
        }
    }

    /// The bytes that the next read asks for.
    pub open spec fn asked(&self) -> int {
        match self.next_step().1 {
            ReadStep::Read { len, .. } => len as int,
            ReadStep::Finished => 0,
        }
    }

    /// After the next read gave `n` bytes. A chunk that gave none ends the
    /// reading of chunks.
    pub open spec fn after(&self, n: usize) -> Self {
        DirectRead {
            written: (self.written + n) as usize,
            phase: match self.next_step().0 {
                ReadPhase::Bulk => if n == 0 {
                    ReadPhase::Rest
                } else {
                    ReadPhase::Bulk
                },
                ReadPhase::Rest => ReadPhase::Tail,
                ReadPhase::Tail => ReadPhase::End,
                ReadPhase::End => ReadPhase::End,
            },
            ..*self
        }
    }

    /// Begin to read a file of the given length.
    pub fn new(file_len: usize, align: usize) -> (r: Self)
        requires
            align > 0,
        ensures
            r.wf(),
            r == (DirectRead { file_len, align, written: 0, phase: ReadPhase::Bulk }),
    {
        proof {
            lemma_aligned_part(file_len as int, align as int);
        }
        DirectRead { file_len, align, written: 0, phase: ReadPhase::Bulk }
    }

    /// Size of the buffer that takes the file: its length, rounded up to the
    /// alignment.
    pub open spec fn spec_buffer_len(&self) -> int {
        (self.file_len + self.align - 1) / (self.align as int) * self.align
    }

    /// Size of the buffer that takes the file.
    pub fn buffer_len(&self) -> (r: usize)
        requires
            self.align > 0,
            self.file_len + self.align <= usize::MAX,
        ensures
            r == self.spec_buffer_len(),
            r >= self.file_len,
    {
        proof {
            lemma_aligned_part(self.file_len + self.align - 1, self.align as int);
        }
        (self.file_len + (self.align - 1)) / self.align * self.align
    }

    /// What to read next.
    pub fn next(&self) -> (r: ReadStep)
        requires
            self.wf(),
        ensures
            r == self.next_step().1,
            r matches ReadStep::Read { offset, len, .. } ==> offset == self.written && offset + len
                <= self.file_len,
    {
        self.step().1
    }

    /// What to read next, with the phase that the read belongs to.
    fn step(&self) -> (r: (ReadPhase, ReadStep))
        requires
            self.wf(),
        ensures
            r == self.next_step(),
            r.1 matches ReadStep::Read { offset, len, .. } ==> offset == self.written && offset
                + len <= self.file_len,
    {
        proof {
            lemma_aligned_part(self.file_len as int, self.align as int);
        }
        let aligned: usize = self.file_len / self.align * self.align;
        match self.phase {
            ReadPhase::Bulk => {
                if aligned - self.written >= DIRECT_CHUNK {
                    return (
                        ReadPhase::Bulk,
                        ReadStep::Read { offset: self.written, len: DIRECT_CHUNK, direct: true },
                    );
                }
                if self.written < aligned {
                    return (
                        ReadPhase::Rest,
                        ReadStep::Read {
                            offset: self.written,
                            len: aligned - self.written,
                            direct: true,
                        },
                    );
                }
            },
            ReadPhase::Rest => {
                if self.written < aligned {
                    return (
                        ReadPhase::Rest,
                        ReadStep::Read {
                            offset: self.written,
                            len: aligned - self.written,
                            direct: true,
                        },
                    );
                }
            },
            ReadPhase::Tail => {},
            ReadPhase::End => {
                return (ReadPhase::End, ReadStep::Finished);
            },
        }
        if self.file_len > aligned {
            (
                ReadPhase::Tail,
                ReadStep::Read {
                    offset: self.written,
                    len: self.file_len - aligned,
                    direct: false,
                },
            )
        } else {
            (ReadPhase::End, ReadStep::Finished)
        }
    }

    /// The next read gave `n` bytes.
    pub fn advance(&mut self, n: usize)
        requires
            old(self).wf(),
            n <= old(self).asked(),
        ensures
            final(self).wf(),
            *final(self) == old(self).after(n),
    {
        proof {
            lemma_aligned_part(self.file_len as int, self.align as int);
        }
        let (phase, _) = self.step();
        self.written = self.written + n;
        self.phase = match phase {
            ReadPhase::Bulk => if n == 0 {
                ReadPhase::Rest
            } else {
                ReadPhase::Bulk
            },
            ReadPhase::Rest => ReadPhase::Tail,
            ReadPhase::Tail => ReadPhase::End,
            ReadPhase::End => ReadPhase::End,
        };
    }

    /// Whether the whole file was read.
    pub fn finish(&self) -> (r: Result<(), LoadError>)
        ensures
            r is Ok <==> self.written == self.file_len,
            r matches Err(e) ==> e == (LoadError::Incomplete {
                got: self.written,
                expected: self.file_len,
            }),
    {
        if self.written != self.file_len {
            Err(LoadError::Incomplete { got: self.written, expected: self.file_len })
        } else {
            Ok(())
        }
    }

    /// What is left to be read when each read gives all that it asks for.
    pub open spec fn run_full(&self, fuel: nat) -> Self
        decreases fuel,
    {
        if fuel == 0 || self.next_step().1 is Finished {
            *self
        } else {
            self.after(self.asked() as usize).run_full((fuel - 1) as nat)
        }
    }

    /// If each read gives all that it asks for, the whole file is read.
    pub proof fn law_full_reads_finish(&self, fuel: nat)
        requires
            self.wf(),
            self.phase is Bulk,
            fuel >= self.file_len - self.written + 3,
        ensures
            self.run_full(fuel).written == self.file_len,
            self.run_full(fuel).next_step().1 is Finished,
        decreases fuel,
    {
        lemma_aligned_part(self.file_len as int, self.align as int);
        if self.written + DIRECT_CHUNK <= aligned_part(self.file_len as int, self.align as int) {
            self.after(self.asked() as usize).law_full_reads_finish((fuel - 1) as nat);
        } else {
            reveal_with_fuel(DirectRead::run_full, 4);
        }
    }

    /// After reads that gave so many bytes each.
    pub open spec fn run(&self, given: Seq<usize>) -> Self
        decreases given.len(),
    {
        if given.len() == 0 {
            *self
        } else {
            self.run(given.drop_last()).after(given.last())
        }
    }

    /// No read gave more than it was asked for.
    pub open spec fn run_ok(&self, given: Seq<usize>) -> bool
        decreases given.len(),
    {
        given.len() > 0 ==> self.run_ok(given.drop_last()) && given.last() <= self.run(
            given.drop_last(),
        ).asked()
    }

    /// What the buffer holds after these reads of `file`: each put its bytes
    /// where it was told to.
    pub open spec fn buffer_after(
        &self,
        buffer: spec_fn(int) -> u8,
        file: spec_fn(int) -> u8,
        given: Seq<usize>,
    ) -> spec_fn(int) -> u8
        decreases given.len(),
    {
        if given.len() == 0 {
            buffer
        } else {
            let before = self.buffer_after(buffer, file, given.drop_last());
            let at = self.run(given.drop_last()).written;
            |a: int|
                if at <= a < at + given.last() {
                    file(a)
                } else {
                    before(a)
                }
        }
    }

    /// A read keeps what is known of the reading.
    proof fn lemma_after_wf(&self, n: usize)
        requires
            self.wf(),
            n <= self.asked(),
        ensures
            self.after(n).wf(),
            self.after(n).written == self.written + n,
            self.after(n).file_len == self.file_len,
    {
        lemma_aligned_part(self.file_len as int, self.align as int);
    }

    /// However many bytes each read gives, the buffer holds the file as far as
    /// it was read, without a gap. Reading that counts as finished has read
    /// all of it.
    pub proof fn law_reads_leave_no_gap(
        &self,
        buffer: spec_fn(int) -> u8,
        file: spec_fn(int) -> u8,
        given: Seq<usize>,
    )
        requires
            self.wf(),
            self.written == 0,
            self.run_ok(given),
        ensures
            self.run(given).wf(),
            self.run(given).file_len == self.file_len,
            forall|a: int|
                0 <= a < self.run(given).written ==> #[trigger] self.buffer_after(
                    buffer,
                    file,
                    given,
                )(a) == file(a),
            self.run(given).written == self.file_len ==> forall|a: int|
                0 <= a < self.file_len ==> #[trigger] self.buffer_after(buffer, file, given)(a)
                    == file(a),
        decreases given.len(),
    {
        if given.len() > 0 {
            let rest = given.drop_last();
            self.law_reads_leave_no_gap(buffer, file, rest);
            self.run(rest).lemma_after_wf(given.last());
            assert forall|a: int| 0 <= a < self.run(given).written implies #[trigger] self.buffer_after(
                buffer,
                file,
                given,
            )(a) == file(a) by {
                if a < self.run(rest).written {
                    assert(self.buffer_after(buffer, file, rest)(a) == file(a));
                }
            }
        }
    }

    /// No read reaches behind the buffer, and reads follow each other without
    /// gap.
    pub proof fn law_reads_stay_in_buffer(&self)
        requires
            self.wf(),
        ensures
            self.next_step().1 matches ReadStep::Read { offset, len, .. } ==> {
                &&& offset == self.written
                &&& offset + len <= self.file_len <= self.spec_buffer_len()
            },
    {
        lemma_aligned_part(self.file_len as int, self.align as int);
        lemma_aligned_part(self.file_len + self.align - 1, self.align as int);
    }
}

/// The aligned part is the largest multiple of the alignment within a length.
proof fn lemma_aligned_part(n: int, a: int)
    requires
        n >= 0,
        a > 0,
    ensures
        0 <= aligned_part(n, a) <= n,
        n < aligned_part(n, a) + a,
{
    vstd::arithmetic::div_mod::lemma_fundamental_div_mod(n, a);
    vstd::arithmetic::div_mod::lemma_mod_bound(n, a);
    assert(n / a * a == a * (n / a)) by (nonlinear_arith);
    assert(n / a >= 0) by (nonlinear_arith)
        requires
            n >= 0,
            a > 0,
    ;
    assert(n / a * a >= 0) by (nonlinear_arith)
        requires
            n / a >= 0,
            a > 0,
    ;
}

} // verus!
