//! Linux system calls on x86-64, as numbers: what goes into the registers, and what the number that
//! comes back means.
use vstd::prelude::*;

verus! {

pub const SYS_WRITE: usize = 1;

pub const SYS_CLOSE: usize = 3;

pub const SYS_FSTAT: usize = 5;

pub const SYS_MMAP: usize = 9;

pub const SYS_MUNMAP: usize = 11;

pub const SYS_OPENAT: usize = 257;

pub const O_RDONLY: i32 = 0;

pub const O_WRONLY: i32 = 1;

pub const O_CREAT: i32 = 0x40;

pub const O_TRUNC: i32 = 0x200;

pub const PROT_READ: i32 = 0x1;

pub const MAP_PRIVATE: i32 = 0x02;

/// In place of a directory: the working directory.
pub const AT_FDCWD: isize = -100;

/// The error number for a device that takes no more bytes.
pub const EIO: i32 = 5;

/// The number of a system call and its arguments, zero where it takes fewer than six.
#[derive(Debug, Clone, Copy, PartialEq, Eq)]
pub struct Syscall {
    pub number: usize,
    pub args: [usize; 6],
}

impl Syscall {
    /// The number and the arguments are these.
    pub open spec fn is(&self, number: usize, args: Seq<usize>) -> bool {
        self.number == number && self.args@ == args
    }
}

fn syscall(number: usize, a: usize, b: usize, c: usize, d: usize, e: usize, f: usize) -> (r: Syscall)
    ensures
        r.is(number, seq![a, b, c, d, e, f]),
{
    let r = Syscall { number, args: [a, b, c, d, e, f] };
    assert(r.args@ =~= seq![a, b, c, d, e, f]);
    r
}

/// What a system call returned: an error number, for results from -4095 to -1, or a value.
pub open spec fn returned(r: isize) -> Result<usize, i32> {
    if -4095 <= r < 0 {
        Err((-r) as i32)
    } else {
        Ok(r as usize)
    }
}

/// What a system call returned: an error number, for results from -4095 to -1, or a value.
pub fn errno(r: isize) -> (v: Result<usize, i32>)
    ensures
        v == returned(r),
{
    if r < 0 && r >= -4095 {
        Err((-r) as i32)
    } else {
        Ok(r as usize)
    }
}

/// Opens a file. `path` is the address of its name, ended by a zero byte.
pub fn open(path: usize, flags: i32, mode: u32) -> (r: Syscall)
    ensures
        r.is(SYS_OPENAT, seq![AT_FDCWD as usize, path, flags as usize, mode as usize, 0, 0]),
{
    syscall(SYS_OPENAT, AT_FDCWD as usize, path, flags as usize, mode as usize, 0, 0)
}

/// Closes a file.
pub fn close(fd: i32) -> (r: Syscall)
    ensures
        r.is(SYS_CLOSE, seq![fd as usize, 0, 0, 0, 0, 0]),
{
    syscall(SYS_CLOSE, fd as usize, 0, 0, 0, 0, 0)
}

/// Writes `len` bytes from the address `buf`.
pub fn write(fd: i32, buf: usize, len: usize) -> (r: Syscall)
    ensures
        r.is(SYS_WRITE, seq![fd as usize, buf, len, 0, 0, 0]),
{
    syscall(SYS_WRITE, fd as usize, buf, len, 0, 0, 0)
}

/// Asks for the status of a file, to be stored in 144 bytes at the address `stat`.
pub fn file_size(fd: i32, stat: usize) -> (r: Syscall)
    ensures
        r.is(SYS_FSTAT, seq![fd as usize, stat, 0, 0, 0, 0]),
{
    syscall(SYS_FSTAT, fd as usize, stat, 0, 0, 0, 0)
}

/// Maps `len` bytes of a file into memory, at an address that the system picks.
pub fn mmap(len: usize, prot: i32, flags: i32, fd: i32, offset: u64) -> (r: Syscall)
    ensures
        r.is(
            SYS_MMAP,
            seq![0, len, prot as usize, flags as usize, fd as usize, offset as usize],
        ),
{
    syscall(SYS_MMAP, 0, len, prot as usize, flags as usize, fd as usize, offset as usize)
}

/// Takes a mapping out of memory.
pub fn munmap(addr: usize, len: usize) -> (r: Syscall)
    ensures
        r.is(SYS_MUNMAP, seq![addr, len, 0, 0, 0, 0]),
{
    syscall(SYS_MUNMAP, addr, len, 0, 0, 0, 0)
}

/// Eight bytes as a number, low byte first.
pub open spec fn le64(s: Seq<u8>) -> int {
    s[0] + s[1] * 0x100 + s[2] * 0x1_0000 + s[3] * 0x100_0000 + s[4] * 0x1_0000_0000 + s[5]
        * 0x100_0000_0000 + s[6] * 0x1_0000_0000_0000 + s[7] * 0x100_0000_0000_0000
}

/// The size of a file, out of its status: the eight bytes from place 48 on.
pub fn stat_size(r: isize, stat: &[u8; 144]) -> (size: Result<u64, i32>)
    ensures
        size == match returned(r) {
            Err(e) => Err::<u64, i32>(e),
            Ok(_) => Ok::<u64, i32>(le64(stat@.subrange(48, 56)) as u64),
        },
        le64(stat@.subrange(48, 56)) <= u64::MAX,
{
    match errno(r) {
        Err(e) => Err(e),
        Ok(_) => {
            let v: u64 = stat[48] as u64 + stat[49] as u64 * 0x100 + stat[50] as u64 * 0x1_0000
                + stat[51] as u64 * 0x100_0000 + stat[52] as u64 * 0x1_0000_0000 + stat[53] as u64
                * 0x100_0000_0000 + stat[54] as u64 * 0x1_0000_0000_0000 + stat[55] as u64
                * 0x100_0000_0000_0000;
            assert(v == le64(stat@.subrange(48, 56)));
            Ok(v)
        },
    }
}

/// The address of a new mapping, or the error number: no mapping has a negative address.
pub fn mapped(r: isize) -> (addr: Result<usize, i32>)
    requires
        r != isize::MIN,
    ensures
        addr == if r < 0 {
            Err::<usize, i32>((-r) as i32)
        } else {
            Ok::<usize, i32>(r as usize)
        },
{
    if r < 0 {
        return Err(#[verifier::truncate] ((-r) as i32));
    }
    errno(r)
}

/// What to do next in order to write a whole buffer.
#[derive(Debug, Clone, Copy, PartialEq, Eq)]
pub enum WriteStep {
    /// Write what is left, from this place on.
    Write(usize),
    /// Nothing more: all is written, or this error came up.
    Done(Result<(), i32>),
}

/// How writing `len` bytes begins.
pub open spec fn write_first(len: int) -> WriteStep {
    if len == 0 {
        WriteStep::Done(Ok(()))
    } else {
        WriteStep::Write(0)
    }
}

/// How writing `len` bytes goes on when `from` bytes were written and the next write returned
/// `reply`. A write that takes nothing is an error.
pub open spec fn write_next(len: int, from: int, reply: Result<usize, i32>) -> WriteStep {
    match reply {
        Err(e) => WriteStep::Done(Err(e)),
        Ok(n) => if n == 0 {
            WriteStep::Done(Err(EIO))
        } else if from + n == len {
            WriteStep::Done(Ok(()))
        } else {
            WriteStep::Write((from + n) as usize)
        },
    }
}

/// How writing `len` bytes begins.
pub fn write_all_start(len: usize) -> (s: WriteStep)
    ensures
        s == write_first(len as int),
{
    if len == 0 {
        WriteStep::Done(Ok(()))
    } else {
        WriteStep::Write(0)
    }
}

/// How writing `len` bytes goes on when `from` bytes were written and the next write returned
/// `reply`.
pub fn write_all(len: usize, from: usize, reply: Result<usize, i32>) -> (s: WriteStep)
    requires
        from < len,
        reply matches Ok(n) ==> n <= len - from,
    ensures
        s == write_next(len as int, from as int, reply),
{
    match reply {
        Err(e) => WriteStep::Done(Err(e)),
        Ok(n) => if n == 0 {
            WriteStep::Done(Err(EIO))
        } else if from + n == len {
            WriteStep::Done(Ok(()))
        } else {
            WriteStep::Write(from + n)
        },
    }
}

/// Where writing stands after some replies.
pub open spec fn write_run(len: int, replies: Seq<Result<usize, i32>>) -> WriteStep
    decreases replies.len(),
{
    if replies.len() == 0 {
        write_first(len)
    } else {
        match write_run(len, replies.drop_last()) {
            WriteStep::Write(from) => write_next(len, from as int, replies.last()),
            WriteStep::Done(r) => WriteStep::Done(r),
        }
    }
}

/// How many bytes the replies say were taken.
pub open spec fn taken(replies: Seq<Result<usize, i32>>) -> int
    decreases replies.len(),
{
    if replies.len() == 0 {
        0
    } else {
        taken(replies.drop_last()) + match replies.last() {
            Ok(n) => n as int,
            Err(_) => 0,
        }
    }
}

/// No reply claims more than was left to write.
pub open spec fn honest(len: int, replies: Seq<Result<usize, i32>>) -> bool {
    forall|k: int|
        0 <= k <= replies.len() ==> taken(#[trigger] replies.take(k)) <= len
}

/// The error that a reply ends the writing with, if it does.
pub open spec fn failure(reply: Result<usize, i32>) -> Option<i32> {
    match reply {
        Err(e) => Some(e),
        Ok(n) => if n == 0 {
            Some(EIO)
        } else {
            None
        },
    }
}

/// Writing goes on right behind what was taken, and ends well only when all was taken. It ends with
/// an error only at a reply that stands for that error, while something was left.
pub proof fn law_write_all(len: usize, replies: Seq<Result<usize, i32>>)
    requires
        honest(len as int, replies),
    ensures
        match write_run(len as int, replies) {
            WriteStep::Write(from) => from == taken(replies) && from < len,
            WriteStep::Done(Ok(_)) => taken(replies) == len,
            WriteStep::Done(Err(e)) => exists|k: int|
                {
                    &&& 0 <= k < replies.len()
                    &&& write_run(len as int, #[trigger] replies.take(k)) is Write
                    &&& failure(replies[k]) == Some(e)
                    &&& taken(replies.take(k + 1)) < len
                },
        },
        replies.len() > 0 && write_run(len as int, replies.drop_last()) is Write ==> match write_run(
            len as int,
            replies,
        ) {
            WriteStep::Write(_) => failure(replies.last()) is None && taken(replies) < len,
            WriteStep::Done(Ok(_)) => failure(replies.last()) is None && taken(replies) == len,
            WriteStep::Done(Err(e)) => failure(replies.last()) == Some(e) && taken(replies) < len,
        },
    decreases replies.len(),
{
    assert(replies.take(replies.len() as int) =~= replies);
    assert(taken(replies.take(replies.len() as int)) <= len);
    if replies.len() > 0 {
        let before = replies.drop_last();
        assert forall|k: int| 0 <= k <= before.len() implies taken(#[trigger] before.take(k))
            <= len by {
            assert(before.take(k) =~= replies.take(k));
        }
        lemma_taken_nonneg(before);
        law_write_all(len, before);
        let last = replies.len() - 1;
        assert(replies.take(last) =~= before);
        if let WriteStep::Done(Err(e)) = write_run(len as int, replies) {
            if write_run(len as int, before) is Write {
                assert(failure(replies[last]) == Some(e));
                assert(write_run(len as int, replies.take(last)) is Write);
            } else {
                let k = choose|k: int|
                    {
                        &&& 0 <= k < before.len()
                        &&& write_run(len as int, #[trigger] before.take(k)) is Write
                        &&& failure(before[k]) == Some(e)
                        &&& taken(before.take(k + 1)) < len
                    };
                assert(before.take(k) =~= replies.take(k));
                assert(before.take(k + 1) =~= replies.take(k + 1));
                assert(before[k] == replies[k]);
                assert(write_run(len as int, replies.take(k)) is Write);
            }
        }
    }
}

proof fn lemma_taken_nonneg(replies: Seq<Result<usize, i32>>)
    ensures
        0 <= taken(replies),
    decreases replies.len(),
{
    if replies.len() > 0 {
        lemma_taken_nonneg(replies.drop_last());
    }
}

} // verus!
