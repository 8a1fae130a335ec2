//! Reading and writing JPEG files, one system call at a time.
//!
//! What has to be done is a value; whoever does it hands the result to a function that says what
//! comes next.
use vstd::prelude::*;

use crate::image::{Image, Picture};
use crate::jpg::decode;
use crate::jpg::encode;
use crate::jpg::error::Error;
use crate::jpg::extension;
use crate::jpg::round_trip;
use crate::platform;
use crate::platform::{Syscall, WriteStep};

verus! {

/// A file in memory: where it lies and how long it is.
#[derive(Debug, Clone, Copy, PartialEq, Eq)]
pub struct MappedFile {
    pub ptr: usize,
    pub len: usize,
}

/// A path with a zero byte at its end.
pub fn to_cstring(path: &str) -> (r: Vec<u8>)
    ensures
        r@ == vstd::utf8::encode_utf8(path@).push(0),
{
    let b = path.as_bytes();
    let mut v: Vec<u8> = Vec::new();
    let mut i: usize = 0;
    while i < b.len()
        invariant
            i <= b@.len(),
            v@ == b@.take(i as int),
        decreases b@.len() - i,
    {
        v.push(b[i]);
        i += 1;
        assert(v@ =~= b@.take(i as int));
    }
    assert(b@.take(i as int) =~= b@);
    v.push(0);
    v
}

/// What to do next in order to map a file.
pub enum MapStep {
    /// Open the file with this name, for reading.
    Open { path: Vec<u8> },
    /// Ask for its size.
    Stat { fd: i32 },
    /// Map so many bytes of it.
    MapFile { fd: i32, len: usize },
    /// Close it; the outcome is settled.
    Close { fd: i32, outcome: Result<MappedFile, Error> },
    /// Nothing more.
    Done(Result<MappedFile, Error>),
}

/// What comes after a step that returned `reply`.
pub open spec fn map_next(step: MapStep, reply: Result<usize, i32>) -> MapStep {
    match step {
        MapStep::Open { path } => match reply {
            Err(e) => MapStep::Done(Err(Error::Open(e))),
            Ok(v) => MapStep::Stat { fd: v as i32 },
        },
        MapStep::Stat { fd } => match reply {
            Err(e) => MapStep::Close { fd, outcome: Err(Error::Stat(e)) },
            Ok(len) => if len == 0 {
                MapStep::Close { fd, outcome: Err(Error::Empty) }
            } else {
                MapStep::MapFile { fd, len }
            },
        },
        MapStep::MapFile { fd, len } => match reply {
            Err(e) => MapStep::Close { fd, outcome: Err(Error::Mapping(e)) },
            Ok(ptr) => MapStep::Close { fd, outcome: Ok(MappedFile { ptr, len }) },
        },
        MapStep::Close { fd, outcome } => MapStep::Done(outcome),
        MapStep::Done(outcome) => MapStep::Done(outcome),
    }
}

/// How mapping a file begins.
pub fn mmap_start(path: &str) -> (s: MapStep)
    ensures
        s matches MapStep::Open { path: name } && name@ == vstd::utf8::encode_utf8(path@).push(0),
{
    MapStep::Open { path: to_cstring(path) }
}

/// What comes after a step that returned `reply`.
pub fn mmap(step: MapStep, reply: Result<usize, i32>) -> (s: MapStep)
    ensures
        s == map_next(step, reply),
{
    match step {
        MapStep::Open { path } => match reply {
            Err(e) => MapStep::Done(Err(Error::Open(e))),
            Ok(v) => MapStep::Stat { fd: #[verifier::truncate] (v as i32) },
        },
        MapStep::Stat { fd } => match reply {
            Err(e) => MapStep::Close { fd, outcome: Err(Error::Stat(e)) },
            Ok(len) => if len == 0 {
                MapStep::Close { fd, outcome: Err(Error::Empty) }
            } else {
                MapStep::MapFile { fd, len }
            },
        },
        MapStep::MapFile { fd, len } => match reply {
            Err(e) => MapStep::Close { fd, outcome: Err(Error::Mapping(e)) },
            Ok(ptr) => MapStep::Close { fd, outcome: Ok(MappedFile { ptr, len }) },
        },
        MapStep::Close { fd, outcome } => MapStep::Done(outcome),
        MapStep::Done(outcome) => MapStep::Done(outcome),
    }
}

/// The system call of a step. `buf` is the address of the name of the file to open, or of the 144
/// bytes that take its status.
pub fn map_request(step: &MapStep, buf: usize) -> (r: Option<Syscall>)
    ensures
        match step {
            MapStep::Open { path } => r matches Some(c) && c.is(
                platform::SYS_OPENAT,
                seq![
                    platform::AT_FDCWD as usize,
                    buf,
                    platform::O_RDONLY as usize,
                    0,
                    0,
                    0,
                ],
            ),
            MapStep::Stat { fd } => r matches Some(c) && c.is(
                platform::SYS_FSTAT,
                seq![*fd as usize, buf, 0, 0, 0, 0],
            ),
            MapStep::MapFile { fd, len } => r matches Some(c) && c.is(
                platform::SYS_MMAP,
                seq![
                    0,
                    *len,
                    platform::PROT_READ as usize,
                    platform::MAP_PRIVATE as usize,
                    *fd as usize,
                    0,
                ],
            ),
            MapStep::Close { fd, outcome } => r matches Some(c) && c.is(
                platform::SYS_CLOSE,
                seq![*fd as usize, 0, 0, 0, 0, 0],
            ),
            MapStep::Done(_) => r is None,
        },
{
    match step {
        MapStep::Open { path } => Some(platform::open(buf, platform::O_RDONLY, 0)),
        MapStep::Stat { fd } => Some(platform::file_size(*fd, buf)),
        MapStep::MapFile { fd, len } => Some(
            platform::mmap(*len, platform::PROT_READ, platform::MAP_PRIVATE, *fd, 0),
        ),
        MapStep::Close { fd, outcome } => Some(platform::close(*fd)),
        MapStep::Done(_) => None,
    }
}

/// What the number that the system call of a step returned means. `stat` holds the status that
/// the step asked for.
pub fn map_returned(step: &MapStep, r: isize, stat: &[u8; 144]) -> (reply: Result<usize, i32>)
    requires
        step is MapFile ==> r != isize::MIN,
    ensures
        match step {
            MapStep::Stat { fd } => reply == match platform::returned(r) {
                Err(e) => Err::<usize, i32>(e),
                Ok(_) => Ok::<usize, i32>(platform::le64(stat@.subrange(48, 56)) as usize),
            },
            MapStep::MapFile { fd, len } => reply == if r < 0 {
                Err::<usize, i32>((-r) as i32)
            } else {
                Ok::<usize, i32>(r as usize)
            },
            _ => reply == platform::returned(r),
        },
{
    match step {
        MapStep::Stat { fd } => match platform::stat_size(r, stat) {
            Err(e) => Err(e),
            Ok(size) => Ok(#[verifier::truncate] (size as usize)),
        },
        MapStep::MapFile { fd, len } => platform::mapped(r),
        _ => platform::errno(r),
    }
}

/// The file that a step holds open.
pub open spec fn map_holds(step: MapStep) -> Option<i32> {
    match step {
        MapStep::Stat { fd } => Some(fd),
        MapStep::MapFile { fd, len } => Some(fd),
        MapStep::Close { fd, outcome } => Some(fd),
        _ => None,
    }
}

/// A file that was opened to be mapped stays open until it is closed, whatever is returned, and
/// what was settled by then is the outcome.
pub proof fn law_map_closes(step: MapStep, reply: Result<usize, i32>)
    ensures
        match step {
            MapStep::Close { fd, outcome } => map_next(step, reply) == MapStep::Done(outcome),
            MapStep::Open { path } => match reply {
                Ok(v) => map_holds(map_next(step, reply)) == Some(v as i32),
                Err(e) => map_next(step, reply) == MapStep::Done(Err(Error::Open(e))),
            },
            MapStep::Done(_) => map_next(step, reply) == step,
            _ => map_holds(map_next(step, reply)) == map_holds(step),
        },
{
}

/// The whole of mapping a file: the outcome, given what opening, asking for the size and mapping
/// return.
pub open spec fn map_outcome(
    opened: Result<usize, i32>,
    size: Result<usize, i32>,
    address: Result<usize, i32>,
) -> Result<MappedFile, Error> {
    match (opened, size, address) {
        (Err(e), _, _) => Err(Error::Open(e)),
        (Ok(_), Err(e), _) => Err(Error::Stat(e)),
        (Ok(_), Ok(len), Err(e)) => if len == 0 {
            Err(Error::Empty)
        } else {
            Err(Error::Mapping(e))
        },
        (Ok(_), Ok(len), Ok(ptr)) => if len == 0 {
            Err(Error::Empty)
        } else {
            Ok(MappedFile { ptr, len })
        },
    }
}

/// The reply that a step gets.
pub open spec fn map_reply(
    step: MapStep,
    opened: Result<usize, i32>,
    size: Result<usize, i32>,
    address: Result<usize, i32>,
    closed: Result<usize, i32>,
) -> Result<usize, i32> {
    match step {
        MapStep::Open { path } => opened,
        MapStep::Stat { fd } => size,
        MapStep::MapFile { fd, len } => address,
        _ => closed,
    }
}

/// The step reached after `n` replies.
pub open spec fn map_run(
    step: MapStep,
    opened: Result<usize, i32>,
    size: Result<usize, i32>,
    address: Result<usize, i32>,
    closed: Result<usize, i32>,
    n: int,
) -> MapStep
    decreases n,
{
    if n <= 0 {
        step
    } else {
        map_run(
            map_next(step, map_reply(step, opened, size, address, closed)),
            opened,
            size,
            address,
            closed,
            n - 1,
        )
    }
}

/// Mapping a file takes at most four system calls, and gives the mapping or the first error; an
/// error in closing does not count.
pub proof fn law_map_run(
    path: Vec<u8>,
    opened: Result<usize, i32>,
    size: Result<usize, i32>,
    address: Result<usize, i32>,
    closed: Result<usize, i32>,
)
    ensures
        map_run(MapStep::Open { path }, opened, size, address, closed, 4) == MapStep::Done(
            map_outcome(opened, size, address),
        ),
{
    reveal_with_fuel(map_run, 5);
}

/// What to do next in order to save a file.
pub enum SaveStep {
    /// Create the file with this name, or empty it, for writing.
    Open { path: Vec<u8>, bytes: Vec<u8> },
    /// Write the bytes from this place on.
    Write { fd: i32, bytes: Vec<u8>, from: usize },
    /// Close the file; the outcome is settled.
    Close { fd: i32, outcome: Result<(), Error> },
    /// Nothing more.
    Done(Result<(), Error>),
}

/// A step in writing the bytes of a file.
pub open spec fn save_writing(fd: i32, bytes: Vec<u8>, w: WriteStep) -> SaveStep {
    match w {
        WriteStep::Write(from) => SaveStep::Write { fd, bytes, from },
        WriteStep::Done(Ok(_)) => SaveStep::Close { fd, outcome: Ok(()) },
        WriteStep::Done(Err(e)) => SaveStep::Close { fd, outcome: Err(Error::Write(e)) },
    }
}

/// What comes after a step that returned `reply`.
pub open spec fn save_next(step: SaveStep, reply: Result<usize, i32>) -> SaveStep {
    match step {
        SaveStep::Open { path, bytes } => match reply {
            Err(e) => SaveStep::Done(Err(Error::Open(e))),
            Ok(v) => save_writing(v as i32, bytes, platform::write_first(bytes@.len() as int)),
        },
        SaveStep::Write { fd, bytes, from } => save_writing(
            fd,
            bytes,
            platform::write_next(bytes@.len() as int, from as int, reply),
        ),
        SaveStep::Close { fd, outcome } => SaveStep::Done(outcome),
        SaveStep::Done(outcome) => SaveStep::Done(outcome),
    }
}

/// A write does not take more than was left.
pub open spec fn save_fits(step: SaveStep, reply: Result<usize, i32>) -> bool {
    step matches SaveStep::Write { fd, bytes, from } ==> (reply matches Ok(n) ==> n <= bytes@.len()
        - from)
}

/// A step of saving is in order: there is something left to write.
pub open spec fn save_wf(step: SaveStep) -> bool {
    step matches SaveStep::Write { fd, bytes, from } ==> from < bytes@.len()
}

/// How saving an image begins: with encoding it. An image that cannot be encoded touches no file.
pub fn save_start<F: Fn([u8; 64], [u8; 64], [u8; 64], usize) -> [i32; 64]>(
    img: &Image,
    path: &str,
    forward: &F,
) -> (s: SaveStep)
    requires
        img.wf(),
        encode::encodable(img@) ==> (img@.width * img@.height - 1) * 3 <= u32::MAX,
        forall|r: [u8; 64], g: [u8; 64], b: [u8; 64], ci: usize|
            ci < 3 ==> call_requires(*forward, (r, g, b, ci)),
        encode::bounded(*forward),
    ensures
        save_wf(s),
        encode::encodable(img@) ==> {
            &&& s matches SaveStep::Open { path: name, bytes }
            &&& name@ == vstd::utf8::encode_utf8(path@).push(0)
            &&& encode::encodes_to(*forward, img@, bytes@)
        },
        !encode::encodable(img@) ==> s == SaveStep::Done(Err(Error::Encode)),
{
    match encode::encode_image(img, forward) {
        Err(e) => SaveStep::Done(Err(e)),
        Ok(bytes) => SaveStep::Open { path: to_cstring(path), bytes },
    }
}

fn writing(fd: i32, bytes: Vec<u8>, w: WriteStep) -> (s: SaveStep)
    ensures
        s == save_writing(fd, bytes, w),
{
    match w {
        WriteStep::Write(from) => SaveStep::Write { fd, bytes, from },
        WriteStep::Done(Ok(_)) => SaveStep::Close { fd, outcome: Ok(()) },
        WriteStep::Done(Err(e)) => SaveStep::Close { fd, outcome: Err(Error::Write(e)) },
    }
}

/// What comes after a step that returned `reply`.
pub fn save(step: SaveStep, reply: Result<usize, i32>) -> (s: SaveStep)
    requires
        save_wf(step),
        save_fits(step, reply),
    ensures
        s == save_next(step, reply),
        save_wf(s),
{
    match step {
        SaveStep::Open { path, bytes } => match reply {
            Err(e) => SaveStep::Done(Err(Error::Open(e))),
            Ok(v) => {
                let first = platform::write_all_start(bytes.len());
                writing(#[verifier::truncate] (v as i32), bytes, first)
            },
        },
        SaveStep::Write { fd, bytes, from } => {
            let next = platform::write_all(bytes.len(), from, reply);
            writing(fd, bytes, next)
        },
        SaveStep::Close { fd, outcome } => SaveStep::Done(outcome),
        SaveStep::Done(outcome) => SaveStep::Done(outcome),
    }
}

/// Mode bits of a new file: its owner writes, everybody reads.
pub const FILE_MODE: u32 = 0x1A4;

/// The system call of a step. `buf` is the address of the name of the file to open, or of the
/// bytes to write.
pub fn save_request(step: &SaveStep, buf: usize) -> (r: Option<Syscall>)
    requires
        save_wf(*step),
        step matches SaveStep::Write { fd, bytes, from } ==> buf + bytes@.len() <= usize::MAX,
    ensures
        match step {
            SaveStep::Open { path, bytes } => r matches Some(c) && c.is(
                platform::SYS_OPENAT,
                seq![platform::AT_FDCWD as usize, buf, 0x241, FILE_MODE as usize, 0, 0],
            ),
            SaveStep::Write { fd, bytes, from } => r matches Some(c) && c.is(
                platform::SYS_WRITE,
                seq![
                    *fd as usize,
                    (buf + *from) as usize,
                    (bytes@.len() - *from) as usize,
                    0,
                    0,
                    0,
                ],
            ),
            SaveStep::Close { fd, outcome } => r matches Some(c) && c.is(
                platform::SYS_CLOSE,
                seq![*fd as usize, 0, 0, 0, 0, 0],
            ),
            SaveStep::Done(_) => r is None,
        },
{
    match step {
        SaveStep::Open { path, bytes } => {
            assert(1i32 | 0x40i32 | 0x200i32 == 0x241i32) by (bit_vector);
            let flags: i32 = platform::O_WRONLY | platform::O_CREAT | platform::O_TRUNC;
            Some(platform::open(buf, flags, FILE_MODE))
        },
        SaveStep::Write { fd, bytes, from } => Some(
            platform::write(*fd, buf + *from, bytes.len() - *from),
        ),
        SaveStep::Close { fd, outcome } => Some(platform::close(*fd)),
        SaveStep::Done(_) => None,
    }
}

/// The step reached after some replies.
pub open spec fn save_run(step: SaveStep, replies: Seq<Result<usize, i32>>) -> SaveStep
    decreases replies.len(),
{
    if replies.len() == 0 {
        step
    } else {
        save_next(save_run(step, replies.drop_last()), replies.last())
    }
}

/// A file to be closed after a write that failed.
pub open spec fn save_failed(fd: i32, e: i32) -> SaveStep {
    SaveStep::Close { fd, outcome: Err(Error::Write(e)) }
}

/// Once its file is open, saving writes as long as there is something left. It closes the file
/// with success only when every byte was taken, and otherwise with the error of the write that
/// failed.
pub proof fn law_save_run(
    path: Vec<u8>,
    bytes: Vec<u8>,
    fd: usize,
    replies: Seq<Result<usize, i32>>,
)
    requires
        platform::honest(bytes@.len() as int, replies),
        replies.len() > 0 ==> platform::write_run(bytes@.len() as int, replies.drop_last()) is Write,
    ensures
        save_run(SaveStep::Open { path, bytes }, seq![Ok(fd)] + replies) == save_writing(
            fd as i32,
            bytes,
            platform::write_run(bytes@.len() as int, replies),
        ),
        save_run(SaveStep::Open { path, bytes }, seq![Ok(fd)] + replies) == (SaveStep::Close {
            fd: fd as i32,
            outcome: Ok(()),
        }) ==> platform::taken(replies) == bytes@.len(),
        forall|e: i32|
            save_run(SaveStep::Open { path, bytes }, seq![Ok(fd)] + replies) == (
            #[trigger] save_failed(fd as i32, e)) ==> platform::taken(replies) < bytes@.len()
                && replies.len() > 0 && platform::failure(replies.last()) == Some(e),
    decreases replies.len(),
{
    let start = SaveStep::Open { path, bytes };
    let opened: Seq<Result<usize, i32>> = seq![Ok(fd)];
    let all = opened + replies;
    let len = bytes@.len() as int;
    if replies.len() == 0 {
        assert(all.drop_last() =~= Seq::empty());
        assert(save_run(start, all.drop_last()) == start);
    } else {
        let before = replies.drop_last();
        assert(all.drop_last() =~= opened + before);
        assert(platform::honest(len, before)) by {
            assert forall|k: int| 0 <= k <= before.len() implies platform::taken(
                #[trigger] before.take(k),
            ) <= len by {
                assert(before.take(k) =~= replies.take(k));
            }
        }
        law_save_run(path, bytes, fd, before);
    }
    platform::law_write_all(bytes.len(), replies);
}

/// What a step puts behind the bytes that the file holds: as many bytes as its write took.
pub open spec fn put_by(step: SaveStep, reply: Result<usize, i32>) -> Seq<u8> {
    match (step, reply) {
        (SaveStep::Write { fd, bytes, from }, Ok(n)) => bytes@.subrange(
            from as int,
            from as int + n as int,
        ),
        _ => Seq::empty(),
    }
}

/// The bytes that were written after some replies.
pub open spec fn written(step: SaveStep, replies: Seq<Result<usize, i32>>) -> Seq<u8>
    decreases replies.len(),
{
    if replies.len() == 0 {
        Seq::empty()
    } else {
        written(step, replies.drop_last()) + put_by(
            save_run(step, replies.drop_last()),
            replies.last(),
        )
    }
}

/// No write takes more than was left.
pub open spec fn save_honest(step: SaveStep, replies: Seq<Result<usize, i32>>) -> bool {
    forall|k: int|
        0 <= k < replies.len() ==> save_fits(
            save_run(step, #[trigger] replies.take(k)),
            replies[k],
        )
}

/// A settled outcome agrees with what was written: all bytes after a success, and the beginning of
/// them after an error.
pub open spec fn settled(outcome: Result<(), Error>, bytes: Seq<u8>, file: Seq<u8>) -> bool {
    match outcome {
        Ok(_) => file == bytes,
        Err(_) => file.len() <= bytes.len() && file == bytes.take(file.len() as int),
    }
}

/// The pieces that saving writes make up the file: at any time they are the bytes in front of those
/// left to write, and when saving ends well they are all the bytes.
pub proof fn law_saved_file(path: Vec<u8>, bytes: Vec<u8>, replies: Seq<Result<usize, i32>>)
    requires
        save_honest(SaveStep::Open { path, bytes }, replies),
    ensures
        ({
            let file = written(SaveStep::Open { path, bytes }, replies);
            match save_run(SaveStep::Open { path, bytes }, replies) {
                SaveStep::Open { path: name, bytes: all } => name == path && all == bytes && file
                    == Seq::<u8>::empty(),
                SaveStep::Write { fd, bytes: all, from } => all == bytes && from < bytes@.len()
                    && file == bytes@.take(from as int),
                SaveStep::Close { fd, outcome } => settled(outcome, bytes@, file),
                SaveStep::Done(outcome) => settled(outcome, bytes@, file),
            }
        }),
    decreases replies.len(),
{
    let start = SaveStep::Open { path, bytes };
    if replies.len() > 0 {
        let before = replies.drop_last();
        let last = replies.len() - 1;
        assert(replies.take(last) =~= before);
        assert(save_fits(save_run(start, before), replies[last]));
        assert forall|k: int| 0 <= k < before.len() implies save_fits(
            save_run(start, #[trigger] before.take(k)),
            before[k],
        ) by {
            assert(before.take(k) =~= replies.take(k));
            assert(save_fits(save_run(start, replies.take(k)), replies[k]));
        }
        law_saved_file(path, bytes, before);
        assert(bytes@.len() == bytes.len());
        let old_file = written(start, before);
        let file = written(start, replies);
        match save_run(start, before) {
            SaveStep::Write { fd, bytes: all, from } => {
                match replies.last() {
                    Ok(n) => {
                        assert(file =~= bytes@.take(from + n));
                        assert(from + n == bytes@.len() ==> file =~= bytes@);
                    },
                    Err(_) => {
                        assert(file =~= old_file);
                    },
                }
                assert(file =~= bytes@.take(file.len() as int));
            },
            _ => {
                assert(file =~= old_file);
                assert(bytes@.len() == 0 ==> Seq::<u8>::empty() =~= bytes@);
                assert(bytes@.take(0) =~= Seq::<u8>::empty());
            },
        }
    }
}

/// The file that a step holds open.
pub open spec fn save_holds(step: SaveStep) -> Option<i32> {
    match step {
        SaveStep::Write { fd, bytes, from } => Some(fd),
        SaveStep::Close { fd, outcome } => Some(fd),
        _ => None,
    }
}

/// A file that was opened to be written stays open until it is closed, whatever is returned, and
/// what was settled by then is the outcome.
pub proof fn law_save_closes(step: SaveStep, reply: Result<usize, i32>)
    ensures
        match step {
            SaveStep::Close { fd, outcome } => save_next(step, reply) == SaveStep::Done(outcome),
            SaveStep::Open { path, bytes } => match reply {
                Ok(v) => save_holds(save_next(step, reply)) == Some(v as i32),
                Err(e) => save_next(step, reply) == SaveStep::Done(Err(Error::Open(e))),
            },
            SaveStep::Write { fd, bytes, from } => save_holds(save_next(step, reply)) == Some(fd),
            SaveStep::Done(_) => save_next(step, reply) == step,
        },
{
}

/// What mapping a file gave, as bytes.
pub open spec fn mapped_bytes(mapped: Result<&[u8], Error>) -> Result<Seq<u8>, Error> {
    match mapped {
        Ok(data) => Ok(data@),
        Err(e) => Err(e),
    }
}

/// What loading gives: the error of mapping the file, or what the file decodes to; `None` where it
/// does not decode to anything.
pub open spec fn loads_to<
    F: Fn([i32; 64], [u16; 64]) -> [u8; 64],
    G: Fn(u8, u8, u8) -> (u8, u8, u8),
>(
    mapped: Result<Seq<u8>, Error>,
    idct: F,
    to_rgb: G,
    r: Option<Result<Image, Error>>,
) -> bool {
    match mapped {
        Err(e) => r == Some(Err::<Image, Error>(e)),
        Ok(data) => match r {
            None => !decode::decodable(data),
            Some(d) => decode::decodable(data) && decode::decodes_to(data, idct, to_rgb, d),
        },
    }
}

/// Loads an image from what mapping its file gave, or gives `None` where the file does not decode
/// to anything.
pub fn load<F: Fn([i32; 64], [u16; 64]) -> [u8; 64], G: Fn(u8, u8, u8) -> (u8, u8, u8)>(
    mapped: Result<&[u8], Error>,
    idct: &F,
    to_rgb: &G,
) -> (r: Option<Result<Image, Error>>)
    requires
        forall|b: [i32; 64], q: [u16; 64]| call_requires(*idct, (b, q)),
        forall|y: u8, cb: u8, cr: u8| call_requires(*to_rgb, (y, cb, cr)),
    ensures
        loads_to(mapped_bytes(mapped), *idct, *to_rgb, r),
{
    match mapped {
        Err(e) => Some(Err(e)),
        Ok(data) => decode::decode_checked(data, idct, to_rgb),
    }
}

/// Loading a file is decoding its bytes: an error of mapping it is handed on, and otherwise loading
/// gives what decoding gives, as long as the transform and the conversion do not vary.
pub proof fn law_load_is_decode<
    F: Fn([i32; 64], [u16; 64]) -> [u8; 64],
    G: Fn(u8, u8, u8) -> (u8, u8, u8),
>(
    mapped: Result<Seq<u8>, Error>,
    idct: F,
    to_rgb: G,
    r: Option<Result<Image, Error>>,
    d: Result<Image, Error>,
)
    requires
        decode::steady_idct(idct),
        decode::steady_to_rgb(to_rgb),
        loads_to(mapped, idct, to_rgb, r),
        mapped matches Ok(data) ==> decode::decodable(data) && decode::decodes_to(
            data,
            idct,
            to_rgb,
            d,
        ),
    ensures
        match mapped {
            Err(e) => r == Some(Err::<Image, Error>(e)),
            Ok(_) => r matches Some(loaded) && decode::same_result(loaded, d),
        },
{
    if let Ok(data) = mapped {
        decode::law_decoding_repeats(data, idct, to_rgb, r->0, d);
    }
}

/// The file of a picture loads, and shows a picture of the same size, unless the picture has more
/// channels than can be counted with 32 bits.
pub proof fn law_encoded_is_loaded<
    E: Fn([u8; 64], [u8; 64], [u8; 64], usize) -> [i32; 64],
    F: Fn([i32; 64], [u16; 64]) -> [u8; 64],
    G: Fn(u8, u8, u8) -> (u8, u8, u8),
>(
    forward: E,
    idct: F,
    to_rgb: G,
    p: Picture,
    file: Seq<u8>,
    r: Option<Result<Image, Error>>,
)
    requires
        encode::encodable(p),
        p.width * p.height * 3 <= u32::MAX,
        encode::encodes_to(forward, p, file),
        loads_to(Ok(file), idct, to_rgb, r),
    ensures
        r matches Some(Ok(img)) && img@.width == p.width && img@.height == p.height
            && decode::decodes_to(file, idct, to_rgb, Ok(img)),
{
    round_trip::law_image_round_trip(forward, idct, to_rgb, p, file, p);
    if let Some(Ok(img)) = r {
        round_trip::law_image_round_trip(forward, idct, to_rgb, p, file, img@);
    }
}

/// What was saved is what is loaded: when saving a picture has ended well, the file that it wrote
/// loads and shows a picture of the same size. It is the picture that the encoded file decodes to,
/// as long as the transforms and the conversion do not vary.
pub proof fn law_saved_is_loaded<
    E: Fn([u8; 64], [u8; 64], [u8; 64], usize) -> [i32; 64],
    F: Fn([i32; 64], [u16; 64]) -> [u8; 64],
    G: Fn(u8, u8, u8) -> (u8, u8, u8),
>(
    forward: E,
    idct: F,
    to_rgb: G,
    p: Picture,
    path: Vec<u8>,
    bytes: Vec<u8>,
    replies: Seq<Result<usize, i32>>,
    r: Option<Result<Image, Error>>,
    file: Seq<u8>,
    d: Result<Image, Error>,
)
    requires
        encode::encodable(p),
        p.width * p.height * 3 <= u32::MAX,
        encode::encodes_to(forward, p, bytes@),
        save_honest(SaveStep::Open { path, bytes }, replies),
        save_run(SaveStep::Open { path, bytes }, replies) == SaveStep::Done(Ok(())),
        loads_to(Ok(written(SaveStep::Open { path, bytes }, replies)), idct, to_rgb, r),
    ensures
        written(SaveStep::Open { path, bytes }, replies) == bytes@,
        r matches Some(Ok(img)) && img@.width == p.width && img@.height == p.height
            && decode::decodes_to(bytes@, idct, to_rgb, Ok(img)),
        extension::steady(forward) && decode::steady_idct(idct) && decode::steady_to_rgb(to_rgb)
            && encode::encodes_to(forward, p, file) && decode::decodes_to(file, idct, to_rgb, d)
            ==> decode::same_result(r->0, d),
{
    law_saved_file(path, bytes, replies);
    law_encoded_is_loaded(forward, idct, to_rgb, p, bytes@, r);
    if extension::steady(forward) && decode::steady_idct(idct) && decode::steady_to_rgb(to_rgb)
        && encode::encodes_to(forward, p, file) && decode::decodes_to(file, idct, to_rgb, d) {
        extension::law_encoding_is_unique(forward, p, bytes@, file);
        decode::law_decoding_repeats(file, idct, to_rgb, r->0, d);
    }
}

} // verus!
