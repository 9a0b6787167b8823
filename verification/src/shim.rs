//! Decision logic of the POSIX-like system-call shim.
//!
//! These are the computations behind the libc-style entry points a hosted
//! guest module imports: open-flag decoding, descriptor dispatch for
//! scatter-gather reads and writes, C-string length and comparison, and the
//! fixed answers of the stubbed surface. The hardware edges — raw guest
//! pointers, the console sink, the random-number instruction and the
//! backing allocator — stay outside; the functions here take and return
//! plain values.

use vstd::prelude::*;

use crate::vfs::Fs;
use crate::vfs::FsImage;
use crate::vfs::close_step;
use crate::vfs::handle_index;
use crate::vfs::open_step;
use crate::vfs::read_step;
use crate::vfs::seek_step;
use crate::vfs::write_step;
use crate::vfs::zero_bytes;

verus! {

/// The open-mode bits the shim decodes: append is bit 0o2000, exclusive
/// create is bit 0o200, truncate is bit 0o1000.
pub struct OpenFlags {
    pub append: bool,
    pub exclude: bool,
    pub truncate: bool,
}

/// Decodes the POSIX-style open-flag bits; a bit set in the mask means the
/// mode is requested.
pub fn decode_open_flags(flags: i32) -> (r: OpenFlags)
    ensures
        r.append == (flags & 0o2000 != 0),
        r.exclude == (flags & 0o200 != 0),
        r.truncate == (flags & 0o1000 != 0),
{
    OpenFlags {
        append: flags & 0o2000 != 0,
        exclude: flags & 0o200 != 0,
        truncate: flags & 0o1000 != 0,
    }
}

/// `open`: decodes the flag bits and forwards to the filesystem.
pub fn open(fs: &mut Fs, name: String, flags: i32) -> (r: i32)
    requires
        old(fs).wf(),
        old(fs)@.next_handle < i32::MAX,
    ensures
        final(fs).wf(),
        (final(fs)@, r as int) == open_step(
            old(fs)@,
            name@,
            flags & 0o2000 != 0,
            flags & 0o200 != 0,
            flags & 0o1000 != 0,
        ),
{
    let mode = decode_open_flags(flags);
    let handle = fs.open(name, mode.append, mode.exclude, mode.truncate);
    handle as i32
}

/// `close`: forwards to the filesystem and reports success. Closing a
/// handle that was never opened is a contract violation and is excluded.
pub fn close(fs: &mut Fs, fd: i32) -> (r: i32)
    requires
        old(fs).wf(),
        handle_index(old(fs)@.handles, fd as int) >= 0,
    ensures
        final(fs).wf(),
        final(fs)@ == close_step(old(fs)@, fd as int),
        r == 0,
{
    fs.close(fd as isize);
    0
}

/// `lseek`: forwards to the filesystem's seek.
pub fn lseek(fs: &mut Fs, fd: i32, offset: i64, whence: i32) -> (r: i64)
    requires
        old(fs).wf(),
    ensures
        final(fs).wf(),
        (final(fs)@, r as int) == seek_step(
            old(fs)@,
            fd as int,
            (offset as isize) as int,
            whence as int,
        ),
{
    let r = fs.seek(fd as isize, #[verifier::truncate] (offset as isize), whence);
    r as i64
}

/// `fcntl` is a stub: it performs no work and reports success.
pub fn fcntl(fd: i32, cmd: i32, arg: i32) -> (r: i32)
    ensures
        r == 0,
{
    let _ = (fd, cmd, arg);
    0
}

/// `fstat` is a stub: it fills nothing in and reports success.
pub fn fstat(fd: i32) -> (r: i32)
    ensures
        r == 0,
{
    let _ = fd;
    0
}

/// `openat` is unsupported and always fails.
pub fn openat(dirfd: i32, flags: i32, mode: i32) -> (r: i32)
    ensures
        r == -1,
{
    let _ = (dirfd, flags, mode);
    -1
}

/// `fdatasync` is a stub: the store is volatile, so there is nothing to
/// sync, and it reports success.
pub fn fdatasync(fd: i32) -> (r: i32)
    ensures
        r == 0,
{
    let _ = fd;
    0
}

/// `clock_getres` always fails: no clock source is wired up.
pub fn clock_getres(clockid: i32) -> (r: i32)
    ensures
        r == -1,
{
    let _ = clockid;
    -1
}

/// `clock_gettime` always fails: no clock source is wired up.
pub fn clock_gettime(clockid: i32) -> (r: i32)
    ensures
        r == -1,
{
    let _ = clockid;
    -1
}

/// Length of the C string at the front of `s`: the index of its first NUL
/// byte. The caller guarantees a terminator is present.
pub fn cstr_len(s: &[u8]) -> (r: usize)
    requires
        s@.contains(0u8),
    ensures
        r < s@.len(),
        s@[r as int] == 0,
        forall|j: int| 0 <= j < r ==> s@[j] != 0,
{
    let ghost z = choose|z: int| 0 <= z < s@.len() && s@[z] == 0u8;
    let mut i: usize = 0;
    while s[i] != 0
        invariant
            0 <= z < s@.len(),
            s@[z] == 0,
            i <= z,
            forall|j: int| 0 <= j < i ==> s@[j] != 0,
        decreases z - i,
    {
        i = i + 1;
        proof {
            if i <= z {
            } else {
                assert(s@[z] != 0);
            }
        }
    }
    i
}

/// Byte-wise C-string comparison: the difference of the first bytes that
/// differ, or zero when both strings end together, scanning up to the first
/// NUL of either side.
pub open spec fn strcmp_spec(a: Seq<u8>, b: Seq<u8>) -> int
    decreases a.len(),
{
    if a.len() == 0 || b.len() == 0 {
        0
    } else if a[0] != b[0] || a[0] == 0 {
        a[0] - b[0]
    } else {
        strcmp_spec(a.drop_first(), b.drop_first())
    }
}

proof fn lemma_strcmp_skip(a: Seq<u8>, b: Seq<u8>, i: int)
    requires
        0 <= i < a.len(),
        i < b.len(),
        forall|j: int| 0 <= j < i ==> a[j] == b[j] && a[j] != 0,
    ensures
        strcmp_spec(a, b) == strcmp_spec(a.skip(i), b.skip(i)),
    decreases i,
{
    if i > 0 {
        lemma_strcmp_skip(a, b, i - 1);
        assert(a.skip(i - 1).len() > 0 && b.skip(i - 1).len() > 0);
        assert(a.skip(i - 1)[0] == a[i - 1]);
        assert(b.skip(i - 1)[0] == b[i - 1]);
        assert(a.skip(i - 1).drop_first() =~= a.skip(i));
        assert(b.skip(i - 1).drop_first() =~= b.skip(i));
    } else {
        assert(a.skip(0) =~= a);
        assert(b.skip(0) =~= b);
    }
}

/// `strcmp` on NUL-terminated byte strings.
pub fn strcmp(s1: &[u8], s2: &[u8]) -> (r: isize)
    requires
        s1@.contains(0u8),
        s2@.contains(0u8),
    ensures
        r == strcmp_spec(s1@, s2@),
{
    let ghost z1 = choose|z: int| 0 <= z < s1@.len() && s1@[z] == 0u8;
    let ghost z2 = choose|z: int| 0 <= z < s2@.len() && s2@[z] == 0u8;
    let mut i: usize = 0;
    while s1[i] == s2[i] && s1[i] != 0 && s2[i] != 0
        invariant
            0 <= z1 < s1@.len(),
            0 <= z2 < s2@.len(),
            s1@[z1] == 0,
            s2@[z2] == 0,
            i <= z1,
            i <= z2,
            forall|j: int| 0 <= j < i ==> s1@[j] == s2@[j] && s1@[j] != 0,
        decreases z1 - i,
    {
        i = i + 1;
        proof {
            if i > z1 {
                assert(s1@[z1] != 0);
            }
            if i > z2 {
                assert(s2@[z2] != 0);
            }
        }
    }
    proof {
        lemma_strcmp_skip(s1@, s2@, i as int);
        assert(s1@.skip(i as int)[0] == s1@[i as int]);
        assert(s2@.skip(i as int)[0] == s2@[i as int]);
        assert(s1@.skip(i as int).len() > 0 && s2@.skip(i as int).len() > 0);
    }
    (s1[i] as isize) - (s2[i] as isize)
}

/// Sum of a sequence of lengths.
pub open spec fn total_len(s: Seq<int>) -> int
    decreases s.len(),
{
    if s.len() == 0 {
        0
    } else {
        s[0] + total_len(s.drop_first())
    }
}

proof fn lemma_total_len_split(s: Seq<int>, i: int)
    requires
        0 <= i <= s.len(),
    ensures
        total_len(s) == total_len(s.take(i)) + total_len(s.skip(i)),
    decreases i,
{
    if i == 0 {
        assert(s.take(0) =~= Seq::<int>::empty());
        assert(s.skip(0) =~= s);
    } else {
        lemma_total_len_split(s.drop_first(), i - 1);
        assert(s.take(i).len() > 0);
        assert(s.take(i)[0] == s[0]);
        assert(s.take(i).drop_first() =~= s.drop_first().take(i - 1));
        assert(s.skip(i) =~= s.drop_first().skip(i - 1));
    }
}

proof fn lemma_total_len_nonneg(s: Seq<int>)
    requires
        forall|j: int| 0 <= j < s.len() ==> s[j] >= 0,
    ensures
        total_len(s) >= 0,
    decreases s.len(),
{
    if s.len() > 0 {
        lemma_total_len_nonneg(s.drop_first());
    }
}

/// The lengths of a sequence of buffers.
pub open spec fn buf_lens(bufs: Seq<Seq<u8>>) -> Seq<int> {
    bufs.map_values(|b: Seq<u8>| b.len() as int)
}

/// A scatter read against a known handle: one [`read_step`] per requested
/// length, front first, yielding the final state, the chunks read and the
/// total count.
pub open spec fn readv_chunks(fs: FsImage, h: int, sizes: Seq<int>) -> (
    FsImage,
    Seq<Seq<u8>>,
    int,
)
    decreases sizes.len(),
{
    if sizes.len() == 0 {
        (fs, Seq::<Seq<u8>>::empty(), 0)
    } else {
        let (fs1, chunk, c) = read_step(fs, h, sizes[0]);
        let (fs2, chunks, t) = readv_chunks(fs1, h, sizes.drop_first());
        (fs2, seq![chunk] + chunks, c + t)
    }
}

/// A gather write against a known handle: one [`write_step`] per buffer,
/// front first, yielding the final state and the total count.
pub open spec fn writev_bufs(fs: FsImage, h: int, bufs: Seq<Seq<u8>>) -> (FsImage, int)
    decreases bufs.len(),
{
    if bufs.len() == 0 {
        (fs, 0)
    } else {
        let (fs1, w) = write_step(fs, h, bufs[0]);
        let (fs2, t) = writev_bufs(fs1, h, bufs.drop_first());
        (fs2, w + t)
    }
}

/// `readv`: descriptors 0 (stdin), 1 and 2 (console) read as end-of-file;
/// any other descriptor reads one chunk per requested length from the
/// filesystem, front first, returning the chunks for the caller to copy
/// out and the total count — or -1 when the handle is unknown, in which
/// case nothing is read.
pub fn readv(fs: &mut Fs, fd: i32, sizes: &Vec<usize>) -> (r: (i64, Vec<Vec<u8>>))
    requires
        old(fs).wf(),
        forall|j: int| 0 <= j < sizes@.len() ==> sizes@[j] <= isize::MAX,
        total_len(sizes@.map_values(|s: usize| s as int)) <= i64::MAX,
    ensures
        final(fs).wf(),
        ({
            let szs = sizes@.map_values(|s: usize| s as int);
            let console = fd == 0 || fd == 1 || fd == 2;
            let known = handle_index(old(fs)@.handles, fd as int) >= 0;
            &&& (console ==> final(fs)@ == old(fs)@ && r.0 == 0 && r.1@.len() == 0)
            &&& (!console && !known && szs.len() > 0 ==> final(fs)@ == old(fs)@ && r.0 == -1
                && r.1@.len() == 0)
            &&& (!console && !known && szs.len() == 0 ==> final(fs)@ == old(fs)@ && r.0 == 0
                && r.1@.len() == 0)
            &&& (!console && known ==> {
                let (fs2, chunks, t) = readv_chunks(old(fs)@, fd as int, szs);
                &&& final(fs)@ == fs2
                &&& r.1@.map_values(|b: Vec<u8>| b@) == chunks
                &&& r.0 as int == t
            })
        }),
{
    if fd == 0 || fd == 1 || fd == 2 {
        return (0, Vec::new());
    }
    let h = fd as isize;
    let ghost fs0 = fs@;
    let ghost szs = sizes@.map_values(|s: usize| s as int);
    let mut chunks: Vec<Vec<u8>> = Vec::new();
    let mut total: i64 = 0;
    let mut i: usize = 0;
    proof {
        assert(szs.skip(0) =~= szs);
        assert(szs.take(0) =~= Seq::<int>::empty());
        assert(chunks@.map_values(|b: Vec<u8>| b@) =~= Seq::<Seq<u8>>::empty());
        let (fsr, cs, t) = readv_chunks(fs@, fd as int, szs);
        assert(chunks@.map_values(|b: Vec<u8>| b@) + cs =~= cs);
    }
    while i < sizes.len()
        invariant
            fs.wf(),
            fs0 == old(fs)@,
            szs == sizes@.map_values(|s: usize| s as int),
            sizes@.len() == szs.len(),
            forall|j: int| 0 <= j < szs.len() ==> 0 <= #[trigger] szs[j] <= isize::MAX,
            total_len(szs) <= i64::MAX,
            i <= sizes@.len(),
            h as int == fd as int,
            !(fd == 0 || fd == 1 || fd == 2),
            i == 0 ==> fs@ == fs0 && chunks@.len() == 0 && total == 0,
            i > 0 ==> handle_index(fs0.handles, fd as int) >= 0,
            handle_index(fs0.handles, fd as int) >= 0 ==> {
                &&& handle_index(fs@.handles, fd as int) >= 0
                &&& chunks@.len() == i
                &&& 0 <= total
                &&& total as int <= total_len(szs.take(i as int))
                &&& ({
                    let (fsr, cs, t) = readv_chunks(fs@, fd as int, szs.skip(i as int));
                    readv_chunks(fs0, fd as int, szs) == (
                        fsr,
                        chunks@.map_values(|b: Vec<u8>| b@) + cs,
                        total + t,
                    )
                })
            },
        decreases sizes@.len() - i,
    {
        let size = sizes[i];
        proof {
            assert(szs[i as int] == sizes@[i as int] as int);
        }
        let mut buf = zero_vec(size);
        let ghost fsp = fs@;
        let r = fs.read(h, &mut buf);
        let ghost step = read_step(fsp, fd as int, size as int);
        if r < 0 {
            proof {
                assert(handle_index(fsp.handles, fd as int) < 0);
                assert(i == 0);
            }
            return (-1, Vec::new());
        }
        proof {
            assert(handle_index(fsp.handles, fd as int) >= 0);
            assert(handle_index(fs0.handles, fd as int) >= 0);
            // the handle survives the step
            let hidx = handle_index(fsp.handles, fd as int);
            crate::vfs::lemma_handle_index_props(fsp.handles, fd as int);
            assert(fsp.handles[hidx].handle == fd as int);
            assert(fs@.handles[hidx].handle == fd as int);
            crate::vfs::lemma_handle_index_props(fs@.handles, fd as int);
            assert(handle_index(fs@.handles, fd as int) >= 0);
            // the chunk kept in the result is exactly what was read
            assert(step.1.len() == step.2);
            assert(r as int == step.2);
        }
        buf.truncate(r as usize);
        proof {
            assert(buf@ =~= step.1);
        }
        let ghost prev_deep = chunks@.map_values(|b: Vec<u8>| b@);
        chunks.push(buf);
        proof {
            // unfold one step of the composed specification
            assert(szs.skip(i as int).len() > 0);
            assert(szs.skip(i as int)[0] == szs[i as int]);
            assert(szs.skip(i as int).drop_first() =~= szs.skip(i + 1));
            let (fsr, cs, t) = readv_chunks(fs@, fd as int, szs.skip(i + 1));
            assert(chunks@.map_values(|b: Vec<u8>| b@) =~= prev_deep + seq![step.1]);
            assert(prev_deep + (seq![step.1] + cs) =~= (prev_deep + seq![step.1]) + cs);
            // the count stays within the total requested so far
            lemma_total_len_split(szs.take(i + 1), i as int);
            assert(szs.take(i + 1).take(i as int) =~= szs.take(i as int));
            assert(szs.take(i + 1).skip(i as int) =~= seq![szs[i as int]]);
            assert(seq![szs[i as int]].drop_first() =~= Seq::<int>::empty());
            assert(total_len(Seq::<int>::empty()) == 0);
            assert(total_len(seq![szs[i as int]]) == szs[i as int]);
            lemma_total_len_split(szs, i + 1);
            assert forall|j: int| 0 <= j < szs.skip(i + 1).len() implies (#[trigger] szs.skip(
                i + 1,
            )[j]) >= 0 by {
                assert(szs.skip(i + 1)[j] == szs[j + i + 1]);
            }
            lemma_total_len_nonneg(szs.skip(i + 1));
            assert(total + step.2 <= total_len(szs.take(i + 1)));
            assert(total_len(szs.take(i + 1)) <= total_len(szs));
        }
        total = total + (r as i64);
        i = i + 1;
    }
    proof {
        if handle_index(fs0.handles, fd as int) >= 0 {
            assert(szs.skip(szs.len() as int) =~= Seq::<int>::empty());
            assert(chunks@.map_values(|b: Vec<u8>| b@) + Seq::<Seq<u8>>::empty()
                =~= chunks@.map_values(|b: Vec<u8>| b@));
        }
    }
    (total, chunks)
}

/// `writev`: descriptors 1 and 2 render to the console — the count is the
/// whole buffer length and the caller prints the bytes itself; descriptor
/// 0 writes nothing; any other descriptor writes each buffer at the
/// handle's cursor in turn, front first, returning the total written or -1
/// when the handle is unknown, in which case nothing is written.
pub fn writev(fs: &mut Fs, fd: i32, bufs: &Vec<Vec<u8>>) -> (r: i64)
    requires
        old(fs).wf(),
        forall|j: int| 0 <= j < bufs@.len() ==> (#[trigger] bufs@[j])@.len() <= isize::MAX,
        total_len(buf_lens(bufs@.map_values(|b: Vec<u8>| b@))) <= i64::MAX,
        handle_index(old(fs)@.handles, fd as int) >= 0 ==> old(fs)@.handles[handle_index(
            old(fs)@.handles,
            fd as int,
        )].position + total_len(buf_lens(bufs@.map_values(|b: Vec<u8>| b@))) <= usize::MAX,
    ensures
        final(fs).wf(),
        ({
            let bs = bufs@.map_values(|b: Vec<u8>| b@);
            let known = handle_index(old(fs)@.handles, fd as int) >= 0;
            &&& (fd == 1 || fd == 2 ==> final(fs)@ == old(fs)@ && r as int == total_len(
                buf_lens(bs),
            ))
            &&& (fd == 0 ==> final(fs)@ == old(fs)@ && r == 0)
            &&& (!(fd == 0 || fd == 1 || fd == 2) && !known && bs.len() > 0 ==> final(fs)@
                == old(fs)@ && r == -1)
            &&& (!(fd == 0 || fd == 1 || fd == 2) && !known && bs.len() == 0 ==> final(fs)@
                == old(fs)@ && r == 0)
            &&& (!(fd == 0 || fd == 1 || fd == 2) && known ==> (final(fs)@, r as int)
                == writev_bufs(old(fs)@, fd as int, bs))
        }),
{
    let ghost bs = bufs@.map_values(|b: Vec<u8>| b@);
    let ghost lens = buf_lens(bs);
    if fd == 1 || fd == 2 {
        let mut total: i64 = 0;
        let mut i: usize = 0;
        proof {
            assert(lens.take(0) =~= Seq::<int>::empty());
        }
        while i < bufs.len()
            invariant
                bs == bufs@.map_values(|b: Vec<u8>| b@),
                lens == buf_lens(bs),
                bufs@.len() == lens.len(),
                forall|j: int| 0 <= j < lens.len() ==> 0 <= #[trigger] lens[j] <= isize::MAX,
                total_len(lens) <= i64::MAX,
                i <= bufs@.len(),
                total as int == total_len(lens.take(i as int)),
            decreases bufs@.len() - i,
        {
            proof {
                assert(bs[i as int] == bufs@[i as int]@);
                assert(lens[i as int] == bs[i as int].len() as int);
                lemma_total_len_split(lens.take(i + 1), i as int);
                assert(lens.take(i + 1).take(i as int) =~= lens.take(i as int));
                assert(lens.take(i + 1).skip(i as int) =~= seq![lens[i as int]]);
                assert(seq![lens[i as int]].drop_first() =~= Seq::<int>::empty());
                assert(total_len(Seq::<int>::empty()) == 0);
                lemma_total_len_split(lens, i + 1);
                assert forall|j: int| 0 <= j < lens.skip(i + 1).len() implies (#[trigger] lens
                    .skip(i + 1)[j]) >= 0 by {
                    assert(lens.skip(i + 1)[j] == lens[j + i + 1]);
                }
                lemma_total_len_nonneg(lens.skip(i + 1));
                assert(total_len(lens.take(i + 1)) <= total_len(lens));
            }
            total = total + (bufs[i].len() as i64);
            i = i + 1;
        }
        proof {
            assert(lens.take(lens.len() as int) =~= lens);
        }
        return total;
    }
    if fd == 0 {
        return 0;
    }
    let h = fd as isize;
    let ghost fs0 = fs@;
    let mut total: i64 = 0;
    let mut i: usize = 0;
    proof {
        assert(bs.skip(0) =~= bs);
        assert(lens.take(0) =~= Seq::<int>::empty());
    }
    while i < bufs.len()
        invariant
            fs.wf(),
            fs0 == old(fs)@,
            bs == bufs@.map_values(|b: Vec<u8>| b@),
            lens == buf_lens(bs),
            bufs@.len() == lens.len(),
            bs.len() == lens.len(),
            forall|j: int| 0 <= j < lens.len() ==> 0 <= #[trigger] lens[j] <= isize::MAX,
            total_len(lens) <= i64::MAX,
            i <= bufs@.len(),
            h as int == fd as int,
            !(fd == 0 || fd == 1 || fd == 2),
            i == 0 ==> fs@ == fs0 && total == 0,
            i > 0 ==> handle_index(fs0.handles, fd as int) >= 0,
            handle_index(fs0.handles, fd as int) >= 0 ==> {
                &&& handle_index(fs@.handles, fd as int) >= 0
                &&& 0 <= total
                &&& total as int == total_len(lens.take(i as int))
                &&& fs@.handles[handle_index(fs@.handles, fd as int)].position == fs0.handles[
                    handle_index(fs0.handles, fd as int)].position + total_len(
                    lens.take(i as int),
                )
                &&& fs0.handles[handle_index(fs0.handles, fd as int)].position + total_len(
                    lens,
                ) <= usize::MAX
                &&& ({
                    let (fsr, t) = writev_bufs(fs@, fd as int, bs.skip(i as int));
                    writev_bufs(fs0, fd as int, bs) == (fsr, total + t)
                })
            },
        decreases bufs@.len() - i,
    {
        proof {
            assert(bs[i as int] == bufs@[i as int]@);
            assert(lens[i as int] == bs[i as int].len() as int);
            if handle_index(fs0.handles, fd as int) >= 0 {
                // the next write stays within the cursor's range
                lemma_total_len_split(lens.take(i + 1), i as int);
                assert(lens.take(i + 1).take(i as int) =~= lens.take(i as int));
                assert(lens.take(i + 1).skip(i as int) =~= seq![lens[i as int]]);
                assert(seq![lens[i as int]].drop_first() =~= Seq::<int>::empty());
                assert(total_len(Seq::<int>::empty()) == 0);
                lemma_total_len_split(lens, i + 1);
                assert forall|j: int| 0 <= j < lens.skip(i + 1).len() implies (#[trigger] lens
                    .skip(i + 1)[j]) >= 0 by {
                    assert(lens.skip(i + 1)[j] == lens[j + i + 1]);
                }
                lemma_total_len_nonneg(lens.skip(i + 1));
                assert(total_len(lens.take(i + 1)) <= total_len(lens));
            }
        }
        let ghost fsp = fs@;
        let w = fs.write(h, bufs[i].as_slice());
        if w < 0 {
            proof {
                assert(handle_index(fsp.handles, fd as int) < 0);
                assert(i == 0);
            }
            return -1;
        }
        let ghost step = write_step(fsp, fd as int, bs[i as int]);
        proof {
            assert(handle_index(fsp.handles, fd as int) >= 0);
            assert(handle_index(fs0.handles, fd as int) >= 0);
            let hidx = handle_index(fsp.handles, fd as int);
            crate::vfs::lemma_handle_index_props(fsp.handles, fd as int);
            assert(fsp.handles[hidx].handle == fd as int);
            assert(fs@.handles[hidx].handle == fd as int);
            crate::vfs::lemma_handle_index_unique(fs@.handles, fd as int, hidx);
            // unfold one step of the composed specification
            assert(bs.skip(i as int).len() > 0);
            assert(bs.skip(i as int)[0] == bs[i as int]);
            assert(bs.skip(i as int).drop_first() =~= bs.skip(i + 1));
            assert(w as int == lens[i as int]);
        }
        total = total + (w as i64);
        i = i + 1;
    }
    proof {
        if handle_index(fs0.handles, fd as int) >= 0 {
            assert(bs.skip(bs.len() as int) =~= Seq::<Seq<u8>>::empty());
            assert(lens.take(lens.len() as int) =~= lens);
        }
    }
    total
}

/// A fresh all-zero buffer of the given length.
fn zero_vec(n: usize) -> (r: Vec<u8>)
    ensures
        r@ == zero_bytes(n as int),
{
    let mut r: Vec<u8> = Vec::new();
    let mut i: usize = 0;
    while i < n
        invariant
            i <= n,
            r@ == zero_bytes(i as int),
        decreases n - i,
    {
        r.push(0);
        proof {
            assert(zero_bytes(i + 1) =~= zero_bytes(i as int).push(0u8));
        }
        i = i + 1;
    }
    r
}

} // verus!
