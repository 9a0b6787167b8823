//! In-memory virtual filesystem with handle-based, POSIX-like semantics.
//!
//! A name-keyed store of byte buffers plus a table of open handles. Opening
//! a file copies its bytes into the handle, so a handle observes a snapshot
//! plus its own writes; closing commits the handle's buffer back under its
//! name, last closer winning. Files are never removed and persist for the
//! process lifetime.
//!
//! The store and the handle table are modelled as sequences with distinct
//! keys; every operation's contract is a single step function over that
//! model ([`open_step`], [`close_step`], [`seek_step`], [`write_step`],
//! [`read_step`]), so laws about chains of calls are proved over the step
//! functions alone.

use vstd::prelude::*;

verus! {

/// One named byte store.
pub struct FileEntry {
    pub name: String,
    pub data: Vec<u8>,
}

/// One open, independent view of a file: an owning handle id, the name the
/// buffer will be committed under, a cursor, and a working copy of the bytes.
pub struct OpenFile {
    pub handle: isize,
    pub path: String,
    pub position: usize,
    pub data: Vec<u8>,
}

/// Mathematical image of a [`FileEntry`].
#[verifier::ext_equal]
pub struct FileImage {
    pub name: Seq<char>,
    pub data: Seq<u8>,
}

/// Mathematical image of an [`OpenFile`].
#[verifier::ext_equal]
pub struct HandleImage {
    pub handle: int,
    pub path: Seq<char>,
    pub position: int,
    pub data: Seq<u8>,
}

/// Mathematical image of the whole filesystem state.
#[verifier::ext_equal]
pub struct FsImage {
    pub files: Seq<FileImage>,
    pub handles: Seq<HandleImage>,
    pub next_handle: int,
}

impl View for FileEntry {
    type V = FileImage;

    closed spec fn view(&self) -> FileImage {
        FileImage { name: self.name@, data: self.data@ }
    }
}

impl View for OpenFile {
    type V = HandleImage;

    closed spec fn view(&self) -> HandleImage {
        HandleImage {
            handle: self.handle as int,
            path: self.path@,
            position: self.position as int,
            data: self.data@,
        }
    }
}

/// Index of the first store entry named `name`, or -1 when absent.
pub open spec fn file_index(files: Seq<FileImage>, name: Seq<char>) -> int
    decreases files.len(),
{
    if files.len() == 0 {
        -1
    } else if files[0].name == name {
        0
    } else {
        let r = file_index(files.drop_first(), name);
        if r < 0 {
            -1
        } else {
            r + 1
        }
    }
}

/// Bytes currently stored under `name`, or `None` when the name is unknown.
pub open spec fn file_content(files: Seq<FileImage>, name: Seq<char>) -> Option<Seq<u8>> {
    let i = file_index(files, name);
    if i >= 0 {
        Some(files[i].data)
    } else {
        None
    }
}

/// The store after committing `data` under `name`: the existing entry is
/// overwritten, or a new entry is appended.
pub open spec fn store_file(files: Seq<FileImage>, name: Seq<char>, data: Seq<u8>) -> Seq<
    FileImage,
> {
    let i = file_index(files, name);
    if i >= 0 {
        files.update(i, FileImage { name: name, data: data })
    } else {
        files.push(FileImage { name: name, data: data })
    }
}

/// Index of the handle-table entry for handle id `h`, or -1 when unknown.
pub open spec fn handle_index(handles: Seq<HandleImage>, h: int) -> int
    decreases handles.len(),
{
    if handles.len() == 0 {
        -1
    } else if handles[0].handle == h {
        0
    } else {
        let r = handle_index(handles.drop_first(), h);
        if r < 0 {
            -1
        } else {
            r + 1
        }
    }
}

pub proof fn lemma_file_index_props(files: Seq<FileImage>, name: Seq<char>)
    ensures
        -1 <= file_index(files, name) < files.len(),
        file_index(files, name) >= 0 ==> files[file_index(files, name)].name == name,
        file_index(files, name) >= 0 ==> forall|j: int|
            0 <= j < file_index(files, name) ==> files[j].name != name,
        file_index(files, name) == -1 ==> forall|j: int|
            0 <= j < files.len() ==> files[j].name != name,
    decreases files.len(),
{
    if files.len() > 0 && files[0].name != name {
        lemma_file_index_props(files.drop_first(), name);
        if file_index(files.drop_first(), name) >= 0 {
            assert forall|j: int| 0 <= j < file_index(files, name) implies files[j].name
                != name by {
                if j > 0 {
                    assert(files[j] == files.drop_first()[j - 1]);
                }
            }
        } else {
            assert forall|j: int| 0 <= j < files.len() implies files[j].name != name by {
                if j > 0 {
                    assert(files[j] == files.drop_first()[j - 1]);
                }
            }
        }
    }
}

pub proof fn lemma_handle_index_props(handles: Seq<HandleImage>, h: int)
    ensures
        -1 <= handle_index(handles, h) < handles.len(),
        handle_index(handles, h) >= 0 ==> handles[handle_index(handles, h)].handle == h,
        handle_index(handles, h) >= 0 ==> forall|j: int|
            0 <= j < handle_index(handles, h) ==> handles[j].handle != h,
        handle_index(handles, h) == -1 ==> forall|j: int|
            0 <= j < handles.len() ==> handles[j].handle != h,
    decreases handles.len(),
{
    if handles.len() > 0 && handles[0].handle != h {
        lemma_handle_index_props(handles.drop_first(), h);
        if handle_index(handles.drop_first(), h) >= 0 {
            assert forall|j: int| 0 <= j < handle_index(handles, h) implies handles[j].handle
                != h by {
                if j > 0 {
                    assert(handles[j] == handles.drop_first()[j - 1]);
                }
            }
        } else {
            assert forall|j: int| 0 <= j < handles.len() implies handles[j].handle != h by {
                if j > 0 {
                    assert(handles[j] == handles.drop_first()[j - 1]);
                }
            }
        }
    }
}

/// Well-formedness of the model: store names are distinct, handle ids are
/// distinct, every handle id is at least 3 and below the next id to hand
/// out (which itself starts at 3), and every buffer and cursor fits the
/// machine that holds it.
pub open spec fn fs_inv(fs: FsImage) -> bool {
    &&& fs.next_handle >= 3
    &&& forall|i: int, j: int|
        0 <= i < j < fs.files.len() ==> fs.files[i].name != fs.files[j].name
    &&& forall|i: int, j: int|
        0 <= i < j < fs.handles.len() ==> fs.handles[i].handle != fs.handles[j].handle
    &&& forall|i: int|
        0 <= i < fs.handles.len() ==> 3 <= #[trigger] fs.handles[i].handle < fs.next_handle
    &&& forall|i: int|
        0 <= i < fs.handles.len() ==> {
            let hd = #[trigger] fs.handles[i];
            0 <= hd.position <= usize::MAX && hd.data.len() <= usize::MAX
        }
    &&& forall|i: int|
        0 <= i < fs.files.len() ==> (#[trigger] fs.files[i]).data.len() <= usize::MAX
}

/// One `open` call on the model: the id counter always advances; an
/// exclusive open of an existing name fails with -1; otherwise the name is
/// materialized if absent, its bytes are copied into a fresh handle whose
/// cursor starts at the content length for append-without-truncate and at 0
/// otherwise, and the new handle id is returned.
pub open spec fn open_step(
    fs: FsImage,
    name: Seq<char>,
    append: bool,
    exclude: bool,
    truncate: bool,
) -> (FsImage, int) {
    let h = fs.next_handle;
    if exclude && file_index(fs.files, name) >= 0 {
        (FsImage { files: fs.files, handles: fs.handles, next_handle: h + 1 }, -1)
    } else {
        let data = match file_content(fs.files, name) {
            Some(d) => d,
            None => Seq::<u8>::empty(),
        };
        let position: int = if append && !truncate {
            data.len() as int
        } else {
            0
        };
        let files2 = if file_index(fs.files, name) >= 0 {
            fs.files
        } else {
            fs.files.push(FileImage { name: name, data: Seq::empty() })
        };
        (
            FsImage {
                files: files2,
                handles: fs.handles.push(
                    HandleImage { handle: h, path: name, position: position, data: data },
                ),
                next_handle: h + 1,
            },
            h,
        )
    }
}

/// One `close` call on a known handle: the handle's buffer is committed to
/// the store under the handle's name and the handle is discarded.
pub open spec fn close_step(fs: FsImage, h: int) -> FsImage {
    let i = handle_index(fs.handles, h);
    if i >= 0 {
        FsImage {
            files: store_file(fs.files, fs.handles[i].path, fs.handles[i].data),
            handles: fs.handles.remove(i),
            next_handle: fs.next_handle,
        }
    } else {
        fs
    }
}

/// An integer clamped into the range a cursor can hold.
pub open spec fn clamp_to_usize(x: int) -> int {
    if x < 0 {
        0
    } else if x > usize::MAX {
        usize::MAX as int
    } else {
        x
    }
}

/// A cursor position as the signed machine word a caller receives.
pub open spec fn wrap_position(p: int) -> int {
    (p as isize) as int
}

/// `n` zero bytes.
pub open spec fn zero_bytes(n: int) -> Seq<u8> {
    Seq::new(n as nat, |i: int| 0u8)
}

/// Bytes of a file after writing `bytes` at cursor `pos`: the in-range
/// prefix is overwritten in place, a cursor beyond the end first pads the
/// gap with zeroes, and whatever extends past the end is appended; bytes
/// after the written range are kept.
pub open spec fn splice_bytes(data: Seq<u8>, pos: int, bytes: Seq<u8>) -> Seq<u8> {
    let cut = if pos <= data.len() {
        pos
    } else {
        data.len() as int
    };
    data.take(cut) + zero_bytes(pos - cut) + bytes + if pos + bytes.len() < data.len() {
        data.skip(pos + bytes.len())
    } else {
        Seq::empty()
    }
}

/// One `seek` call on the model: absolute, cursor-relative and end-relative
/// positioning, each clamped into the cursor's range; an unknown handle or
/// whence fails with -1 and changes nothing.
pub open spec fn seek_step(fs: FsImage, h: int, offset: int, whence: int) -> (FsImage, int) {
    let i = handle_index(fs.handles, h);
    if i < 0 {
        (fs, -1)
    } else {
        let hd = fs.handles[i];
        if whence == 0 || whence == 1 || whence == 2 {
            let base: int = if whence == 0 {
                0
            } else if whence == 1 {
                hd.position
            } else {
                hd.data.len() as int
            };
            let p = clamp_to_usize(base + offset);
            (
                FsImage {
                    files: fs.files,
                    handles: fs.handles.update(
                        i,
                        HandleImage {
                            handle: hd.handle,
                            path: hd.path,
                            position: p,
                            data: hd.data,
                        },
                    ),
                    next_handle: fs.next_handle,
                },
                wrap_position(p),
            )
        } else {
            (fs, -1)
        }
    }
}

/// One `write` call on the model: the handle's buffer becomes the splice of
/// `bytes` at the cursor, and the cursor advances by the full write length;
/// an unknown handle fails with -1.
pub open spec fn write_step(fs: FsImage, h: int, bytes: Seq<u8>) -> (FsImage, int) {
    let i = handle_index(fs.handles, h);
    if i < 0 {
        (fs, -1)
    } else {
        let hd = fs.handles[i];
        (
            FsImage {
                files: fs.files,
                handles: fs.handles.update(
                    i,
                    HandleImage {
                        handle: hd.handle,
                        path: hd.path,
                        position: hd.position + bytes.len(),
                        data: splice_bytes(hd.data, hd.position, bytes),
                    },
                ),
                next_handle: fs.next_handle,
            },
            bytes.len() as int,
        )
    }
}

/// One `read` call of `req` bytes on the model, yielding the new state, the
/// bytes read and the count: 0 bytes at or past end-of-data, the available
/// remainder when the request reaches past the end, the full request
/// otherwise; the cursor advances by the count. An unknown handle fails
/// with -1.
pub open spec fn read_step(fs: FsImage, h: int, req: int) -> (FsImage, Seq<u8>, int) {
    let i = handle_index(fs.handles, h);
    if i < 0 {
        (fs, Seq::<u8>::empty(), -1)
    } else {
        let hd = fs.handles[i];
        let len = hd.data.len() as int;
        if hd.position >= len {
            (fs, Seq::<u8>::empty(), 0)
        } else {
            let count = if req > len - hd.position {
                len - hd.position
            } else {
                req
            };
            (
                FsImage {
                    files: fs.files,
                    handles: fs.handles.update(
                        i,
                        HandleImage {
                            handle: hd.handle,
                            path: hd.path,
                            position: hd.position + count,
                            data: hd.data,
                        },
                    ),
                    next_handle: fs.next_handle,
                },
                hd.data.subrange(hd.position, hd.position + count),
                count,
            )
        }
    }
}

/// The filesystem: a name-keyed store, the open-handle table, and the next
/// handle id to hand out. Handle ids start at 3 and increase monotonically.
pub struct Fs {
    files: Vec<FileEntry>,
    handles: Vec<OpenFile>,
    next_handle: isize,
}

impl View for Fs {
    type V = FsImage;

    closed spec fn view(&self) -> FsImage {
        FsImage {
            files: self.files@.map_values(|e: FileEntry| e@),
            handles: self.handles@.map_values(|e: OpenFile| e@),
            next_handle: self.next_handle as int,
        }
    }
}

/// Copies a byte buffer.
fn clone_bytes(v: &Vec<u8>) -> (r: Vec<u8>)
    ensures
        r@ == v@,
{
    let mut r: Vec<u8> = Vec::new();
    let mut i: usize = 0;
    while i < v.len()
        invariant
            i <= v.len(),
            r@ == v@.take(i as int),
        decreases v.len() - i,
    {
        r.push(v[i]);
        proof {
            assert(v@.take(i + 1) =~= v@.take(i as int).push(v@[i as int]));
        }
        i = i + 1;
    }
    proof {
        assert(v@.take(v@.len() as int) =~= v@);
    }
    r
}

impl Fs {
    pub open spec fn wf(&self) -> bool {
        fs_inv(self@)
    }

    /// An empty filesystem; the first handle handed out is 3.
    pub fn new() -> (r: Fs)
        ensures
            r.wf(),
            r@.files == Seq::<FileImage>::empty(),
            r@.handles == Seq::<HandleImage>::empty(),
            r@.next_handle == 3,
    {
        Fs { files: Vec::new(), handles: Vec::new(), next_handle: 3 }
    }

    /// Index of the store entry named `name`, scanning in order.
    fn find_file(&self, name: &String) -> (r: Option<usize>)
        ensures
            r matches Some(i) ==> 0 <= i < self@.files.len() && file_index(self@.files, name@)
                == i,
            r is None ==> file_index(self@.files, name@) == -1,
    {
        let ghost files = self@.files;
        let mut i: usize = 0;
        while i < self.files.len()
            invariant
                files == self@.files,
                self.files@.len() == files.len(),
                i <= files.len(),
                forall|j: int| 0 <= j < i ==> files[j].name != name@,
            decreases self.files.len() - i,
        {
            if self.files[i].name == *name {
                proof {
                    lemma_file_index_props(files, name@);
                    assert(files[i as int].name == name@);
                }
                return Some(i);
            }
            i = i + 1;
        }
        proof {
            lemma_file_index_props(files, name@);
        }
        None
    }

    /// Index of the handle-table entry for handle id `h`.
    fn find_handle(&self, h: isize) -> (r: Option<usize>)
        ensures
            r matches Some(i) ==> 0 <= i < self@.handles.len() && handle_index(
                self@.handles,
                h as int,
            ) == i,
            r is None ==> handle_index(self@.handles, h as int) == -1,
    {
        let ghost handles = self@.handles;
        let mut i: usize = 0;
        while i < self.handles.len()
            invariant
                handles == self@.handles,
                self.handles@.len() == handles.len(),
                i <= handles.len(),
                forall|j: int| 0 <= j < i ==> handles[j].handle != h as int,
            decreases self.handles.len() - i,
        {
            if self.handles[i].handle == h {
                proof {
                    lemma_handle_index_props(handles, h as int);
                    assert(handles[i as int].handle == h as int);
                }
                return Some(i);
            }
            i = i + 1;
        }
        proof {
            lemma_handle_index_props(handles, h as int);
        }
        None
    }

    /// The next handle id that `open` will hand out.
    pub fn next_handle_value(&self) -> (r: isize)
        ensures
            r as int == self@.next_handle,
    {
        self.next_handle
    }

    /// The cursor of an open handle, or `None` for an unknown handle.
    pub fn handle_cursor(&self, handle: isize) -> (r: Option<usize>)
        ensures
            r matches Some(p) ==> handle_index(self@.handles, handle as int) >= 0 && p as int
                == self@.handles[handle_index(self@.handles, handle as int)].position,
            r is None ==> handle_index(self@.handles, handle as int) == -1,
    {
        match self.find_handle(handle) {
            Some(i) => Some(self.handles[i].position),
            None => None,
        }
    }

    /// Opens `name`, materializing it (empty) when absent, and returns a new
    /// handle id — or -1 for an exclusive open of an existing name. The id
    /// counter advances even on failure.
    pub fn open(&mut self, name: String, append: bool, exclude: bool, truncate: bool) -> (r:
        isize)
        requires
            old(self).wf(),
            old(self)@.next_handle < isize::MAX,
        ensures
            final(self).wf(),
            (final(self)@, r as int) == open_step(old(self)@, name@, append, exclude, truncate),
            r == -1 <==> (exclude && file_content(old(self)@.files, name@) is Some),
            r != -1 ==> r as int == old(self)@.next_handle,
    {
        let ghost step = open_step(self@, name@, append, exclude, truncate);
        let handle = self.next_handle;
        self.next_handle = self.next_handle + 1;
        let found = self.find_file(&name);
        proof {
            lemma_file_index_props(self@.files, name@);
        }
        if exclude && found.is_some() {
            proof {
                assert(self@ =~~= step.0);
                lemma_open_preserves_inv(old(self)@, name@, append, exclude, truncate);
            }
            return -1;
        }
        let data: Vec<u8> = match found {
            Some(i) => clone_bytes(&self.files[i].data),
            None => {
                self.files.push(FileEntry { name: name.clone(), data: Vec::new() });
                Vec::new()
            },
        };
        let position: usize = if append && !truncate {
            data.len()
        } else {
            0
        };
        self.handles.push(OpenFile { handle, path: name, position, data });
        proof {
            assert(self@.files =~= step.0.files);
            assert(self@.handles =~= step.0.handles);
            assert(self@ =~~= step.0);
            lemma_open_preserves_inv(old(self)@, name@, append, exclude, truncate);
        }
        handle
    }

    /// Commits the handle's buffer back to the store under the handle's name
    /// and discards the handle. An unknown handle is a contract violation.
    pub fn close(&mut self, handle: isize)
        requires
            old(self).wf(),
            handle_index(old(self)@.handles, handle as int) >= 0,
        ensures
            final(self).wf(),
            final(self)@ == close_step(old(self)@, handle as int),
    {
        let ghost step = close_step(self@, handle as int);
        let i = match self.find_handle(handle) {
            Some(i) => i,
            None => {
                proof {
                    assert(false);
                }
                0
            },
        };
        let of = self.handles.remove(i);
        let found = self.find_file(&of.path);
        proof {
            lemma_file_index_props(old(self)@.files, of.path@);
        }
        match found {
            Some(j) => {
                self.files.set(j, FileEntry { name: of.path, data: of.data });
            },
            None => {
                self.files.push(FileEntry { name: of.path, data: of.data });
            },
        }
        proof {
            assert(self@.files =~= step.files);
            assert(self@.handles =~= step.handles);
            assert(self@ =~~= step);
            lemma_close_preserves_inv(old(self)@, handle as int);
        }
    }

    /// Moves the handle's cursor: whence 0 positions at `offset` clamped to
    /// 0, whence 1 adds `offset` to the cursor, whence 2 adds `offset` to
    /// the buffer length, both saturating; the new position is returned.
    /// Any other whence, or an unknown handle, returns -1.
    pub fn seek(&mut self, handle: isize, offset: isize, whence: i32) -> (r: isize)
        requires
            old(self).wf(),
        ensures
            final(self).wf(),
            (final(self)@, r as int) == seek_step(
                old(self)@,
                handle as int,
                offset as int,
                whence as int,
            ),
    {
        let ghost step = seek_step(self@, handle as int, offset as int, whence as int);
        let found = self.find_handle(handle);
        match found {
            None => -1,
            Some(i) => {
                let mut of = self.handles.remove(i);
                let new_position: usize = if whence == 0 {
                    if offset < 0 {
                        0
                    } else {
                        offset as usize
                    }
                } else if whence == 1 {
                    saturating_add_signed(of.position, offset)
                } else if whence == 2 {
                    saturating_add_signed(of.data.len(), offset)
                } else {
                    self.handles.insert(i, of);
                    proof {
                        assert(self@.handles =~= old(self)@.handles);
                        assert(self@ =~~= step.0);
                    }
                    return -1;
                };
                of.position = new_position;
                self.handles.insert(i, of);
                proof {
                    assert(self@.handles =~= step.0.handles);
                    assert(self@ =~~= step.0);
                    lemma_seek_preserves_inv(old(self)@, handle as int, offset as int, whence as int);
                }
                #[verifier::truncate] (new_position as isize)
            },
        }
    }

    /// Writes `bytes` at the handle's cursor per [`write_step`] and returns
    /// the number of bytes written, or -1 for an unknown handle.
    pub fn write(&mut self, handle: isize, bytes: &[u8]) -> (r: isize)
        requires
            old(self).wf(),
            bytes@.len() <= isize::MAX,
            handle_index(old(self)@.handles, handle as int) >= 0 ==> old(self)@.handles[
                handle_index(old(self)@.handles, handle as int)].position + bytes@.len()
                <= usize::MAX,
        ensures
            final(self).wf(),
            (final(self)@, r as int) == write_step(old(self)@, handle as int, bytes@),
    {
        let ghost step = write_step(self@, handle as int, bytes@);
        let found = self.find_handle(handle);
        match found {
            None => -1,
            Some(i) => {
                let mut of = self.handles.remove(i);
                let ghost old_data = of.data@;
                let ghost pos = of.position as int;
                let ghost hid: int = of.handle as int;
                let ghost hpath: Seq<char> = of.path@;
                let ghost target = splice_bytes(old_data, pos, bytes@);
                proof {
                    assert(old(self)@.handles[i as int] == of@);
                    assert(pos + bytes@.len() <= usize::MAX);
                }
                if of.position + bytes.len() <= of.data.len() {
                    let last_position = of.position + bytes.len();
                    let mut k: usize = 0;
                    while k < bytes.len()
                        invariant
                            of.position == pos,
                            of.handle as int == hid,
                            of.path@ == hpath,
                            pos + bytes@.len() <= old_data.len(),
                            old_data.len() <= usize::MAX,
                            k <= bytes@.len(),
                            of.data@.len() == old_data.len(),
                            forall|j: int|
                                0 <= j < old_data.len() && !(pos <= j < pos + k)
                                    ==> of.data@[j] == old_data[j],
                            forall|j: int|
                                pos <= j < pos + k ==> of.data@[j] == bytes@[j - pos],
                        decreases bytes@.len() - k,
                    {
                        of.data.set(of.position + k, bytes[k]);
                        k = k + 1;
                    }
                    proof {
                        assert(of.data@ =~= target);
                    }
                } else if of.position > of.data.len() {
                    let gap = of.position - of.data.len();
                    let mut g: usize = 0;
                    while g < gap
                        invariant
                            of.position == pos,
                            of.handle as int == hid,
                            of.path@ == hpath,
                            pos + bytes@.len() <= usize::MAX,
                            g <= gap,
                            of.data@ == old_data + zero_bytes(g as int),
                        decreases gap - g,
                    {
                        of.data.push(0);
                        proof {
                            assert(old_data + zero_bytes(g + 1)
                                =~= (old_data + zero_bytes(g as int)).push(0u8));
                        }
                        g = g + 1;
                    }
                    let mut k: usize = 0;
                    while k < bytes.len()
                        invariant
                            of.position == pos,
                            of.handle as int == hid,
                            of.path@ == hpath,
                            pos + bytes@.len() <= usize::MAX,
                            k <= bytes@.len(),
                            of.data@ == old_data + zero_bytes(pos - old_data.len())
                                + bytes@.take(k as int),
                        decreases bytes@.len() - k,
                    {
                        of.data.push(bytes[k]);
                        proof {
                            assert(old_data + zero_bytes(pos - old_data.len()) + bytes@.take(
                                k + 1,
                            ) =~= (old_data + zero_bytes(pos - old_data.len()) + bytes@.take(
                                k as int,
                            )).push(bytes@[k as int]));
                        }
                        k = k + 1;
                    }
                    proof {
                        assert(of.data@ =~= target);
                    }
                } else {
                    let middle = of.data.len() - of.position;
                    let mut k: usize = 0;
                    while k < middle
                        invariant
                            of.position == pos,
                            of.handle as int == hid,
                            of.path@ == hpath,
                            pos + middle == old_data.len(),
                            pos + bytes@.len() <= usize::MAX,
                            middle <= bytes@.len(),
                            old_data.len() <= usize::MAX,
                            k <= middle,
                            of.data@.len() == old_data.len(),
                            forall|j: int|
                                0 <= j < old_data.len() && !(pos <= j < pos + k)
                                    ==> of.data@[j] == old_data[j],
                            forall|j: int|
                                pos <= j < pos + k ==> of.data@[j] == bytes@[j - pos],
                        decreases middle - k,
                    {
                        of.data.set(of.position + k, bytes[k]);
                        k = k + 1;
                    }
                    let mut k2: usize = middle;
                    while k2 < bytes.len()
                        invariant
                            of.position == pos,
                            of.handle as int == hid,
                            of.path@ == hpath,
                            pos + middle == old_data.len(),
                            pos + bytes@.len() <= usize::MAX,
                            middle <= k2 <= bytes@.len(),
                            of.data@ == old_data.take(pos) + bytes@.take(k2 as int),
                        decreases bytes@.len() - k2,
                    {
                        of.data.push(bytes[k2]);
                        proof {
                            assert(old_data.take(pos) + bytes@.take(k2 + 1)
                                =~= (old_data.take(pos) + bytes@.take(k2 as int)).push(
                                bytes@[k2 as int]));
                        }
                        k2 = k2 + 1;
                    }
                    proof {
                        assert(of.data@ =~= target);
                    }
                }
                of.position = of.position + bytes.len();
                self.handles.insert(i, of);
                proof {
                    assert(self@.handles =~= step.0.handles);
                    assert(self@ =~~= step.0);
                    lemma_write_preserves_inv(old(self)@, handle as int, bytes@);
                }
                bytes.len() as isize
            },
        }
    }

    /// Reads up to `buf.len()` bytes at the handle's cursor per
    /// [`read_step`]: the bytes read replace the front of `buf`, the rest of
    /// `buf` is kept, and the count is returned — 0 at end-of-data, -1 for
    /// an unknown handle.
    pub fn read(&mut self, handle: isize, buf: &mut Vec<u8>) -> (r: isize)
        requires
            old(self).wf(),
            old(buf)@.len() <= isize::MAX,
        ensures
            final(self).wf(),
            ({
                let (fs2, chunk, count) = read_step(
                    old(self)@,
                    handle as int,
                    old(buf)@.len() as int,
                );
                &&& final(self)@ == fs2
                &&& r as int == count
                &&& count >= 0 ==> final(buf)@ == chunk + old(buf)@.skip(count)
                &&& count < 0 ==> final(buf)@ == old(buf)@
            }),
    {
        let ghost step = read_step(self@, handle as int, buf@.len() as int);
        let found = self.find_handle(handle);
        match found {
            None => -1,
            Some(i) => {
                let mut of = self.handles.remove(i);
                if of.position >= of.data.len() {
                    self.handles.insert(i, of);
                    proof {
                        assert(self@.handles =~= old(self)@.handles);
                        assert(self@ =~~= step.0);
                        assert(buf@ =~= step.1 + buf@.skip(0));
                    }
                    return 0;
                }
                let avail = of.data.len() - of.position;
                let count: usize = if buf.len() > avail {
                    avail
                } else {
                    buf.len()
                };
                let mut out: Vec<u8> = Vec::new();
                let mut k: usize = 0;
                while k < count
                    invariant
                        k <= count,
                        of.position + count <= of.data@.len(),
                        of.data@.len() <= usize::MAX,
                        out@ == of.data@.subrange(of.position as int, of.position + k),
                    decreases count - k,
                {
                    out.push(of.data[of.position + k]);
                    proof {
                        assert(of.data@.subrange(of.position as int, of.position + k + 1)
                            =~= of.data@.subrange(of.position as int, of.position + k).push(
                            of.data@[of.position + k]));
                    }
                    k = k + 1;
                }
                let mut j: usize = count;
                while j < buf.len()
                    invariant
                        count <= j <= buf@.len(),
                        buf@ == old(buf)@,
                        of.position + count <= of.data@.len(),
                        of.data@.len() <= usize::MAX,
                        out@ == of.data@.subrange(of.position as int, of.position + count)
                            + buf@.subrange(count as int, j as int),
                    decreases buf@.len() - j,
                {
                    out.push(buf[j]);
                    proof {
                        assert(of.data@.subrange(of.position as int, of.position + count)
                            + buf@.subrange(count as int, j + 1) =~= (of.data@.subrange(
                            of.position as int,
                            of.position + count,
                        ) + buf@.subrange(count as int, j as int)).push(buf@[j as int]));
                    }
                    j = j + 1;
                }
                *buf = out;
                of.position = of.position + count;
                self.handles.insert(i, of);
                proof {
                    assert(self@.handles =~= step.0.handles);
                    assert(self@ =~~= step.0);
                    assert(buf@ =~= step.1 + old(buf)@.skip(step.2));
                    lemma_read_preserves_inv(old(self)@, handle as int, old(buf)@.len() as int);
                }
                count as isize
            },
        }
    }
}

/// With distinct store names, an entry named `name` at index `k` is the one
/// the lookup finds.
pub proof fn lemma_file_index_unique(files: Seq<FileImage>, name: Seq<char>, k: int)
    requires
        0 <= k < files.len(),
        files[k].name == name,
        forall|i: int, j: int| 0 <= i < j < files.len() ==> files[i].name != files[j].name,
    ensures
        file_index(files, name) == k,
{
    lemma_file_index_props(files, name);
    let fi = file_index(files, name);
    if fi == -1 {
        assert(files[k].name != name);
    } else if fi < k {
        assert(files[fi].name != files[k].name);
    } else if fi > k {
        assert(files[k].name != files[fi].name);
    }
}

/// With distinct handle ids, the entry with id `h` at index `k` is the one
/// the lookup finds.
pub proof fn lemma_handle_index_unique(handles: Seq<HandleImage>, h: int, k: int)
    requires
        0 <= k < handles.len(),
        handles[k].handle == h,
        forall|i: int, j: int|
            0 <= i < j < handles.len() ==> handles[i].handle != handles[j].handle,
    ensures
        handle_index(handles, h) == k,
{
    lemma_handle_index_props(handles, h);
    let hi = handle_index(handles, h);
    if hi == -1 {
        assert(handles[k].handle != h);
    } else if hi < k {
        assert(handles[hi].handle != handles[k].handle);
    } else if hi > k {
        assert(handles[k].handle != handles[hi].handle);
    }
}

/// Committing `data` under `name` stores exactly `data` there and leaves
/// every other name's content unchanged.
pub proof fn lemma_store_file_content(files: Seq<FileImage>, name: Seq<char>, data: Seq<u8>)
    requires
        forall|i: int, j: int| 0 <= i < j < files.len() ==> files[i].name != files[j].name,
    ensures
        file_content(store_file(files, name, data), name) == Some(data),
        forall|i: int, j: int|
            0 <= i < j < store_file(files, name, data).len() ==> store_file(
                files,
                name,
                data,
            )[i].name != store_file(files, name, data)[j].name,
{
    lemma_file_index_props(files, name);
    let fi = file_index(files, name);
    let stored = store_file(files, name, data);
    if fi >= 0 {
        assert(stored[fi].name == name);
        lemma_file_index_unique(stored, name, fi);
    } else {
        assert(stored[files.len() as int].name == name);
        assert forall|i: int, j: int| 0 <= i < j < stored.len() implies stored[i].name
            != stored[j].name by {
            if j < files.len() {
                assert(files[i].name != files[j].name);
            } else {
                assert(files[i].name != name);
            }
        }
        lemma_file_index_unique(stored, name, files.len() as int);
    }
}

/// Law: `open` keeps the state well-formed.
pub proof fn lemma_open_preserves_inv(
    fs: FsImage,
    name: Seq<char>,
    append: bool,
    exclude: bool,
    truncate: bool,
)
    requires
        fs_inv(fs),
    ensures
        fs_inv(open_step(fs, name, append, exclude, truncate).0),
{
    lemma_file_index_props(fs.files, name);
    let fs2 = open_step(fs, name, append, exclude, truncate).0;
    assert forall|i: int| 0 <= i < fs2.files.len() implies (#[trigger] fs2.files[i]).data.len()
        <= usize::MAX by {
        if i < fs.files.len() {
            assert(fs2.files[i] == fs.files[i]);
        }
    }
    assert forall|i: int| 0 <= i < fs2.handles.len() implies {
        let hd = #[trigger] fs2.handles[i];
        0 <= hd.position <= usize::MAX && hd.data.len() <= usize::MAX
    } by {
        if i < fs.handles.len() {
            assert(fs2.handles[i] == fs.handles[i]);
        } else {
            let fi = file_index(fs.files, name);
            if fi >= 0 {
                assert(fs.files[fi].data.len() <= usize::MAX);
            }
        }
    }
}

/// Law: `close` keeps the state well-formed.
pub proof fn lemma_close_preserves_inv(fs: FsImage, h: int)
    requires
        fs_inv(fs),
    ensures
        fs_inv(close_step(fs, h)),
{
    let i = handle_index(fs.handles, h);
    if i >= 0 {
        lemma_handle_index_props(fs.handles, h);
        lemma_store_file_content(fs.files, fs.handles[i].path, fs.handles[i].data);
        let rest = fs.handles.remove(i);
        assert forall|a: int, b: int| 0 <= a < b < rest.len() implies rest[a].handle
            != rest[b].handle by {
            let a0 = if a < i {
                a
            } else {
                a + 1
            };
            let b0 = if b < i {
                b
            } else {
                b + 1
            };
            assert(rest[a] == fs.handles[a0]);
            assert(rest[b] == fs.handles[b0]);
        }
        assert forall|a: int| 0 <= a < rest.len() implies 3 <= #[trigger] rest[a].handle
            < fs.next_handle by {
            let a0 = if a < i {
                a
            } else {
                a + 1
            };
            assert(rest[a] == fs.handles[a0]);
        }
        assert forall|a: int| 0 <= a < rest.len() implies {
            let hd = #[trigger] rest[a];
            0 <= hd.position <= usize::MAX && hd.data.len() <= usize::MAX
        } by {
            let a0 = if a < i {
                a
            } else {
                a + 1
            };
            assert(rest[a] == fs.handles[a0]);
        }
        let stored = store_file(fs.files, fs.handles[i].path, fs.handles[i].data);
        lemma_file_index_props(fs.files, fs.handles[i].path);
        assert forall|a: int| 0 <= a < stored.len() implies (#[trigger] stored[a]).data.len()
            <= usize::MAX by {
            let fi = file_index(fs.files, fs.handles[i].path);
            if 0 <= a < fs.files.len() && (fi < 0 || a != fi) {
                assert(stored[a] == fs.files[a]);
            } else {
                assert(stored[a].data == fs.handles[i].data);
            }
        }
    }
}

/// Law: `seek` keeps the state well-formed.
pub proof fn lemma_seek_preserves_inv(fs: FsImage, h: int, offset: int, whence: int)
    requires
        fs_inv(fs),
    ensures
        fs_inv(seek_step(fs, h, offset, whence).0),
{
    lemma_handle_index_props(fs.handles, h);
}

/// Law: `write` keeps the state well-formed, whenever the advanced cursor
/// still fits the machine.
pub proof fn lemma_write_preserves_inv(fs: FsImage, h: int, bytes: Seq<u8>)
    requires
        fs_inv(fs),
        handle_index(fs.handles, h) >= 0 ==> fs.handles[handle_index(fs.handles, h)].position
            + bytes.len() <= usize::MAX,
    ensures
        fs_inv(write_step(fs, h, bytes).0),
{
    lemma_handle_index_props(fs.handles, h);
}

/// Law: `read` keeps the state well-formed for any requested length.
pub proof fn lemma_read_preserves_inv(fs: FsImage, h: int, req: int)
    requires
        fs_inv(fs),
        req >= 0,
    ensures
        fs_inv(read_step(fs, h, req).0),
{
    lemma_handle_index_props(fs.handles, h);
}

/// Law: a write is read back. Opening `name`, writing `bytes` at cursor 0,
/// closing, reopening and reading `bytes.len()` bytes yields exactly
/// `bytes`, whatever was stored under `name` before.
pub proof fn lemma_round_trip(fs: FsImage, name: Seq<char>, bytes: Seq<u8>)
    requires
        fs_inv(fs),
        bytes.len() <= usize::MAX,
    ensures
        ({
            let (fs1, h) = open_step(fs, name, false, false, false);
            let (fs2, w) = write_step(fs1, h, bytes);
            let fs3 = close_step(fs2, h);
            let (fs4, h2) = open_step(fs3, name, false, false, false);
            let (fs5, chunk, count) = read_step(fs4, h2, bytes.len() as int);
            &&& w == bytes.len()
            &&& count == bytes.len()
            &&& chunk == bytes
        }),
{
    let (fs1, h) = open_step(fs, name, false, false, false);
    lemma_open_preserves_inv(fs, name, false, false, false);
    lemma_file_index_props(fs.files, name);
    assert(fs1.handles[fs1.handles.len() - 1].handle == h);
    lemma_handle_index_unique(fs1.handles, h, fs1.handles.len() - 1);
    let hi = handle_index(fs1.handles, h);
    let data0 = fs1.handles[hi].data;
    let (fs2, w) = write_step(fs1, h, bytes);
    lemma_write_preserves_inv(fs1, h, bytes);
    let d1 = splice_bytes(data0, 0, bytes);
    assert(d1.subrange(0, bytes.len() as int) =~= bytes);
    assert(fs2.handles[hi].data == d1);
    assert(fs2.handles[hi].path == name);
    let fs3 = close_step(fs2, h);
    lemma_close_preserves_inv(fs2, h);
    lemma_handle_index_unique(fs2.handles, h, hi);
    lemma_store_file_content(fs2.files, name, d1);
    assert(file_content(fs3.files, name) == Some(d1));
    let (fs4, h2) = open_step(fs3, name, false, false, false);
    lemma_open_preserves_inv(fs3, name, false, false, false);
    lemma_file_index_props(fs3.files, name);
    assert(fs4.handles[fs4.handles.len() - 1] == HandleImage {
        handle: h2,
        path: name,
        position: 0,
        data: d1,
    });
    lemma_handle_index_unique(fs4.handles, h2, fs4.handles.len() - 1);
    let hj = handle_index(fs4.handles, h2);
    if d1.len() == 0 {
        assert(bytes.len() == 0);
        assert(read_step(fs4, h2, 0).1 =~= bytes);
    } else {
        assert(read_step(fs4, h2, bytes.len() as int).1 =~= bytes);
    }
}

/// Law: exclusive create fails exactly on an existing name. The first
/// exclusive open of `name` succeeds when `name` is absent and makes it
/// present; a second exclusive open of the same name always fails.
pub proof fn lemma_exclusive_create(
    fs: FsImage,
    name: Seq<char>,
    append1: bool,
    truncate1: bool,
    append2: bool,
    truncate2: bool,
)
    requires
        fs_inv(fs),
    ensures
        ({
            let (fs1, h1) = open_step(fs, name, append1, true, truncate1);
            let (fs2, h2) = open_step(fs1, name, append2, true, truncate2);
            &&& (file_content(fs.files, name) is None ==> h1 != -1)
            &&& (file_content(fs.files, name) is Some ==> h1 == -1)
            &&& h2 == -1
        }),
{
    lemma_open_preserves_inv(fs, name, append1, true, truncate1);
    lemma_file_index_props(fs.files, name);
    let (fs1, h1) = open_step(fs, name, append1, true, truncate1);
    if file_index(fs.files, name) >= 0 {
        assert(file_index(fs1.files, name) >= 0);
    } else {
        assert(fs1.files[fs.files.len() as int].name == name);
        lemma_file_index_unique(fs1.files, name, fs.files.len() as int);
    }
}

/// Law: seek positions where it says. From the end (whence 2) the cursor
/// becomes the buffer length plus the offset; absolute (whence 0) it
/// becomes the offset; both clamp at the ends of the cursor's range, so a
/// negative absolute offset yields position 0.
pub proof fn lemma_seek_semantics(fs: FsImage, h: int, offset: int)
    requires
        fs_inv(fs),
        handle_index(fs.handles, h) >= 0,
    ensures
        ({
            let hd = fs.handles[handle_index(fs.handles, h)];
            let l = hd.data.len() as int;
            &&& seek_step(fs, h, offset, 2).1 == wrap_position(clamp_to_usize(l + offset))
            &&& seek_step(fs, h, offset, 0).1 == wrap_position(clamp_to_usize(offset))
            &&& (0 <= l + offset <= isize::MAX ==> seek_step(fs, h, offset, 2).1 == l + offset)
            &&& (offset <= 0 ==> seek_step(fs, h, offset, 0).1 == 0)
        }),
{
    lemma_handle_index_props(fs.handles, h);
}

/// Adds a signed offset to a cursor, saturating at the ends of the cursor's
/// range.
fn saturating_add_signed(pos: usize, off: isize) -> (r: usize)
    ensures
        r as int == clamp_to_usize(pos + off),
{
    if off >= 0 {
        let o = off as usize;
        if pos > usize::MAX - o {
            usize::MAX
        } else {
            pos + o
        }
    } else {
        let magnitude: usize = if off == isize::MIN {
            (isize::MAX as usize) + 1
        } else {
            (-off) as usize
        };
        if pos < magnitude {
            0
        } else {
            pos - magnitude
        }
    }
}

} // verus!
