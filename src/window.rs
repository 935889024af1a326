use vstd::prelude::*;

use crate::delta::Delta;
use crate::rope::ByteRope;

verus! {

/// The bytes of a file held in memory: `rope` is the file's range
/// `[start_offset, start_offset + rope.len())`. Chunks are added at either
/// edge and, past two chunks, dropped at the other edge.
pub struct Window {
    start_offset: usize,
    rope: ByteRope,
    file_len: usize,
    chunk_size: usize,
}

/// A read the window asks for: `len` bytes of the file from `offset`.
#[derive(Debug, PartialEq, Eq, Structural)]
pub struct ChunkRequest {
    pub offset: usize,
    pub len: usize,
}

pub open spec fn min_nat(a: nat, b: nat) -> nat {
    if a < b {
        a
    } else {
        b
    }
}

impl Window {
    pub closed spec fn start(&self) -> nat {
        self.start_offset as nat
    }

    pub closed spec fn contents(&self) -> Seq<u8> {
        self.rope@
    }

    pub closed spec fn file_size(&self) -> nat {
        self.file_len as nat
    }

    pub closed spec fn chunk(&self) -> nat {
        self.chunk_size as nat
    }

    /// The window lies inside the file and holds between one chunk (or the
    /// whole file, if smaller) and two chunks.
    pub open spec fn bounded(&self) -> bool {
        &&& self.chunk() > 0
        &&& self.start() + self.contents().len() <= self.file_size()
        &&& min_nat(self.file_size(), self.chunk()) <= self.contents().len()
        &&& self.contents().len() <= 2 * self.chunk()
    }

    pub open spec fn wf(&self) -> bool {
        self.bounded()
    }

    /// How many bytes of `chunk` a bottom extension takes: at most one
    /// chunk, and none past the end of the file.
    pub open spec fn bottom_take(&self, chunk: Seq<u8>) -> nat {
        min_nat(
            chunk.len(),
            min_nat(self.chunk(), (self.file_size() - self.start() - self.contents().len()) as nat),
        )
    }

    /// The window's bytes with the taken part of `chunk` after them.
    pub open spec fn bottom_grown(&self, chunk: Seq<u8>) -> Seq<u8> {
        self.contents() + chunk.subrange(0, self.bottom_take(chunk) as int)
    }

    /// Whether the grown window holds more than two chunks.
    pub open spec fn bottom_trims(&self, chunk: Seq<u8>) -> bool {
        self.bottom_grown(chunk).len() > 2 * self.chunk()
    }

    /// The window's bytes after a bottom extension by `chunk`: the first
    /// chunk is dropped when the grown window holds more than two.
    pub open spec fn after_bottom(&self, chunk: Seq<u8>) -> Seq<u8> {
        let grown = self.bottom_grown(chunk);
        if self.bottom_trims(chunk) {
            grown.subrange(self.chunk() as int, grown.len() as int)
        } else {
            grown
        }
    }

    /// How many bytes a top extension adds: one chunk, or what is left
    /// above the window.
    pub open spec fn top_len(&self) -> nat {
        min_nat(self.chunk(), self.start())
    }

    /// The window's bytes after a top extension by `chunk`: the last chunk
    /// is dropped when the grown window holds more than two.
    pub open spec fn after_top(&self, chunk: Seq<u8>) -> Seq<u8> {
        let grown = chunk + self.contents();
        if grown.len() > 2 * self.chunk() {
            grown.subrange(0, grown.len() - self.chunk())
        } else {
            grown
        }
    }

    /// A window over the start of a file of `file_len` bytes, from the
    /// file's first `min(file_len, chunk_size)` bytes. `None` when
    /// `chunk_size` is zero or `first` has another length.
    pub fn new(file_len: usize, chunk_size: usize, first: Vec<u8>) -> (r: Option<Window>)
        ensures
            r is Some <==> (chunk_size > 0 && first@.len() == min_nat(
                file_len as nat,
                chunk_size as nat,
            )),
            r matches Some(w) ==> {
                &&& w.wf()
                &&& w.start() == 0
                &&& w.contents() == first@
                &&& w.file_size() == file_len
                &&& w.chunk() == chunk_size
            },
    {
        let want = if file_len < chunk_size {
            file_len
        } else {
            chunk_size
        };
        if chunk_size == 0 || first.len() != want {
            return None;
        }
        Some(Window { start_offset: 0, rope: ByteRope::from_vec(first), file_len, chunk_size })
    }

    pub fn start_offset(&self) -> (r: usize)
        ensures
            r == self.start(),
    {
        self.start_offset
    }

    pub fn rope(&self) -> (r: &ByteRope)
        ensures
            r@ == self.contents(),
    {
        &self.rope
    }

    pub fn len(&self) -> (r: usize)
        ensures
            r == self.contents().len(),
    {
        self.rope.len()
    }

    pub fn chunk_size(&self) -> (r: usize)
        ensures
            r == self.chunk(),
    {
        self.chunk_size
    }

    pub fn file_len(&self) -> (r: usize)
        ensures
            r == self.file_size(),
    {
        self.file_len
    }

    /// Whether a view ending at window position `view_end` is within the
    /// last tenth of the window.
    pub fn is_near_bottom(&self, view_end: usize) -> (r: bool)
        ensures
            r == (self.contents().len() - view_end < self.contents().len() / 10),
    {
        let total = self.rope.len();
        view_end > total || total - view_end < total / 10
    }

    /// Whether a view starting at window position `view_start` is within
    /// the first tenth of the window.
    pub fn is_near_top(&self, view_start: usize) -> (r: bool)
        ensures
            r == (view_start < self.contents().len() / 10),
    {
        view_start < self.rope.len() / 10
    }

    /// The read that extends the window downwards: the bytes right after
    /// it, at most one chunk, not past the end of the file.
    pub fn bottom_request(&self) -> (r: ChunkRequest)
        requires
            self.wf(),
        ensures
            r.offset == self.start() + self.contents().len(),
            r.len == min_nat(
                self.chunk(),
                (self.file_size() - self.start() - self.contents().len()) as nat,
            ),
    {
        let offset = self.start_offset + self.rope.len();
        let room = self.file_len - offset;
        let len = if room < self.chunk_size {
            room
        } else {
            self.chunk_size
        };
        ChunkRequest { offset, len }
    }

    /// The read that extends the window upwards: the bytes right before
    /// it, at most one chunk.
    pub fn top_request(&self) -> (r: ChunkRequest)
        requires
            self.wf(),
        ensures
            r.offset + r.len == self.start(),
            r.len == min_nat(self.chunk(), self.start()),
    {
        let offset = if self.start_offset < self.chunk_size {
            0
        } else {
            self.start_offset - self.chunk_size
        };
        ChunkRequest { offset, len: self.start_offset - offset }
    }

    /// Appends the bytes read after the window; at most the length that
    /// `bottom_request` asks for is used, and an empty read (the end of the
    /// file) changes nothing. When the window then holds more than two
    /// chunks, its first chunk is dropped. Returns how many bytes were
    /// dropped at the top.
    pub fn extend_bottom(&mut self, chunk: &Vec<u8>) -> (dropped: usize)
        requires
            old(self).wf(),
        ensures
            final(self).wf(),
            final(self).file_size() == old(self).file_size(),
            final(self).chunk() == old(self).chunk(),
            old(self).bottom_grown(chunk@).len() <= usize::MAX,
            final(self).contents() == old(self).after_bottom(chunk@),
            final(self).start() == old(self).start() + dropped,
            dropped == if old(self).bottom_trims(chunk@) {
                old(self).chunk()
            } else {
                0
            },
    {
        let req = self.bottom_request();
        let k = if chunk.len() < req.len {
            chunk.len()
        } else {
            req.len
        };
        let bytes = crate::rope::copy_range(chunk, 0, k);
        let n = self.rope.len();
        let ins = Delta::insert(n, n, bytes);
        let grown = match self.rope.apply_delta(&ins) {
            Ok(g) => g,
            Err(_) => {
                proof {
                    assert(false);
                }
                return 0;
            },
        };
        proof {
            assert(self.rope@.subrange(0, n as int) =~= self.rope@);
            assert(self.rope@.subrange(n as int, n as int) =~= Seq::<u8>::empty());
            assert(grown@ =~= self.rope@ + chunk@.subrange(0, k as int));
        }
        let c = self.chunk_size;
        let g = grown.len();
        assert(grown@.len() <= usize::MAX);
        if g > c && g - c > c {
            let del = Delta::delete(g, 0, c);
            let trimmed = match grown.apply_delta(&del) {
                Ok(t) => t,
                Err(_) => {
                    proof {
                        assert(false);
                    }
                    return 0;
                },
            };
            proof {
                assert(grown@.subrange(0, 0) =~= Seq::<u8>::empty());
                assert(trimmed@ =~= grown@.subrange(c as int, g as int));
            }
            self.rope = trimmed;
            self.start_offset = self.start_offset + c;
            c
        } else {
            self.rope = grown;
            0
        }
    }

    /// Prepends the bytes read before the window, which must be exactly
    /// what `top_request` asks for; otherwise nothing changes and the
    /// result is `None`. When the window then holds more than two chunks,
    /// its last chunk is dropped. Returns how many bytes were added at the
    /// top.
    pub fn extend_top(&mut self, chunk: &Vec<u8>) -> (added: Option<usize>)
        requires
            old(self).wf(),
        ensures
            final(self).wf(),
            final(self).file_size() == old(self).file_size(),
            final(self).chunk() == old(self).chunk(),
            chunk@.len() != old(self).top_len() ==> added is None && *final(self) == *old(self),
            chunk@.len() == old(self).top_len() ==> {
                &&& (chunk@ + old(self).contents()).len() <= usize::MAX
                &&& added == Some(old(self).top_len() as usize)
                &&& final(self).start() == old(self).start() - old(self).top_len()
                &&& final(self).contents() == old(self).after_top(chunk@)
            },
    {
        let req = self.top_request();
        if chunk.len() != req.len {
            return None;
        }
        let bytes = crate::rope::copy_range(chunk, 0, chunk.len());
        let n = self.rope.len();
        let ins = Delta::insert(n, 0, bytes);
        let grown = match self.rope.apply_delta(&ins) {
            Ok(g) => g,
            Err(_) => {
                proof {
                    assert(false);
                }
                return None;
            },
        };
        proof {
            assert(self.rope@.subrange(0, 0) =~= Seq::<u8>::empty());
            assert(self.rope@.subrange(0, n as int) =~= self.rope@);
            assert(chunk@.subrange(0, chunk@.len() as int) =~= chunk@);
            assert(grown@ =~= chunk@ + self.rope@);
        }
        let c = self.chunk_size;
        let g = grown.len();
        assert(grown@.len() <= usize::MAX);
        if g > c && g - c > c {
            let del = Delta::delete(g, g - c, g);
            let trimmed = match grown.apply_delta(&del) {
                Ok(t) => t,
                Err(_) => {
                    proof {
                        assert(false);
                    }
                    return None;
                },
            };
            proof {
                assert(grown@.subrange(g as int, g as int) =~= Seq::<u8>::empty());
                assert(trimmed@ =~= grown@.subrange(0, g - c));
            }
            self.rope = trimmed;
        } else {
            self.rope = grown;
        }
        self.start_offset = req.offset;
        Some(req.len)
    }
}

} // verus!
