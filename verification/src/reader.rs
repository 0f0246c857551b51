//! Reading up to the end of a header: bytes are taken from a source one at a
//! time, so that nothing behind the terminator is consumed.
use crate::header::terminator;
use crate::scan::{
    first_match, lemma_first_match, lemma_first_match_unique, matches_at, occurs_at,
};
use vstd::prelude::*;
use vstd::slice::slice_subrange;

verus! {

/// Why reading stopped before the header's end or the buffer's.
#[derive(Clone, Copy, Debug, PartialEq, Eq, Structural)]
pub enum SourceError {
    /// The source ran dry.
    UnexpectedEof,
}

/// What to do after a byte was stored.
#[derive(Clone, Copy, Debug, PartialEq, Eq, Structural)]
pub enum Progress {
    /// The bytes stored so far end with the terminator; there are this many.
    Found(usize),
    /// No terminator, and the buffer has no room left.
    Full,
    /// No terminator yet, and there is room: read another byte.
    More,
}

/// `filled` ends with the terminator.
pub open spec fn ends_header(filled: Seq<u8>) -> bool {
    matches_at(filled, terminator(), filled.len() - 4)
}

/// The step that follows once `filled` is stored in a buffer of `capacity`
/// bytes.
pub open spec fn progress_spec(filled: Seq<u8>, capacity: nat) -> Progress {
    if ends_header(filled) {
        Progress::Found(filled.len() as usize)
    } else if filled.len() >= capacity {
        Progress::Full
    } else {
        Progress::More
    }
}

/// Decides the step that follows once `filled` is stored in a buffer of
/// `capacity` bytes.
pub fn progress(filled: &[u8], capacity: usize) -> (r: Progress)
    ensures
        r == progress_spec(filled@, capacity as nat),
{
    let end: [u8; 4] = [0x0d, 0x0a, 0x0d, 0x0a];
    assert(end@ =~= terminator());
    let n: usize = filled.len();
    if n >= 4 && occurs_at(filled, end.as_slice(), n - 4) {
        Progress::Found(n)
    } else if n >= capacity {
        Progress::Full
    } else {
        Progress::More
    }
}

/// A byte source held in memory.
#[derive(Clone, Copy, Debug)]
pub struct ByteSource<'a> {
    rest: &'a [u8],
}

impl<'a> ByteSource<'a> {
    /// The bytes that are still to come.
    pub closed spec fn remaining(&self) -> Seq<u8> {
        self.rest@
    }

    /// A source that yields `bytes`.
    pub fn new(bytes: &'a [u8]) -> (r: Self)
        ensures
            r.remaining() == bytes@,
    {
        ByteSource { rest: bytes }
    }

    /// The bytes that are still to come.
    pub fn as_bytes(&self) -> (r: &'a [u8])
        ensures
            r@ == self.remaining(),
    {
        self.rest
    }

    /// Takes the next byte from the source. `None` where it ran dry.
    pub fn next_byte(&mut self) -> (r: Option<u8>)
        ensures
            match r {
                Some(b) => {
                    &&& old(self).remaining().len() > 0
                    &&& b == old(self).remaining()[0]
                    &&& final(self).remaining() == old(self).remaining().subrange(
                        1,
                        old(self).remaining().len() as int,
                    )
                },
                None => old(self).remaining().len() == 0 && final(self).remaining() == old(
                    self,
                ).remaining(),
            },
    {
        let n: usize = self.rest.len();
        if n == 0 {
            None
        } else {
            let b: u8 = self.rest[0];
            self.rest = slice_subrange(self.rest, 1, n);
            Some(b)
        }
    }
}

/// How many bytes a read takes from a source that holds `rest`, into a buffer
/// of `capacity` bytes: up to the end of the first terminator, of the buffer or
/// of the source, whichever comes first.
pub open spec fn taken(rest: Seq<u8>, capacity: nat) -> nat {
    let stop = match first_match(rest, terminator()) {
        Some(i) => (i + 4) as nat,
        None => rest.len(),
    };
    if stop <= capacity {
        stop
    } else {
        capacity
    }
}

/// What a read returns: the end of the first terminator where the buffer has
/// room for it; else nothing where the source can fill the buffer; else the
/// source ran dry.
pub open spec fn read_spec(rest: Seq<u8>, capacity: nat) -> Result<Option<usize>, SourceError> {
    match first_match(rest, terminator()) {
        Some(i) if i + 4 <= capacity => Ok(Some((i + 4) as usize)),
        _ => if capacity <= rest.len() {
            Ok(None)
        } else {
            Err(SourceError::UnexpectedEof)
        },
    }
}

/// Reads from `source` into `buf` until the end of a header was read or `buf`
/// is full.
///
/// Returns `Some(header_len)` where the terminator was read, `None` where `buf`
/// was filled without one. The bytes taken from `source` are gone from it,
/// whatever is returned; nothing behind the terminator is taken.
pub fn read(source: &mut ByteSource, buf: &mut [u8]) -> (r: Result<Option<usize>, SourceError>)
    ensures
        r == read_spec(old(source).remaining(), old(buf)@.len()),
        final(buf)@.len() == old(buf)@.len(),
        final(buf)@ == old(source).remaining().subrange(
            0,
            taken(old(source).remaining(), old(buf)@.len()) as int,
        ) + old(buf)@.subrange(
            taken(old(source).remaining(), old(buf)@.len()) as int,
            old(buf)@.len() as int,
        ),
        final(source).remaining() == old(source).remaining().subrange(
            taken(old(source).remaining(), old(buf)@.len()) as int,
            old(source).remaining().len() as int,
        ),
{
    let ghost rest = source.remaining();
    let ghost before = buf@;
    let capacity: usize = buf.len();
    let mut pos: usize = 0;
    proof {
        lemma_first_match(rest, terminator());
        assert(rest.subrange(0, rest.len() as int) =~= rest);
        assert(buf@ =~= rest.subrange(0, 0) + before.subrange(0, capacity as int));
    }
    while pos < capacity
        invariant
            rest == old(source).remaining(),
            before == old(buf)@,
            capacity == before.len(),
            buf@.len() == capacity,
            pos <= capacity,
            pos <= rest.len(),
            source.remaining() == rest.subrange(pos as int, rest.len() as int),
            buf@ == rest.subrange(0, pos as int) + before.subrange(pos as int, capacity as int),
            forall|j: int| j + 4 <= pos ==> !matches_at(rest, terminator(), j),
        decreases capacity - pos,
    {
        let byte: u8 = match source.next_byte() {
            Some(byte) => byte,
            None => {
                proof {
                    lemma_first_match(rest, terminator());
                }
                return Err(SourceError::UnexpectedEof);
            },
        };
        buf[pos] = byte;
        pos += 1;
        proof {
            assert(buf@ =~= rest.subrange(0, pos as int) + before.subrange(
                pos as int,
                capacity as int,
            ));
            assert(source.remaining() =~= rest.subrange(pos as int, rest.len() as int));
        }
        let filled: &[u8] = slice_subrange(buf, 0, pos);
        assert(filled@ =~= rest.subrange(0, pos as int));
        match progress(filled, capacity) {
            Progress::Found(n) => {
                proof {
                    assert(filled@.subrange(pos - 4, pos as int) =~= rest.subrange(
                        pos - 4,
                        pos as int,
                    ));
                    assert(matches_at(rest, terminator(), pos - 4));
                    lemma_first_match_unique(rest, terminator(), pos - 4);
                }
                return Ok(Some(n));
            },
            _ => {
                proof {
                    if pos >= 4 {
                        assert(filled@.subrange(pos - 4, pos as int) =~= rest.subrange(
                            pos - 4,
                            pos as int,
                        ));
                    }
                    assert(!matches_at(rest, terminator(), pos - 4));
                }
            },
        }
    }
    proof {
        lemma_first_match(rest, terminator());
    }
    Ok(None)
}

/// A header of exactly `n` bytes, its terminator included, does not fit a
/// buffer of `n - 1` bytes, and is found in a buffer of `n` bytes, at offset
/// `n`.
pub proof fn lemma_read_needs_whole_header(rest: Seq<u8>, n: usize)
    requires
        first_match(rest, terminator()) == Some(n - 4),
    ensures
        read_spec(rest, (n - 1) as nat) == Ok::<_, SourceError>(None::<usize>),
        read_spec(rest, n as nat) == Ok::<_, SourceError>(Some(n)),
        taken(rest, (n - 1) as nat) == n - 1,
        taken(rest, n as nat) == n,
{
    lemma_first_match(rest, terminator());
}

} // verus!
