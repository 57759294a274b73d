//! The disassembler: splits an arbitrary byte payload into consecutive
//! fixed-capacity fragments tagged with their position and total count.

use vstd::prelude::*;

verus! {

/// The fixed capacity of one fragment's payload buffer, in bytes.
pub const FRAGMENT_DSIZE: usize = 128;

/// A bounded chunk of a larger payload: its ordinal position, the
/// total number of fragments in its session, how many leading bytes of
/// `data` are meaningful, and the fixed-capacity buffer itself.
#[derive(Clone, Debug)]
pub struct Fragment {
    pub fragment_index: u64,
    pub total_n_fragments: u64,
    pub length: u8,
    pub data: Vec<u8>,
}

impl Fragment {
    /// Validity: the buffer has exactly the protocol capacity, and the
    /// meaningful length fits within it.
    pub open spec fn wf(&self) -> bool {
        &&& self.data@.len() == FRAGMENT_DSIZE
        &&& self.length as int <= FRAGMENT_DSIZE
    }

    /// The meaningful bytes: the first `length` bytes of the buffer.
    pub open spec fn payload(&self) -> Seq<u8> {
        self.data@.take(self.length as int)
    }
}

/// How many fragments a payload of `len` bytes yields: one per full
/// chunk, plus one for a trailing partial chunk. An empty payload
/// yields none.
pub open spec fn total_fragments_of(len: nat) -> nat {
    len / (FRAGMENT_DSIZE as nat) + (if len % (FRAGMENT_DSIZE as nat) == 0 {
        0nat
    } else {
        1nat
    })
}

/// The meaningful length of chunk `i` of a payload of `len` bytes.
pub open spec fn chunk_len_of(len: nat, i: nat) -> nat {
    if (i + 1) * (FRAGMENT_DSIZE as nat) <= len {
        FRAGMENT_DSIZE as nat
    } else {
        (len - i * (FRAGMENT_DSIZE as nat)) as nat
    }
}

/// What disassembly returns for `message`: fragment `i` carries the
/// byte range starting at `i` times the capacity, zero-padded.
pub open spec fn disassemble_post(message: Seq<u8>, frags: Seq<Fragment>) -> bool {
    &&& frags.len() == total_fragments_of(message.len())
    &&& (forall|i: int| 0 <= i < frags.len() ==> (#[trigger] frags[i]).wf())
    &&& (forall|i: int| 0 <= i < frags.len() ==> (#[trigger] frags[i]).fragment_index == i)
    &&& (forall|i: int|
        0 <= i < frags.len() ==> (#[trigger] frags[i]).total_n_fragments == frags.len())
    &&& (forall|i: int|
        0 <= i < frags.len() ==> (#[trigger] frags[i]).length as nat == chunk_len_of(
            message.len(),
            i as nat,
        ))
    &&& (forall|i: int|
        0 <= i < frags.len() ==> (#[trigger] frags[i]).payload() == message.subrange(
            i * (FRAGMENT_DSIZE as int),
            i * (FRAGMENT_DSIZE as int) + frags[i].length as int,
        ))
    &&& (forall|i: int, j: int|
        0 <= i < frags.len() && frags[i].length as int <= j < FRAGMENT_DSIZE ==> (
        #[trigger] frags[i].data@[j]) == 0)
}

/// Splits payloads into fragments. It keeps no state: disassembly is a
/// pure function of the payload.
pub struct Disassembler {}

impl Disassembler {
    /// Create a disassembler.
    pub fn new() -> (r: Self) {
        Disassembler {  }
    }

    /// Split `message` into consecutive fixed-capacity fragments; only
    /// the last may be shorter, and an empty message yields no
    /// fragments. The session identifier does not shape the fragments.
    pub fn disassemble_message(&mut self, message: Vec<u8>, session_id: u64) -> (r: Vec<Fragment>)
        ensures
            disassemble_post(message@, r@),
    {
        let len = message.len();
        let total: usize = len / FRAGMENT_DSIZE + (if len % FRAGMENT_DSIZE == 0 {
            0
        } else {
            1
        });
        let mut fragments: Vec<Fragment> = Vec::new();
        let mut i: usize = 0;
        while i < total
            invariant
                len == message@.len(),
                total == total_fragments_of(len as nat),
                i <= total,
                fragments@.len() == i,
                forall|m: int| 0 <= m < i ==> (#[trigger] fragments@[m]).wf(),
                forall|m: int| 0 <= m < i ==> (#[trigger] fragments@[m]).fragment_index == m,
                forall|m: int|
                    0 <= m < i ==> (#[trigger] fragments@[m]).total_n_fragments == total,
                forall|m: int|
                    0 <= m < i ==> (#[trigger] fragments@[m]).length as nat == chunk_len_of(
                        len as nat,
                        m as nat,
                    ),
                forall|m: int|
                    0 <= m < i ==> (#[trigger] fragments@[m]).payload() == message@.subrange(
                        m * (FRAGMENT_DSIZE as int),
                        m * (FRAGMENT_DSIZE as int) + fragments@[m].length as int,
                    ),
                forall|m: int, j: int|
                    0 <= m < i && fragments@[m].length as int <= j < FRAGMENT_DSIZE ==> (
                    #[trigger] fragments@[m].data@[j]) == 0,
            decreases total - i,
        {
            proof {
                assert(i * (FRAGMENT_DSIZE as int) <= (total - 1) * (FRAGMENT_DSIZE as int)) by (
                nonlinear_arith)
                    requires
                        0 <= i <= total - 1,
                ;
                assert((total - 1) * (FRAGMENT_DSIZE as int) < len as int) by (nonlinear_arith)
                    requires
                        total == total_fragments_of(len as nat) && i < total && 0 <= len
                            <= usize::MAX,
                ;
            }
            let start = i * FRAGMENT_DSIZE;
            let rem = len - start;
            let clen = if rem >= FRAGMENT_DSIZE {
                FRAGMENT_DSIZE
            } else {
                rem
            };
            proof {
                assert(clen as nat == chunk_len_of(len as nat, i as nat)) by (nonlinear_arith)
                    requires
                        start == i * (FRAGMENT_DSIZE as int),
                        rem == len - start,
                        0 <= i,
                        start < len,
                        clen == (if rem >= FRAGMENT_DSIZE {
                            FRAGMENT_DSIZE as int
                        } else {
                            rem as int
                        }),
                ;
            }
            let mut data: Vec<u8> = Vec::new();
            let mut j: usize = 0;
            while j < clen
                invariant
                    j <= clen,
                    clen <= FRAGMENT_DSIZE,
                    start + clen <= len,
                    len == message@.len(),
                    data@ == message@.subrange(start as int, start as int + j as int),
                decreases clen - j,
            {
                data.push(message[start + j]);
                proof {
                    assert(data@ =~= message@.subrange(start as int, start as int + j as int + 1));
                }
                j += 1;
            }
            while data.len() < FRAGMENT_DSIZE
                invariant
                    clen <= data@.len() <= FRAGMENT_DSIZE,
                    data@.take(clen as int) == message@.subrange(
                        start as int,
                        start as int + clen as int,
                    ),
                    forall|m: int| clen <= m < data@.len() ==> data@[m] == 0,
                decreases FRAGMENT_DSIZE - data@.len(),
            {
                data.push(0u8);
                proof {
                    assert(data@.take(clen as int) =~= data@.drop_last().take(clen as int));
                }
            }
            let frag = Fragment {
                fragment_index: i as u64,
                total_n_fragments: total as u64,
                length: clen as u8,
                data,
            };
            proof {
                assert(frag.payload() =~= message@.subrange(
                    start as int,
                    start as int + clen as int,
                ));
            }
            fragments.push(frag);
            i += 1;
        }
        fragments
    }
}

} // verus!
