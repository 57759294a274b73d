//! The assembler: collects fragments by session identifier and, the
//! moment a session's buffered count reaches the declared total,
//! reconstructs and returns the original payload.

use vstd::prelude::*;
use std::collections::HashMap;
use crate::disassembler::{chunk_len_of, Fragment, FRAGMENT_DSIZE};

verus! {

broadcast use vstd::std_specs::hash::group_hash_axioms;

/// `f` inserted into a list sorted by fragment index, in front of the
/// first entry with a strictly larger index.
pub open spec fn insert_by_index(f: Fragment, s: Seq<Fragment>) -> Seq<Fragment>
    decreases s.len(),
{
    if s.len() == 0 {
        seq![f]
    } else if f.fragment_index <= s[0].fragment_index {
        seq![f] + s
    } else {
        seq![s[0]] + insert_by_index(f, s.drop_first())
    }
}

/// The list sorted by fragment index, stably: fragments with equal
/// indices keep their arrival order.
pub open spec fn sort_by_index(s: Seq<Fragment>) -> Seq<Fragment>
    decreases s.len(),
{
    if s.len() == 0 {
        Seq::<Fragment>::empty()
    } else {
        insert_by_index(s[0], sort_by_index(s.drop_first()))
    }
}

/// The payload spelled by a fragment list: the meaningful bytes of
/// each fragment, concatenated in list order.
pub open spec fn payload_of(s: Seq<Fragment>) -> Seq<u8>
    decreases s.len(),
{
    if s.len() == 0 {
        Seq::<u8>::empty()
    } else {
        s[0].payload() + payload_of(s.drop_first())
    }
}

/// Buffers fragments per session and completes sessions by count.
pub struct Assembler {
    received_fragment: HashMap<u64, Vec<Fragment>>,
}

impl Assembler {
    /// The buffered fragments of each in-flight session.
    pub closed spec fn sessions(&self) -> Map<u64, Seq<Fragment>> {
        self.received_fragment@.map_values(|v: Vec<Fragment>| v@)
    }

    /// The buffer of one session; a session with no buffer is empty.
    pub open spec fn buffer_of(&self, session_id: u64) -> Seq<Fragment> {
        if self.sessions().contains_key(session_id) {
            self.sessions()[session_id]
        } else {
            Seq::<Fragment>::empty()
        }
    }

    /// Validity: every buffered fragment is well formed.
    pub open spec fn wf(&self) -> bool {
        forall|sid: u64, i: int|
            self.sessions().contains_key(sid) && 0 <= i < self.sessions()[sid].len() ==> (
            #[trigger] self.sessions()[sid][i]).wf()
    }

    /// Create an assembler with no in-flight session.
    pub fn new() -> (r: Self)
        ensures
            r.wf(),
            r.sessions() == Map::<u64, Seq<Fragment>>::empty(),
    {
        let r = Assembler { received_fragment: HashMap::new() };
        proof {
            assert(r.sessions() =~= Map::<u64, Seq<Fragment>>::empty());
        }
        r
    }

    /// Buffer one fragment under its session. When the buffer's size
    /// reaches the total declared by the session's first-arrived
    /// fragment, the session completes: its buffer leaves the map and
    /// is sorted by ordinal and concatenated into the returned payload.
    /// Buffers of other sessions are never touched.
    pub fn add_fragment(&mut self, fragment: Fragment, session_id: u64) -> (r: Option<Vec<u8>>)
        requires
            old(self).wf(),
            fragment.wf(),
        ensures
            final(self).wf(),
            ({
                let buf = old(self).buffer_of(session_id).push(fragment);
                let complete = buf[0].total_n_fragments == buf.len();
                match r {
                    Some(payload) => complete && payload@ == payload_of(sort_by_index(buf))
                        && final(self).sessions() == old(self).sessions().remove(session_id),
                    None => !complete && final(self).sessions() == old(self).sessions().insert(
                        session_id,
                        buf,
                    ),
                }
            }),
            forall|sid: u64|
                sid != session_id ==> #[trigger] final(self).buffer_of(sid) == old(
                    self,
                ).buffer_of(sid),
    {
        let ghost old_buf = old(self).buffer_of(session_id);
        let mut buf: Vec<Fragment> = match self.received_fragment.remove(&session_id) {
            Some(v) => v,
            None => Vec::new(),
        };
        buf.push(fragment);
        proof {
            assert(buf@ == old_buf.push(fragment));
            assert forall|i: int| 0 <= i < buf@.len() implies (#[trigger] buf@[i]).wf() by {
                if i < buf@.len() - 1 {
                    assert(old(self).sessions()[session_id][i].wf());
                }
            }
        }
        let total = buf[0].total_n_fragments;
        if buf.len() as u64 == total {
            let sorted = sort_fragments(buf);
            proof {
                lemma_sort_all_wf(old_buf.push(fragment));
            }
            let payload = concat_payload(&sorted);
            proof {
                assert(self.sessions() =~= old(self).sessions().remove(session_id));
            }
            Some(payload)
        } else {
            self.received_fragment.insert(session_id, buf);
            proof {
                assert(self.sessions() =~= old(self).sessions().insert(
                    session_id,
                    old_buf.push(fragment),
                ));
            }
            None
        }
    }
}

/// Sort fragments by their ordinal index, stably.
fn sort_fragments(mut input: Vec<Fragment>) -> (r: Vec<Fragment>)
    ensures
        r@ == sort_by_index(input@),
{
    let ghost orig = input@;
    let mut r: Vec<Fragment> = Vec::new();
    while input.len() > 0
        invariant
            input@.len() <= orig.len(),
            input@ == orig.take(input@.len() as int),
            r@ == sort_by_index(orig.skip(input@.len() as int)),
        decreases input@.len(),
    {
        let ghost rest: int = input@.len() - 1;
        let f = match input.pop() {
            Some(f) => f,
            None => {
                proof {
                    assert(false);
                }
                unreached()
            },
        };
        proof {
            assert(f == orig[rest]);
            assert(input@ =~= orig.take(rest));
        }
        let mut p: usize = 0;
        while p < r.len() && r[p].fragment_index < f.fragment_index
            invariant
                p <= r@.len(),
                forall|k: int| 0 <= k < p ==> (#[trigger] r@[k]).fragment_index
                    < f.fragment_index,
            decreases r@.len() - p,
        {
            p += 1;
        }
        let ghost r_before = r@;
        r.insert(p, f);
        proof {
            lemma_insert_by_index_at(f, r_before, p as int);
            assert(orig.skip(rest)[0] == orig[rest]);
            assert(orig.skip(rest).drop_first() =~= orig.skip(rest + 1));
            assert(r@ == insert_by_index(f, sort_by_index(orig.skip(rest + 1))));
            assert(r@ == sort_by_index(orig.skip(rest)));
        }
    }
    proof {
        assert(orig.skip(0) =~= orig);
    }
    r
}

/// Concatenate the meaningful bytes of each fragment, in list order.
fn concat_payload(frags: &Vec<Fragment>) -> (r: Vec<u8>)
    requires
        forall|i: int| 0 <= i < frags@.len() ==> (#[trigger] frags@[i]).wf(),
    ensures
        r@ == payload_of(frags@),
{
    let mut r: Vec<u8> = Vec::new();
    let mut i: usize = 0;
    while i < frags.len()
        invariant
            i <= frags@.len(),
            forall|m: int| 0 <= m < frags@.len() ==> (#[trigger] frags@[m]).wf(),
            r@ == payload_of(frags@.take(i as int)),
        decreases frags@.len() - i,
    {
        let f = &frags[i];
        let flen = f.length as usize;
        let mut j: usize = 0;
        while j < flen
            invariant
                j <= flen,
                flen == frags@[i as int].length as int,
                i < frags@.len(),
                frags@[i as int].wf(),
                f == frags@[i as int],
                r@ == payload_of(frags@.take(i as int)) + frags@[i as int].payload().take(j as int),
            decreases flen - j,
        {
            r.push(f.data[j]);
            proof {
                assert(frags@[i as int].payload().take(j + 1) =~= frags@[i as int].payload().take(
                    j as int,
                ).push(frags@[i as int].data@[j as int]));
                assert(r@ =~= payload_of(frags@.take(i as int)) + frags@[i as int].payload().take(
                    j + 1,
                ));
            }
            j += 1;
        }
        proof {
            assert(frags@[i as int].payload().take(flen as int) =~= frags@[i as int].payload());
            lemma_payload_of_snoc(frags@.take(i as int), frags@[i as int]);
            assert(frags@.take(i as int).push(frags@[i as int]) =~= frags@.take(i as int + 1));
        }
        i += 1;
    }
    proof {
        assert(frags@.take(frags@.len() as int) =~= frags@);
    }
    r
}

/// Appending one fragment appends its bytes to the spelled payload.
proof fn lemma_payload_of_snoc(s: Seq<Fragment>, f: Fragment)
    ensures
        payload_of(s.push(f)) == payload_of(s) + f.payload(),
    decreases s.len(),
{
    if s.len() == 0 {
        assert(s.push(f).drop_first() =~= Seq::<Fragment>::empty());
        assert(s.push(f)[0] == f);
        assert(payload_of(s.push(f)) == f.payload() + payload_of(Seq::<Fragment>::empty()));
        assert(payload_of(s.push(f)) =~= payload_of(s) + f.payload());
    } else {
        assert(s.push(f).drop_first() =~= s.drop_first().push(f));
        assert(s.push(f)[0] == s[0]);
        assert(payload_of(s.push(f)) == s[0].payload() + payload_of(s.drop_first().push(f)));
        lemma_payload_of_snoc(s.drop_first(), f);
        assert(payload_of(s.push(f)) =~= payload_of(s) + f.payload());
    }
}

/// Where the scan stopped is where the spec insertion lands.
proof fn lemma_insert_by_index_at(f: Fragment, s: Seq<Fragment>, p: int)
    requires
        0 <= p <= s.len(),
        forall|k: int| 0 <= k < p ==> (#[trigger] s[k]).fragment_index < f.fragment_index,
        p < s.len() ==> f.fragment_index <= s[p].fragment_index,
    ensures
        insert_by_index(f, s) == s.insert(p, f),
    decreases s.len(),
{
    if s.len() == 0 {
        assert(insert_by_index(f, s) =~= s.insert(0, f));
    } else if p == 0 {
        assert(insert_by_index(f, s) =~= s.insert(0, f));
    } else {
        assert(s[0].fragment_index < f.fragment_index);
        lemma_insert_by_index_at(f, s.drop_first(), p - 1);
        assert(insert_by_index(f, s) == seq![s[0]] + s.drop_first().insert(p - 1, f));
        assert(seq![s[0]] + s.drop_first().insert(p - 1, f) =~= s.insert(p, f));
    }
}

/// Inserting a well-formed fragment into a well-formed list keeps
/// every element well formed.
proof fn lemma_insert_all_wf(f: Fragment, s: Seq<Fragment>)
    requires
        f.wf(),
        forall|i: int| 0 <= i < s.len() ==> (#[trigger] s[i]).wf(),
    ensures
        forall|i: int|
            0 <= i < insert_by_index(f, s).len() ==> (#[trigger] insert_by_index(f, s)[i]).wf(),
    decreases s.len(),
{
    if s.len() == 0 {
        assert(insert_by_index(f, s) == seq![f]);
        assert(insert_by_index(f, s)[0] == f);
    } else if f.fragment_index <= s[0].fragment_index {
        assert forall|i: int|
            0 <= i < insert_by_index(f, s).len() implies (#[trigger] insert_by_index(f, s)[i]).wf()
        by {
            if i == 0 {
                assert(insert_by_index(f, s)[0] == f);
            } else {
                assert(insert_by_index(f, s)[i] == s[i - 1]);
            }
        }
    } else {
        assert forall|i: int| 0 <= i < s.drop_first().len() implies (#[trigger] s.drop_first()[i]).wf() by {
            assert(s[i + 1].wf());
        }
        lemma_insert_all_wf(f, s.drop_first());
        assert forall|i: int|
            0 <= i < insert_by_index(f, s).len() implies (#[trigger] insert_by_index(f, s)[i]).wf()
        by {
            if i == 0 {
                assert(insert_by_index(f, s)[0] == s[0]);
            } else {
                assert(insert_by_index(f, s)[i] == insert_by_index(f, s.drop_first())[i - 1]);
            }
        }
    }
}

/// Sorting keeps every element well formed.
proof fn lemma_sort_all_wf(s: Seq<Fragment>)
    requires
        forall|i: int| 0 <= i < s.len() ==> (#[trigger] s[i]).wf(),
    ensures
        forall|i: int| 0 <= i < sort_by_index(s).len() ==> (#[trigger] sort_by_index(s)[i]).wf(),
    decreases s.len(),
{
    if s.len() > 0 {
        assert forall|i: int| 0 <= i < s.drop_first().len() implies (#[trigger] s.drop_first()[i]).wf() by {
            assert(s[i + 1].wf());
        }
        lemma_sort_all_wf(s.drop_first());
        lemma_insert_all_wf(s[0], sort_by_index(s.drop_first()));
    }
}

/// A list whose ordinals strictly increase is already sorted.
proof fn lemma_sorted_fixpoint(s: Seq<Fragment>)
    requires
        forall|i: int, j: int|
            0 <= i < j < s.len() ==> (#[trigger] s[i]).fragment_index < (
            #[trigger] s[j]).fragment_index,
    ensures
        sort_by_index(s) == s,
    decreases s.len(),
{
    if s.len() == 0 {
        assert(sort_by_index(s) =~= s);
    } else {
        let t = s.drop_first();
        assert forall|i: int, j: int|
            0 <= i < j < t.len() implies (#[trigger] t[i]).fragment_index < (
        #[trigger] t[j]).fragment_index by {
            assert(s[i + 1].fragment_index < s[j + 1].fragment_index);
        }
        lemma_sorted_fixpoint(t);
        if t.len() == 0 {
            assert(insert_by_index(s[0], t) =~= s);
        } else {
            assert(t[0] == s[1]);
            assert(s[0].fragment_index < s[1].fragment_index);
            assert(insert_by_index(s[0], t) == seq![s[0]] + t);
            assert(seq![s[0]] + t =~= s);
        }
    }
}

/// The tail of a disassembled list spells the tail of the payload.
proof fn lemma_roundtrip_tail(message: Seq<u8>, frags: Seq<Fragment>, k: int)
    requires
        crate::disassembler::disassemble_post(message, frags),
        0 <= k <= frags.len(),
    ensures
        payload_of(frags.skip(k)) == message.subrange(
            if k < frags.len() {
                k * (FRAGMENT_DSIZE as int)
            } else {
                message.len() as int
            },
            message.len() as int,
        ),
    decreases frags.len() - k,
{
    let cap = FRAGMENT_DSIZE as int;
    let n = frags.len() as int;
    let len = message.len() as int;
    if k == n {
        assert(frags.skip(k) =~= Seq::<Fragment>::empty());
        assert(payload_of(frags.skip(k)) =~= message.subrange(len, len));
    } else {
        lemma_roundtrip_tail(message, frags, k + 1);
        let start = k * cap;
        let flen = frags[k].length as int;
        assert(n * cap >= len && (n - 1) * cap < len) by (nonlinear_arith)
            requires
                n == crate::disassembler::total_fragments_of(message.len()) && n > 0 && len
                    == message.len() && cap == FRAGMENT_DSIZE,
        ;
        let next = if k + 1 < n {
            (k + 1) * cap
        } else {
            len
        };
        assert(start + flen == next) by (nonlinear_arith)
            requires
                0 <= k < n,
                start == k * cap,
                cap == FRAGMENT_DSIZE,
                n * cap >= len,
                (n - 1) * cap < len,
                flen == chunk_len_of(message.len(), k as nat),
                len == message.len(),
                next == (if k + 1 < n {
                    (k + 1) * cap
                } else {
                    len
                }),
        ;
        assert(frags.skip(k)[0] == frags[k]);
        assert(frags.skip(k).drop_first() =~= frags.skip(k + 1));
        assert(payload_of(frags.skip(k)) == frags[k].payload() + payload_of(frags.skip(k + 1)));
        assert(frags[k].payload() == message.subrange(start, start + flen));
        assert(message.subrange(start, start + flen) + message.subrange(next, len)
            =~= message.subrange(start, len));
    }
}

/// Round-trip law: the fragments disassembly yields for a payload are
/// already in ordinal order, and assembling them — sorting by ordinal
/// and concatenating the meaningful bytes — returns that payload
/// exactly. This holds for every payload length: a multiple of the
/// fragment capacity, a remainder, and zero, where no fragment is
/// produced and the spelled payload is empty.
pub proof fn lemma_disassemble_reassemble(message: Seq<u8>, frags: Seq<Fragment>)
    requires
        crate::disassembler::disassemble_post(message, frags),
    ensures
        sort_by_index(frags) == frags,
        payload_of(frags) == message,
{
    assert forall|i: int, j: int|
        0 <= i < j < frags.len() implies (#[trigger] frags[i]).fragment_index < (
    #[trigger] frags[j]).fragment_index by {
        assert(frags[i].fragment_index == i);
        assert(frags[j].fragment_index == j);
    }
    lemma_sorted_fixpoint(frags);
    lemma_roundtrip_tail(message, frags, 0);
    assert(frags.skip(0) =~= frags);
    if frags.len() == 0 {
        assert(message.len() == 0) by (nonlinear_arith)
            requires
                crate::disassembler::total_fragments_of(message.len()) == 0,
        ;
        assert(payload_of(frags) =~= message);
    } else {
        assert(message.subrange(0, message.len() as int) =~= message);
    }
}

} // verus!
