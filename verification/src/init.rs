//! Host-side logic of the OpenCL label initializer.
//!
//! The device kernel fills a tile of 32-byte canonical labels per dispatch.
//! Everything the host does around a dispatch lives here: sizing the kernel's
//! buffers, converting the commitment into little-endian words, truncating
//! each canonical label to the stored 16-byte form, and scanning each tile
//! for the lexicographically smallest label under a VRF difficulty
//! threshold.  The dispatch loop itself, which owns the device, drives a
//! `Scrypter` one tile at a time through `process_tile`.

use crate::order::bytes_less;
use crate::order::bytes_lt;
use crate::order::lemma_bytes_lt_irreflexive;
use crate::order::lemma_bytes_lt_total;
use crate::order::lemma_bytes_lt_transitive;
use core::ops::Range;
use vstd::arithmetic::div_mod::lemma_fundamental_div_mod;
use vstd::prelude::*;
use vstd::slice::slice_subrange;

verus! {

/// Bytes of a label as stored in the label file.
pub const LABEL_SIZE: usize = 16;

/// Bytes of a label in its canonical form, as the kernel emits it.
pub const ENTIRE_LABEL_SIZE: usize = 32;

/// Errors of the label initializer host logic.
#[derive(Clone, Copy, Debug, PartialEq, Eq)]
pub enum ScryptError {
    /// The label range is too big for an output buffer on this platform.
    LabelsRangeTooBig,
    /// The output buffer does not match the requested label range.
    InvalidBufferSize { got: usize, expected: usize },
}

/// The index and canonical form of the smallest label found under the VRF
/// difficulty threshold.
#[derive(Clone, Copy, Debug, PartialEq, Eq)]
pub struct VrfNonce {
    pub index: u64,
    pub label: [u8; 32],
}

/// The `i`-th canonical label of a tile of 32-byte labels.
pub open spec fn label_at(labels: Seq<u8>, i: int) -> Seq<u8> {
    labels.subrange(32 * i, 32 * i + 32)
}

/// No label of the tile lies lexicographically below `bound`.
pub open spec fn no_label_below(labels: Seq<u8>, bound: Seq<u8>) -> bool {
    forall|i: int|
        0 <= i < labels.len() / 32 ==> !bytes_lt(#[trigger] label_at(labels, i), bound)
}

/// What a successful VRF scan of one tile reports: the label at `idx` is the
/// first occurrence of the lexicographically smallest label of the tile, and
/// lies below the difficulty threshold `diff`.
pub open spec fn is_scan_hit(labels: Seq<u8>, diff: Seq<u8>, idx: int, lab: Seq<u8>) -> bool {
    &&& 0 <= idx < labels.len() / 32
    &&& lab == label_at(labels, idx)
    &&& bytes_lt(lab, diff)
    &&& no_label_below(labels, lab)
    &&& forall|i: int| 0 <= i < idx ==> bytes_lt(lab, #[trigger] label_at(labels, i))
}

/// Nothing at least `bound` can lie below a label that lies below `bound`.
proof fn lemma_min_step(x: Seq<u8>, lab: Seq<u8>, bound: Seq<u8>)
    requires
        !bytes_lt(x, bound),
        bytes_lt(lab, bound),
    ensures
        bytes_lt(lab, x),
        !bytes_lt(x, lab),
{
    lemma_bytes_lt_total(x, lab);
    if bytes_lt(x, lab) {
        lemma_bytes_lt_transitive(x, lab, bound);
    }
}

/// The labels of a concatenation of whole tiles are the labels of the first
/// tile followed by those of the second.
proof fn lemma_label_at_concat(a: Seq<u8>, b: Seq<u8>, i: int)
    requires
        a.len() % 32 == 0,
        b.len() % 32 == 0,
    ensures
        (a + b).len() / 32 == a.len() / 32 + b.len() / 32,
        0 <= i < a.len() / 32 ==> label_at(a + b, i) == label_at(a, i),
        a.len() / 32 <= i < a.len() / 32 + b.len() / 32 ==> label_at(a + b, i) == label_at(
            b,
            i - a.len() / 32,
        ),
{
    lemma_fundamental_div_mod(a.len() as int, 32);
    lemma_fundamental_div_mod(b.len() as int, 32);
    let na = a.len() / 32;
    let nb = b.len() / 32;
    vstd::arithmetic::div_mod::lemma_div_multiples_vanish((na + nb) as int, 32);
    assert(32 * ((na + nb) as int) == (a + b).len());
    if 0 <= i < na {
        assert(label_at(a + b, i) =~= label_at(a, i));
    }
    if na <= i < na + nb {
        assert(label_at(a + b, i) =~= label_at(b, i - na));
    }
}

/// Chunking the VRF scan is sound, empty case: when neither tile holds a
/// label below the threshold, neither does their concatenation.
pub proof fn lemma_scan_chunks_none(a: Seq<u8>, b: Seq<u8>, diff: Seq<u8>)
    requires
        a.len() % 32 == 0,
        b.len() % 32 == 0,
        no_label_below(a, diff),
        no_label_below(b, diff),
    ensures
        no_label_below(a + b, diff),
{
    assert forall|i: int| 0 <= i < (a + b).len() / 32 implies !bytes_lt(
        #[trigger] label_at(a + b, i),
        diff,
    ) by {
        lemma_label_at_concat(a, b, i);
    }
}

/// Chunking the VRF scan is sound when the first tile holds the minimum: a
/// hit in the first tile that the second tile does not beat is the hit of
/// the concatenation.
pub proof fn lemma_scan_chunks_first(
    a: Seq<u8>,
    b: Seq<u8>,
    diff: Seq<u8>,
    idx: int,
    lab: Seq<u8>,
)
    requires
        a.len() % 32 == 0,
        b.len() % 32 == 0,
        is_scan_hit(a, diff, idx, lab),
        no_label_below(b, lab),
    ensures
        is_scan_hit(a + b, diff, idx, lab),
{
    lemma_label_at_concat(a, b, idx);
    assert forall|i: int| 0 <= i < (a + b).len() / 32 implies !bytes_lt(
        #[trigger] label_at(a + b, i),
        lab,
    ) by {
        lemma_label_at_concat(a, b, i);
    }
    assert forall|i: int| 0 <= i < idx implies bytes_lt(lab, #[trigger] label_at(a + b, i)) by {
        lemma_label_at_concat(a, b, i);
    }
}

/// Chunking the VRF scan is sound when the second tile improves on the
/// running threshold: scanning the second tile against the first tile's
/// outcome gives the hit of the concatenation, with the index shifted by the
/// first tile's length.
pub proof fn lemma_scan_chunks_second(
    a: Seq<u8>,
    b: Seq<u8>,
    diff: Seq<u8>,
    bound: Seq<u8>,
    idx: int,
    lab: Seq<u8>,
)
    requires
        a.len() % 32 == 0,
        b.len() % 32 == 0,
        // the running threshold after the first tile: the initial difficulty,
        // or a hit of the first tile, itself below the difficulty
        bound == diff || bytes_lt(bound, diff),
        no_label_below(a, bound),
        is_scan_hit(b, bound, idx, lab),
    ensures
        is_scan_hit(a + b, diff, a.len() / 32 + idx, lab),
{
    let na = a.len() / 32;
    lemma_label_at_concat(a, b, na + idx);
    if bound != diff {
        lemma_bytes_lt_transitive(lab, bound, diff);
    }
    assert forall|i: int| 0 <= i < (a + b).len() / 32 implies !bytes_lt(
        #[trigger] label_at(a + b, i),
        lab,
    ) by {
        lemma_label_at_concat(a, b, i);
        if 0 <= i < na {
            lemma_min_step(label_at(a, i), lab, bound);
        }
    }
    assert forall|i: int| 0 <= i < na + idx implies bytes_lt(lab, #[trigger] label_at(a + b, i)) by {
        lemma_label_at_concat(a, b, i);
        if 0 <= i < na {
            lemma_min_step(label_at(a, i), lab, bound);
        }
    }
}

/// Copies a 32-byte slice into a label array.
fn to_label(s: &[u8]) -> (r: [u8; 32])
    requires
        s@.len() == 32,
    ensures
        r@ == s@,
{
    let mut out: [u8; 32] = [0u8; 32];
    let mut i: usize = 0;
    while i < 32
        invariant
            0 <= i <= 32,
            s@.len() == 32,
            forall|j: int| 0 <= j < i ==> out@[j] == s@[j],
        decreases 32 - i,
    {
        out[i] = s[i];
        i = i + 1;
    }
    proof {
        assert(out@ =~= s@);
    }
    out
}

/// Sizes of one device dispatch, as the scrypt kernel is built and enqueued.
/// `pad_size` counts 32-bit words of the ROMix scratchpad; `output_len`
/// counts bytes of the canonical-label output buffer.
pub struct KernelConfig {
    pub lookup_gap: usize,
    pub local_work_size: usize,
    pub concurrent_threads: usize,
    pub global_work_size: usize,
    pub pad_size: usize,
    pub output_len: usize,
}

impl KernelConfig {
    /// Computes the dispatch sizes for scrypt cost parameter `n`: a unit of
    /// 128 work items, 20 items per work group, a time-memory tradeoff
    /// factor of 2, and a scratchpad of 32 bytes per thread per retained
    /// ROMix row.
    pub fn new(n: usize) -> (c: KernelConfig)
        requires
            163840 * (n as int / 2) <= usize::MAX,
        ensures
            c.lookup_gap == 2,
            c.local_work_size == 20,
            c.concurrent_threads == 5120,
            c.global_work_size == 20480,
            c.pad_size == 163840 * (n as int / 2),
            c.output_len == 20480 * 32,
    {
        let unit_size: usize = 128;
        let local_work_size: usize = 20;
        let lookup_gap: usize = 2;
        let concurrent_threads: usize = unit_size * local_work_size * 2;
        let global_work_size: usize = unit_size * local_work_size * 8;
        let pad_size: usize = concurrent_threads * 4 * 8 * (n / lookup_gap);
        KernelConfig {
            lookup_gap,
            local_work_size,
            concurrent_threads,
            global_work_size,
            pad_size,
            output_len: global_work_size * ENTIRE_LABEL_SIZE,
        }
    }
}

/// Converts the 32-byte commitment into the eight little-endian 32-bit words
/// the kernel consumes.
pub fn commitment_to_words(commitment: &[u8; 32]) -> (words: Vec<u32>)
    ensures
        words@.len() == 8,
        forall|j: int|
            0 <= j < 8 ==> words@[j] == vstd::bytes::spec_u32_from_le_bytes(
                #[trigger] commitment@.subrange(4 * j, 4 * j + 4),
            ),
{
    let commitment_slice: &[u8] = commitment.as_slice();
    let mut words: Vec<u32> = Vec::new();
    let mut j: usize = 0;
    while j < 8
        invariant
            0 <= j <= 8,
            commitment_slice@ == commitment@,
            commitment@.len() == 32,
            words@.len() == j,
            forall|k: int|
                0 <= k < j ==> words@[k] == vstd::bytes::spec_u32_from_le_bytes(
                    #[trigger] commitment@.subrange(4 * k, 4 * k + 4),
                ),
        decreases 8 - j,
    {
        let chunk = slice_subrange(commitment_slice, 4 * j, 4 * j + 4);
        words.push(vstd::bytes::u32_from_le_bytes(chunk));
        j = j + 1;
    }
    words
}

/// Truncates one tile of canonical labels to the stored form: the first 16
/// bytes of each 32-byte label, in label order.
pub fn truncate_tile(labels_buffer: &[u8]) -> (out: Vec<u8>)
    requires
        labels_buffer@.len() % 32 == 0,
    ensures
        out@.len() == labels_buffer@.len() / 2,
        forall|i: int|
            0 <= i < labels_buffer@.len() / 32 ==> out@.subrange(16 * i, 16 * i + 16) == (
            #[trigger] label_at(labels_buffer@, i)).take(16),
{
    proof {
        lemma_fundamental_div_mod(labels_buffer@.len() as int, 32);
    }
    let n_labels: usize = labels_buffer.len() / 32;
    let mut out: Vec<u8> = Vec::new();
    let mut i: usize = 0;
    while i < n_labels
        invariant
            0 <= i <= n_labels,
            n_labels == labels_buffer@.len() / 32,
            32 * n_labels == labels_buffer@.len(),
            labels_buffer@.len() <= usize::MAX,
            out@.len() == 16 * i,
            forall|j: int|
                0 <= j < i ==> out@.subrange(16 * j, 16 * j + 16) == (
                #[trigger] label_at(labels_buffer@, j)).take(16),
        decreases n_labels - i,
    {
        proof {
            assert(32 * (i as int) + 32 <= 32 * (n_labels as int));
        }
        let ghost prev = out@;
        let mut b: usize = 0;
        while b < 16
            invariant
                0 <= b <= 16,
                i < n_labels,
                32 * (i as int) + 32 <= labels_buffer@.len(),
                labels_buffer@.len() <= usize::MAX,
                prev.len() == 16 * i,
                out@ == prev + labels_buffer@.subrange(32 * (i as int), 32 * (i as int) + b),
            decreases 16 - b,
        {
            let idx: usize = i * 32 + b;
            out.push(labels_buffer[idx]);
            proof {
                assert(out@ =~= prev + labels_buffer@.subrange(
                    32 * (i as int),
                    32 * (i as int) + b + 1,
                ));
            }
            b = b + 1;
        }
        proof {
            assert forall|j: int| 0 <= j < i + 1 implies out@.subrange(16 * j, 16 * j + 16) == (
            #[trigger] label_at(labels_buffer@, j)).take(16) by {
                if j < i {
                    assert(out@.subrange(16 * j, 16 * j + 16) =~= prev.subrange(
                        16 * j,
                        16 * j + 16,
                    ));
                } else {
                    assert(out@.subrange(16 * j, 16 * j + 16) =~= labels_buffer@.subrange(
                        32 * j,
                        32 * j + 16,
                    ));
                    assert(label_at(labels_buffer@, j).take(16) =~= labels_buffer@.subrange(
                        32 * j,
                        32 * j + 16,
                    ));
                }
            }
        }
        i = i + 1;
    }
    proof {
        vstd::arithmetic::div_mod::lemma_div_multiples_vanish(16 * n_labels as int, 2);
        assert(2 * (16 * n_labels as int) == labels_buffer@.len());
    }
    out
}

/// Host-side state of the label initializer: the tile width the device was
/// built for, the VRF difficulty threshold, the best VRF nonce found so far,
/// and a ghost log of every canonical label consumed, keyed by its global
/// label index.
pub struct Scrypter {
    pub global_work_size: usize,
    pub vrf_difficulty: Option<[u8; 32]>,
    pub vrf_nonce: Option<VrfNonce>,
    pub seen: Ghost<Map<u64, Seq<u8>>>,
}

impl Scrypter {
    /// The number of bytes the stored form of a label range occupies, or an
    /// error when that does not fit the platform's buffer capacity.
    pub fn buffer_len(labels: &Range<u64>) -> (r: Result<usize, ScryptError>)
        requires
            labels.start <= labels.end,
        ensures
            r is Ok <==> 16 * (labels.end - labels.start) <= usize::MAX,
            r matches Ok(len) ==> len == 16 * (labels.end - labels.start),
            r matches Err(e) ==> e == ScryptError::LabelsRangeTooBig,
    {
        proof {
            lemma_fundamental_div_mod(usize::MAX as int, 16);
        }
        let count: u64 = labels.end - labels.start;
        if count <= usize::MAX as u64 / 16 {
            Ok((count as usize) * 16)
        } else {
            Err(ScryptError::LabelsRangeTooBig)
        }
    }

    /// Checks a caller's output buffer against a label range, as the initializer
    /// does before writing: the buffer must hold exactly the stored form of the
    /// range.
    pub fn check_buffer(labels: &Range<u64>, out_len: usize) -> (r: Result<(), ScryptError>)
        requires
            labels.start <= labels.end,
        ensures
            r is Ok <==> (16 * (labels.end - labels.start) <= usize::MAX && out_len == 16 * (
            labels.end - labels.start)),
            !(16 * (labels.end - labels.start) <= usize::MAX) ==> r == Err::<(), ScryptError>(
                ScryptError::LabelsRangeTooBig,
            ),
            16 * (labels.end - labels.start) <= usize::MAX && out_len != 16 * (labels.end
                - labels.start) ==> r == Err::<(), ScryptError>(
                (ScryptError::InvalidBufferSize {
                    got: out_len,
                    expected: (16 * (labels.end - labels.start)) as usize,
                }),
            ),
    {
        match Self::buffer_len(labels) {
            Ok(expected) => {
                if out_len == expected {
                    Ok(())
                } else {
                    Err(ScryptError::InvalidBufferSize { got: out_len, expected })
                }
            },
            Err(e) => Err(e),
        }
    }

    /// The threshold the next tile is scanned against: the best label so
    /// far, or the initial difficulty while none has been found.
    pub open spec fn bound_spec(self) -> Seq<u8> {
        match self.vrf_nonce {
            Some(v) => v.label@,
            None => match self.vrf_difficulty {
                Some(d) => d@,
                None => Seq::empty(),
            },
        }
    }

    /// The VRF scan state is consistent with the log of consumed labels:
    /// every logged label is canonical, and the best nonce, when one exists,
    /// names a logged label that lies below the initial difficulty and at
    /// most every logged label.
    pub open spec fn wf(self) -> bool {
        &&& forall|i: u64|
            self.seen@.dom().contains(i) ==> (#[trigger] self.seen@[i]).len() == 32
        &&& match self.vrf_nonce {
            None => match self.vrf_difficulty {
                Some(d) => forall|i: u64|
                    self.seen@.dom().contains(i) ==> !bytes_lt(#[trigger] self.seen@[i], d@),
                None => true,
            },
            Some(v) => {
                &&& self.vrf_difficulty is Some
                &&& bytes_lt(v.label@, self.vrf_difficulty.unwrap()@)
                &&& self.seen@.dom().contains(v.index)
                &&& self.seen@[v.index] == v.label@
                &&& forall|i: u64|
                    self.seen@.dom().contains(i) ==> !bytes_lt(#[trigger] self.seen@[i], v.label@)
            },
        }
    }

    /// Starts an initializer session with an empty label log.
    pub fn new(global_work_size: usize, vrf_difficulty: Option<[u8; 32]>) -> (s: Scrypter)
        ensures
            s.wf(),
            s.global_work_size == global_work_size,
            s.vrf_difficulty == vrf_difficulty,
            s.vrf_nonce is None,
            s.seen@ == Map::<u64, Seq<u8>>::empty(),
    {
        Scrypter {
            global_work_size,
            vrf_difficulty,
            vrf_nonce: None,
            seen: Ghost(Map::empty()),
        }
    }

    /// The best VRF nonce found so far.
    pub fn vrf_nonce(&self) -> (r: Option<VrfNonce>)
        ensures
            r == self.vrf_nonce,
    {
        self.vrf_nonce
    }

    /// Consumes one tile of canonical labels that the device produced for
    /// consecutive label indices starting at `start_index`: scans it for the
    /// VRF nonce when a difficulty threshold is set, logs the labels, and
    /// returns the tile's stored form, the first 16 bytes of each label in
    /// label order.  Each label index is consumed once per session.
    pub fn process_tile(&mut self, start_index: u64, labels_buffer: &[u8]) -> (out: Vec<u8>)
        requires
            old(self).wf(),
            labels_buffer@.len() % 32 == 0,
            start_index + labels_buffer@.len() / 32 <= u64::MAX,
            forall|k: u64|
                start_index <= k < start_index + labels_buffer@.len() / 32 ==> !old(
                    self,
                ).seen@.dom().contains(k),
        ensures
            final(self).wf(),
            final(self).global_work_size == old(self).global_work_size,
            final(self).vrf_difficulty == old(self).vrf_difficulty,
            out@.len() == labels_buffer@.len() / 2,
            forall|i: int|
                0 <= i < labels_buffer@.len() / 32 ==> out@.subrange(16 * i, 16 * i + 16) == (
                #[trigger] label_at(labels_buffer@, i)).take(16),
            forall|k: u64|
                #![trigger final(self).seen@.dom().contains(k)]
                final(self).seen@.dom().contains(k) <==> (old(self).seen@.dom().contains(k) || (
                start_index <= k < start_index + labels_buffer@.len() / 32)),
            forall|k: u64|
                #![trigger final(self).seen@[k]]
                start_index <= k < start_index + labels_buffer@.len() / 32 ==> final(self).seen@[k]
                    == label_at(labels_buffer@, k - start_index),
            forall|k: u64|
                #![trigger old(self).seen@.dom().contains(k)]
                old(self).seen@.dom().contains(k) ==> final(self).seen@[k] == old(self).seen@[k],
            old(self).vrf_difficulty is None ==> final(self).vrf_nonce == old(self).vrf_nonce,
            old(self).vrf_difficulty is Some && no_label_below(
                labels_buffer@,
                old(self).bound_spec(),
            ) ==> final(self).vrf_nonce == old(self).vrf_nonce,
            old(self).vrf_difficulty is Some && !no_label_below(
                labels_buffer@,
                old(self).bound_spec(),
            ) ==> {
                &&& final(self).vrf_nonce matches Some(v)
                &&& v.index >= start_index
                &&& is_scan_hit(
                    labels_buffer@,
                    old(self).bound_spec(),
                    v.index - start_index,
                    v.label@,
                )
            },
    {
        proof {
            lemma_fundamental_div_mod(labels_buffer@.len() as int, 32);
        }
        let n_labels: usize = labels_buffer.len() / 32;
        let out = truncate_tile(labels_buffer);
        match self.vrf_difficulty {
            None => {},
            Some(diff) => {
                let bound: [u8; 32] = match self.vrf_nonce {
                    Some(v) => v.label,
                    None => diff,
                };
                match Self::scan_for_vrf_nonce(labels_buffer, bound) {
                    Some(hit) => {
                        proof {
                            assert(hit.index < n_labels);
                        }
                        self.vrf_nonce = Some(
                            VrfNonce { index: start_index + hit.index, label: hit.label },
                        );
                    },
                    None => {},
                }
            },
        }
        let ghost tile = Map::<u64, Seq<u8>>::new(
            |k: u64| start_index <= k < start_index + labels_buffer@.len() / 32,
            |k: u64| label_at(labels_buffer@, k - start_index),
        );
        proof {
            self.seen@ = old(self).seen@.union_prefer_right(tile);
            assert forall|k: u64|
                start_index <= k < start_index + labels_buffer@.len()
                    / 32 implies (#[trigger] self.seen@[k]) == label_at(
                labels_buffer@,
                k - start_index,
            ) && self.seen@[k].len() == 32 by {
                assert(tile.dom().contains(k));
                assert(32 * (k - start_index) + 32 <= labels_buffer@.len());
            }
            assert forall|k: u64|
                old(self).seen@.dom().contains(k) implies (#[trigger] self.seen@[k]) == old(
                self,
            ).seen@[k] by {
                assert(!tile.dom().contains(k));
            }
            match old(self).vrf_nonce {
                None => {
                    match old(self).vrf_difficulty {
                        None => {},
                        Some(d) => {
                            if !no_label_below(labels_buffer@, d@) {
                                let v = self.vrf_nonce.unwrap();
                                assert forall|k: u64|
                                    self.seen@.dom().contains(k) implies !bytes_lt(
                                    #[trigger] self.seen@[k],
                                    v.label@,
                                ) by {
                                    if old(self).seen@.dom().contains(k) {
                                        lemma_min_step(old(self).seen@[k], v.label@, d@);
                                    }
                                }
                            }
                        },
                    }
                },
                Some(w) => {
                    if no_label_below(labels_buffer@, w.label@) {
                        assert(self.vrf_nonce == old(self).vrf_nonce);
                    } else {
                        let v = self.vrf_nonce.unwrap();
                        lemma_bytes_lt_transitive(
                            v.label@,
                            w.label@,
                            old(self).vrf_difficulty.unwrap()@,
                        );
                        assert forall|k: u64|
                            self.seen@.dom().contains(k) implies !bytes_lt(
                            #[trigger] self.seen@[k],
                            v.label@,
                        ) by {
                            if old(self).seen@.dom().contains(k) {
                                lemma_min_step(old(self).seen@[k], v.label@, w.label@);
                            }
                        }
                    }
                },
            }
        }
        out
    }

    /// VRF monotonicity: whenever a session reports a VRF nonce, that nonce
    /// names one of the labels consumed so far, its label lies strictly
    /// below the initial difficulty threshold, and no consumed label lies
    /// below it.
    pub proof fn lemma_vrf_nonce_minimal(self)
        requires
            self.wf(),
            self.vrf_nonce is Some,
        ensures
            ({
                let v = self.vrf_nonce.unwrap();
                &&& self.vrf_difficulty is Some
                &&& bytes_lt(v.label@, self.vrf_difficulty.unwrap()@)
                &&& self.seen@.dom().contains(v.index)
                &&& self.seen@[v.index] == v.label@
                &&& forall|i: u64|
                    self.seen@.dom().contains(i) ==> !bytes_lt(#[trigger] self.seen@[i], v.label@)
            }),
    {
    }

    /// Scans one tile of canonical labels for the smallest label strictly
    /// below `difficulty`.  Ties do not replace an earlier find, so a hit is
    /// the first occurrence of the tile's minimum.
    pub fn scan_for_vrf_nonce(labels: &[u8], difficulty: [u8; 32]) -> (r: Option<VrfNonce>)
        requires
            labels@.len() % 32 == 0,
        ensures
            r is None <==> no_label_below(labels@, difficulty@),
            r matches Some(v) ==> is_scan_hit(labels@, difficulty@, v.index as int, v.label@),
    {
        proof {
            lemma_fundamental_div_mod(labels@.len() as int, 32);
        }
        let n_labels: usize = labels.len() / 32;
        let mut nonce: Option<VrfNonce> = None;
        let mut bound: [u8; 32] = difficulty;
        let mut id: usize = 0;
        while id < n_labels
            invariant
                0 <= id <= n_labels,
                n_labels == labels@.len() / 32,
                32 * n_labels == labels@.len(),
                labels@.len() <= usize::MAX,
                match nonce {
                    None => {
                        &&& bound@ == difficulty@
                        &&& forall|i: int|
                            0 <= i < id ==> !bytes_lt(#[trigger] label_at(labels@, i), difficulty@)
                    },
                    Some(v) => {
                        &&& bound@ == v.label@
                        &&& v.index < id
                        &&& v.label@ == label_at(labels@, v.index as int)
                        &&& bytes_lt(v.label@, difficulty@)
                        &&& forall|i: int|
                            0 <= i < id ==> !bytes_lt(#[trigger] label_at(labels@, i), v.label@)
                        &&& forall|i: int|
                            0 <= i < v.index ==> bytes_lt(v.label@, #[trigger] label_at(labels@, i))
                    },
                },
            decreases n_labels - id,
        {
            proof {
                assert(32 * (id as int) + 32 <= 32 * (n_labels as int));
            }
            let start: usize = id * 32;
            let label = slice_subrange(labels, start, start + 32);
            proof {
                assert(label@ =~= label_at(labels@, id as int));
            }
            if bytes_less(label, bound.as_slice()) {
                proof {
                    let lab = label_at(labels@, id as int);
                    lemma_bytes_lt_irreflexive(lab);
                    match nonce {
                        None => {
                            assert forall|i: int| 0 <= i < id implies bytes_lt(
                                lab,
                                #[trigger] label_at(labels@, i),
                            ) && !bytes_lt(label_at(labels@, i), lab) by {
                                lemma_min_step(label_at(labels@, i), lab, difficulty@);
                            }
                        },
                        Some(v) => {
                            lemma_bytes_lt_transitive(lab, v.label@, difficulty@);
                            assert forall|i: int| 0 <= i < id implies bytes_lt(
                                lab,
                                #[trigger] label_at(labels@, i),
                            ) && !bytes_lt(label_at(labels@, i), lab) by {
                                lemma_min_step(label_at(labels@, i), lab, v.label@);
                            }
                        },
                    }
                }
                let new_label = to_label(label);
                nonce = Some(VrfNonce { index: id as u64, label: new_label });
                bound = new_label;
            }
            id = id + 1;
        }
        proof {
            match nonce {
                Some(v) => {
                    assert(bytes_lt(label_at(labels@, v.index as int), difficulty@));
                    lemma_bytes_lt_irreflexive(v.label@);
                },
                None => {},
            }
        }
        nonce
    }
}

} // verus!
