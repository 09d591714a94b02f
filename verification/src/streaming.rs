//! Streaming counterparts of the scan: a part validator that checks bytes against
//! an expected length and MD5 as they arrive, and a part scanner that emits
//! Swifty parts while a file is read chunk by chunk.

use vstd::prelude::*;
use crate::checksum::{
    RAW_PART_SIZE, SwiftyError, SwiftyErrorView, is_raw_layout, lemma_raw_count_exact, lemma_raw_count_partial,
    parts_hash_bytes, raw_part_count, raw_part_len, raw_part_name, raw_part_name_chars,
};
use crate::model::{Md5Digest, PartView, SrfPart, parts_view};
use crate::primitives::{Md5Hasher, md5_compute, md5_digest};
use crate::pbo::{
    PlanView, SwiftyPboPartPlan, law_prefix_plan_stable, lemma_meta_header_len, lemma_partition_covers, lemma_plan_all_bounds,
    parts_follow_plan, plan_contiguous, plans_view, prefix_plan_spec, swifty_pbo_part_plan_from_prefix,
};
use crate::path::{has_pbo_extension, is_pbo_path};
use crate::model::SrfFile;
use crate::pbo::pbo_parts_spec;
use crate::scan::{
    SignatureMode, is_pbo_scan, is_raw_scan, lemma_file_name_ascii, lemma_plan_parts_unique, lemma_raw_parts_unique,
    lemma_real_mode_inputs, scan_file_name,
};
use vstd::utf8::is_ascii_chars;
use crate::text::owned;

verus! {

/// Appends bytes to a buffer.
fn append_bytes(v: &mut Vec<u8>, bytes: &[u8])
    ensures
        final(v)@ == old(v)@ + bytes@,
{
    let mut i: usize = 0;
    while i < bytes.len()
        invariant
            0 <= i <= bytes@.len(),
            v@ == old(v)@ + bytes@.take(i as int),
        decreases bytes@.len() - i,
    {
        v.push(bytes[i]);
        i = i + 1;
        assert(v@ =~= old(v)@ + bytes@.take(i as int));
    }
    assert(bytes@.take(bytes@.len() as int) =~= bytes@);
}

// ---------------------------------------------------------------------------
// Part validator
// ---------------------------------------------------------------------------

/// Checks one part's bytes, as they arrive, against its expected length and MD5.
pub struct SwiftyStreamingPartValidator {
    expected: Md5Digest,
    expected_len: u64,
    seen: u64,
    ctx: Md5Hasher,
}

/// What a validator holds: the expected digest and length, the byte count so far
/// and the bytes that were hashed.
pub struct ValidatorView {
    pub expected: Seq<u8>,
    pub expected_len: u64,
    pub seen: u64,
    pub fed: Seq<u8>,
}

impl View for SwiftyStreamingPartValidator {
    type V = ValidatorView;

    closed spec fn view(&self) -> ValidatorView {
        ValidatorView {
            expected: self.expected@,
            expected_len: self.expected_len,
            seen: self.seen,
            fed: self.ctx.fed(),
        }
    }
}

impl SwiftyStreamingPartValidator {
    pub fn new(expected: Md5Digest, expected_len: u64) -> (v: Self)
        ensures
            v@ == (ValidatorView { expected: expected@, expected_len, seen: 0, fed: Seq::empty() }),
    {
        Self { expected, expected_len, seen: 0, ctx: Md5Hasher::new() }
    }

    /// Feeds bytes; fails once more bytes arrived than the part is long.
    pub fn push(&mut self, bytes: &[u8]) -> (r: Result<(), SwiftyError>)
        ensures
            final(self)@.expected == old(self)@.expected,
            final(self)@.expected_len == old(self)@.expected_len,
            old(self)@.seen + bytes@.len() > u64::MAX ==> {
                &&& r matches Err(e) && e@ == (SwiftyErrorView::InvalidPartLength {
                    expected: old(self)@.expected_len,
                    actual: u64::MAX,
                })
                &&& final(self)@ == old(self)@
            },
            old(self)@.seen + bytes@.len() <= u64::MAX && old(self)@.seen + bytes@.len() > old(self)@.expected_len
                ==> {
                &&& r matches Err(e) && e@ == (SwiftyErrorView::InvalidPartLength {
                    expected: old(self)@.expected_len,
                    actual: (old(self)@.seen + bytes@.len()) as u64,
                })
                &&& final(self)@.seen == old(self)@.seen + bytes@.len()
                &&& final(self)@.fed == old(self)@.fed
            },
            old(self)@.seen + bytes@.len() <= old(self)@.expected_len ==> {
                &&& r is Ok
                &&& final(self)@.seen == old(self)@.seen + bytes@.len()
                &&& final(self)@.fed == old(self)@.fed + bytes@
            },
    {
        let n = bytes.len() as u64;
        match self.seen.checked_add(n) {
            Some(s) => {
                self.seen = s;
            },
            None => {
                return Err(SwiftyError::InvalidPartLength { expected: self.expected_len, actual: u64::MAX });
            },
        }
        if self.seen > self.expected_len {
            return Err(SwiftyError::InvalidPartLength { expected: self.expected_len, actual: self.seen });
        }
        self.ctx.consume(bytes);
        Ok(())
    }

    /// Accepts the part when exactly its length arrived and the MD5 of the bytes is
    /// the expected one; returns the length.
    pub fn finish(self) -> (r: Result<u64, SwiftyError>)
        ensures
            self@.seen != self@.expected_len ==> (r matches Err(e) && e@ == (SwiftyErrorView::InvalidPartLength {
                expected: self@.expected_len,
                actual: self@.seen,
            })),
            self@.seen == self@.expected_len && md5_digest(self@.fed) != self@.expected ==> (r matches Err(e) && e@
                == SwiftyErrorView::PartChecksumMismatch),
            self@.seen == self@.expected_len && md5_digest(self@.fed) == self@.expected ==> r == Ok::<
                u64,
                SwiftyError,
            >(self@.seen),
    {
        if self.seen != self.expected_len {
            return Err(SwiftyError::InvalidPartLength { expected: self.expected_len, actual: self.seen });
        }
        let got = Md5Digest::from_bytes(self.ctx.finalize());
        if !got.same_as(&self.expected) {
            return Err(SwiftyError::PartChecksumMismatch);
        }
        Ok(self.seen)
    }
}

// ---------------------------------------------------------------------------
// Raw chunking of a stream
// ---------------------------------------------------------------------------

/// Full raw part `k` of a stream whose bytes so far are `seen`.
pub open spec fn raw_stream_part(name: Seq<char>, seen: Seq<u8>, k: int) -> PartView {
    PartView {
        path: raw_part_name_chars(name, ((k + 1) * RAW_PART_SIZE) as nat),
        start: (k * RAW_PART_SIZE) as u64,
        length: RAW_PART_SIZE,
        checksum: md5_digest(seen.subrange(k * RAW_PART_SIZE, (k + 1) * RAW_PART_SIZE)),
    }
}

/// Cuts a byte stream into raw parts as the bytes arrive.
struct RawScanner {
    file_name: String,
    offset: u64,
    pending: Vec<u8>,
    seen: Ghost<Seq<u8>>,
    emitted: Ghost<Seq<PartView>>,
}

impl RawScanner {
    /// Emitted parts are the full chunks so far; the rest of the bytes wait.
    spec fn wf(&self) -> bool {
        &&& self.offset as int == self.emitted@.len() * RAW_PART_SIZE
        &&& self.pending@.len() < RAW_PART_SIZE
        &&& self.seen@.len() == self.offset + self.pending@.len()
        &&& self.pending@ == self.seen@.subrange(self.offset as int, self.seen@.len() as int)
        &&& forall|k: int|
            0 <= k < self.emitted@.len() ==> #[trigger] self.emitted@[k] == raw_stream_part(
                self.file_name@,
                self.seen@,
                k,
            )
    }

    fn new(file_path: &str) -> (s: Self)
        ensures
            s.wf(),
            s.file_name@ == scan_file_name(file_path@),
            s.seen@ == Seq::<u8>::empty(),
            s.emitted@ == Seq::<PartView>::empty(),
    {
        let file_name = match crate::path::path_file_name(file_path) {
            Some(n) => n,
            None => owned("file"),
        };
        let s = RawScanner {
            file_name,
            offset: 0,
            pending: Vec::new(),
            seen: Ghost(Seq::empty()),
            emitted: Ghost(Seq::empty()),
        };
        assert(s.pending@ =~= s.seen@.subrange(0, 0));
        s
    }

    /// Emits the waiting bytes as the next part.
    fn emit_pending(&mut self) -> (p: SrfPart)
        requires
            old(self).offset as int == old(self).emitted@.len() * RAW_PART_SIZE,
            0 < old(self).pending@.len() <= RAW_PART_SIZE,
            old(self).seen@.len() == old(self).offset + old(self).pending@.len(),
            old(self).seen@.len() <= u64::MAX,
            old(self).pending@ == old(self).seen@.subrange(old(self).offset as int, old(self).seen@.len() as int),
        ensures
            final(self).file_name == old(self).file_name,
            final(self).seen == old(self).seen,
            final(self).emitted@ == old(self).emitted@,
            final(self).offset == old(self).seen@.len(),
            final(self).pending@ == Seq::<u8>::empty(),
            p@ == (PartView {
                path: raw_part_name_chars(old(self).file_name@, old(self).seen@.len() as nat),
                start: old(self).offset,
                length: old(self).pending@.len() as u64,
                checksum: md5_digest(old(self).pending@),
            }),
    {
        let length = self.pending.len() as u64;
        let start = self.offset;
        self.offset = self.offset + length;
        let end = self.offset;
        let digest = Md5Digest::from_bytes(md5_compute(self.pending.as_slice()));
        self.pending.clear();
        SrfPart { path: raw_part_name(self.file_name.as_str(), end), start, length, checksum: digest }
    }

    /// Feeds bytes and returns the parts they complete.
    fn push(&mut self, bytes: &[u8]) -> (out: Vec<SrfPart>)
        requires
            old(self).wf(),
            old(self).seen@.len() + bytes@.len() <= u64::MAX,
        ensures
            final(self).wf(),
            final(self).file_name == old(self).file_name,
            final(self).seen@ == old(self).seen@ + bytes@,
            final(self).emitted@ == old(self).emitted@ + parts_view(out@),
    {
        let ghost seen0 = self.seen@;
        let ghost emitted0 = self.emitted@;
        let mut out: Vec<SrfPart> = Vec::new();
        let mut pos: usize = 0;
        while pos < bytes.len()
            invariant
                self.wf(),
                0 <= pos <= bytes@.len(),
                self.file_name == old(self).file_name,
                self.seen@ == seen0 + bytes@.take(pos as int),
                self.emitted@ == emitted0 + parts_view(out@),
                seen0.len() + bytes@.len() <= u64::MAX,
            decreases bytes@.len() - pos,
        {
            let need: usize = 5_000_000 - self.pending.len();
            let avail: usize = bytes.len() - pos;
            let take: usize = if need < avail { need } else { avail };
            let chunk = &bytes[pos..pos + take];
            let ghost s0 = self.seen@;
            append_bytes(&mut self.pending, chunk);
            self.seen = Ghost(s0 + chunk@);
            proof {
                assert(seen0 + bytes@.take(pos + take) =~= s0 + chunk@);
                assert(self.pending@ =~= self.seen@.subrange(self.offset as int, self.seen@.len() as int));
                assert forall|k: int| 0 <= k < self.emitted@.len() implies #[trigger] self.emitted@[k]
                    == raw_stream_part(self.file_name@, self.seen@, k) by {
                    assert(self.seen@.subrange(k * RAW_PART_SIZE, (k + 1) * RAW_PART_SIZE) =~= s0.subrange(
                        k * RAW_PART_SIZE,
                        (k + 1) * RAW_PART_SIZE,
                    ));
                }
            }
            pos = pos + take;
            if self.pending.len() == 5_000_000 {
                let ghost e0 = self.emitted@;
                let ghost n = e0.len();
                let p = self.emit_pending();
                out.push(p);
                self.emitted = Ghost(e0.push(p@));
                proof {
                    assert(p@ == raw_stream_part(self.file_name@, self.seen@, n as int));
                    assert(parts_view(out@) =~= parts_view(out@).drop_last().push(p@));
                    assert(self.emitted@ =~= emitted0 + parts_view(out@));
                    assert(self.pending@ =~= self.seen@.subrange(self.offset as int, self.seen@.len() as int));
                }
            } else {
                assert(self.emitted@ =~= emitted0 + parts_view(out@));
            }
        }
        assert(bytes@.take(bytes@.len() as int) =~= bytes@);
        out
    }

    /// Feeds the last bytes and returns the parts they complete, then the waiting
    /// bytes as the last, shorter part.
    fn finish(&mut self, bytes: &[u8]) -> (out: Vec<SrfPart>)
        requires
            old(self).wf(),
            old(self).seen@.len() + bytes@.len() <= u64::MAX,
        ensures
            is_raw_layout(
                old(self).emitted@ + parts_view(out@),
                old(self).file_name@,
                (old(self).seen@ + bytes@).len() as int,
            ),
            parts_hash_bytes(old(self).emitted@ + parts_view(out@), old(self).seen@ + bytes@),
    {
        let ghost emitted0 = self.emitted@;
        let mut out = self.push(bytes);
        let ghost n = self.emitted@.len();
        let ghost total = self.seen@.len() as int;
        if self.pending.len() > 0 {
            let ghost e0 = self.emitted@;
            let p = self.emit_pending();
            out.push(p);
            self.emitted = Ghost(e0.push(p@));
            assert(parts_view(out@) =~= parts_view(out@).drop_last().push(p@));
        }
        let ghost all = emitted0 + parts_view(out@);
        proof {
            assert(all =~= self.emitted@);
            if total == n * RAW_PART_SIZE {
                lemma_raw_count_exact(n as int);
            } else {
                lemma_raw_count_partial(n + 1int, total);
            }
            assert forall|k: int| 0 <= k < all.len() implies {
                &&& (#[trigger] all[k]).start == k * RAW_PART_SIZE
                &&& all[k].length == raw_part_len(total, k)
                &&& all[k].path == raw_part_name_chars(
                    old(self).file_name@,
                    (k * RAW_PART_SIZE + raw_part_len(total, k)) as nat,
                )
                &&& all[k].checksum == md5_digest(self.seen@.subrange(all[k].start as int, all[k].start + all[k].length))
            } by {
                if k < n {
                    assert(all[k] == raw_stream_part(self.file_name@, self.seen@, k));
                }
            }
        }
        out
    }
}


// ---------------------------------------------------------------------------
// Planned parts of a stream
// ---------------------------------------------------------------------------

/// A planned part with the MD5 of its bytes in `seen`.
pub open spec fn planned_part(p: PlanView, seen: Seq<u8>) -> PartView {
    PartView {
        path: p.path,
        start: p.start as u64,
        length: p.length as u64,
        checksum: md5_digest(seen.subrange(p.start, p.start + p.length)),
    }
}

/// A valid plan: contiguous from 0, ending at `total`.
pub open spec fn plan_covers(plan: Seq<PlanView>, total: int) -> bool {
    &&& plan.len() > 0
    &&& plan_contiguous(plan)
    &&& plan.last().start + plan.last().length == total
    &&& total <= u64::MAX
}

/// In a contiguous plan a part ends no later than any later part starts.
pub proof fn lemma_plan_ordered(plan: Seq<PlanView>, i: int, j: int)
    requires
        plan_contiguous(plan),
        0 <= i < j < plan.len(),
    ensures
        plan[i].start + plan[i].length <= plan[j].start,
    decreases j - i,
{
    if j > i + 1 {
        lemma_plan_ordered(plan, i, j - 1);
        assert(0 <= plan[j - 1].length);
    }
}

/// Hashes a byte stream part by part along a plan.
struct PlannedScanner {
    plan: Vec<SwiftyPboPartPlan>,
    index: usize,
    offset: u64,
    ctx: Md5Hasher,
    total: Ghost<int>,
    seen: Ghost<Seq<u8>>,
    emitted: Ghost<Seq<PartView>>,
}

impl PlannedScanner {
    /// Parts before `index` are emitted; the context holds the bytes of the
    /// current part so far.
    #[verifier::opaque]
    spec fn wf_core(&self) -> bool {
        let plan = plans_view(self.plan@);
        &&& plan_covers(plan, self.total@)
        &&& self.index <= plan.len()
        &&& self.offset as int == self.seen@.len()
        &&& self.offset <= self.total@
        &&& self.emitted@.len() == self.index
        &&& forall|k: int| 0 <= k < self.index ==> #[trigger] self.emitted@[k] == planned_part(plan[k], self.seen@)
        &&& self.index < plan.len() ==> {
            &&& plan[self.index as int].start <= self.offset <= plan[self.index as int].start + plan[self.index as int].length
            &&& self.ctx.fed() == self.seen@.subrange(plan[self.index as int].start, self.offset as int)
        }
        &&& self.index == plan.len() ==> self.offset == self.total@
    }

    /// A part is emitted as soon as its last byte arrives.
    spec fn wf(&self) -> bool {
        let plan = plans_view(self.plan@);
        &&& self.wf_core()
        &&& self.index < plan.len() ==> (self.offset < plan[self.index as int].start + plan[self.index as int].length
            || plan[self.index as int].length == 0)
    }

    /// The positions that `wf_core` pins down.
    proof fn lemma_positions(&self)
        requires
            self.wf_core(),
        ensures
            plan_covers(plans_view(self.plan@), self.total@),
            self.index <= self.plan@.len(),
            self.offset as int == self.seen@.len(),
            self.offset <= self.total@,
            self.emitted@.len() == self.index,
            self.index < self.plan@.len() ==> plans_view(self.plan@)[self.index as int].start <= self.offset
                <= plans_view(self.plan@)[self.index as int].start + plans_view(self.plan@)[self.index as int].length,
            self.index == self.plan@.len() ==> self.offset == self.total@,
    {
        reveal(PlannedScanner::wf_core);
    }

    fn new(plan: Vec<SwiftyPboPartPlan>, total: Ghost<int>) -> (s: Self)
        requires
            plan_covers(plans_view(plan@), total@),
        ensures
            s.wf(),
            s.plan@ == plan@,
            s.total == total,
            s.seen@ == Seq::<u8>::empty(),
            s.emitted@ == Seq::<PartView>::empty(),
    {
        let s = PlannedScanner {
            plan,
            index: 0,
            offset: 0,
            ctx: Md5Hasher::new(),
            total,
            seen: Ghost(Seq::empty()),
            emitted: Ghost(Seq::empty()),
        };
        proof {
            reveal(PlannedScanner::wf_core);
            let pv = plans_view(s.plan@);
            assert(pv[0].start == 0);
            assert(s.seen@.subrange(0, 0) =~= Seq::<u8>::empty());
            if pv[0].length == 0 && pv.len() == 1 {
                assert(total@ == 0);
            }
        }
        s
    }

    /// Emits the current part, whose bytes have all arrived.
    fn emit_current(&mut self) -> (p: SrfPart)
        requires
            old(self).wf_core(),
            old(self).index < old(self).plan@.len(),
            old(self).offset == plans_view(old(self).plan@)[old(self).index as int].start + plans_view(
                old(self).plan@,
            )[old(self).index as int].length,
        ensures
            final(self).wf(),
            final(self).plan == old(self).plan,
            final(self).total == old(self).total,
            final(self).seen == old(self).seen,
            final(self).offset == old(self).offset,
            final(self).index == old(self).index + 1,
            final(self).emitted@ == old(self).emitted@.push(p@),
            p@ == planned_part(plans_view(old(self).plan@)[old(self).index as int], old(self).seen@),
    {
        let ghost plan = plans_view(self.plan@);
        let ghost i = self.index as int;
        proof {
            reveal(PlannedScanner::wf_core);
        }
        let n = self.plan.len();
        assert(self.index < n);
        let mut ctx = Md5Hasher::new();
        std::mem::swap(&mut ctx, &mut self.ctx);
        let digest = ctx.finalize();
        let part = &self.plan[self.index];
        let p = SrfPart {
            path: part.path.clone(),
            start: part.start,
            length: part.length,
            checksum: Md5Digest::from_bytes(digest),
        };
        self.index = self.index + 1;
        self.emitted = Ghost(self.emitted@.push(p@));
        proof {
            assert(plan[i] == self.plan@[i]@);
            assert(p@ == planned_part(plan[i], self.seen@));
            assert forall|k: int| 0 <= k < self.index implies #[trigger] self.emitted@[k] == planned_part(
                plan[k],
                self.seen@,
            ) by {
                if k < i {
                    assert(self.emitted@[k] == old(self).emitted@[k]);
                }
            }
            if self.index < plan.len() {
                assert(plan[i + 1].start == plan[i].start + plan[i].length);
                assert(self.seen@.subrange(self.offset as int, self.offset as int) =~= Seq::<u8>::empty());
                assert(0 <= plan[i + 1].length);
            }
        }
        p
    }

    /// Emits the zero-length parts at the current position.
    fn emit_empty_parts(&mut self) -> (out: Vec<SrfPart>)
        requires
            old(self).wf(),
        ensures
            final(self).wf(),
            final(self).plan == old(self).plan,
            final(self).total == old(self).total,
            final(self).seen == old(self).seen,
            final(self).offset == old(self).offset,
            final(self).emitted@ == old(self).emitted@ + parts_view(out@),
            final(self).index < final(self).plan@.len() ==> final(self).plan@[final(self).index as int].length > 0,
    {
        let ghost emitted0 = self.emitted@;
        let ghost plan = plans_view(self.plan@);
        let mut out: Vec<SrfPart> = Vec::new();
        while self.index < self.plan.len() && self.plan[self.index].length == 0
            invariant
                self.wf(),
                plan == plans_view(self.plan@),
                self.plan == old(self).plan,
                self.total == old(self).total,
                self.seen == old(self).seen,
                self.offset == old(self).offset,
                self.emitted@ == emitted0 + parts_view(out@),
            decreases self.plan@.len() - self.index,
        {
            assert(plan[self.index as int] == self.plan@[self.index as int]@);
            proof {
                self.lemma_positions();
            }
            let p = self.emit_current();
            out.push(p);
            assert(parts_view(out@) =~= parts_view(out@).drop_last().push(p@));
            assert(self.emitted@ =~= emitted0 + parts_view(out@));
        }
        out
    }

    /// Feeds bytes that belong to the current part.
    fn consume_current(&mut self, chunk: &[u8])
        requires
            old(self).wf(),
            old(self).index < old(self).plan@.len(),
            old(self).offset + chunk@.len() <= plans_view(old(self).plan@)[old(self).index as int].start
                + plans_view(old(self).plan@)[old(self).index as int].length,
        ensures
            final(self).wf_core(),
            final(self).plan == old(self).plan,
            final(self).total == old(self).total,
            final(self).index == old(self).index,
            final(self).emitted == old(self).emitted,
            final(self).seen@ == old(self).seen@ + chunk@,
            final(self).offset == old(self).offset + chunk@.len(),
    {
        let ghost plan = plans_view(self.plan@);
        let ghost i = self.index as int;
        let ghost s0 = self.seen@;
        proof {
            reveal(PlannedScanner::wf_core);
            lemma_plan_all_bounds(plan, self.total@);
        }
        self.ctx.consume(chunk);
        self.offset = self.offset + chunk.len() as u64;
        self.seen = Ghost(s0 + chunk@);
        proof {
            assert(self.ctx.fed() =~= self.seen@.subrange(plan[i].start, self.offset as int));
            assert forall|k: int| 0 <= k < self.index implies #[trigger] self.emitted@[k] == planned_part(
                plan[k],
                self.seen@,
            ) by {
                lemma_plan_ordered(plan, k, i);
                assert(self.seen@.subrange(plan[k].start, plan[k].start + plan[k].length) =~= s0.subrange(
                    plan[k].start,
                    plan[k].start + plan[k].length,
                ));
            }
        }
    }

    /// Feeds bytes and returns the parts they complete. A zero-length part is
    /// emitted when the bytes after it arrive, or at the end.
    #[verifier::rlimit(30)]
    fn push(&mut self, bytes: &[u8]) -> (r: Result<Vec<SrfPart>, SwiftyError>)
        requires
            old(self).wf(),
            old(self).seen@.len() + bytes@.len() <= old(self).total@,
        ensures
            final(self).wf(),
            final(self).plan == old(self).plan,
            final(self).total == old(self).total,
            final(self).seen@ == old(self).seen@ + bytes@,
            r matches Ok(out) && final(self).emitted@ == old(self).emitted@ + parts_view(out@),
    {
        let ghost seen0 = self.seen@;
        let ghost emitted0 = self.emitted@;
        let ghost plan = plans_view(self.plan@);
        let mut out: Vec<SrfPart> = Vec::new();
        let mut pos: usize = 0;
        while pos < bytes.len()
            invariant
                self.wf(),
                0 <= pos <= bytes@.len(),
                plan == plans_view(self.plan@),
                self.plan == old(self).plan,
                self.total == old(self).total,
                self.seen@ == seen0 + bytes@.take(pos as int),
                self.emitted@ == emitted0 + parts_view(out@),
                seen0.len() + bytes@.len() <= self.total@,
            decreases bytes@.len() - pos,
        {
            let mut empty = self.emit_empty_parts();
            out.append(&mut empty);
            assert(self.emitted@ =~= emitted0 + parts_view(out@));
            proof {
                self.lemma_positions();
            }
            if self.index >= self.plan.len() {
                return Err(
                    SwiftyError::InvalidPbo {
                        file: owned("stream.pbo"),
                        reason: owned("more bytes than planned PBO parts"),
                    },
                );
            }
            let ghost i = self.index as int;
            assert(plan[i] == self.plan@[i]@);
            proof {
                lemma_plan_all_bounds(plan, self.total@);
            }
            let part_end = self.plan[self.index].start + self.plan[self.index].length;
            let remaining: u64 = part_end - self.offset;
            let avail: usize = bytes.len() - pos;
            let take: usize = if remaining < avail as u64 { remaining as usize } else { avail };
            let chunk = &bytes[pos..pos + take];
            self.consume_current(chunk);
            proof {
                self.lemma_positions();
            }
            assert(seen0 + bytes@.take(pos + take) =~= seen0 + bytes@.take(pos as int) + chunk@);
            pos = pos + take;
            if self.offset == part_end {
                let p = self.emit_current();
                out.push(p);
                assert(parts_view(out@) =~= parts_view(out@).drop_last().push(p@));
            }
            assert(self.emitted@ =~= emitted0 + parts_view(out@));
        }
        assert(bytes@.take(bytes@.len() as int) =~= bytes@);
        Ok(out)
    }

    /// Emits the remaining parts once every byte has arrived.
    fn finish(&mut self) -> (r: Result<Vec<SrfPart>, SwiftyError>)
        requires
            old(self).wf(),
            old(self).seen@.len() == old(self).total@,
        ensures
            r matches Ok(out) && old(self).emitted@ + parts_view(out@) == Seq::new(
                old(self).plan@.len(),
                |k: int| planned_part(plans_view(old(self).plan@)[k], old(self).seen@),
            ),
    {
        let ghost plan = plans_view(self.plan@);
        let ghost emitted0 = self.emitted@;
        proof {
            self.lemma_positions();
            lemma_plan_all_bounds(plan, self.total@);
        }
        let mut out: Vec<SrfPart> = Vec::new();
        while self.index < self.plan.len()
            invariant
                self.wf(),
                plan == plans_view(self.plan@),
                self.plan == old(self).plan,
                self.total == old(self).total,
                self.seen == old(self).seen,
                self.offset == self.total@,
                self.emitted@ == emitted0 + parts_view(out@),
                forall|k: int| 0 <= k < plan.len() ==> 0 <= (#[trigger] plan[k]).start && plan[k].start + plan[k].length <= self.total@,
            decreases self.plan@.len() - self.index,
        {
            let ghost i = self.index as int;
            assert(plan[i] == self.plan@[i]@);
            proof {
                self.lemma_positions();
                if i + 1 < plan.len() {
                    lemma_plan_ordered(plan, i, i + 1);
                }
            }
            let part = &self.plan[self.index];
            if part.start + part.length != self.offset {
                return Err(
                    SwiftyError::InvalidPbo {
                        file: owned("stream.pbo"),
                        reason: owned("stream ended before planned PBO part completed"),
                    },
                );
            }
            let p = self.emit_current();
            out.push(p);
            assert(parts_view(out@) =~= parts_view(out@).drop_last().push(p@));
            assert(self.emitted@ =~= emitted0 + parts_view(out@));
        }
        proof {
            reveal(PlannedScanner::wf_core);
        }
        assert(self.emitted@ =~= Seq::new(plan.len(), |k: int| planned_part(plan[k], self.seen@)));
        Ok(out)
    }
}


// ---------------------------------------------------------------------------
// Part scanner
// ---------------------------------------------------------------------------

/// Longest PBO header prefix the scanner waits for before giving up, in bytes.
pub const MAX_PBO_HEADER_PREFIX: usize = 1048576;

/// What the scanner does with the bytes it receives.
enum ScannerMode {
    /// A `.pbo` whose header is still incomplete: the bytes wait.
    Detect { prefix: Vec<u8> },
    /// Raw chunking.
    Raw(RawScanner),
    /// PBO parts along the plan read from the header.
    Planned(PlannedScanner),
}

/// Emits Swifty parts while a file is read chunk by chunk: raw chunks, or for a
/// `.pbo` with a valid header, its PBO parts.
pub struct SwiftyStreamingPartScanner {
    file_path: String,
    file_len: u64,
    consumed: u64,
    mode: ScannerMode,
}

/// What a scanner holds: the file's path and declared length, the bytes received
/// so far and every part it returned.
pub struct ScannerView {
    pub file_path: Seq<char>,
    pub file_len: u64,
    pub consumed: u64,
    pub seen: Seq<u8>,
    pub emitted: Seq<PartView>,
}

impl View for SwiftyStreamingPartScanner {
    type V = ScannerView;

    closed spec fn view(&self) -> ScannerView {
        ScannerView {
            file_path: self.file_path@,
            file_len: self.file_len,
            consumed: self.consumed,
            seen: match self.mode {
                ScannerMode::Detect { prefix } => prefix@,
                ScannerMode::Raw(s) => s.seen@,
                ScannerMode::Planned(s) => s.seen@,
            },
            emitted: match self.mode {
                ScannerMode::Detect { prefix } => Seq::empty(),
                ScannerMode::Raw(s) => s.emitted@,
                ScannerMode::Planned(s) => s.emitted@,
            },
        }
    }
}

/// The parts a whole file streams into: the PBO parts of a `.pbo` whose header
/// is valid, raw chunks otherwise, each with the MD5 of its bytes.
pub open spec fn is_streamed_file(file_path: Seq<char>, contents: Seq<u8>, parts: Seq<PartView>) -> bool {
    &&& parts_hash_bytes(parts, contents)
    &&& if has_pbo_extension(file_path) && prefix_plan_spec(file_path, contents, contents.len() as int) is Ok
        && prefix_plan_spec(file_path, contents, contents.len() as int)->Ok_0 is Some {
        parts_follow_plan(parts, prefix_plan_spec(file_path, contents, contents.len() as int)->Ok_0->Some_0)
    } else {
        is_raw_layout(parts, scan_file_name(file_path), contents.len() as int)
    }
}


/// The parts a scanner has emitted once `seen` has arrived: none while a `.pbo`
/// header is incomplete; the first parts of the plan, each with the MD5 of its
/// bytes, once a valid header gave the plan; otherwise the full raw chunks so far.
pub open spec fn is_emitted_so_far(file_path: Seq<char>, seen: Seq<u8>, file_len: int, emitted: Seq<PartView>) -> bool {
    let p = prefix_plan_spec(file_path, seen, file_len);
    if has_pbo_extension(file_path) && p == Ok::<Option<Seq<PlanView>>, SwiftyErrorView>(None) {
        emitted.len() == 0
    } else if has_pbo_extension(file_path) && p is Ok {
        &&& emitted.len() <= p->Ok_0->Some_0.len()
        &&& forall|k: int|
            0 <= k < emitted.len() ==> #[trigger] emitted[k] == planned_part(p->Ok_0->Some_0[k], seen)
    } else {
        &&& emitted.len() == (seen.len() as int) / (RAW_PART_SIZE as int)
        &&& forall|k: int|
            0 <= k < emitted.len() ==> #[trigger] emitted[k] == raw_stream_part(scan_file_name(file_path), seen, k)
    }
}

/// When a push gives up on a `.pbo` header: still incomplete after more than
/// `MAX_PBO_HEADER_PREFIX` bytes.
pub open spec fn header_limit_hit(file_path: Seq<char>, seen: Seq<u8>, file_len: int) -> bool {
    &&& has_pbo_extension(file_path)
    &&& prefix_plan_spec(file_path, seen, file_len) == Ok::<Option<Seq<PlanView>>, SwiftyErrorView>(None)
    &&& seen.len() > MAX_PBO_HEADER_PREFIX
}

/// Planned parts with the MD5 of their bytes follow the plan.
proof fn lemma_planned_parts_follow(plan: Seq<PlanView>, contents: Seq<u8>, parts: Seq<PartView>)
    requires
        plan_covers(plan, contents.len() as int),
        parts == Seq::new(plan.len(), |k: int| planned_part(plan[k], contents)),
    ensures
        parts_follow_plan(parts, plan),
        parts_hash_bytes(parts, contents),
{
    lemma_plan_all_bounds(plan, contents.len() as int);
}

impl SwiftyStreamingPartScanner {
    /// The state agrees with the bytes received: a `.pbo` waits while its header
    /// is incomplete, follows its plan once the header is valid, and is cut into
    /// raw chunks otherwise.
    pub closed spec fn wf(&self) -> bool {
        let path = self.file_path@;
        let len = self.file_len as int;
        &&& self.consumed <= self.file_len
        &&& self.consumed as int == self@.seen.len()
        &&& match self.mode {
            ScannerMode::Detect { prefix } => {
                &&& has_pbo_extension(path)
                &&& prefix_plan_spec(path, prefix@, len) == Ok::<Option<Seq<PlanView>>, SwiftyErrorView>(None)
            },
            ScannerMode::Raw(s) => {
                &&& s.wf()
                &&& s.file_name@ == scan_file_name(path)
                &&& has_pbo_extension(path) ==> prefix_plan_spec(path, s.seen@, len) is Err
            },
            ScannerMode::Planned(s) => {
                &&& s.wf()
                &&& s.total@ == len
                &&& has_pbo_extension(path)
                &&& prefix_plan_spec(path, s.seen@, len) == Ok::<Option<Seq<PlanView>>, SwiftyErrorView>(
                    Some(plans_view(s.plan@)),
                )
            },
        }
    }

    /// What a valid scanner has emitted, for the bytes it has seen.
    pub proof fn lemma_emitted_so_far(&self)
        requires
            self.wf(),
        ensures
            is_emitted_so_far(self@.file_path, self@.seen, self@.file_len as int, self@.emitted),
    {
        match self.mode {
            ScannerMode::Detect { prefix } => {},
            ScannerMode::Raw(r) => {
                let n = r.emitted@.len() as int;
                let len = r.seen@.len() as int;
                assert(len / 5_000_000 == n) by (nonlinear_arith)
                    requires
                        n * 5_000_000 <= len < n * 5_000_000 + 5_000_000,
                ;
            },
            ScannerMode::Planned(p) => {
                reveal(PlannedScanner::wf_core);
            },
        }
    }

    pub fn new(file_path: &str, file_len: u64) -> (s: Self)
        ensures
            s.wf(),
            s@ == (ScannerView {
                file_path: file_path@,
                file_len,
                consumed: 0,
                seen: Seq::empty(),
                emitted: Seq::empty(),
            }),
    {
        let mode = if is_pbo_path(file_path) {
            ScannerMode::Detect { prefix: Vec::new() }
        } else {
            ScannerMode::Raw(RawScanner::new(file_path))
        };
        let s = Self { file_path: owned(file_path), file_len, consumed: 0, mode };
        proof {
            if has_pbo_extension(file_path@) {
                assert(s@.seen =~= Seq::<u8>::empty());
                lemma_meta_header_len(Seq::<u8>::empty());
            }
        }
        s
    }

    /// Feeds the next bytes of the file and returns the parts they complete.
    pub fn push(&mut self, bytes: &[u8]) -> (r: Result<Vec<SrfPart>, SwiftyError>)
        requires
            old(self).wf(),
        ensures
            final(self).wf(),
            final(self)@.file_path == old(self)@.file_path,
            final(self)@.file_len == old(self)@.file_len,
            is_emitted_so_far(final(self)@.file_path, final(self)@.seen, final(self)@.file_len as int, final(self)@.emitted),
            old(self)@.consumed + bytes@.len() > u64::MAX ==> {
                &&& r matches Err(e) && e@ == (SwiftyErrorView::InvalidPbo {
                    file: "stream.pbo"@,
                    reason: "stream length overflow"@,
                })
                &&& final(self)@ == old(self)@
            },
            old(self)@.consumed + bytes@.len() <= u64::MAX && old(self)@.consumed + bytes@.len() > old(self)@.file_len
                ==> {
                &&& r matches Err(e) && e@ == (SwiftyErrorView::InvalidPbo {
                    file: "stream.pbo"@,
                    reason: "stream exceeded declared file length"@,
                })
                &&& final(self)@ == old(self)@
            },
            old(self)@.consumed + bytes@.len() <= old(self)@.file_len ==> {
                &&& final(self)@.consumed == old(self)@.consumed + bytes@.len()
                &&& final(self)@.seen == old(self)@.seen + bytes@
                &&& if header_limit_hit(old(self)@.file_path, final(self)@.seen, old(self)@.file_len as int) {
                    &&& r matches Err(e) && e@ == (SwiftyErrorView::InvalidPbo {
                        file: old(self)@.file_path,
                        reason: "PBO header exceeded streaming prefix limit"@,
                    })
                    &&& final(self)@.emitted == old(self)@.emitted
                } else {
                    r matches Ok(out) && final(self)@.emitted == old(self)@.emitted + parts_view(out@)
                }
            },
    {
        let r = self.push_inner(bytes);
        proof {
            self.lemma_emitted_so_far();
        }
        r
    }

    fn push_inner(&mut self, bytes: &[u8]) -> (r: Result<Vec<SrfPart>, SwiftyError>)
        requires
            old(self).wf(),
        ensures
            final(self).wf(),
            final(self)@.file_path == old(self)@.file_path,
            final(self)@.file_len == old(self)@.file_len,
            old(self)@.consumed + bytes@.len() > u64::MAX ==> {
                &&& r matches Err(e) && e@ == (SwiftyErrorView::InvalidPbo {
                    file: "stream.pbo"@,
                    reason: "stream length overflow"@,
                })
                &&& final(self)@ == old(self)@
            },
            old(self)@.consumed + bytes@.len() <= u64::MAX && old(self)@.consumed + bytes@.len() > old(self)@.file_len
                ==> {
                &&& r matches Err(e) && e@ == (SwiftyErrorView::InvalidPbo {
                    file: "stream.pbo"@,
                    reason: "stream exceeded declared file length"@,
                })
                &&& final(self)@ == old(self)@
            },
            old(self)@.consumed + bytes@.len() <= old(self)@.file_len ==> {
                &&& final(self)@.consumed == old(self)@.consumed + bytes@.len()
                &&& final(self)@.seen == old(self)@.seen + bytes@
                &&& if header_limit_hit(old(self)@.file_path, final(self)@.seen, old(self)@.file_len as int) {
                    &&& r matches Err(e) && e@ == (SwiftyErrorView::InvalidPbo {
                        file: old(self)@.file_path,
                        reason: "PBO header exceeded streaming prefix limit"@,
                    })
                    &&& final(self)@.emitted == old(self)@.emitted
                } else {
                    r matches Ok(out) && final(self)@.emitted == old(self)@.emitted + parts_view(out@)
                }
            },
    {
        let next_consumed = match self.consumed.checked_add(bytes.len() as u64) {
            Some(n) => n,
            None => {
                return Err(
                    SwiftyError::InvalidPbo { file: owned("stream.pbo"), reason: owned("stream length overflow") },
                );
            },
        };
        if next_consumed > self.file_len {
            return Err(
                SwiftyError::InvalidPbo {
                    file: owned("stream.pbo"),
                    reason: owned("stream exceeded declared file length"),
                },
            );
        }
        let ghost old_seen = self@.seen;
        let ghost path = self.file_path@;
        let ghost len = self.file_len as int;
        self.consumed = next_consumed;
        let mut mode = ScannerMode::Detect { prefix: Vec::new() };
        std::mem::swap(&mut mode, &mut self.mode);
        match mode {
            ScannerMode::Detect { mut prefix } => {
                append_bytes(&mut prefix, bytes);
                match swifty_pbo_part_plan_from_prefix(self.file_path.as_str(), prefix.as_slice(), self.file_len) {
                    Ok(Some(plan)) => {
                        proof {
                            let m = crate::pbo::spec_meta(prefix@).unwrap();
                            lemma_meta_header_len(prefix@);
                            lemma_partition_covers(crate::pbo::decoded_meta(m), len);
                        }
                        let mut scanner = PlannedScanner::new(plan, Ghost(self.file_len as int));
                        let out = match scanner.push(prefix.as_slice()) {
                            Ok(o) => o,
                            Err(e) => {
                                self.mode = ScannerMode::Detect { prefix };
                                return Err(e);
                            },
                        };
                        self.mode = ScannerMode::Planned(scanner);
                        assert(self@.seen =~= old_seen + bytes@);
                        Ok(out)
                    },
                    Ok(None) => {
                        if prefix.len() <= MAX_PBO_HEADER_PREFIX {
                            self.mode = ScannerMode::Detect { prefix };
                            let out: Vec<SrfPart> = Vec::new();
                            assert(self@.emitted =~= old(self)@.emitted + parts_view(out@));
                            Ok(out)
                        } else {
                            let e = SwiftyError::InvalidPbo {
                                file: self.file_path.clone(),
                                reason: owned("PBO header exceeded streaming prefix limit"),
                            };
                            self.mode = ScannerMode::Detect { prefix };
                            Err(e)
                        }
                    },
                    Err(SwiftyError::InvalidPbo { file, reason }) => {
                        let mut scanner = RawScanner::new(self.file_path.as_str());
                        let out = scanner.push(prefix.as_slice());
                        self.mode = ScannerMode::Raw(scanner);
                        assert(self@.seen =~= old_seen + bytes@);
                        assert(self@.emitted =~= old(self)@.emitted + parts_view(out@));
                        Ok(out)
                    },
                    Err(e) => {
                        self.mode = ScannerMode::Detect { prefix };
                        Err(e)
                    },
                }
            },
            ScannerMode::Raw(mut scanner) => {
                let out = scanner.push(bytes);
                proof {
                    law_prefix_plan_stable(path, old_seen, bytes@, len);
                }
                self.mode = ScannerMode::Raw(scanner);
                Ok(out)
            },
            ScannerMode::Planned(mut scanner) => {
                proof {
                    law_prefix_plan_stable(path, old_seen, bytes@, len);
                }
                match scanner.push(bytes) {
                    Ok(out) => {
                        self.mode = ScannerMode::Planned(scanner);
                        Ok(out)
                    },
                    Err(e) => {
                        self.mode = ScannerMode::Planned(scanner);
                        Err(e)
                    },
                }
            },
        }
    }

    /// Ends the stream and returns the remaining parts.
    pub fn finish(self) -> (r: Result<Vec<SrfPart>, SwiftyError>)
        requires
            self.wf(),
        ensures
            self@.consumed != self@.file_len ==> (r matches Err(e) && e@ == (SwiftyErrorView::InvalidPbo {
                file: "stream.pbo"@,
                reason: "stream ended before declared file length"@,
            })),
            self@.consumed == self@.file_len ==> (r matches Ok(out) && is_streamed_file(
                self@.file_path,
                self@.seen,
                self@.emitted + parts_view(out@),
            )),
    {
        if self.consumed != self.file_len {
            return Err(
                SwiftyError::InvalidPbo {
                    file: owned("stream.pbo"),
                    reason: owned("stream ended before declared file length"),
                },
            );
        }
        let ghost path = self.file_path@;
        let ghost seen = self@.seen;
        let ghost emitted = self@.emitted;
        match self.mode {
            ScannerMode::Detect { prefix } => {
                match swifty_pbo_part_plan_from_prefix(self.file_path.as_str(), prefix.as_slice(), self.file_len) {
                    Err(e) => Err(e),
                    Ok(Some(plan)) => {
                        proof {
                            let m = crate::pbo::spec_meta(prefix@).unwrap();
                            lemma_meta_header_len(prefix@);
                            lemma_partition_covers(crate::pbo::decoded_meta(m), self.file_len as int);
                        }
                        let mut scanner = PlannedScanner::new(plan, Ghost(self.file_len as int));
                        let mut out = match scanner.push(prefix.as_slice()) {
                            Ok(o) => o,
                            Err(e) => {
                                return Err(e);
                            },
                        };
                        let mut rest = match scanner.finish() {
                            Ok(o) => o,
                            Err(e) => {
                                return Err(e);
                            },
                        };
                        out.append(&mut rest);
                        Ok(out)
                    },
                    Ok(None) => {
                        let mut scanner = RawScanner::new(self.file_path.as_str());
                        let out = scanner.finish(prefix.as_slice());
                        assert(Seq::<PartView>::empty() + parts_view(out@) =~= parts_view(out@));
                        assert(Seq::<u8>::empty() + prefix@ =~= prefix@);
                        Ok(out)
                    },
                }
            },
            ScannerMode::Raw(mut scanner) => {
                let empty: [u8; 0] = [];
                let out = scanner.finish(empty.as_slice());
                assert(seen + empty@ =~= seen);
                Ok(out)
            },
            ScannerMode::Planned(mut scanner) => {
                proof {
                    scanner.lemma_positions();
                }
                let ghost plan = plans_view(scanner.plan@);
                let r = scanner.finish();
                proof {
                    if r is Ok {
                        lemma_planned_parts_follow(
                            plan,
                            seen,
                            emitted + parts_view(r->Ok_0@),
                        );
                    }
                }
                r
            },
        }
    }

    /// Bytes received so far.
    pub fn total_bytes(&self) -> (n: u64)
        ensures
            n == self@.consumed,
    {
        self.consumed
    }
}



/// Streams a whole file through a part scanner in chunks of `chunk_len` bytes and
/// returns every part emitted, in order. The result is what `finish` describes:
/// with `law_stream_matches_scan`, the parts `scan_file` gives.
pub fn stream_file_parts(file_path: &str, contents: &[u8], chunk_len: usize) -> (r: Result<Vec<SrfPart>, SwiftyError>)
    requires
        chunk_len > 0,
        contents@.len() <= u64::MAX,
    ensures
        r matches Ok(parts) ==> is_streamed_file(file_path@, contents@, parts_view(parts@)),
        r matches Err(e) ==> e@ == (SwiftyErrorView::InvalidPbo {
            file: file_path@,
            reason: "PBO header exceeded streaming prefix limit"@,
        }),
        (forall|n: int|
            0 <= n <= contents@.len() ==> !#[trigger] header_limit_hit(
                file_path@,
                contents@.take(n),
                contents@.len() as int,
            )) ==> r is Ok,
{
    let len = contents.len();
    let mut scanner = SwiftyStreamingPartScanner::new(file_path, len as u64);
    let mut out: Vec<SrfPart> = Vec::new();
    let mut pos: usize = 0;
    assert(contents@.take(0) =~= Seq::<u8>::empty());
    while pos < len
        invariant
            scanner.wf(),
            len == contents@.len(),
            len <= u64::MAX,
            chunk_len > 0,
            pos <= len,
            scanner@.file_path == file_path@,
            scanner@.file_len == len,
            scanner@.consumed == pos,
            scanner@.seen == contents@.take(pos as int),
            scanner@.emitted == parts_view(out@),
        decreases len - pos,
    {
        let end = if len - pos < chunk_len { len } else { pos + chunk_len };
        let chunk = &contents[pos..end];
        assert(contents@.take(pos as int) + chunk@ =~= contents@.take(end as int));
        let ghost before = out@;
        match scanner.push(chunk) {
            Ok(mut parts) => {
                let ghost new_parts = parts@;
                out.append(&mut parts);
                assert(parts_view(out@) =~= parts_view(before) + parts_view(new_parts));
            },
            Err(e) => {
                return Err(e);
            },
        }
        pos = end;
    }
    assert(contents@.take(len as int) =~= contents@);
    let ghost before = out@;
    match scanner.finish() {
        Ok(mut rest) => {
            let ghost tail = rest@;
            out.append(&mut rest);
            assert(parts_view(out@) =~= parts_view(before) + parts_view(tail));
            Ok(out)
        },
        Err(e) => Err(e),
    }
}

/// Streaming a whole file gives the parts `scan_file` gives for it in the real
/// signature mode with PBO detection on, for an ASCII path.
pub proof fn law_stream_matches_scan(
    rel: Seq<char>,
    contents: Seq<u8>,
    streamed: Seq<PartView>,
    salt: Seq<char>,
    r: Result<SrfFile, SwiftyError>,
)
    requires
        is_ascii_chars(rel),
        is_streamed_file(rel, contents, streamed),
        has_pbo_extension(rel) ==> is_pbo_scan(r, rel, contents, SignatureMode::Real, salt),
        !has_pbo_extension(rel) ==> is_raw_scan(r, rel, contents.len() as int, SignatureMode::Real, salt, contents),
    ensures
        r matches Ok(f) && parts_view(f.parts@) == streamed,
{
    lemma_file_name_ascii(rel);
    let name = scan_file_name(rel);
    if has_pbo_extension(rel) && prefix_plan_spec(rel, contents, contents.len() as int) is Ok
        && prefix_plan_spec(rel, contents, contents.len() as int)->Ok_0 is Some {
        let plan = prefix_plan_spec(rel, contents, contents.len() as int)->Ok_0->Some_0;
        assert(pbo_parts_spec(rel, contents, contents.len() as int) == Ok::<Seq<PlanView>, SwiftyErrorView>(plan));
        let f = r->Ok_0;
        lemma_real_mode_inputs(parts_view(f.parts@), salt, rel, contents);
        lemma_plan_parts_unique(streamed, parts_view(f.parts@), plan, contents);
    } else {
        if has_pbo_extension(rel) {
            assert(pbo_parts_spec(rel, contents, contents.len() as int) is Err);
            assert(pbo_parts_spec(rel, contents, contents.len() as int)->Err_0 is InvalidPbo);
        }
        let f = r->Ok_0;
        lemma_real_mode_inputs(parts_view(f.parts@), salt, rel, contents);
        lemma_raw_parts_unique(streamed, parts_view(f.parts@), name, contents);
    }
}

} // verus!
