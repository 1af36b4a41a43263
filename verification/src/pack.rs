//! Object compression with Zstd and byte-level delta encoding.
use vstd::prelude::*;
use vstd::string::*;

verus! {

/// Compression and delta engine.
pub struct PackEngine;

/// One step of a delta: copy a range of the base, or insert literal bytes.
#[derive(Debug, Clone)]
pub enum DeltaOp {
    Copy { offset: usize, len: usize },
    Insert(Vec<u8>),
}

// ---------------------------------------------------------------------------
// Zstd
// ---------------------------------------------------------------------------

/// The Zstd frame that `zstd::encode_all` produces for `data` at `level`.
pub uninterp spec fn zstd_frame(data: Seq<u8>, level: int) -> Seq<u8>;

/// The content that `zstd::decode_all` recovers from `frame`, if it decodes.
pub uninterp spec fn zstd_content(frame: Seq<u8>) -> Option<Seq<u8>>;

/// Compresses with `zstd::encode_all` at level 3.  Reading an in-memory
/// slice into a `Vec` at a valid level does not fail; the frame is the one
/// named by `zstd_frame`, and decoding it gives `data` back (Zstd is
/// lossless).
#[verifier::external_body]
fn zstd_encode(data: &[u8]) -> (r: Result<Vec<u8>, String>)
    ensures
        r is Ok,
        r matches Ok(c) ==> c@ == zstd_frame(data@, 3) && zstd_content(c@) == Some(data@),
{
    zstd::encode_all(data, 3).map_err(|e| e.to_string())
}

/// Decompresses with `zstd::decode_all`: success exactly when `data` is a
/// frame that decodes, giving the content named by `zstd_content`; on
/// failure the error's text is returned.
#[verifier::external_body]
fn zstd_decode(data: &[u8]) -> (r: Result<Vec<u8>, String>)
    ensures
        r is Ok <==> zstd_content(data@) is Some,
        r matches Ok(v) ==> zstd_content(data@) == Some(v@),
{
    zstd::decode_all(data).map_err(|e| e.to_string())
}

/// The result of `PackEngine::decompress` on `data`, in terms of its content.
pub open spec fn spec_decompress(data: Seq<u8>) -> Option<Seq<u8>> {
    zstd_content(data)
}

// ---------------------------------------------------------------------------
// Delta specification
// ---------------------------------------------------------------------------

/// Length of the longest common prefix of `base[bi..]` and `target[ti..]`.
pub open spec fn common_len(base: Seq<u8>, target: Seq<u8>, bi: int, ti: int) -> int
    decreases base.len() - bi,
{
    if 0 <= bi < base.len() && 0 <= ti < target.len() && base[bi] == target[ti] {
        1 + common_len(base, target, bi + 1, ti + 1)
    } else {
        0
    }
}

/// The best copy source for `target[ti..]` among base offsets below `k`:
/// the first offset with the longest match, kept only when that match is at
/// least 4 bytes long; `(0, 0)` when there is none.
pub open spec fn best_upto(base: Seq<u8>, target: Seq<u8>, ti: int, k: int) -> (int, int)
    decreases k,
{
    if k <= 0 {
        (0, 0)
    } else {
        let prev = best_upto(base, target, ti, k - 1);
        let c = common_len(base, target, k - 1, ti);
        if c > prev.1 && c >= 4 {
            (k - 1, c)
        } else {
            prev
        }
    }
}

/// Some base offset below `k` matches at least 4 bytes of `target[ti..]`.
pub open spec fn has_match_upto(base: Seq<u8>, target: Seq<u8>, ti: int, k: int) -> bool
    decreases k,
{
    if k <= 0 {
        false
    } else {
        has_match_upto(base, target, ti, k - 1) || common_len(base, target, k - 1, ti) >= 4
    }
}

/// Some base offset matches at least 4 bytes of `target[ti..]`.
pub open spec fn has_match(base: Seq<u8>, target: Seq<u8>, ti: int) -> bool {
    has_match_upto(base, target, ti, base.len() as int)
}

/// The first position at or after `ti` where a match starts (or the end).
pub open spec fn next_match(base: Seq<u8>, target: Seq<u8>, ti: int) -> int
    decreases target.len() - ti,
{
    if ti >= target.len() {
        target.len() as int
    } else if has_match(base, target, ti) {
        ti
    } else {
        next_match(base, target, ti + 1)
    }
}

/// A view of a delta operation over plain values.
pub enum DeltaStep {
    Copy { offset: int, len: int },
    Insert { data: Seq<u8> },
}

/// The plain view of a delta operation.
pub open spec fn step_of(op: DeltaOp) -> DeltaStep {
    match op {
        DeltaOp::Copy { offset, len } => DeltaStep::Copy { offset: offset as int, len: len as int },
        DeltaOp::Insert(d) => DeltaStep::Insert { data: d@ },
    }
}

/// The plain view of a sequence of delta operations.
pub open spec fn steps_of(ops: Seq<DeltaOp>) -> Seq<DeltaStep> {
    ops.map_values(|op: DeltaOp| step_of(op))
}

/// The greedy delta of `target[ti..]` against `base`: at each position copy
/// the best match of at least 4 bytes, otherwise insert the literal bytes up
/// to the next position where a match starts.
pub open spec fn delta_from(base: Seq<u8>, target: Seq<u8>, ti: int) -> Seq<DeltaStep>
    decreases target.len() - ti,
{
    if ti < 0 || ti >= target.len() {
        Seq::empty()
    } else {
        let best = best_upto(base, target, ti, base.len() as int);
        if best.1 >= 4 {
            proof {
                lemma_best_upto(base, target, ti, base.len() as int);
                lemma_common_len(base, target, best.0, ti);
            }
            seq![DeltaStep::Copy { offset: best.0, len: best.1 }] + delta_from(base, target, ti + best.1)
        } else {
            let e = next_match(base, target, ti + 1);
            proof {
                lemma_next_match(base, target, ti + 1);
            }
            seq![DeltaStep::Insert { data: target.subrange(ti, e) }] + delta_from(base, target, e)
        }
    }
}

/// Every copy step reads inside a base of length `n`.
pub open spec fn steps_valid(n: int, steps: Seq<DeltaStep>) -> bool {
    forall|i: int|
        0 <= i < steps.len() && (#[trigger] steps[i]) is Copy ==> 0 <= steps[i]->offset && 0
            <= steps[i]->len && steps[i]->offset + steps[i]->len <= n
}

/// The bytes that applying `steps` to `base` produces.
pub open spec fn apply_steps(base: Seq<u8>, steps: Seq<DeltaStep>) -> Seq<u8>
    decreases steps.len(),
{
    if steps.len() == 0 {
        Seq::empty()
    } else {
        let head = match steps[0] {
            DeltaStep::Copy { offset, len } => base.subrange(offset, offset + len),
            DeltaStep::Insert { data } => data,
        };
        head + apply_steps(base, steps.drop_first())
    }
}

// ---------------------------------------------------------------------------
// Lemmas
// ---------------------------------------------------------------------------

pub proof fn lemma_common_len(base: Seq<u8>, target: Seq<u8>, bi: int, ti: int)
    requires
        0 <= bi <= base.len(),
        0 <= ti <= target.len(),
    ensures
        0 <= common_len(base, target, bi, ti),
        bi + common_len(base, target, bi, ti) <= base.len() || common_len(base, target, bi, ti) == 0,
        ti + common_len(base, target, bi, ti) <= target.len() || common_len(base, target, bi, ti) == 0,
        base.subrange(bi, bi + common_len(base, target, bi, ti)) == target.subrange(
            ti,
            ti + common_len(base, target, bi, ti),
        ),
    decreases base.len() - bi,
{
    let c = common_len(base, target, bi, ti);
    if 0 <= bi < base.len() && 0 <= ti < target.len() && base[bi] == target[ti] {
        lemma_common_len(base, target, bi + 1, ti + 1);
        assert(base.subrange(bi, bi + c) =~= seq![base[bi]] + base.subrange(bi + 1, bi + c));
        assert(target.subrange(ti, ti + c) =~= seq![target[ti]] + target.subrange(ti + 1, ti + c));
    } else {
        assert(base.subrange(bi, bi) =~= target.subrange(ti, ti));
    }
}

proof fn lemma_common_len_is(base: Seq<u8>, target: Seq<u8>, bi: int, ti: int, m: int)
    requires
        0 <= bi,
        0 <= ti,
        0 <= m,
        bi + m <= base.len(),
        ti + m <= target.len(),
        forall|q: int| 0 <= q < m ==> #[trigger] base[bi + q] == target[ti + q],
        bi + m == base.len() || ti + m == target.len() || base[bi + m] != target[ti + m],
    ensures
        common_len(base, target, bi, ti) == m,
    decreases m,
{
    if m > 0 {
        assert(base[bi + 0] == target[ti + 0]);
        assert forall|q: int| 0 <= q < m - 1 implies #[trigger] base[(bi + 1) + q] == target[(ti + 1) + q] by {
            assert(base[bi + (q + 1)] == target[ti + (q + 1)]);
        }
        lemma_common_len_is(base, target, bi + 1, ti + 1, m - 1);
    }
}

pub proof fn lemma_best_upto(base: Seq<u8>, target: Seq<u8>, ti: int, k: int)
    requires
        0 <= ti,
        0 <= k <= base.len(),
    ensures
        ({
            let b = best_upto(base, target, ti, k);
            ||| b == (0int, 0int)
            ||| (0 <= b.0 < k && b.1 == common_len(base, target, b.0, ti) && b.1 >= 4)
        }),
        (best_upto(base, target, ti, k).1 >= 4) == has_match_upto(base, target, ti, k),
    decreases k,
{
    if k > 0 {
        lemma_best_upto(base, target, ti, k - 1);
    }
}

pub proof fn lemma_next_match(base: Seq<u8>, target: Seq<u8>, ti: int)
    requires
        0 <= ti,
    ensures
        ti <= next_match(base, target, ti) || ti > target.len(),
        next_match(base, target, ti) <= target.len(),
        next_match(base, target, ti) < target.len() ==> has_match(base, target, next_match(base, target, ti)),
        forall|j: int| ti <= j < next_match(base, target, ti) ==> !has_match(base, target, j),
    decreases target.len() - ti,
{
    if ti < target.len() && !has_match(base, target, ti) {
        lemma_next_match(base, target, ti + 1);
        assert forall|j: int| ti <= j < next_match(base, target, ti) implies !has_match(base, target, j) by {
            if j > ti {
            }
        }
    }
}

proof fn lemma_next_match_is(base: Seq<u8>, target: Seq<u8>, ti: int, e: int)
    requires
        0 <= ti <= e <= target.len(),
        forall|j: int| ti <= j < e ==> !has_match(base, target, j),
        e == target.len() || has_match(base, target, e),
    ensures
        next_match(base, target, ti) == e,
    decreases e - ti,
{
    if ti < e {
        lemma_next_match_is(base, target, ti + 1, e);
    }
}

proof fn lemma_apply_steps_append(base: Seq<u8>, a: Seq<DeltaStep>, b: Seq<DeltaStep>)
    ensures
        apply_steps(base, a + b) == apply_steps(base, a) + apply_steps(base, b),
    decreases a.len(),
{
    if a.len() == 0 {
        assert(a + b =~= b);
    } else {
        lemma_apply_steps_append(base, a.drop_first(), b);
        assert((a + b).drop_first() =~= a.drop_first() + b);
    }
}

/// Applying the greedy delta of `target[ti..]` rebuilds `target[ti..]`, and
/// every copy of it reads inside the base.
proof fn lemma_delta_from_sound(base: Seq<u8>, target: Seq<u8>, ti: int)
    requires
        0 <= ti <= target.len(),
    ensures
        apply_steps(base, delta_from(base, target, ti)) == target.skip(ti),
        steps_valid(base.len() as int, delta_from(base, target, ti)),
    decreases target.len() - ti,
{
    let d = delta_from(base, target, ti);
    if ti < target.len() {
        let best = best_upto(base, target, ti, base.len() as int);
        lemma_best_upto(base, target, ti, base.len() as int);
        if best.1 >= 4 {
            lemma_common_len(base, target, best.0, ti);
            lemma_delta_from_sound(base, target, ti + best.1);
            let rest = delta_from(base, target, ti + best.1);
            assert(d.drop_first() =~= rest);
            assert(target.skip(ti) =~= target.subrange(ti, ti + best.1) + target.skip(ti + best.1));
            assert forall|i: int| 0 <= i < d.len() && (#[trigger] d[i]) is Copy implies 0 <= d[i]->offset
                && 0 <= d[i]->len && d[i]->offset + d[i]->len <= base.len() by {
                if i > 0 {
                    assert(d[i] == rest[i - 1]);
                }
            }
        } else {
            lemma_next_match(base, target, ti + 1);
            let e = next_match(base, target, ti + 1);
            lemma_delta_from_sound(base, target, e);
            let rest = delta_from(base, target, e);
            assert(d.drop_first() =~= rest);
            assert(target.skip(ti) =~= target.subrange(ti, e) + target.skip(e));
            assert forall|i: int| 0 <= i < d.len() && (#[trigger] d[i]) is Copy implies 0 <= d[i]->offset
                && 0 <= d[i]->len && d[i]->offset + d[i]->len <= base.len() by {
                if i > 0 {
                    assert(d[i] == rest[i - 1]);
                }
            }
        }
    } else {
        assert(target.skip(ti) =~= Seq::<u8>::empty());
    }
}

/// Applying the delta that `compute_delta` gives for `target` against `base`
/// rebuilds `target` exactly, and every copy reads inside `base`.
pub proof fn law_delta_roundtrip(base: Seq<u8>, target: Seq<u8>)
    ensures
        apply_steps(base, delta_from(base, target, 0)) == target,
        steps_valid(base.len() as int, delta_from(base, target, 0)),
{
    lemma_delta_from_sound(base, target, 0);
    assert(target.skip(0) =~= target);
}

// ---------------------------------------------------------------------------
// Executable code
// ---------------------------------------------------------------------------

/// Length of the common prefix of `base[bi..]` and `target[ti..]`.
fn match_length(base: &[u8], target: &[u8], bi: usize, ti: usize) -> (r: usize)
    requires
        bi <= base@.len(),
        ti <= target@.len(),
    ensures
        r == common_len(base@, target@, bi as int, ti as int),
{
    let mut m: usize = 0;
    while bi + m < base.len() && ti + m < target.len() && base[bi + m] == target[ti + m]
        invariant
            bi + m <= base@.len(),
            ti + m <= target@.len(),
            base@.len() == base.len(),
            target@.len() == target.len(),
            forall|q: int| 0 <= q < m ==> #[trigger] base@[bi + q] == target@[ti + q],
        decreases base.len() - m,
    {
        m = m + 1;
    }
    proof {
        lemma_common_len_is(base@, target@, bi as int, ti as int, m as int);
    }
    m
}

impl PackEngine {
    /// Compresses `data` with Zstd at level 3; this always succeeds, and
    /// decompressing the result gives `data` back.
    pub fn compress(data: &[u8]) -> (r: Result<Vec<u8>, String>)
        ensures
            r is Ok,
            r matches Ok(c) ==> c@ == zstd_frame(data@, 3) && spec_decompress(c@) == Some(data@),
    {
        match zstd_encode(data) {
            Ok(c) => Ok(c),
            Err(e) => {
                let mut msg = String::from_str("Compression failed: ");
                msg.append(e.as_str());
                Err(msg)
            },
        }
    }

    /// Decompresses Zstd data: succeeds exactly when `data` is a frame that
    /// decodes, with its content.
    pub fn decompress(data: &[u8]) -> (r: Result<Vec<u8>, String>)
        ensures
            r is Ok <==> spec_decompress(data@) is Some,
            r matches Ok(v) ==> spec_decompress(data@) == Some(v@),
            r matches Err(e) ==> "Decompression failed: "@.is_prefix_of(e@),
    {
        match zstd_decode(data) {
            Ok(v) => Ok(v),
            Err(e) => {
                let mut msg = String::from_str("Decompression failed: ");
                msg.append(e.as_str());
                Err(msg)
            },
        }
    }

    /// Greedy byte-level delta of `target` against `base` (see `delta_from`).
    pub fn compute_delta(base: &[u8], target: &[u8]) -> (r: Vec<DeltaOp>)
        ensures
            steps_of(r@) == delta_from(base@, target@, 0),
            apply_steps(base@, steps_of(r@)) == target@,
            steps_valid(base@.len() as int, steps_of(r@)),
    {
        let mut ops: Vec<DeltaOp> = Vec::new();
        let mut ti: usize = 0;
        let n = target.len();
        let ghost b = base@;
        let ghost t = target@;
        assert(steps_of(ops@) =~= Seq::<DeltaStep>::empty());

        while ti < n
            invariant
                ti <= n == t.len(),
                b == base@,
                t == target@,
                steps_of(ops@) + delta_from(b, t, ti as int) == delta_from(b, t, 0),
            decreases n - ti,
        {
            let mut best_offset: usize = 0;
            let mut best_len: usize = 0;
            let mut bi: usize = 0;
            while bi < base.len()
                invariant
                    ti < n == t.len(),
                    b == base@,
                    t == target@,
                    bi <= b.len(),
                    (best_offset as int, best_len as int) == best_upto(b, t, ti as int, bi as int),
                decreases base.len() - bi,
            {
                let match_len = match_length(base, target, bi, ti);
                if match_len > best_len && match_len >= 4 {
                    best_offset = bi;
                    best_len = match_len;
                }
                bi = bi + 1;
            }
            proof {
                lemma_best_upto(b, t, ti as int, b.len() as int);
                if best_len >= 4 {
                    lemma_common_len(b, t, best_offset as int, ti as int);
                }
            }
            let ghost old_ops = steps_of(ops@);
            let ghost ti0 = ti as int;
            if best_len >= 4 {
                ops.push(DeltaOp::Copy { offset: best_offset, len: best_len });
                assert(steps_of(ops@) =~= old_ops.push(DeltaStep::Copy { offset: best_offset as int, len: best_len as int }));
                ti = ti + best_len;
            } else {
                let start = ti;
                ti = ti + 1;
                let mut stop = false;
                while ti < n && !stop
                    invariant
                        start < ti <= n == t.len(),
                        b == base@,
                        t == target@,
                        forall|j: int| start < j < ti ==> !has_match(b, t, j),
                        stop ==> ti < n && has_match(b, t, ti as int),
                    decreases n - ti, if stop { 0int } else { 1int },
                {
                    let mut found = false;
                    let mut bj: usize = 0;
                    while bj < base.len() && !found
                        invariant
                            ti < n == t.len(),
                            b == base@,
                            t == target@,
                            bj <= b.len(),
                            !found ==> !has_match_upto(b, t, ti as int, bj as int),
                            found ==> bj < b.len() && common_len(b, t, bj as int, ti as int) >= 4,
                        decreases base.len() - bj, if found { 0int } else { 1int },
                    {
                        let ml = match_length(base, target, bj, ti);
                        if ml >= 4 {
                            found = true;
                        } else {
                            bj = bj + 1;
                        }
                    }
                    if found {
                        proof {
                            assert(has_match_upto(b, t, ti as int, bj + 1));
                            lemma_has_match_mono(b, t, ti as int, bj + 1, b.len() as int);
                        }
                        stop = true;
                    } else {
                        ti = ti + 1;
                    }
                }
                proof {
                    lemma_next_match_is(b, t, start + 1, ti as int);
                }
                let mut data: Vec<u8> = Vec::new();
                let mut q = start;
                while q < ti
                    invariant
                        start <= q <= ti <= n == t.len(),
                        t == target@,
                        data@ == t.subrange(start as int, q as int),
                    decreases ti - q,
                {
                    data.push(target[q]);
                    assert(t.subrange(start as int, q + 1) =~= t.subrange(start as int, q as int).push(t[q as int]));
                    q = q + 1;
                }
                ops.push(DeltaOp::Insert(data));
                assert(steps_of(ops@) =~= old_ops.push(DeltaStep::Insert { data: t.subrange(start as int, ti as int) }));
            }
            proof {
                let d = delta_from(b, t, ti0);
                assert(old_ops + d =~= steps_of(ops@) + delta_from(b, t, ti as int));
            }
        }
        proof {
            assert(steps_of(ops@) + delta_from(b, t, ti as int) =~= steps_of(ops@));
            law_delta_roundtrip(b, t);
        }
        ops
    }

    /// Rebuilds the target by applying delta operations to `base`; every copy
    /// must read inside `base`.
    pub fn apply_delta(base: &[u8], ops: &[DeltaOp]) -> (r: Vec<u8>)
        requires
            steps_valid(base@.len() as int, steps_of(ops@)),
        ensures
            r@ == apply_steps(base@, steps_of(ops@)),
    {
        let mut result: Vec<u8> = Vec::new();
        let mut i: usize = 0;
        let ghost s = steps_of(ops@);
        assert(s.skip(0) =~= s);
        assert(result@ + apply_steps(base@, s.skip(0)) =~= apply_steps(base@, s));
        while i < ops.len()
            invariant
                i <= ops@.len(),
                s == steps_of(ops@),
                steps_valid(base@.len() as int, s),
                result@ + apply_steps(base@, s.skip(i as int)) == apply_steps(base@, s),
            decreases ops.len() - i,
        {
            let ghost before = result@;
            assert(s.skip(i as int).drop_first() =~= s.skip(i + 1));
            assert(s[i as int] == step_of(ops@[i as int]));
            match &ops[i] {
                DeltaOp::Copy { offset, len } => {
                    assert(s[i as int] == DeltaStep::Copy { offset: *offset as int, len: *len as int });
                    assert(0 <= i < s.len());
                    assert(s[i as int] is Copy);
                    assert(s[i as int]->offset + s[i as int]->len <= base@.len());
                    assert(base@.len() == base.len());
                    let end = *offset + *len;
                    let mut k = *offset;
                    while k < end
                        invariant
                            *offset <= k <= end <= base@.len(),
                            result@ == before + base@.subrange(*offset as int, k as int),
                        decreases end - k,
                    {
                        result.push(base[k]);
                        assert(base@.subrange(*offset as int, k + 1) =~= base@.subrange(*offset as int, k as int).push(base@[k as int]));
                        k = k + 1;
                    }
                },
                DeltaOp::Insert(data) => {
                    let mut k: usize = 0;
                    while k < data.len()
                        invariant
                            k <= data@.len(),
                            result@ == before + data@.subrange(0, k as int),
                        decreases data.len() - k,
                    {
                        result.push(data[k]);
                        assert(data@.subrange(0, k + 1) =~= data@.subrange(0, k as int).push(data@[k as int]));
                        k = k + 1;
                    }
                    assert(data@.subrange(0, data@.len() as int) =~= data@);
                },
            }
            i = i + 1;
        }
        assert(s.skip(i as int) =~= Seq::<DeltaStep>::empty());
        assert(s.skip(0) =~= s);
        result
    }
}

proof fn lemma_has_match_mono(base: Seq<u8>, target: Seq<u8>, ti: int, k1: int, k2: int)
    requires
        0 <= k1 <= k2,
        has_match_upto(base, target, ti, k1),
    ensures
        has_match_upto(base, target, ti, k2),
    decreases k2 - k1,
{
    if k1 < k2 {
        lemma_has_match_mono(base, target, ti, k1, k2 - 1);
    }
}

} // verus!
