//! Run-length coding of one row of color codes into 16-bit segment words.
//!
//! A segment word holds the color code in its low 4 bits and the run length
//! in the next 9 bits; the top 3 bits are zero.

use vstd::prelude::*;

verus! {

/// Longest run that one segment can describe.
pub const MAX_RUN: usize = 511;

/// The color code held by a segment word.
pub open spec fn seg_code(w: u16) -> u8 {
    (w & 0xF) as u8
}

/// The run length held by a segment word.
pub open spec fn seg_len(w: u16) -> nat {
    ((w >> 4u16) & 0x1FF) as nat
}

/// The segment word for a run of `len` copies of `code`.
pub open spec fn seg_word(code: u8, len: nat) -> u16 {
    (((len as u16) << 4u16) | (code as u16 & 0xF)) as u16
}

/// Sum of the run lengths of a sequence of segments.
pub open spec fn total(segs: Seq<u16>) -> nat
    decreases segs.len(),
{
    if segs.len() == 0 {
        0
    } else {
        total(segs.drop_last()) + seg_len(segs.last())
    }
}

/// The codes that a sequence of segments stands for, every segment expanded in order.
pub open spec fn decoded(segs: Seq<u16>) -> Seq<u8>
    decreases segs.len(),
{
    if segs.len() == 0 {
        Seq::empty()
    } else {
        decoded(segs.drop_last()) + Seq::new(
            seg_len(segs.last()),
            |k: int| seg_code(segs.last()),
        )
    }
}

/// Number of leading segments whose runs fit, all together, in `width` codes.
pub open spec fn fit_count(segs: Seq<u16>, width: nat) -> nat
    decreases segs.len(),
{
    if total(segs) <= width {
        segs.len()
    } else {
        fit_count(segs.drop_last(), width)
    }
}

/// Length of the run at the front of `c`, scanning from position `j`:
/// it stops at the end of `c`, at a different code, or at `MAX_RUN`.
pub open spec fn run_scan(c: Seq<u8>, j: nat) -> nat
    decreases c.len() - j,
{
    if j < c.len() && j < MAX_RUN && c[j as int] == c[0] {
        run_scan(c, j + 1)
    } else {
        j
    }
}

/// Length of the segment that starts `c`: its maximal leading run, capped at `MAX_RUN`.
pub open spec fn first_run(c: Seq<u8>) -> nat {
    run_scan(c, 1)
}

/// The canonical segment encoding of a row: maximal runs from left to right,
/// a run longer than `MAX_RUN` split into full segments of the same code.
pub open spec fn run_encoding(c: Seq<u8>) -> Seq<u16>
    decreases c.len(),
{
    if c.len() == 0 {
        Seq::empty()
    } else {
        let n = first_run(c);
        if 1 <= n <= c.len() {
            seq![seg_word(c[0], n)] + run_encoding(c.skip(n as int))
        } else {
            Seq::empty()
        }
    }
}

/// Every code fits in the 4-bit field of a segment word.
pub open spec fn codes_fit(c: Seq<u8>) -> bool {
    forall|i: int| 0 <= i < c.len() ==> #[trigger] c[i] < 16
}

proof fn lemma_seg_word(code: u8, len: nat)
    requires
        code < 16,
        len <= MAX_RUN,
    ensures
        seg_code(seg_word(code, len)) == code,
        seg_len(seg_word(code, len)) == len,
{
    let l = len as u16;
    assert((((l << 4u16) | (code as u16 & 0xF)) & 0xF) as u8 == code && ((((l << 4u16) | (
    code as u16 & 0xF)) >> 4u16) & 0x1FF) == l) by (bit_vector)
        requires
            code < 16,
            l <= 511,
    ;
}

proof fn lemma_run_scan(c: Seq<u8>, j: nat)
    requires
        1 <= j <= c.len(),
        j <= MAX_RUN,
    ensures
        j <= run_scan(c, j) <= c.len(),
        run_scan(c, j) <= MAX_RUN,
        forall|t: int| j <= t < run_scan(c, j) ==> #[trigger] c[t] == c[0],
        run_scan(c, j) < c.len() && run_scan(c, j) < MAX_RUN ==> c[run_scan(c, j) as int]
            != c[0],
    decreases c.len() - j,
{
    if j < c.len() && j < MAX_RUN && c[j as int] == c[0] {
        lemma_run_scan(c, j + 1);
    }
}

proof fn lemma_first_run(c: Seq<u8>)
    requires
        c.len() > 0,
    ensures
        1 <= first_run(c) <= c.len(),
        first_run(c) <= MAX_RUN,
        forall|t: int| 0 <= t < first_run(c) ==> #[trigger] c[t] == c[0],
        first_run(c) < c.len() && first_run(c) < MAX_RUN ==> c[first_run(c) as int] != c[0],
{
    lemma_run_scan(c, 1);
}

proof fn lemma_total_push(segs: Seq<u16>, w: u16)
    ensures
        total(segs.push(w)) == total(segs) + seg_len(w),
        decoded(segs.push(w)) == decoded(segs) + Seq::new(seg_len(w), |k: int| seg_code(w)),
{
    assert(segs.push(w).drop_last() =~= segs);
}

/// Decoding a concatenation decodes each part in turn.
proof fn lemma_decoded_append(a: Seq<u16>, b: Seq<u16>)
    ensures
        decoded(a + b) == decoded(a) + decoded(b),
        total(a + b) == total(a) + total(b),
    decreases b.len(),
{
    if b.len() == 0 {
        assert(a + b =~= a);
        assert(decoded(a) + decoded(b) =~= decoded(a));
    } else {
        assert((a + b).drop_last() =~= a + b.drop_last());
        lemma_decoded_append(a, b.drop_last());
        assert(decoded(a + b) =~= decoded(a) + decoded(b));
    }
}

/// A decoded row has as many codes as the run lengths add up to.
pub proof fn lemma_decoded_len(segs: Seq<u16>)
    ensures
        decoded(segs).len() == total(segs),
    decreases segs.len(),
{
    if segs.len() > 0 {
        lemma_decoded_len(segs.drop_last());
    }
}

proof fn lemma_total_mono(s: Seq<u16>, a: int)
    requires
        0 <= a <= s.len(),
    ensures
        total(s.take(a)) <= total(s),
    decreases s.len(),
{
    if a == s.len() {
        assert(s.take(a) =~= s);
    } else {
        assert(s.drop_last().take(a) =~= s.take(a));
        lemma_total_mono(s.drop_last(), a);
    }
}

/// `fit_count` is the prefix at which the running total first passes `width`.
proof fn lemma_fit_count(s: Seq<u16>, width: nat, i: int)
    requires
        0 <= i <= s.len(),
        total(s.take(i)) <= width,
        i == s.len() || total(s.take(i + 1)) > width,
    ensures
        fit_count(s, width) == i,
    decreases s.len(),
{
    if total(s) <= width {
        if i < s.len() {
            lemma_total_mono(s, i + 1);
        }
    } else {
        if i == s.len() {
            assert(s.take(i) =~= s);
        }
        assert(s.drop_last().take(i) =~= s.take(i));
        if i + 1 < s.len() {
            assert(s.drop_last().take(i + 1) =~= s.take(i + 1));
        }
        lemma_fit_count(s.drop_last(), width, i);
    }
}

/// The segments that `fit_count` admits fit in `width` codes.
pub proof fn lemma_fit_count_bound(s: Seq<u16>, width: nat)
    ensures
        fit_count(s, width) <= s.len(),
        total(s.take(fit_count(s, width) as int)) <= width,
    decreases s.len(),
{
    if total(s) <= width {
        assert(s.take(s.len() as int) =~= s);
    } else {
        lemma_fit_count_bound(s.drop_last(), width);
        assert(s.drop_last().take(fit_count(s, width) as int) =~= s.take(
            fit_count(s, width) as int,
        ));
    }
}

/// A non-empty row has at least one segment.
pub proof fn lemma_run_encoding_nonempty(c: Seq<u8>)
    requires
        c.len() > 0,
    ensures
        run_encoding(c).len() >= 1,
{
    lemma_first_run(c);
}

proof fn lemma_run_encoding_empty(c: Seq<u8>)
    ensures
        run_encoding(c).len() == 0 <==> c.len() == 0,
{
    if c.len() > 0 {
        lemma_first_run(c);
    }
}

/// Expands segments into `codes`, left to right, and returns how many codes
/// were written. It stops before the first segment whose run would pass the
/// end of `codes`; the codes after the written ones are left as they were.
pub fn uncompress(segments: &[u16], codes: &mut [u8]) -> (r: usize)
    ensures
        r == total(segments@.take(fit_count(segments@, old(codes)@.len() as nat) as int)),
        final(codes)@ == decoded(segments@.take(fit_count(segments@, old(codes)@.len() as nat) as int))
            + old(codes)@.skip(r as int),
{
    let ghost start = codes@;
    let ghost segs = segments@;
    let len = codes.len();
    let mut idx: usize = 0;
    let mut i: usize = 0;
    proof {
        assert(segs.take(0) =~= Seq::<u16>::empty());
        assert(codes@ =~= decoded(segs.take(0)) + start.skip(0));
    }
    while i < segments.len()
        invariant
            i <= segs.len(),
            segments@ == segs,
            codes@.len() == start.len() == len,
            start == old(codes)@,
            idx == total(segs.take(i as int)),
            idx <= len,
            codes@ == decoded(segs.take(i as int)) + start.skip(idx as int),
        decreases segs.len() - i,
    {
        let segment = segments[i];
        let code: u8 = #[verifier::truncate] ((segment & 0xF) as u8);
        let count: usize = ((segment >> 4) & 0x1FF) as usize;
        proof {
            assert(segs.take(i + 1).drop_last() =~= segs.take(i as int));
            assert(segs.take(i + 1).last() == segment);
            lemma_decoded_len(segs.take(i as int));
        }
        if count > len - idx {
            proof {
                assert(total(segs.take(i + 1)) == idx + count);
                lemma_fit_count(segs, len as nat, i as int);
                assert(fit_count(segs, len as nat) == i);
                assert(idx == total(segs.take(fit_count(segs, len as nat) as int)));
                assert(codes@ == decoded(segs.take(fit_count(segs, len as nat) as int)) + start.skip(idx as int));
            }
            return idx;
        }
        let mut j: usize = 0;
        while j < count
            invariant
                j <= count,
                idx + count <= len,
                codes@.len() == len,
                forall|t: int| 0 <= t < idx ==> #[trigger] codes@[t] == decoded(segs.take(i as int))[t],
                forall|t: int| idx <= t < idx + j ==> #[trigger] codes@[t] == code,
                forall|t: int| idx + j <= t < len ==> #[trigger] codes@[t] == start[t],
                decoded(segs.take(i as int)).len() == idx,
            decreases count - j,
        {
            codes[idx + j] = code;
            j = j + 1;
        }
        proof {
            assert(codes@ =~= decoded(segs.take(i + 1)) + start.skip(idx + count));
        }
        idx = idx + count;
        i = i + 1;
    }
    proof {
        assert(segs.take(i as int) =~= segs);
        lemma_fit_count(segs, len as nat, i as int);
    }
    idx
}

/// Run-length encodes `codes` into `segments`, writing the canonical
/// encoding's segments in order until the row or the buffer is used up.
/// Returns the number of segments written and the number of codes they cover.
pub fn compress(segments: &mut [u16], codes: &[u8]) -> (r: (usize, usize))
    requires
        codes_fit(codes@),
    ensures
        r.0 == if old(segments)@.len() <= run_encoding(codes@).len() {
            old(segments)@.len()
        } else {
            run_encoding(codes@).len()
        },
        final(segments)@.len() == old(segments)@.len(),
        final(segments)@.take(r.0 as int) == run_encoding(codes@).take(r.0 as int),
        final(segments)@.skip(r.0 as int) == old(segments)@.skip(r.0 as int),
        r.1 == total(run_encoding(codes@).take(r.0 as int)),
        r.1 == codes@.len() <==> r.0 == run_encoding(codes@).len(),
{
    let ghost start = segments@;
    let ghost c = codes@;
    let len = codes.len();
    let mut n: usize = 0;
    let mut i: usize = 0;
    proof {
        assert(segments@.take(0) =~= Seq::<u16>::empty());
        assert(c.skip(0) =~= c);
        assert(run_encoding(c) =~= segments@.take(0) + run_encoding(c.skip(0)));
    }
    while i < len
        invariant
            i <= len == c.len(),
            codes@ == c,
            codes_fit(c),
            n <= start.len(),
            start == old(segments)@,
            segments@.len() == start.len(),
            run_encoding(c) == segments@.take(n as int) + run_encoding(c.skip(i as int)),
            i == total(segments@.take(n as int)),
            segments@.skip(n as int) == start.skip(n as int),
        ensures
            i == len || n == start.len(),
        decreases len - i,
    {
        if n == segments.len() {
            break;
        }
        let lo = codes[i];
        let mut j: usize = i + 1;
        let ghost s = c.skip(i as int);
        while j < len && j - i < MAX_RUN && codes[j] == lo
            invariant
                i < j <= len == c.len(),
                codes@ == c,
                s == c.skip(i as int),
                lo == c[i as int],
                j - i <= MAX_RUN,
                run_scan(s, (j - i) as nat) == first_run(s),
            decreases len - j,
        {
            j = j + 1;
        }
        let m = j - i;
        let w: u16 = ((m as u16) << 4) | (lo as u16 & 0xF);
        proof {
            lemma_first_run(s);
            assert(w == seg_word(lo, m as nat));
            assert(lo < 16);
            lemma_seg_word(lo, m as nat);
            assert(s.skip(m as int) =~= c.skip(j as int));
        }
        let ghost before = segments@;
        segments[n] = w;
        proof {
            assert(segments@.take(n + 1) =~= before.take(n as int).push(w));
            lemma_total_push(before.take(n as int), w);
            assert(run_encoding(c) =~= segments@.take(n + 1) + run_encoding(c.skip(j as int)));
            assert forall|k: int| 0 <= k < segments@.skip(n + 1).len() implies #[trigger] segments@.skip(n + 1)[k] == start.skip(n + 1)[k] by {
                assert(segments@.skip(n + 1)[k] == before.skip(n as int)[k + 1]);
                assert(start.skip(n + 1)[k] == start.skip(n as int)[k + 1]);
            }
            assert(segments@.skip(n + 1) =~= start.skip(n + 1));
        }
        n = n + 1;
        i = j;
    }
    proof {
        lemma_run_encoding_empty(c.skip(i as int));
        assert(run_encoding(c).take(n as int) =~= segments@.take(n as int));
        assert(run_encoding(c).len() == n + run_encoding(c.skip(i as int)).len());
    }
    (n, i)
}

/// Shape of the canonical encoding: it decodes back to the row, its run
/// lengths add up to the row's width, every run is 1 to `MAX_RUN` long, and
/// two neighbouring segments share a code only where the first is a full
/// `MAX_RUN` segment, so in a row of at most `MAX_RUN` codes neighbouring
/// segments always have different codes.
pub proof fn lemma_run_encoding(c: Seq<u8>)
    requires
        codes_fit(c),
    ensures
        decoded(run_encoding(c)) == c,
        total(run_encoding(c)) == c.len(),
        forall|k: int|
            0 <= k < run_encoding(c).len() ==> 1 <= seg_len(#[trigger] run_encoding(c)[k])
                <= MAX_RUN,
        forall|k: int|
            0 <= k < run_encoding(c).len() - 1 && seg_code(#[trigger] run_encoding(c)[k])
                == seg_code(run_encoding(c)[k + 1]) ==> seg_len(run_encoding(c)[k]) == MAX_RUN,
        c.len() <= MAX_RUN ==> forall|k: int|
            0 <= k < run_encoding(c).len() - 1 ==> seg_code(#[trigger] run_encoding(c)[k])
                != seg_code(run_encoding(c)[k + 1]),
    decreases c.len(),
{
    if c.len() > 0 {
        lemma_first_run(c);
        let n = first_run(c);
        let rest = c.skip(n as int);
        assert(codes_fit(rest)) by {
            assert forall|i: int| 0 <= i < rest.len() implies #[trigger] rest[i] < 16 by {
                assert(rest[i] == c[i + n]);
            }
        }
        lemma_run_encoding(rest);
        lemma_seg_word(c[0], n);
        let w = seg_word(c[0], n);
        let er = run_encoding(rest);
        let e = run_encoding(c);
        assert(e == seq![w] + er);
        lemma_decoded_append(seq![w], er);
        assert(seq![w].drop_last() =~= Seq::<u16>::empty());
        assert(decoded(seq![w].drop_last()) =~= Seq::<u8>::empty());
        assert(seq![w].last() == w);
        assert(decoded(seq![w]) =~= Seq::new(n, |k: int| c[0]));
        assert(decoded(e) =~= c);
        lemma_decoded_len(e);
        assert forall|k: int| 0 <= k < e.len() implies 1 <= seg_len(#[trigger] e[k]) <= MAX_RUN by {
            if k > 0 {
                assert(e[k] == er[k - 1]);
            }
        }
        assert forall|k: int|
            0 <= k < e.len() - 1 && seg_code(#[trigger] e[k]) == seg_code(e[k + 1]) implies seg_len(
            e[k]) == MAX_RUN by {
            if k > 0 {
                assert(e[k] == er[k - 1]);
                assert(e[k + 1] == er[k]);
            } else {
                assert(e[1] == er[0]);
                lemma_first_run(rest);
                lemma_seg_word(rest[0], first_run(rest));
                assert(rest[0] == c[n as int]);
            }
        }
        if c.len() <= MAX_RUN {
            assert forall|k: int| 0 <= k < e.len() - 1 implies seg_code(#[trigger] e[k]) != seg_code(
                e[k + 1]) by {
                if k > 0 {
                    assert(e[k] == er[k - 1]);
                    assert(e[k + 1] == er[k]);
                } else {
                    assert(e[1] == er[0]);
                    lemma_first_run(rest);
                    lemma_seg_word(rest[0], first_run(rest));
                    assert(rest[0] == c[n as int]);
                }
            }
        }
    }
}

/// Decoding a compressed row restores it: when the whole canonical encoding
/// of `codes` is expanded into a buffer of the row's width, the buffer ends
/// up holding exactly `codes`, whatever it held before.
pub proof fn lemma_row_round_trip(codes: Seq<u8>, buf: Seq<u8>)
    requires
        codes_fit(codes),
        buf.len() == codes.len(),
    ensures
        ({
            let e = run_encoding(codes);
            let k = fit_count(e, buf.len() as nat);
            &&& k == e.len()
            &&& total(e.take(k as int)) == codes.len()
            &&& decoded(e.take(k as int)) + buf.skip(total(e.take(k as int)) as int) == codes
        }),
{
    let e = run_encoding(codes);
    lemma_run_encoding(codes);
    assert(e.take(e.len() as int) =~= e);
    assert(buf.skip(codes.len() as int) =~= Seq::<u8>::empty());
    assert(codes + Seq::<u8>::empty() =~= codes);
}

} // verus!
