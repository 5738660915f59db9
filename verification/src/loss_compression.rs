//! NAK loss-list compression.
//!
//! A NAK carries the lost sequence numbers as 32-bit words: a word with its
//! high bit clear is one lost number; a run of at least two consecutive
//! numbers is collapsed into its first number with the high bit set,
//! followed by its last number. `lemma_loss_roundtrip` proves that decoding
//! undoes encoding for every sorted loss list.

use crate::packet::lemma_u32_i32_roundtrip;
use crate::seq_number::{SeqNumber, SEQ_MODULUS};
use vstd::prelude::*;

verus! {

/// Marks a word as the start of a run.
pub const RANGE_BIT: u32 = 0x8000_0000;

/// The sequence values of a loss list.
pub open spec fn spec_nums_of(s: Seq<SeqNumber>) -> Seq<u32> {
    s.map_values(|x: SeqNumber| x.0)
}

/// A loss list fit for compression: strictly increasing 31-bit values.
/// Strict order leaves no room for a run to wrap, so runs are plain
/// consecutive integers.
pub open spec fn spec_sorted(s: Seq<u32>) -> bool {
    &&& forall|i: int| 0 <= i < s.len() ==> #[trigger] s[i] < SEQ_MODULUS
    &&& forall|i: int| 0 < i < s.len() ==> s[i - 1] < #[trigger] s[i]
}

/// Length of the consecutive run at the head of `s`.
pub open spec fn spec_run_len(s: Seq<u32>) -> nat
    decreases s.len(),
{
    if s.len() <= 1 {
        s.len()
    } else if s[1] == s[0] + 1 {
        (1 + spec_run_len(s.skip(1))) as nat
    } else {
        1
    }
}

/// The head run is never empty on a nonempty list, and never longer than
/// the list.
pub proof fn lemma_run_len_bounds(s: Seq<u32>)
    ensures
        s.len() > 0 ==> 1 <= spec_run_len(s) <= s.len(),
        s.len() == 0 ==> spec_run_len(s) == 0,
    decreases s.len(),
{
    if s.len() > 1 && s[1] == s[0] + 1 {
        lemma_run_len_bounds(s.skip(1));
    }
}

/// Every member of the head run continues the count from the head.
pub proof fn lemma_run_elements(s: Seq<u32>)
    ensures
        forall|i: int| 0 <= i < spec_run_len(s) ==> #[trigger] s[i] == s[0] + i,
    decreases s.len(),
{
    lemma_run_len_bounds(s);
    if s.len() > 1 && s[1] == s[0] + 1 {
        lemma_run_elements(s.skip(1));
        assert forall|i: int| 0 <= i < spec_run_len(s) implies #[trigger] s[i] == s[0] + i by {
            if i > 0 {
                assert(s.skip(1)[i - 1] == s.skip(1)[0] + (i - 1));
            }
        }
    }
}

/// The compressed form of a sorted loss list: runs of at least two collapse
/// into a marked start and an end, single numbers stand alone.
pub open spec fn spec_compress(s: Seq<u32>) -> Seq<i32>
    decreases s.len(),
    via spec_compress_decreases
{
    if s.len() == 0 {
        Seq::<i32>::empty()
    } else {
        let r = spec_run_len(s) as int;
        if r == 1 {
            seq![s[0] as i32] + spec_compress(s.skip(1))
        } else {
            seq![(s[0] | RANGE_BIT) as i32, s[r - 1] as i32] + spec_compress(s.skip(r))
        }
    }
}

#[via_fn]
proof fn spec_compress_decreases(s: Seq<u32>) {
    lemma_run_len_bounds(s);
}

/// The numbers spelled by an inclusive range.
pub open spec fn spec_range(start: u32, end: u32) -> Seq<u32>
    recommends
        start <= end,
{
    Seq::new((end - start + 1) as nat, |i: int| (start + i) as u32)
}

/// What a compressed loss list means, or nothing where it is malformed: a
/// run start must be followed by a plain word no smaller than it.
pub open spec fn spec_decompress(w: Seq<i32>) -> Option<Seq<u32>>
    decreases w.len(),
{
    if w.len() == 0 {
        Some(Seq::<u32>::empty())
    } else if w[0] >= 0 {
        match spec_decompress(w.skip(1)) {
            Some(rest) => Some(seq![w[0] as u32] + rest),
            None => None,
        }
    } else if w.len() < 2 {
        None
    } else {
        let start = (w[0] as u32) & 0x7fff_ffffu32;
        if w[1] < 0 {
            None
        } else {
            let end = w[1] as u32;
            if end < start {
                None
            } else {
                match spec_decompress(w.skip(2)) {
                    Some(rest) => Some(spec_range(start, end) + rest),
                    None => None,
                }
            }
        }
    }
}


/// Dropping a prefix of a sorted list leaves it sorted.
proof fn lemma_sorted_skip(s: Seq<u32>, k: int)
    requires
        spec_sorted(s),
        0 <= k <= s.len(),
    ensures
        spec_sorted(s.skip(k)),
{
    assert forall|i: int| 0 <= i < s.skip(k).len() implies #[trigger] s.skip(k)[i] < SEQ_MODULUS by {
        assert(s.skip(k)[i] == s[k + i]);
    }
    assert forall|i: int| 0 < i < s.skip(k).len() implies s.skip(k)[i - 1] < #[trigger] s.skip(
        k,
    )[i] by {
        assert(s.skip(k)[i] == s[k + i]);
        assert(s.skip(k)[i - 1] == s[k + i - 1]);
    }
}

/// A 31-bit value survives the signed reinterpretation of a single word.
proof fn lemma_single_word(x: u32)
    requires
        x < 0x8000_0000u32,
    ensures
        (x as i32) >= 0,
        (x as i32) as u32 == x,
{
    assert(x < 0x8000_0000u32 ==> (x as i32) >= 0 && (x as i32) as u32 == x) by (bit_vector);
}

/// A 31-bit value survives being marked as a run start and unmasked again.
proof fn lemma_range_word(x: u32)
    requires
        x < 0x8000_0000u32,
    ensures
        ((x | RANGE_BIT) as i32) < 0,
        (((x | RANGE_BIT) as i32) as u32) & 0x7fff_ffffu32 == x,
{
    assert(x < 0x8000_0000u32 ==> ((x | 0x8000_0000u32) as i32) < 0 && (((x
        | 0x8000_0000u32) as i32) as u32) & 0x7fff_ffffu32 == x) by (bit_vector);
}

/// Decoding undoes encoding: every sorted loss list comes back from its own
/// compressed form.
pub proof fn lemma_loss_roundtrip(s: Seq<u32>)
    requires
        spec_sorted(s),
    ensures
        spec_decompress(spec_compress(s)) == Some(s),
    decreases s.len(),
{
    if s.len() == 0 {
        assert(spec_decompress(spec_compress(s)) == Some(Seq::<u32>::empty()));
        assert(Seq::<u32>::empty() =~= s);
    } else {
        lemma_run_len_bounds(s);
        lemma_run_elements(s);
        let r = spec_run_len(s) as int;
        lemma_sorted_skip(s, r);
        lemma_loss_roundtrip(s.skip(r));
        if r == 1 {
            let w = spec_compress(s);
            lemma_single_word(s[0]);
            assert(w == seq![s[0] as i32] + spec_compress(s.skip(1)));
            assert(w[0] == s[0] as i32);
            assert(w.skip(1) =~= spec_compress(s.skip(1)));
            assert(seq![w[0] as u32] + s.skip(1) =~= s);
        } else {
            let w = spec_compress(s);
            let first = (s[0] | RANGE_BIT) as i32;
            let second = s[r - 1] as i32;
            lemma_range_word(s[0]);
            lemma_single_word(s[r - 1]);
            lemma_u32_i32_roundtrip(s[0] | RANGE_BIT);
            assert(w == seq![first, second] + spec_compress(s.skip(r)));
            assert(w[0] == first && w[1] == second && w.len() >= 2);
            assert(w.skip(2) =~= spec_compress(s.skip(r)));
            let start = (w[0] as u32) & 0x7fff_ffffu32;
            assert(start == s[0]);
            let end = w[1] as u32;
            assert(end == s[r - 1] && s[r - 1] == s[0] + r - 1);
            assert(spec_range(start, end).len() == r);
            assert(spec_range(start, end) + s.skip(r) =~= s) by {
                assert forall|i: int| 0 <= i < s.len() implies (spec_range(start, end) + s.skip(
                    r,
                ))[i] == s[i] by {
                    if i < r {
                        assert(spec_range(start, end)[i] == (start + i) as u32);
                        assert(s[i] == s[0] + i);
                    } else {
                        assert(s.skip(r)[i - r] == s[i]);
                    }
                }
            }
        }
    }
}

/// `spec_run_len` is pinned by where the consecutive run breaks.
proof fn lemma_run_len_from_breaks(t: Seq<u32>, r: int)
    requires
        1 <= r <= t.len(),
        forall|k: int| 0 < k < r ==> #[trigger] t[k] == t[k - 1] + 1,
        r < t.len() ==> t[r] != t[r - 1] + 1,
    ensures
        spec_run_len(t) == r,
    decreases r,
{
    if t.len() == 1 {
    } else if r == 1 {
        assert(t[1] != t[0] + 1);
    } else {
        assert(t[1] == t[0] + 1);
        lemma_run_len_from_breaks(t.skip(1), r - 1);
    }
}


/// Appending one element is concatenation with the one-element list.
proof fn lemma_push_one(s: Seq<i32>, x: i32)
    ensures
        s.push(x) == s + seq![x],
{
    assert(s.push(x) =~= s + seq![x]);
}

/// Appending two elements is concatenation with the two-element list.
proof fn lemma_push_two(s: Seq<i32>, x: i32, y: i32)
    ensures
        s.push(x).push(y) == s + seq![x, y],
{
    assert(s.push(x).push(y) =~= s + seq![x, y]);
}

/// Concatenation of word lists associates.
proof fn lemma_assoc_words(a: Seq<i32>, b: Seq<i32>, c: Seq<i32>)
    ensures
        (a + b) + c == a + (b + c),
{
    assert((a + b) + c =~= a + (b + c));
}

/// One compression step over a single number.
proof fn lemma_compress_step_single(nums: Seq<u32>, i: int)
    requires
        0 <= i < nums.len(),
        spec_run_len(nums.skip(i)) == 1,
    ensures
        spec_compress(nums.skip(i)) == seq![nums[i] as i32] + spec_compress(nums.skip(i + 1)),
{
    let t = nums.skip(i);
    assert(t[0] == nums[i]);
    assert(t.skip(1) =~= nums.skip(i + 1));
}

/// One compression step over a run of at least two consecutive numbers.
proof fn lemma_compress_step_run(nums: Seq<u32>, i: int, j: int)
    requires
        0 <= i < j <= nums.len(),
        spec_run_len(nums.skip(i)) == j - i,
        j - i >= 2,
    ensures
        spec_compress(nums.skip(i)) == seq![(nums[i] | RANGE_BIT) as i32, nums[j - 1] as i32]
            + spec_compress(nums.skip(j)),
{
    let t = nums.skip(i);
    assert(t[0] == nums[i]);
    assert(t[j - i - 1] == nums[j - 1]);
    assert(t.skip(j - i) =~= nums.skip(j));
}


/// Encodes a sorted loss list: runs of at least two consecutive numbers
/// collapse into a marked start and an end, single numbers stand alone.
#[verifier::rlimit(100)]
pub fn compress_loss_list(seqs: &Vec<SeqNumber>) -> (r: Vec<i32>)
    requires
        spec_sorted(spec_nums_of(seqs@)),
    ensures
        r@ == spec_compress(spec_nums_of(seqs@)),
{
    let ghost nums = spec_nums_of(seqs@);
    let len = seqs.len();
    let mut out: Vec<i32> = Vec::new();
    let mut i: usize = 0;
    proof {
        assert forall|k: int| 0 <= k < len implies (#[trigger] seqs@[k]).0 < SEQ_MODULUS by {
            assert(nums[k] == seqs@[k].0);
        }
        assert(nums.skip(0) =~= nums);
        assert(Seq::<i32>::empty() + spec_compress(nums) =~= spec_compress(nums));
    }
    while i < len
        invariant
            len == seqs@.len(),
            nums == spec_nums_of(seqs@),
            spec_sorted(nums),
            forall|k: int| 0 <= k < len ==> (#[trigger] seqs@[k]).0 < SEQ_MODULUS,
            i <= len,
            spec_compress(nums) == out@ + spec_compress(nums.skip(i as int)),
        decreases len - i,
    {
        // Walk to the end of the consecutive run that starts at `i`.
        let mut j: usize = i + 1;
        while j < len && seqs[j].0 == seqs[j - 1].0 + 1
            invariant
                len == seqs@.len(),
                nums == spec_nums_of(seqs@),
                spec_sorted(nums),
                forall|k: int| 0 <= k < len ==> (#[trigger] seqs@[k]).0 < SEQ_MODULUS,
                i < j <= len,
                forall|k: int| i < k < j ==> #[trigger] nums[k] == nums[k - 1] + 1,
            decreases len - j,
        {
            j = j + 1;
        }
        proof {
            let t = nums.skip(i as int);
            assert forall|k: int| 0 < k < j - i implies #[trigger] t[k] == t[k - 1] + 1 by {
                assert(t[k] == nums[i + k]);
                assert(t[k - 1] == nums[i + k - 1]);
            }
            assert(j < len ==> t[j - i] != t[j - i - 1] + 1) by {
                if j < len {
                    assert(t[j - i] == nums[j as int]);
                    assert(t[j - i - 1] == nums[j - 1]);
                }
            }
            lemma_run_len_from_breaks(t, j - i);
            lemma_run_len_bounds(t);
        }
        let ghost before = out@;
        if j - i == 1 {
            out.push(seqs[i].0 as i32);
            proof {
                lemma_compress_step_single(nums, i as int);
                lemma_push_one(before, nums[i as int] as i32);
                lemma_assoc_words(
                    before,
                    seq![nums[i as int] as i32],
                    spec_compress(nums.skip(j as int)),
                );
            }
        } else {
            out.push((seqs[i].0 | RANGE_BIT) as i32);
            out.push(seqs[j - 1].0 as i32);
            proof {
                lemma_compress_step_run(nums, i as int, j as int);
                lemma_push_two(before, (nums[i as int] | RANGE_BIT) as i32, nums[j - 1] as i32);
                lemma_assoc_words(
                    before,
                    seq![(nums[i as int] | RANGE_BIT) as i32, nums[j - 1] as i32],
                    spec_compress(nums.skip(j as int)),
                );
            }
        }
        i = j;
    }
    proof {
        assert(nums.skip(len as int) =~= Seq::<u32>::empty());
        assert(spec_compress(Seq::<u32>::empty()) =~= Seq::<i32>::empty());
        assert(out@ + Seq::<i32>::empty() =~= out@);
    }
    out
}

/// Decodes a compressed loss list back into the numbers it names, or
/// nothing where the stream is malformed.
#[verifier::rlimit(100)]
pub fn decompress_loss_list(words: &Vec<i32>) -> (r: Option<Vec<SeqNumber>>)
    ensures
        match r {
            Some(v) => spec_decompress(words@) == Some(spec_nums_of(v@)) && forall|i: int|
                0 <= i < v@.len() ==> (#[trigger] v@[i]).wf(),
            None => spec_decompress(words@) is None,
        },
{
    let len = words.len();
    let mut out: Vec<SeqNumber> = Vec::new();
    let mut i: usize = 0;
    proof {
        assert(words@.skip(0) =~= words@);
        if spec_decompress(words@) is Some {
            assert(spec_nums_of(out@) + spec_decompress(words@)->0 =~= spec_decompress(
                words@,
            )->0);
        }
    }
    while i < len
        invariant
            len == words@.len(),
            i <= len,
            forall|k: int| 0 <= k < out@.len() ==> (#[trigger] out@[k]).wf(),
            spec_decompress(words@) == (match spec_decompress(words@.skip(i as int)) {
                Some(rest) => Some(spec_nums_of(out@) + rest),
                None => None::<Seq<u32>>,
            }),
        decreases len - i,
    {
        let ghost t = words@.skip(i as int);
        if words[i] >= 0 {
            let wi = words[i];
            let ghost before = out@;
            out.push(SeqNumber(wi as u32));
            proof {
                assert((wi as u32) < 0x8000_0000u32 && ((wi as u32) as i32) == wi) by (bit_vector)
                    requires
                        wi >= 0,
                ;
                assert(t[0] == wi);
                assert(t.skip(1) =~= words@.skip(i + 1));
                assert(spec_nums_of(out@) =~= spec_nums_of(before) + seq![t[0] as u32]);
                if spec_decompress(words@.skip(i + 1)) is Some {
                    let rest = spec_decompress(words@.skip(i + 1))->0;
                    assert(spec_decompress(t) == Some(seq![t[0] as u32] + rest));
                    assert(spec_nums_of(before) + (seq![t[0] as u32] + rest) =~= spec_nums_of(out@)
                        + rest);
                }
            }
            i = i + 1;
        } else {
            if i + 1 >= len {
                proof {
                    assert(t.len() < 2 && t[0] < 0);
                }
                return None;
            }
            let start = (words[i] as u32) & 0x7fff_ffff;
            if words[i + 1] < 0 {
                proof {
                    assert(t[0] < 0 && t[1] == words@[i + 1] && t[1] < 0);
                }
                return None;
            }
            let end = words[i + 1] as u32;
            proof {
                assert(t[0] == words@[i as int] && t[1] == words@[i + 1]);
                assert(end == (t[1] as u32));
                assert(start == ((t[0] as u32) & 0x7fff_ffffu32));
            }
            if end < start {
                return None;
            }
            let w1v = words[i + 1];
            proof {
                let w0v = words@[i as int];
                assert(((w0v as u32) & 0x7fff_ffffu32) < 0x8000_0000u32) by (bit_vector);
                assert((w1v as u32) < 0x8000_0000u32) by (bit_vector)
                    requires
                        w1v >= 0,
                ;
            }
            let ghost before = out@;
            let mut k: u32 = start;
            while k <= end
                invariant
                    start <= k,
                    k <= end + 1,
                    end < 0x8000_0000u32,
                    out@.len() == before.len() + (k - start),
                    forall|q: int| 0 <= q < before.len() ==> #[trigger] out@[q] == before[q],
                    forall|q: int|
                        before.len() <= q < out@.len() ==> (#[trigger] out@[q]).0 == start + (q
                            - before.len()),
                decreases end + 1 - k,
            {
                out.push(SeqNumber(k));
                k = k + 1;
            }
            proof {
                assert(spec_nums_of(out@) =~= spec_nums_of(before) + spec_range(start, end));
                assert(t.skip(2) =~= words@.skip(i + 2));
                if spec_decompress(words@.skip(i + 2)) is Some {
                    let rest = spec_decompress(words@.skip(i + 2))->0;
                    assert(spec_decompress(t) == Some(spec_range(start, end) + rest));
                    assert(spec_nums_of(before) + (spec_range(start, end) + rest) =~= spec_nums_of(
                        out@,
                    ) + rest);
                }
                assert forall|q: int| 0 <= q < out@.len() implies (#[trigger] out@[q]).wf() by {}
            }
            i = i + 2;
        }
    }
    proof {
        assert(words@.skip(len as int) =~= Seq::<i32>::empty());
        assert(spec_decompress(Seq::<i32>::empty()) == Some(Seq::<u32>::empty()));
        assert(spec_nums_of(out@) + Seq::<u32>::empty() =~= spec_nums_of(out@));
    }
    Some(out)
}

} // verus!
