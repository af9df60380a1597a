//! Conversions between samples, bits, bytes and field symbols, and small
//! comparisons on them.
use vstd::prelude::*;

verus! {

/// The number of positions below `t` where `a` and `b` differ.
pub open spec fn mismatches(a: Seq<bool>, b: Seq<bool>, t: nat) -> nat
    decreases t,
{
    if t == 0 {
        0
    } else {
        mismatches(a, b, (t - 1) as nat) + if a[t - 1] != b[t - 1] { 1nat } else { 0nat }
    }
}

/// There are no more mismatches than positions.
pub proof fn lemma_mismatches_bound(a: Seq<bool>, b: Seq<bool>, t: nat)
    ensures
        mismatches(a, b, t) <= t,
    decreases t,
{
    if t > 0 {
        lemma_mismatches_bound(a, b, (t - 1) as nat);
    }
}

/// The Hamming distance of `first` and the prefix of `second` of the same length.
pub fn distance(first: &Vec<bool>, second: &Vec<bool>) -> (r: usize)
    requires
        second@.len() >= first@.len(),
    ensures
        r == mismatches(first@, second@, first@.len()),
{
    let mut sum: usize = 0;
    let mut i: usize = 0;
    while i < first.len()
        invariant
            i <= first@.len(),
            second@.len() >= first@.len(),
            sum == mismatches(first@, second@, i as nat),
        decreases first@.len() - i,
    {
        proof {
            lemma_mismatches_bound(first@, second@, (i + 1) as nat);
        }
        if first[i] != second[i] {
            sum = sum + 1;
        }
        i = i + 1;
    }
    sum
}

/// Whether `first` equals `second`; indexing stops at the first difference,
/// so `second` must not be a proper prefix of `first`.
pub fn check_hash(first: &[u8], second: &[u8]) -> (r: bool)
    requires
        !(second@.len() < first@.len() && first@.subrange(0, second@.len() as int) == second@),
    ensures
        r == (first@ == second@),
{
    let mut i: usize = 0;
    while i < first.len()
        invariant
            i <= first@.len(),
            !(second@.len() < first@.len() && first@.subrange(0, second@.len() as int) == second@),
            i <= second@.len(),
            first@.subrange(0, i as int) == second@.subrange(0, i as int),
        decreases first@.len() - i,
    {
        if i == second.len() {
            proof {
                assert(second@.subrange(0, i as int) =~= second@);
            }
        }
        if first[i] != second[i] {
            return false;
        }
        proof {
            assert(first@.subrange(0, i + 1) =~= first@.subrange(0, i as int).push(first@[i as int]));
            assert(second@.subrange(0, i + 1) =~= second@.subrange(0, i as int).push(second@[i as int]));
        }
        i = i + 1;
    }
    proof {
        assert(first@.subrange(0, i as int) =~= first@);
        if first@.len() == second@.len() {
            assert(second@.subrange(0, i as int) =~= second@);
        }
    }
    first.len() == second.len()
}

/// Whether the received hash field `field` is the leading part of the
/// digest `digest`: the digest is at least as long and begins with it.
pub open spec fn digest_prefix(digest: Seq<u8>, field: Seq<u8>) -> bool {
    field.len() <= digest.len() && digest.subrange(0, field.len() as int) == field
}

/// The digest comparison of an attempt: whether the hash field that came
/// with the transmission is the leading part of the digest of the decoded
/// symbols (a digest is compared on as many bytes as the field carries).
pub fn digest_matches(digest: &[u8], field: &[u8]) -> (r: bool)
    ensures
        r == digest_prefix(digest@, field@),
{
    if field.len() > digest.len() {
        return false;
    }
    let mut i: usize = 0;
    while i < field.len()
        invariant
            i <= field@.len(),
            field@.len() <= digest@.len(),
            digest@.subrange(0, i as int) == field@.subrange(0, i as int),
        decreases field@.len() - i,
    {
        if digest[i] != field[i] {
            proof {
                assert(digest@.subrange(0, field@.len() as int)[i as int] != field@[i as int]);
            }
            return false;
        }
        proof {
            assert(digest@.subrange(0, i + 1) =~= digest@.subrange(0, i as int).push(digest@[i as int]));
            assert(field@.subrange(0, i + 1) =~= field@.subrange(0, i as int).push(field@[i as int]));
        }
        i = i + 1;
    }
    proof {
        assert(field@.subrange(0, i as int) =~= field@);
    }
    true
}

/// The big-endian bytes of a sample.
pub open spec fn i16_be(x: i16) -> (u8, u8) {
    (((x as u16) >> 8u16) as u8, (x as u16) as u8)
}

/// The sample whose big-endian bytes are `a`, `b`.
pub open spec fn i16_from_be(a: u8, b: u8) -> i16 {
    (((a as u16) << 8u16) | (b as u16)) as i16
}

/// The samples of `input` as big-endian byte pairs.
pub open spec fn samples_to_bytes(input: Seq<i16>) -> Seq<u8> {
    Seq::new(2 * input.len(), |k: int| if k % 2 == 0 { i16_be(input[k / 2]).0 } else { i16_be(input[k / 2]).1 })
}

/// The big-endian byte pairs of `input` as samples; an odd last byte is dropped.
pub open spec fn bytes_to_samples(input: Seq<u8>) -> Seq<i16> {
    Seq::new(input.len() / 2, |k: int| i16_from_be(input[2 * k], input[2 * k + 1]))
}

/// Each sample as its two big-endian bytes.
pub fn to_u8(input: Vec<i16>) -> (r: Vec<u8>)
    ensures
        r@ == samples_to_bytes(input@),
{
    let mut to_ret: Vec<u8> = Vec::new();
    let mut i: usize = 0;
    while i < input.len()
        invariant
            i <= input@.len(),
            to_ret@ == samples_to_bytes(input@.subrange(0, i as int)),
        decreases input@.len() - i,
    {
        let u = #[verifier::truncate] (input[i] as u16);
        let hi = #[verifier::truncate] ((u >> 8u16) as u8);
        let lo = #[verifier::truncate] (u as u8);
        let ghost before = to_ret@;
        to_ret.push(hi);
        to_ret.push(lo);
        proof {
            let s = input@.subrange(0, i + 1);
            assert forall|k: int| 0 <= k < 2 * s.len() implies #[trigger] to_ret@[k] == samples_to_bytes(s)[k] by {
                if k < 2 * i {
                    assert(input@.subrange(0, i as int)[k / 2] == s[k / 2]);
                }
            }
            assert(to_ret@ =~= samples_to_bytes(s));
        }
        i = i + 1;
    }
    proof {
        assert(input@.subrange(0, i as int) =~= input@);
    }
    to_ret
}

/// Consecutive byte pairs as big-endian samples; an odd last byte is dropped.
pub fn to_i16(input: &[u8]) -> (r: Vec<i16>)
    ensures
        r@ == bytes_to_samples(input@),
{
    let mut to_ret: Vec<i16> = Vec::new();
    let n = input.len() / 2;
    let mut k: usize = 0;
    while k < n
        invariant
            n == input@.len() / 2,
            n == input.len() / 2,
            k <= n,
            forall|j: int| 0 <= j < k ==> #[trigger] to_ret@[j] == i16_from_be(input@[2 * j], input@[2 * j + 1]),
            to_ret@.len() == k,
        decreases n - k,
    {
        let a = input[2 * k];
        let b = input[2 * k + 1];
        let v = #[verifier::truncate] ((((a as u16) << 8u16) | (b as u16)) as i16);
        to_ret.push(v);
        k = k + 1;
    }
    proof {
        assert(to_ret@ =~= bytes_to_samples(input@));
    }
    to_ret
}

/// Law: splitting samples into bytes and joining the bytes back gives the samples.
pub proof fn law_samples_roundtrip(v: Seq<i16>)
    ensures
        bytes_to_samples(samples_to_bytes(v)) == v,
{
    let b = samples_to_bytes(v);
    assert forall|k: int| 0 <= k < v.len() implies #[trigger] bytes_to_samples(b)[k] == v[k] by {
        let x = v[k];
        assert(b[2 * k] == i16_be(x).0);
        assert(b[2 * k + 1] == i16_be(x).1);
        assert(i16_from_be(i16_be(x).0, i16_be(x).1) == x) by (bit_vector);
    }
    assert(bytes_to_samples(b) =~= v);
}

/// Law: joining an even number of bytes into samples and splitting them
/// again gives the bytes.
pub proof fn law_bytes_roundtrip(b: Seq<u8>)
    requires
        b.len() % 2 == 0,
    ensures
        samples_to_bytes(bytes_to_samples(b)) == b,
{
    let v = bytes_to_samples(b);
    let r = samples_to_bytes(v);
    assert forall|k: int| 0 <= k < b.len() implies #[trigger] r[k] == b[k] by {
        let j = k / 2;
        let x = b[2 * j];
        let y = b[2 * j + 1];
        assert(v[j] == i16_from_be(x, y));
        assert(i16_be(i16_from_be(x, y)).0 == x && i16_be(i16_from_be(x, y)).1 == y) by (bit_vector);
    }
    assert(r =~= b);
}

/// A chunk of up to eight bits as `from_bools` packs it: each bit is added
/// and the byte shifted left, so the first bit of a full chunk falls off.
pub open spec fn pack_bits(c: Seq<bool>, n: nat) -> u8
    decreases n,
{
    if n == 0 {
        0
    } else {
        let prev = pack_bits(c, (n - 1) as nat);
        let bv: u8 = if c[n - 1] { 1 } else { 0 };
        (((prev + bv) as u8) << 1u8) as u8
    }
}

/// The number of chunks of eight in `len` items, the last possibly shorter.
pub open spec fn chunks8(len: nat) -> nat {
    (len + 7) / 8
}

/// `from_bools(input)`: each chunk of eight bits packed into a byte.
pub open spec fn bools_to_bytes(input: Seq<bool>) -> Seq<u8> {
    Seq::new(chunks8(input.len()), |k: int| {
        let start = 8 * k;
        let end = if input.len() - start < 8 { input.len() as int } else { start + 8 };
        pack_bits(input.subrange(start, end), (end - start) as nat)
    })
}

/// A packed chunk ends with a shift, so its lowest bit is 0.
pub proof fn lemma_pack_even(c: Seq<bool>, n: nat)
    ensures
        pack_bits(c, n) % 2 == 0,
    decreases n,
{
    if n > 0 {
        let prev = pack_bits(c, (n - 1) as nat);
        let bv: u8 = if c[n - 1] { 1 } else { 0 };
        let s = (prev + bv) as u8;
        assert(((s << 1u8) as u8) % 2 == 0) by (bit_vector);
    }
}

/// Packs the bits in chunks of eight, as `from_bools` does.
pub fn from_bools(input: &[bool]) -> (r: Vec<u8>)
    ensures
        r@ == bools_to_bytes(input@),
{
    let len = input.len();
    let mut to_ret: Vec<u8> = Vec::new();
    let mut start: usize = 0;
    while start < len
        invariant
            len == input@.len(),
            start <= len,
            start % 8 == 0 || start == len,
            to_ret@.len() == chunks8(start as nat),
            forall|k: int| 0 <= k < to_ret@.len() ==> #[trigger] to_ret@[k] == bools_to_bytes(input@)[k],
        decreases len - start,
    {
        let end = if len - start < 8 { len } else { start + 8 };
        let ghost chunk = input@.subrange(start as int, end as int);
        let mut el: u8 = 0;
        let mut i: usize = start;
        while i < end
            invariant
                start <= i <= end,
                end <= len,
                len == input@.len(),
                chunk == input@.subrange(start as int, end as int),
                el == pack_bits(chunk, (i - start) as nat),
            decreases end - i,
        {
            proof {
                lemma_pack_even(chunk, (i - start) as nat);
                assert(chunk[(i - start) as int] == input@[i as int]);
            }
            if input[i] {
                el = el + 1;
            }
            el = el << 1u8;
            i = i + 1;
        }
        to_ret.push(el);
        proof {
            assert(to_ret@[to_ret@.len() - 1] == bools_to_bytes(input@)[(start / 8) as int]);
        }
        start = end;
    }
    proof {
        assert(to_ret@ =~= bools_to_bytes(input@));
    }
    to_ret
}

/// The number of bytes in a `usize`.
pub open spec fn usize_bytes() -> nat {
    (usize::BITS / 8) as nat
}

/// The big-endian bytes of a `usize`.
pub open spec fn usize_be(x: usize) -> Seq<u8> {
    Seq::new(usize_bytes(), |b: int| (x >> ((8 * (usize_bytes() - 1 - b)) as usize)) as u8)
}

/// The big-endian bytes of each value, in order.
pub open spec fn usizes_to_bytes(s: Seq<usize>) -> Seq<u8>
    decreases s.len(),
{
    if s.len() == 0 {
        Seq::empty()
    } else {
        usizes_to_bytes(s.drop_last()) + usize_be(s.last())
    }
}

/// Each value as its big-endian bytes.
pub fn from_usize(input: &[usize]) -> (r: Vec<u8>)
    ensures
        r@ == usizes_to_bytes(input@),
{
    let nbytes: usize = (usize::BITS / 8) as usize;
    let mut to_return: Vec<u8> = Vec::new();
    let mut i: usize = 0;
    while i < input.len()
        invariant
            nbytes == usize_bytes(),
            i <= input@.len(),
            to_return@ == usizes_to_bytes(input@.subrange(0, i as int)),
        decreases input@.len() - i,
    {
        let x = input[i];
        let ghost before = to_return@;
        let mut b: usize = 0;
        while b < nbytes
            invariant
                nbytes == usize_bytes(),
                b <= nbytes,
                to_return@.len() == before.len() + b,
                to_return@.subrange(0, before.len() as int) == before,
                forall|k: int| 0 <= k < b ==> #[trigger] to_return@[before.len() + k] == usize_be(x)[k],
            decreases nbytes - b,
        {
            let byte = #[verifier::truncate] ((x >> (8 * (nbytes - 1 - b))) as u8);
            to_return.push(byte);
            proof {
                assert(to_return@.subrange(0, before.len() as int) =~= before);
            }
            b = b + 1;
        }
        proof {
            let s = input@.subrange(0, i + 1);
            assert(s.drop_last() =~= input@.subrange(0, i as int));
            assert(s.last() == x);
            assert forall|k: int| 0 <= k < to_return@.len() implies #[trigger] to_return@[k] == (before + usize_be(x))[k] by {
                if k < before.len() {
                    assert(to_return@.subrange(0, before.len() as int)[k] == to_return@[k]);
                } else {
                    assert(to_return@[before.len() + (k - before.len())] == usize_be(x)[k - before.len()]);
                }
            }
            assert(to_return@ =~= before + usize_be(x));
        }
        i = i + 1;
    }
    proof {
        assert(input@.subrange(0, i as int) =~= input@);
    }
    to_return
}

/// `sum of a[j] * b[i + j]` for `j < m`.
pub open spec fn corr_sum(a: Seq<u8>, b: Seq<u8>, i: int, m: nat) -> int
    decreases m,
{
    if m == 0 {
        0
    } else {
        corr_sum(a, b, i, (m - 1) as nat) + (a[m - 1] as int) * (b[i + m - 1] as int)
    }
}

/// The mean product of `a` and `b` shifted by `i`, over the `len - i`
/// overlapping samples (rounded down).
pub open spec fn corr(a: Seq<u8>, b: Seq<u8>, len: nat, i: nat) -> int {
    corr_sum(a, b, i as int, (len - i) as nat) / ((len - i) as int)
}

/// The first shift below `t` with the largest mean product above 0, and
/// that mean (0 and 0 when none is above 0).
pub open spec fn best_shift(a: Seq<u8>, b: Seq<u8>, len: nat, t: nat) -> (nat, int)
    decreases t,
{
    if t == 0 {
        (0, 0)
    } else {
        let prev = best_shift(a, b, len, (t - 1) as nat);
        let c = corr(a, b, len, (t - 1) as nat);
        if c > prev.1 { ((t - 1) as nat, c) } else { prev }
    }
}

/// The shorter of two lengths.
pub open spec fn min_len(x: nat, y: nat) -> nat {
    if x < y { x } else { y }
}

/// A correlation sum of `m` products of bytes is at most `65025 m`.
pub proof fn lemma_corr_sum_bound(a: Seq<u8>, b: Seq<u8>, i: int, m: nat)
    ensures
        0 <= corr_sum(a, b, i, m) <= 65025 * m,
    decreases m,
{
    if m > 0 {
        lemma_corr_sum_bound(a, b, i, (m - 1) as nat);
        let x = a[m - 1] as int;
        let y = b[i + m - 1] as int;
        assert(0 <= x * y <= 65025) by (nonlinear_arith)
            requires 0 <= x <= 255, 0 <= y <= 255;
    }
}

/// What the search over the first `t` shifts keeps: the shift found is the
/// least one with the largest mean product, and the mean it holds is that
/// largest mean (0 before any shift is tried).
proof fn lemma_best_shift(a: Seq<u8>, b: Seq<u8>, len: nat, t: nat)
    requires
        t <= len,
        len <= a.len(),
        len <= b.len(),
    ensures
        best_shift(a, b, len, t).1 >= 0,
        best_shift(a, b, len, t).0 == 0 || best_shift(a, b, len, t).0 < t,
        t > 0 ==> best_shift(a, b, len, t).1 == corr(a, b, len, best_shift(a, b, len, t).0),
        forall|i: nat| i < t ==> #[trigger] corr(a, b, len, i) <= best_shift(a, b, len, t).1,
        forall|i: nat| i < best_shift(a, b, len, t).0 ==> #[trigger] corr(a, b, len, i) < best_shift(a, b, len, t).1,
    decreases t,
{
    if t > 0 {
        let p = (t - 1) as nat;
        lemma_best_shift(a, b, len, p);
        lemma_corr_sum_bound(a, b, p as int, (len - p) as nat);
        let s = corr_sum(a, b, p as int, (len - p) as nat);
        let d = (len - p) as int;
        assert(s / d >= 0) by (nonlinear_arith)
            requires s >= 0, d > 0;
    }
}

/// Law: `align` picks the least shift `r` below the shorter length `m` whose
/// mean product `(sum_{j < m - r} first[j] * second[r + j]) / (m - r)`
/// (rounded down) is the largest over all shifts below `m`.
pub proof fn law_align_best(first: Seq<u8>, second: Seq<u8>)
    ensures
        ({
            let m = min_len(first.len(), second.len());
            let r = best_shift(first, second, m, m).0;
            &&& (m == 0 ==> r == 0)
            &&& (m > 0 ==> r < m)
            &&& forall|i: nat| i < m ==> #[trigger] corr_sum(first, second, i as int, (m - i) as nat) / ((m - i) as int)
                <= corr_sum(first, second, r as int, (m - r) as nat) / ((m - r) as int)
            &&& forall|i: nat| i < r ==> #[trigger] corr_sum(first, second, i as int, (m - i) as nat) / ((m - i) as int)
                < corr_sum(first, second, r as int, (m - r) as nat) / ((m - r) as int)
        }),
{
    let m = min_len(first.len(), second.len());
    lemma_best_shift(first, second, m, m);
    let r = best_shift(first, second, m, m).0;
    assert forall|i: nat| i < m implies #[trigger] corr_sum(first, second, i as int, (m - i) as nat) / ((m - i) as int)
        <= corr_sum(first, second, r as int, (m - r) as nat) / ((m - r) as int) by {
        assert(corr(first, second, m, i) <= best_shift(first, second, m, m).1);
    }
    assert forall|i: nat| i < r implies #[trigger] corr_sum(first, second, i as int, (m - i) as nat) / ((m - i) as int)
        < corr_sum(first, second, r as int, (m - r) as nat) / ((m - r) as int) by {
        assert(corr(first, second, m, i) < best_shift(first, second, m, m).1);
    }
}

/// The shift of `second` against `first` that maximizes their mean product.
pub fn align(first: &Vec<u8>, second: &Vec<u8>) -> (r: usize)
    requires
        65025 * min_len(first@.len(), second@.len()) <= isize::MAX,
    ensures
        r == best_shift(first@, second@, min_len(first@.len(), second@.len()),
            min_len(first@.len(), second@.len())).0,
        r == 0 || r < min_len(first@.len(), second@.len()),
        forall|i: nat| i < min_len(first@.len(), second@.len()) ==> #[trigger] corr_sum(first@, second@, i as int,
            (min_len(first@.len(), second@.len()) - i) as nat) / ((min_len(first@.len(), second@.len()) - i) as int)
            <= corr_sum(first@, second@, r as int, (min_len(first@.len(), second@.len()) - r) as nat)
                / ((min_len(first@.len(), second@.len()) - r) as int),
        forall|i: nat| i < r ==> #[trigger] corr_sum(first@, second@, i as int,
            (min_len(first@.len(), second@.len()) - i) as nat) / ((min_len(first@.len(), second@.len()) - i) as int)
            < corr_sum(first@, second@, r as int, (min_len(first@.len(), second@.len()) - r) as nat)
                / ((min_len(first@.len(), second@.len()) - r) as int),
{
    let max_len = if first.len() < second.len() { first.len() } else { second.len() };
    let ghost len = min_len(first@.len(), second@.len());
    let mut offset: (usize, isize) = (0, 0);
    let mut i: usize = 0;
    while i < max_len
        invariant
            max_len == len,
            len <= first@.len(),
            len <= second@.len(),
            65025 * len <= isize::MAX,
            i <= max_len,
            best_shift(first@, second@, len, i as nat) == (offset.0 as nat, offset.1 as int),
        decreases max_len - i,
    {
        let mut cross_corr: isize = 0;
        let mut j: usize = 0;
        while j < max_len - i
            invariant
                max_len == len,
                len <= first@.len(),
                len <= second@.len(),
                65025 * len <= isize::MAX,
                i < max_len,
                j <= max_len - i,
                cross_corr as int == corr_sum(first@, second@, i as int, j as nat),
            decreases max_len - i - j,
        {
            proof {
                lemma_corr_sum_bound(first@, second@, i as int, (j + 1) as nat);
                assert(65025 * (j + 1) <= 65025 * len) by (nonlinear_arith)
                    requires j + 1 <= len;
            }
            let x = first[j] as isize;
            let y = second[i + j] as isize;
            assert(0 <= x * y <= 65025) by (nonlinear_arith)
                requires 0 <= x <= 255, 0 <= y <= 255;
            cross_corr = cross_corr + x * y;
            j = j + 1;
        }
        proof {
            lemma_corr_sum_bound(first@, second@, i as int, (max_len - i) as nat);
        }
        cross_corr = cross_corr / ((max_len - i) as isize);
        if cross_corr > offset.1 {
            offset = (i, cross_corr);
        }
        i = i + 1;
    }
    proof {
        law_align_best(first@, second@);
    }
    offset.0
}

/// Bit `j` of symbol `i` as `from_upow` reads it: bit `pow` of the symbol
/// shifted left by `j`.
pub open spec fn upow_bit(data: Seq<usize>, pow: usize, i: int, j: int) -> bool {
    ((data[i] << (j as usize)) & (1usize << pow)) != 0
}

/// The `t`-th bit of the stream that `from_upow` reads.
pub open spec fn upow_stream(data: Seq<usize>, pow: usize, t: int) -> bool {
    upow_bit(data, pow, t / (pow as int), t % (pow as int))
}

/// The byte made of the `n` stream bits from `start` on, first bit highest.
pub open spec fn upow_byte(data: Seq<usize>, pow: usize, start: int, n: nat) -> u8
    decreases n,
{
    if n == 0 {
        0
    } else {
        let prev = upow_byte(data, pow, start, (n - 1) as nat);
        let bv: u8 = if upow_stream(data, pow, start + n - 1) { 1 } else { 0 };
        (((prev << 1u8) as u8) + bv) as u8
    }
}

/// `from_upow(data, pow)`: the `pow`-bit symbols as a bit stream, cut into
/// bytes; a last incomplete byte is dropped.
pub open spec fn upow_to_bytes(data: Seq<usize>, pow: usize) -> Seq<u8> {
    Seq::new(((data.len() * pow) / 8) as nat, |b: int| upow_byte(data, pow, 8 * b, 8))
}

/// `2^n`.
pub open spec fn p2(n: nat) -> nat
    decreases n,
{
    if n == 0 { 1 } else { 2 * p2((n - 1) as nat) }
}

/// A byte built from at most seven stream bits is below `2^n`.
pub proof fn lemma_upow_byte_small(data: Seq<usize>, pow: usize, start: int, n: nat)
    requires
        n <= 7,
    ensures
        upow_byte(data, pow, start, n) < p2(n),
        p2(n) <= 128,
    decreases n,
{
    assert(p2(0) == 1);
    assert(p2(1) == 2);
    assert(p2(2) == 4);
    assert(p2(3) == 8);
    assert(p2(4) == 16);
    assert(p2(5) == 32);
    assert(p2(6) == 64);
    assert(p2(7) == 128);
    if n > 0 {
        lemma_upow_byte_small(data, pow, start, (n - 1) as nat);
        let prev = upow_byte(data, pow, start, (n - 1) as nat);
        assert(prev < 128 ==> ((prev << 1u8) as u8) == 2 * prev) by (bit_vector);
    }
}

/// Packs `pow`-bit symbols into bytes, most significant bit first.
pub fn from_upow(data: Vec<usize>, pow: usize) -> (r: Vec<u8>)
    requires
        pow < usize::BITS,
        data@.len() * pow <= usize::MAX,
    ensures
        r@ == upow_to_bytes(data@, pow),
{
    let mask: usize = 1usize << pow;
    let mut to_ret: Vec<u8> = Vec::new();
    let mut next: u8 = 0;
    let mut i: usize = 0;
    while i < data.len()
        invariant
            pow < usize::BITS,
            mask == 1usize << pow,
            data@.len() * pow <= usize::MAX,
            i <= data@.len(),
            to_ret@ == Seq::new(((pow * i) / 8) as nat, |b: int| upow_byte(data@, pow, 8 * b, 8)),
            next == upow_byte(data@, pow, 8 * ((pow * i) / 8), ((pow * i) % 8) as nat),
        decreases data@.len() - i,
    {
        let mut x: usize = data[i];
        let mut j: usize = 0;
        proof {
            assert(pow * i + pow <= data@.len() * pow) by (nonlinear_arith)
                requires i < data@.len();
            let xs = data@[i as int];
            assert((xs << 0usize) == xs) by (bit_vector);
        }
        while j < pow
            invariant
                pow < usize::BITS,
                mask == 1usize << pow,
                data@.len() * pow <= usize::MAX,
                i < data@.len(),
                j <= pow,
                pow * i + pow <= data@.len() * pow,
                x == data@[i as int] << (j as usize),
                to_ret@ == Seq::new(((pow * i + j) / 8) as nat, |b: int| upow_byte(data@, pow, 8 * b, 8)),
                next == upow_byte(data@, pow, 8 * ((pow * i + j) / 8), ((pow * i + j) % 8) as nat),
            decreases pow - j,
        {
            let ghost t = pow * i + j;
            proof {
                lemma_upow_byte_small(data@, pow, 8 * (t / 8), (t % 8) as nat);
                assert(t == i * pow + j) by (nonlinear_arith)
                    requires t == pow * i + j;
                vstd::arithmetic::div_mod::lemma_fundamental_div_mod_converse_div(t, pow as int, i as int, j as int);
                vstd::arithmetic::div_mod::lemma_fundamental_div_mod_converse_mod(t, pow as int, i as int, j as int);
                assert(8 * (t / 8) + t % 8 == t);
            }
            assert(next < 128);
            assert(next < 128 ==> ((next << 1u8) as u8) == 2 * next) by (bit_vector);
            next = next << 1u8;
            if x & mask != 0 {
                next = next + 1;
            }
            proof {
                let xs = data@[i as int];
                assert((xs << (j as usize)) << 1usize == xs << ((j + 1) as usize)) by (bit_vector)
                    requires j < pow, pow < 64;
            }
            x = x << 1usize;
            if ((pow * i) + j + 1) % 8 == 0 {
                to_ret.push(next);
                next = 0;
                proof {
                    assert(to_ret@ =~= Seq::new(((t + 1) / 8) as nat, |b: int| upow_byte(data@, pow, 8 * b, 8)));
                }
            }
            j = j + 1;
        }
        proof {
            assert(pow * (i + 1) == pow * i + pow) by (nonlinear_arith);
        }
        i = i + 1;
    }
    proof {
        assert(pow * data@.len() == data@.len() * pow) by (nonlinear_arith);
        assert(to_ret@ =~= upow_to_bytes(data@, pow));
    }
    to_ret
}

/// The `t`-th bit of a byte stream, most significant bit of each byte first.
pub open spec fn byte_stream(data: Seq<u8>, t: int) -> bool {
    ((data[t / 8] << ((t % 8) as u8)) & 0x80u8) != 0
}

/// The symbol made of the `n` stream bits from `start` on, first bit highest.
pub open spec fn stream_word(data: Seq<u8>, start: int, n: nat) -> usize
    decreases n,
{
    if n == 0 {
        0
    } else {
        let prev = stream_word(data, start, (n - 1) as nat);
        let bv: usize = if byte_stream(data, start + n - 1) { 1 } else { 0 };
        (((prev << 1usize) as usize) + bv) as usize
    }
}

/// `to_upow(data, pow)`: the bytes as a bit stream, cut into `pow`-bit
/// symbols; an incomplete last symbol is dropped.
pub open spec fn bytes_to_upow(data: Seq<u8>, pow: usize) -> Seq<usize> {
    Seq::new((((data.len() * 8) as int) / (pow as int)) as nat, |w: int| stream_word(data, (pow as int) * w, pow as nat))
}

/// Stepping a position `t` on by one, in units of `d`.
pub proof fn lemma_div_mod_step(t: int, d: int)
    requires
        t >= 0,
        d > 0,
    ensures
        (t + 1) % d == 0 ==> (t + 1) / d == t / d + 1 && t % d == d - 1,
        (t + 1) % d != 0 ==> (t + 1) / d == t / d && (t + 1) % d == t % d + 1,
{
    let q = t / d;
    let r = t % d;
    vstd::arithmetic::div_mod::lemma_fundamental_div_mod(t, d);
    assert(0 <= r < d);
    if r + 1 < d {
        assert(t + 1 == q * d + (r + 1)) by (nonlinear_arith)
            requires t == d * q + r;
        vstd::arithmetic::div_mod::lemma_fundamental_div_mod_converse_div(t + 1, d, q, r + 1);
        vstd::arithmetic::div_mod::lemma_fundamental_div_mod_converse_mod(t + 1, d, q, r + 1);
    } else {
        assert(t + 1 == (q + 1) * d + 0) by (nonlinear_arith)
            requires t == d * q + r, r + 1 == d;
        vstd::arithmetic::div_mod::lemma_fundamental_div_mod_converse_div(t + 1, d, q + 1, 0);
        vstd::arithmetic::div_mod::lemma_fundamental_div_mod_converse_mod(t + 1, d, q + 1, 0);
    }
}

/// Unpacks a byte stream into `pow`-bit symbols, most significant bit first.
pub fn to_upow(data: Vec<u8>, pow: usize) -> (r: Vec<usize>)
    requires
        pow > 0,
        data@.len() * 8 <= usize::MAX,
    ensures
        r@ == bytes_to_upow(data@, pow),
{
    let mask: u8 = 0b10000000;
    let mut to_ret: Vec<usize> = Vec::new();
    let mut next: usize = 0;
    let mut i: usize = 0;
    while i < data.len()
        invariant
            pow > 0,
            mask == 0x80u8,
            data@.len() * 8 <= usize::MAX,
            i <= data@.len(),
            to_ret@ == Seq::new(((8 * i) / (pow as int)) as nat, |w: int| stream_word(data@, (pow as int) * w, pow as nat)),
            next == stream_word(data@, (pow as int) * ((8 * i) / (pow as int)), ((8 * i) % (pow as int)) as nat),
        decreases data@.len() - i,
    {
        let mut x: u8 = data[i];
        let mut j: usize = 0;
        proof {
            let xs = data@[i as int];
            assert((xs << 0u8) == xs) by (bit_vector);
        }
        while j < 8
            invariant
                pow > 0,
                mask == 0x80u8,
                data@.len() * 8 <= usize::MAX,
                i < data@.len(),
                j <= 8,
                x == data@[i as int] << (j as u8),
                to_ret@ == Seq::new(((8 * i + j) / (pow as int)) as nat, |w: int| stream_word(data@, (pow as int) * w, pow as nat)),
                next == stream_word(data@, (pow as int) * ((8 * i + j) / (pow as int)), ((8 * i + j) % (pow as int)) as nat),
            decreases 8 - j,
        {
            let ghost t = 8 * i + j;
            proof {
                lemma_div_mod_step(t, pow as int);
                vstd::arithmetic::div_mod::lemma_fundamental_div_mod(t, pow as int);
                assert(t / 8 == i && t % 8 == j);
                assert(((next << 1usize) as usize) % 2 == 0) by (bit_vector);
            }
            next = next << 1usize;
            if x & mask != 0 {
                next = next + 1;
            }
            proof {
                let xs = data@[i as int];
                assert((xs << (j as u8)) << 1u8 == xs << ((j + 1) as u8)) by (bit_vector)
                    requires j < 8;
            }
            x = x << 1u8;
            if (8 * i + j + 1) % pow == 0 {
                to_ret.push(next);
                next = 0;
                proof {
                    assert(to_ret@ =~= Seq::new(((t + 1) / (pow as int)) as nat, |w: int| stream_word(data@, (pow as int) * w, pow as nat)));
                }
            }
            j = j + 1;
        }
        i = i + 1;
    }
    proof {
        assert(to_ret@ =~= bytes_to_upow(data@, pow));
    }
    to_ret
}

/// Shifting a bit into a byte below 128 moves its bits up by one.
proof fn lemma_shift_in_bit(prev: u8, bv: u8, k: u8)
    by (bit_vector)
    requires
        prev < 128,
        bv <= 1,
        1 <= k < 8,
    ensures
        ((((prev << 1u8) as u8) + bv) as u8 >> k) & 1u8 == (prev >> ((k - 1) as u8)) & 1u8,
        ((((prev << 1u8) as u8) + bv) as u8 >> 0u8) & 1u8 == bv,
{
}

/// The stream bit at position `m` of a byte is its bit `7 - m`.
proof fn lemma_byte_bit(v: u8, m: u8)
    by (bit_vector)
    requires
        m < 8,
    ensures
        (((v << m) & 0x80u8) != 0) == ((v >> ((7 - m) as u8)) & 1u8 == 1u8),
{
}

/// Shifting in the next bit of `d`, as `from_upow` reads it, extends the
/// word read so far by one bit of `d`.
proof fn lemma_shift_word(d: usize, pow: usize, s: usize)
    by (bit_vector)
    requires
        1 <= s <= pow,
        pow < usize::BITS,
        d < (1usize << pow),
    ensures
        (((d >> ((s + 1) as usize)) << 1usize) as usize
            + (if ((d << ((pow - s) as usize)) & (1usize << pow)) != 0 { 1usize } else { 0usize })) as usize
            == d >> s,
        d >> ((pow + 1) as usize) == 0,
{
}

/// Bit `n - 1 - m` of the byte built from `n` stream bits is stream bit `m`.
proof fn lemma_upow_byte_bits(data: Seq<usize>, pow: usize, start: int, n: nat, m: nat)
    requires
        m < n <= 8,
    ensures
        ((upow_byte(data, pow, start, n) >> ((n - 1 - m) as u8)) & 1u8 == 1u8) == upow_stream(data, pow, start + m),
    decreases n,
{
    lemma_upow_byte_small(data, pow, start, (n - 1) as nat);
    let prev = upow_byte(data, pow, start, (n - 1) as nat);
    let bv: u8 = if upow_stream(data, pow, start + n - 1) { 1 } else { 0 };
    if m == n - 1 {
        lemma_shift_in_bit(prev, bv, 1);
    } else {
        lemma_shift_in_bit(prev, bv, (n - 1 - m) as u8);
        lemma_upow_byte_bits(data, pow, start, (n - 1) as nat, m);
    }
}

/// The bytes that `from_upow` makes carry, bit for bit, the stream it reads.
proof fn lemma_packed_stream(data: Seq<usize>, pow: usize, t: int)
    requires
        0 <= t < 8 * upow_to_bytes(data, pow).len(),
    ensures
        byte_stream(upow_to_bytes(data, pow), t) == upow_stream(data, pow, t),
{
    let bytes = upow_to_bytes(data, pow);
    let b = t / 8;
    let m = t % 8;
    assert(8 * b + m == t);
    lemma_upow_byte_bits(data, pow, 8 * b, 8, m as nat);
    lemma_byte_bit(bytes[b], m as u8);
}

/// Reading `n` bits of symbol `w` back from the packed bytes gives the top
/// bits of `d >> 1`.
proof fn lemma_unpacked_word(data: Seq<usize>, pow: usize, w: int, n: nat)
    requires
        1 <= pow < usize::BITS,
        (data.len() * pow) % 8 == 0,
        0 <= w < data.len(),
        n <= pow,
        data[w] < (1usize << pow),
    ensures
        stream_word(upow_to_bytes(data, pow), (pow as int) * w, n) == data[w] >> ((pow + 1 - n) as usize),
    decreases n,
{
    let d = data[w];
    let bytes = upow_to_bytes(data, pow);
    if n == 0 {
        lemma_shift_word(d, pow, pow);
    } else {
        lemma_unpacked_word(data, pow, w, (n - 1) as nat);
        let m = (n - 1) as int;
        let t = (pow as int) * w + m;
        let len = data.len() as int;
        let p = pow as int;
        assert(t < 8 * bytes.len()) by (nonlinear_arith)
            requires t == p * w + m, m < p, w < len, 8 * bytes.len() == len * p, p >= 1;
        lemma_packed_stream(data, pow, t);
        assert(t == w * p + m) by (nonlinear_arith) requires t == p * w + m;
        vstd::arithmetic::div_mod::lemma_fundamental_div_mod_converse_div(t, p, w, m);
        vstd::arithmetic::div_mod::lemma_fundamental_div_mod_converse_mod(t, p, w, m);
        assert(upow_stream(data, pow, t) == upow_bit(data, pow, w, m));
        lemma_shift_word(d, pow, (pow + 1 - n) as usize);
        assert((pow + 1 - n) + 1 == pow + 1 - (n - 1));
        assert(pow - (pow + 1 - n) == m);
    }
}

/// Law: packing `pow`-bit symbols into bytes and unpacking the bytes again
/// gives each symbol shifted right by one bit: the packing reads bits
/// `pow` down to 1 of each symbol.
pub proof fn law_upow_roundtrip(data: Seq<usize>, pow: usize)
    requires
        1 <= pow < usize::BITS,
        (data.len() * pow) % 8 == 0,
        forall|i: int| 0 <= i < data.len() ==> #[trigger] data[i] < (1usize << pow),
    ensures
        bytes_to_upow(upow_to_bytes(data, pow), pow) == Seq::new(data.len(), |i: int| data[i] >> 1),
{
    let bytes = upow_to_bytes(data, pow);
    let len = data.len() as int;
    let p = pow as int;
    assert(len * p >= 0) by (nonlinear_arith) requires len >= 0, p >= 0;
    vstd::arithmetic::div_mod::lemma_fundamental_div_mod(len * p, 8);
    assert(8 * bytes.len() == len * p);
    vstd::arithmetic::div_mod::lemma_div_multiples_vanish(len, p);
    assert((len * p) / p == len) by (nonlinear_arith) requires p * len / p == len, p >= 1;
    let r = bytes_to_upow(bytes, pow);
    assert(r.len() == len);
    assert forall|w: int| 0 <= w < len implies #[trigger] r[w] == data[w] >> 1 by {
        lemma_unpacked_word(data, pow, w, pow as nat);
    }
    assert(r =~= Seq::new(data.len(), |i: int| data[i] >> 1));
}

/// The number of multiples of `ch` below `len`.
pub open spec fn multiples_below(len: nat, ch: nat) -> nat {
    ((len + ch - 1) / ch as int) as nat
}

/// The first channel of interleaved frames of `ch` samples each: the samples
/// at positions that are multiples of `ch` (none for an empty buffer).
pub open spec fn first_channel_of(buf: Seq<i16>, ch: nat) -> Seq<i16> {
    if buf.len() == 0 {
        Seq::empty()
    } else {
        Seq::new(multiples_below(buf.len(), ch), |j: int| buf[j * ch])
    }
}

/// Keeps the samples at positions that are multiples of `channels`.
pub fn first_channel(buf: &[i16], channels: usize) -> (r: Vec<i16>)
    requires
        channels > 0 || buf@.len() == 0,
    ensures
        r@ == first_channel_of(buf@, channels as nat),
{
    let mut out: Vec<i16> = Vec::new();
    if buf.len() == 0 {
        proof {
            assert(out@ =~= first_channel_of(buf@, channels as nat));
        }
        return out;
    }
    let ghost ch = channels as int;
    let ghost len = buf@.len() as int;
    let mut i: usize = 0;
    let mut k: usize = 0;
    loop
        invariant_except_break
            i == k * ch,
            i < len,
        invariant
            ch == channels,
            len == buf@.len(),
            ch > 0,
            len > 0,
            k <= len,
            out@ == Seq::new(k as nat, |j: int| buf@[j * ch]),
        ensures
            out@.len() * ch >= len,
            (out@.len() - 1) * ch < len,
        decreases len - i,
    {
        out.push(buf[i]);
        proof {
            assert(out@ =~= Seq::new((k + 1) as nat, |j: int| buf@[j * ch]));
            assert(k < len) by (nonlinear_arith) requires i == k * ch, ch >= 1, k >= 0, i < len;
        }
        k = k + 1;
        if buf.len() - i <= channels {
            proof {
                assert(k * ch == i + ch) by (nonlinear_arith) requires i == (k - 1) * ch;
            }
            break;
        }
        i = i + channels;
        proof {
            assert(i == k * ch) by (nonlinear_arith) requires i == (k - 1) * ch + ch, k >= 1;
        }
    }
    proof {
        let n = out@.len() as int;
        assert((len + ch - 1) / ch == n) by (nonlinear_arith)
            requires n * ch >= len, (n - 1) * ch < len, ch > 0, len > 0;
    }
    out
}

/// Whether every character of `s` is an ASCII decimal digit.
pub open spec fn all_decimal_digits(s: Seq<char>) -> bool {
    forall|i: int| 0 <= i < s.len() ==> 48 <= #[trigger] (s[i] as u32) <= 57
}

/// The value of a string of decimal digits.
pub open spec fn decimal_value(s: Seq<char>) -> int
    decreases s.len(),
{
    if s.len() == 0 {
        0
    } else {
        decimal_value(s.drop_last()) * 10 + ((s.last() as u32) - 48)
    }
}

/// A decimal `i16`: an optional `+` or `-` sign followed by at least one
/// ASCII decimal digit and nothing else, whose value lies in the range of
/// `i16`; `None` for any other text.
pub open spec fn decimal_i16(s: Seq<char>) -> Option<i16> {
    let neg = s.len() > 0 && s[0] == '-';
    let body = if s.len() > 0 && (s[0] == '-' || s[0] == '+') { s.drop_first() } else { s };
    let v = if neg { -decimal_value(body) } else { decimal_value(body) };
    if body.len() == 0 || !all_decimal_digits(body) || v < -32768 || v > 32767 {
        None
    } else {
        Some(v as i16)
    }
}

/// Reads one decimal sample with `i16::from_str_radix(s, 10)`. Its
/// documentation gives the rule that `decimal_i16` states: an optional sign,
/// then digits only, and an error for empty text, a lone sign, any other
/// character, or a value outside `i16`.
#[verifier::external_body]
fn parse_decimal_i16(s: &str) -> (r: Option<i16>)
    ensures
        r == decimal_i16(s@),
{
    match i16::from_str_radix(s, 10) {
        Ok(v) => Some(v),
        Err(_) => None,
    }
}

/// The samples that the lines hold, in order; a line that is not a decimal
/// `i16` contributes nothing.
pub open spec fn kept_samples(lines: Seq<Seq<char>>) -> Seq<i16>
    decreases lines.len(),
{
    if lines.len() == 0 {
        Seq::empty()
    } else {
        let prev = kept_samples(lines.drop_last());
        match decimal_i16(lines.last()) {
            Some(v) => prev.push(v),
            None => prev,
        }
    }
}

/// The text of each line.
pub open spec fn line_texts(lines: Seq<String>) -> Seq<Seq<char>> {
    Seq::new(lines.len(), |i: int| lines[i]@)
}

/// Parses one sample per line, skipping the lines that are not decimal
/// `i16` numbers.
pub fn samples_from_lines(lines: &Vec<String>) -> (r: Vec<i16>)
    ensures
        r@ == kept_samples(line_texts(lines@)),
{
    let mut out: Vec<i16> = Vec::new();
    let mut i: usize = 0;
    while i < lines.len()
        invariant
            i <= lines@.len(),
            out@ == kept_samples(line_texts(lines@.take(i as int))),
        decreases lines@.len() - i,
    {
        let o = parse_decimal_i16(lines[i].as_str());
        proof {
            let next = line_texts(lines@.take(i + 1));
            assert(next.drop_last() =~= line_texts(lines@.take(i as int)));
            assert(next.last() == lines@[i as int]@);
        }
        match o {
            Some(v) => out.push(v),
            None => {},
        }
        i = i + 1;
    }
    proof {
        assert(lines@.take(lines@.len() as int) =~= lines@);
    }
    out
}

} // verus!
