//! The message framing of the pairing protocol: what one device sends (its
//! recording, the encoded message masked with its audio key, and a digest)
//! and how the other device unpacks it and tests candidate keys.
use vstd::prelude::*;
use crate::outcome::Outcome;
use crate::poly::Poly;
use crate::rs::ReedSolomon;
use crate::bits::{digest_prefix, digest_matches, to_i16, to_upow, from_upow, align, bytes_to_samples, bytes_to_upow, upow_to_bytes,
    best_shift, min_len, usizes_to_bytes};
use crate::hash::{sha512, sha512_of, hash_symbols};

verus! {

/// The parameters of a pairing run.
pub struct Config {
    pub slice_size: usize,
    pub num_bands: usize,
    pub rec_frames: usize,
    pub pair_frames: usize,
    pub key_len: usize,
    pub slices: usize,
    pub send_len: usize,
    pub rs_n: usize,
    pub rs_k: usize,
    pub gf_pow: usize,
    pub gf_gen: usize,
    pub gf_prim: usize,
}

impl Config {
    /// Fills in the lengths that follow from the other parameters: the
    /// frames to record (the pairing head and the fingerprinted slices), the
    /// key length in bits (one bit per slice and adjacent band pair) and the
    /// length of a transmission (the head, the packed codeword and a 16-byte
    /// digest field).
    pub fn derive_lengths(&mut self)
        requires
            old(self).num_bands >= 1,
            old(self).pair_frames + old(self).slice_size * old(self).slices <= usize::MAX,
            old(self).slices * (old(self).num_bands - 1) <= usize::MAX,
            old(self).rs_n * old(self).gf_pow <= usize::MAX,
            old(self).pair_frames + old(self).rs_n * old(self).gf_pow / 8 + 16 <= usize::MAX,
        ensures
            final(self).rec_frames == old(self).pair_frames + old(self).slice_size * old(self).slices,
            final(self).key_len == old(self).slices * (old(self).num_bands - 1),
            final(self).send_len == old(self).pair_frames + old(self).rs_n * old(self).gf_pow / 8 + 16,
            final(self).slice_size == old(self).slice_size,
            final(self).num_bands == old(self).num_bands,
            final(self).pair_frames == old(self).pair_frames,
            final(self).slices == old(self).slices,
            final(self).rs_n == old(self).rs_n,
            final(self).rs_k == old(self).rs_k,
            final(self).gf_pow == old(self).gf_pow,
            final(self).gf_gen == old(self).gf_gen,
            final(self).gf_prim == old(self).gf_prim,
    {
        proof {
            let a = self.slice_size as int;
            let b = self.slices as int;
            let c = self.rs_n as int;
            let d = self.gf_pow as int;
            assert(a * b >= 0 && c * d >= 0) by (nonlinear_arith)
                requires a >= 0, b >= 0, c >= 0, d >= 0;
            assert(c * d / 8 <= c * d) by (nonlinear_arith)
                requires c * d >= 0;
        }
        self.rec_frames = self.pair_frames + self.slice_size * self.slices;
        self.key_len = self.slices * (self.num_bands - 1);
        self.send_len = self.pair_frames + self.rs_n * self.gf_pow / 8 + 16;
    }
}

/// The samples padded with zeros up to a multiple of `slice`.
pub open spec fn pad_to_slices(s: Seq<i16>, slice: nat) -> Seq<i16> {
    if s.len() % slice == 0 {
        s
    } else {
        s + Seq::new((slice - s.len() % slice) as nat, |i: int| 0i16)
    }
}

/// Splits a recording at `pair_frames` bytes: the head that is sent as it
/// is, and the rest as samples padded to whole slices for fingerprinting.
/// `None` where the split or the padding would panic.
pub fn split_recording(recorded: Vec<u8>, config: &Config) -> (r: Option<(Vec<u8>, Vec<i16>)>)
    ensures
        match r {
            Some((head, samples)) => {
                &&& config.pair_frames <= recorded@.len()
                &&& config.slice_size > 0
                &&& head@ == recorded@.subrange(0, config.pair_frames as int)
                &&& samples@ == pad_to_slices(
                    bytes_to_samples(recorded@.subrange(config.pair_frames as int, recorded@.len() as int)),
                    config.slice_size as nat)
            },
            None => config.pair_frames > recorded@.len() || config.slice_size == 0
                || bytes_to_samples(recorded@.subrange(config.pair_frames as int, recorded@.len() as int)).len()
                    + config.slice_size > usize::MAX,
        },
{
    if config.pair_frames > recorded.len() || config.slice_size == 0 {
        return None;
    }
    let mut head = recorded;
    let tail = head.split_off(config.pair_frames);
    let mut to_fp = to_i16(tail.as_slice());
    let len = to_fp.len();
    if len > usize::MAX - config.slice_size {
        return None;
    }
    if len % config.slice_size != 0 {
        let pad = config.slice_size - len % config.slice_size;
        let mut k: usize = 0;
        let ghost before = to_fp@;
        while k < pad
            invariant
                k <= pad,
                to_fp@ == before + Seq::new(k as nat, |i: int| 0i16),
            decreases pad - k,
        {
            to_fp.push(0);
            proof {
                assert(to_fp@ =~= before + Seq::new((k + 1) as nat, |i: int| 0i16));
            }
            k = k + 1;
        }
    }
    Some((head, to_fp))
}

/// The bytes `a` with their first bytes XORed with those of the key `key`.
pub open spec fn mask_with(a: Seq<u8>, key: Seq<u8>) -> Seq<u8> {
    Seq::new(a.len(), |i: int| if i < key.len() { a[i] ^ key[i] } else { a[i] })
}

/// What one device sends: its recording head, the encoded message packed
/// into bytes and masked with its key, and the digest of the unmasked bytes.
pub open spec fn sealed(head: Seq<u8>, packed: Seq<u8>, key: Seq<u8>) -> Seq<u8> {
    head + mask_with(packed, key) + sha512_of(packed)
}

/// Encodes the message, packs it into `pow`-bit symbols, masks it with the
/// key and appends it and the digest of the unmasked bytes to `head`.
pub fn seal_message(rs: &ReedSolomon, message: Vec<usize>, key: &[u8], head: Vec<u8>, pow: usize)
    -> (r: Result<Vec<u8>, &'static str>)
    requires
        rs.field.wf(),
        rs.encode_out(message@) != Outcome::<Seq<usize>>::Panics,
        pow < usize::BITS,
        rs.encode_out(message@) matches Outcome::Val(c) ==> c.len() * pow <= usize::MAX,
    ensures
        match rs.encode_out(message@) {
            Outcome::Val(c) => r matches Ok(v) && v@ == sealed(head@, upow_to_bytes(c, pow), key@)
                && v@.len() == head@.len() + (c.len() * pow) / 8 + 64,
            Outcome::Rejected(m) => r matches Err(e) && e == m,
            Outcome::Panics => false,
        },
{
    let encoded = match rs.encode(Poly { coeffs: message }) {
        Ok(p) => p,
        Err(e) => return Err(e),
    };
    let mut mess_poly = from_upow(encoded.coeffs, pow);
    let ghost packed = mess_poly@;
    let result = sha512(mess_poly.as_slice());
    let min = if mess_poly.len() < key.len() { mess_poly.len() } else { key.len() };
    let mut i: usize = 0;
    while i < min
        invariant
            min <= packed.len(),
            min <= key@.len(),
            min == packed.len() || min == key@.len(),
            i <= min,
            mess_poly@.len() == packed.len(),
            forall|j: int| 0 <= j < i ==> #[trigger] mess_poly@[j] == packed[j] ^ key@[j],
            forall|j: int| i <= j < packed.len() ==> #[trigger] mess_poly@[j] == packed[j],
        decreases min - i,
    {
        let v = mess_poly[i] ^ key[i];
        mess_poly.set(i, v);
        i = i + 1;
    }
    proof {
        assert(mess_poly@ =~= mask_with(packed, key@));
    }
    let mut out = head;
    let ghost h = out@;
    let mut k: usize = 0;
    while k < mess_poly.len()
        invariant
            k <= mess_poly@.len(),
            out@ == h + mess_poly@.subrange(0, k as int),
        decreases mess_poly@.len() - k,
    {
        out.push(mess_poly[k]);
        proof {
            assert(out@ =~= h + mess_poly@.subrange(0, k + 1));
        }
        k = k + 1;
    }
    let ghost h2 = out@;
    let mut k: usize = 0;
    while k < result.len()
        invariant
            k <= result@.len(),
            out@ == h2 + result@.subrange(0, k as int),
        decreases result@.len() - k,
    {
        out.push(result[k]);
        proof {
            assert(out@ =~= h2 + result@.subrange(0, k + 1));
        }
        k = k + 1;
    }
    proof {
        assert(mess_poly@.subrange(0, mess_poly@.len() as int) =~= mess_poly@);
        assert(result@.subrange(0, result@.len() as int) =~= result@);
    }
    Ok(out)
}

/// The number of attempts for `n` samples after the fingerprinted span
/// `span`: one per 441 extra samples, at most 200.
pub open spec fn attempts_for(n: nat, span: nat) -> nat {
    if n - span > 88200 { 200 } else { ((n - span) / 441) as nat }
}

/// Unpacks what the other device sent, against this device's recording
/// `data`: the alignment offset, this recording as samples, the masked
/// message as `gf_pow`-bit symbols, the digest, and the number of attempts.
/// `None` where unpacking would panic.
pub fn unpack_transmission(data: Vec<u8>, received: Vec<u8>, config: &Config)
    -> (r: Option<(usize, Vec<i16>, Vec<usize>, Vec<u8>, usize)>)
    ensures
        match r {
            Some((offset, samples, message, hash, attempts)) => {
                let body = received@.subrange(config.pair_frames as int, received@.len() - 16);
                let span = config.slices * config.slice_size;
                &&& 65025 * min_len(data@.len(), received@.len()) <= isize::MAX
                &&& config.pair_frames + 16 <= received@.len()
                &&& config.gf_pow > 0
                &&& span <= samples@.len()
                &&& offset == best_shift(data@, received@, min_len(data@.len(), received@.len()),
                    min_len(data@.len(), received@.len())).0 / 2
                &&& samples@ == bytes_to_samples(data@)
                &&& message@ == bytes_to_upow(body, config.gf_pow)
                &&& hash@ == received@.subrange(received@.len() - 16, received@.len() as int)
                &&& attempts == attempts_for(samples@.len(), span as nat)
            },
            None => {
                ||| 65025 * min_len(data@.len(), received@.len()) > isize::MAX
                ||| config.pair_frames + 16 > received@.len()
                ||| config.gf_pow == 0
                ||| (received@.len() - 16 - config.pair_frames) * 8 > usize::MAX
                ||| config.slices * config.slice_size > usize::MAX
                ||| config.slices * config.slice_size > bytes_to_samples(data@).len()
            },
        },
{
    if data.len() > 0 && received.len() > 0 {
        let m = if data.len() < received.len() { data.len() } else { received.len() };
        if m > (isize::MAX as usize) / 65025 {
            return None;
        }
    }
    let offset = align(&data, &received) / 2;
    let samples = to_i16(data.as_slice());
    if config.pair_frames > received.len() || received.len() - config.pair_frames < 16 {
        return None;
    }
    let mut head = received;
    let mut message = head.split_off(config.pair_frames);
    let hash = message.split_off(message.len() - 16);
    if config.gf_pow == 0 || message.len() > usize::MAX / 8 {
        return None;
    }
    let symbols = to_upow(message, config.gf_pow);
    if config.slice_size > 0 && config.slices > usize::MAX / config.slice_size {
        proof {
            let a = config.slices as int;
            let b = config.slice_size as int;
            let q = usize::MAX as int / b;
            assert(a * b > usize::MAX) by (nonlinear_arith)
                requires b > 0, a > q, q == usize::MAX as int / b, usize::MAX as int >= 0;
        }
        return None;
    }
    proof {
        let a = config.slices as int;
        let b = config.slice_size as int;
        if b > 0 {
            let q = usize::MAX as int / b;
            assert(a * b <= usize::MAX) by (nonlinear_arith)
                requires b > 0, a <= q, q == usize::MAX as int / b, usize::MAX as int >= 0;
        }
    }
    let span = config.slices * config.slice_size;
    if samples.len() < span {
        return None;
    }
    let attempts = if samples.len() - span > 88200 { 200 } else { (samples.len() - span) / 441 };
    proof {
        let body = received@.subrange(config.pair_frames as int, received@.len() - 16);
        assert(message@ =~= body);
        assert(hash@ =~= received@.subrange(received@.len() - 16, received@.len() as int));
        assert(symbols@ == bytes_to_upow(body, config.gf_pow));
        assert(samples@ == bytes_to_samples(data@));
        assert(attempts == attempts_for(samples@.len(), span as nat));
    }
    Some((offset, samples, symbols, hash, attempts))
}
/// The start of the samples fingerprinted in attempt `i`: 441 samples
/// further each attempt, from 8820 samples before the offset when the offset
/// is at least that.
pub open spec fn window_start(offset: nat, i: nat) -> int {
    if offset < 8820 { (i * 441) as int } else { offset - 8820 + i * 441 }
}

/// Law: attempt 0 starts 8820 samples before the offset (at 0 for a smaller
/// offset), and each attempt starts 441 samples after the one before.
pub proof fn law_windows_slide(offset: nat, i: nat)
    ensures
        window_start(offset, 0) == if offset >= 8820 { offset - 8820 } else { 0 },
        window_start(offset, i + 1) == window_start(offset, i) + 441,
        window_start(offset, i) == window_start(offset, 0) + 441 * i,
{
}

/// The samples `[start, end)` fingerprinted in attempt `i` over `n` samples;
/// `None` where that window would overflow or fall outside the samples.
pub fn attempt_window(offset: usize, i: usize, config: &Config, n: usize) -> (r: Option<(usize, usize)>)
    ensures
        match r {
            Some((s, e)) => {
                &&& s == window_start(offset as nat, i as nat)
                &&& s == (if offset >= 8820 { offset - 8820 } else { 0 }) + 441 * i
                &&& e == config.slices * config.slice_size + window_start(offset as nat, i as nat)
                &&& s <= e <= n
            },
            None => {
                ||| config.slices * config.slice_size + window_start(offset as nat, i as nat) > n
                ||| i * 441 > usize::MAX
                ||| config.slices * config.slice_size > usize::MAX
            },
        },
{
    if i > usize::MAX / 441 {
        return None;
    }
    let step = i * 441;
    if config.slice_size > 0 && config.slices > usize::MAX / config.slice_size {
        proof {
            let a = config.slices as int;
            let b = config.slice_size as int;
            let q = usize::MAX as int / b;
            assert(a * b > usize::MAX) by (nonlinear_arith)
                requires b > 0, a > q, q == usize::MAX as int / b, usize::MAX as int >= 0;
        }
        return None;
    }
    proof {
        let a = config.slices as int;
        let b = config.slice_size as int;
        if b > 0 {
            let q = usize::MAX as int / b;
            assert(a * b <= usize::MAX) by (nonlinear_arith)
                requires b > 0, a <= q, q == usize::MAX as int / b, usize::MAX as int >= 0;
        }
    }
    let span = config.slices * config.slice_size;
    let base = if offset < 8820 { 0 } else { offset - 8820 };
    if base > n || step > n - base {
        return None;
    }
    let start = base + step;
    if span > n - start {
        return None;
    }
    Some((start, span + start))
}

/// The candidate word of an attempt: the received symbols XORed with the
/// fingerprint symbols where both exist, the received symbols alone after
/// that, and the previous candidate's entries beyond them.
pub open spec fn unmask(test: Seq<usize>, message: Seq<usize>, fp: Seq<usize>) -> Seq<usize> {
    Seq::new(test.len(), |j: int|
        if j < message.len() && j < fp.len() { message[j] ^ fp[j] }
        else if j < message.len() { message[j] }
        else { test[j] })
}

/// Law: each position of the message is unmasked with the key symbol at
/// that position where the key has one, and kept as received where the key
/// is shorter; the positions past the message keep the previous candidate.
pub proof fn law_unmask_positions(test: Seq<usize>, message: Seq<usize>, fp: Seq<usize>)
    requires
        test.len() >= message.len(),
    ensures
        unmask(test, message, fp).len() == test.len(),
        forall|j: int| 0 <= j < message.len() && j < fp.len() ==> #[trigger] unmask(test, message, fp)[j] == message[j] ^ fp[j],
        forall|j: int| fp.len() <= j < message.len() ==> #[trigger] unmask(test, message, fp)[j] == message[j],
        forall|j: int| message.len() <= j < test.len() ==> #[trigger] unmask(test, message, fp)[j] == test[j],
{
}

/// The word `c` masked with the key `fp` on the positions where the key has
/// a symbol, as the sender transmits it.
pub open spec fn masked(c: Seq<usize>, fp: Seq<usize>) -> Seq<usize> {
    Seq::new(c.len(), |j: int| if j < fp.len() { c[j] ^ fp[j] } else { c[j] })
}

/// Law: unmasking a masked word with the same key gives the word back,
/// whatever the previous candidate of the same length held.
pub proof fn law_unmask_masked(test: Seq<usize>, c: Seq<usize>, fp: Seq<usize>)
    requires
        test.len() == c.len(),
    ensures
        unmask(test, masked(c, fp), fp) == c,
{
    let u = unmask(test, masked(c, fp), fp);
    assert forall|j: int| 0 <= j < c.len() implies u[j] == c[j] by {
        if j < fp.len() {
            crate::gfpoly::lemma_xor(c[j], fp[j], 0, 0);
        }
    }
    assert(u =~= c);
}

/// Law: an attempt with the key a codeword was masked with decodes to that
/// codeword.
pub proof fn law_attempt_recovers_codeword(rs: &ReedSolomon, pow: usize, prim: usize, test: Seq<usize>, c: Seq<usize>,
    fp: Seq<usize>)
    requires
        crate::poly_laws::is_field(&rs.field, pow, prim),
        rs.field.generator < rs.field.size(),
        rs.k < rs.n,
        crate::poly_laws::elements(c, rs.field.size()),
        c.len() > 0,
        test.len() == c.len(),
        forall|i: nat| 1 <= i <= rs.n - rs.k ==> #[trigger] rs.field.peval(c, rs.field.fpow(rs.field.generator, i), c.len()) == 0,
    ensures
        rs.decode_out(unmask(test, masked(c, fp), fp)) == Outcome::Val(c),
{
    law_unmask_masked(test, c, fp);
    crate::rs_laws::law_decode_codeword(rs, pow, prim, c);
}

fn unmask_exec(test: Vec<usize>, message: &Vec<usize>, fp: &Vec<usize>) -> (r: Vec<usize>)
    requires
        test@.len() >= message@.len(),
    ensures
        r@ == unmask(test@, message@, fp@),
        r@.len() == test@.len(),
        forall|j: int| 0 <= j < message@.len() && j < fp@.len() ==> #[trigger] r@[j] == message@[j] ^ fp@[j],
        forall|j: int| fp@.len() <= j < message@.len() ==> #[trigger] r@[j] == message@[j],
        forall|j: int| message@.len() <= j < test@.len() ==> #[trigger] r@[j] == test@[j],
{
    let ghost t0 = test@;
    let mut test = test;
    let min = if message.len() < fp.len() { message.len() } else { fp.len() };
    let mut j: usize = 0;
    while j < min
        invariant
            min <= message@.len(),
            min <= fp@.len(),
            min == message@.len() || min == fp@.len(),
            message@.len() <= t0.len(),
            test@.len() == t0.len(),
            j <= min,
            forall|k: int| 0 <= k < j ==> #[trigger] test@[k] == message@[k] ^ fp@[k],
            forall|k: int| j <= k < t0.len() ==> #[trigger] test@[k] == t0[k],
        decreases min - j,
    {
        let v = message[j] ^ fp[j];
        test.set(j, v);
        j = j + 1;
    }
    let mut j: usize = min;
    while j < message.len()
        invariant
            min <= message@.len(),
            min <= fp@.len(),
            min == message@.len() || min == fp@.len(),
            message@.len() <= t0.len(),
            test@.len() == t0.len(),
            min <= j <= message@.len(),
            forall|k: int| 0 <= k < min ==> #[trigger] test@[k] == message@[k] ^ fp@[k],
            forall|k: int| min <= k < j ==> #[trigger] test@[k] == message@[k],
            forall|k: int| j <= k < t0.len() ==> #[trigger] test@[k] == t0[k],
        decreases message@.len() - j,
    {
        let v = message[j];
        test.set(j, v);
        j = j + 1;
    }
    proof {
        assert(test@ =~= unmask(t0, message@, fp@));
        law_unmask_positions(t0, message@, fp@);
    }
    test
}

/// One attempt to recover the message with a candidate key: unmask, decode,
/// and the digest of the decoded symbols (to compare with the one sent).
pub fn message_attempt(rs: &ReedSolomon, message: &Vec<usize>, fp: &Vec<usize>, test: Vec<usize>)
    -> (r: Result<(Vec<usize>, Vec<u8>), &'static str>)
    requires
        rs.field.wf(),
        test@.len() >= message@.len(),
        rs.decode_out(unmask(test@, message@, fp@)) != Outcome::<Seq<usize>>::Panics,
    ensures
        match rs.decode_out(unmask(test@, message@, fp@)) {
            Outcome::Val(d) => r matches Ok((w, h)) && w@ == d && h@ == sha512_of(usizes_to_bytes(d)),
            Outcome::Rejected(m) => r matches Err(e) && e == m,
            Outcome::Panics => false,
        },
{
    let t = unmask_exec(test, message, fp);
    let decoded = match rs.decode(Poly { coeffs: t }) {
        Ok(p) => p,
        Err(e) => return Err(e),
    };
    let h = hash_symbols(decoded.coeffs.as_slice());
    Ok((decoded.coeffs, h))
}

/// One pairing attempt with a candidate key: unmask and decode, then the
/// syndromes of the decoded word and whether they are all zero (a codeword).
pub fn pair_attempt(rs: &ReedSolomon, message: &Vec<usize>, fp: &Vec<usize>, test: Vec<usize>)
    -> (r: Result<(Vec<usize>, Vec<usize>, bool), &'static str>)
    requires
        rs.field.wf(),
        test@.len() >= message@.len(),
        rs.decode_out(unmask(test@, message@, fp@)) != Outcome::<Seq<usize>>::Panics,
        rs.decode_out(unmask(test@, message@, fp@)) matches Outcome::Val(d)
            ==> rs.synd_out(d) != Outcome::<Seq<usize>>::Panics,
    ensures
        match rs.decode_out(unmask(test@, message@, fp@)) {
            Outcome::Val(d) => r matches Ok((w, s, z)) && w@ == d
                && rs.synd_out(d) == Outcome::Val(s@)
                && z == (forall|j: int| 0 <= j < s@.len() ==> s@[j] == 0),
            Outcome::Rejected(m) => r matches Err(e) && e == m,
            Outcome::Panics => false,
        },
{
    let t = unmask_exec(test, message, fp);
    let decoded = match rs.decode(Poly { coeffs: t }) {
        Ok(p) => p,
        Err(e) => return Err(e),
    };
    let s = rs.syndrome_components(&decoded);
    let mut all_zero = true;
    let mut j: usize = 0;
    while j < s.len()
        invariant
            j <= s@.len(),
            all_zero == (forall|k: int| 0 <= k < j ==> s@[k] == 0),
        decreases s@.len() - j,
    {
        if s[j] != 0 {
            all_zero = false;
        }
        j = j + 1;
    }
    Ok((decoded.coeffs, s, all_zero))
}
/// Whether every entry of `s` is zero.
pub open spec fn all_zero_seq(s: Seq<usize>) -> bool {
    forall|j: int| 0 <= j < s.len() ==> s[j] == 0
}

/// What one attempt decides: the result to return, or the word to carry
/// into the next attempt.
pub enum Attempt {
    Found(Vec<usize>),
    Next(Vec<usize>),
}

/// One step of message recovery: decode with the candidate key; the decoded
/// symbols are the message when the hash field sent with it leads their
/// digest, and otherwise they are carried into the next attempt.
pub fn message_step(rs: &ReedSolomon, message: &Vec<usize>, fp: &Vec<usize>, test: Vec<usize>, hash: &[u8])
    -> (r: Result<Attempt, &'static str>)
    requires
        rs.field.wf(),
        test@.len() >= message@.len(),
        rs.decode_out(unmask(test@, message@, fp@)) != Outcome::<Seq<usize>>::Panics,
    ensures
        match rs.decode_out(unmask(test@, message@, fp@)) {
            Outcome::Val(d) => r matches Ok(a) && (if digest_prefix(sha512_of(usizes_to_bytes(d)), hash@) {
                a matches Attempt::Found(w) && w@ == d
            } else {
                a matches Attempt::Next(w) && w@ == d
            }),
            Outcome::Rejected(m) => r matches Err(e) && e == m,
            Outcome::Panics => false,
        },
{
    match message_attempt(rs, message, fp, test) {
        Ok((decoded, digest)) => {
            if digest_matches(digest.as_slice(), hash) {
                Ok(Attempt::Found(decoded))
            } else {
                Ok(Attempt::Next(decoded))
            }
        },
        Err(e) => Err(e),
    }
}

/// One step of pairing: decode with the candidate key; when the decoded word
/// is a codeword its (zero) syndromes are the result, and otherwise the word
/// is carried into the next attempt.
pub fn pair_step(rs: &ReedSolomon, message: &Vec<usize>, fp: &Vec<usize>, test: Vec<usize>)
    -> (r: Result<Attempt, &'static str>)
    requires
        rs.field.wf(),
        test@.len() >= message@.len(),
        rs.decode_out(unmask(test@, message@, fp@)) != Outcome::<Seq<usize>>::Panics,
        rs.decode_out(unmask(test@, message@, fp@)) matches Outcome::Val(d)
            ==> rs.synd_out(d) != Outcome::<Seq<usize>>::Panics,
    ensures
        match rs.decode_out(unmask(test@, message@, fp@)) {
            Outcome::Val(d) => r matches Ok(a) && rs.synd_out(d) matches Outcome::Val(s)
                && (if all_zero_seq(s) {
                    a matches Attempt::Found(w) && w@ == s
                } else {
                    a matches Attempt::Next(w) && w@ == d
                }),
            Outcome::Rejected(m) => r matches Err(e) && e == m,
            Outcome::Panics => false,
        },
{
    match pair_attempt(rs, message, fp, test) {
        Ok((decoded, syndromes, all_zero)) => {
            assert(all_zero == all_zero_seq(syndromes@));
            if all_zero {
                Ok(Attempt::Found(syndromes))
            } else {
                Ok(Attempt::Next(decoded))
            }
        },
        Err(e) => Err(e),
    }
}

} // verus!
