//! The files the game writes besides its settings: sound effects as WAV
//! (16-bit mono PCM) and replays as animated GIF (216-color web palette,
//! LZW-compressed frames).
use vstd::prelude::*;
use vstd::arithmetic::power2::{lemma2_to64, lemma_pow2_adds, lemma_pow2_pos, pow2};
use std::collections::HashMap;

verus! {

broadcast use vstd::std_specs::hash::group_hash_axioms;

/// Sample rate of the sound effects.
pub const SND_RATE: u32 = 44_100;

/// `x` as two little-endian bytes.
pub open spec fn le16(x: u16) -> Seq<u8> {
    seq![(x % 256) as u8, (x / 256) as u8]
}

/// `x` as four little-endian bytes.
pub open spec fn le32(x: u32) -> Seq<u8> {
    seq![(x % 256) as u8, ((x / 256) % 256) as u8, ((x / 65536) % 256) as u8, (x / 16777216) as u8]
}

fn push_le16(out: &mut Vec<u8>, x: u16)
    ensures
        final(out)@ == old(out)@ + le16(x),
{
    out.push((x % 256) as u8);
    out.push((x / 256) as u8);
    proof {
        assert(final(out)@ =~= old(out)@ + le16(x));
    }
}

fn push_le32(out: &mut Vec<u8>, x: u32)
    ensures
        final(out)@ == old(out)@ + le32(x),
{
    out.push((x % 256) as u8);
    out.push(((x / 256) % 256) as u8);
    out.push(((x / 65536) % 256) as u8);
    out.push((x / 16777216) as u8);
    proof {
        assert(final(out)@ =~= old(out)@ + le32(x));
    }
}

fn push_all(out: &mut Vec<u8>, bytes: &[u8])
    ensures
        final(out)@ == old(out)@ + bytes@,
{
    let ghost o = out@;
    let mut i: usize = 0;
    while i < bytes.len()
        invariant
            i <= bytes@.len(),
            out@ == o + bytes@.take(i as int),
        decreases bytes@.len() - i,
    {
        out.push(bytes[i]);
        i = i + 1;
        proof {
            assert(bytes@.take(i as int) =~= bytes@.take(i - 1).push(bytes@[i - 1]));
        }
    }
    proof {
        assert(bytes@.take(bytes@.len() as int) =~= bytes@);
    }
}

/// The 44-byte header of a WAV file holding `n` 16-bit mono samples at `SND_RATE`.
pub open spec fn wav_header(n: nat) -> Seq<u8> {
    seq![0x52u8, 0x49, 0x46, 0x46] + le32((36 + 2 * n) as u32) + seq![0x57u8, 0x41, 0x56, 0x45, 0x66, 0x6d, 0x74, 0x20]
        + le32(16) + le16(1) + le16(1) + le32(SND_RATE) + le32((SND_RATE * 2) as u32) + le16(2) + le16(16) + seq![
        0x64u8,
        0x61,
        0x74,
        0x61,
    ] + le32((2 * n) as u32)
}

/// The samples, each as two little-endian bytes (two's complement).
pub open spec fn pcm_bytes(samples: Seq<i16>) -> Seq<u8>
    decreases samples.len(),
{
    if samples.len() == 0 {
        Seq::empty()
    } else {
        pcm_bytes(samples.drop_last()) + le16(samples.last() as u16)
    }
}

/// A WAV file of 16-bit mono samples at `SND_RATE` (the front end turns
/// its synthesized waves into samples first).
pub fn wav_bytes(samples: &Vec<i16>) -> (d: Vec<u8>)
    requires
        36 + 2 * samples@.len() <= u32::MAX,
    ensures
        d@ == wav_header(samples@.len()) + pcm_bytes(samples@),
{
    let n: u32 = samples.len() as u32 * 2;
    let mut d: Vec<u8> = Vec::new();
    push_all(&mut d, &[0x52u8, 0x49, 0x46, 0x46]);
    push_le32(&mut d, 36 + n);
    push_all(&mut d, &[0x57u8, 0x41, 0x56, 0x45, 0x66, 0x6d, 0x74, 0x20]);
    push_le32(&mut d, 16);
    push_le16(&mut d, 1);
    push_le16(&mut d, 1);
    push_le32(&mut d, SND_RATE);
    push_le32(&mut d, SND_RATE * 2);
    push_le16(&mut d, 2);
    push_le16(&mut d, 16);
    push_all(&mut d, &[0x64u8, 0x61, 0x74, 0x61]);
    push_le32(&mut d, n);
    let ghost head = d@;
    proof {
        assert(head =~= wav_header(samples@.len()));
    }
    let mut i: usize = 0;
    while i < samples.len()
        invariant
            i <= samples@.len(),
            d@ == head + pcm_bytes(samples@.take(i as int)),
        decreases samples@.len() - i,
    {
        push_le16(&mut d, samples[i] as u16);
        proof {
            assert(samples@.take(i + 1).drop_last() =~= samples@.take(i as int));
            assert(samples@.take(i + 1).last() == samples@[i as int]);
            assert(d@ =~= head + pcm_bytes(samples@.take(i + 1)));
        }
        i = i + 1;
    }
    proof {
        assert(samples@.take(samples@.len() as int) =~= samples@);
    }
    d
}

/// A color channel's step `0..=5` on the web cube (rounded to the nearest).
pub open spec fn cube_level(x: u8) -> nat {
    ((x * 5 + 127) / 255) as nat
}

/// The web-cube color nearest to `(r, g, b)`, as a palette index `0..216`.
pub open spec fn web_color(r: u8, g: u8, b: u8) -> u8 {
    (cube_level(r) * 36 + cube_level(g) * 6 + cube_level(b)) as u8
}

/// Maps an RGBA image (`width * height` pixels, four bytes each, row by row)
/// to palette indices of the 216-color web cube, one per pixel.
pub fn quantize(bytes: &Vec<u8>, width: usize, height: usize) -> (out: Vec<u8>)
    requires
        width * height * 4 <= bytes@.len(),
    ensures
        out@.len() == width * height,
        forall|p: int|
            0 <= p < width * height ==> #[trigger] out@[p] == web_color(
                bytes@[4 * p],
                bytes@[4 * p + 1],
                bytes@[4 * p + 2],
            ),
{
    let len = bytes.len();
    proof {
        assert(width * height <= len) by (nonlinear_arith)
            requires
                width * height * 4 <= len,
        ;
    }
    let n = width * height;
    let mut out: Vec<u8> = Vec::new();
    let mut p: usize = 0;
    while p < n
        invariant
            n == width * height,
            n * 4 <= bytes@.len(),
            len == bytes@.len(),
            p <= n,
            out@.len() == p,
            forall|q: int|
                0 <= q < p ==> #[trigger] out@[q] == web_color(bytes@[4 * q], bytes@[4 * q + 1], bytes@[4 * q + 2]),
        decreases n - p,
    {
        let i = p * 4;
        let r = bytes[i] as usize;
        let g = bytes[i + 1] as usize;
        let b = bytes[i + 2] as usize;
        let c = ((r * 5 + 127) / 255 * 36 + (g * 5 + 127) / 255 * 6 + (b * 5 + 127) / 255) as u8;
        out.push(c);
        p = p + 1;
    }
    out
}


/// Total width in bits of a run of codes.
pub open spec fn bit_len(codes: Seq<(u16, u32)>) -> nat
    decreases codes.len(),
{
    if codes.len() == 0 {
        0
    } else {
        bit_len(codes.drop_last()) + codes.last().1 as nat
    }
}

/// The codes laid end to end, least significant bit first, read as one
/// number: each code `(c, w)` takes the next `w` bits.
pub open spec fn packed(codes: Seq<(u16, u32)>) -> nat
    decreases codes.len(),
{
    if codes.len() == 0 {
        0
    } else {
        packed(codes.drop_last()) + codes.last().0 as nat * pow2(bit_len(codes.drop_last()))
    }
}

/// Every code fits its width.
pub open spec fn codes_fit(codes: Seq<(u16, u32)>) -> bool {
    forall|i: int| 0 <= i < codes.len() ==> (#[trigger] codes[i]).0 < pow2(codes[i].1 as nat)
}

/// Bytes read as a little-endian number.
pub open spec fn le_value(bytes: Seq<u8>) -> nat
    decreases bytes.len(),
{
    if bytes.len() == 0 {
        0
    } else {
        le_value(bytes.drop_last()) + bytes.last() as nat * pow2((8 * (bytes.len() - 1)) as nat)
    }
}

/// Writes codes of varying width into bytes, least significant bit first.
pub struct BitWriter {
    pub out: Vec<u8>,
    /// bits not yet written out, lowest first
    pub cur: u32,
    pub nbits: u32,
    /// the codes written so far
    pub written: Ghost<Seq<(u16, u32)>>,
}

impl BitWriter {
    /// The writer has written `codes`: its full bytes and pending bits
    /// together are the codes packed, and fewer than a byte is pending.
    pub open spec fn wf(&self) -> bool {
        let codes = self.written@;
        &&& self.nbits < 8
        &&& self.cur < pow2(self.nbits as nat)
        &&& 8 * self.out@.len() + self.nbits == bit_len(codes)
        &&& le_value(self.out@) + self.cur * pow2(8 * self.out@.len()) == packed(codes)
        &&& codes_fit(codes)
    }

    pub fn new() -> (w: BitWriter)
        ensures
            w.wf(),
            w.written@ == Seq::<(u16, u32)>::empty(),
            w.out@.len() == 0,
    {
        proof {
            lemma2_to64();
        }
        BitWriter { out: Vec::new(), cur: 0, nbits: 0, written: Ghost(Seq::empty()) }
    }

    /// Appends a code `size` bits wide.
    pub fn put(&mut self, code: u16, size: u32)
        requires
            old(self).wf(),
            size <= 12,
            code < pow2(size as nat),
        ensures
            final(self).wf(),
            final(self).written@ == old(self).written@.push((code, size)),
            final(self).out@.len() >= old(self).out@.len(),
            final(self).out@.take(old(self).out@.len() as int) == old(self).out@,
    {
        proof {
            lemma2_to64();
            lemma_pow2_adds(self.nbits as nat, size as nat);
            lemma_pow2_pos(self.nbits as nat);
            lemma_pow2_pos(size as nat);
            let x = self.cur as int;
            let c = code as int;
            let pn = pow2(self.nbits as nat) as int;
            let ps = pow2(size as nat) as int;
            assert(pn * (c + 1) <= pn * ps) by (nonlinear_arith)
                requires
                    c + 1 <= ps,
                    pn >= 0,
            ;
            assert(x + c * pn < pn * ps) by (nonlinear_arith)
                requires
                    x < pn,
                    pn * (c + 1) <= pn * ps,
            ;
            assert(pow2(19) == 0x80000);
            if self.nbits + size < 19 {
                vstd::arithmetic::power2::lemma_pow2_strictly_increases((self.nbits + size) as nat, 19);
            }
            vstd::bits::lemma_u32_shl_is_mul(code as u32, self.nbits);
            vstd::bits::lemma_u32_shl_is_mul(1u32, self.nbits);
        }
        let ghost old_out = self.out@;
        let ghost codes = self.written@;
        let shifted: u32 = (code as u32) << self.nbits;
        let cur = self.cur;
        let nb = self.nbits;
        assert((cur | shifted) == cur + shifted) by (bit_vector)
            requires
                cur < (1u32 << nb),
                nb < 8,
                shifted == (code as u32) << nb,
                code < 4096,
        ;
        self.cur = self.cur | shifted;
        self.nbits = self.nbits + size;
        self.written = Ghost(codes.push((code, size)));
        proof {
            let e = 8 * self.out@.len();
            assert(self.cur * pow2(e as nat) == cur * pow2(e as nat) + code * pow2((bit_len(codes)) as nat)) by {
                lemma_pow2_adds(nb as nat, e as nat);
                assert((cur + code * pow2(nb as nat)) * pow2(e as nat) == cur * pow2(e as nat) + code * (pow2(
                    nb as nat,
                ) * pow2(e as nat))) by (nonlinear_arith);
            }
            assert(codes.push((code, size)).drop_last() =~= codes);
        }
        while self.nbits >= 8
            invariant
                self.written@ == codes.push((code, size)),
                self.nbits < 20,
                self.cur < pow2(self.nbits as nat),
                8 * self.out@.len() + self.nbits == bit_len(codes.push((code, size))),
                le_value(self.out@) + self.cur * pow2(8 * self.out@.len()) == packed(codes.push((code, size))),
                self.out@.len() >= old_out.len(),
                self.out@.take(old_out.len() as int) == old_out,
            decreases self.nbits,
        {
            let c = self.cur;
            assert((c & 0xFF) == c % 256) by (bit_vector);
            assert((c >> 8) == c / 256) by (bit_vector);
            let b: u8 = (c & 0xFF) as u8;
            let ghost l = self.out@.len();
            let ghost o = self.out@;
            self.out.push(b);
            self.cur = c >> 8;
            self.nbits = self.nbits - 8;
            proof {
                lemma2_to64();
                lemma_pow2_adds(8, (8 * l) as nat);
                lemma_pow2_adds(self.nbits as nat, 8);
                assert(self.out@.drop_last() =~= o);
                assert(le_value(self.out@) == le_value(o) + b * pow2((8 * l) as nat));
                let p = pow2((8 * l) as nat) as int;
                assert(b * p + (c / 256) * (256 * p) == c * p) by (nonlinear_arith)
                    requires
                        b == c % 256,
                ;
                assert(pow2((8 * (l + 1)) as nat) == 256 * p);
                assert(c / 256 < pow2(self.nbits as nat)) by (nonlinear_arith)
                    requires
                        c < pow2(self.nbits as nat) * 256,
                ;
                assert(self.out@.take(old_out.len() as int) =~= o.take(old_out.len() as int));
            }
        }
    }

    /// Writes out the last, partly filled byte, if any.
    pub fn finish(self) -> (out: Vec<u8>)
        requires
            self.wf(),
        ensures
            out@.len() == (bit_len(self.written@) + 7) / 8,
            le_value(out@) == packed(self.written@),
    {
        let mut out = self.out;
        proof {
            lemma2_to64();
        }
        if self.nbits > 0 {
            let c = self.cur;
            proof {
                lemma2_to64();
                if self.nbits < 8 {
                    vstd::arithmetic::power2::lemma_pow2_strictly_increases(self.nbits as nat, 8);
                }
            }
            assert((c & 0xFF) == c % 256) by (bit_vector);
            let ghost o = out@;
            out.push((c & 0xFF) as u8);
            proof {
                assert(out@.drop_last() =~= o);
                assert(out@.last() == c);
                assert(le_value(out@) == le_value(o) + c * pow2((8 * o.len()) as nat));
            }
        } else {
            proof {
                assert(self.cur == 0);
                assert(self.cur * pow2(8 * out@.len()) == 0);
            }
        }
        out
    }
}


/// The LZW clear code (8-bit minimum code size).
pub const LZW_CLEAR: u16 = 256;

/// The LZW end-of-information code.
pub const LZW_END: u16 = 257;

/// An LZW coder's state: the table of known strings (a string is keyed by
/// its prefix's code times 256 plus its last byte), the code of the string
/// read so far, the code width, the next free code, and the codes written.
pub type LzwState = (Map<u32, u16>, u16, u32, u16, Seq<(u16, u32)>);

pub open spec fn table_key(cur: u16, px: u8) -> u32 {
    (cur * 256 + px) as u32
}

/// The code width after assigning code `next` at width `size`: it grows
/// when `next` needs one more bit, up to twelve bits.
pub open spec fn grown(next: u16, size: u32) -> u32 {
    if next as nat == pow2(size as nat) && size < 12 {
        (size + 1) as u32
    } else {
        size
    }
}

/// The coder after the first byte: a clear code written at 9 bits.
pub open spec fn lzw_start(first: u8) -> LzwState {
    (Map::empty(), first as u16, 9, 258, seq![(LZW_CLEAR, 9u32)])
}

/// One more byte: a known longer string just extends the current one;
/// otherwise the current code is written, the width grows if due, and the
/// new string is added to the table, or, when the table is full, a clear
/// code is written and the table starts afresh.
pub open spec fn lzw_step(st: LzwState, px: u8) -> LzwState {
    let k = table_key(st.1, px);
    if st.0.contains_key(k) {
        (st.0, st.0[k], st.2, st.3, st.4)
    } else {
        let codes = st.4.push((st.1, st.2));
        let size = grown(st.3, st.2);
        if st.3 == 4096 {
            (Map::empty(), px as u16, 9, 258, codes.push((LZW_CLEAR, size)))
        } else {
            (st.0.insert(k, st.3), px as u16, size, (st.3 + 1) as u16, codes)
        }
    }
}

/// The coder after the first `k` bytes of `data`.
pub open spec fn lzw_run(data: Seq<u8>, k: int) -> LzwState
    decreases k,
{
    if k <= 1 {
        lzw_start(data[0])
    } else {
        lzw_step(lzw_run(data, k - 1), data[k - 1])
    }
}

/// The codes GIF's LZW (8-bit minimum code size) writes for `data`: those
/// of the run, the last string's code, and the end code.
pub open spec fn lzw_codes(data: Seq<u8>) -> Seq<(u16, u32)> {
    let st = lzw_run(data, data.len() as int);
    st.4.push((st.1, st.2)).push((LZW_END, grown(st.3, st.2)))
}

/// A GIF LZW decoder's state: the strings of the codes from 258 on, the
/// string of the code read last (empty right after a clear code), the next
/// free code, the bytes written so far, and whether the end code was read.
pub type LzwDecoder = (Map<u16, Seq<u8>>, Seq<u8>, u16, Seq<u8>, bool);

/// The decoder at the start of a stream.
pub open spec fn lzw_decoder_start() -> LzwDecoder {
    (Map::empty(), Seq::empty(), 258, Seq::empty(), false)
}

/// The standard GIF LZW decoder (8-bit minimum code size) reading code `c`:
/// a clear code empties the table, the end code stops, a byte code or a
/// known code writes its string, and the code about to be defined writes
/// the last string followed by its own first byte; after the first code
/// since a clear, each code defines the next free one (up to 4095) as the
/// last string followed by the first byte of this one.
pub open spec fn lzw_decode_step(ds: LzwDecoder, c: u16) -> LzwDecoder {
    if ds.4 {
        ds
    } else if c == LZW_CLEAR {
        (Map::empty(), Seq::empty(), 258, ds.3, false)
    } else if c == LZW_END {
        (ds.0, ds.1, ds.2, ds.3, true)
    } else {
        let s = if c < 256 {
            seq![c as u8]
        } else if ds.0.contains_key(c) {
            ds.0[c]
        } else {
            ds.1.push(ds.1[0])
        };
        let add = ds.1.len() > 0 && ds.2 < 4096;
        (
            if add {
                ds.0.insert(ds.2, ds.1.push(s[0]))
            } else {
                ds.0
            },
            s,
            if add {
                (ds.2 + 1) as u16
            } else {
                ds.2
            },
            ds.3 + s,
            false,
        )
    }
}

/// The decoder after reading `codes` (their widths only frame them).
pub open spec fn lzw_decode_run(codes: Seq<(u16, u32)>) -> LzwDecoder
    decreases codes.len(),
{
    if codes.len() == 0 {
        lzw_decoder_start()
    } else {
        lzw_decode_step(lzw_decode_run(codes.drop_last()), codes.last().0)
    }
}

/// The bytes a GIF LZW decoder writes for `codes`.
pub open spec fn lzw_decoded(codes: Seq<(u16, u32)>) -> Seq<u8> {
    lzw_decode_run(codes).3
}

/// The string of code `c` given the strings of the codes from 258 on.
pub open spec fn code_string(strs: Map<u16, Seq<u8>>, c: u16) -> Seq<u8> {
    if c < 256 {
        seq![c as u8]
    } else {
        strs[c]
    }
}

/// Alongside the coder after `k` bytes: the strings its codes from 258 on
/// stand for, and where the string read so far starts in `data`.
pub open spec fn lzw_strings(data: Seq<u8>, k: int) -> (Map<u16, Seq<u8>>, int)
    decreases k,
{
    if k <= 1 {
        (Map::empty(), 0)
    } else {
        let st = lzw_run(data, k - 1);
        let prev = lzw_strings(data, k - 1);
        let px = data[k - 1];
        if st.0.contains_key(table_key(st.1, px)) {
            prev
        } else if st.3 == 4096 {
            (Map::empty(), k - 1)
        } else {
            (prev.0.insert(st.3, data.subrange(prev.1, k)), k - 1)
        }
    }
}

/// How the coder after `k` bytes, its strings, and a decoder that read the
/// codes written so far agree.
pub open spec fn lzw_in_step(data: Seq<u8>, k: int) -> bool {
    let st = lzw_run(data, k);
    let strs = lzw_strings(data, k).0;
    let b = lzw_strings(data, k).1;
    let ds = lzw_decode_run(st.4);
    &&& 0 <= b < k
    &&& 258 <= st.3 <= 4096
    &&& st.1 < 256 || (258 <= st.1 < st.3)
    &&& forall|c: u16| #[trigger] strs.contains_key(c) <==> 258 <= c < st.3
    &&& code_string(strs, st.1) == data.subrange(b, k)
    &&& forall|c: u16, x: u8|
        #[trigger] st.0.contains_key(table_key(c, x)) ==> {
            &&& (c < 256 || (258 <= c < st.3))
            &&& 258 <= st.0[table_key(c, x)] < st.3
            &&& strs[st.0[table_key(c, x)]] == code_string(strs, c).push(x)
        }
    &&& !ds.4
    &&& ds.3 == data.subrange(0, b)
    &&& ds.1.len() == 0 ==> st.3 == 258 && ds.0 == Map::<u16, Seq<u8>>::empty() && ds.2 == 258
    &&& ds.1.len() > 0 ==> {
        &&& st.3 >= 259
        &&& ds.2 == st.3 - 1
        &&& ds.0 == strs.remove((st.3 - 1) as u16)
        &&& strs[(st.3 - 1) as u16] == ds.1.push(data[b])
    }
}

proof fn lemma_key_injective(c1: u16, x1: u8, c2: u16, x2: u8)
    requires
        table_key(c1, x1) == table_key(c2, x2),
    ensures
        c1 == c2 && x1 == x2,
{
    assert(c1 * 256 + x1 == c2 * 256 + x2) by (nonlinear_arith)
        requires
            ((c1 * 256 + x1) as u32) == ((c2 * 256 + x2) as u32),
            c1 < 65536,
            c2 < 65536,
            x1 < 256,
            x2 < 256,
    ;
    assert(c1 == c2 && x1 == x2) by (nonlinear_arith)
        requires
            c1 * 256 + x1 == c2 * 256 + x2,
            x1 < 256,
            x2 < 256,
            x1 >= 0,
            x2 >= 0,
    ;
}

proof fn lemma_decode_push(codes: Seq<(u16, u32)>, x: (u16, u32))
    ensures
        lzw_decode_run(codes.push(x)) == lzw_decode_step(lzw_decode_run(codes), x.0),
{
    assert(codes.push(x).drop_last() =~= codes);
}

proof fn lemma_lzw_in_step(data: Seq<u8>, k: int)
    requires
        1 <= k <= data.len(),
    ensures
        lzw_in_step(data, k),
    decreases k,
{
    if k == 1 {
        let st = lzw_run(data, 1);
        lemma_decode_push(Seq::empty(), (LZW_CLEAR, 9u32));
        assert(seq![(LZW_CLEAR, 9u32)] =~= Seq::<(u16, u32)>::empty().push((LZW_CLEAR, 9u32)));
        assert(code_string(Map::empty(), st.1) =~= data.subrange(0, 1));
        assert(lzw_decode_run(st.4).3 =~= data.subrange(0, 0));
    } else {
        lemma_lzw_in_step(data, k - 1);
        let st = lzw_run(data, k - 1);
        let strs = lzw_strings(data, k - 1).0;
        let b = lzw_strings(data, k - 1).1;
        let ds = lzw_decode_run(st.4);
        let px = data[k - 1];
        let key = table_key(st.1, px);
        let st2 = lzw_run(data, k);
        let strs2 = lzw_strings(data, k).0;
        let b2 = lzw_strings(data, k).1;
        assert(st2 == lzw_step(st, px));
        let cur_s = data.subrange(b, k - 1);
        if st.0.contains_key(key) {
            assert(strs2 == strs && b2 == b);
            assert(code_string(strs, st2.1) == code_string(strs, st.1).push(px));
            assert(code_string(strs, st2.1) =~= data.subrange(b, k));
        } else {
            // the decoder reads the code of the string so far
            let c = st.1;
            let ds1 = lzw_decode_step(ds, c);
            lemma_decode_push(st.4, (c, st.2));
            let s = if c < 256 {
                seq![c as u8]
            } else if ds.0.contains_key(c) {
                ds.0[c]
            } else {
                ds.1.push(ds.1[0])
            };
            assert(c != LZW_CLEAR && c != LZW_END);
            if c >= 256 && !ds.0.contains_key(c) {
                assert(strs.contains_key(c));
                assert(ds.1.len() > 0);
                assert(c == (st.3 - 1) as u16);
                assert(strs[c] == ds.1.push(data[b]));
                assert(strs[c] =~= cur_s);
                assert(cur_s[0] == data[b]);
                assert(ds.1.push(data[b])[0] == ds.1[0]);
            }
            assert(s =~= code_string(strs, c));
            assert(s =~= cur_s);
            assert(s.len() >= 1 && s[0] == data[b]);
            assert(ds1.3 =~= data.subrange(0, k - 1));
            assert(ds1.1 == cur_s);
            if ds.1.len() > 0 {
                assert(strs.contains_key((st.3 - 1) as u16));
                assert(ds.1.push(s[0]) == strs[(st.3 - 1) as u16]);
                assert(ds1.0 =~= strs);
                assert(ds1.2 == st.3);
            } else {
                assert(ds1.0 =~= strs);
                assert(ds1.2 == 258);
            }
            if st.3 == 4096 {
                let codes1 = st.4.push((c, st.2));
                lemma_decode_push(codes1, (LZW_CLEAR, grown(st.3, st.2)));
                assert(st2.4 == codes1.push((LZW_CLEAR, grown(st.3, st.2))));
                assert(strs2 == Map::<u16, Seq<u8>>::empty() && b2 == k - 1);
                let ds2 = lzw_decode_run(st2.4);
                assert(ds2.3 == data.subrange(0, k - 1));
                assert(ds2.1.len() == 0);
                assert(code_string(strs2, st2.1) =~= data.subrange(k - 1, k));
                assert forall|cc: u16| #[trigger] strs2.contains_key(cc) <==> 258 <= cc < st2.3 by {}
            } else {
                assert(st2.4 == st.4.push((c, st.2)));
                assert(strs2 == strs.insert(st.3, data.subrange(b, k)) && b2 == k - 1);
                let ds2 = lzw_decode_run(st2.4);
                assert(ds2 == ds1);
                assert(code_string(strs2, st2.1) =~= data.subrange(k - 1, k));
                assert(strs2.remove((st2.3 - 1) as u16) =~= strs);
                assert(data.subrange(b, k) =~= cur_s.push(data[k - 1]));
                assert forall|c2: u16, x: u8| #[trigger] st2.0.contains_key(table_key(c2, x)) implies {
                    &&& (c2 < 256 || (258 <= c2 < st2.3))
                    &&& 258 <= st2.0[table_key(c2, x)] < st2.3
                    &&& strs2[st2.0[table_key(c2, x)]] == code_string(strs2, c2).push(x)
                } by {
                    if table_key(c2, x) == key {
                        lemma_key_injective(c2, x, c, px);
                        assert(code_string(strs2, c) == code_string(strs, c));
                    } else {
                        assert(st.0.contains_key(table_key(c2, x)));
                        assert(code_string(strs2, c2) == code_string(strs, c2));
                    }
                }
            }
        }
    }
}

proof fn lemma_packed_split(codes: Seq<(u16, u32)>, i: int)
    requires
        0 <= i <= codes.len(),
    ensures
        packed(codes) == packed(codes.take(i)) + pow2(bit_len(codes.take(i))) * packed(codes.skip(i)),
        bit_len(codes) == bit_len(codes.take(i)) + bit_len(codes.skip(i)),
    decreases codes.len(),
{
    if i == codes.len() {
        assert(codes.take(i) =~= codes);
        assert(codes.skip(i).len() == 0);
        assert(packed(codes.skip(i)) == 0);
        assert(bit_len(codes.skip(i)) == 0);
        let p = pow2(bit_len(codes.take(i)));
        assert(p * 0 == 0) by (nonlinear_arith);
    } else {
        let dl = codes.drop_last();
        lemma_packed_split(dl, i);
        assert(dl.take(i) =~= codes.take(i));
        let tail = codes.skip(i);
        assert(tail.len() > 0);
        assert(tail.drop_last() =~= dl.skip(i));
        assert(tail.last() == codes.last());
        let p = pow2(bit_len(codes.take(i)));
        let q = pow2(bit_len(dl.skip(i)));
        let c = codes.last().0 as nat;
        assert(packed(codes) == packed(dl) + c * pow2(bit_len(dl)));
        assert(packed(tail) == packed(dl.skip(i)) + c * q);
        assert(bit_len(codes) == bit_len(dl) + codes.last().1 as nat);
        assert(bit_len(tail) == bit_len(dl.skip(i)) + codes.last().1 as nat);
        assert(bit_len(dl) == bit_len(codes.take(i)) + bit_len(dl.skip(i)));
        lemma_pow2_adds(bit_len(codes.take(i)), bit_len(dl.skip(i)));
        assert(pow2(bit_len(dl)) == p * q);
        assert(p * (packed(dl.skip(i)) + c * q) == p * packed(dl.skip(i)) + c * (p * q)) by (nonlinear_arith);
    }
}

proof fn lemma_packed_bound(codes: Seq<(u16, u32)>)
    requires
        codes_fit(codes),
    ensures
        packed(codes) < pow2(bit_len(codes)),
    decreases codes.len(),
{
    if codes.len() > 0 {
        let dl = codes.drop_last();
        assert forall|i: int| 0 <= i < dl.len() implies (#[trigger] dl[i]).0 < pow2(dl[i].1 as nat) by {
            assert(dl[i] == codes[i]);
        }
        lemma_packed_bound(dl);
        let b = bit_len(dl);
        let w = codes.last().1 as nat;
        let c = codes.last().0 as nat;
        assert(codes.last() == codes[codes.len() - 1]);
        lemma_pow2_adds(b, w);
        let pb = pow2(b);
        let pw = pow2(w);
        assert(packed(codes) == packed(dl) + c * pb);
        assert(bit_len(codes) == b + w);
        assert(pow2(b + w) == pb * pw);
        assert(packed(dl) + c * pb < pb * pw) by (nonlinear_arith)
            requires
                packed(dl) < pb,
                c < pw,
                c >= 0,
        ;
    } else {
        lemma2_to64();
    }
}

/// The codes are laid end to end, least significant bit first: code `i`
/// is the `w`-bit field (its width) at bit offset `bit_len(codes.take(i))`.
pub proof fn lemma_packed_read(codes: Seq<(u16, u32)>, i: int)
    requires
        codes_fit(codes),
        0 <= i < codes.len(),
    ensures
        (packed(codes) / pow2(bit_len(codes.take(i)))) % pow2(codes[i].1 as nat) == codes[i].0,
{
    lemma_packed_split(codes, i);
    let head = codes.take(i);
    let tail = codes.skip(i);
    assert forall|j: int| 0 <= j < head.len() implies (#[trigger] head[j]).0 < pow2(head[j].1 as nat) by {
        assert(head[j] == codes[j]);
    }
    lemma_packed_bound(head);
    lemma_packed_split(tail, 1);
    let one = tail.take(1);
    assert(one.drop_last().len() == 0);
    assert(one.last() == codes[i]);
    vstd::arithmetic::power2::lemma2_to64();
    assert(one.len() == 1);
    assert(packed(one.drop_last()) == 0);
    assert(bit_len(one.drop_last()) == 0);
    assert(packed(one) == codes[i].0 as nat * pow2(0));
    assert(packed(one) == codes[i].0 as nat);
    assert(bit_len(one) == codes[i].1 as nat);
    assert(tail.skip(1) =~= codes.skip(i + 1));
    let p = pow2(bit_len(head));
    let w = pow2(codes[i].1 as nat);
    let c = codes[i].0 as nat;
    let r = packed(tail.skip(1));
    lemma_pow2_pos(bit_len(head));
    lemma_pow2_pos(codes[i].1 as nat);
    assert(packed(tail) == c + w * r);
    vstd::arithmetic::div_mod::lemma_fundamental_div_mod_converse(
        packed(codes) as int,
        p as int,
        (c + w * r) as int,
        packed(head) as int,
    );
    assert(c < w) by {
        assert(codes_fit(codes));
        assert(codes[i].0 < pow2(codes[i].1 as nat));
    }
    assert(c + w * r == r * w + c) by (nonlinear_arith);
    vstd::arithmetic::div_mod::lemma_fundamental_div_mod_converse((c + w * r) as int, w as int, r as int, c as int);
}

/// A GIF LZW decoder reads back what the coder wrote: decoding the codes of
/// `data` gives `data`.
pub proof fn lemma_lzw_round_trip(data: Seq<u8>)
    requires
        data.len() > 0,
    ensures
        lzw_decoded(lzw_codes(data)) == data,
{
    let n = data.len() as int;
    lemma_lzw_in_step(data, n);
    let st = lzw_run(data, n);
    let strs = lzw_strings(data, n).0;
    let b = lzw_strings(data, n).1;
    let codes1 = st.4.push((st.1, st.2));
    lemma_decode_push(st.4, (st.1, st.2));
    lemma_decode_push(codes1, (LZW_END, grown(st.3, st.2)));
    let ds = lzw_decode_run(st.4);
    let c = st.1;
    if c >= 256 && !ds.0.contains_key(c) {
        assert(strs[c] == ds.1.push(data[b]));
        assert(strs[c] =~= data.subrange(b, n));
        assert(ds.1.push(data[b])[0] == ds.1[0]);
    }
    assert(lzw_decode_run(codes1).3 =~= data);
}

/// A GIF LZW reader's framing state: the size of its code table, the width
/// of the next code, and whether a code was read since the last clear code.
pub type LzwReader = (u16, u32, bool);

/// A reader at the start of a stream: 258 table entries (the bytes, the
/// clear code and the end code) and 9-bit codes.
pub open spec fn lzw_reader_start() -> LzwReader {
    (258, 9, false)
}

/// The reader after code `c`: a clear code resets it; every other code but
/// the first after a clear adds a table entry (up to 4096), and the width
/// grows by one bit once the table holds `2^width` entries, up to 12 bits.
pub open spec fn lzw_read_step(rs: LzwReader, c: u16) -> LzwReader {
    if c == LZW_CLEAR {
        lzw_reader_start()
    } else if c == LZW_END {
        rs
    } else {
        let len = if rs.2 && rs.0 < 4096 {
            (rs.0 + 1) as u16
        } else {
            rs.0
        };
        (len, grown(len, rs.1), true)
    }
}

/// The reader after `codes`.
pub open spec fn lzw_read_run(codes: Seq<(u16, u32)>) -> LzwReader
    decreases codes.len(),
{
    if codes.len() == 0 {
        lzw_reader_start()
    } else {
        lzw_read_step(lzw_read_run(codes.drop_last()), codes.last().0)
    }
}

/// Each code has the width that a reader who has read the codes before it
/// expects.
pub open spec fn widths_follow(codes: Seq<(u16, u32)>) -> bool {
    forall|i: int| 0 <= i < codes.len() ==> (#[trigger] codes[i]).1 == lzw_read_run(codes.take(i)).1
}

proof fn lemma_widths_push(codes: Seq<(u16, u32)>, x: (u16, u32))
    requires
        widths_follow(codes),
        x.1 == lzw_read_run(codes).1,
    ensures
        widths_follow(codes.push(x)),
        lzw_read_run(codes.push(x)) == lzw_read_step(lzw_read_run(codes), x.0),
{
    let cp = codes.push(x);
    assert(cp.drop_last() =~= codes);
    assert forall|i: int| 0 <= i < cp.len() implies (#[trigger] cp[i]).1 == lzw_read_run(cp.take(i)).1 by {
        if i < codes.len() {
            assert(cp.take(i) =~= codes.take(i));
            assert(cp[i] == codes[i]);
        } else {
            assert(cp.take(i) =~= codes);
        }
    }
}

/// How the coder after `k` bytes and a reader of its codes agree on widths.
spec fn lzw_width_step(data: Seq<u8>, k: int) -> bool {
    let st = lzw_run(data, k);
    let rs = lzw_read_run(st.4);
    &&& widths_follow(st.4)
    &&& rs.1 == st.2
    &&& rs.2 == (st.3 > 258)
    &&& rs.0 == if st.3 > 258 {
        (st.3 - 1) as u16
    } else {
        258u16
    }
}

proof fn lemma_lzw_width_step(data: Seq<u8>, k: int)
    requires
        1 <= k <= data.len(),
    ensures
        lzw_width_step(data, k),
    decreases k,
{
    if k == 1 {
        let st = lzw_run(data, 1);
        assert(st.4 =~= Seq::<(u16, u32)>::empty().push((LZW_CLEAR, 9u32)));
        assert(widths_follow(Seq::<(u16, u32)>::empty()));
        lemma_widths_push(Seq::<(u16, u32)>::empty(), (LZW_CLEAR, 9u32));
    } else {
        lemma_lzw_width_step(data, k - 1);
        lemma_lzw_in_step(data, k - 1);
        let st = lzw_run(data, k - 1);
        let px = data[k - 1];
        let key = table_key(st.1, px);
        assert(lzw_run(data, k) == lzw_step(st, px));
        if !st.0.contains_key(key) {
            let rs = lzw_read_run(st.4);
            lemma_widths_push(st.4, (st.1, st.2));
            let codes = st.4.push((st.1, st.2));
            let rs2 = lzw_read_run(codes);
            assert(rs2.0 == st.3);
            assert(rs2.1 == grown(st.3, st.2));
            if st.3 == 4096 {
                lemma_widths_push(codes, (LZW_CLEAR, grown(st.3, st.2)));
            }
        }
    }
}

/// A reader that tracks the code width as GIF's LZW does reads every code at
/// the width it was written with.
pub proof fn lemma_lzw_widths(data: Seq<u8>)
    requires
        data.len() > 0,
    ensures
        widths_follow(lzw_codes(data)),
{
    let n = data.len() as int;
    lemma_lzw_width_step(data, n);
    lemma_lzw_in_step(data, n);
    let st = lzw_run(data, n);
    lemma_widths_push(st.4, (st.1, st.2));
    let codes1 = st.4.push((st.1, st.2));
    assert(lzw_read_run(codes1).1 == grown(st.3, st.2));
    lemma_widths_push(codes1, (LZW_END, grown(st.3, st.2)));
}

/// What keeps the coder's codes within their width.
pub open spec fn lzw_sound(st: LzwState) -> bool {
    &&& 9 <= st.2 <= 12
    &&& 258 <= st.3 <= pow2(st.2 as nat)
    &&& st.3 <= 4096
    &&& st.1 < st.3
    &&& forall|k: u32| #[trigger] st.0.contains_key(k) ==> st.0[k] < st.3
}

proof fn lemma_widths()
    ensures
        pow2(9) == 512,
        pow2(10) == 1024,
        pow2(11) == 2048,
        pow2(12) == 4096,
{
    lemma2_to64();
}

/// The `n` bytes that write `v` little-endian (`v < 256^n`): the last byte
/// is the top digit, the others write the rest.
pub open spec fn le_bytes(v: nat, n: nat) -> Seq<u8>
    decreases n,
{
    if n == 0 {
        Seq::empty()
    } else {
        let p = pow2((8 * (n - 1)) as nat);
        le_bytes(v % p, (n - 1) as nat).push((v / p) as u8)
    }
}

proof fn lemma_le_value_bound(s: Seq<u8>)
    ensures
        le_value(s) < pow2(8 * s.len()),
    decreases s.len(),
{
    lemma2_to64();
    if s.len() > 0 {
        let n = s.len();
        lemma_le_value_bound(s.drop_last());
        let p = pow2((8 * (n - 1)) as nat) as int;
        lemma_pow2_adds((8 * (n - 1)) as nat, 8);
        let a = le_value(s.drop_last()) as int;
        let b = s.last() as int;
        lemma_pow2_pos((8 * (n - 1)) as nat);
        assert(b * p <= 255 * p) by (nonlinear_arith)
            requires
                b <= 255,
                p > 0,
        ;
        assert(a + b * p < 256 * p);
    }
}

/// Bytes are the little-endian form of the number they spell.
proof fn lemma_le_unique(s: Seq<u8>)
    ensures
        s == le_bytes(le_value(s), s.len()),
    decreases s.len(),
{
    if s.len() > 0 {
        let n = s.len();
        let front = s.drop_last();
        lemma_le_unique(front);
        lemma_le_value_bound(front);
        let p = pow2((8 * (n - 1)) as nat) as int;
        lemma_pow2_pos((8 * (n - 1)) as nat);
        let v = le_value(s) as int;
        let a = le_value(front) as int;
        let b = s.last() as int;
        assert(v == b * p + a);
        vstd::arithmetic::div_mod::lemma_fundamental_div_mod_converse(v, p, b, a);
        assert(front.len() == n - 1);
        assert(le_bytes(le_value(s), n) == le_bytes(a as nat, (n - 1) as nat).push(b as u8));
        assert(front.push(s.last()) =~= s);
    }
}

/// The bytes GIF's LZW writes for `data`.
pub open spec fn lzw_bytes(data: Seq<u8>) -> Seq<u8> {
    le_bytes(packed(lzw_codes(data)), (bit_len(lzw_codes(data)) + 7) / 8)
}

/// Compresses a frame with GIF's LZW at an 8-bit minimum code size.
pub fn gif_lzw(data: &Vec<u8>) -> (out: Vec<u8>)
    requires
        data@.len() > 0,
    ensures
        out@ == lzw_bytes(data@),
        out@.len() == (bit_len(lzw_codes(data@)) + 7) / 8,
        le_value(out@) == packed(lzw_codes(data@)),
        codes_fit(lzw_codes(data@)),
{
    proof {
        lemma_widths();
    }
    let mut bw = BitWriter::new();
    let clear: u16 = LZW_CLEAR;
    let end: u16 = LZW_END;
    let mut dict: HashMap<u32, u16> = HashMap::new();
    let mut code_size: u32 = 9;
    let mut next: u16 = 258;
    bw.put(clear, code_size);
    let mut cur: u16 = data[0] as u16;
    proof {
        assert(bw.written@ =~= lzw_start(data@[0]).4);
    }
    let mut i: usize = 1;
    while i < data.len()
        invariant
            1 <= i <= data@.len(),
            clear == LZW_CLEAR,
            bw.wf(),
            lzw_run(data@, i as int) == (dict@, cur, code_size, next, bw.written@),
            lzw_sound((dict@, cur, code_size, next, bw.written@)),
            pow2(9) == 512 && pow2(10) == 1024 && pow2(11) == 2048 && pow2(12) == 4096,
        decreases data@.len() - i,
    {
        let px = data[i];
        let key: u32 = cur as u32 * 256 + px as u32;
        let ghost st = (dict@, cur, code_size, next, bw.written@);
        proof {
            assert(key == table_key(cur, px));
        }
        match dict.get(&key) {
            Some(c) => {
                cur = *c;
            },
            None => {
                proof {
                    assert(!st.0.contains_key(key));
                    vstd::bits::lemma_u32_shl_is_mul(1u32, code_size);
                }
                bw.put(cur, code_size);
                if next as u32 == (1u32 << code_size) && code_size < 12 {
                    code_size = code_size + 1;
                }
                proof {
                    assert(code_size == grown(st.3, st.2));
                    assert(9 <= code_size <= 12);
                    assert(pow2(code_size as nat) >= 512);
                }
                if next == 4096 {
                    bw.put(clear, code_size);
                    dict.clear();
                    next = 258;
                    code_size = 9;
                } else {
                    dict.insert(key, next);
                    next = next + 1;
                }
                cur = px as u16;
            },
        }
        proof {
            let st2 = lzw_step(st, px);
            assert(lzw_run(data@, i + 1) == st2);
            assert(dict@ =~= st2.0);
            assert(bw.written@ =~= st2.4);
        }
        i = i + 1;
    }
    let ghost st = (dict@, cur, code_size, next, bw.written@);
    proof {
        vstd::bits::lemma_u32_shl_is_mul(1u32, code_size);
    }
    bw.put(cur, code_size);
    if next as u32 == (1u32 << code_size) && code_size < 12 {
        code_size = code_size + 1;
    }
    proof {
        assert(code_size == grown(st.3, st.2));
        assert(pow2(code_size as nat) >= 512);
    }
    bw.put(end, code_size);
    proof {
        assert(bw.written@ =~= lzw_codes(data@));
        assert(codes_fit(lzw_codes(data@)));
    }
    let out = bw.finish();
    proof {
        lemma_le_unique(out@);
    }
    out
}

/// Data cut into GIF sub-blocks: runs of at most 255 bytes, each after its length.
pub open spec fn sub_blocks(z: Seq<u8>) -> Seq<u8>
    decreases z.len(),
{
    if z.len() == 0 {
        Seq::empty()
    } else if z.len() <= 255 {
        seq![z.len() as u8] + z
    } else {
        seq![255u8] + z.take(255) + sub_blocks(z.skip(255))
    }
}

fn push_sub_blocks(out: &mut Vec<u8>, z: &Vec<u8>)
    ensures
        final(out)@ == old(out)@ + sub_blocks(z@),
{
    let ghost target = out@ + sub_blocks(z@);
    let mut off: usize = 0;
    proof {
        assert(z@.skip(0) =~= z@);
    }
    while off < z.len()
        invariant
            off <= z@.len(),
            out@ + sub_blocks(z@.skip(off as int)) == target,
        decreases z@.len() - off,
    {
        let rest = z.len() - off;
        let len: usize = if rest > 255 {
            255
        } else {
            rest
        };
        let ghost o = out@;
        out.push(len as u8);
        let zl = z.len();
        let mut i: usize = 0;
        while i < len
            invariant
                zl == z@.len(),
                len <= 255,
                off + len <= z@.len(),
                i <= len,
                out@ == o.push(len as u8) + z@.subrange(off as int, off + i),
            decreases len - i,
        {
            out.push(z[off + i]);
            i = i + 1;
            proof {
                assert(z@.subrange(off as int, off + i) =~= z@.subrange(off as int, off + i - 1).push(
                    z@[off + i - 1],
                ));
            }
        }
        proof {
            let r = z@.skip(off as int);
            assert(r.take(len as int) =~= z@.subrange(off as int, off + len));
            if rest > 255 {
                assert(r.skip(255) =~= z@.skip(off + 255));
                assert(sub_blocks(r) == seq![255u8] + r.take(255) + sub_blocks(r.skip(255)));
            } else {
                assert(r =~= r.take(len as int));
                assert(z@.skip(off + len) =~= Seq::<u8>::empty());
                assert(sub_blocks(r) == seq![len as u8] + r);
            }
            assert(out@ =~= o + seq![len as u8] + r.take(len as int));
        }
        off = off + len;
    }
    proof {
        assert(z@.skip(off as int) =~= Seq::<u8>::empty());
        assert(out@ + Seq::<u8>::empty() =~= out@);
    }
}

/// Palette entry `i`: the web cube (216 colors, steps of 51 per channel,
/// red slowest), then black.
pub open spec fn palette_entry(i: nat) -> Seq<u8> {
    if i < 216 {
        seq![(i / 36 * 51) as u8, (i / 6 % 6 * 51) as u8, (i % 6 * 51) as u8]
    } else {
        seq![0u8, 0, 0]
    }
}

/// The first `k` palette entries.
pub open spec fn palette(k: nat) -> Seq<u8>
    decreases k,
{
    if k == 0 {
        Seq::empty()
    } else {
        palette((k - 1) as nat) + palette_entry((k - 1) as nat)
    }
}

/// What comes before the frames: signature, canvas size, a global 256-color
/// table, and the looping extension (loop forever).
pub open spec fn gif_head(w: u16, h: u16) -> Seq<u8> {
    seq![0x47u8, 0x49, 0x46, 0x38, 0x39, 0x61] + le16(w) + le16(h) + seq![0xF7u8, 0, 0] + palette(256) + seq![
        0x21u8,
        0xFF,
        0x0B,
    ] + seq![0x4Eu8, 0x45, 0x54, 0x53, 0x43, 0x41, 0x50, 0x45, 0x32, 0x2E, 0x30] + seq![3u8, 1, 0, 0, 0]
}

/// One frame: a graphic control extension with the delay, a full-canvas
/// image descriptor without local table, and the LZW data in sub-blocks.
pub open spec fn gif_frame(w: u16, h: u16, delay: u16, f: Seq<u8>) -> Seq<u8> {
    seq![0x21u8, 0xF9, 4, 0] + le16(delay) + seq![0u8, 0, 0x2C, 0, 0, 0, 0] + le16(w) + le16(h) + seq![0u8, 8]
        + sub_blocks(lzw_bytes(f)) + seq![0u8]
}

pub open spec fn gif_frames(w: u16, h: u16, delay: u16, frames: Seq<Vec<u8>>) -> Seq<u8>
    decreases frames.len(),
{
    if frames.len() == 0 {
        Seq::empty()
    } else {
        gif_frames(w, h, delay, frames.drop_last()) + gif_frame(w, h, delay, frames.last()@)
    }
}

/// An animated GIF of `w` by `h` pixels: each frame (palette indices, one
/// per pixel) shown for `delay` hundredths of a second, looping forever.
pub fn gif_bytes(w: u16, h: u16, frames: &Vec<Vec<u8>>, delay: u16) -> (out: Vec<u8>)
    requires
        forall|i: int| 0 <= i < frames@.len() ==> (#[trigger] frames@[i])@.len() > 0,
    ensures
        out@ == gif_head(w, h) + gif_frames(w, h, delay, frames@) + seq![0x3Bu8],
{
    let mut out: Vec<u8> = Vec::new();
    push_all(&mut out, &[0x47u8, 0x49, 0x46, 0x38, 0x39, 0x61]);
    push_le16(&mut out, w);
    push_le16(&mut out, h);
    push_all(&mut out, &[0xF7u8, 0, 0]);
    let ghost before_palette = out@;
    let mut i: usize = 0;
    while i < 256
        invariant
            i <= 256,
            out@ == before_palette + palette(i as nat),
        decreases 256 - i,
    {
        if i < 216 {
            out.push((i / 36 * 51) as u8);
            out.push((i / 6 % 6 * 51) as u8);
            out.push((i % 6 * 51) as u8);
        } else {
            push_all(&mut out, &[0u8, 0, 0]);
        }
        proof {
            assert(out@ =~= before_palette + palette((i + 1) as nat));
        }
        i = i + 1;
    }
    push_all(&mut out, &[0x21u8, 0xFF, 0x0B]);
    push_all(&mut out, &[0x4Eu8, 0x45, 0x54, 0x53, 0x43, 0x41, 0x50, 0x45, 0x32, 0x2E, 0x30]);
    push_all(&mut out, &[3u8, 1, 0, 0, 0]);
    let ghost head = out@;
    proof {
        assert(head =~= gif_head(w, h));
    }
    let mut k: usize = 0;
    while k < frames.len()
        invariant
            k <= frames@.len(),
            forall|i: int| 0 <= i < frames@.len() ==> (#[trigger] frames@[i])@.len() > 0,
            out@ == head + gif_frames(w, h, delay, frames@.take(k as int)),
        decreases frames@.len() - k,
    {
        let ghost o = out@;
        push_all(&mut out, &[0x21u8, 0xF9, 4, 0]);
        push_le16(&mut out, delay);
        push_all(&mut out, &[0u8, 0, 0x2C, 0, 0, 0, 0]);
        push_le16(&mut out, w);
        push_le16(&mut out, h);
        push_all(&mut out, &[0u8, 8]);
        let z = gif_lzw(&frames[k]);
        push_sub_blocks(&mut out, &z);
        out.push(0);
        proof {
            assert(frames@.take(k + 1).drop_last() =~= frames@.take(k as int));
            assert(frames@.take(k + 1).last() == frames@[k as int]);
            assert(out@ =~= o + gif_frame(w, h, delay, frames@[k as int]@));
        }
        k = k + 1;
    }
    out.push(0x3B);
    proof {
        assert(frames@.take(frames@.len() as int) =~= frames@);
    }
    out
}


/// Channel `c` of the source pixel at row `sy`, column `sx` of an RGBA
/// image `width` pixels wide.
pub open spec fn channel(bytes: Seq<u8>, width: int, sx: int, sy: int, c: int) -> nat {
    bytes[(sy * width + sx) * 4 + c] as nat
}

/// Sum of channel `c` over the first `k` source pixels of row `f * y + dy`
/// inside output pixel `(x, y)`'s `f` by `f` box.
pub open spec fn row_sum(bytes: Seq<u8>, width: int, f: int, x: int, y: int, c: int, dy: int, k: int) -> nat
    decreases k,
{
    if k <= 0 {
        0
    } else {
        row_sum(bytes, width, f, x, y, c, dy, k - 1) + channel(bytes, width, f * x + k - 1, f * y + dy, c)
    }
}

/// Sum of channel `c` over the first `j` rows of output pixel `(x, y)`'s box.
pub open spec fn box_sum(bytes: Seq<u8>, width: int, f: int, x: int, y: int, c: int, j: int) -> nat
    decreases j,
{
    if j <= 0 {
        0
    } else {
        box_sum(bytes, width, f, x, y, c, j - 1) + row_sum(bytes, width, f, x, y, c, j - 1, f)
    }
}

proof fn lemma_row_sum_bound(bytes: Seq<u8>, width: int, f: int, x: int, y: int, c: int, dy: int, k: int)
    requires
        k >= 0,
    ensures
        row_sum(bytes, width, f, x, y, c, dy, k) <= 255 * k,
    decreases k,
{
    if k > 0 {
        lemma_row_sum_bound(bytes, width, f, x, y, c, dy, k - 1);
    }
}

proof fn lemma_box_sum_bound(bytes: Seq<u8>, width: int, f: int, x: int, y: int, c: int, j: int)
    requires
        j >= 0,
        f >= 0,
    ensures
        box_sum(bytes, width, f, x, y, c, j) <= 255 * f * j,
    decreases j,
{
    if j > 0 {
        lemma_box_sum_bound(bytes, width, f, x, y, c, j - 1);
        lemma_row_sum_bound(bytes, width, f, x, y, c, j - 1, f);
        assert(255 * f * (j - 1) + 255 * f == 255 * f * j) by (nonlinear_arith);
    }
}

proof fn lemma_source_index(width: int, height: int, f: int, w: int, h: int, x: int, y: int, dx: int, dy: int, c: int)
    requires
        f > 0,
        w == width / f,
        h == height / f,
        width >= 0,
        height >= 0,
        0 <= x < w,
        0 <= y < h,
        0 <= dx < f,
        0 <= dy < f,
        0 <= c < 4,
    ensures
        0 <= y * f + dy < height,
        0 <= x * f + dx < width,
        0 <= (y * f + dy) * width + x * f + dx < width * height,
        0 <= ((y * f + dy) * width + x * f + dx) * 4 + c < width * height * 4,
        ((y * f + dy) * width + x * f + dx) * 4 + c == ((f * y + dy) * width + f * x + dx) * 4 + c,
{
    assert(f * w <= width && f * h <= height) by {
        vstd::arithmetic::div_mod::lemma_fundamental_div_mod(width, f);
        vstd::arithmetic::div_mod::lemma_fundamental_div_mod(height, f);
        vstd::arithmetic::div_mod::lemma_mod_pos_bound(width, f);
        vstd::arithmetic::div_mod::lemma_mod_pos_bound(height, f);
    }
    assert(0 <= x * f + dx < width) by (nonlinear_arith)
        requires
            0 <= x < w,
            0 <= dx < f,
            f * w <= width,
            f > 0,
    ;
    assert(0 <= y * f + dy < height) by (nonlinear_arith)
        requires
            0 <= y < h,
            0 <= dy < f,
            f * h <= height,
            f > 0,
    ;
    let sy = y * f + dy;
    let sx = x * f + dx;
    assert(0 <= sy * width + sx < width * height) by (nonlinear_arith)
        requires
            0 <= sy < height,
            0 <= sx < width,
    ;
    assert(y * f == f * y && x * f == f * x) by (nonlinear_arith);
}

/// Shrinks an RGBA image (`width` by `height`, row by row) by the whole
/// factor `f`: each output pixel, `width / f` to a row, averages (rounding
/// down) the `f` by `f` box of source pixels it covers, channel by channel.
pub fn downsample(bytes: &Vec<u8>, width: usize, height: usize, f: usize) -> (out: Vec<u8>)
    requires
        f > 0,
        255 * f * f <= u32::MAX,
        width * height * 4 <= bytes@.len(),
    ensures
        out@.len() == (width / f) * (height / f) * 4,
        forall|p: int, c: int|
            0 <= p < (width / f) * (height / f) && 0 <= c < 4 ==> #[trigger] out@[4 * p + c] as nat == box_sum(
                bytes@,
                width as int,
                f as int,
                p % (width / f) as int,
                p / (width / f) as int,
                c,
                f as int,
            ) / (f * f) as nat,
{
    let len = bytes.len();
    let w = width / f;
    let h = height / f;
    proof {
        assert(w * h <= width * height) by (nonlinear_arith)
            requires
                w == width / f,
                h == height / f,
                f > 0,
        ;
        assert(width * height <= len) by (nonlinear_arith)
            requires
                width * height * 4 <= len,
        ;
    }
    let n = w * h;
    let mut out: Vec<u8> = Vec::new();
    let mut p: usize = 0;
    while p < n
        invariant
            len == bytes@.len(),
            width * height * 4 <= len,
            f > 0,
            255 * f * f <= u32::MAX,
            w == width / f,
            h == height / f,
            n == w * h,
            n <= width * height,
            p <= n,
            out@.len() == 4 * p,
            forall|q: int, c: int|
                0 <= q < p && 0 <= c < 4 ==> #[trigger] out@[4 * q + c] as nat == box_sum(
                    bytes@,
                    width as int,
                    f as int,
                    q % w as int,
                    q / w as int,
                    c,
                    f as int,
                ) / (f * f) as nat,
        decreases n - p,
    {
        proof {
            assert(w > 0) by (nonlinear_arith)
                requires
                    p < n,
                    n == w * h,
                    h >= 0,
            ;
        }
        let y = p / w;
        let x = p % w;
        proof {
            assert(y < h) by (nonlinear_arith)
                requires
                    p < n,
                    n == w * h,
                    y == p / w,
                    w > 0,
            ;
        }
        let mut c: usize = 0;
        while c < 4
            invariant
                len == bytes@.len(),
                width * height * 4 <= len,
                f > 0,
                255 * f * f <= u32::MAX,
                w == width / f,
                h == height / f,
                n == w * h,
                p < n,
                x == p % w,
                y == p / w,
                x < w,
                y < h,
                c <= 4,
                out@.len() == 4 * p + c,
                forall|q: int, k: int|
                    0 <= q < p && 0 <= k < 4 ==> #[trigger] out@[4 * q + k] as nat == box_sum(
                        bytes@,
                        width as int,
                        f as int,
                        q % w as int,
                        q / w as int,
                        k,
                        f as int,
                    ) / (f * f) as nat,
                forall|k: int|
                    0 <= k < c ==> #[trigger] out@[4 * p + k] as nat == box_sum(
                        bytes@,
                        width as int,
                        f as int,
                        x as int,
                        y as int,
                        k,
                        f as int,
                    ) / (f * f) as nat,
            decreases 4 - c,
        {
            let mut acc: u32 = 0;
            let mut dy: usize = 0;
            while dy < f
                invariant
                    len == bytes@.len(),
                    width * height * 4 <= len,
                    f > 0,
                    255 * f * f <= u32::MAX,
                    w == width / f,
                    h == height / f,
                    x < w,
                    y < h,
                    c < 4,
                    dy <= f,
                    acc == box_sum(bytes@, width as int, f as int, x as int, y as int, c as int, dy as int),
                decreases f - dy,
            {
                let mut dx: usize = 0;
                let ghost before = acc;
                while dx < f
                    invariant
                        len == bytes@.len(),
                        width * height * 4 <= len,
                        f > 0,
                        255 * f * f <= u32::MAX,
                        w == width / f,
                        h == height / f,
                        x < w,
                        y < h,
                        c < 4,
                        dy < f,
                        dx <= f,
                        acc == before + row_sum(
                            bytes@,
                            width as int,
                            f as int,
                            x as int,
                            y as int,
                            c as int,
                            dy as int,
                            dx as int,
                        ),
                        before == box_sum(bytes@, width as int, f as int, x as int, y as int, c as int, dy as int),
                    decreases f - dx,
                {
                    proof {
                        lemma_source_index(
                            width as int,
                            height as int,
                            f as int,
                            w as int,
                            h as int,
                            x as int,
                            y as int,
                            dx as int,
                            dy as int,
                            c as int,
                        );
                        lemma_box_sum_bound(bytes@, width as int, f as int, x as int, y as int, c as int, dy as int);
                        lemma_row_sum_bound(
                            bytes@,
                            width as int,
                            f as int,
                            x as int,
                            y as int,
                            c as int,
                            dy as int,
                            dx as int,
                        );
                        assert(255 * f * dy + 255 * dx + 255 <= 255 * f * f) by (nonlinear_arith)
                            requires
                                dy < f,
                                dx < f,
                        ;
                    }
                    let i = ((y * f + dy) * width + x * f + dx) * 4;
                    acc = acc + bytes[i + c] as u32;
                    dx = dx + 1;
                }
                dy = dy + 1;
            }
            proof {
                assert(0 < f * f <= u32::MAX) by (nonlinear_arith)
                    requires
                        f > 0,
                        255 * f * f <= u32::MAX,
                ;
            }
            let ff: u32 = (f * f) as u32;
            let v: u32 = acc / ff;
            proof {
                lemma_box_sum_bound(bytes@, width as int, f as int, x as int, y as int, c as int, f as int);
                assert(v <= 255) by (nonlinear_arith)
                    requires
                        acc <= 255 * f * f,
                        ff == f * f,
                        ff > 0,
                        v == acc / ff,
                ;
            }
            out.push(v as u8);
            c = c + 1;
        }
        p = p + 1;
    }
    out
}


/// Byte `c` of output pixel `(x, y)` when an RGBA image `width` by `height`
/// is resampled to a square of side `s`: the source pixel is
/// `(x * width / s, y * height / s)`.
pub open spec fn nearest_byte(bytes: Seq<u8>, width: int, height: int, s: int, x: int, y: int, c: int) -> u8 {
    bytes[((y * height / s) * width + x * width / s) * 4 + c]
}

proof fn lemma_nearest_source(width: int, height: int, s: int, x: int, y: int)
    requires
        0 <= x < s,
        0 <= y < s,
        width > 0,
        height > 0,
    ensures
        0 <= x * width / s < width,
        0 <= y * height / s < height,
        0 <= (y * height / s) * width + x * width / s < width * height,
{
    assert(0 <= x * width < s * width) by (nonlinear_arith)
        requires
            0 <= x < s,
            width > 0,
    ;
    assert(0 <= y * height < s * height) by (nonlinear_arith)
        requires
            0 <= y < s,
            height > 0,
    ;
    assert(s * width == width * s && s * height == height * s) by (nonlinear_arith);
    vstd::arithmetic::div_mod::lemma_multiply_divide_lt(x * width, s, width);
    vstd::arithmetic::div_mod::lemma_multiply_divide_lt(y * height, s, height);
    vstd::arithmetic::div_mod::lemma_div_pos_is_pos(x * width, s);
    vstd::arithmetic::div_mod::lemma_div_pos_is_pos(y * height, s);
    let sx = x * width / s;
    let sy = y * height / s;
    assert(0 <= sy * width + sx < width * height) by (nonlinear_arith)
        requires
            0 <= sy < height,
            0 <= sx < width,
    ;
}

/// Nearest-neighbor resampling of an RGBA image (`width` by `height`, row by
/// row) to a square of side `s` (the window icon's sizes): output pixel
/// `(x, y)`, `s` to a row, copies source pixel `(x * width / s, y * height / s)`.
pub fn scale_nearest(bytes: &Vec<u8>, width: usize, height: usize, s: usize) -> (out: Vec<u8>)
    requires
        width * height * 4 <= bytes@.len(),
        s > 0 ==> width > 0 && height > 0,
        s * width <= usize::MAX,
        s * height <= usize::MAX,
        s * s * 4 <= usize::MAX,
    ensures
        out@.len() == s * s * 4,
        forall|p: int, c: int|
            0 <= p < s * s && 0 <= c < 4 ==> #[trigger] out@[4 * p + c] == nearest_byte(
                bytes@,
                width as int,
                height as int,
                s as int,
                p % (s as int),
                p / (s as int),
                c,
            ),
{
    let n = s * s;
    let len = bytes.len();
    let mut out: Vec<u8> = Vec::new();
    let mut p: usize = 0;
    while p < n
        invariant
            len == bytes@.len(),
            width * height * 4 <= bytes@.len(),
            s > 0 ==> width > 0 && height > 0,
            s * width <= usize::MAX,
            s * height <= usize::MAX,
            n == s * s,
            n * 4 <= usize::MAX,
            p <= n,
            out@.len() == 4 * p,
            forall|q: int, c: int|
                0 <= q < p && 0 <= c < 4 ==> #[trigger] out@[4 * q + c] == nearest_byte(
                    bytes@,
                    width as int,
                    height as int,
                    s as int,
                    q % (s as int),
                    q / (s as int),
                    c,
                ),
        decreases n - p,
    {
        proof {
            assert(s > 0) by (nonlinear_arith)
                requires
                    p < n,
                    n == s * s,
            ;
        }
        let y = p / s;
        let x = p % s;
        proof {
            assert(y < s) by (nonlinear_arith)
                requires
                    p < n,
                    n == s * s,
                    y == p / s,
                    s > 0,
            ;
            assert(x * width <= s * width && y * height <= s * height) by (nonlinear_arith)
                requires
                    x < s,
                    y < s,
            ;
            lemma_nearest_source(width as int, height as int, s as int, x as int, y as int);
        }
        let sx = x * width / s;
        let sy = y * height / s;
        proof {
            assert((sy * width + sx) * 4 + 4 <= width * height * 4) by (nonlinear_arith)
                requires
                    sy * width + sx < width * height,
            ;
            assert(width * height * 4 <= len);
        }
        let i = (sy * width + sx) * 4;
        let mut c: usize = 0;
        while c < 4
            invariant
                width * height * 4 <= bytes@.len(),
                i + 4 <= bytes@.len(),
                i == ((y * height / (s as int)) * width + x * width / (s as int)) * 4,
                s > 0,
                p < n,
                n == s * s,
                n * 4 <= usize::MAX,
                x == p % s,
                y == p / s,
                c <= 4,
                out@.len() == 4 * p + c,
                forall|q: int, k: int|
                    0 <= q < p && 0 <= k < 4 ==> #[trigger] out@[4 * q + k] == nearest_byte(
                        bytes@,
                        width as int,
                        height as int,
                        s as int,
                        q % (s as int),
                        q / (s as int),
                        k,
                    ),
                forall|k: int|
                    0 <= k < c ==> #[trigger] out@[4 * p + k] == nearest_byte(
                        bytes@,
                        width as int,
                        height as int,
                        s as int,
                        x as int,
                        y as int,
                        k,
                    ),
            decreases 4 - c,
        {
            out.push(bytes[i + c]);
            proof {
                assert forall|q: int, k: int| 0 <= q < p && 0 <= k < 4 implies #[trigger] out@[4 * q + k]
                    == nearest_byte(bytes@, width as int, height as int, s as int, q % (s as int), q / (s as int), k) by {
                    assert(4 * q + k < 4 * p);
                }
            }
            c = c + 1;
        }
        p = p + 1;
    }
    out
}


/// Byte `c` of pixel `(x, y)` once the rows of an RGBA image `width` by
/// `height` are put in reverse order: the pixel `(x, height - 1 - y)`.
pub open spec fn flipped_byte(bytes: Seq<u8>, width: int, height: int, x: int, y: int, c: int) -> u8 {
    bytes[((height - 1 - y) * width + x) * 4 + c]
}

/// An RGBA image (`width` by `height`, row by row) upside down: the rows in
/// reverse order; bytes past the image stay as they are.
pub fn flip_rows(bytes: &Vec<u8>, width: usize, height: usize) -> (out: Vec<u8>)
    requires
        width * height * 4 <= bytes@.len(),
    ensures
        out@.len() == bytes@.len(),
        forall|p: int, c: int|
            0 <= p < width * height && 0 <= c < 4 ==> #[trigger] out@[4 * p + c] == flipped_byte(
                bytes@,
                width as int,
                height as int,
                p % (width as int),
                p / (width as int),
                c,
            ),
        forall|i: int| width * height * 4 <= i < bytes@.len() ==> #[trigger] out@[i] == bytes@[i],
{
    let len = bytes.len();
    proof {
        assert(width * height <= width * height * 4) by (nonlinear_arith);
    }
    let n = width * height;
    let mut out: Vec<u8> = Vec::new();
    let mut p: usize = 0;
    while p < n
        invariant
            len == bytes@.len(),
            n == width * height,
            n * 4 <= len,
            p <= n,
            out@.len() == 4 * p,
            forall|q: int, c: int|
                0 <= q < p && 0 <= c < 4 ==> #[trigger] out@[4 * q + c] == flipped_byte(
                    bytes@,
                    width as int,
                    height as int,
                    q % (width as int),
                    q / (width as int),
                    c,
                ),
        decreases n - p,
    {
        proof {
            assert(width > 0) by (nonlinear_arith)
                requires
                    p < n,
                    n == width * height,
            ;
        }
        let y = p / width;
        let x = p % width;
        proof {
            assert(y < height) by (nonlinear_arith)
                requires
                    p < n,
                    n == width * height,
                    y == p / width,
                    width > 0,
            ;
            assert(((height - 1 - y) * width + x) * 4 + 4 <= n * 4) by (nonlinear_arith)
                requires
                    y < height,
                    x < width,
                    n == width * height,
            ;
        }
        let i = ((height - 1 - y) * width + x) * 4;
        let mut c: usize = 0;
        while c < 4
            invariant
                len == bytes@.len(),
                n * 4 <= len,
                i + 4 <= len,
                i == ((height - 1 - y) * width + x) * 4,
                width > 0,
                p < n,
                x == p % width,
                y == p / width,
                c <= 4,
                out@.len() == 4 * p + c,
                forall|q: int, k: int|
                    0 <= q < p && 0 <= k < 4 ==> #[trigger] out@[4 * q + k] == flipped_byte(
                        bytes@,
                        width as int,
                        height as int,
                        q % (width as int),
                        q / (width as int),
                        k,
                    ),
                forall|k: int|
                    0 <= k < c ==> #[trigger] out@[4 * p + k] == flipped_byte(
                        bytes@,
                        width as int,
                        height as int,
                        x as int,
                        y as int,
                        k,
                    ),
            decreases 4 - c,
        {
            out.push(bytes[i + c]);
            proof {
                assert forall|q: int, k: int| 0 <= q < p && 0 <= k < 4 implies #[trigger] out@[4 * q + k]
                    == flipped_byte(bytes@, width as int, height as int, q % (width as int), q / (width as int), k) by {
                    assert(4 * q + k < 4 * p);
                }
            }
            c = c + 1;
        }
        p = p + 1;
    }
    let mut j: usize = n * 4;
    while j < len
        invariant
            len == bytes@.len(),
            n == width * height,
            n * 4 <= j <= len,
            out@.len() == j,
            forall|q: int, c: int|
                0 <= q < n && 0 <= c < 4 ==> #[trigger] out@[4 * q + c] == flipped_byte(
                    bytes@,
                    width as int,
                    height as int,
                    q % (width as int),
                    q / (width as int),
                    c,
                ),
            forall|k: int| n * 4 <= k < j ==> #[trigger] out@[k] == bytes@[k],
        decreases len - j,
    {
        out.push(bytes[j]);
        proof {
            assert forall|q: int, c: int| 0 <= q < n && 0 <= c < 4 implies #[trigger] out@[4 * q + c]
                == flipped_byte(bytes@, width as int, height as int, q % (width as int), q / (width as int), c) by {
                assert(4 * q + c < j);
            }
        }
        j = j + 1;
    }
    out
}

} // verus!
