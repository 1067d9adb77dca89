use vstd::prelude::*;
use vstd::arithmetic::power2::{pow2, lemma_pow2_pos, lemma_pow2_unfold, lemma_pow2_adds, lemma_pow2_strictly_increases};
use vstd::arithmetic::div_mod::{lemma_div_denominator, lemma_mod_breakdown, lemma_fundamental_div_mod_converse};
use vstd::arithmetic::mul::lemma_mul_is_commutative;
use vstd::bits::{low_bits_mask, lemma_u32_shl_is_mul, lemma_u32_shr_is_div, lemma_u32_low_bits_mask_is_mod, lemma_u32_pow2_no_overflow};

verus! {

/// The low `w` bits of `v`, least significant first.
pub open spec fn bits_of(v: nat, w: nat) -> Seq<bool>
    decreases w,
{
    if w == 0 {
        Seq::empty()
    } else {
        seq![v % 2 == 1].add(bits_of(v / 2, (w - 1) as nat))
    }
}

/// `n` zero bits.
pub open spec fn zero_bits(n: nat) -> Seq<bool> {
    Seq::new(n, |i: int| false)
}

/// The bits of a byte sequence, each byte least significant bit first.
pub open spec fn bytes_bits(b: Seq<u8>) -> Seq<bool>
    decreases b.len(),
{
    if b.len() == 0 {
        Seq::empty()
    } else {
        bytes_bits(b.drop_last()).add(bits_of(b.last() as nat, 8))
    }
}

/// A code with the width it is written at.
pub type Code = (nat, nat);

/// The bits of a sequence of codes, each in its own width.
pub open spec fn codes_bits(cs: Seq<Code>) -> Seq<bool>
    decreases cs.len(),
{
    if cs.len() == 0 {
        Seq::empty()
    } else {
        codes_bits(cs.drop_last()).add(bits_of(cs.last().0, cs.last().1))
    }
}

/// One more code adds its bits at the end.
pub proof fn lemma_codes_bits_push(cs: Seq<Code>, c: Code)
    ensures
        codes_bits(cs.push(c)) == codes_bits(cs).add(bits_of(c.0, c.1)),
{
    assert(cs.push(c).drop_last() =~= cs);
}

/// A bit sequence followed by the zero bits that fill its last byte.
pub open spec fn pad_to_byte(bits: Seq<bool>) -> Seq<bool> {
    bits.add(zero_bits(((8 - bits.len() % 8) % 8) as nat))
}

/// The bits of `v` in `a + b` places are its low `a` bits, then the low `b` bits of
/// what is above them.
pub proof fn lemma_bits_split(v: nat, a: nat, b: nat)
    ensures
        bits_of(v, a + b) == bits_of(v, a).add(bits_of(v / pow2(a), b)),
    decreases a,
{
    if a == 0 {
        vstd::arithmetic::power2::lemma2_to64();
        assert(bits_of(v, a) =~= Seq::<bool>::empty());
        assert(bits_of(v, a).add(bits_of(v / pow2(a), b)) =~= bits_of(v, b));
    } else {
        let m = (a - 1) as nat;
        lemma_bits_split(v / 2, m, b);
        lemma_pow2_unfold(a);
        lemma_pow2_pos(m);
        lemma_div_denominator(v as int, 2, pow2(m) as int);
        assert(bits_of(v, a + b) == seq![v % 2 == 1].add(bits_of(v / 2, m + b)));
        assert(bits_of(v, a) == seq![v % 2 == 1].add(bits_of(v / 2, m)));
        assert(bits_of(v, a + b) =~= bits_of(v, a).add(bits_of(v / pow2(a), b)));
    }
}

/// The low `a` bits of `v` depend on `v` modulo 2 to the `a` alone.
pub proof fn lemma_bits_mod(v: nat, a: nat)
    ensures
        bits_of(v, a) == bits_of(v % pow2(a), a),
    decreases a,
{
    if a > 0 {
        let m = (a - 1) as nat;
        lemma_pow2_unfold(a);
        lemma_pow2_pos(m);
        lemma_mod_breakdown(v as int, 2, pow2(m) as int);
        let r = v % pow2(a);
        assert(r == 2 * ((v / 2) % pow2(m)) + v % 2);
        assert(r % 2 == v % 2);
        assert(r / 2 == (v / 2) % pow2(m));
        lemma_bits_mod(v / 2, m);
        assert(bits_of(v, a) == seq![v % 2 == 1].add(bits_of(v / 2, m)));
        assert(bits_of(r, a) == seq![r % 2 == 1].add(bits_of(r / 2, m)));
        assert(bits_of(r / 2, m) == bits_of(v / 2, m));
        assert(seq![r % 2 == 1] =~= seq![v % 2 == 1]);
        assert(bits_of(v, a) =~= bits_of(r, a));
    } else {
        vstd::arithmetic::power2::lemma2_to64();
        assert(bits_of(v, a) =~= bits_of(v % pow2(a), a));
    }
}

/// The bits of `x + y * 2^c`, where `x < 2^c`, are those of `x` and then those of `y`.
pub proof fn lemma_bits_concat(x: nat, y: nat, c: nat, w: nat)
    requires
        x < pow2(c),
    ensures
        bits_of(x + y * pow2(c), c + w) == bits_of(x, c).add(bits_of(y, w)),
{
    let v = x + y * pow2(c);
    lemma_pow2_pos(c);
    lemma_fundamental_div_mod_converse(v as int, pow2(c) as int, y as int, x as int);
    lemma_bits_split(v, c, w);
    lemma_bits_mod(v, c);
    lemma_bits_mod(x, c);
    vstd::arithmetic::div_mod::lemma_small_mod(x, pow2(c));
}

/// The bits of zero are all zero.
pub proof fn lemma_bits_zero(n: nat)
    ensures
        bits_of(0, n) == zero_bits(n),
    decreases n,
{
    if n > 0 {
        lemma_bits_zero((n - 1) as nat);
        assert(bits_of(0, n) =~= zero_bits(n));
    }
}

/// Or-ing in bits above the low `c` bits of `a` adds them.
proof fn lemma_or_is_add(a: u32, b: u32, c: u32)
    by (bit_vector)
    requires
        c < 32,
        a < (1u32 << c),
    ensures
        a | (b << c) == a + (b << c),
{
}

/// One shifted left by `w` is 2 to the `w`, and one less is the mask of `w` bits.
proof fn lemma_one_shl(w: u32)
    requires
        w < 32,
    ensures
        (1u32 << w) == pow2(w as nat),
        pow2(w as nat) >= 1,
        ((1u32 << w) - 1) as u32 == low_bits_mask(w as nat) as u32,
        pow2(w as nat) <= u32::MAX,
{
    lemma_u32_pow2_no_overflow(w as nat);
    lemma_u32_shl_is_mul(1, w);
    lemma_pow2_pos(w as nat);
}

/// Writes codes of 1 to 16 bits into bytes, least significant bit first.
pub struct BitWriter {
    pub buffer: u32,
    pub cursor: u8,
    pub output: Vec<u8>,
}

impl BitWriter {
    /// The writer's state is consistent: fewer than 8 bits wait in the buffer.
    pub open spec fn wf(&self) -> bool {
        self.cursor < 8 && self.buffer < pow2(self.cursor as nat)
    }

    /// Every bit written so far: those already in bytes, then those that wait.
    pub open spec fn bits(&self) -> Seq<bool> {
        bytes_bits(self.output@).add(bits_of(self.buffer as nat, self.cursor as nat))
    }

    /// A writer with nothing written.
    pub fn new() -> (r: BitWriter)
        ensures
            r.wf(),
            r.bits() == Seq::<bool>::empty(),
            r.output@ == Seq::<u8>::empty(),
    {
        let r = BitWriter { buffer: 0, cursor: 0, output: Vec::new() };
        proof {
            vstd::arithmetic::power2::lemma2_to64();
        }
        assert(r.bits() =~= Seq::<bool>::empty());
        r
    }

    /// Appends the low `width` bits of `code`.
    pub fn write(&mut self, code: u16, width: u8)
        requires
            old(self).wf(),
            1 <= width <= 16,
        ensures
            final(self).wf(),
            final(self).bits() == old(self).bits().add(bits_of(code as nat, width as nat)),
            final(self).output@.len() >= old(self).output@.len(),
            final(self).output@.subrange(0, old(self).output@.len() as int) == old(self).output@,
    {
        let ghost c0 = self.cursor as nat;
        let ghost b0 = self.buffer as nat;
        proof {
            lemma_one_shl(width as u32);
        }
        let mask: u32 = (1u32 << width) - 1;
        let part: u32 = (code as u32) & mask;
        proof {
            lemma_u32_low_bits_mask_is_mod(code as u32, width as nat);
            lemma_pow2_adds(c0, width as nat);
            lemma_pow2_strictly_increases(c0 + width as nat, 32);
            assert(pow2(32) == 0x1_0000_0000nat) by {
                vstd::arithmetic::power2::lemma2_to64();
            }
            assert(part < pow2(width as nat));
            assert(part * pow2(c0) < pow2(width as nat) * pow2(c0)) by (nonlinear_arith)
                requires
                    part < pow2(width as nat),
                    pow2(c0) > 0,
            ;
            lemma_mul_is_commutative(pow2(width as nat) as int, pow2(c0) as int);
            lemma_pow2_pos(c0);
            assert(b0 + part * pow2(c0) < pow2(width as nat) * pow2(c0)) by (nonlinear_arith)
                requires
                    b0 < pow2(c0),
                    part < pow2(width as nat),
            ;
            lemma_u32_shl_is_mul(part, self.cursor as u32);
            lemma_one_shl(self.cursor as u32);
            lemma_or_is_add(self.buffer, part, self.cursor as u32);
            lemma_bits_concat(b0, part as nat, c0, width as nat);
            lemma_bits_mod(code as nat, width as nat);
        }
        self.buffer = self.buffer | (part << self.cursor);
        self.cursor = self.cursor + width;
        let ghost all = self.bits();
        let ghost start = old(self).output@;
        assert(all == old(self).bits().add(bits_of(code as nat, width as nat)));
        while self.cursor >= 8
            invariant
                self.cursor <= 24,
                self.buffer < pow2(self.cursor as nat),
                self.bits() == all,
                self.output@.len() >= start.len(),
                self.output@.subrange(0, start.len() as int) == start,
            decreases self.cursor,
        {
            let ghost out0 = self.output@;
            let ghost buf = self.buffer as nat;
            let ghost cur = self.cursor as nat;
            let bb = self.buffer;
            let byte = (bb & 0xff) as u8;
            proof {
                assert(bb & 0xff == bb % 256) by (bit_vector);
                lemma_u32_shr_is_div(self.buffer, 8);
                assert(pow2(8) == 256) by {
                    vstd::arithmetic::power2::lemma2_to64();
                }
                lemma_bits_split(buf, 8, (cur - 8) as nat);
                lemma_bits_mod(buf, 8);
                lemma_pow2_adds(8, (cur - 8) as nat);
                lemma_pow2_pos((cur - 8) as nat);
                vstd::arithmetic::div_mod::lemma_multiply_divide_lt(buf as int, 256, pow2((cur - 8) as nat) as int);
            }
            self.buffer = self.buffer >> 8;
            self.cursor = self.cursor - 8;
            self.output.push(byte);
            proof {
                let out1 = self.output@;
                assert(out1.drop_last() =~= out0);
                assert(bytes_bits(out1) == bytes_bits(out0).add(bits_of(byte as nat, 8)));
                assert(self.bits() =~= bytes_bits(out0).add(bits_of(buf, cur)));
                assert(out1.subrange(0, start.len() as int) =~= out0.subrange(0, start.len() as int));
            }
        }
    }

    /// Emits the waiting bits, if any, as one last byte whose upper bits are zero.
    pub fn flush(&mut self)
        requires
            old(self).wf(),
        ensures
            final(self).wf(),
            final(self).cursor == 0,
            bytes_bits(final(self).output@) == pad_to_byte(old(self).bits()),
            final(self).output@.len() >= old(self).output@.len(),
            final(self).output@.subrange(0, old(self).output@.len() as int) == old(self).output@,
    {
        let ghost out0 = self.output@;
        let ghost buf = self.buffer as nat;
        let ghost cur = self.cursor as nat;
        proof {
            lemma_bytes_bits_len(out0);
            lemma_bits_of_len(buf, cur);
            assert(old(self).bits().len() == out0.len() * 8 + cur);
            assert((out0.len() * 8 + cur) % 8 == cur) by (nonlinear_arith)
                requires
                    cur < 8,
            ;
        }
        if self.cursor > 0 {
            proof {
                lemma_pow2_strictly_increases(cur, 8);
                assert(pow2(8) == 256) by {
                    vstd::arithmetic::power2::lemma2_to64();
                }
                lemma_bits_split(buf, cur, (8 - cur) as nat);
                lemma_pow2_pos(cur);
                vstd::arithmetic::div_mod::lemma_basic_div(buf as int, pow2(cur) as int);
                lemma_bits_zero((8 - cur) as nat);
            }
            let byte = self.buffer as u8;
            self.output.push(byte);
            self.cursor = 0;
            self.buffer = 0;
            proof {
                let out1 = self.output@;
                assert(out1.drop_last() =~= out0);
                assert(byte == buf);
                assert(bytes_bits(out1) == bytes_bits(out0).add(bits_of(buf, 8)));
                assert((8 - cur) % 8 == 8 - cur);
                assert(bytes_bits(out1) =~= pad_to_byte(old(self).bits()));
                vstd::arithmetic::power2::lemma2_to64();
                assert(out1.subrange(0, out0.len() as int) =~= out0);
            }
        } else {
            assert(bits_of(buf, 0) =~= Seq::<bool>::empty());
            assert(old(self).bits().add(zero_bits(0)) =~= bytes_bits(out0));
            assert(self.output@.subrange(0, out0.len() as int) =~= out0);
        }
    }
}

/// Every byte gives 8 bits.
pub proof fn lemma_bytes_bits_len(b: Seq<u8>)
    ensures
        bytes_bits(b).len() == 8 * b.len(),
    decreases b.len(),
{
    if b.len() > 0 {
        lemma_bytes_bits_len(b.drop_last());
        lemma_bits_of_len(b.last() as nat, 8);
    }
}

/// `bits_of(v, w)` has `w` bits.
pub proof fn lemma_bits_of_len(v: nat, w: nat)
    ensures
        bits_of(v, w).len() == w,
    decreases w,
{
    if w > 0 {
        lemma_bits_of_len(v / 2, (w - 1) as nat);
    }
}

/// The bits of the first `k` bytes are the first `8 * k` bits.
pub proof fn lemma_bytes_bits_prefix(b: Seq<u8>, k: nat)
    requires
        k <= b.len(),
    ensures
        bytes_bits(b.subrange(0, k as int)) == bytes_bits(b).subrange(0, 8 * k as int),
    decreases b.len(),
{
    lemma_bytes_bits_len(b);
    if k == b.len() {
        assert(b.subrange(0, k as int) =~= b);
        assert(bytes_bits(b).subrange(0, 8 * k as int) =~= bytes_bits(b));
    } else {
        lemma_bytes_bits_prefix(b.drop_last(), k);
        assert(b.drop_last().subrange(0, k as int) =~= b.subrange(0, k as int));
        lemma_bytes_bits_len(b.drop_last());
        assert(bytes_bits(b).subrange(0, 8 * k as int) =~= bytes_bits(b.drop_last()).subrange(0, 8 * k as int));
    }
}

/// The reader ran out of bytes before a whole code was read.
#[derive(PartialEq, Eq, Debug, Clone, Copy, Structural)]
pub struct EndOfInput;

/// Reads codes of 1 to 16 bits from bytes, least significant bit first.
pub struct BitReader {
    pub read: Vec<u8>,
    pub pos: usize,
    pub buffer: u32,
    pub cursor: u8,
}

impl BitReader {
    /// All bits of the input.
    pub open spec fn stream(&self) -> Seq<bool> {
        bytes_bits(self.read@)
    }

    /// How many bits have been handed out.
    pub open spec fn position(&self) -> int {
        8 * self.pos - self.cursor
    }

    /// The waiting bits are those between the position and the bytes taken.
    pub open spec fn wf(&self) -> bool {
        &&& self.pos <= self.read@.len()
        &&& self.cursor <= 8 * self.pos
        &&& self.cursor < 24
        &&& self.buffer < pow2(self.cursor as nat)
        &&& bits_of(self.buffer as nat, self.cursor as nat) == self.stream().subrange(self.position(), 8 * self.pos)
    }

    /// A reader at the start of `read`.
    pub fn new(read: Vec<u8>) -> (r: BitReader)
        ensures
            r.wf(),
            r.read@ == read@,
            r.position() == 0,
    {
        let r = BitReader { read, pos: 0, buffer: 0, cursor: 0 };
        proof {
            vstd::arithmetic::power2::lemma2_to64();
            assert(r.stream().subrange(0, 0) =~= bits_of(0, 0));
        }
        r
    }

    /// Reads the next `width` bits as a number, or fails where fewer are left.
    pub fn read_one(&mut self, width: u8) -> (r: Result<u16, EndOfInput>)
        requires
            old(self).wf(),
            1 <= width <= 16,
        ensures
            final(self).wf(),
            final(self).read@ == old(self).read@,
            r is Ok <==> old(self).position() + width <= 8 * old(self).read@.len(),
            r matches Ok(v) ==> final(self).position() == old(self).position() + width
                && v < pow2(width as nat)
                && bits_of(v as nat, width as nat) == old(self).stream().subrange(
                old(self).position(),
                old(self).position() + width,
            ),
    {
        let ghost p = self.position();
        let ghost st = self.stream();
        assert(p == old(self).position());
        assert(st == old(self).stream());
        proof {
            lemma_bytes_bits_len(self.read@);
        }
        while self.cursor < width
            invariant
                self.wf(),
                self.read@ == old(self).read@,
                self.position() == p,
                p == old(self).position(),
                st == self.stream(),
                st == old(self).stream(),
                st.len() == 8 * self.read@.len(),
                1 <= width <= 16,
            decreases self.read@.len() - self.pos,
        {
            if self.pos >= self.read.len() {
                assert(p + width > 8 * self.read@.len());
                return Err(EndOfInput);
            }
            let byte = self.read[self.pos];
            let ghost c0 = self.cursor as nat;
            let ghost b0 = self.buffer as nat;
            let ghost q = self.pos as int;
            proof {
                lemma_one_shl(self.cursor as u32);
                lemma_pow2_adds(c0, 8);
                lemma_pow2_strictly_increases(c0 + 8, 32);
                vstd::arithmetic::power2::lemma2_to64();
                assert(byte * pow2(c0) < 256 * pow2(c0)) by (nonlinear_arith)
                    requires
                        byte < 256,
                        pow2(c0) > 0,
                ;
                assert(b0 + byte * pow2(c0) < 256 * pow2(c0)) by (nonlinear_arith)
                    requires
                        b0 < pow2(c0),
                        byte < 256,
                ;
                lemma_mul_is_commutative(256, pow2(c0) as int);
                lemma_u32_shl_is_mul(byte as u32, self.cursor as u32);
                lemma_or_is_add(self.buffer, byte as u32, self.cursor as u32);
                lemma_bits_concat(b0, byte as nat, c0, 8);
                lemma_bytes_bits_prefix(self.read@, (q + 1) as nat);
                let pre = self.read@.subrange(0, q + 1);
                assert(pre.drop_last() =~= self.read@.subrange(0, q));
                lemma_bytes_bits_prefix(self.read@, q as nat);
                lemma_bytes_bits_len(self.read@.subrange(0, q));
                assert(bytes_bits(pre) == bytes_bits(self.read@.subrange(0, q)).add(bits_of(byte as nat, 8)));
                assert(st.subrange(8 * q, 8 * q + 8) =~= bits_of(byte as nat, 8)) by {
                    lemma_bits_of_len(byte as nat, 8);
                    assert(st.subrange(8 * q, 8 * q + 8) =~= bytes_bits(pre).subrange(8 * q, 8 * q + 8));
                }
                assert(st.subrange(p, 8 * q + 8) =~= st.subrange(p, 8 * q).add(st.subrange(8 * q, 8 * q + 8)));
            }
            self.buffer = self.buffer | ((byte as u32) << self.cursor);
            self.cursor = self.cursor + 8;
            self.pos = self.pos + 1;
        }
        let ghost b0 = self.buffer as nat;
        let ghost c0 = self.cursor as nat;
        proof {
            lemma_one_shl(width as u32);
            lemma_u32_low_bits_mask_is_mod(self.buffer, width as nat);
            lemma_u32_shr_is_div(self.buffer, width as u32);
            lemma_bits_split(b0, width as nat, (c0 - width) as nat);
            lemma_bits_mod(b0, width as nat);
            lemma_bits_of_len(b0 % pow2(width as nat), width as nat);
            lemma_bits_of_len(b0, width as nat);
            lemma_bits_of_len(b0, c0);
            lemma_pow2_adds(width as nat, (c0 - width) as nat);
            lemma_pow2_pos(width as nat);
            vstd::arithmetic::div_mod::lemma_multiply_divide_lt(b0 as int, pow2(width as nat) as int, pow2((c0 - width) as nat) as int);
        }
        let mask: u32 = (1u32 << width) - 1;
        let data = self.buffer & mask;
        self.buffer = self.buffer >> width;
        self.cursor = self.cursor - width;
        proof {
            assert(data == b0 % pow2(width as nat));
            assert(self.buffer == b0 / pow2(width as nat));
            assert(self.buffer < pow2(self.cursor as nat));
            assert(st.subrange(p, 8 * self.pos) == bits_of(b0, c0));
            assert(st.subrange(p, p + width) =~= bits_of(b0, c0).subrange(0, width as int));
            assert(self.stream().subrange(self.position(), 8 * self.pos) =~= bits_of(b0, c0).subrange(width as int, c0 as int));
            lemma_bits_of_len(self.buffer as nat, self.cursor as nat);
            assert(bits_of(b0, c0).subrange(width as int, c0 as int) =~= bits_of(self.buffer as nat, self.cursor as nat));
            vstd::arithmetic::power2::lemma2_to64();
            lemma_pow2_strictly_increases(width as nat, 17);
            assert(data < 65536);
            assert((data as u16) as nat == data as nat);
            assert(bits_of(b0, c0).subrange(0, width as int) =~= bits_of(data as nat, width as nat));
        }
        Ok(data as u16)
    }
}

} // verus!
