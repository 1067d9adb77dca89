use vstd::prelude::*;
use vstd::utf8::*;

verus! {

/// Width of the name field of a header block.
pub const NAME_SIZE: usize = 156;

/// Width of the size field: eleven octal digits and a NUL.
pub const SIZE: usize = 12;

/// Width of the type flag field.
pub const TYPEFLAG_SIZE: usize = 1;

/// Width of a whole header block, and the unit of payload padding.
pub const ENTRY_SIZE: usize = 169;

/// Number of octal digits in the size field.
pub const SIZE_DIGITS: usize = 11;

/// Bound on a size that the size field can hold (8 to the 11th).
pub const MAX_SIZE_EXCLUSIVE: u64 = 8589934592;

/// Type flag byte of a file header (`'0'`).
pub const FILE_FLAG: u8 = 48;

/// Type flag byte of a directory header (`'1'`).
pub const DIRECTORY_FLAG: u8 = 49;

/// The kind of an archive entry.
#[derive(PartialEq, Eq, Debug, Clone, Copy, Structural)]
pub enum EntryType {
    File,
    Directory,
}

impl EntryType {
    /// The type flag byte that stands for this kind on the wire.
    pub open spec fn flag(self) -> u8 {
        match self {
            EntryType::File => FILE_FLAG,
            EntryType::Directory => DIRECTORY_FLAG,
        }
    }

    /// A byte that names a kind.
    pub open spec fn is_flag(byte: u8) -> bool {
        byte == FILE_FLAG || byte == DIRECTORY_FLAG
    }

    /// Reads a type flag byte; only `'0'` and `'1'` name a kind.
    pub fn new(byte: u8) -> (r: EntryType)
        requires
            Self::is_flag(byte),
        ensures
            r.flag() == byte,
    {
        if byte == FILE_FLAG {
            EntryType::File
        } else {
            EntryType::Directory
        }
    }

    /// Reads a type flag byte, or `None` where it names no kind.
    pub fn from_flag(byte: u8) -> (r: Option<EntryType>)
        ensures
            r.is_some() <==> Self::is_flag(byte),
            r.is_some() ==> r.unwrap().flag() == byte,
    {
        if byte == FILE_FLAG {
            Some(EntryType::File)
        } else if byte == DIRECTORY_FLAG {
            Some(EntryType::Directory)
        } else {
            None
        }
    }

    /// The type flag byte of this kind.
    pub fn as_byte(&self) -> (r: u8)
        ensures
            r == self.flag(),
    {
        match *self {
            EntryType::File => FILE_FLAG,
            EntryType::Directory => DIRECTORY_FLAG,
        }
    }
}

/// 8 to the power `n`.
pub open spec fn pow8(n: nat) -> nat
    decreases n,
{
    if n == 0 {
        1
    } else {
        8 * pow8((n - 1) as nat)
    }
}

/// The ASCII digit of an octal digit value.
pub open spec fn octal_digit(d: nat) -> u8 {
    (48 + d) as u8
}

/// The low `n` octal digits of `v`, most significant first, as ASCII.
pub open spec fn octal_digits(v: nat, n: nat) -> Seq<u8>
    decreases n,
{
    if n == 0 {
        Seq::empty()
    } else {
        octal_digits(v / 8, (n - 1) as nat).push(octal_digit(v % 8))
    }
}

/// Whether every byte of `s` is an ASCII octal digit.
pub open spec fn all_octal(s: Seq<u8>) -> bool {
    forall|i: int| 0 <= i < s.len() ==> 48 <= #[trigger] s[i] <= 55
}

/// The number written by a sequence of ASCII octal digits.
pub open spec fn octal_value(s: Seq<u8>) -> nat
    decreases s.len(),
{
    if s.len() == 0 {
        0
    } else {
        octal_value(s.drop_last()) * 8 + (s.last() - 48) as nat
    }
}

/// The size field holding `v`: eleven octal digits, then a NUL.
pub open spec fn size_field(v: nat) -> Seq<u8> {
    octal_digits(v, SIZE_DIGITS as nat).push(0u8)
}

/// Whether a size field is well formed: eleven octal digits, then a NUL.
pub open spec fn size_field_ok(f: Seq<u8>) -> bool {
    f.len() == SIZE && all_octal(f.subrange(0, SIZE_DIGITS as int)) && f[SIZE_DIGITS as int] == 0
}

/// The size that a well-formed size field holds.
pub open spec fn size_field_value(f: Seq<u8>) -> nat {
    octal_value(f.subrange(0, SIZE_DIGITS as int))
}

/// The bytes of `s` before its first NUL (all of `s` where it has none).
pub open spec fn until_nul(s: Seq<u8>) -> Seq<u8>
    decreases s.len(),
{
    if s.len() == 0 {
        s
    } else if s[0] == 0 {
        Seq::empty()
    } else {
        seq![s[0]].add(until_nul(s.drop_first()))
    }
}

/// The name field holding the bytes `b`: at most the first 156 of them, then zeros.
pub open spec fn name_field(b: Seq<u8>) -> Seq<u8> {
    if b.len() >= NAME_SIZE {
        b.subrange(0, NAME_SIZE as int)
    } else {
        b.add(Seq::new((NAME_SIZE - b.len()) as nat, |i: int| 0u8))
    }
}

/// A whole header block for a name (as UTF-8 bytes), a size and a kind.
pub open spec fn header_block(name: Seq<u8>, size: nat, kind: EntryType) -> Seq<u8> {
    name_field(name).add(size_field(size)).push(kind.flag())
}

/// What a lossy UTF-8 decoding makes of a byte sequence.
pub uninterp spec fn utf8_lossy(b: Seq<u8>) -> Seq<char>;

/// The name that the bytes of a name field stand for.
pub open spec fn name_of_field(f: Seq<u8>) -> Seq<char> {
    let b = until_nul(f);
    if valid_utf8(b) {
        decode_utf8(b)
    } else {
        utf8_lossy(b)
    }
}

/// Relies on `String::from_utf8_lossy`: bytes that are valid UTF-8 decode as they stand,
/// and other bytes decode to a result that depends on them alone.
#[verifier::external_body]
fn string_from_utf8_lossy(b: &[u8]) -> (r: String)
    ensures
        r@ == (if valid_utf8(b@) {
            decode_utf8(b@)
        } else {
            utf8_lossy(b@)
        }),
{
    String::from_utf8_lossy(b).into_owned()
}

/// A fixed 169-byte header block: name, size and type flag.
pub struct Header {
    pub name: [u8; NAME_SIZE],
    pub size: [u8; SIZE],
    pub typeflag: [u8; TYPEFLAG_SIZE],
}

impl Header {
    /// The block as it stands on the wire.
    pub open spec fn block(&self) -> Seq<u8> {
        self.name@.add(self.size@).add(self.typeflag@)
    }

    /// A header whose bytes are all zero.
    pub fn new() -> (r: Header)
        ensures
            r.block() =~= Seq::new(ENTRY_SIZE as nat, |i: int| 0u8),
            r.name@ =~= Seq::new(NAME_SIZE as nat, |i: int| 0u8),
            r.size@ =~= Seq::new(SIZE as nat, |i: int| 0u8),
            r.typeflag@ =~= seq![0u8],
    {
        Header { name: [0u8; NAME_SIZE], size: [0u8; SIZE], typeflag: [0u8; TYPEFLAG_SIZE] }
    }

    /// The header of an entry; a name longer than 156 bytes is cut there.
    pub fn from_values(name: String, size: usize, typeflag: EntryType) -> (r: Header)
        requires
            (size as int) < MAX_SIZE_EXCLUSIVE,
        ensures
            r.block() == header_block(encode_utf8(name@), size as nat, typeflag),
    {
        let mut header = Header::new();
        header.set_name(name);
        header.set_size(size);
        header.set_typeflag(typeflag);
        assert(header.name@ =~= name_field(encode_utf8(name@)));
        assert(header.block() =~= header_block(encode_utf8(name@), size as nat, typeflag));
        header
    }

    /// The name: the bytes before the first NUL, decoded as UTF-8 with lossy replacement.
    pub fn get_name(&self) -> (r: String)
        ensures
            r@ == name_of_field(self.name@),
    {
        let mut bytes: Vec<u8> = Vec::new();
        let mut i: usize = 0;
        assert(self.name@.subrange(0, NAME_SIZE as int) =~= self.name@);
        assert(bytes@.add(until_nul(self.name@)) =~= until_nul(self.name@));
        while i < NAME_SIZE && self.name[i] != 0
            invariant
                i <= NAME_SIZE,
                until_nul(self.name@) == bytes@.add(until_nul(self.name@.subrange(i as int, NAME_SIZE as int))),
            decreases NAME_SIZE - i,
        {
            let ghost rest = self.name@.subrange(i as int, NAME_SIZE as int);
            assert(rest.drop_first() =~= self.name@.subrange(i + 1, NAME_SIZE as int));
            bytes.push(self.name[i]);
            i = i + 1;
        }
        proof {
            let rest = self.name@.subrange(i as int, NAME_SIZE as int);
            assert(until_nul(rest) =~= Seq::<u8>::empty());
            assert(bytes@.add(Seq::<u8>::empty()) =~= bytes@);
        }
        string_from_utf8_lossy(bytes.as_slice())
    }

    /// The size, read from a well-formed size field.
    pub fn get_size(&self) -> (r: usize)
        requires
            size_field_ok(self.size@),
            size_field_value(self.size@) <= usize::MAX,
        ensures
            r == size_field_value(self.size@),
    {
        let v = self.parse_size();
        v.unwrap() as usize
    }

    /// The size, or `None` where the size field is not eleven octal digits and a NUL.
    pub fn parse_size(&self) -> (r: Option<u64>)
        ensures
            r.is_some() <==> size_field_ok(self.size@),
            r.is_some() ==> r.unwrap() == size_field_value(self.size@),
            r.is_some() ==> r.unwrap() < MAX_SIZE_EXCLUSIVE,
    {
        let ghost digits = self.size@.subrange(0, SIZE_DIGITS as int);
        let mut acc: u64 = 0;
        let mut i: usize = 0;
        while i < SIZE_DIGITS
            invariant
                i <= SIZE_DIGITS,
                digits == self.size@.subrange(0, SIZE_DIGITS as int),
                all_octal(digits.subrange(0, i as int)),
                acc == octal_value(digits.subrange(0, i as int)),
                acc < pow8(i as nat),
            decreases SIZE_DIGITS - i,
        {
            let c = self.size[i];
            if c < 48 || c > 55 {
                assert(!all_octal(digits)) by {
                    assert(digits[i as int] == c);
                }
                return None;
            }
            proof {
                lemma_pow8_11();
                lemma_pow8_monotone(i as nat + 1, SIZE_DIGITS as nat);
                let next = digits.subrange(0, i + 1);
                assert(next.drop_last() =~= digits.subrange(0, i as int));
                assert(next.last() == c);
                assert(all_octal(next)) by {
                    assert forall|j: int| 0 <= j < next.len() implies 48 <= #[trigger] next[j] <= 55 by {
                        if j < i {
                            assert(next[j] == digits.subrange(0, i as int)[j]);
                        }
                    }
                }
            }
            acc = acc * 8 + (c - 48) as u64;
            i = i + 1;
        }
        assert(digits.subrange(0, SIZE_DIGITS as int) =~= digits);
        proof {
            lemma_pow8_11();
        }
        if self.size[SIZE_DIGITS] != 0 {
            return None;
        }
        Some(acc)
    }

    /// Writes the name's bytes at the start of the name field, cut at 156 bytes.
    pub fn set_name(&mut self, name: String)
        ensures
            ({
                let b = encode_utf8(name@);
                let n = if b.len() < NAME_SIZE { b.len() as int } else { NAME_SIZE as int };
                final(self).name@ == b.subrange(0, n).add(old(self).name@.subrange(n, NAME_SIZE as int))
            }),
            final(self).size == old(self).size,
            final(self).typeflag == old(self).typeflag,
    {
        let bytes = name.as_str().as_bytes();
        let len = if bytes.len() < NAME_SIZE { bytes.len() } else { NAME_SIZE };
        let ghost b = bytes@;
        let ghost start = self.name@;
        let mut i: usize = 0;
        while i < len
            invariant
                i <= len,
                len <= NAME_SIZE,
                len <= b.len(),
                b == bytes@,
                self.name@.len() == NAME_SIZE,
                self.name@ =~= b.subrange(0, i as int).add(start.subrange(i as int, NAME_SIZE as int)),
                self.size == old(self).size,
                self.typeflag == old(self).typeflag,
                start == old(self).name@,
            decreases len - i,
        {
            self.name[i] = bytes[i];
            i = i + 1;
        }
    }

    /// Writes the size as eleven zero-padded octal digits and a NUL.
    pub fn set_size(&mut self, size: usize)
        requires
            (size as int) < MAX_SIZE_EXCLUSIVE,
        ensures
            final(self).size@ == size_field(size as nat),
            final(self).name == old(self).name,
            final(self).typeflag == old(self).typeflag,
    {
        let ghost v = size as nat;
        let mut rest: u64 = size as u64;
        let mut i: usize = SIZE_DIGITS;
        self.size[SIZE_DIGITS] = 0;
        assert(pow8(0) == 1);
        assert(v / 1 == v);
        while i > 0
            invariant
                i <= SIZE_DIGITS,
                self.size@.len() == SIZE,
                self.size@[SIZE_DIGITS as int] == 0,
                self.size@.subrange(i as int, SIZE_DIGITS as int) =~= octal_digits(v, (SIZE_DIGITS - i) as nat),
                rest == v / pow8((SIZE_DIGITS - i) as nat),
                self.name == old(self).name,
                self.typeflag == old(self).typeflag,
            decreases i,
        {
            let ghost k = (SIZE_DIGITS - i) as nat;
            proof {
                lemma_octal_digits_prepend(v, k);
                lemma_pow8_pos(k);
                vstd::arithmetic::div_mod::lemma_div_denominator(v as int, pow8(k) as int, 8);
                vstd::arithmetic::mul::lemma_mul_is_commutative(8, pow8(k) as int);
            }
            self.size[i - 1] = (48 + rest % 8) as u8;
            rest = rest / 8;
            i = i - 1;
        }
        assert(self.size@ =~= self.size@.subrange(0, SIZE_DIGITS as int).push(0u8));
    }

    /// Writes the type flag byte of a kind.
    pub fn set_typeflag(&mut self, typeflag: EntryType)
        ensures
            final(self).typeflag@ == seq![typeflag.flag()],
            final(self).name == old(self).name,
            final(self).size == old(self).size,
    {
        self.typeflag = [typeflag.as_byte()];
        assert(self.typeflag@ =~= seq![typeflag.flag()]);
    }

    /// The block's 169 bytes.
    pub fn to_bytes(&self) -> (r: [u8; ENTRY_SIZE])
        ensures
            r@ == self.block(),
    {
        let mut bytes = [0u8; ENTRY_SIZE];
        let mut i: usize = 0;
        while i < ENTRY_SIZE
            invariant
                i <= ENTRY_SIZE,
                bytes@.len() == ENTRY_SIZE,
                self.block().len() == ENTRY_SIZE,
                forall|j: int| 0 <= j < i ==> bytes@[j] == self.block()[j],
            decreases ENTRY_SIZE - i,
        {
            let b = if i < NAME_SIZE {
                self.name[i]
            } else if i < NAME_SIZE + SIZE {
                self.size[i - NAME_SIZE]
            } else {
                self.typeflag[i - NAME_SIZE - SIZE]
            };
            bytes[i] = b;
            i = i + 1;
        }
        assert(bytes@ =~= self.block());
        bytes
    }

    /// Splits 169 bytes into the three fields.
    pub fn from_bytes(bytes: [u8; ENTRY_SIZE]) -> (r: Header)
        ensures
            r.block() == bytes@,
    {
        let mut header = Header::new();
        let mut i: usize = 0;
        while i < ENTRY_SIZE
            invariant
                i <= ENTRY_SIZE,
                bytes@.len() == ENTRY_SIZE,
                header.block().len() == ENTRY_SIZE,
                forall|j: int| 0 <= j < i ==> header.block()[j] == bytes@[j],
            decreases ENTRY_SIZE - i,
        {
            if i < NAME_SIZE {
                header.name[i] = bytes[i];
            } else if i < NAME_SIZE + SIZE {
                header.size[i - NAME_SIZE] = bytes[i];
            } else {
                header.typeflag[i - NAME_SIZE - SIZE] = bytes[i];
            }
            i = i + 1;
        }
        assert(header.block() =~= bytes@);
        header
    }
}

/// Powers of 8 are positive.
pub proof fn lemma_pow8_pos(n: nat)
    ensures
        pow8(n) >= 1,
    decreases n,
{
    if n > 0 {
        lemma_pow8_pos((n - 1) as nat);
    }
}

/// Octal digits are octal, and say again the value modulo 8 to the `n`.
pub proof fn lemma_octal_digits(v: nat, n: nat)
    ensures
        octal_digits(v, n).len() == n,
        all_octal(octal_digits(v, n)),
        octal_value(octal_digits(v, n)) == v % pow8(n),
    decreases n,
{
    if n > 0 {
        let m = (n - 1) as nat;
        lemma_octal_digits(v / 8, m);
        lemma_pow8_pos(m);
        let s = octal_digits(v, n);
        assert(s.drop_last() =~= octal_digits(v / 8, m));
        assert(all_octal(s)) by {
            assert forall|i: int| 0 <= i < s.len() implies 48 <= #[trigger] s[i] <= 55 by {
                if i < m {
                    assert(s[i] == octal_digits(v / 8, m)[i]);
                }
            }
        }
        assert(octal_value(s) == (v / 8) % pow8(m) * 8 + v % 8);
        assert((v / 8) % pow8(m) * 8 + v % 8 == v % (8 * pow8(m))) by {
            vstd::arithmetic::div_mod::lemma_breakdown(v as int, 8, pow8(m) as int);
            vstd::arithmetic::mul::lemma_mul_is_commutative(8, pow8(m) as int);
        }
    }
}

/// The digits of the low `k + 1` octal places of `v` are its digit at place `k`
/// followed by the digits of the low `k` places.
pub proof fn lemma_octal_digits_prepend(v: nat, k: nat)
    ensures
        octal_digits(v, k + 1) =~= seq![octal_digit((v / pow8(k)) % 8)].add(octal_digits(v, k)),
    decreases k,
{
    if k > 0 {
        let m = (k - 1) as nat;
        lemma_octal_digits_prepend(v / 8, m);
        lemma_pow8_pos(m);
        assert(v / 8 / pow8(m) == v / pow8(k)) by {
            vstd::arithmetic::div_mod::lemma_div_denominator(v as int, 8, pow8(m) as int);
        }
        assert(octal_digits(v, k + 1) == octal_digits(v / 8, k).push(octal_digit(v % 8)));
        assert(octal_digits(v, k) == octal_digits(v / 8, m).push(octal_digit(v % 8)));
    } else {
        assert(pow8(0) == 1);
        assert(octal_digits(v, 1) == octal_digits(v / 8, 0).push(octal_digit(v % 8)));
    }
}

/// Eleven octal digits hold the sizes below 8 to the 11th.
pub proof fn lemma_pow8_11()
    ensures
        pow8(SIZE_DIGITS as nat) == MAX_SIZE_EXCLUSIVE,
{
    reveal_with_fuel(pow8, 12);
}

/// Powers of 8 grow with the exponent.
pub proof fn lemma_pow8_monotone(a: nat, b: nat)
    requires
        a <= b,
    ensures
        pow8(a) <= pow8(b),
    decreases b,
{
    if a < b {
        lemma_pow8_monotone(a, (b - 1) as nat);
    }
}

/// Scanning for a NUL stops right after bytes that hold none, where a NUL or nothing
/// follows them.
pub proof fn lemma_until_nul_prefix(b: Seq<u8>, z: Seq<u8>)
    requires
        forall|j: int| 0 <= j < b.len() ==> #[trigger] b[j] != 0,
        z.len() == 0 || z[0] == 0,
    ensures
        until_nul(b.add(z)) == b,
    decreases b.len(),
{
    if b.len() == 0 {
        assert(b.add(z) =~= z);
        if z.len() > 0 {
            assert(until_nul(z) =~= Seq::<u8>::empty());
        }
        assert(b =~= Seq::<u8>::empty());
    } else {
        let t = b.drop_first();
        assert forall|j: int| 0 <= j < t.len() implies #[trigger] t[j] != 0 by {
            assert(t[j] == b[j + 1]);
        }
        lemma_until_nul_prefix(t, z);
        assert(b.add(z).drop_first() =~= t.add(z));
        assert(seq![b[0]].add(t) =~= b);
    }
}

/// A header block written for a name (as bytes without NUL), a size and a kind reads
/// back as the name cut at 156 bytes, the size and the kind.
pub proof fn lemma_header_round_trip(name: Seq<u8>, size: nat, kind: EntryType)
    requires
        size < MAX_SIZE_EXCLUSIVE,
        forall|j: int| 0 <= j < name.len() ==> #[trigger] name[j] != 0,
    ensures
        header_block(name, size, kind).len() == ENTRY_SIZE,
        until_nul(header_block(name, size, kind).subrange(0, NAME_SIZE as int)) == (if name.len() <= NAME_SIZE {
            name
        } else {
            name.subrange(0, NAME_SIZE as int)
        }),
        size_field_ok(header_block(name, size, kind).subrange(NAME_SIZE as int, (NAME_SIZE + SIZE) as int)),
        size_field_value(header_block(name, size, kind).subrange(NAME_SIZE as int, (NAME_SIZE + SIZE) as int)) == size,
        header_block(name, size, kind)[ENTRY_SIZE - 1] == kind.flag(),
{
    lemma_size_field_round_trip(size);
    let h = header_block(name, size, kind);
    let f = name_field(name);
    assert(f.len() == NAME_SIZE);
    assert(h.subrange(0, NAME_SIZE as int) =~= f);
    assert(h.subrange(NAME_SIZE as int, (NAME_SIZE + SIZE) as int) =~= size_field(size));
    if name.len() < NAME_SIZE {
        lemma_until_nul_prefix(name, Seq::new((NAME_SIZE - name.len()) as nat, |i: int| 0u8));
    } else {
        let cut = name.subrange(0, NAME_SIZE as int);
        assert forall|j: int| 0 <= j < cut.len() implies #[trigger] cut[j] != 0 by {
            assert(cut[j] == name[j]);
        }
        lemma_until_nul_prefix(cut, Seq::<u8>::empty());
        assert(cut.add(Seq::<u8>::empty()) =~= f);
        if name.len() == NAME_SIZE {
            assert(cut =~= name);
        }
    }
}

/// A size field written for `v` reads back as `v`.
pub proof fn lemma_size_field_round_trip(v: nat)
    requires
        v < MAX_SIZE_EXCLUSIVE,
    ensures
        size_field(v).len() == SIZE,
        size_field_ok(size_field(v)),
        size_field_value(size_field(v)) == v,
{
    lemma_octal_digits(v, SIZE_DIGITS as nat);
    lemma_pow8_11();
    let f = size_field(v);
    assert(f.subrange(0, SIZE_DIGITS as int) =~= octal_digits(v, SIZE_DIGITS as nat));
}

} // verus!
