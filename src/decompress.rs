use vstd::prelude::*;
use vstd::arithmetic::power2::{pow2, lemma2_to64, lemma_pow2_unfold, lemma_pow2_pos};

use crate::bitio::{BitReader, bits_of, bytes_bits, lemma_bytes_bits_len};
use crate::compress::{CLEAR_CODE, END_OF_INFORMATION, FIRST_FREE_CODE, INITIAL_CODE_WIDTH, MAX_CODE_WIDTH, lemma_shl_u16};

verus! {

/// Number of codes the decoder's table holds.
pub const MAX_TABLE_SIZE: usize = 4096;

/// Why a compressed stream could not be decoded.
#[derive(PartialEq, Eq, Debug, Clone, Copy, Structural)]
pub enum DecodeError {
    /// A code above the next code to be learned, or a learned code right after a clear.
    InvalidCode,
}

/// The number that a bit sequence writes, least significant bit first.
pub open spec fn value_of(bits: Seq<bool>) -> nat
    decreases bits.len(),
{
    if bits.len() == 0 {
        0
    } else {
        (if bits[0] { 1nat } else { 0nat }) + 2 * value_of(bits.drop_first())
    }
}

/// Reading back the low `w` bits of `v` gives `v` modulo 2 to the `w`.
pub proof fn lemma_value_of_bits(v: nat, w: nat)
    ensures
        value_of(bits_of(v, w)) == v % pow2(w),
    decreases w,
{
    if w == 0 {
        lemma2_to64();
    } else {
        let m = (w - 1) as nat;
        lemma_value_of_bits(v / 2, m);
        assert(bits_of(v, w).drop_first() =~= bits_of(v / 2, m));
        lemma_pow2_unfold(w);
        lemma_pow2_pos(m);
        vstd::arithmetic::div_mod::lemma_mod_breakdown(v as int, 2, pow2(m) as int);
    }
}

/// The decoder's strings by code; codes 256 and 257 stand for no string.
pub type Table = Seq<Seq<u8>>;

/// The table right after a clear: each byte stands for itself.
pub open spec fn initial_table() -> Table {
    Seq::new(FIRST_FREE_CODE as nat, |c: int| if c < 256 { seq![c as u8] } else { Seq::empty() })
}

/// The decoder's state: table (whose length is the next code to learn), code width,
/// previous code, and the bytes written so far.
pub type DecState = (Table, nat, Option<nat>, Seq<u8>);

/// The state before the first code.
pub open spec fn initial_dec_state() -> DecState {
    (initial_table(), (INITIAL_CODE_WIDTH + 1) as nat, None, Seq::empty())
}

/// What the decoder does with one code: `Ok(Some(s))` to go on in state `s`,
/// `Ok(None)` to stop, or an error.
pub open spec fn dec_step(s: DecState, code: nat) -> Result<Option<DecState>, DecodeError> {
    let (t, w, prev, out) = s;
    if code == CLEAR_CODE {
        Ok(Some((initial_table(), (INITIAL_CODE_WIDTH + 1) as nat, None, out)))
    } else if code == END_OF_INFORMATION {
        Ok(None)
    } else {
        match prev {
            None => if code < 256 {
                Ok(Some((t, w, Some(code), out.push(code as u8))))
            } else {
                Err(DecodeError::InvalidCode)
            },
            Some(p) => {
                let n = t.len();
                if code > n {
                    Err(DecodeError::InvalidCode)
                } else {
                    let cur = if code == n { t[p as int].push(t[p as int][0]) } else { t[code as int] };
                    if n < MAX_TABLE_SIZE {
                        let w2 = if n + 1 == pow2(w) && w < MAX_CODE_WIDTH { w + 1 } else { w };
                        Ok(Some((t.push(t[p as int].push(cur[0])), w2, Some(code), out.add(cur))))
                    } else {
                        Ok(Some((t, w, Some(code), out.add(cur))))
                    }
                }
            },
        }
    }
}

/// The bytes decoded from `bits` from bit `pos` on, in state `s`. The end of the bits
/// ends the stream as the end code does.
pub open spec fn dec_run(bits: Seq<bool>, s: DecState, pos: nat) -> Result<Seq<u8>, DecodeError>
    decreases bits.len() - pos,
{
    if s.1 == 0 || pos + s.1 > bits.len() {
        Ok(s.3)
    } else {
        let code = value_of(bits.subrange(pos as int, (pos + s.1) as int));
        match dec_step(s, code) {
            Err(e) => Err(e),
            Ok(None) => Ok(s.3),
            Ok(Some(s2)) => dec_run(bits, s2, pos + s.1),
        }
    }
}

/// The bytes that a compressed stream decodes to.
pub open spec fn lzw_decode(data: Seq<u8>) -> Result<Seq<u8>, DecodeError> {
    dec_run(bytes_bits(data), initial_dec_state(), 0)
}

/// The executable tables stand for table `t`.
pub open spec fn tables_match(t: Table, prefix: Seq<u16>, suffix: Seq<u8>, length: Seq<usize>) -> bool {
    &&& prefix.len() == MAX_TABLE_SIZE
    &&& suffix.len() == MAX_TABLE_SIZE
    &&& length.len() == MAX_TABLE_SIZE
    &&& FIRST_FREE_CODE <= t.len() <= MAX_TABLE_SIZE
    &&& forall|c: int| 0 <= c < 256 ==> #[trigger] t[c] == seq![c as u8] && suffix[c] == c as u8 && length[c] == 1
    &&& t[CLEAR_CODE as int] == Seq::<u8>::empty()
    &&& t[END_OF_INFORMATION as int] == Seq::<u8>::empty()
    &&& forall|c: int| FIRST_FREE_CODE <= c < t.len() ==> {
        &&& (#[trigger] prefix[c]) < c
        &&& prefix[c] != CLEAR_CODE
        &&& prefix[c] != END_OF_INFORMATION
        &&& t[c] == t[prefix[c] as int].push(suffix[c])
        &&& length[c] == t[c].len()
        &&& 2 <= t[c].len() <= c - 256
    }
}

/// A string of the table is never longer than its code allows.
proof fn lemma_table_len(t: Table, prefix: Seq<u16>, suffix: Seq<u8>, length: Seq<usize>, c: int)
    requires
        tables_match(t, prefix, suffix, length),
        0 <= c < t.len(),
        c != CLEAR_CODE,
        c != END_OF_INFORMATION,
    ensures
        1 <= t[c].len(),
        t[c].len() < MAX_TABLE_SIZE - 256,
        length[c] == t[c].len(),
{
    if c >= FIRST_FREE_CODE {
        assert(prefix[c] < c);
    } else {
        assert(t[c] == seq![c as u8]);
    }
}

/// After a clear the executable tables stand for the initial table, whatever they
/// learned before.
proof fn lemma_tables_reset(t: Table, prefix: Seq<u16>, suffix: Seq<u8>, length: Seq<usize>)
    requires
        tables_match(t, prefix, suffix, length),
    ensures
        tables_match(initial_table(), prefix, suffix, length),
{
    let t0 = initial_table();
    assert forall|c: int| 0 <= c < 256 implies #[trigger] t0[c] == seq![c as u8] && suffix[c] == c as u8 && length[c] == 1 by {
        assert(t[c] == seq![c as u8]);
    }
}

/// Tables with each byte standing for itself.
fn init_tables() -> (r: (Vec<u16>, Vec<u8>, Vec<usize>))
    ensures
        tables_match(initial_table(), r.0@, r.1@, r.2@),
{
    let prefix: Vec<u16> = vec![0u16; MAX_TABLE_SIZE];
    let mut suffix: Vec<u8> = vec![0u8; MAX_TABLE_SIZE];
    let mut length: Vec<usize> = vec![0usize; MAX_TABLE_SIZE];
    let mut code: usize = 0;
    while code < 256
        invariant
            code <= 256,
            suffix@.len() == MAX_TABLE_SIZE,
            length@.len() == MAX_TABLE_SIZE,
            prefix@.len() == MAX_TABLE_SIZE,
            forall|c: int| 0 <= c < code ==> suffix@[c] == c as u8 && length@[c] == 1,
        decreases 256 - code,
    {
        suffix.set(code, code as u8);
        length.set(code, 1);
        code = code + 1;
    }
    let ghost t = initial_table();
    assert forall|c: int| 0 <= c < 256 implies #[trigger] t[c] == seq![c as u8] && suffix@[c] == c as u8 && length@[c] == 1 by {}
    (prefix, suffix, length)
}

/// Writes the string of `code` at the start of the stack by walking its prefix
/// chain, and returns its length.
fn decode_string(
    prefix: &Vec<u16>,
    suffix: &Vec<u8>,
    length: &Vec<usize>,
    stack: &mut Vec<u8>,
    code: u16,
    Ghost(t): Ghost<Table>,
) -> (wl: usize)
    requires
        tables_match(t, prefix@, suffix@, length@),
        code < t.len(),
        code != CLEAR_CODE,
        code != END_OF_INFORMATION,
        old(stack)@.len() == MAX_TABLE_SIZE,
    ensures
        final(stack)@.len() == MAX_TABLE_SIZE,
        wl == t[code as int].len(),
        1 <= wl < MAX_TABLE_SIZE - 256,
        final(stack)@.subrange(0, wl as int) == t[code as int],
{
    proof {
        lemma_table_len(t, prefix@, suffix@, length@, code as int);
    }
    let word_length = length[code as usize];
    let mut stack_top = word_length;
    let mut temp_code = code;
    let ghost s = t[code as int];
    while temp_code >= CLEAR_CODE
        invariant
            tables_match(t, prefix@, suffix@, length@),
            s == t[code as int],
            word_length == s.len(),
            word_length < MAX_TABLE_SIZE,
            stack@.len() == MAX_TABLE_SIZE,
            temp_code < t.len(),
            temp_code != CLEAR_CODE,
            temp_code != END_OF_INFORMATION,
            stack_top == t[temp_code as int].len(),
            stack_top <= word_length,
            t[temp_code as int] == s.subrange(0, stack_top as int),
            stack@.subrange(stack_top as int, word_length as int) == s.subrange(stack_top as int, word_length as int),
        decreases temp_code,
    {
        let ghost c = temp_code as int;
        assert(t[c] == t[prefix@[c] as int].push(suffix@[c]));
        let ghost old_top = stack_top as int;
        let ghost old_stack = stack@;
        assert(t[c][old_top - 1] == suffix@[c]);
        assert(t[c][old_top - 1] == s[old_top - 1]);
        stack_top = stack_top - 1;
        stack.set(stack_top, suffix[temp_code as usize]);
        temp_code = prefix[temp_code as usize];
        proof {
            assert(s.subrange(0, stack_top as int) =~= t[c].drop_last());
            assert(s[stack_top as int] == suffix@[c]);
            assert forall|j: int| stack_top <= j < word_length implies stack@[j] == s[j] by {
                if j > stack_top {
                    assert(stack@[j] == old_stack[j]);
                    assert(old_stack.subrange(old_top, word_length as int)[j - old_top] == old_stack[j]);
                }
            }
            assert(stack@.subrange(stack_top as int, word_length as int) =~= s.subrange(stack_top as int, word_length as int));
        }
    }
    assert(t[temp_code as int] == seq![temp_code as u8]);
    assert(s[0] == temp_code as u8) by {
        assert(s.subrange(0, stack_top as int)[0] == s[0]);
    }
    let ghost before = stack@;
    stack.set(0, temp_code as u8);
    assert forall|j: int| 0 <= j < word_length implies stack@[j] == s[j] by {
        if j > 0 {
            assert(before.subrange(1, word_length as int)[j - 1] == before[j]);
        }
    }
    assert(stack@.subrange(0, word_length as int) =~= s);
    word_length
}

/// Appends the first `n` bytes of `stack` to `output`.
fn append_stack(output: &mut Vec<u8>, stack: &Vec<u8>, n: usize)
    requires
        n <= stack@.len(),
    ensures
        final(output)@ == old(output)@.add(stack@.subrange(0, n as int)),
{
    let mut i: usize = 0;
    while i < n
        invariant
            i <= n,
            n <= stack@.len(),
            output@ =~= old(output)@.add(stack@.subrange(0, i as int)),
        decreases n - i,
    {
        output.push(stack[i]);
        i = i + 1;
    }
}

/// The previous code as the decoder's model holds it.
pub open spec fn prev_model(p: Option<u16>) -> Option<nat> {
    match p {
        Some(c) => Some(c as nat),
        None => None,
    }
}

/// One step of the model, taken at bit position `pos`, leaves what is decoded from
/// there unchanged.
proof fn lemma_dec_run_step(bits: Seq<bool>, s: DecState, pos: nat, code: nat, s2: DecState)
    requires
        s.1 > 0,
        pos + s.1 <= bits.len(),
        code == value_of(bits.subrange(pos as int, (pos + s.1) as int)),
        dec_step(s, code) == Ok::<Option<DecState>, DecodeError>(Some(s2)),
    ensures
        dec_run(bits, s, pos) == dec_run(bits, s2, pos + s.1),
{
}

/// Decodes the codes that `reader` hands out, up to the end code or the end of the
/// input.
pub fn lzw_decompress_from_reader(reader: BitReader) -> (r: Result<Vec<u8>, DecodeError>)
    requires
        reader.wf(),
    ensures
        match r {
            Ok(v) => dec_run(reader.stream(), initial_dec_state(), reader.position() as nat) == Ok::<Seq<u8>, DecodeError>(
                v@,
            ),
            Err(e) => dec_run(reader.stream(), initial_dec_state(), reader.position() as nat) == Err::<
                Seq<u8>,
                DecodeError,
            >(e),
        },
{
    let mut input = reader;
    let ghost bits = input.stream();
    let ghost data = input.read@;
    let ghost start = input.position() as nat;
    proof {
        lemma_bytes_bits_len(data);
    }
    let (mut prefix, mut suffix, mut length) = init_tables();
    let mut decoding_stack: Vec<u8> = vec![0u8; MAX_TABLE_SIZE];
    let mut output: Vec<u8> = Vec::new();
    let mut read_size: u8 = INITIAL_CODE_WIDTH + 1;
    proof {
        lemma2_to64();
    }
    let mut size_increase_mask: u16 = 1u16 << read_size;
    proof {
        lemma_shl_u16(read_size);
    }
    let mut next_index: u16 = FIRST_FREE_CODE;
    let mut previous_code: Option<u16> = None;
    let mut word_length: usize = 0;
    let ghost mut st: DecState = initial_dec_state();
    assert(output@ =~= Seq::<u8>::empty());
    loop
        invariant
            input.wf(),
            input.stream() == bits,
            reader.stream() == bits,
            input.read@ == data,
            bits == bytes_bits(data),
            bits.len() == 8 * data.len(),
            dec_run(bits, st, input.position() as nat) == dec_run(bits, initial_dec_state(), start),
            start == reader.position() as nat,
            input.position() >= 0,
            tables_match(st.0, prefix@, suffix@, length@),
            st.0.len() == next_index,
            st.1 == read_size,
            INITIAL_CODE_WIDTH + 1 <= read_size <= MAX_CODE_WIDTH,
            size_increase_mask == pow2(read_size as nat),
            next_index <= pow2(read_size as nat),
            next_index < pow2(read_size as nat) || read_size == MAX_CODE_WIDTH,
            st.2 == prev_model(previous_code),
            decoding_stack@.len() == MAX_TABLE_SIZE,
            previous_code matches Some(p) ==> {
                &&& p < next_index
                &&& p != CLEAR_CODE
                &&& p != END_OF_INFORMATION
                &&& word_length == st.0[p as int].len()
                &&& decoding_stack@.subrange(0, word_length as int) == st.0[p as int]
            },
            st.3 == output@,
        decreases bits.len() - input.position(),
    {
        let ghost pos = input.position() as nat;
        let ghost t = st.0;
        let code = match input.read_one(read_size) {
            Ok(c) => c,
            Err(_) => {
                return Ok(output);
            },
        };
        proof {
            lemma_value_of_bits(code as nat, read_size as nat);
            vstd::arithmetic::div_mod::lemma_small_mod(code as nat, pow2(read_size as nat));
            assert(value_of(bits.subrange(pos as int, (pos + read_size) as int)) == code);
            lemma2_to64();
        }
        if code == CLEAR_CODE {
            read_size = INITIAL_CODE_WIDTH + 1;
            size_increase_mask = 1u16 << read_size;
            next_index = FIRST_FREE_CODE;
            previous_code = None;
            proof {
                lemma_shl_u16(read_size);
                lemma_tables_reset(t, prefix@, suffix@, length@);
                let s2 = (initial_table(), (INITIAL_CODE_WIDTH + 1) as nat, None::<nat>, st.3);
                lemma_dec_run_step(bits, st, pos, code as nat, s2);
                st = s2;
            }
            continue;
        } else if code == END_OF_INFORMATION {
            return Ok(output);
        }
        match previous_code {
            None => {
                if code >= CLEAR_CODE {
                    return Err(DecodeError::InvalidCode);
                }
                output.push(suffix[code as usize]);
                previous_code = Some(code);
                decoding_stack.set(0, code as u8);
                word_length = 1;
                proof {
                    let s2 = (t, st.1, Some(code as nat), st.3.push(code as u8));
                    lemma_dec_run_step(bits, st, pos, code as nat, s2);
                    st = s2;
                    assert(decoding_stack@.subrange(0, 1) =~= t[code as int]);
                }
            },
            Some(p) => {
                if code > next_index {
                    return Err(DecodeError::InvalidCode);
                }
                let ghost prev_str = t[p as int];
                proof {
                    lemma_table_len(t, prefix@, suffix@, length@, p as int);
                    if p >= FIRST_FREE_CODE {
                        assert(prefix@[p as int] < p);
                    }
                    assert(p >= FIRST_FREE_CODE ==> prev_str.len() <= p - 256);
                }
                if code == next_index {
                    let first = decoding_stack[0];
                    decoding_stack.set(word_length, first);
                    word_length = word_length + 1;
                    assert(decoding_stack@.subrange(0, word_length as int) =~= prev_str.push(prev_str[0]));
                } else {
                    word_length = decode_string(&prefix, &suffix, &length, &mut decoding_stack, code, Ghost(t));
                }
                let ghost cur = decoding_stack@.subrange(0, word_length as int);
                append_stack(&mut output, &decoding_stack, word_length);
                let ghost t2 = if (next_index as usize) < MAX_TABLE_SIZE { t.push(prev_str.push(cur[0])) } else { t };
                if (next_index as usize) < MAX_TABLE_SIZE {
                    let ghost n = next_index as int;
                    prefix.set(next_index as usize, p);
                    suffix.set(next_index as usize, decoding_stack[0]);
                    length.set(next_index as usize, length[p as usize] + 1);
                    next_index = next_index + 1;
                    if next_index == size_increase_mask && read_size < MAX_CODE_WIDTH {
                        read_size = read_size + 1;
                        size_increase_mask = 1u16 << read_size;
                        proof {
                            lemma_shl_u16(read_size);
                            vstd::arithmetic::power2::lemma_pow2_unfold(read_size as nat);
                        }
                    }
                    proof {
                        assert(tables_match(t2, prefix@, suffix@, length@)) by {
                            assert forall|c: int| 0 <= c < 256 implies #[trigger] t2[c] == seq![c as u8] && suffix@[c] == c as u8 && length@[c] == 1 by {
                                assert(t[c] == seq![c as u8]);
                            }
                            assert forall|c: int| FIRST_FREE_CODE <= c < t2.len() implies {
                                &&& (#[trigger] prefix@[c]) < c
                                &&& prefix@[c] != CLEAR_CODE
                                &&& prefix@[c] != END_OF_INFORMATION
                                &&& t2[c] == t2[prefix@[c] as int].push(suffix@[c])
                                &&& length@[c] == t2[c].len()
                                &&& 2 <= t2[c].len() <= c - 256
                            } by {
                                if c < n {
                                    assert(prefix@[c] < c);
                                } else {
                                    assert(t2[c] == prev_str.push(cur[0]));

                                }
                            }
                        }
                    }
                }
                previous_code = Some(code);
                proof {
                    let s2 = (t2, read_size as nat, Some(code as nat), st.3.add(cur));
                    assert(dec_step(st, code as nat) == Ok::<Option<DecState>, DecodeError>(Some(s2)));
                    lemma_dec_run_step(bits, st, pos, code as nat, s2);
                    st = s2;
                }
            },
        }
    }
}

} // verus!
