use vstd::prelude::*;
use vstd::arithmetic::power2::{pow2, lemma2_to64, lemma_pow2_pos, lemma_pow2_unfold};

use crate::bitio::{Code, bits_of, bytes_bits, codes_bits, pad_to_byte, zero_bits, lemma_bits_of_len, lemma_codes_bits_push};
use crate::compress::{
    CLEAR_CODE, Dict, EncState, END_OF_INFORMATION, FIRST_FREE_CODE, INITIAL_CODE_WIDTH, MAX_CODE_WIDTH,
    enc_fold, enc_state_ok, enc_step, initial_dict, lemma_enc_step_ok, lzw_codes, children_in_range,
};
use crate::decompress::{
    DecState, DecodeError, MAX_TABLE_SIZE, Table, dec_run, dec_step, initial_dec_state, initial_table, value_of,
    lemma_value_of_bits, lzw_decode,
};

verus! {

/// The bits of two code sequences one after the other.
pub proof fn lemma_codes_bits_append(a: Seq<Code>, b: Seq<Code>)
    ensures
        codes_bits(a.add(b)) == codes_bits(a).add(codes_bits(b)),
    decreases b.len(),
{
    if b.len() == 0 {
        assert(a.add(b) =~= a);
        assert(codes_bits(a).add(codes_bits(b)) =~= codes_bits(a));
    } else {
        let c = b.last();
        lemma_codes_bits_append(a, b.drop_last());
        assert(a.add(b) =~= a.add(b.drop_last()).push(c));
        lemma_codes_bits_push(a.add(b.drop_last()), c);
        lemma_codes_bits_push(b.drop_last(), c);
        assert(b.drop_last().push(c) =~= b);
        assert(codes_bits(a).add(codes_bits(b.drop_last())).add(bits_of(c.0, c.1)) =~= codes_bits(a).add(
            codes_bits(b.drop_last()).add(bits_of(c.0, c.1)),
        ));
    }
}

/// The number that two bit sequences one after the other write.
pub proof fn lemma_value_of_append(x: Seq<bool>, y: Seq<bool>)
    ensures
        value_of(x.add(y)) == value_of(x) + pow2(x.len()) * value_of(y),
    decreases x.len(),
{
    if x.len() == 0 {
        lemma2_to64();
        assert(x.add(y) =~= y);
    } else {
        lemma_value_of_append(x.drop_first(), y);
        assert(x.add(y).drop_first() =~= x.drop_first().add(y));
        lemma_pow2_unfold(x.len());
        assert(pow2(x.len()) == 2 * pow2((x.len() - 1) as nat));
        let v = value_of(y);
        let p = pow2((x.len() - 1) as nat);
        assert(2 * (value_of(x.drop_first()) + p * v) == 2 * value_of(x.drop_first()) + (2 * p) * v) by (nonlinear_arith);
    }
}

/// Zero bits write zero.
pub proof fn lemma_value_of_zero_bits(n: nat)
    ensures
        value_of(zero_bits(n)) == 0,
    decreases n,
{
    if n > 0 {
        lemma_value_of_zero_bits((n - 1) as nat);
        assert(zero_bits(n).drop_first() =~= zero_bits((n - 1) as nat));
    }
}

/// A code sequence is the start of another.
pub open spec fn is_prefix(x: Seq<Code>, all: Seq<Code>) -> bool {
    x.len() <= all.len() && all.subrange(0, x.len() as int) == x
}

/// The stream of the codes `all`, where `x` then `c` start `all`, holds `c` right
/// after the bits of `x`.
pub proof fn lemma_read_code(all: Seq<Code>, x: Seq<Code>, c: Code)
    requires
        is_prefix(x.push(c), all),
        c.0 < pow2(c.1),
    ensures
        codes_bits(x).len() + c.1 <= pad_to_byte(codes_bits(all)).len(),
        value_of(pad_to_byte(codes_bits(all)).subrange(codes_bits(x).len() as int, (codes_bits(x).len() + c.1) as int)) == c.0,
        pad_to_byte(codes_bits(all)).subrange(codes_bits(x).len() as int, (codes_bits(x).len() + c.1) as int) == bits_of(c.0, c.1),
{
    let rest = all.subrange((x.len() + 1) as int, all.len() as int);
    assert(all =~= x.push(c).add(rest));
    lemma_codes_bits_append(x.push(c), rest);
    lemma_codes_bits_push(x, c);
    lemma_bits_of_len(c.0, c.1);
    let pos = codes_bits(x).len();
    let b = pad_to_byte(codes_bits(all));
    assert(b.subrange(pos as int, (pos + c.1) as int) =~= bits_of(c.0, c.1));
    lemma_value_of_bits(c.0, c.1);
    vstd::arithmetic::div_mod::lemma_small_mod(c.0, pow2(c.1));
}

/// The decoder's state after it has taken the codes `x` from state `s`, each read at
/// the width it was written at; `None` where one of them is read at another width,
/// is out of range, fails or ends the stream.
pub open spec fn dec_codes(s: DecState, x: Seq<Code>) -> Option<DecState>
    decreases x.len(),
{
    if x.len() == 0 {
        Some(s)
    } else {
        match dec_codes(s, x.drop_last()) {
            Some(s1) => {
                let c = x.last();
                if s1.1 == c.1 && c.1 > 0 && c.0 < pow2(c.1) {
                    match dec_step(s1, c.0) {
                        Ok(Some(s2)) => Some(s2),
                        _ => None,
                    }
                } else {
                    None
                }
            },
            None => None,
        }
    }
}

/// Where the decoder takes the start `x` of a stream of codes cleanly, decoding the
/// whole stream is decoding from the end of `x` in the state it reached.
pub proof fn lemma_dec_run_prefix(all: Seq<Code>, x: Seq<Code>)
    requires
        is_prefix(x, all),
        dec_codes(initial_dec_state(), x) is Some,
    ensures
        dec_run(pad_to_byte(codes_bits(all)), initial_dec_state(), 0) == dec_run(
            pad_to_byte(codes_bits(all)),
            dec_codes(initial_dec_state(), x).unwrap(),
            codes_bits(x).len(),
        ),
    decreases x.len(),
{
    if x.len() == 0 {
        assert(codes_bits(x) =~= Seq::<bool>::empty());
    } else {
        let x1 = x.drop_last();
        let c = x.last();
        assert(x1.push(c) =~= x);
        assert(is_prefix(x1, all)) by {
            assert(all.subrange(0, x1.len() as int) =~= x.subrange(0, x1.len() as int));
        }
        lemma_dec_run_prefix(all, x1);
        lemma_read_code(all, x1, c);
        lemma_codes_bits_push(x1, c);
        lemma_bits_of_len(c.0, c.1);
    }
}

/// The decoder's table with the entry that the encoder has learned and the decoder
/// has not yet: the previous code's string and the first byte of the current match.
pub open spec fn ext_table(t: Table, q: nat, pre: nat) -> Table {
    let x = if pre < t.len() { t[pre as int][0] } else { t[q as int][0] };
    t.push(t[q as int].push(x))
}

/// Each byte stands for itself, the two reserved codes for nothing, and each learned
/// code for some bytes.
pub open spec fn table_ok(t: Table) -> bool {
    &&& FIRST_FREE_CODE <= t.len()
    &&& forall|c: int| 0 <= c < 256 ==> #[trigger] t[c] == seq![c as u8]
    &&& t[CLEAR_CODE as int] == Seq::<u8>::empty()
    &&& t[END_OF_INFORMATION as int] == Seq::<u8>::empty()
    &&& forall|c: int| FIRST_FREE_CODE <= c < t.len() ==> (#[trigger] t[c]).len() > 0
}

/// Each child in the encoder's dictionary stands for its parent's string and one byte.
pub open spec fn trie_ok(d: Dict, u: Table) -> bool {
    forall|p: int, b: u8|
        0 <= p < d.len() && #[trigger] d[p].contains_key(b) ==> FIRST_FREE_CODE <= d[p][b] < d.len() && u[d[p][b] as int]
            == u[p].push(b)
}

/// The decoder, in state `s`, has taken the codes that the encoder, in state `e`, has
/// written after reading `consumed`: both use the same width, the decoder knows every
/// string the encoder learned but the last, and its output followed by the current
/// match is what the encoder read.
pub open spec fn sim(e: EncState, s: DecState, consumed: Seq<u8>) -> bool {
    let (d, w, pre) = e;
    let (t, wd, prev, out) = s;
    &&& enc_state_ok(e)
    &&& wd == w
    &&& table_ok(t)
    &&& match prev {
        None => {
            &&& d == initial_dict()
            &&& t == initial_table()
            &&& w == INITIAL_CODE_WIDTH + 1
            &&& pre < 256
            &&& out.push(pre as u8) == consumed
        },
        Some(q) => {
            let u = ext_table(t, q, pre);
            &&& d.len() == t.len() + 1
            &&& q < t.len()
            &&& q != CLEAR_CODE
            &&& q != END_OF_INFORMATION
            &&& pre <= t.len()
            &&& pre != CLEAR_CODE
            &&& pre != END_OF_INFORMATION
            &&& trie_ok(d, u)
            &&& out.add(u[pre as int]) == consumed
        },
    }
}

/// The table right after a clear is well formed.
proof fn lemma_initial_table_ok()
    ensures
        table_ok(initial_table()),
{
}

/// Extending the match writes nothing and keeps the two sides in step.
proof fn lemma_sim_match(e: EncState, s: DecState, consumed: Seq<u8>, b: u8)
    requires
        sim(e, s, consumed),
        e.0[e.2 as int].contains_key(b),
    ensures
        enc_step(e, b).1 == Seq::<Code>::empty(),
        sim(enc_step(e, b).0, s, consumed.push(b)),
{
    let (d, w, pre) = e;
    let (t, wd, prev, out) = s;
    lemma_enc_step_ok(e, b);
    match prev {
        None => {
            assert(d[pre as int] == Map::<u8, u16>::empty());
        },
        Some(q) => {
            let u = ext_table(t, q, pre);
            let c = d[pre as int][b] as nat;
            assert(u[c as int] == u[pre as int].push(b));
            let n = t.len();
            assert(u[pre as int].len() > 0) by {
                if pre < n && pre >= FIRST_FREE_CODE {
                    assert(t[pre as int].len() > 0);
                } else if pre < 256 {
                    assert(t[pre as int] == seq![pre as u8]);
                }
            }
            assert(t[q as int].len() > 0) by {
                if q >= FIRST_FREE_CODE {
                    assert(t[q as int].len() > 0);
                } else {
                    assert(t[q as int] == seq![q as u8]);
                }
            }
            assert(ext_table(t, q, c) == u) by {
                assert(u[c as int][0] == u[pre as int][0]);
            }
            assert(out.add(u[c as int]) =~= consumed.push(b));
        },
    }
}

/// Taking one code is one step of the decoder, where it reads the code at its width.
proof fn lemma_dec_codes_one(s: DecState, c: Code)
    ensures
        dec_codes(s, seq![c]) == (if s.1 == c.1 && c.1 > 0 && c.0 < pow2(c.1) {
            match dec_step(s, c.0) {
                Ok(Some(s2)) => Some(s2),
                _ => None,
            }
        } else {
            None
        }),
{
    assert(seq![c].drop_last() =~= Seq::<Code>::empty());
    assert(dec_codes(s, Seq::<Code>::empty()) == Some(s));
    assert(seq![c].last() == c);
}

/// Taking two codes is taking the first, then the second.
proof fn lemma_dec_codes_two(s: DecState, c1: Code, c2: Code)
    ensures
        dec_codes(s, seq![c1, c2]) == match dec_codes(s, seq![c1]) {
            Some(s1) => dec_codes(s1, seq![c2]),
            None => None,
        },
{
    assert(seq![c1, c2].drop_last() =~= seq![c1]);
    lemma_dec_codes_one(s, c1);
    lemma_dec_codes_one(dec_codes(s, seq![c1]).unwrap(), c2);
}

/// Writing the first code after a clear keeps the two sides in step.
proof fn lemma_sim_emit_fresh(e: EncState, s: DecState, consumed: Seq<u8>, b: u8)
    requires
        sim(e, s, consumed),
        s.2 is None,
        !e.0[e.2 as int].contains_key(b),
    ensures
        dec_codes(s, enc_step(e, b).1) is Some,
        sim(enc_step(e, b).0, dec_codes(s, enc_step(e, b).1).unwrap(), consumed.push(b)),
{
    let (d, w, pre) = e;
    let (t, wd, prev, out) = s;
    lemma2_to64();
    lemma_enc_step_ok(e, b);
    let step = enc_step(e, b);
    assert(d.len() == 258);
    assert(step.1 == seq![(pre, w)]);
    lemma_dec_codes_one(s, (pre, w));
    let s1 = (t, w, Some(pre), out.push(pre as u8));
    assert(dec_step(s, pre) == Ok::<Option<DecState>, DecodeError>(Some(s1)));
    let u = ext_table(t, pre, b as nat);
    assert(t[b as int] == seq![b]);
    assert(t[pre as int] == seq![pre as u8]);
    let d2 = step.0.0;
    assert(d2 == d.update(pre as int, d[pre as int].insert(b, 258u16)).push(Map::empty()));
    assert(trie_ok(d2, u)) by {
        assert forall|p: int, c: u8| 0 <= p < d2.len() && #[trigger] d2[p].contains_key(c) implies FIRST_FREE_CODE
            <= d2[p][c] < d2.len() && u[d2[p][c] as int] == u[p].push(c) by {
            assert(p == pre && c == b);
        }
    }
    assert(out.push(pre as u8).add(u[b as int]) =~= consumed.push(b));
}

/// Writing a match while the decoder follows keeps the two sides in step: the decoder
/// learns what the encoder learned one code before, and both widen or clear together.
#[verifier::rlimit(60)]
proof fn lemma_sim_emit_active(e: EncState, s: DecState, consumed: Seq<u8>, b: u8)
    requires
        sim(e, s, consumed),
        s.2 is Some,
        !e.0[e.2 as int].contains_key(b),
    ensures
        dec_codes(s, enc_step(e, b).1) is Some,
        sim(enc_step(e, b).0, dec_codes(s, enc_step(e, b).1).unwrap(), consumed.push(b)),
{
    let (d, w, pre) = e;
    let (t, wd, prev, out) = s;
    let q = prev.unwrap();
    let n = t.len();
    let u = ext_table(t, q, pre);
    lemma2_to64();
    lemma_enc_step_ok(e, b);
    let step = enc_step(e, b);
    assert(pre < pow2(w));
    assert(n + 1 <= pow2(w));
    assert(w <= 12);
    assert(n < MAX_TABLE_SIZE) by {
        if w < 12 {
            vstd::arithmetic::power2::lemma_pow2_strictly_increases(w, 12);
        }
    }
    assert(t[q as int].len() > 0) by {
        if q >= FIRST_FREE_CODE {
            assert(t[q as int].len() > 0);
        } else {
            assert(t[q as int] == seq![q as u8]);
        }
    }
    let cur = if pre == n { t[q as int].push(t[q as int][0]) } else { t[pre as int] };
    assert(cur == u[pre as int]);
    assert(cur.len() > 0) by {
        if pre < n && pre >= FIRST_FREE_CODE {
            assert(t[pre as int].len() > 0);
        } else if pre < 256 {
            assert(t[pre as int] == seq![pre as u8]);
        }
    }
    assert(t.push(t[q as int].push(cur[0])) == u);
    let w2 = if n + 1 == pow2(w) && w < MAX_CODE_WIDTH { w + 1 } else { w };
    let s1 = (u, w2, Some(pre), out.add(cur));
    assert(dec_step(s, pre) == Ok::<Option<DecState>, DecodeError>(Some(s1)));
    lemma_dec_codes_one(s, (pre, w));
    assert(dec_codes(s, seq![(pre, w)]) == Some(s1));
    assert(table_ok(u)) by {
        assert forall|c: int| 0 <= c < 256 implies #[trigger] u[c] == seq![c as u8] by {
            assert(t[c] == seq![c as u8]);
        }
        assert forall|c: int| FIRST_FREE_CODE <= c < u.len() implies (#[trigger] u[c]).len() > 0 by {
            if c < n {
                assert(t[c].len() > 0);
            }
        }
    }
    assert(out.add(cur) == consumed);
    if n + 1 == pow2(w) && w >= MAX_CODE_WIDTH {
        assert(step.1 == seq![(pre, w), (CLEAR_CODE as nat, MAX_CODE_WIDTH as nat)]);
        lemma_dec_codes_two(s, (pre, w), (CLEAR_CODE as nat, MAX_CODE_WIDTH as nat));
        lemma_dec_codes_one(s1, (CLEAR_CODE as nat, MAX_CODE_WIDTH as nat));
        let s2 = (initial_table(), (INITIAL_CODE_WIDTH + 1) as nat, None::<nat>, out.add(cur));
        assert(dec_step(s1, CLEAR_CODE as nat) == Ok::<Option<DecState>, DecodeError>(Some(s2)));
        lemma_initial_table_ok();
        assert(out.add(cur).push(b) == consumed.push(b));
    } else {
        assert(step.1 == seq![(pre, w)]);
        let d2 = d.update(pre as int, d[pre as int].insert(b, (n + 1) as u16)).push(Map::empty());
        assert(step.0 == (d2, w2, b as nat));
        let u2 = ext_table(u, pre, b as nat);
        assert(u[b as int] == seq![b]);
        assert(u2 == u.push(u[pre as int].push(b)));
        assert(trie_ok(d2, u2)) by {
            assert forall|p: int, c: u8| 0 <= p < d2.len() && #[trigger] d2[p].contains_key(c) implies FIRST_FREE_CODE
                <= d2[p][c] < d2.len() && u2[d2[p][c] as int] == u2[p].push(c) by {
                if p == pre && c == b {
                    assert(d2[p][c] == n + 1);
                } else {
                    assert(p < d.len());
                    assert(d[p].contains_key(c));
                    assert(d2[p][c] == d[p][c]);
                    assert(u[d[p][c] as int] == u[p].push(c));
                }
            }
        }
        assert(out.add(cur).add(u2[b as int]) =~= consumed.push(b));
    }
}

/// Taking two code sequences one after the other is taking the first, then the second.
proof fn lemma_dec_codes_append(s: DecState, x: Seq<Code>, y: Seq<Code>)
    ensures
        dec_codes(s, x.add(y)) == match dec_codes(s, x) {
            Some(s1) => dec_codes(s1, y),
            None => None,
        },
    decreases y.len(),
{
    if y.len() == 0 {
        assert(x.add(y) =~= x);
    } else {
        lemma_dec_codes_append(s, x, y.drop_last());
        assert(x.add(y).drop_last() =~= x.add(y.drop_last()));
        assert(x.add(y).last() == y.last());
    }
}

/// After the encoder has read the first `i + 1` bytes, the decoder has taken every
/// code written so far and is in step with it.
proof fn lemma_sim_fold(data: Seq<u8>, i: nat)
    requires
        i < data.len(),
    ensures
        ({
            let w0 = (INITIAL_CODE_WIDTH + 1) as nat;
            let (e, cs) = enc_fold((initial_dict(), w0, data[0] as nat), data.drop_first().subrange(0, i as int));
            let x = seq![(CLEAR_CODE as nat, w0)].add(cs);
            &&& dec_codes(initial_dec_state(), x) is Some
            &&& sim(e, dec_codes(initial_dec_state(), x).unwrap(), data.subrange(0, (i + 1) as int))
        }),
    decreases i,
{
    let w0 = (INITIAL_CODE_WIDTH + 1) as nat;
    let s0 = (initial_dict(), w0, data[0] as nat);
    let rest = data.drop_first();
    let head = seq![(CLEAR_CODE as nat, w0)];
    lemma2_to64();
    if i == 0 {
        assert(rest.subrange(0, 0) =~= Seq::<u8>::empty());
        assert(head.add(Seq::<Code>::empty()) =~= head);
        lemma_dec_codes_one(initial_dec_state(), (CLEAR_CODE as nat, w0));
        let d0 = (initial_table(), w0, None::<nat>, Seq::<u8>::empty());
        assert(dec_step(initial_dec_state(), CLEAR_CODE as nat) == Ok::<Option<DecState>, DecodeError>(Some(d0)));
        assert(children_in_range(initial_dict()));
        lemma_initial_table_ok();
        assert(Seq::<u8>::empty().push(data[0]) =~= data.subrange(0, 1));
    } else {
        lemma_sim_fold(data, (i - 1) as nat);
        let pre = rest.subrange(0, i as int);
        assert(pre.drop_last() =~= rest.subrange(0, i - 1));
        assert(pre.last() == data[i as int]);
        let before = enc_fold(s0, rest.subrange(0, i - 1));
        let step = enc_step(before.0, data[i as int]);
        assert(enc_fold(s0, pre) == (step.0, before.1.add(step.1)));
        let x = head.add(before.1);
        assert(head.add(before.1.add(step.1)) =~= x.add(step.1));
        lemma_dec_codes_append(initial_dec_state(), x, step.1);
        let ds = dec_codes(initial_dec_state(), x).unwrap();
        let consumed = data.subrange(0, i as int);
        assert(consumed.push(data[i as int]) =~= data.subrange(0, (i + 1) as int));
        if before.0.0[before.0.2 as int].contains_key(data[i as int]) {
            lemma_sim_match(before.0, ds, consumed, data[i as int]);
            assert(step.1.len() == 0);
            assert(dec_codes(ds, step.1) == Some(ds));
        } else if ds.2 is None {
            lemma_sim_emit_fresh(before.0, ds, consumed, data[i as int]);
        } else {
            lemma_sim_emit_active(before.0, ds, consumed, data[i as int]);
        }
    }
}

/// Decompressing what compressing a byte buffer gives returns the buffer: for every
/// byte sequence `data`, a byte sequence whose bits are the codes of `data` followed
/// by the zero bits that fill the last byte decodes to `data`.
pub proof fn lemma_decompress_compress(data: Seq<u8>, packed: Seq<u8>)
    requires
        bytes_bits(packed) == pad_to_byte(codes_bits(lzw_codes(data))),
    ensures
        lzw_decode(packed) == Ok::<Seq<u8>, DecodeError>(data),
{
    let all = lzw_codes(data);
    let bits = pad_to_byte(codes_bits(all));
    lemma2_to64();
    if data.len() == 0 {
        assert(codes_bits(all) =~= Seq::<bool>::empty());
        assert(bits.len() == 0);
        assert(data =~= Seq::<u8>::empty());
    } else {
        let n = data.len();
        let w0 = (INITIAL_CODE_WIDTH + 1) as nat;
        let head = seq![(CLEAR_CODE as nat, w0)];
        let rest = data.drop_first();
        lemma_sim_fold(data, (n - 1) as nat);
        assert(rest.subrange(0, n - 1) =~= rest);
        assert(data.subrange(0, n as int) =~= data);
        let fin = enc_fold((initial_dict(), w0, data[0] as nat), rest);
        let (e, cs) = fin;
        let (d, w, pre) = e;
        let x = head.add(cs);
        let x2 = x.push((pre, w));
        assert(all == x2.push((END_OF_INFORMATION as nat, w)));
        let ds = dec_codes(initial_dec_state(), x).unwrap();
        assert(is_prefix(x, all)) by {
            assert(all.subrange(0, x.len() as int) =~= x);
        }
        assert(is_prefix(x2, all)) by {
            assert(all.subrange(0, x2.len() as int) =~= x2);
        }
        assert(is_prefix(x2.push((END_OF_INFORMATION as nat, w)), all)) by {
            assert(all.subrange(0, all.len() as int) =~= all);
        }
        lemma_dec_run_prefix(all, x);
        assert(pre < pow2(w));
        lemma_read_code(all, x, (pre, w));
        let pos = codes_bits(x).len();
        lemma_codes_bits_push(x, (pre, w));
        lemma_bits_of_len(pre, w);
        let (t, wd, prev, out) = ds;
        let ds1 = match dec_step(ds, pre) {
            Ok(Some(s1)) => s1,
            _ => ds,
        };
        assert(dec_step(ds, pre) is Ok && dec_step(ds, pre).unwrap() is Some && ds1.3 == data && (ds1.1 == w || ds1.1
            == w + 1)) by {
            match prev {
                None => {
                    assert(out.push(pre as u8) == data);
                },
                Some(q) => {
                    let u = ext_table(t, q, pre);
                    assert(t.len() < MAX_TABLE_SIZE) by {
                        if w < 12 {
                            vstd::arithmetic::power2::lemma_pow2_strictly_increases(w, 12);
                        }
                    }
                    assert(t[q as int].len() > 0) by {
                        if q >= FIRST_FREE_CODE {
                            assert(t[q as int].len() > 0);
                        } else {
                            assert(t[q as int] == seq![q as u8]);
                        }
                    }
                    let cur = if pre == t.len() { t[q as int].push(t[q as int][0]) } else { t[pre as int] };
                    assert(cur == u[pre as int]);
                    assert(out.add(cur) == data);
                },
            }
        }
        assert(dec_run(bits, ds, pos) == dec_run(bits, ds1, pos + w));
        let pos2 = pos + w;
        let w1 = ds1.1;
        if pos2 + w1 <= bits.len() {
            lemma_read_code(all, x2, (END_OF_INFORMATION as nat, w));
            assert(codes_bits(x2).len() == pos2);
            if w1 == w + 1 {
                lemma_codes_bits_push(x2, (END_OF_INFORMATION as nat, w));
                lemma_bits_of_len(END_OF_INFORMATION as nat, w);
                let tail = bits.subrange(pos2 as int, (pos2 + w1) as int);
                assert(codes_bits(all).len() == pos2 + w);
                assert(bits[(pos2 + w) as int] == false);
                assert(tail =~= bits_of(END_OF_INFORMATION as nat, w).add(zero_bits(1)));
                lemma_value_of_append(bits_of(END_OF_INFORMATION as nat, w), zero_bits(1));
                lemma_value_of_zero_bits(1);
                lemma_value_of_bits(END_OF_INFORMATION as nat, w);
                vstd::arithmetic::div_mod::lemma_small_mod(END_OF_INFORMATION as nat, pow2(w));
                assert(value_of(tail) == END_OF_INFORMATION);
            }
        }
    }
}

} // verus!
