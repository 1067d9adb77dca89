use vstd::prelude::*;
use vstd::arithmetic::power2::{pow2, lemma2_to64};

use crate::bitio::{BitWriter, Code, bits_of, bytes_bits, codes_bits, pad_to_byte, lemma_codes_bits_push, zero_bits};

verus! {

/// Largest number of dictionary nodes the encoder allocates room for.
pub const MAX_ENTRY_COUNT: usize = 4097;

/// Width of a plain byte; codes start one bit wider.
pub const INITIAL_CODE_WIDTH: u8 = 8;

/// Widest code the coder writes.
pub const MAX_CODE_WIDTH: u8 = 12;

/// Code that tells the decoder to forget what it learned.
pub const CLEAR_CODE: u16 = 256;

/// Code that ends the stream.
pub const END_OF_INFORMATION: u16 = 257;

/// First code given to a learned string.
pub const FIRST_FREE_CODE: u16 = 258;

/// One node of the encoder's dictionary, by how many children it has.
pub enum PrefixTreeNode {
    NoChild,
    Leaf { child_char: u8, child_index: u16 },
    HasNodes { child_indices: Vec<u16> },
}

/// The children of a node: for each byte that extends its string, the code of the
/// longer string.
pub open spec fn node_children(n: PrefixTreeNode) -> Map<u8, u16> {
    match n {
        PrefixTreeNode::NoChild => Map::empty(),
        PrefixTreeNode::Leaf { child_char, child_index } => map![child_char => child_index],
        PrefixTreeNode::HasNodes { child_indices } => Map::new(
            |b: u8| child_indices@[b as int] > 0,
            |b: u8| child_indices@[b as int],
        ),
    }
}

/// The encoder's dictionary as plain values: for each code, its children.
pub type Dict = Seq<Map<u8, u16>>;

/// The dictionary right after a reset: the 256 byte roots and the two reserved codes.
pub open spec fn initial_dict() -> Dict {
    Seq::new(FIRST_FREE_CODE as nat, |i: int| Map::<u8, u16>::empty())
}

/// Whether every child code in `d` is a learned code that `d` holds.
pub open spec fn children_in_range(d: Dict) -> bool {
    forall|p: int, b: u8|
        0 <= p < d.len() && #[trigger] d[p].contains_key(b) ==> FIRST_FREE_CODE <= d[p][b] < d.len()
}

/// Prefix tree of the encoder: node `c` stands for the string of code `c`.
pub struct PrefixTree {
    pub nodes: Vec<PrefixTreeNode>,
    pub code_count: usize,
}

impl View for PrefixTree {
    type V = Dict;

    open spec fn view(&self) -> Dict {
        self.nodes@.map_values(|n: PrefixTreeNode| node_children(n))
    }
}

impl PrefixTree {
    /// Dense nodes have one slot per byte, and children name nodes that exist.
    pub open spec fn wf(&self) -> bool {
        &&& self.code_count == 256
        &&& FIRST_FREE_CODE <= self.nodes@.len() <= MAX_ENTRY_COUNT
        &&& forall|i: int| 0 <= i < self.nodes@.len() ==> match #[trigger] self.nodes@[i] {
            PrefixTreeNode::HasNodes { child_indices } => child_indices@.len() == 256,
            _ => true,
        }
        &&& children_in_range(self@)
    }

    /// A tree with the byte roots and the two reserved codes, for codes of `code_size` bits.
    pub fn new(code_size: u8) -> (r: PrefixTree)
        requires
            code_size == INITIAL_CODE_WIDTH,
        ensures
            r.wf(),
            r@ == initial_dict(),
    {
        let mut tree = PrefixTree { nodes: Vec::with_capacity(MAX_ENTRY_COUNT), code_count: 1usize << code_size };
        assert(1usize << 8u8 == 256) by (bit_vector);
        tree.fill_roots();
        tree
    }

    /// Forgets every learned string.
    pub fn reset(&mut self)
        requires
            old(self).code_count == 256,
        ensures
            final(self).wf(),
            final(self)@ == initial_dict(),
    {
        self.nodes.clear();
        self.fill_roots();
    }

    fn fill_roots(&mut self)
        requires
            old(self).code_count == 256,
            old(self).nodes@.len() == 0,
        ensures
            final(self).wf(),
            final(self)@ == initial_dict(),
    {
        let total = self.code_count + 2;
        let mut i: usize = 0;
        while i < total
            invariant
                total == FIRST_FREE_CODE,
                self.code_count == 256,
                i <= total,
                self.nodes@.len() == i,
                forall|j: int| 0 <= j < i ==> #[trigger] self.nodes@[j] == PrefixTreeNode::NoChild,
            decreases total - i,
        {
            self.nodes.push(PrefixTreeNode::NoChild);
            i = i + 1;
        }
        assert(self@ =~= initial_dict());
    }

    /// The code of the string of `prefix_index` extended by `next_char`, if learned.
    pub fn find_word(&self, prefix_index: u16, next_char: u8) -> (r: Option<u16>)
        requires
            self.wf(),
            prefix_index < self@.len(),
        ensures
            r == (if self@[prefix_index as int].contains_key(next_char) {
                Some(self@[prefix_index as int][next_char])
            } else {
                None::<u16>
            }),
    {
        let prefix = &self.nodes[prefix_index as usize];
        match prefix {
            PrefixTreeNode::NoChild => None,
            PrefixTreeNode::Leaf { child_char, child_index } => {
                if *child_char == next_char {
                    Some(*child_index)
                } else {
                    None
                }
            },
            PrefixTreeNode::HasNodes { child_indices } => {
                let child_index = child_indices[next_char as usize];
                if child_index > 0 {
                    Some(child_index)
                } else {
                    None
                }
            },
        }
    }

    /// Learns the string of `prefix_index` extended by `k` under the next free code,
    /// and returns that code.
    pub fn add(&mut self, prefix_index: u16, k: u8) -> (r: u16)
        requires
            old(self).wf(),
            prefix_index < old(self)@.len(),
            !old(self)@[prefix_index as int].contains_key(k),
            old(self)@.len() < MAX_ENTRY_COUNT,
        ensures
            final(self).wf(),
            r == old(self)@.len(),
            final(self)@ == old(self)@.update(prefix_index as int, old(self)@[prefix_index as int].insert(k, r)).push(
                Map::empty(),
            ),
    {
        let new_index = self.nodes.len() as u16;
        let p = prefix_index as usize;
        let ghost d0 = self@;
        let mut node = PrefixTreeNode::NoChild;
        self.nodes.set_and_swap(p, &mut node);
        let node = match node {
            PrefixTreeNode::NoChild => PrefixTreeNode::Leaf { child_char: k, child_index: new_index },
            PrefixTreeNode::Leaf { child_char, child_index } => {
                let mut children: Vec<u16> = vec![0u16; self.code_count];
                children.set(child_char as usize, child_index);
                children.set(k as usize, new_index);
                PrefixTreeNode::HasNodes { child_indices: children }
            },
            PrefixTreeNode::HasNodes { child_indices } => {
                let mut children = child_indices;
                children.set(k as usize, new_index);
                PrefixTreeNode::HasNodes { child_indices: children }
            },
        };
        proof {
            assert(node_children(node) =~= d0[p as int].insert(k, new_index));
        }
        self.nodes.set(p, node);
        self.nodes.push(PrefixTreeNode::NoChild);
        proof {
            assert(self@ =~= d0.update(p as int, d0[p as int].insert(k, new_index)).push(Map::empty()));
        }
        new_index
    }
}

/// The encoder's state between two input bytes: dictionary, code width, and the code
/// of the longest match so far.
pub type EncState = (Dict, nat, nat);

/// What the encoder does with the next byte `b`: the new state and the codes it writes.
pub open spec fn enc_step(s: EncState, b: u8) -> (EncState, Seq<Code>) {
    let (d, w, prefix) = s;
    if d[prefix as int].contains_key(b) {
        ((d, w, d[prefix as int][b] as nat), Seq::empty())
    } else {
        let new = d.len();
        let d2 = d.update(prefix as int, d[prefix as int].insert(b, new as u16)).push(Map::empty());
        let out = seq![(prefix, w)];
        if new == pow2(w) {
            if w < MAX_CODE_WIDTH {
                ((d2, w + 1, b as nat), out)
            } else {
                ((initial_dict(), (INITIAL_CODE_WIDTH + 1) as nat, b as nat), out.push((CLEAR_CODE as nat, MAX_CODE_WIDTH as nat)))
            }
        } else {
            ((d2, w, b as nat), out)
        }
    }
}

/// The encoder run over `bytes` from state `s`: the state after, and the codes written.
pub open spec fn enc_fold(s: EncState, bytes: Seq<u8>) -> (EncState, Seq<Code>)
    decreases bytes.len(),
{
    if bytes.len() == 0 {
        (s, Seq::empty())
    } else {
        let (s1, c1) = enc_fold(s, bytes.drop_last());
        let (s2, c2) = enc_step(s1, bytes.last());
        (s2, c1.add(c2))
    }
}

/// The codes that encode `data`: a clear code, the codes of the matches, the last
/// match, and the end code; nothing for empty input.
pub open spec fn lzw_codes(data: Seq<u8>) -> Seq<Code> {
    if data.len() == 0 {
        Seq::empty()
    } else {
        let w0 = (INITIAL_CODE_WIDTH + 1) as nat;
        let (s, cs) = enc_fold((initial_dict(), w0, data[0] as nat), data.drop_first());
        seq![(CLEAR_CODE as nat, w0)].add(cs).push((s.2, s.1)).push((END_OF_INFORMATION as nat, s.1))
    }
}

/// The state of the encoder is one that the loop can be in.
pub open spec fn enc_state_ok(s: EncState) -> bool {
    let (d, w, prefix) = s;
    &&& INITIAL_CODE_WIDTH + 1 <= w <= MAX_CODE_WIDTH
    &&& FIRST_FREE_CODE <= d.len() <= pow2(w)
    &&& prefix < d.len()
    &&& children_in_range(d)
}

/// One encoder step keeps the state within the loop's bounds.
pub proof fn lemma_enc_step_ok(s: EncState, b: u8)
    requires
        enc_state_ok(s),
    ensures
        enc_state_ok(enc_step(s, b).0),
{
    let (d, w, prefix) = s;
    lemma2_to64();
    if !d[prefix as int].contains_key(b) {
        let new = d.len();
        let d2 = d.update(prefix as int, d[prefix as int].insert(b, new as u16)).push(Map::empty());
        assert(new < 0x10000) by {
            vstd::arithmetic::power2::lemma_pow2_strictly_increases(w, 16);
        }
        assert(children_in_range(d2)) by {
            assert forall|p: int, c: u8| 0 <= p < d2.len() && #[trigger] d2[p].contains_key(c) implies FIRST_FREE_CODE <= d2[p][c] < d2.len() by {
                if p < d.len() && !(p == prefix && c == b) {
                    assert(d[p].contains_key(c));
                }
            }
        }
        if new == pow2(w) && w < MAX_CODE_WIDTH {
            vstd::arithmetic::power2::lemma_pow2_unfold(w + 1);
        }
        if new == pow2(w) && w >= MAX_CODE_WIDTH {
            assert(children_in_range(initial_dict()));
        }
    }
}

/// Encodes `data` as a stream of variable-width codes, least significant bit first:
/// a clear code, the code of each longest match, the last match and the end code,
/// then zero bits up to a whole byte. Empty input gives empty output.
pub fn lzw_compress(data: &[u8]) -> (r: Vec<u8>)
    ensures
        bytes_bits(r@) == pad_to_byte(codes_bits(lzw_codes(data@))),
        data@.len() == 0 ==> r@.len() == 0,
{
    if data.len() == 0 {
        assert(pad_to_byte(codes_bits(lzw_codes(data@))) =~= Seq::<bool>::empty());
        return Vec::new();
    }
    let mut tree = PrefixTree::new(INITIAL_CODE_WIDTH);
    let mut writer = BitWriter::new();
    let mut write_size: u8 = INITIAL_CODE_WIDTH + 1;
    proof {
        lemma2_to64();
    }
    let mut size_increase_mask: u16 = 1u16 << write_size;
    proof {
        lemma_shl_u16(write_size);
    }
    writer.write(CLEAR_CODE, write_size);
    let mut prefix_index: u16 = data[0] as u16;
    let ghost w0 = (INITIAL_CODE_WIDTH + 1) as nat;
    let ghost s0: EncState = (initial_dict(), w0, data@[0] as nat);
    let ghost head = seq![(CLEAR_CODE as nat, w0)];
    let ghost rest = data@.drop_first();
    proof {
        lemma_codes_bits_push(Seq::<Code>::empty(), (CLEAR_CODE as nat, w0));
        assert(Seq::<Code>::empty().push((CLEAR_CODE as nat, w0)) =~= head);
        assert(codes_bits(Seq::<Code>::empty()) =~= Seq::<bool>::empty());
        assert(writer.bits() =~= codes_bits(head));
        assert(rest.subrange(0, 0) =~= Seq::<u8>::empty());
        assert(head.add(Seq::<Code>::empty()) =~= head);
        assert(children_in_range(initial_dict()));
        assert(enc_state_ok(s0));
    }
    let mut i: usize = 1;
    while i < data.len()
        invariant
            1 <= i <= data@.len(),
            rest == data@.drop_first(),
            s0 == (initial_dict(), w0, data@[0] as nat),
            w0 == 9,
            ({
                let (s, cs) = enc_fold(s0, rest.subrange(0, i - 1));
                &&& enc_state_ok(s)
                &&& tree@ == s.0
                &&& write_size as nat == s.1
                &&& prefix_index as nat == s.2
                &&& size_increase_mask as nat == pow2(s.1)
                &&& writer.bits() == codes_bits(head.add(cs))
            }),
            tree.wf(),
            writer.wf(),
            head == seq![(CLEAR_CODE as nat, w0)],
        decreases data@.len() - i,
    {
        let byte = data[i];
        let ghost before = enc_fold(s0, rest.subrange(0, i - 1));
        let ghost step = enc_step(before.0, byte);
        proof {
            let pre = rest.subrange(0, i as int);
            assert(pre.drop_last() =~= rest.subrange(0, i - 1));
            assert(pre.last() == byte);
            lemma_enc_step_ok(before.0, byte);
            lemma2_to64();
            assert(enc_fold(s0, pre) == (step.0, before.1.add(step.1)));
        }
        match tree.find_word(prefix_index, byte) {
            Some(child_index) => {
                prefix_index = child_index;
                assert(step.1 =~= Seq::<Code>::empty());
                assert(head.add(before.1.add(step.1)) =~= head.add(before.1));
            },
            None => {
                proof {
                    vstd::arithmetic::power2::lemma_pow2_strictly_increases(write_size as nat, 13);
                }
                let ghost cs = head.add(before.1);
                let ghost c1 = cs.push((before.0.2, before.0.1));
                let index_of_new_entry = tree.add(prefix_index, byte);
                writer.write(prefix_index, write_size);
                proof {
                    lemma_codes_bits_push(cs, (before.0.2, before.0.1));
                    assert(writer.bits() == codes_bits(c1));
                }
                prefix_index = byte as u16;
                if index_of_new_entry == size_increase_mask {
                    if write_size < MAX_CODE_WIDTH {
                        write_size = write_size + 1;
                        assert(head.add(before.1.add(step.1)) =~= c1);
                    } else {
                        writer.write(CLEAR_CODE, MAX_CODE_WIDTH);
                        write_size = INITIAL_CODE_WIDTH + 1;
                        tree.reset();
                        proof {
                            lemma_codes_bits_push(c1, (CLEAR_CODE as nat, MAX_CODE_WIDTH as nat));
                            assert(head.add(before.1.add(step.1)) =~= c1.push((CLEAR_CODE as nat, MAX_CODE_WIDTH as nat)));
                        }
                    }
                    proof {
                        lemma2_to64();
                    }
                    size_increase_mask = 1u16 << write_size;
                    proof {
                        lemma_shl_u16(write_size);
                    }
                } else {
                    assert(head.add(before.1.add(step.1)) =~= c1);
                }
                assert(writer.bits() == codes_bits(head.add(before.1.add(step.1))));
            },
        }
        i = i + 1;
    }
    let ghost fin = enc_fold(s0, rest);
    proof {
        assert(rest.subrange(0, data@.len() - 1) =~= rest);
        lemma2_to64();
    }
    writer.write(prefix_index, write_size);
    writer.write(END_OF_INFORMATION, write_size);
    let ghost body = head.add(fin.1);
    proof {
        assert(lzw_codes(data@) == body.push((fin.0.2, fin.0.1)).push((END_OF_INFORMATION as nat, fin.0.1)));
        lemma_codes_bits_push(body, (fin.0.2, fin.0.1));
        lemma_codes_bits_push(body.push((fin.0.2, fin.0.1)), (END_OF_INFORMATION as nat, fin.0.1));
    }
    writer.flush();
    writer.output
}

/// The width-growth threshold for widths 9 to 12.
pub proof fn lemma_shl_u16(w: u8)
    requires
        9 <= w <= 12,
    ensures
        (1u16 << w) as nat == pow2(w as nat),
{
    lemma2_to64();
    assert(1u16 << 9u8 == 512) by (bit_vector);
    assert(1u16 << 10u8 == 1024) by (bit_vector);
    assert(1u16 << 11u8 == 2048) by (bit_vector);
    assert(1u16 << 12u8 == 4096) by (bit_vector);
}

} // verus!
