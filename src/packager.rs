use vstd::prelude::*;
use vstd::utf8::*;

use crate::header::{
    EntryType, Header, ENTRY_SIZE, MAX_SIZE_EXCLUSIVE, NAME_SIZE, SIZE, header_block,
    size_field_ok, size_field_value, until_nul, name_of_field, name_field, size_field,
    lemma_size_field_round_trip, lemma_until_nul_prefix,
};

verus! {

/// One element of an archive: a file with its bytes, or a directory.
#[derive(Debug, Clone, PartialEq)]
pub struct FileEntry {
    /// Relative path inside the archive, with `/` as separator.
    pub name: String,
    /// The file's bytes; empty for a directory.
    pub data: Vec<u8>,
    /// Whether the entry is a directory.
    pub is_dir: bool,
}

/// An entry as plain values: name, bytes, and whether it is a directory.
pub type EntryModel = (Seq<char>, Seq<u8>, bool);

impl View for FileEntry {
    type V = EntryModel;

    open spec fn view(&self) -> EntryModel {
        (self.name@, self.data@, self.is_dir)
    }
}

/// Why an archive could not be read.
#[derive(PartialEq, Eq, Debug, Clone, Copy, Structural)]
pub enum ArchiveError {
    /// A header's type flag is neither `'0'` nor `'1'`, or a file's size field is not octal.
    MalformedHeader,
    /// A file's declared size runs past the end of the archive.
    TruncatedArchive,
}

/// The models of a sequence of entries.
pub open spec fn entries_model(v: Seq<FileEntry>) -> Seq<EntryModel> {
    v.map_values(|e: FileEntry| e@)
}

/// Zero bytes that bring a payload of `n` bytes up to a multiple of 169.
pub open spec fn padding_len(n: nat) -> nat {
    if n % (ENTRY_SIZE as nat) == 0 {
        0
    } else {
        (ENTRY_SIZE - n % (ENTRY_SIZE as nat)) as nat
    }
}

/// `n` zero bytes.
pub open spec fn zeros(n: nat) -> Seq<u8> {
    Seq::new(n, |i: int| 0u8)
}

/// A payload followed by its padding.
pub open spec fn padded(d: Seq<u8>) -> Seq<u8> {
    d.add(zeros(padding_len(d.len())))
}

/// The kind that an entry model stands for.
pub open spec fn kind_of(is_dir: bool) -> EntryType {
    if is_dir {
        EntryType::Directory
    } else {
        EntryType::File
    }
}

/// The bytes that one entry becomes: its header, then for a file its padded bytes.
pub open spec fn record(e: EntryModel) -> Seq<u8> {
    let h = header_block(encode_utf8(e.0), e.1.len(), kind_of(e.2));
    if e.2 {
        h
    } else {
        h.add(padded(e.1))
    }
}

/// The records of a sequence of entries, one after another.
pub open spec fn records(es: Seq<EntryModel>) -> Seq<u8>
    decreases es.len(),
{
    if es.len() == 0 {
        Seq::empty()
    } else {
        records(es.drop_last()).add(record(es.last()))
    }
}

/// The archive of a sequence of entries: their records and two zero blocks.
pub open spec fn archive_of(es: Seq<EntryModel>) -> Seq<u8> {
    records(es).add(zeros(2 * ENTRY_SIZE as nat))
}

/// Whether every entry's size fits the size field.
pub open spec fn sizes_fit(es: Seq<EntryModel>) -> bool {
    forall|k: int| 0 <= k < es.len() ==> (#[trigger] es[k]).1.len() < MAX_SIZE_EXCLUSIVE
}

/// Whether the 169 bytes at `i` are all zero.
pub open spec fn zero_block(a: Seq<u8>, i: int) -> bool {
    forall|j: int| i <= j < i + ENTRY_SIZE ==> #[trigger] a[j] == 0
}

/// `r` with `e` in front, where `r` is a list.
pub open spec fn prepend(e: EntryModel, r: Result<Seq<EntryModel>, ArchiveError>) -> Result<
    Seq<EntryModel>,
    ArchiveError,
> {
    match r {
        Ok(rest) => Ok(seq![e].add(rest)),
        Err(err) => Err(err),
    }
}

/// `acc` followed by `r`, where `r` is a list.
pub open spec fn append_result(acc: Seq<EntryModel>, r: Result<Seq<EntryModel>, ArchiveError>) -> Result<
    Seq<EntryModel>,
    ArchiveError,
> {
    match r {
        Ok(rest) => Ok(acc.add(rest)),
        Err(err) => Err(err),
    }
}

/// The entries read from archive `a` from offset `i` on, where `prior_zero` says
/// whether the block before `i` was all zero. Reading stops at a second zero block
/// in a row, or where no whole block is left.
pub open spec fn parse_from(a: Seq<u8>, i: nat, prior_zero: bool) -> Result<Seq<EntryModel>, ArchiveError>
    decreases a.len() - i,
{
    if i + ENTRY_SIZE > a.len() {
        Ok(Seq::empty())
    } else if zero_block(a, i as int) {
        if prior_zero {
            Ok(Seq::empty())
        } else {
            parse_from(a, i + ENTRY_SIZE as nat, true)
        }
    } else {
        let h = a.subrange(i as int, i + ENTRY_SIZE);
        let flag = h[ENTRY_SIZE - 1];
        let name = name_of_field(h.subrange(0, NAME_SIZE as int));
        let start = i + ENTRY_SIZE;
        if !EntryType::is_flag(flag) {
            Err(ArchiveError::MalformedHeader)
        } else if flag == EntryType::Directory.flag() {
            prepend((name, Seq::empty(), true), parse_from(a, start as nat, false))
        } else {
            let f = h.subrange(NAME_SIZE as int, (NAME_SIZE + SIZE) as int);
            if !size_field_ok(f) {
                Err(ArchiveError::MalformedHeader)
            } else {
                let size = size_field_value(f);
                if start + size > a.len() {
                    Err(ArchiveError::TruncatedArchive)
                } else {
                    let e = (name, a.subrange(start as int, start + size), false);
                    let next = start + size + padding_len(size);
                    if next <= a.len() {
                        prepend(e, parse_from(a, next as nat, false))
                    } else {
                        Ok(seq![e])
                    }
                }
            }
        }
    }
}

/// The entries of an archive.
pub open spec fn parse_archive(a: Seq<u8>) -> Result<Seq<EntryModel>, ArchiveError> {
    parse_from(a, 0, false)
}

/// Appends `src` to `dst`.
fn append_bytes(dst: &mut Vec<u8>, src: &[u8])
    ensures
        final(dst)@ == old(dst)@.add(src@),
{
    let mut i: usize = 0;
    while i < src.len()
        invariant
            i <= src@.len(),
            dst@ =~= old(dst)@.add(src@.subrange(0, i as int)),
        decreases src@.len() - i,
    {
        dst.push(src[i]);
        i = i + 1;
    }
    assert(src@.subrange(0, src@.len() as int) =~= src@);
}

/// Appends `n` zero bytes to `dst`.
fn append_zeros(dst: &mut Vec<u8>, n: usize)
    ensures
        final(dst)@ == old(dst)@.add(zeros(n as nat)),
{
    let mut i: usize = 0;
    while i < n
        invariant
            i <= n,
            dst@ =~= old(dst)@.add(zeros(i as nat)),
        decreases n - i,
    {
        dst.push(0u8);
        i = i + 1;
    }
}

/// Pads a file's bytes with zeros up to the next multiple of 169.
pub fn file_as_entries(file: Vec<u8>) -> (r: Vec<u8>)
    ensures
        r@ == padded(file@),
{
    let mut file = file;
    let rem = file.len() % ENTRY_SIZE;
    let pad = if rem != 0 { ENTRY_SIZE - rem } else { 0 };
    append_zeros(&mut file, pad);
    file
}

/// The archive of a list of entries: each header, each file's padded bytes, then
/// two zero blocks.
pub fn pack_from_file_entries(entries: Vec<FileEntry>) -> (r: Vec<u8>)
    requires
        sizes_fit(entries_model(entries@)),
    ensures
        r@ == archive_of(entries_model(entries@)),
{
    let ghost es = entries_model(entries@);
    let mut stream: Vec<u8> = Vec::new();
    let mut i: usize = 0;
    while i < entries.len()
        invariant
            i <= entries@.len(),
            es == entries_model(entries@),
            sizes_fit(es),
            stream@ == records(es.subrange(0, i as int)),
        decreases entries@.len() - i,
    {
        let entry = &entries[i];
        proof {
            assert(es[i as int] == entry@);
            assert(es[i as int].1.len() < MAX_SIZE_EXCLUSIVE);
        }
        let kind = if entry.is_dir { EntryType::Directory } else { EntryType::File };
        let header = Header::from_values(entry.name.clone(), entry.data.len(), kind);
        let block = header.to_bytes();
        append_bytes(&mut stream, block.as_slice());
        if !entry.is_dir {
            append_bytes(&mut stream, entry.data.as_slice());
            let rem = entry.data.len() % ENTRY_SIZE;
            let pad = if rem != 0 { ENTRY_SIZE - rem } else { 0 };
            append_zeros(&mut stream, pad);
        }
        proof {
            let s = es.subrange(0, i + 1);
            assert(s.drop_last() =~= es.subrange(0, i as int));
            assert(s.last() == entry@);
        }
        i = i + 1;
    }
    assert(es.subrange(0, es.len() as int) =~= es);
    append_zeros(&mut stream, 2 * ENTRY_SIZE);
    stream
}

/// The archive of a list of entries.
pub fn pack_entries(entries: Vec<FileEntry>) -> (r: Vec<u8>)
    requires
        sizes_fit(entries_model(entries@)),
    ensures
        r@ == archive_of(entries_model(entries@)),
{
    pack_from_file_entries(entries)
}

/// Whether every byte of a block is zero.
pub fn block_is_empty(block: &[u8]) -> (r: bool)
    ensures
        r == (forall|j: int| 0 <= j < block@.len() ==> #[trigger] block@[j] == 0),
{
    let mut i: usize = 0;
    while i < block.len()
        invariant
            i <= block@.len(),
            forall|j: int| 0 <= j < i ==> #[trigger] block@[j] == 0,
        decreases block@.len() - i,
    {
        if block[i] != 0 {
            return false;
        }
        i = i + 1;
    }
    true
}

/// Copies the 169 bytes at `i` into a block.
fn copy_block(a: &Vec<u8>, i: usize) -> (r: [u8; ENTRY_SIZE])
    requires
        i + ENTRY_SIZE <= a@.len(),
    ensures
        r@ == a@.subrange(i as int, i + ENTRY_SIZE),
{
    let mut block = [0u8; ENTRY_SIZE];
    let total = a.len();
    let mut k: usize = 0;
    while k < ENTRY_SIZE
        invariant
            k <= ENTRY_SIZE,
            i + ENTRY_SIZE <= a@.len(),
            total == a@.len(),
            block@.len() == ENTRY_SIZE,
            forall|j: int| 0 <= j < k ==> block@[j] == a@[i + j],
        decreases ENTRY_SIZE - k,
    {
        block[k] = a[i + k];
        k = k + 1;
    }
    assert(block@ =~= a@.subrange(i as int, i + ENTRY_SIZE));
    block
}

/// Copies `n` bytes of `a` from offset `start` on.
fn copy_range(a: &Vec<u8>, start: usize, n: usize) -> (r: Vec<u8>)
    requires
        start + n <= a@.len(),
    ensures
        r@ == a@.subrange(start as int, start + n),
{
    let mut out: Vec<u8> = Vec::new();
    let total = a.len();
    let mut k: usize = 0;
    while k < n
        invariant
            k <= n,
            start + n <= a@.len(),
            total == a@.len(),
            out@ =~= a@.subrange(start as int, start + k),
        decreases n - k,
    {
        out.push(a[start + k]);
        k = k + 1;
    }
    out
}

/// Reads the entries of an archive in stream order, without touching any file system.
pub fn unpack_to_file_entries(archive: Vec<u8>) -> (r: Result<Vec<FileEntry>, ArchiveError>)
    ensures
        match r {
            Ok(v) => parse_archive(archive@) == Ok::<Seq<EntryModel>, ArchiveError>(entries_model(v@)),
            Err(e) => parse_archive(archive@) == Err::<Seq<EntryModel>, ArchiveError>(e),
        },
{
    let ghost a = archive@;
    let mut entries: Vec<FileEntry> = Vec::new();
    let mut i: usize = 0;
    let mut block_was_empty = false;
    assert(entries_model(entries@) =~= Seq::<EntryModel>::empty());
    while i <= archive.len() && ENTRY_SIZE <= archive.len() - i
        invariant
            a == archive@,
            i <= a.len(),
            parse_archive(a) == append_result(entries_model(entries@), parse_from(a, i as nat, block_was_empty)),
        decreases a.len() - i,
    {
        let block = copy_block(&archive, i);
        let ghost before = entries_model(entries@);
        if block_is_empty(block.as_slice()) {
            assert(zero_block(a, i as int)) by {
                assert forall|j: int| i <= j < i + ENTRY_SIZE implies #[trigger] a[j] == 0 by {
                    assert(block@[j - i] == a[j]);
                }
            }
            if block_was_empty {
                return Ok(entries);
            }
            block_was_empty = true;
            i = i + ENTRY_SIZE;
            continue;
        }
        assert(!zero_block(a, i as int)) by {
            let j = choose|j: int| 0 <= j < block@.len() && block@[j] != 0;
            assert(a[i + j] == block@[j]);
        }
        block_was_empty = false;
        let header = Header::from_bytes(block);
        let ghost h = a.subrange(i as int, i + ENTRY_SIZE);
        assert(header.name@ =~= h.subrange(0, NAME_SIZE as int));
        assert(header.size@ =~= h.subrange(NAME_SIZE as int, (NAME_SIZE + SIZE) as int));
        assert(header.typeflag@[0] == h[ENTRY_SIZE - 1]);
        let start = i + ENTRY_SIZE;
        let name = header.get_name();
        match EntryType::from_flag(header.typeflag[0]) {
            None => {
                return Err(ArchiveError::MalformedHeader);
            },
            Some(EntryType::Directory) => {
                entries.push(FileEntry { name, data: Vec::new(), is_dir: true });
                assert(entries_model(entries@) =~= before.add(seq![(name@, Seq::<u8>::empty(), true)]));
                i = start;
            },
            Some(EntryType::File) => {
                let size = match header.parse_size() {
                    None => {
                        return Err(ArchiveError::MalformedHeader);
                    },
                    Some(v) => v,
                };
                if size > (archive.len() - start) as u64 {
                    return Err(ArchiveError::TruncatedArchive);
                }
                let size = size as usize;
                let data = copy_range(&archive, start, size);
                let ghost e = (name@, data@, false);
                entries.push(FileEntry { name, data, is_dir: false });
                assert(entries_model(entries@) =~= before.add(seq![e]));
                let rem = size % ENTRY_SIZE;
                let pad = if rem != 0 { ENTRY_SIZE - rem } else { 0 };
                if pad > archive.len() - start - size {
                    assert(before.add(seq![e]).add(Seq::<EntryModel>::empty()) =~= before.add(seq![e]));
                    return Ok(entries);
                }
                i = start + size + pad;
            },
        }
        proof {
            assert forall|x: EntryModel, r: Result<Seq<EntryModel>, ArchiveError>|
                append_result(before, #[trigger] prepend(x, r)) == append_result(before.add(seq![x]), r) by {
                match r {
                    Ok(rest) => {
                        assert(before.add(seq![x].add(rest)) =~= before.add(seq![x]).add(rest));
                    },
                    Err(_) => {},
                }
            }
        }
    }
    assert(entries_model(entries@).add(Seq::<EntryModel>::empty()) =~= entries_model(entries@));
    Ok(entries)
}

/// Reads the entries of an archive in stream order.
pub fn unpack_to_entries(archive: Vec<u8>) -> (r: Result<Vec<FileEntry>, ArchiveError>)
    ensures
        match r {
            Ok(v) => parse_archive(archive@) == Ok::<Seq<EntryModel>, ArchiveError>(entries_model(v@)),
            Err(e) => parse_archive(archive@) == Err::<Seq<EntryModel>, ArchiveError>(e),
        },
{
    unpack_to_file_entries(archive)
}

/// Whether a name can be stored and read back: at most 156 bytes of UTF-8, no NUL.
pub open spec fn name_ok(name: Seq<char>) -> bool {
    let b = encode_utf8(name);
    b.len() <= NAME_SIZE && forall|j: int| 0 <= j < b.len() ==> #[trigger] b[j] != 0
}

/// Whether an entry can be stored and read back: a valid name, a size that the size
/// field can hold, and no bytes for a directory.
pub open spec fn entry_ok(e: EntryModel) -> bool {
    name_ok(e.0) && e.1.len() < MAX_SIZE_EXCLUSIVE && (e.2 ==> e.1.len() == 0)
}

/// A valid name, stored in a name field, reads back as itself.
pub proof fn lemma_name_round_trip(name: Seq<char>)
    requires
        name_ok(name),
    ensures
        name_field(encode_utf8(name)).len() == NAME_SIZE,
        name_of_field(name_field(encode_utf8(name))) == name,
{
    let b = encode_utf8(name);
    let z = Seq::new((NAME_SIZE - b.len()) as nat, |i: int| 0u8);
    if b.len() >= NAME_SIZE {
        assert(b.subrange(0, NAME_SIZE as int) =~= b.add(Seq::<u8>::empty()));
        lemma_until_nul_prefix(b, Seq::<u8>::empty());
    } else {
        lemma_until_nul_prefix(b, z);
    }
    encode_utf8_valid_utf8(name);
    encode_utf8_decode_utf8(name);
}

/// Where the record of a valid entry stands at offset `i` of an archive, reading from
/// `i` yields that entry, then what follows the record.
proof fn lemma_parse_record(a: Seq<u8>, i: nat, prior_zero: bool, e: EntryModel)
    requires
        entry_ok(e),
        i + record(e).len() <= a.len(),
        a.subrange(i as int, (i + record(e).len()) as int) == record(e),
    ensures
        parse_from(a, i, prior_zero) == prepend(e, parse_from(a, i + record(e).len(), false)),
{
    let b = encode_utf8(e.0);
    let kind = kind_of(e.2);
    lemma_name_round_trip(e.0);
    lemma_size_field_round_trip(e.1.len());
    let hb = header_block(b, e.1.len(), kind);
    let r = record(e);
    assert(hb.len() == ENTRY_SIZE);
    let h = a.subrange(i as int, i + ENTRY_SIZE);
    assert(h =~= r.subrange(0, ENTRY_SIZE as int));
    assert(h =~= hb);
    assert(h.subrange(0, NAME_SIZE as int) =~= name_field(b));
    assert(h.subrange(NAME_SIZE as int, (NAME_SIZE + SIZE) as int) =~= size_field(e.1.len()));
    assert(h[ENTRY_SIZE - 1] == kind.flag());
    assert(!zero_block(a, i as int)) by {
        assert(a[i + ENTRY_SIZE - 1] == h[ENTRY_SIZE - 1]);
    }
    let start = i + ENTRY_SIZE;
    if !e.2 {
        let size = e.1.len();
        assert(r =~= hb.add(e.1).add(zeros(padding_len(size))));
        assert(a.subrange(start as int, start + size) =~= e.1) by {
            assert forall|j: int| 0 <= j < size implies a.subrange(start as int, start + size)[j] == e.1[j] by {
                assert(a[start + j] == r[ENTRY_SIZE + j]);
            }
        }
    } else {
        assert(e.1 =~= Seq::<u8>::empty());
    }
}

/// Two zero blocks right after the records end the reading.
proof fn lemma_parse_end(es: Seq<EntryModel>)
    ensures
        parse_from(archive_of(es), records(es).len(), false) == Ok::<Seq<EntryModel>, ArchiveError>(Seq::empty()),
{
    let a = archive_of(es);
    let off = records(es).len();
    assert(zero_block(a, off as int)) by {
        assert forall|j: int| off <= j < off + ENTRY_SIZE implies #[trigger] a[j] == 0 by {
            assert(a[j] == zeros(2 * ENTRY_SIZE as nat)[j - off]);
        }
    }
    assert(zero_block(a, off + ENTRY_SIZE)) by {
        assert forall|j: int| off + ENTRY_SIZE <= j < off + 2 * ENTRY_SIZE implies #[trigger] a[j] == 0 by {
            assert(a[j] == zeros(2 * ENTRY_SIZE as nat)[j - off]);
        }
    }
    assert(parse_from(a, off + ENTRY_SIZE as nat, true) == Ok::<Seq<EntryModel>, ArchiveError>(Seq::empty()));
}

/// The records of the first `k` entries stand at the start of the archive, and
/// reading from their end yields the remaining entries.
#[verifier::rlimit(40)]
proof fn lemma_parse_suffix(es: Seq<EntryModel>, k: nat)
    requires
        k <= es.len(),
        forall|j: int| 0 <= j < es.len() ==> entry_ok(#[trigger] es[j]),
    ensures
        archive_of(es).subrange(0, records(es.subrange(0, k as int)).len() as int) == records(es.subrange(0, k as int)),
        parse_from(archive_of(es), records(es.subrange(0, k as int)).len(), false) == Ok::<Seq<EntryModel>, ArchiveError>(es.subrange(k as int, es.len() as int)),
    decreases es.len() - k,
{
    let a = archive_of(es);
    let pre = records(es.subrange(0, k as int));
    let off = pre.len();
    if k == es.len() {
        assert(es.subrange(0, k as int) =~= es);
        assert(a.subrange(0, off as int) =~= pre);
        lemma_parse_end(es);
        assert(es.subrange(k as int, es.len() as int) =~= Seq::<EntryModel>::empty());
    } else {
        lemma_parse_suffix(es, k + 1);
        let s1 = es.subrange(0, (k + 1) as int);
        assert(s1.drop_last() =~= es.subrange(0, k as int));
        assert(s1.last() == es[k as int]);
        let rec = record(es[k as int]);
        let off1 = records(s1).len();
        assert(records(s1) == pre.add(rec));
        let whole = a.subrange(0, off1 as int);
        assert(whole == pre.add(rec));
        assert(a.subrange(0, off as int) =~= whole.subrange(0, off as int));
        assert(a.subrange(off as int, (off + rec.len()) as int) =~= whole.subrange(off as int, off1 as int));
        assert(whole.subrange(0, off as int) =~= pre);
        assert(whole.subrange(off as int, off1 as int) =~= rec);
        lemma_parse_record(a, off, false, es[k as int]);
        assert(seq![es[k as int]].add(es.subrange((k + 1) as int, es.len() as int)) =~= es.subrange(k as int, es.len() as int));
    }
}

/// Packing a list of valid entries and reading the archive back gives the same list,
/// in the same order, with the same bytes and kinds.
pub proof fn lemma_unpack_pack(es: Seq<EntryModel>)
    requires
        forall|j: int| 0 <= j < es.len() ==> entry_ok(#[trigger] es[j]),
    ensures
        parse_archive(archive_of(es)) == Ok::<Seq<EntryModel>, ArchiveError>(es),
{
    lemma_parse_suffix(es, 0);
    assert(es.subrange(0, 0) =~= Seq::<EntryModel>::empty());
    assert(es.subrange(0, es.len() as int) =~= es);
}

} // verus!
