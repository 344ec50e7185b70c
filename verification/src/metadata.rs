//! Metadata store: durable bookkeeping of one record per `(file path, chunk
//! index)`, persisted in a `sled` key-value tree.
//!
//! A chunk record carries the chunk's original length, the shard
//! configuration it was encoded with, and one checksum per shard; a file
//! record carries the file's size, chunk count and protection time. Records
//! are framed as length-fixed little-endian fields, and keys join a keyspace
//! tag, the path and (for chunks) the index, so that a single ordered byte
//! tree holds the whole catalogue.

use vstd::prelude::*;
use crate::GuardError;

verus! {

/// One byte-per-step power of 256.
pub open spec fn pow256(k: nat) -> int
    decreases k,
{
    if k == 0 {
        1
    } else {
        256 * pow256((k - 1) as nat)
    }
}

/// The `k` little-endian base-256 digits of `x`.
pub open spec fn le_bytes(x: int, k: nat) -> Seq<u8>
    decreases k,
{
    if k == 0 {
        Seq::empty()
    } else {
        seq![(x % 256) as u8] + le_bytes(x / 256, (k - 1) as nat)
    }
}

/// The value of a little-endian base-256 digit string.
pub open spec fn le_val(s: Seq<u8>) -> int
    decreases s.len(),
{
    if s.len() == 0 {
        0
    } else {
        s[0] + 256 * le_val(s.drop_first())
    }
}

/// An 8-byte little-endian field.
pub open spec fn le8(x: u64) -> Seq<u8> {
    le_bytes(x as int, 8)
}

/// Little-endian framing loses nothing: the digits of a value read back as
/// the value.
pub proof fn lemma_le_round_trip(x: int, k: nat)
    requires
        0 <= x < pow256(k),
    ensures
        le_bytes(x, k).len() == k,
        le_val(le_bytes(x, k)) == x,
    decreases k,
{
    if k > 0 {
        vstd::arithmetic::div_mod::lemma_fundamental_div_mod(x, 256);
        assert(x / 256 < pow256((k - 1) as nat)) by (nonlinear_arith)
            requires
                0 <= x,
                x < 256 * pow256((k - 1) as nat),
                x == 256 * (x / 256) + x % 256,
                0 <= x % 256,
                (x % 256) < 256,
        ;
        lemma_le_round_trip(x / 256, (k - 1) as nat);
        assert(le_bytes(x, k).drop_first() =~= le_bytes(x / 256, (k - 1) as nat));
    }
}

/// `u64` values fit in 8 base-256 digits.
pub proof fn lemma_u64_fits()
    ensures
        pow256(8) == 0x1_0000_0000_0000_0000,
{
    reveal_with_fuel(pow256, 9);
}

/// The durable record of one chunk: its place in the file, its true length
/// before padding, the shard configuration it was encoded with, and one
/// checksum per shard.
#[derive(Clone, Debug)]
pub struct ChunkRecord {
    /// The canonical path of the protected file, as bytes.
    pub file_path: Vec<u8>,
    /// The chunk's position in file layout order.
    pub chunk_index: u64,
    /// The chunk's length before shard padding; authoritative for trimming
    /// after reconstruction.
    pub original_length: u64,
    /// The data shard count `n` the chunk was encoded with.
    pub data_shards: u64,
    /// The parity shard count `m` the chunk was encoded with.
    pub parity_shards: u64,
    /// One checksum per shard, in shard order; `n + m` entries.
    pub shard_checksums: Vec<u64>,
}

/// The mathematical view of a `ChunkRecord`.
pub ghost struct ChunkRecordView {
    pub file_path: Seq<u8>,
    pub chunk_index: u64,
    pub original_length: u64,
    pub data_shards: u64,
    pub parity_shards: u64,
    pub shard_checksums: Seq<u64>,
}

impl View for ChunkRecord {
    type V = ChunkRecordView;

    open spec fn view(&self) -> ChunkRecordView {
        ChunkRecordView {
            file_path: self.file_path@,
            chunk_index: self.chunk_index,
            original_length: self.original_length,
            data_shards: self.data_shards,
            parity_shards: self.parity_shards,
            shard_checksums: self.shard_checksums@,
        }
    }
}

/// A path fit for use as a key: nonempty with no zero byte, which the key
/// layout reserves as the separator.
pub open spec fn valid_path(path: Seq<u8>) -> bool {
    &&& path.len() >= 1
    &&& forall|i: int| 0 <= i < path.len() ==> path[i] != 0u8
}

impl ChunkRecordView {
    /// A well-formed chunk record: a keyable path, an accepted shard
    /// configuration and one checksum per shard.
    pub open spec fn wf(&self) -> bool {
        &&& valid_path(self.file_path)
        &&& 1 <= self.data_shards
        &&& 1 <= self.parity_shards
        &&& self.data_shards + self.parity_shards <= 256
        &&& self.shard_checksums.len() == self.data_shards + self.parity_shards
    }
}

/// The serialised checksums, one 8-byte field each.
pub open spec fn checksum_bytes(sums: Seq<u64>) -> Seq<u8>
    decreases sums.len(),
{
    if sums.len() == 0 {
        Seq::empty()
    } else {
        le8(sums[0]) + checksum_bytes(sums.drop_first())
    }
}

/// The serialised form of a chunk record's value: five fixed 8-byte fields,
/// then the checksums.
pub open spec fn record_bytes(r: ChunkRecordView) -> Seq<u8> {
    le8(r.chunk_index) + le8(r.original_length) + le8(r.data_shards) + le8(r.parity_shards) + le8(
        r.shard_checksums.len() as u64,
    ) + checksum_bytes(r.shard_checksums)
}

/// Reads a `u64` back from an 8-byte field.
pub open spec fn le8_val(s: Seq<u8>) -> u64 {
    le_val(s) as u64
}

/// The checksums read back from a serialised checksum block.
pub open spec fn parse_checksums(bytes: Seq<u8>, count: int) -> Seq<u64>
    decreases count,
{
    if count <= 0 {
        Seq::empty()
    } else {
        seq![le8_val(bytes.take(8))] + parse_checksums(bytes.skip(8), count - 1)
    }
}

/// The record read back from a chunk record's value bytes, if they frame a
/// well-formed record for `path`.
pub open spec fn parse_record(bytes: Seq<u8>, path: Seq<u8>) -> Option<ChunkRecordView> {
    if bytes.len() < 40 {
        None
    } else {
        let n = le8_val(bytes.subrange(16, 24));
        let m = le8_val(bytes.subrange(24, 32));
        let count = le8_val(bytes.subrange(32, 40));
        let r = ChunkRecordView {
            file_path: path,
            chunk_index: le8_val(bytes.subrange(0, 8)),
            original_length: le8_val(bytes.subrange(8, 16)),
            data_shards: n,
            parity_shards: m,
            shard_checksums: parse_checksums(bytes.skip(40), count as int),
        };
        if r.wf() && count == n + m && bytes.len() == 40 + 8 * (count as int) {
            Some(r)
        } else {
            None
        }
    }
}

/// Record framing loses nothing: a well-formed record's bytes parse back to
/// the record.
pub proof fn lemma_record_round_trip(r: ChunkRecordView)
    requires
        r.wf(),
    ensures
        parse_record(record_bytes(r), r.file_path) == Some(r),
{
    lemma_u64_fits();
    let bytes = record_bytes(r);
    lemma_le_round_trip(r.chunk_index as int, 8);
    lemma_le_round_trip(r.original_length as int, 8);
    lemma_le_round_trip(r.data_shards as int, 8);
    lemma_le_round_trip(r.parity_shards as int, 8);
    lemma_le_round_trip(r.shard_checksums.len() as int, 8);
    lemma_checksum_bytes_len(r.shard_checksums);
    assert(bytes.subrange(0, 8) =~= le8(r.chunk_index));
    assert(bytes.subrange(8, 16) =~= le8(r.original_length));
    assert(bytes.subrange(16, 24) =~= le8(r.data_shards));
    assert(bytes.subrange(24, 32) =~= le8(r.parity_shards));
    assert(bytes.subrange(32, 40) =~= le8(r.shard_checksums.len() as u64));
    assert(bytes.skip(40) =~= checksum_bytes(r.shard_checksums));
    lemma_parse_checksums_round_trip(r.shard_checksums);
}

/// The checksum block is 8 bytes per checksum.
pub proof fn lemma_checksum_bytes_len(sums: Seq<u64>)
    ensures
        checksum_bytes(sums).len() == 8 * sums.len(),
    decreases sums.len(),
{
    lemma_u64_fits();
    if sums.len() > 0 {
        lemma_le_round_trip(sums[0] as int, 8);
        lemma_checksum_bytes_len(sums.drop_first());
    }
}

/// The checksum block parses back to the checksums.
proof fn lemma_parse_checksums_round_trip(sums: Seq<u64>)
    ensures
        parse_checksums(checksum_bytes(sums), sums.len() as int) == sums,
    decreases sums.len(),
{
    lemma_u64_fits();
    if sums.len() > 0 {
        lemma_le_round_trip(sums[0] as int, 8);
        lemma_checksum_bytes_len(sums.drop_first());
        assert(checksum_bytes(sums).take(8) =~= le8(sums[0]));
        assert(checksum_bytes(sums).skip(8) =~= checksum_bytes(sums.drop_first()));
        lemma_parse_checksums_round_trip(sums.drop_first());
        assert(parse_checksums(checksum_bytes(sums), sums.len() as int) =~= sums);
    } else {
        assert(parse_checksums(checksum_bytes(sums), 0) =~= sums);
    }
}


/// Bounds for little-endian values: `k` digits stay below `256^k`.
pub proof fn lemma_le_val_bound(s: Seq<u8>)
    ensures
        0 <= le_val(s) < pow256(s.len()),
    decreases s.len(),
{
    if s.len() > 0 {
        lemma_le_val_bound(s.drop_first());
        assert(256 * le_val(s.drop_first()) <= 256 * (pow256(s.drop_first().len()) - 1))
            by (nonlinear_arith)
            requires
                le_val(s.drop_first()) <= pow256(s.drop_first().len()) - 1,
        ;
    }
}

/// Appends the 8-byte little-endian form of `x`.
fn push_le8(out: &mut Vec<u8>, x: u64)
    ensures
        final(out)@ == old(out)@ + le8(x),
{
    let ghost start = out@;
    let mut v: u64 = x;
    let mut j: usize = 0;
    while j < 8
        invariant
            j <= 8,
            start + le8(x) == out@ + le_bytes(v as int, (8 - j) as nat),
        decreases 8 - j,
    {
        let ghost v0 = v as int;
        out.push((v % 256) as u8);
        v = v / 256;
        proof {
            assert(le_bytes(v0, (8 - j) as nat) =~= seq![(v0 % 256) as u8] + le_bytes(
                v0 / 256,
                (7 - j) as nat,
            ));
            assert(start + le8(x) =~= out@ + le_bytes(v as int, (7 - j) as nat));
        }
        j += 1;
    }
    proof {
        assert(le_bytes(v as int, 0) =~= Seq::<u8>::empty());
        assert(out@ + Seq::<u8>::empty() =~= out@);
    }
}

/// Reads the `u64` at `pos` from its 8-byte little-endian form.
fn read_le8(bytes: &[u8], pos: usize) -> (r: u64)
    requires
        pos + 8 <= bytes@.len(),
    ensures
        r == le8_val(bytes@.subrange(pos as int, pos as int + 8)),
{
    let ghost field = bytes@.subrange(pos as int, pos as int + 8);
    let blen = bytes.len();
    let mut v: u64 = 0;
    let mut t: usize = 0;
    proof {
        lemma_u64_fits();
        assert(field.skip(8) =~= Seq::<u8>::empty());
        assert(pow256(0) == 1);
    }
    while t < 8
        invariant
            t <= 8,
            blen == bytes@.len(),
            pos + 8 <= blen,
            field == bytes@.subrange(pos as int, pos as int + 8),
            v as int == le_val(field.skip(8 - t as int)),
            v < pow256(t as nat),
            pow256(8) == 0x1_0000_0000_0000_0000,
        decreases 8 - t,
    {
        proof {
            assert(pow256((t + 1) as nat) == 256 * pow256(t as nat));
            assert(256 * (v as int) + 255 < 256 * pow256(t as nat)) by (nonlinear_arith)
                requires
                    v as int <= pow256(t as nat) - 1,
            ;
            assert(pow256((t + 1) as nat) <= pow256(8)) by {
                lemma_pow256_increases((t + 1) as nat, 8);
            };
            let rest = field.skip(7 - t as int);
            assert(rest[0] == bytes@[pos + 7 - t as int]);
            assert(rest.drop_first() =~= field.skip(8 - t as int));
        }
        let b = bytes[pos + (7 - t)];
        v = v * 256 + (b as u64);
        t += 1;
    }
    proof {
        assert(field.skip(0) =~= field);
        lemma_le_val_bound(field);
    }
    v
}

/// Larger digit counts mean no smaller a bound.
proof fn lemma_pow256_increases(a: nat, b: nat)
    requires
        a <= b,
    ensures
        pow256(a) <= pow256(b),
    decreases b,
{
    if a < b {
        lemma_pow256_increases(a, (b - 1) as nat);
        lemma_pow256_pos((b - 1) as nat);
        assert(pow256(b) == 256 * pow256((b - 1) as nat));
        assert(pow256((b - 1) as nat) <= 256 * pow256((b - 1) as nat)) by (nonlinear_arith)
            requires
                pow256((b - 1) as nat) >= 1,
        ;
    }
}

/// Powers of 256 are positive.
proof fn lemma_pow256_pos(k: nat)
    ensures
        pow256(k) >= 1,
    decreases k,
{
    if k > 0 {
        lemma_pow256_pos((k - 1) as nat);
        assert(256 * pow256((k - 1) as nat) >= pow256((k - 1) as nat)) by (nonlinear_arith)
            requires
                pow256((k - 1) as nat) >= 1,
        ;
    }
}

/// Copies a byte slice into an owned vector.
pub fn bytes_to_vec(src: &[u8]) -> (r: Vec<u8>)
    ensures
        r@ == src@,
{
    let mut out: Vec<u8> = Vec::new();
    let mut i: usize = 0;
    while i < src.len()
        invariant
            i <= src@.len(),
            out@ =~= src@.take(i as int),
        decreases src@.len() - i,
    {
        out.push(src[i]);
        i += 1;
    }
    proof {
        assert(src@.take(src@.len() as int) =~= src@);
    }
    out
}

/// Compares two byte strings for equality.
pub fn bytes_eq(a: &[u8], b: &[u8]) -> (r: bool)
    ensures
        r <==> a@ == b@,
{
    if a.len() != b.len() {
        return false;
    }
    let mut i: usize = 0;
    while i < a.len()
        invariant
            a@.len() == b@.len(),
            i <= a@.len(),
            forall|k: int| 0 <= k < i ==> a@[k] == b@[k],
        decreases a@.len() - i,
    {
        if a[i] != b[i] {
            return false;
        }
        i += 1;
    }
    proof {
        assert(a@ =~= b@);
    }
    true
}

/// Decides whether a path can serve as a key.
pub fn check_valid_path(path: &[u8]) -> (r: bool)
    ensures
        r == valid_path(path@),
{
    if path.len() == 0 {
        return false;
    }
    let mut i: usize = 0;
    while i < path.len()
        invariant
            i <= path@.len(),
            forall|k: int| 0 <= k < i ==> path@[k] != 0u8,
        decreases path@.len() - i,
    {
        if path[i] == 0 {
            return false;
        }
        i += 1;
    }
    true
}

/// Serialises a chunk record's value.
pub fn encode_record(rec: &ChunkRecord) -> (r: Vec<u8>)
    ensures
        r@ == record_bytes(rec@),
{
    let mut out: Vec<u8> = Vec::new();
    push_le8(&mut out, rec.chunk_index);
    push_le8(&mut out, rec.original_length);
    push_le8(&mut out, rec.data_shards);
    push_le8(&mut out, rec.parity_shards);
    push_le8(&mut out, rec.shard_checksums.len() as u64);
    let ghost head = out@;
    let mut i: usize = 0;
    while i < rec.shard_checksums.len()
        invariant
            i <= rec.shard_checksums@.len(),
            out@ == head + checksum_bytes(rec.shard_checksums@.take(i as int)),
        decreases rec.shard_checksums@.len() - i,
    {
        proof {
            lemma_checksum_bytes_take_step(rec.shard_checksums@, i as int);
        }
        push_le8(&mut out, rec.shard_checksums[i]);
        proof {
            assert(out@ =~= head + checksum_bytes(rec.shard_checksums@.take(i as int + 1)));
        }
        i += 1;
    }
    proof {
        assert(rec.shard_checksums@.take(rec.shard_checksums@.len() as int)
            =~= rec.shard_checksums@);
        assert(out@ =~= record_bytes(rec@));
    }
    out
}

/// One more checksum extends the block by its 8 bytes.
proof fn lemma_checksum_bytes_take_step(sums: Seq<u64>, i: int)
    requires
        0 <= i < sums.len(),
    ensures
        checksum_bytes(sums.take(i + 1)) == checksum_bytes(sums.take(i)) + le8(sums[i]),
    decreases i,
{
    if i == 0 {
        assert(sums.take(1)[0] == sums[0]);
        assert(sums.take(1).drop_first() =~= Seq::<u64>::empty());
        assert(sums.take(0) =~= Seq::<u64>::empty());
        assert(checksum_bytes(sums.take(1)) =~= checksum_bytes(sums.take(0)) + le8(sums[0]));
    } else {
        lemma_checksum_bytes_take_step(sums.drop_first(), i - 1);
        assert(sums.take(i + 1)[0] == sums[0]);
        assert(sums.take(i + 1).drop_first() =~= sums.drop_first().take(i));
        assert(sums.take(i).drop_first() =~= sums.drop_first().take(i - 1));
        assert(sums.take(i)[0] == sums[0]);
        assert(sums.drop_first()[i - 1] == sums[i]);
        assert(checksum_bytes(sums.take(i + 1)) =~= checksum_bytes(sums.take(i)) + le8(sums[i]));
    }
}

/// Parses a chunk record's value for the file at `path`; `None` when the
/// bytes do not frame a well-formed record.
pub fn decode_record(bytes: &[u8], path: &[u8]) -> (r: Option<ChunkRecord>)
    ensures
        match r {
            Some(rec) => parse_record(bytes@, path@) == Some(rec@),
            None => parse_record(bytes@, path@) is None,
        },
{
    if bytes.len() < 40 {
        return None;
    }
    let chunk_index = read_le8(bytes, 0);
    let original_length = read_le8(bytes, 8);
    let n = read_le8(bytes, 16);
    let m = read_le8(bytes, 24);
    let count = read_le8(bytes, 32);
    if n < 1 || m < 1 || n > 256 || m > 256 || n + m > 256 || count != n + m {
        return None;
    }
    if !check_valid_path(path) {
        return None;
    }
    let count_us = count as usize;
    if bytes.len() != 40 + 8 * count_us {
        return None;
    }
    let mut sums: Vec<u64> = Vec::new();
    let ghost tail = bytes@.skip(40);
    let mut i: usize = 0;
    while i < count_us
        invariant
            i <= count_us,
            count_us == count as int,
            count <= 256,
            bytes@.len() == 40 + 8 * count_us,
            tail == bytes@.skip(40),
            sums@.len() == i,
            parse_checksums(tail, count as int) == sums@ + parse_checksums(
                bytes@.skip(40 + 8 * i as int),
                count as int - i as int,
            ),
        decreases count_us - i,
    {
        let ghost rest = bytes@.skip(40 + 8 * i as int);
        proof {
            assert(rest.take(8) =~= bytes@.subrange(40 + 8 * i as int, 40 + 8 * i as int + 8));
            assert(rest.skip(8) =~= bytes@.skip(40 + 8 * (i as int + 1)));
        }
        let v = read_le8(bytes, 40 + 8 * i);
        sums.push(v);
        proof {
            assert(parse_checksums(rest, count as int - i as int) =~= seq![le8_val(rest.take(8))]
                + parse_checksums(rest.skip(8), count as int - i as int - 1));
            assert(parse_checksums(tail, count as int) =~= sums@ + parse_checksums(
                bytes@.skip(40 + 8 * (i as int + 1)),
                count as int - (i as int + 1),
            ));
        }
        i += 1;
    }
    proof {
        assert(parse_checksums(bytes@.skip(40 + 8 * count as int), 0) =~= Seq::<u64>::empty());
        assert(sums@ + Seq::<u64>::empty() =~= sums@);
    }
    let rec = ChunkRecord {
        file_path: bytes_to_vec(path),
        chunk_index,
        original_length,
        data_shards: n,
        parity_shards: m,
        shard_checksums: sums,
    };
    proof {
        assert(sums@ == parse_checksums(bytes@.skip(40), count as int));
        assert(sums@.len() == count as int);
        assert(parse_record(bytes@, path@) is Some);
        assert(rec@ == parse_record(bytes@, path@)->0);
    }
    Some(rec)
}


/// `p` is an initial segment of `k`.
pub open spec fn has_prefix(k: Seq<u8>, p: Seq<u8>) -> bool {
    p.len() <= k.len() && k.take(p.len() as int) == p
}

/// The key of a file record: the file keyspace tag, then the path.
pub open spec fn file_key_spec(path: Seq<u8>) -> Seq<u8> {
    seq![102u8] + path
}

/// The key prefix shared by all of one file's chunk records: the chunk
/// keyspace tag, the path, and the zero separator.
pub open spec fn chunk_prefix_spec(path: Seq<u8>) -> Seq<u8> {
    seq![99u8] + path + seq![0u8]
}

/// The key of one chunk record: the file's chunk prefix, then the index.
pub open spec fn chunk_key_spec(path: Seq<u8>, chunk_index: u64) -> Seq<u8> {
    chunk_prefix_spec(path) + le8(chunk_index)
}

/// Chunk keys stay within their file: a chunk key that starts with the chunk
/// prefix of some path belongs to exactly that path. Paths hold no zero
/// byte, so the separator pins where the path ends.
pub proof fn lemma_chunk_prefix_pins_path(path: Seq<u8>, p2: Seq<u8>, chunk_index: u64)
    requires
        valid_path(path),
        valid_path(p2),
        has_prefix(chunk_key_spec(p2, chunk_index), chunk_prefix_spec(path)),
    ensures
        p2 == path,
{
    let k = chunk_key_spec(p2, chunk_index);
    let pre = chunk_prefix_spec(path);
    lemma_u64_fits();
    lemma_le_round_trip(chunk_index as int, 8);
    if path.len() < p2.len() {
        assert(k[path.len() as int + 1] == p2[path.len() as int]);
        assert(k.take(pre.len() as int)[path.len() as int + 1] == 0u8);
        assert(false);
    } else if path.len() > p2.len() {
        assert(k[p2.len() as int + 1] == 0u8);
        assert(k.take(pre.len() as int)[p2.len() as int + 1] == path[p2.len() as int]);
        assert(false);
    } else {
        assert forall|i: int| 0 <= i < path.len() implies path[i] == p2[i] by {
            assert(k[i + 1] == p2[i]);
            assert(k.take(pre.len() as int)[i + 1] == path[i]);
        };
        assert(p2 =~= path);
    }
}

/// A chunk key starts with its file's chunk prefix.
pub proof fn lemma_chunk_key_has_prefix(path: Seq<u8>, chunk_index: u64)
    ensures
        has_prefix(chunk_key_spec(path, chunk_index), chunk_prefix_spec(path)),
{
    assert(chunk_key_spec(path, chunk_index).take(chunk_prefix_spec(path).len() as int)
        =~= chunk_prefix_spec(path));
}

/// Builds the key of a file record.
pub fn file_key(path: &[u8]) -> (r: Vec<u8>)
    ensures
        r@ == file_key_spec(path@),
{
    let mut out: Vec<u8> = Vec::new();
    out.push(102u8);
    let mut i: usize = 0;
    while i < path.len()
        invariant
            i <= path@.len(),
            out@ =~= seq![102u8] + path@.take(i as int),
        decreases path@.len() - i,
    {
        out.push(path[i]);
        i += 1;
    }
    proof {
        assert(out@ =~= file_key_spec(path@));
    }
    out
}

/// Builds the chunk-key prefix of one file.
pub fn chunk_prefix(path: &[u8]) -> (r: Vec<u8>)
    ensures
        r@ == chunk_prefix_spec(path@),
{
    let mut out: Vec<u8> = Vec::new();
    out.push(99u8);
    let mut i: usize = 0;
    while i < path.len()
        invariant
            i <= path@.len(),
            out@ =~= seq![99u8] + path@.take(i as int),
        decreases path@.len() - i,
    {
        out.push(path[i]);
        i += 1;
    }
    out.push(0u8);
    proof {
        assert(out@ =~= chunk_prefix_spec(path@));
    }
    out
}

/// Builds the key of one chunk record.
pub fn chunk_key(path: &[u8], chunk_index: u64) -> (r: Vec<u8>)
    ensures
        r@ == chunk_key_spec(path@, chunk_index),
{
    let mut out = chunk_prefix(path);
    push_le8(&mut out, chunk_index);
    out
}

#[verifier::external_type_specification]
#[verifier::external_body]
pub struct ExSledDb(sled::Db);

/// What the tree durably maps: every key to its value, as byte strings.
pub uninterp spec fn db_contents(db: sled::Db) -> Map<Seq<u8>, Seq<u8>>;

/// Relies on `sled::Tree::insert`: on success the tree maps `key` to
/// `value` and no other pair changes; on failure (a disk fault) it reports
/// an error.
#[verifier::external_body]
fn db_insert(db: &mut sled::Db, key: &[u8], value: &[u8]) -> (r: Result<(), GuardError>)
    ensures
        r is Ok ==> db_contents(*final(db)) == db_contents(*old(db)).insert(key@, value@),
        r matches Err(e) ==> e == GuardError::Io,
{
    match db.insert(key, value) {
        Ok(_) => Ok(()),
        Err(_) => Err(GuardError::Io),
    }
}

/// Relies on `sled::Tree::get`: it returns the value the tree maps `key`
/// to, or `None` when the key is absent.
#[verifier::external_body]
fn db_get(db: &sled::Db, key: &[u8]) -> (r: Result<Option<Vec<u8>>, GuardError>)
    ensures
        r matches Ok(Some(v)) ==> db_contents(*db).contains_key(key@) && db_contents(*db)[key@]
            == v@,
        r matches Ok(v) && v is None ==> !db_contents(*db).contains_key(key@),
        r matches Err(e) ==> e == GuardError::Io,
{
    match db.get(key) {
        Ok(Some(v)) => Ok(Some(v.to_vec())),
        Ok(None) => Ok(None),
        Err(_) => Err(GuardError::Io),
    }
}

/// Relies on `sled::Tree::remove`: on success the key is gone and no other
/// pair changes.
#[verifier::external_body]
fn db_remove(db: &mut sled::Db, key: &[u8]) -> (r: Result<(), GuardError>)
    ensures
        r is Ok ==> db_contents(*final(db)) == db_contents(*old(db)).remove(key@),
        r matches Err(e) ==> e == GuardError::Io,
{
    match db.remove(key) {
        Ok(_) => Ok(()),
        Err(_) => Err(GuardError::Io),
    }
}

/// Relies on `sled::Tree::scan_prefix`: it yields exactly the pairs whose
/// key starts with `prefix`, each key once.
#[verifier::external_body]
fn db_scan_prefix(db: &sled::Db, prefix: &[u8]) -> (r: Result<
    Vec<(Vec<u8>, Vec<u8>)>,
    GuardError,
>)
    ensures
        r matches Ok(entries) ==> {
            &&& (forall|e: int|
                0 <= e < entries.len() ==> {
                    &&& db_contents(*db).contains_key((#[trigger] entries[e]).0@)
                    &&& db_contents(*db)[entries[e].0@] == entries[e].1@
                    &&& has_prefix(entries[e].0@, prefix@)
                })
            &&& (forall|k: Seq<u8>|
                db_contents(*db).contains_key(k) && #[trigger] has_prefix(k, prefix@)
                    ==> exists|e: int| 0 <= e < entries.len() && (#[trigger] entries[e]).0@ == k)
            &&& (forall|e1: int, e2: int|
                0 <= e1 < e2 < entries.len() ==> (#[trigger] entries[e1]).0@ != (
                #[trigger] entries[e2]).0@)
        },
        r matches Err(e) ==> e == GuardError::Io,
{
    let mut out: Vec<(Vec<u8>, Vec<u8>)> = Vec::new();
    for item in db.scan_prefix(prefix) {
        match item {
            Ok((k, v)) => out.push((k.to_vec(), v.to_vec())),
            Err(_) => return Err(GuardError::Io),
        }
    }
    Ok(out)
}

/// Stores the metadata of one chunk: the record becomes the durable value
/// under its `(path, index)` key.
pub fn store_file_metadata(db: &mut sled::Db, rec: &ChunkRecord) -> (r: Result<(), GuardError>)
    requires
        rec@.wf(),
    ensures
        r is Ok ==> db_contents(*final(db)) == db_contents(*old(db)).insert(
            chunk_key_spec(rec@.file_path, rec.chunk_index),
            record_bytes(rec@),
        ),
        r matches Err(e) ==> e == GuardError::Io,
{
    let key = chunk_key(rec.file_path.as_slice(), rec.chunk_index);
    let value = encode_record(rec);
    db_insert(db, key.as_slice(), value.as_slice())
}

/// Reads the metadata of one chunk back: the record stored under the
/// `(path, index)` key, or `None` when the key is absent or its value does
/// not frame a record.
pub fn get_file_metadata(db: &sled::Db, path: &[u8], chunk_index: u64) -> (r: Result<
    Option<ChunkRecord>,
    GuardError,
>)
    ensures
        r matches Ok(Some(rec)) ==> {
            &&& db_contents(*db).contains_key(chunk_key_spec(path@, chunk_index))
            &&& parse_record(db_contents(*db)[chunk_key_spec(path@, chunk_index)], path@)
                == Some(rec@)
        },
        r matches Ok(v) && v is None ==> (!db_contents(*db).contains_key(
            chunk_key_spec(path@, chunk_index),
        ) || parse_record(db_contents(*db)[chunk_key_spec(path@, chunk_index)], path@) is None),
        r matches Err(e) ==> e == GuardError::Io,
{
    let key = chunk_key(path, chunk_index);
    match db_get(db, key.as_slice()) {
        Ok(Some(value)) => Ok(decode_record(value.as_slice(), path)),
        Ok(None) => Ok(None),
        Err(e) => Err(e),
    }
}


/// The durable record of one protected file: its size, chunk count and the
/// time of its last successful protection.
#[derive(Clone, Copy, Debug, PartialEq, Eq, Structural)]
pub struct FileRecord {
    /// The file's size in bytes at its last successful protection.
    pub size: u64,
    /// How many chunk records the file has.
    pub chunk_count: u64,
    /// When the file was last protected, in seconds of the embedder's clock.
    pub last_protected_at: u64,
}

/// The serialised form of a file record: three 8-byte fields.
pub open spec fn file_record_bytes(r: FileRecord) -> Seq<u8> {
    le8(r.size) + le8(r.chunk_count) + le8(r.last_protected_at)
}

/// The file record read back from its value bytes.
pub open spec fn parse_file_record(bytes: Seq<u8>) -> Option<FileRecord> {
    if bytes.len() == 24 {
        Some(
            FileRecord {
                size: le8_val(bytes.subrange(0, 8)),
                chunk_count: le8_val(bytes.subrange(8, 16)),
                last_protected_at: le8_val(bytes.subrange(16, 24)),
            },
        )
    } else {
        None
    }
}

/// File record framing loses nothing.
pub proof fn lemma_file_record_round_trip(r: FileRecord)
    ensures
        parse_file_record(file_record_bytes(r)) == Some(r),
{
    lemma_u64_fits();
    lemma_le_round_trip(r.size as int, 8);
    lemma_le_round_trip(r.chunk_count as int, 8);
    lemma_le_round_trip(r.last_protected_at as int, 8);
    let bytes = file_record_bytes(r);
    assert(bytes.subrange(0, 8) =~= le8(r.size));
    assert(bytes.subrange(8, 16) =~= le8(r.chunk_count));
    assert(bytes.subrange(16, 24) =~= le8(r.last_protected_at));
}

/// Stores the record of one protected file under its file key.
pub fn store_file_record(db: &mut sled::Db, path: &[u8], rec: &FileRecord) -> (r: Result<
    (),
    GuardError,
>)
    requires
        valid_path(path@),
    ensures
        r is Ok ==> db_contents(*final(db)) == db_contents(*old(db)).insert(
            file_key_spec(path@),
            file_record_bytes(*rec),
        ),
        r matches Err(e) ==> e == GuardError::Io,
{
    let key = file_key(path);
    let mut value: Vec<u8> = Vec::new();
    push_le8(&mut value, rec.size);
    push_le8(&mut value, rec.chunk_count);
    push_le8(&mut value, rec.last_protected_at);
    proof {
        assert(value@ =~= file_record_bytes(*rec));
    }
    db_insert(db, key.as_slice(), value.as_slice())
}

/// Reads the record of one protected file back, or `None` when the file has
/// none or its value does not frame a record.
pub fn get_file_record(db: &sled::Db, path: &[u8]) -> (r: Result<Option<FileRecord>, GuardError>)
    ensures
        r matches Ok(Some(rec)) ==> {
            &&& db_contents(*db).contains_key(file_key_spec(path@))
            &&& parse_file_record(db_contents(*db)[file_key_spec(path@)]) == Some(rec)
        },
        r matches Ok(v) && v is None ==> (!db_contents(*db).contains_key(file_key_spec(path@))
            || parse_file_record(db_contents(*db)[file_key_spec(path@)]) is None),
        r matches Err(e) ==> e == GuardError::Io,
{
    let key = file_key(path);
    match db_get(db, key.as_slice()) {
        Ok(Some(value)) => {
            if value.len() != 24 {
                return Ok(None);
            }
            let rec = FileRecord {
                size: read_le8(value.as_slice(), 0),
                chunk_count: read_le8(value.as_slice(), 8),
                last_protected_at: read_le8(value.as_slice(), 16),
            };
            Ok(Some(rec))
        },
        Ok(None) => Ok(None),
        Err(e) => Err(e),
    }
}

/// Reads all chunk records of one file back: exactly the well-formed records
/// stored under the file's chunk keys, each under the index its key names.
pub fn get_file_chunks(db: &sled::Db, path: &[u8]) -> (r: Result<Vec<ChunkRecord>, GuardError>)
    requires
        valid_path(path@),
    ensures
        r matches Ok(recs) ==> {
            &&& (forall|j: int|
                0 <= j < recs.len() ==> {
                    &&& (#[trigger] recs[j])@.wf()
                    &&& recs[j]@.file_path == path@
                    &&& db_contents(*db).contains_key(
                        chunk_key_spec(path@, recs[j]@.chunk_index),
                    )
                    &&& parse_record(
                        db_contents(*db)[chunk_key_spec(path@, recs[j]@.chunk_index)],
                        path@,
                    ) == Some(recs[j]@)
                })
            &&& (forall|chunk_index: u64|
                {
                    let ck = #[trigger] chunk_key_spec(path@, chunk_index);
                    db_contents(*db).contains_key(ck) && parse_record(
                        db_contents(*db)[ck],
                        path@,
                    ) is Some && parse_record(db_contents(*db)[ck], path@)->0.chunk_index
                        == chunk_index ==> exists|j: int|
                        0 <= j < recs.len() && (#[trigger] recs[j])@ == parse_record(
                            db_contents(*db)[ck],
                            path@,
                        )->0
                })
        },
        r matches Err(e) ==> e == GuardError::Io,
{
    let prefix = chunk_prefix(path);
    let entries = match db_scan_prefix(db, prefix.as_slice()) {
        Ok(entries) => entries,
        Err(e) => {
            return Err(e);
        },
    };
    let mut recs: Vec<ChunkRecord> = Vec::new();
    let mut i: usize = 0;
    while i < entries.len()
        invariant
            i <= entries@.len(),
            forall|e: int|
                0 <= e < entries@.len() ==> {
                    &&& db_contents(*db).contains_key((#[trigger] entries@[e]).0@)
                    &&& db_contents(*db)[entries@[e].0@] == entries@[e].1@
                    &&& has_prefix(entries@[e].0@, chunk_prefix_spec(path@))
                },
            forall|j: int|
                0 <= j < recs.len() ==> {
                    &&& (#[trigger] recs[j])@.wf()
                    &&& recs[j]@.file_path == path@
                    &&& db_contents(*db).contains_key(
                        chunk_key_spec(path@, recs[j]@.chunk_index),
                    )
                    &&& parse_record(
                        db_contents(*db)[chunk_key_spec(path@, recs[j]@.chunk_index)],
                        path@,
                    ) == Some(recs[j]@)
                },
            forall|e: int|
                0 <= e < i && parse_record((#[trigger] entries@[e]).1@, path@) is Some
                    && entries@[e].0@ == chunk_key_spec(
                    path@,
                    parse_record(entries@[e].1@, path@)->0.chunk_index,
                ) ==> exists|j: int|
                    0 <= j < recs@.len() && (#[trigger] recs@[j])@ == parse_record(
                        entries@[e].1@,
                        path@,
                    )->0,
        decreases entries@.len() - i,
    {
        let pair = &entries[i];
        let ghost prev = recs@;
        match decode_record(pair.1.as_slice(), path) {
            Some(rec) => {
                let expected = chunk_key(path, rec.chunk_index);
                if bytes_eq(pair.0.as_slice(), expected.as_slice()) {
                    recs.push(rec);
                    proof {
                        assert(recs@[recs@.len() - 1]@ == parse_record(
                            entries@[i as int].1@,
                            path@,
                        )->0);
                    }
                } else {
                    proof {
                        assert(entries@[i as int].0@ != chunk_key_spec(
                            path@,
                            parse_record(entries@[i as int].1@, path@)->0.chunk_index,
                        ));
                    }
                }
            },
            None => {},
        }
        proof {
            assert forall|e: int|
                0 <= e < i + 1 && parse_record((#[trigger] entries@[e]).1@, path@) is Some
                    && entries@[e].0@ == chunk_key_spec(
                    path@,
                    parse_record(entries@[e].1@, path@)->0.chunk_index,
                ) implies exists|j: int|
                0 <= j < recs@.len() && (#[trigger] recs@[j])@ == parse_record(
                    entries@[e].1@,
                    path@,
                )->0 by {
                if e < i {
                    let j = choose|j: int|
                        0 <= j < prev.len() && (#[trigger] prev[j])@ == parse_record(
                            entries@[e].1@,
                            path@,
                        )->0;
                    assert(recs@[j]@ == parse_record(entries@[e].1@, path@)->0);
                }
            };
        }
        i += 1;
    }
    proof {
        assert forall|chunk_index: u64| #![trigger chunk_key_spec(path@, chunk_index)]
            {
                let ck = chunk_key_spec(path@, chunk_index);
                db_contents(*db).contains_key(ck) && parse_record(
                    db_contents(*db)[ck],
                    path@,
                ) is Some && parse_record(db_contents(*db)[ck], path@)->0.chunk_index
                    == chunk_index
            } implies exists|j: int|
            0 <= j < recs@.len() && (#[trigger] recs@[j])@ == parse_record(
                db_contents(*db)[chunk_key_spec(path@, chunk_index)],
                path@,
            )->0 by {
            let ck = chunk_key_spec(path@, chunk_index);
            lemma_chunk_key_has_prefix(path@, chunk_index);
            assert(exists|e: int|
                0 <= e < entries@.len() && (#[trigger] entries@[e]).0@ == ck);
            let e = choose|e: int| 0 <= e < entries@.len() && (#[trigger] entries@[e]).0@ == ck;
            assert(entries@[e].1@ == db_contents(*db)[ck]);
        };
    }
    Ok(recs)
}

/// The keys that belong to one file: its file record and all of its chunk
/// records.
pub open spec fn file_keyset(path: Seq<u8>) -> Set<Seq<u8>> {
    Set::new(|k: Seq<u8>| k == file_key_spec(path) || has_prefix(k, chunk_prefix_spec(path)))
}

/// The keys of the first `i` scanned entries.
spec fn entry_keys(entries: Seq<(Vec<u8>, Vec<u8>)>, i: int) -> Set<Seq<u8>> {
    Set::new(|k: Seq<u8>| exists|e: int| 0 <= e < i && (#[trigger] entries[e]).0@ == k)
}

/// Deletes one file's whole chunk set and file record atomically with
/// respect to the catalogue's view: on success exactly the file's keys are
/// gone.
pub fn delete_file(db: &mut sled::Db, path: &[u8]) -> (r: Result<(), GuardError>)
    requires
        valid_path(path@),
    ensures
        r is Ok ==> db_contents(*final(db)) == db_contents(*old(db)).remove_keys(
            file_keyset(path@),
        ),
        r matches Err(e) ==> e == GuardError::Io,
{
    let prefix = chunk_prefix(path);
    let entries = match db_scan_prefix(db, prefix.as_slice()) {
        Ok(entries) => entries,
        Err(e) => {
            return Err(e);
        },
    };
    let fkey = file_key(path);
    match db_remove(db, fkey.as_slice()) {
        Ok(()) => {},
        Err(e) => {
            return Err(e);
        },
    }
    proof {
        assert(db_contents(*db) =~= db_contents(*old(db)).remove(file_key_spec(path@)).remove_keys(
            entry_keys(entries@, 0),
        ));
    }
    let mut i: usize = 0;
    while i < entries.len()
        invariant
            i <= entries@.len(),
            forall|e: int|
                0 <= e < entries@.len() ==> has_prefix(
                    (#[trigger] entries@[e]).0@,
                    chunk_prefix_spec(path@),
                ),
            forall|k: Seq<u8>|
                db_contents(*old(db)).contains_key(k) && #[trigger] has_prefix(
                    k,
                    chunk_prefix_spec(path@),
                ) ==> exists|e: int|
                    0 <= e < entries@.len() && (#[trigger] entries@[e]).0@ == k,
            db_contents(*db) == db_contents(*old(db)).remove(file_key_spec(path@)).remove_keys(
                entry_keys(entries@, i as int),
            ),
        decreases entries@.len() - i,
    {
        let pair = &entries[i];
        match db_remove(db, pair.0.as_slice()) {
            Ok(()) => {},
            Err(e) => {
                return Err(e);
            },
        }
        proof {
            assert(db_contents(*db) =~= db_contents(*old(db)).remove(
                file_key_spec(path@),
            ).remove_keys(entry_keys(entries@, i as int + 1)));
        }
        i += 1;
    }
    proof {
        assert(db_contents(*db) =~= db_contents(*old(db)).remove_keys(file_keyset(path@)));
    }
    Ok(())
}

/// The listing names exactly the files with a record key in the catalogue.
pub open spec fn file_listing_ok(m: Map<Seq<u8>, Seq<u8>>, paths: Seq<Vec<u8>>) -> bool {
    &&& (forall|j: int|
        0 <= j < paths.len() ==> m.contains_key(file_key_spec((#[trigger] paths[j])@)))
    &&& (forall|k: Seq<u8>|
        m.contains_key(k) && #[trigger] has_prefix(k, seq![102u8]) ==> exists|j: int|
            0 <= j < paths.len() && file_key_spec((#[trigger] paths[j])@) == k)
}

/// Lists the paths of all protected files: exactly those with a file record
/// key in the catalogue.
pub fn list_all_files(db: &sled::Db) -> (r: Result<Vec<Vec<u8>>, GuardError>)
    ensures
        r matches Ok(paths) ==> file_listing_ok(db_contents(*db), paths@),
        r matches Err(e) ==> e == GuardError::Io,
{
    let mut tag: Vec<u8> = Vec::new();
    tag.push(102u8);
    proof {
        assert(tag@ =~= seq![102u8]);
    }
    let entries = match db_scan_prefix(db, tag.as_slice()) {
        Ok(entries) => entries,
        Err(e) => {
            return Err(e);
        },
    };
    let mut paths: Vec<Vec<u8>> = Vec::new();
    let mut i: usize = 0;
    while i < entries.len()
        invariant
            i <= entries@.len(),
            forall|e: int|
                0 <= e < entries@.len() ==> {
                    &&& db_contents(*db).contains_key((#[trigger] entries@[e]).0@)
                    &&& has_prefix(entries@[e].0@, seq![102u8])
                },
            forall|j: int|
                0 <= j < paths.len() ==> db_contents(*db).contains_key(
                    file_key_spec((#[trigger] paths[j])@),
                ),
            forall|e: int|
                0 <= e < i ==> exists|j: int|
                    0 <= j < paths@.len() && file_key_spec((#[trigger] paths@[j])@) == (
                    #[trigger] entries@[e]).0@,
        decreases entries@.len() - i,
    {
        let pair = &entries[i];
        proof {
            assert(pair.0@.len() >= 1);
            assert(pair.0@[0] == 102u8) by {
                assert(pair.0@.take(1)[0] == pair.0@[0]);
            };
        }
        let ghost prev = paths@;
        let stripped = strip_first(pair.0.as_slice());
        proof {
            assert(file_key_spec(stripped@) =~= pair.0@);
        }
        paths.push(stripped);
        proof {
            assert(file_key_spec(paths@[paths@.len() - 1]@) == entries@[i as int].0@);
            assert forall|e: int| 0 <= e < i + 1 implies exists|j: int|
                0 <= j < paths@.len() && file_key_spec((#[trigger] paths@[j])@) == (
                #[trigger] entries@[e]).0@ by {
                if e < i {
                    let j = choose|j: int|
                        0 <= j < prev.len() && file_key_spec((#[trigger] prev[j])@)
                            == entries@[e].0@;
                    assert(file_key_spec(paths@[j]@) == entries@[e].0@);
                } else {
                    assert(file_key_spec(paths@[paths@.len() - 1]@) == entries@[e].0@);
                }
            };
        }
        i += 1;
    }
    proof {
        assert forall|k: Seq<u8>|
            db_contents(*db).contains_key(k) && #[trigger] has_prefix(k, seq![102u8])
            implies exists|j: int|
            0 <= j < paths@.len() && file_key_spec((#[trigger] paths@[j])@) == k by {
            assert(has_prefix(k, tag@));
            assert(exists|e: int| 0 <= e < entries@.len() && (#[trigger] entries@[e]).0@ == k);
            let e = choose|e: int| 0 <= e < entries@.len() && (#[trigger] entries@[e]).0@ == k;
            let j = choose|j: int|
                0 <= j < paths@.len() && file_key_spec((#[trigger] paths@[j])@)
                    == entries@[e].0@;
            assert(file_key_spec(paths@[j]@) == k);
        };
        assert(file_listing_ok(db_contents(*db), paths@));
    }
    Ok(paths)
}

/// Copies a byte slice without its first byte.
fn strip_first(src: &[u8]) -> (r: Vec<u8>)
    requires
        src@.len() >= 1,
    ensures
        r@ == src@.skip(1),
{
    let mut out: Vec<u8> = Vec::new();
    let mut i: usize = 1;
    while i < src.len()
        invariant
            1 <= i <= src@.len(),
            out@ =~= src@.subrange(1, i as int),
        decreases src@.len() - i,
    {
        out.push(src[i]);
        i += 1;
    }
    proof {
        assert(out@ =~= src@.skip(1));
    }
    out
}

} // verus!
