//! The filter for fields that may still be cleared: a field passes when its cells are divisible by
//! four and every projection of it onto twenty cells is marked.

use vstd::prelude::*;
use vstd::string::StringExecFns;
use crate::bits;
use crate::bytes;
use crate::bytes::{has_magic, read_little};
use crate::text;
use crate::text::push_decimal;

verus! {

/// Bytes of one bit set: a bit for each value of twenty bits.
pub const PROJ_BYTES: usize = 131072;

/// Bytes of a filter: a header and eleven bit sets.
pub const PROJ_FILE_LEN: usize = 1441808;

/// `PCPRJ11` and a zero.
pub const BASE_MAGIC: [u8; 8] = [0x50, 0x43, 0x50, 0x52, 0x4A, 0x31, 0x31, 0];

/// `PCPRJX1` and a zero.
pub const EXTRA_MAGIC: [u8; 8] = [0x50, 0x43, 0x50, 0x52, 0x4A, 0x58, 0x31, 0];

/// The cells of each projection: five columns of all rows, or two rows.
pub const CELLS: [[u8; 20]; 11] = [
    [5, 6, 7, 8, 9, 15, 16, 17, 18, 19, 25, 26, 27, 28, 29, 35, 36, 37, 38, 39],
    [0, 1, 2, 3, 4, 10, 11, 12, 13, 14, 20, 21, 22, 23, 24, 30, 31, 32, 33, 34],
    [2, 3, 4, 5, 6, 12, 13, 14, 15, 16, 22, 23, 24, 25, 26, 32, 33, 34, 35, 36],
    [20, 21, 22, 23, 24, 25, 26, 27, 28, 29, 30, 31, 32, 33, 34, 35, 36, 37, 38, 39],
    [0, 3, 4, 5, 9, 10, 13, 14, 15, 19, 20, 23, 24, 25, 29, 30, 33, 34, 35, 39],
    [0, 1, 2, 3, 4, 5, 6, 7, 8, 9, 30, 31, 32, 33, 34, 35, 36, 37, 38, 39],
    [0, 1, 2, 3, 4, 5, 6, 7, 8, 9, 10, 11, 12, 13, 14, 15, 16, 17, 18, 19],
    [10, 11, 12, 13, 14, 15, 16, 17, 18, 19, 30, 31, 32, 33, 34, 35, 36, 37, 38, 39],
    [0, 2, 4, 6, 8, 10, 12, 14, 16, 18, 20, 22, 24, 26, 28, 30, 32, 34, 36, 38],
    [10, 11, 12, 13, 14, 15, 16, 17, 18, 19, 20, 21, 22, 23, 24, 25, 26, 27, 28, 29],
    [0, 1, 2, 3, 4, 5, 6, 7, 8, 9, 20, 21, 22, 23, 24, 25, 26, 27, 28, 29],
];

/* ---- what a filter says ---- */

pub open spec fn pow2(n: nat) -> nat
    decreases n,
{
    if n == 0 {
        1
    } else {
        2 * pow2((n - 1) as nat)
    }
}

/// The field at these cells, read as a number, first cell lowest.
pub open spec fn gathered(x: u64, cells: Seq<int>) -> nat
    decreases cells.len(),
{
    if cells.len() == 0 {
        0
    } else {
        gathered(x, cells.drop_last()) + if bits::bit(x, cells.last()) {
            pow2((cells.len() - 1) as nat)
        } else {
            0
        }
    }
}

/// How many of the first `n` cells are filled.
pub open spec fn filled(x: u64, n: nat) -> nat
    decreases n,
{
    if n == 0 {
        0
    } else {
        filled(x, (n - 1) as nat) + if bits::bit(x, n - 1) {
            1nat
        } else {
            0
        }
    }
}

/// Bit `v` of a bit set that starts at byte `at`.
pub open spec fn member(b: Seq<u8>, at: int, v: nat) -> bool {
    b[at + v / 8] & (1u8 << ((v % 8) as u8)) != 0
}

/// The cells of projection `i`.
pub open spec fn base_cells(i: int) -> Seq<int> {
    Seq::new(20, |j: int| CELLS@[i]@[j] as int)
}

/// The mask of a row holds the column.
pub open spec fn wants(mask: u16, col: int) -> bool {
    (mask >> (col as u16)) & 1 != 0
}

/// The cell of column `n % 16` in row `n / 16`. There are ten columns; what lies beyond them is never
/// filled.
pub open spec fn column_cell(n: int) -> int {
    if n % 16 < 10 {
        10 * (n / 16) + n % 16
    } else {
        -1
    }
}

/// The cells that the masks of the rows pick, as far as the first `n` columns go, sixteen to a row.
pub open spec fn masked_cells(masks: Seq<u16>, n: nat) -> Seq<int>
    decreases n,
{
    if n == 0 {
        seq![]
    } else if wants(masks[(n - 1) / 16], (n - 1) % 16) {
        masked_cells(masks, (n - 1) as nat).push(column_cell(n - 1))
    } else {
        masked_cells(masks, (n - 1) as nat)
    }
}

/// Every cell that the masks pick has one of the first twenty places, so that a bit set has room for
/// whatever is gathered there, and the places of the last row begin within a word of 32 bits.
pub open spec fn masks_ok(masks: Seq<u16>) -> bool {
    &&& masks.len() == 4
    &&& masked_cells(masks, 48).len() < 32
    &&& forall|i: int|
        20 <= i < masked_cells(masks, 64).len() ==> #[trigger] masked_cells(masks, 64)[i] == -1
}

/// One more projection: the cells that it looks at, by row, and its bit set.
pub type Extra = ([u16; 4], Vec<u8>);

pub open spec fn extra_ok(e: Extra) -> bool {
    masks_ok(e.0@) && e.1@.len() == PROJ_BYTES
}

pub open spec fn extra_passes(e: Extra, x: u64) -> bool {
    member(e.1@, 0, gathered(x, masked_cells(e.0@, 64)))
}

/// The field may still be cleared.
pub open spec fn passes(data: Seq<u8>, extra: Seq<Extra>, x: u64) -> bool {
    &&& x < 0x100_0000_0000
    &&& filled(x, 40) % 4 == 0
    &&& forall|i: int|
        0 <= i < 11 ==> #[trigger] member(data, 16 + i * 131072, gathered(x, base_cells(i)))
    &&& forall|i: int| 0 <= i < extra.len() ==> extra_passes(#[trigger] extra[i], x)
}

/// More projections let no more fields pass.
pub proof fn law_extra_only_narrows(data: Seq<u8>, extra: Seq<Extra>, more: Seq<Extra>, x: u64)
    requires
        passes(data, extra + more, x),
    ensures
        passes(data, extra, x),
{
    assert forall|i: int| 0 <= i < extra.len() implies extra_passes(#[trigger] extra[i], x) by {
        assert((extra + more)[i] == extra[i]);
    }
}

proof fn lemma_gathered_bound(x: u64, cells: Seq<int>)
    ensures
        gathered(x, cells) < pow2(cells.len()),
    decreases cells.len(),
{
    if cells.len() > 0 {
        lemma_gathered_bound(x, cells.drop_last());
    }
}

proof fn lemma_pow2_grows(m: nat, n: nat)
    requires
        m <= n,
    ensures
        pow2(m) <= pow2(n),
        pow2(20) == 1048576,
    decreases n,
{
    reveal_with_fuel(pow2, 22);
    if m < n {
        lemma_pow2_grows(m, (n - 1) as nat);
    }
}

/* ---- errors ---- */

/// Why a blob is no filter.
#[derive(Debug)]
pub enum ProjError {
    /// A filter has another length, or begins otherwise.
    BadFilter { len: u64, head: Vec<u8> },
    /// The projections begin otherwise.
    BadExtraMagic,
    /// The projections have another length than `n` of them take.
    BadExtraLen { len: u64, n: u64 },
}

/// Bytes as a list.
pub open spec fn byte_list(b: Seq<u8>) -> Seq<char>
    decreases b.len(),
{
    if b.len() == 0 {
        seq![]
    } else if b.len() == 1 {
        text::decimal(b[0] as nat)
    } else {
        byte_list(b.drop_last()) + ", "@ + text::decimal(b.last() as nat)
    }
}

/// What the error says.
pub open spec fn proj_error_text(e: ProjError) -> Seq<char> {
    match e {
        ProjError::BadFilter { len, head } => "bad proj filter: len "@ + text::decimal(len as nat)
            + " magic ["@ + byte_list(head@) + "]"@,
        ProjError::BadExtraMagic => "bad PCPRJX1 magic"@,
        ProjError::BadExtraLen { len, n } => "bad PCPRJX1 len "@ + text::decimal(len as nat)
            + " (n="@ + text::decimal(n as nat) + ")"@,
    }
}

fn push_bytes(s: &mut String, b: &Vec<u8>)
    ensures
        final(s)@ == old(s)@ + byte_list(b@),
{
    let ghost before = s@;
    let mut i: usize = 0;
    assert(before + byte_list(b@.take(0)) =~= before);
    while i < b.len()
        invariant
            i <= b@.len(),
            s@ == before + byte_list(b@.take(i as int)),
        decreases b@.len() - i,
    {
        proof {
            assert(b@.take(i + 1).drop_last() =~= b@.take(i as int));
            assert(b@.take(i + 1).last() == b@[i as int]);
            if i == 0 {
                assert(b@.take(1)[0] == b@[0]);
                assert(byte_list(b@.take(0)) =~= Seq::<char>::empty());
            }
        }
        if i > 0 {
            s.append(", ");
        }
        push_decimal(s, b[i] as u64);
        assert(s@ =~= before + byte_list(b@.take(i + 1)));
        i = i + 1;
    }
    assert(b@.take(b@.len() as int) =~= b@);
}

impl ProjError {
    pub fn message(&self) -> (s: String)
        ensures
            s@ == proj_error_text(*self),
    {
        let mut s: String = String::new();
        match self {
            ProjError::BadFilter { len, head } => {
                s.append("bad proj filter: len ");
                push_decimal(&mut s, *len);
                s.append(" magic [");
                push_bytes(&mut s, head);
                s.append("]");
            },
            ProjError::BadExtraMagic => {
                s.append("bad PCPRJX1 magic");
            },
            ProjError::BadExtraLen { len, n } => {
                s.append("bad PCPRJX1 len ");
                push_decimal(&mut s, *len);
                s.append(" (n=");
                push_decimal(&mut s, *n);
                s.append(")");
            },
        }
        assert(s@ =~= proj_error_text(*self));
        s
    }
}

/* ---- blobs ---- */

/// The masks of projection `i` in a blob of projections.
pub open spec fn extra_masks(b: Seq<u8>, i: int) -> Seq<u16> {
    Seq::new(4, |r: int| bytes::little(b, 16 + 8 * i + 2 * r, 2) as u16)
}

/// The bit set of projection `i` of `n` in a blob of projections.
pub open spec fn extra_bits(b: Seq<u8>, n: int, i: int) -> Seq<u8> {
    b.subrange(16 + 8 * n + 131072 * i, 16 + 8 * n + 131072 * (i + 1))
}

/// How many projections a blob says that it holds.
pub open spec fn extra_count(b: Seq<u8>) -> nat {
    bytes::little(b, 8, 4)
}

/// A blob of projections as its header says.
pub open spec fn extra_blob(b: Seq<u8>) -> bool {
    &&& b.len() >= 16
    &&& bytes::begins(b, EXTRA_MAGIC)
    &&& b.len() == 16 + extra_count(b) * 8 + extra_count(b) * 131072
}

/// The projection is number `i` of the blob.
pub open spec fn extra_from(e: Extra, b: Seq<u8>, i: int) -> bool {
    e.0@ == extra_masks(b, i) && e.1@ == extra_bits(b, extra_count(b) as int, i)
}

pub struct ProjFilter {
    pub data: Vec<u8>,
    pub extra: Vec<Extra>,
}

impl ProjFilter {
    /// The filter has its eleven bit sets, and each projection that was attached has room for its cells.
    pub open spec fn wf(&self) -> bool {
        &&& self.data@.len() == PROJ_FILE_LEN
        &&& forall|i: int| 0 <= i < self.extra@.len() ==> extra_ok(#[trigger] self.extra@[i])
    }

    /// Whether every field can be put to the filter.
    pub fn is_sound(&self) -> (r: bool)
        ensures
            r == self.wf(),
    {
        if self.data.len() != PROJ_FILE_LEN {
            return false;
        }
        let mut i: usize = 0;
        while i < self.extra.len()
            invariant
                i <= self.extra@.len(),
                forall|j: int| 0 <= j < i ==> extra_ok(#[trigger] self.extra@[j]),
            decreases self.extra@.len() - i,
        {
            let e: &Extra = &self.extra[i];
            if e.1.len() != PROJ_BYTES || !check_masks(&e.0) {
                assert(!extra_ok(self.extra@[i as int]));
                return false;
            }
            i = i + 1;
        }
        true
    }

    pub fn from_bytes(data: Vec<u8>) -> (r: Result<ProjFilter, ProjError>)
        ensures
            r is Ok <==> data@.len() == PROJ_FILE_LEN && bytes::begins(data@, BASE_MAGIC),
            r matches Ok(f) ==> f.wf() && f.data == data && f.extra@.len() == 0,
            r matches Err(e) ==> e matches ProjError::BadFilter { len, head } && len == data@.len()
                && head@ == data@.take(
                if data@.len() < 8 {
                    data@.len() as int
                } else {
                    8
                },
            ),
    {
        if data.len() != PROJ_FILE_LEN || !has_magic(data.as_slice(), &BASE_MAGIC) {
            let mut head: Vec<u8> = Vec::new();
            let mut i: usize = 0;
            while i < data.len() && i < 8
                invariant
                    i <= data@.len(),
                    i <= 8,
                    head@ == data@.take(i as int),
                decreases 8 - i,
            {
                head.push(data[i]);
                i = i + 1;
            }
            return Err(ProjError::BadFilter { len: data.len() as u64, head });
        }
        Ok(ProjFilter { data, extra: Vec::new() })
    }

    /// Attach the projections of a blob.
    pub fn attach_extra(&mut self, data: &[u8]) -> (r: Result<usize, ProjError>)
        ensures
            final(self).data == old(self).data,
            r is Ok <==> extra_blob(data@),
            r matches Err(e) ==> final(self).extra == old(self).extra && e == if data@.len() < 16
                || !bytes::begins(data@, EXTRA_MAGIC) {
                ProjError::BadExtraMagic
            } else {
                ProjError::BadExtraLen { len: data@.len() as u64, n: extra_count(data@) as u64 }
            },
            r matches Ok(n) ==> {
                &&& n == extra_count(data@)
                &&& final(self).extra@.len() == old(self).extra@.len() + n
                &&& forall|i: int|
                    0 <= i < old(self).extra@.len() ==> #[trigger] final(self).extra@[i]
                        == old(self).extra@[i]
                &&& forall|i: int|
                    old(self).extra@.len() <= i < final(self).extra@.len() ==> extra_from(
                        #[trigger] final(self).extra@[i],
                        data@,
                        i - old(self).extra@.len(),
                    )
            },
    {
        if data.len() < 16 || !has_magic(data, &EXTRA_MAGIC) {
            return Err(ProjError::BadExtraMagic);
        }
        let n: u64 = read_little(data, 8, 4);
        let len: usize = data.len();
        proof {
            bytes::lemma_pow256();
            bytes::lemma_little_bound(data@, 8, 4);
        }
        if len as u64 != 16 + n * 8 + n * 131072 {
            return Err(ProjError::BadExtraLen { len: len as u64, n });
        }
        let count: usize = n as usize;
        let ghost before = self.extra@;
        let mut i: usize = 0;
        while i < count
            invariant
                i <= count,
                count == extra_count(data@),
                len == data@.len(),
                data@.len() == 16 + count * 8 + count * 131072,
                self.data == old(self).data,
                before == old(self).extra@,
                self.extra@.len() == before.len() + i,
                forall|j: int|
                    0 <= j < before.len() ==> #[trigger] self.extra@[j] == before[j],
                forall|j: int|
                    before.len() <= j < self.extra@.len() ==> extra_from(
                        #[trigger] self.extra@[j],
                        data@,
                        j - before.len(),
                    ),
            decreases count - i,
        {
            let masks = read_masks(data, i);
            let ghost was = self.extra@;
            let bits = read_bits(data, count, i);
            self.extra.push((masks, bits));
            proof {
                assert forall|j: int|
                    before.len() <= j < self.extra@.len() implies extra_from(
                    #[trigger] self.extra@[j],
                    data@,
                    j - before.len(),
                ) by {
                    if j < was.len() {
                        assert(self.extra@[j] == was[j]);
                    }
                }
            }
            i = i + 1;
        }
        Ok(count)
    }

    /// Whether the field may still be cleared.
    pub fn maybe(&self, x: u64) -> (r: bool)
        requires
            self.wf(),
        ensures
            r == passes(self.data@, self.extra@, x),
    {
        if x >= 0x100_0000_0000 || count_filled(x) % 4 != 0 {
            return false;
        }
        let mut i: usize = 0;
        while i < 11
            invariant
                i <= 11,
                self.wf(),
                forall|k: int|
                    0 <= k < i ==> #[trigger] member(
                        self.data@,
                        16 + k * 131072,
                        gathered(x, base_cells(k)),
                    ),
            decreases 11 - i,
        {
            let v: usize = gather_base(x, i);
            if !has_member(&self.data, 16 + i * 131072, v) {
                return false;
            }
            i = i + 1;
        }
        let mut e: usize = 0;
        while e < self.extra.len()
            invariant
                e <= self.extra@.len(),
                self.wf(),
                forall|k: int| 0 <= k < e ==> extra_passes(#[trigger] self.extra@[k], x),
            decreases self.extra@.len() - e,
        {
            assert(extra_ok(self.extra@[e as int]));
            let v: usize = gather_extra(x, &self.extra[e].0);
            if !has_member(&self.extra[e].1, 0, v) {
                assert(!extra_passes(self.extra@[e as int], x));
                return false;
            }
            e = e + 1;
        }
        true
    }
}

fn read_masks(data: &[u8], i: usize) -> (masks: [u16; 4])
    requires
        16 + 8 * i + 8 <= data@.len(),
    ensures
        masks@ == extra_masks(data@, i as int),
{
    let _len: usize = data.len();
    let at: usize = 16 + 8 * i;
    proof {
        bytes::lemma_pow256();
        bytes::lemma_little_bound(data@, at as int, 2);
        bytes::lemma_little_bound(data@, at + 2, 2);
        bytes::lemma_little_bound(data@, at + 4, 2);
        bytes::lemma_little_bound(data@, at + 6, 2);
    }
    let masks: [u16; 4] = [
        read_little(data, at, 2) as u16,
        read_little(data, at + 2, 2) as u16,
        read_little(data, at + 4, 2) as u16,
        read_little(data, at + 6, 2) as u16,
    ];
    assert(masks@ =~= extra_masks(data@, i as int));
    masks
}

fn read_bits(data: &[u8], n: usize, i: usize) -> (bits: Vec<u8>)
    requires
        i < n,
        data@.len() == 16 + n * 8 + n * 131072,
    ensures
        bits@ == extra_bits(data@, n as int, i as int),
{
    let len: usize = data.len();
    let at: usize = 16 + 8 * n + 131072 * i;
    let mut bits: Vec<u8> = Vec::new();
    let mut j: usize = 0;
    while j < 131072
        invariant
            j <= 131072,
            i < n,
            len == data@.len(),
            data@.len() == 16 + n * 8 + n * 131072,
            at == 16 + 8 * n + 131072 * i,
            bits@ =~= data@.subrange(at as int, at + j),
        decreases 131072 - j,
    {
        bits.push(data[at + j]);
        j = j + 1;
    }
    bits
}

fn has_member(b: &Vec<u8>, at: usize, v: usize) -> (r: bool)
    requires
        at + v / 8 < b@.len(),
    ensures
        r == member(b@, at as int, v as nat),
{
    let _len: usize = b.len();
    b[at + v / 8] & (1u8 << ((v % 8) as u8)) != 0
}

fn count_filled(x: u64) -> (n: u32)
    ensures
        n == filled(x, 40),
{
    let mut n: u32 = 0;
    let mut i: u64 = 0;
    while i < 40
        invariant
            i <= 40,
            n <= i,
            n == filled(x, i as nat),
        decreases 40 - i,
    {
        proof {
            reveal(bits::bit);
        }
        if (x >> i) & 1 == 1 {
            n = n + 1;
        }
        i = i + 1;
    }
    n
}

fn gather_base(x: u64, i: usize) -> (v: usize)
    requires
        i < 11,
    ensures
        v == gathered(x, base_cells(i as int)),
        v < 1048576,
{
    let ghost cells = base_cells(i as int);
    let mut v: usize = 0;
    let mut w: usize = 1;
    let mut j: usize = 0;
    while j < 20
        invariant
            j <= 20,
            i < 11,
            cells == base_cells(i as int),
            v == gathered(x, cells.take(j as int)),
            w == pow2(j as nat),
        decreases 20 - j,
    {
        let c: u64 = CELLS[i][j] as u64;
        proof {
            reveal(bits::bit);
            lemma_gathered_bound(x, cells.take(j as int));
            lemma_pow2_grows(j as nat, 20);
            lemma_pow2_grows((j + 1) as nat, 20);
            assert(cells.take(j + 1).drop_last() =~= cells.take(j as int));
            assert(cells.take(j + 1).last() == c);
            lemma_cell_range(i as int, j as int);
        }
        if (x >> c) & 1 == 1 {
            v = v + w;
        }
        w = w * 2;
        j = j + 1;
    }
    proof {
        assert(cells.take(20) =~= cells);
        lemma_gathered_bound(x, cells);
        lemma_pow2_grows(20, 20);
    }
    v
}

proof fn lemma_cell_range(i: int, j: int)
    requires
        0 <= i < 11,
        0 <= j < 20,
    ensures
        CELLS@[i]@[j] < 40,
{
    let row = CELLS@[i]@;
    assert(i == 0 || i == 1 || i == 2 || i == 3 || i == 4 || i == 5 || i == 6 || i == 7 || i == 8
        || i == 9 || i == 10);
    assert(j == 0 || j == 1 || j == 2 || j == 3 || j == 4 || j == 5 || j == 6 || j == 7 || j == 8
        || j == 9 || j == 10 || j == 11 || j == 12 || j == 13 || j == 14 || j == 15 || j == 16 || j
        == 17 || j == 18 || j == 19);
}

/// The cells of fewer columns are the first of those of more.
proof fn lemma_masked_prefix(masks: Seq<u16>, m: nat, n: nat)
    requires
        m <= n,
    ensures
        masked_cells(masks, m).len() <= masked_cells(masks, n).len(),
        forall|i: int|
            0 <= i < masked_cells(masks, m).len() ==> #[trigger] masked_cells(masks, n)[i]
                == masked_cells(masks, m)[i],
    decreases n,
{
    if m < n {
        lemma_masked_prefix(masks, m, (n - 1) as nat);
    }
}

fn gather_extra(x: u64, masks: &[u16; 4]) -> (v: usize)
    requires
        masks_ok(masks@),
    ensures
        v == gathered(x, masked_cells(masks@, 64)),
        v < 1048576,
{
    let mut v: usize = 0;
    let mut w: usize = 1;
    let mut n: usize = 0;
    let mut t: usize = 0;
    while t < 64
        invariant
            t <= 64,
            n <= t,
            masks_ok(masks@),
            n == masked_cells(masks@, t as nat).len(),
            v == gathered(x, masked_cells(masks@, t as nat)),
            w == pow2(
                if n < 20 {
                    n as nat
                } else {
                    20
                },
            ),
            v < w,
        decreases 64 - t,
    {
        let mask: u16 = masks[t / 16];
        let col: u16 = (t % 16) as u16;
        let ghost was = masked_cells(masks@, t as nat);
        let ghost now = masked_cells(masks@, (t + 1) as nat);
        proof {
            reveal(bits::bit);
            lemma_masked_prefix(masks@, (t + 1) as nat, 64);
            lemma_pow2_grows(
                if n < 20 {
                    n as nat
                } else {
                    20
                },
                20,
            );
        }
        if (mask >> col) & 1 != 0 {
            proof {
                assert(now.drop_last() =~= was);
                assert(masked_cells(masks@, 64)[n as int] == column_cell(t as int));
            }
            if col < 10 && (x >> (10 * (t / 16) as u64 + col as u64)) & 1 == 1 {
                v = v + w;
            }
            if n < 20 {
                w = w * 2;
            }
            n = n + 1;
        }
        t = t + 1;
    }
    proof {
        lemma_pow2_grows(
            if n < 20 {
                n as nat
            } else {
                20
            },
            20,
        );
    }
    v
}

/// Whether a bit set has room for the cells that the masks pick.
fn check_masks(masks: &[u16; 4]) -> (r: bool)
    ensures
        r == masks_ok(masks@),
{
    let mut n: usize = 0;
    let mut t: usize = 0;
    while t < 64
        invariant
            t <= 64,
            n <= t,
            n == masked_cells(masks@, t as nat).len(),
            t > 48 ==> masked_cells(masks@, 48).len() < 32,
            forall|i: int|
                20 <= i < n ==> #[trigger] masked_cells(masks@, t as nat)[i] == -1,
        decreases 64 - t,
    {
        if t == 48 && n >= 32 {
            return false;
        }
        let mask: u16 = masks[t / 16];
        let col: u16 = (t % 16) as u16;
        if (mask >> col) & 1 != 0 {
            if col < 10 && n >= 20 {
                proof {
                    lemma_masked_prefix(masks@, (t + 1) as nat, 64);
                    assert(masked_cells(masks@, (t + 1) as nat)[n as int] == column_cell(t as int));
                    assert(masked_cells(masks@, 64)[n as int] != -1);
                }
                return false;
            }
            n = n + 1;
        }
        t = t + 1;
    }
    true
}

/* ---- what the projections look at ---- */

/// Five columns of projection `i`, where it looks at columns.
pub open spec fn five_columns(i: int) -> Option<Seq<int>> {
    if i == 0 {
        Some(seq![5, 6, 7, 8, 9])
    } else if i == 1 {
        Some(seq![0, 1, 2, 3, 4])
    } else if i == 2 {
        Some(seq![2, 3, 4, 5, 6])
    } else if i == 4 {
        Some(seq![0, 3, 4, 5, 9])
    } else if i == 8 {
        Some(seq![0, 2, 4, 6, 8])
    } else {
        None
    }
}

/// The two rows of projection `i`, where it looks at rows.
pub open spec fn two_rows(i: int) -> (int, int) {
    if i == 3 {
        (2, 3)
    } else if i == 5 {
        (0, 3)
    } else if i == 6 {
        (0, 1)
    } else if i == 7 {
        (1, 3)
    } else if i == 9 {
        (1, 2)
    } else {
        (0, 2)
    }
}

/// A projection looks at five columns of every row, or at all of two rows, from the bottom row up
/// and from the right of the board to the left.
pub proof fn law_projections_look_at_columns_or_rows(i: int, j: int)
    requires
        0 <= i < 11,
        0 <= j < 20,
    ensures
        base_cells(i)[j] == match five_columns(i) {
            Some(columns) => 10 * (j / 5) + columns[j % 5],
            None => 10 * (if j < 10 {
                two_rows(i).0
            } else {
                two_rows(i).1
            }) + j % 10,
        },
{
    let row = CELLS@[i]@;
    assert(i == 0 || i == 1 || i == 2 || i == 3 || i == 4 || i == 5 || i == 6 || i == 7 || i == 8
        || i == 9 || i == 10);
    assert(j == 0 || j == 1 || j == 2 || j == 3 || j == 4 || j == 5 || j == 6 || j == 7 || j == 8
        || j == 9 || j == 10 || j == 11 || j == 12 || j == 13 || j == 14 || j == 15 || j == 16 || j
        == 17 || j == 18 || j == 19);
}

/// The fields look the same at these cells.
pub open spec fn alike(x: u64, y: u64, cells: Seq<int>) -> bool {
    forall|j: int| 0 <= j < cells.len() ==> bits::bit(x, #[trigger] cells[j]) == bits::bit(y, cells[j])
}

/// What is gathered tells exactly how a field looks at the cells.
pub proof fn law_gathered_tells_the_cells(x: u64, y: u64, cells: Seq<int>)
    ensures
        gathered(x, cells) == gathered(y, cells) <==> alike(x, y, cells),
    decreases cells.len(),
{
    if cells.len() > 0 {
        let less = cells.drop_last();
        law_gathered_tells_the_cells(x, y, less);
        lemma_gathered_bound(x, less);
        lemma_gathered_bound(y, less);
        assert(cells[cells.len() - 1] == cells.last());
        assert forall|j: int| 0 <= j < less.len() implies less[j] == cells[j] by {}
        if alike(x, y, cells) {
            assert(alike(x, y, less));
        }
        if alike(x, y, less) && bits::bit(x, cells.last()) == bits::bit(y, cells.last()) {
            assert forall|j: int| 0 <= j < cells.len() implies bits::bit(x, #[trigger] cells[j])
                == bits::bit(y, cells[j]) by {
                if j < less.len() {
                    assert(less[j] == cells[j]);
                }
            }
        }
    }
}

/// A cell that is filled counts in its place, twice as much as the place before.
pub proof fn law_gathered_places(x: u64, y: u64, cells: Seq<int>, j: int)
    requires
        0 <= j < cells.len(),
        bits::bit(x, cells[j]),
        !bits::bit(y, cells[j]),
        forall|i: int|
            0 <= i < cells.len() && i != j ==> bits::bit(x, #[trigger] cells[i]) == bits::bit(
                y,
                cells[i],
            ),
    ensures
        gathered(x, cells) == gathered(y, cells) + pow2(j as nat),
        pow2(0) == 1,
        j > 0 ==> pow2(j as nat) == 2 * pow2((j - 1) as nat),
    decreases cells.len(),
{
    let less = cells.drop_last();
    assert forall|i: int| 0 <= i < less.len() implies less[i] == cells[i] by {}
    if j == cells.len() - 1 {
        assert(alike(x, y, less)) by {
            assert forall|i: int| 0 <= i < less.len() implies bits::bit(x, #[trigger] less[i])
                == bits::bit(y, less[i]) by {
                assert(less[i] == cells[i]);
            }
        }
        law_gathered_tells_the_cells(x, y, less);
    } else {
        assert(cells[cells.len() - 1] == cells.last());
        assert forall|i: int| 0 <= i < less.len() && i != j implies bits::bit(x, #[trigger] less[i])
            == bits::bit(y, less[i]) by {
            assert(less[i] == cells[i]);
        }
        law_gathered_places(x, y, less, j);
    }
}

/// One more cell makes one more.
pub proof fn law_filled_counts(x: u64, c: u64, n: nat)
    requires
        c < 64,
        n <= 64,
        !bits::bit(x, c as int),
    ensures
        filled(0, n) == 0,
        filled(x | (1u64 << c), n) == filled(x, n) + if c < n {
            1nat
        } else {
            0
        },
    decreases n,
{
    if n > 0 {
        law_filled_counts(x, c, (n - 1) as nat);
        bits::lemma_bit_zero(n - 1);
        bits::lemma_bit_or(x, 1u64 << c, n - 1);
        bits::lemma_bit_one(c, n - 1);
    }
}

/// A projection that is not marked, or a number of cells that four does not divide, holds a field
/// back; one more projection holds back what it does not mark, and nothing else.
pub proof fn law_every_projection_counts(
    data: Seq<u8>,
    extra: Seq<Extra>,
    e: Extra,
    x: u64,
    i: int,
)
    ensures
        passes(data, extra.push(e), x) <==> passes(data, extra, x) && extra_passes(e, x),
        0 <= i < 11 && !member(data, 16 + i * 131072, gathered(x, base_cells(i))) ==> !passes(
            data,
            extra,
            x,
        ),
        filled(x, 40) % 4 != 0 ==> !passes(data, extra, x),
        x >= 0x100_0000_0000 ==> !passes(data, extra, x),
{
    let more = extra.push(e);
    assert forall|j: int| 0 <= j < extra.len() implies more[j] == extra[j] by {}
    assert(more[extra.len() as int] == e);
    if passes(data, extra.push(e), x) {
        assert(extra + seq![e] =~= more);
        law_extra_only_narrows(data, extra, seq![e], x);
    }
}

/// Two fields with as many cells that look alike in every projection pass or fail together.
pub proof fn law_alike_fields_pass_together(data: Seq<u8>, extra: Seq<Extra>, x: u64, y: u64)
    requires
        x < 0x100_0000_0000,
        y < 0x100_0000_0000,
        filled(x, 40) % 4 == filled(y, 40) % 4,
        forall|i: int| 0 <= i < 11 ==> alike(x, y, #[trigger] base_cells(i)),
        forall|i: int|
            0 <= i < extra.len() ==> alike(x, y, masked_cells((#[trigger] extra[i]).0@, 64)),
    ensures
        passes(data, extra, x) == passes(data, extra, y),
{
    assert forall|i: int| 0 <= i < 11 implies gathered(x, #[trigger] base_cells(i)) == gathered(
        y,
        base_cells(i),
    ) by {
        law_gathered_tells_the_cells(x, y, base_cells(i));
    }
    assert forall|i: int| 0 <= i < extra.len() implies extra_passes(#[trigger] extra[i], x)
        == extra_passes(extra[i], y) by {
        law_gathered_tells_the_cells(x, y, masked_cells(extra[i].0@, 64));
    }
    assert forall|i: int| 0 <= i < 11 implies #[trigger] member(
        data,
        16 + i * 131072,
        gathered(x, base_cells(i)),
    ) == member(data, 16 + i * 131072, gathered(y, base_cells(i))) by {
        assert(gathered(x, base_cells(i)) == gathered(y, base_cells(i)));
    }
    assert forall|i: int| 0 <= i < 11 implies #[trigger] member(
        data,
        16 + i * 131072,
        gathered(y, base_cells(i)),
    ) == member(data, 16 + i * 131072, gathered(x, base_cells(i))) by {
        assert(gathered(x, base_cells(i)) == gathered(y, base_cells(i)));
    }
}

/// A further projection looks at the columns that its masks name, in each of the four rows.
pub proof fn law_extra_cells(masks: Seq<u16>, row: int, col: int)
    requires
        0 <= row < 4,
        0 <= col < 10,
    ensures
        masked_cells(masks, 64).contains(10 * row + col) <==> wants(masks[row], col),
{
    lemma_masked_contains(masks, 64, row, col);
}

proof fn lemma_masked_contains(masks: Seq<u16>, n: nat, row: int, col: int)
    requires
        0 <= row < 4,
        0 <= col < 10,
    ensures
        masked_cells(masks, n).contains(10 * row + col) <==> 16 * row + col < n && wants(
            masks[row],
            col,
        ),
    decreases n,
{
    if n > 0 {
        let was = masked_cells(masks, (n - 1) as nat);
        let now = masked_cells(masks, n);
        lemma_masked_contains(masks, (n - 1) as nat, row, col);
        let c = 10 * row + col;
        if was.contains(c) {
            let i = choose|i: int| 0 <= i < was.len() && was[i] == c;
            assert(now[i] == c);
        }
        if now.contains(c) {
            let i = choose|i: int| 0 <= i < now.len() && now[i] == c;
            if i < was.len() {
                assert(was[i] == c);
            } else {
                assert(column_cell(n - 1) == c);
                assert((n - 1) / 16 == row && (n - 1) % 16 == col);
            }
        }
        if n - 1 == 16 * row + col {
            assert((n - 1) / 16 == row && (n - 1) % 16 == col);
            if wants(masks[row], col) {
                assert(now.last() == c);
            }
        }
    }
}

/// Projections are read back: after a header with their number come the masks of each, four words of
/// two bytes, and then their bit sets.
pub proof fn law_projections_read_back(b: Seq<u8>, n: nat, i: int, masks: Seq<u16>, e: Extra)
    requires
        bytes::begins(b, EXTRA_MAGIC),
        b.len() == 16 + n * 8 + n * 131072,
        n < 0x1_0000_0000,
        b.subrange(8, 12) == bytes::bytes_of(n, 4),
        0 <= i < n,
        masks.len() == 4,
        forall|r: int|
            0 <= r < 4 ==> b.subrange(16 + 8 * i + 2 * r, 18 + 8 * i + 2 * r) == bytes::bytes_of(
                (#[trigger] masks[r]) as nat,
                2,
            ),
        extra_from(e, b, i),
    ensures
        extra_blob(b),
        extra_count(b) == n,
        e.0@ == masks,
        e.1@ == b.subrange(16 + 8 * n + 131072 * i, 16 + 8 * n + 131072 * (i + 1)),
{
    bytes::lemma_pow256();
    bytes::law_number_reads_back(b, 8, 4, n);
    assert(n * 8 + n * 131072 >= 8 * (i + 1));
    assert forall|r: int| 0 <= r < 4 implies e.0@[r] == #[trigger] masks[r] by {
        bytes::law_number_reads_back(b, 16 + 8 * i + 2 * r, 2, masks[r] as nat);
    }
    assert(e.0@ =~= masks);
    assert(e.1@ =~= b.subrange(16 + 8 * n + 131072 * i, 16 + 8 * n + 131072 * (i + 1)));
}

} // verus!
