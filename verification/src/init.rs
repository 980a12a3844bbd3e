//! Setting up a bot from its blobs: the filter, the projections on top of it, and the value table.

use vstd::prelude::*;
use crate::bot::Bot;
use crate::bytes;
use crate::piece::Piece;
use crate::proj;
use crate::proj::{ProjFilter, BASE_MAGIC, PROJ_FILE_LEN};
use crate::score;
use crate::score::Op;
use crate::values;
use crate::values::ValueTable;

verus! {

/// What a compressed blob holds; nothing where it is damaged.
pub uninterp spec fn inflated(blob: Seq<u8>) -> Option<Seq<u8>>;

/// `miniz_oxide::inflate::decompress_to_vec_zlib`: the bytes that a zlib blob holds, or an error,
/// which is dropped. What comes out is named by [`inflated`]; of the name nothing is claimed but
/// that it depends on the blob alone.
#[verifier::external_body]
fn inflate(blob: &[u8]) -> (r: Option<Vec<u8>>)
    ensures
        r is Some <==> inflated(blob@) is Some,
        r is Some ==> r->0@ == inflated(blob@)->0,
{
    miniz_oxide::inflate::decompress_to_vec_zlib(blob).ok()
}

/// Why there is no bot.
#[derive(Clone, Copy, Debug, PartialEq, Eq, Structural)]
pub enum InitError {
    /// The filter is none.
    BadFilter,
    /// The value table is none.
    BadValues,
    /// The blob of the filter is damaged.
    DamagedFilter,
    /// The blob of the value table is damaged.
    DamagedValues,
}

impl InitError {
    /// The code that the host gets.
    pub open spec fn as_code(self) -> int {
        match self {
            InitError::BadFilter => -1,
            InitError::BadValues => -2,
            InitError::DamagedFilter => -3,
            InitError::DamagedValues => -4,
        }
    }

    pub fn code(self) -> (c: i32)
        ensures
            c == self.as_code(),
    {
        match self {
            InitError::BadFilter => -1,
            InitError::BadValues => -2,
            InitError::DamagedFilter => -3,
            InitError::DamagedValues => -4,
        }
    }
}

/// The bytes are a filter.
pub open spec fn is_filter(b: Seq<u8>) -> bool {
    b.len() == PROJ_FILE_LEN && bytes::begins(b, BASE_MAGIC)
}

/// Why the bytes make no bot.
pub open spec fn init_error(filter: Seq<u8>, table: Seq<u8>) -> Option<InitError> {
    if !is_filter(filter) {
        Some(InitError::BadFilter)
    } else if values::parsed(table) is Err {
        Some(InitError::BadValues)
    } else {
        None
    }
}

/// The filter of the bot: the bytes given, and the projections of `extra` where it is a blob of them.
pub open spec fn filter_from(f: ProjFilter, filter: Seq<u8>, extra: Option<Seq<u8>>) -> bool {
    &&& f.data@ == filter
    &&& if extra is Some && proj::extra_blob(extra->0) {
        f.extra@.len() == proj::extra_count(extra->0) && forall|i: int|
            0 <= i < f.extra@.len() ==> proj::extra_from(#[trigger] f.extra@[i], extra->0, i)
    } else {
        f.extra@.len() == 0
    }
}

/// A bot that has seen nothing yet.
pub open spec fn fresh<F: Fn(Op) -> u64 + Copy>(b: Bot<F>) -> bool {
    &&& b.wf()
    &&& b.stream@.len() == 0
    &&& b.queue@.len() == 0
    &&& b.placed_cnt == 0
    &&& b.hold is None
    &&& b.board_hash == 0
    &&& !b.out_of_book
    &&& b.loop_state is None
    &&& b.pending is None
    &&& b.last_error@ == Seq::<char>::empty()
}

/// A bot from bytes. What is no blob of projections is left out.
pub fn init_bytes<F: Fn(Op) -> u64 + Copy>(
    filter: Vec<u8>,
    extra: Option<Vec<u8>>,
    table: &[u8],
    calc: F,
) -> (r: Result<Bot<F>, InitError>)
    requires
        score::answers(calc),
    ensures
        r is Ok <==> init_error(filter@, table@) is None,
        r matches Err(e) ==> Some(e) == init_error(filter@, table@),
        r matches Ok(b) ==> fresh(b) && b.calc == calc && b.table@ == values::parsed(table@)->Ok_0
            && filter_from(
            b.proj,
            filter@,
            match extra {
                Some(e) => Some(e@),
                None => None,
            },
        ),
{
    let mut f: ProjFilter = match ProjFilter::from_bytes(filter) {
        Ok(f) => f,
        Err(_) => {
            return Err(InitError::BadFilter);
        },
    };
    if let Some(e) = &extra {
        let _attached = f.attach_extra(e.as_slice());
    }
    match ValueTable::from_bytes(table) {
        Ok(t) => Ok(Bot::new(f, t, calc)),
        Err(_) => Err(InitError::BadValues),
    }
}

/// A bot from bytes and a compressed blob of projections, which is left out where it is damaged.
pub fn init_from<F: Fn(Op) -> u64 + Copy>(
    proj_bytes: Vec<u8>,
    val_bytes: &[u8],
    extra_blob: &[u8],
    calc: F,
) -> (r: Result<Bot<F>, InitError>)
    requires
        score::answers(calc),
    ensures
        r is Ok <==> init_error(proj_bytes@, val_bytes@) is None,
        r matches Err(e) ==> Some(e) == init_error(proj_bytes@, val_bytes@),
        r matches Ok(b) ==> fresh(b) && b.calc == calc && b.table@ == values::parsed(
            val_bytes@,
        )->Ok_0 && filter_from(b.proj, proj_bytes@, inflated(extra_blob@)),
{
    let extra = inflate(extra_blob);
    init_bytes(proj_bytes, extra, val_bytes, calc)
}

/// A bot from compressed blobs.
pub fn init_embedded<F: Fn(Op) -> u64 + Copy>(
    proj_blob: &[u8],
    values_blob: &[u8],
    extra_blob: &[u8],
    calc: F,
) -> (r: Result<Bot<F>, InitError>)
    requires
        score::answers(calc),
    ensures
        inflated(proj_blob@) is None ==> r is Err && r->Err_0 == InitError::DamagedFilter,
        inflated(proj_blob@) is Some && inflated(values_blob@) is None ==> r is Err && r->Err_0
            == InitError::DamagedValues,
        inflated(proj_blob@) is Some && inflated(values_blob@) is Some ==> {
            let (p, v) = (inflated(proj_blob@)->0, inflated(values_blob@)->0);
            &&& r is Ok <==> init_error(p, v) is None
            &&& r matches Err(e) ==> Some(e) == init_error(p, v)
            &&& r matches Ok(b) ==> fresh(b) && b.calc == calc && b.table@ == values::parsed(
                v,
            )->Ok_0 && filter_from(b.proj, p, inflated(extra_blob@))
        },
{
    let filter: Vec<u8> = match inflate(proj_blob) {
        Some(b) => b,
        None => {
            return Err(InitError::DamagedFilter);
        },
    };
    let table: Vec<u8> = match inflate(values_blob) {
        Some(b) => b,
        None => {
            return Err(InitError::DamagedValues);
        },
    };
    init_from(filter, table.as_slice(), extra_blob, calc)
}

/// The piece that the host names by a number; no piece for any other number.
pub fn piece_of(i: i32) -> (p: Option<Piece>)
    ensures
        p is Some <==> 0 <= i < 7,
        p is Some ==> p->0 == i,
{
    if 0 <= i && i < 7 {
        Some(i as u8)
    } else {
        None
    }
}

} // verus!
