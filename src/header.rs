use crate::bytes::{lemma_u64_at_same, lemma_u64_at_zero, read_u64_at, u64_at, write_u64_at};
use crate::errors::ShardErrors;
use vstd::bytes::{lemma_auto_spec_u64_to_from_le_bytes, spec_u64_to_le_bytes, u64_to_le_bytes};
use vstd::prelude::*;

verus! {

pub const U64_SIZE: usize = 8;

pub const I64_SIZE: usize = 8;

pub const UUID_BYTE_LEN: usize = 16;

/// Capacity of a shard whose configuration names none.
pub const DEFAULT_MAX_OFFSETS: u64 = 100;

/// The last-used field of a shard without records: `-1` as a signed 64-bit value.
pub const EMPTY_SLOT_MARK: u64 = 0xffff_ffff_ffff_ffff;

/// Byte position of the slot-table entry of slot `i`; for `i == max_offsets`, the header size.
pub open spec fn offset_pos(i: int) -> int {
    32 + 8 * i
}

/// Capacity recorded in the image.
pub open spec fn stored_max(f: Seq<u8>) -> int {
    u64_at(f, 0) as int
}

/// Number of used slots recorded in the image.
pub open spec fn stored_used(f: Seq<u8>) -> int {
    if u64_at(f, 8) == EMPTY_SLOT_MARK {
        0
    } else {
        u64_at(f, 8) + 1
    }
}

/// Record offset in the slot table entry of slot `i`.
pub open spec fn stored_offset(f: Seq<u8>, i: int) -> int {
    u64_at(f, offset_pos(i)) as int
}

/// Identifier bytes of the image.
pub open spec fn stored_id(f: Seq<u8>) -> Seq<u8> {
    f.subrange(16, 32)
}

/// `f` is a well-formed shard file: a complete header whose used slots point,
/// in order, inside the record area, and whose unused slots hold zero.
pub open spec fn image_ok(f: Seq<u8>) -> bool {
    &&& 32 <= f.len() <= usize::MAX
    &&& offset_pos(stored_max(f)) <= f.len()
    &&& (u64_at(f, 8) == EMPTY_SLOT_MARK || u64_at(f, 8) < stored_max(f))
    &&& forall|i: int|
        0 <= i < stored_used(f) ==> offset_pos(stored_max(f)) <= #[trigger] stored_offset(f, i)
            <= f.len()
    &&& forall|i: int, j: int|
        0 <= i <= j < stored_used(f) ==> #[trigger] stored_offset(f, i) <= #[trigger] stored_offset(
            f,
            j,
        )
    &&& forall|i: int| stored_used(f) <= i < stored_max(f) ==> #[trigger] stored_offset(f, i) == 0
}

/// Where record `i` ends: at the next slot's offset, or at the end of the file for the last one.
pub open spec fn record_end(f: Seq<u8>, i: int) -> int {
    if i + 1 < stored_used(f) {
        stored_offset(f, i + 1)
    } else {
        f.len() as int
    }
}

/// The records of a well-formed image, by slot.
pub open spec fn records_of(f: Seq<u8>) -> Seq<Seq<u8>> {
    Seq::new(stored_used(f) as nat, |i: int| f.subrange(stored_offset(f, i), record_end(f, i)))
}

/// The image of a freshly created shard.
pub open spec fn fresh_image(max_offsets: u64, id: Seq<u8>) -> Seq<u8> {
    spec_u64_to_le_bytes(max_offsets) + spec_u64_to_le_bytes(EMPTY_SLOT_MARK) + id + Seq::new(
        (8 * max_offsets) as nat,
        |i: int| 0u8,
    )
}

/// A record lies between the header and the end of the file.
pub proof fn lemma_record_bounds(f: Seq<u8>, i: int)
    requires
        image_ok(f),
        0 <= i < stored_used(f),
    ensures
        offset_pos(stored_max(f)) <= stored_offset(f, i) <= record_end(f, i) <= f.len(),
{
    if i + 1 < stored_used(f) {
        assert(stored_offset(f, i) <= stored_offset(f, i + 1));
        assert(offset_pos(stored_max(f)) <= stored_offset(f, i + 1) <= f.len());
    }
}

/// A fresh image is well formed and holds no record.
pub proof fn lemma_fresh_image(max_offsets: u64, id: Seq<u8>)
    requires
        id.len() == 16,
        offset_pos(max_offsets as int) <= usize::MAX,
    ensures
        image_ok(fresh_image(max_offsets, id)),
        fresh_image(max_offsets, id).len() == offset_pos(max_offsets as int),
        stored_max(fresh_image(max_offsets, id)) == max_offsets,
        stored_used(fresh_image(max_offsets, id)) == 0,
        stored_id(fresh_image(max_offsets, id)) == id,
        records_of(fresh_image(max_offsets, id)) == Seq::<Seq<u8>>::empty(),
{
    lemma_auto_spec_u64_to_from_le_bytes();
    let f = fresh_image(max_offsets, id);
    assert(f.subrange(0, 8) =~= spec_u64_to_le_bytes(max_offsets));
    assert(f.subrange(8, 16) =~= spec_u64_to_le_bytes(EMPTY_SLOT_MARK));
    assert(stored_id(f) =~= id);
    assert forall|i: int| 0 <= i < max_offsets implies #[trigger] stored_offset(f, i) == 0 by {
        lemma_u64_at_zero(f, offset_pos(i));
    }
    assert(records_of(f) =~= Seq::<Seq<u8>>::empty());
}

/// Abstract content of a header.
pub struct HeaderView {
    pub max_offsets: nat,
    pub used: nat,
    pub id: Seq<u8>,
}

/// In-memory copy of the fixed fields of a shard header.
#[derive(Debug)]
pub struct DataShardHeader {
    max_offsets: u64,
    last_offset_index: i64,
    max_offset_positions: usize,
    id: Vec<u8>,
    zero_offset: usize,
    header_size: usize,
    offset_space_size: usize,
}

impl View for DataShardHeader {
    type V = HeaderView;

    closed spec fn view(&self) -> HeaderView {
        HeaderView {
            max_offsets: self.max_offsets as nat,
            used: (self.last_offset_index + 1) as nat,
            id: self.id@,
        }
    }
}

impl DataShardHeader {
    /// The cached sizes agree with the capacity, and the last slot lies in `[-1, max_offsets)`.
    pub closed spec fn wf(&self) -> bool {
        &&& offset_pos(self.max_offsets as int) <= usize::MAX
        &&& self.header_size == offset_pos(self.max_offsets as int)
        &&& self.max_offset_positions == self.header_size
        &&& self.zero_offset == offset_pos(0)
        &&& self.offset_space_size == 8 * self.max_offsets
        &&& -1 <= self.last_offset_index < self.max_offsets
        &&& self.id@.len() == 16
    }

    /// The header is the in-memory copy of the header of image `f`.
    pub open spec fn describes(&self, f: Seq<u8>) -> bool {
        &&& self.wf()
        &&& image_ok(f)
        &&& stored_max(f) == self@.max_offsets
        &&& stored_used(f) == self@.used
        &&& stored_id(f) == self@.id
    }

    /// Bounds that a well-formed header keeps.
    pub proof fn lemma_view_bounds(&self)
        requires
            self.wf(),
        ensures
            self@.used <= self@.max_offsets,
            offset_pos(self@.max_offsets as int) <= usize::MAX,
            self@.max_offsets <= u64::MAX,
            self@.id.len() == 16,
    {
    }

    /// A header for an empty shard of capacity `max_offsets`; without `uuid`, a fresh identifier.
    pub fn new(max_offsets: u64, uuid: Option<Vec<u8>>) -> (r: Self)
        requires
            offset_pos(max_offsets as int) <= usize::MAX,
            uuid matches Some(u) ==> u@.len() == 16,
        ensures
            r.wf(),
            r@.max_offsets == max_offsets,
            r@.used == 0,
            uuid matches Some(u) ==> r@.id == u@,
    {
        let id = match uuid {
            Some(u) => u,
            None => fresh_uuid_bytes(),
        };
        DataShardHeader {
            max_offsets,
            last_offset_index: -1,
            id,
            max_offset_positions: Self::calculate_offset_pos(max_offsets as usize),
            zero_offset: Self::calculate_offset_pos(0),
            header_size: Self::calculate_header_size(max_offsets),
            offset_space_size: Self::calculate_offset_space_size(max_offsets),
        }
    }

    fn calculate_offset_space_size(max_offsets: u64) -> (r: usize)
        requires
            offset_pos(max_offsets as int) <= usize::MAX,
        ensures
            r == 8 * max_offsets,
    {
        (max_offsets as usize) * U64_SIZE
    }

    /// Size in bytes of the header of a shard of capacity `max_offsets`.
    pub fn calculate_header_size(max_offsets: u64) -> (r: usize)
        requires
            offset_pos(max_offsets as int) <= usize::MAX,
        ensures
            r == offset_pos(max_offsets as int),
    {
        let max_offsets_size = U64_SIZE;
        let last_offset_index_size = I64_SIZE;
        let offsets_size = Self::calculate_offset_space_size(max_offsets);
        let id_len = UUID_BYTE_LEN;
        max_offsets_size + last_offset_index_size + offsets_size + id_len
    }

    /// Byte position of the slot-table entry of slot `index`.
    pub fn calculate_offset_pos(index: usize) -> (r: usize)
        requires
            offset_pos(index as int) <= usize::MAX,
        ensures
            r == offset_pos(index as int),
    {
        let max_offsets = U64_SIZE;
        let last_used_offset = I64_SIZE;
        let id_len = UUID_BYTE_LEN;
        let offsets_from_pos = index * U64_SIZE;
        max_offsets + last_used_offset + id_len + offsets_from_pos
    }

    /// The identifier bytes.
    pub fn id(&self) -> (r: &Vec<u8>)
        ensures
            r@ == self@.id,
    {
        &self.id
    }

    pub fn get_max_offsets(&self) -> (r: u64)
        ensures
            r == self@.max_offsets,
    {
        self.max_offsets
    }

    /// Opens the header of `file`. An empty file first receives a fresh header
    /// of capacity `max_offsets` (default `DEFAULT_MAX_OFFSETS`) and identifier
    /// `uuid` (default a fresh one); any other file must already be a
    /// well-formed image, and is left as it is.
    pub fn new_from_file(file: &mut Vec<u8>, max_offsets: Option<u64>, uuid: Option<Vec<u8>>) -> (r:
        Result<Self, ShardErrors>)
        requires
            old(file)@.len() == 0 ==> offset_pos(
                match max_offsets {
                    Some(m) => m as int,
                    None => DEFAULT_MAX_OFFSETS as int,
                },
            ) <= usize::MAX,
            uuid matches Some(u) ==> u@.len() == 16,
        ensures
            old(file)@.len() == 0 ==> {
                &&& r is Ok
                &&& r->Ok_0.describes(final(file)@)
                &&& r->Ok_0@.used == 0
                &&& r->Ok_0@.max_offsets == match max_offsets {
                    Some(m) => m,
                    None => DEFAULT_MAX_OFFSETS,
                }
                &&& final(file)@ == fresh_image(r->Ok_0@.max_offsets as u64, r->Ok_0@.id)
                &&& (uuid matches Some(u) ==> r->Ok_0@.id == u@)
            },
            old(file)@.len() != 0 ==> {
                &&& final(file)@ == old(file)@
                &&& (r is Ok <==> image_ok(old(file)@))
                &&& (r matches Ok(h) ==> h.describes(old(file)@))
                &&& (r matches Err(e) ==> e == ShardErrors::InvalidHeader)
            },
    {
        if file.len() == 0 {
            let cap = match max_offsets {
                Some(m) => m,
                None => DEFAULT_MAX_OFFSETS,
            };
            let header = DataShardHeader::new(cap, uuid);
            header.initialize_empty_file(file);
            Ok(header)
        } else {
            Self::read_header(file)
        }
    }

    /// Writes the header image into an empty file.
    pub fn initialize_empty_file(&self, file: &mut Vec<u8>)
        requires
            self.wf(),
            self@.used == 0,
            old(file)@.len() == 0,
        ensures
            final(file)@ == fresh_image(self@.max_offsets as u64, self@.id),
            self.describes(final(file)@),
    {
        let max_offsets_bytes = u64_to_le_bytes(self.max_offsets);
        let mut k: usize = 0;
        while k < 8
            invariant
                k <= 8,
                max_offsets_bytes@ == spec_u64_to_le_bytes(self.max_offsets),
                max_offsets_bytes@.len() == 8,
                file@ =~= max_offsets_bytes@.subrange(0, k as int),
            decreases 8 - k,
        {
            file.push(max_offsets_bytes[k]);
            k = k + 1;
        }
        let last_bytes = u64_to_le_bytes(EMPTY_SLOT_MARK);
        let ghost after_max = file@;
        k = 0;
        while k < 8
            invariant
                k <= 8,
                last_bytes@ == spec_u64_to_le_bytes(EMPTY_SLOT_MARK),
                last_bytes@.len() == 8,
                file@ =~= after_max + last_bytes@.subrange(0, k as int),
            decreases 8 - k,
        {
            file.push(last_bytes[k]);
            k = k + 1;
        }
        let ghost after_last = file@;
        k = 0;
        while k < 16
            invariant
                k <= 16,
                self.wf(),
                file@ =~= after_last + self.id@.subrange(0, k as int),
            decreases 16 - k,
        {
            file.push(self.id[k]);
            k = k + 1;
        }
        let ghost after_id = file@;
        k = 0;
        while k < self.offset_space_size
            invariant
                k <= self.offset_space_size,
                self.wf(),
                file@ =~= after_id + Seq::new(k as nat, |i: int| 0u8),
            decreases self.offset_space_size - k,
        {
            file.push(0u8);
            k = k + 1;
        }
        proof {
            assert(max_offsets_bytes@.subrange(0, 8) =~= max_offsets_bytes@);
            assert(last_bytes@.subrange(0, 8) =~= last_bytes@);
            assert(self.id@.subrange(0, 16) =~= self.id@);
            assert(file@ =~= fresh_image(self.max_offsets, self.id@));
            lemma_fresh_image(self.max_offsets, self.id@);
        }
    }

    /// Reads and validates the header of a non-empty file.
    #[verifier::rlimit(60)]
    fn read_header(file: &Vec<u8>) -> (r: Result<Self, ShardErrors>)
        ensures
            r is Ok <==> image_ok(file@),
            r matches Ok(h) ==> h.describes(file@),
            r matches Err(e) ==> e == ShardErrors::InvalidHeader,
    {
        if file.len() < 32 {
            return Err(ShardErrors::InvalidHeader);
        }
        let max_offsets = read_u64_at(file, 0);
        if max_offsets > ((usize::MAX - 32) / 8) as u64 {
            return Err(ShardErrors::InvalidHeader);
        }
        let header_size = Self::calculate_header_size(max_offsets);
        if header_size > file.len() {
            return Err(ShardErrors::InvalidHeader);
        }
        let code = read_u64_at(file, 8);
        if code != EMPTY_SLOT_MARK && code >= max_offsets {
            return Err(ShardErrors::InvalidHeader);
        }
        let used: u64 = if code == EMPTY_SLOT_MARK {
            0
        } else {
            code + 1
        };
        let ghost f = file@;
        let mut i: usize = 0;
        let mut prev: u64 = header_size as u64;
        while i < max_offsets as usize
            invariant
                f == file@,
                32 <= f.len() <= usize::MAX,
                max_offsets == stored_max(f),
                header_size == offset_pos(max_offsets as int),
                header_size <= f.len(),
                used == stored_used(f),
                used <= max_offsets,
                i <= max_offsets,
                header_size <= prev <= f.len(),
                i > 0 && i <= used ==> prev == stored_offset(f, i - 1),
                i == 0 ==> prev == header_size,
                forall|j: int|
                    0 <= j < i && j < used ==> header_size <= #[trigger] stored_offset(f, j)
                        <= f.len(),
                forall|j: int, l: int|
                    0 <= j <= l < i && l < used ==> #[trigger] stored_offset(f, j)
                        <= #[trigger] stored_offset(f, l),
                forall|j: int| 0 <= j < i && j < used ==> #[trigger] stored_offset(f, j) <= prev,
                forall|j: int| used <= j < i ==> #[trigger] stored_offset(f, j) == 0,
            decreases max_offsets - i,
        {
            let pos = Self::calculate_offset_pos(i);
            let off = read_u64_at(file, pos);
            assert(off == stored_offset(f, i as int));
            if (i as u64) < used {
                if off < prev || off > file.len() as u64 {
                    proof {
                        if image_ok(f) {
                            assert(header_size <= stored_offset(f, i as int) <= f.len());
                            if i > 0 {
                                assert(stored_offset(f, i - 1) <= stored_offset(f, i as int));
                            }
                        }
                    }
                    return Err(ShardErrors::InvalidHeader);
                }
                prev = off;
            } else {
                if off != 0 {
                    proof {
                        if image_ok(f) {
                            assert(stored_offset(f, i as int) == 0);
                        }
                    }
                    return Err(ShardErrors::InvalidHeader);
                }
            }
            i = i + 1;
        }
        let id = read_id(file);
        let last_offset_index: i64 = if code == EMPTY_SLOT_MARK {
            -1
        } else {
            code as i64
        };
        Ok(
            DataShardHeader {
                max_offsets,
                last_offset_index,
                max_offset_positions: header_size,
                id,
                zero_offset: Self::calculate_offset_pos(0),
                header_size,
                offset_space_size: Self::calculate_offset_space_size(max_offsets),
            },
        )
    }

    /// Records `value` as the offset of the next free slot and makes that slot
    /// the last used one. Fails with `OutOfPositions` when every slot is used.
    pub fn add_next_offset(&mut self, value: u64, file: &mut Vec<u8>) -> (r: Result<
        (),
        ShardErrors,
    >)
        requires
            old(self).wf(),
            offset_pos(old(self)@.max_offsets as int) <= old(file)@.len(),
        ensures
            r is Ok <==> old(self)@.used < old(self)@.max_offsets,
            r matches Err(e) ==> e == ShardErrors::OutOfPositions && *final(self) == *old(self)
                && final(file)@ == old(file)@,
            r is Ok ==> {
                &&& final(self).wf()
                &&& final(self)@ == HeaderView { used: old(self)@.used + 1, ..old(self)@ }
                &&& final(file)@.len() == old(file)@.len()
                &&& u64_at(final(file)@, 8) == old(self)@.used
                &&& stored_offset(final(file)@, old(self)@.used as int) == value
                &&& forall|j: int|
                    0 <= j < old(file)@.len() && !(8 <= j < 16) && !(offset_pos(
                        old(self)@.used as int,
                    ) <= j < offset_pos(old(self)@.used as int) + 8) ==> #[trigger] final(file)@[j]
                        == old(file)@[j]
            },
    {
        if let Some(available_index) = self.get_next_available_index() {
            let offset_position = self.get_offset_pos_by_index(available_index);
            match offset_position {
                None => Err(ShardErrors::OutOfPositions),
                Some(pos) => {
                    let ghost f0 = file@;
                    write_u64_at(file, pos, value);
                    let ghost f1 = file@;
                    write_u64_at(file, U64_SIZE, available_index as u64);
                    proof {
                        lemma_u64_at_same(f1, file@, pos as int);
                    }
                    self.last_offset_index = available_index as i64;
                    Ok(())
                },
            }
        } else {
            Err(ShardErrors::OutOfPositions)
        }
    }

    /// The next free slot, if any.
    pub fn get_next_available_index(&self) -> (r: Option<usize>)
        requires
            self.wf(),
        ensures
            r is Some <==> self@.used < self@.max_offsets,
            r matches Some(i) ==> i == self@.used,
    {
        let has_space = self.has_space();
        if has_space {
            if self.last_offset_index == -1 {
                return Some(0);
            } else {
                return Some(self.last_offset_index as usize + 1);
            }
        }
        None
    }

    /// Number of slots still free.
    pub fn available_space(&self) -> (r: usize)
        requires
            self.wf(),
        ensures
            r == self@.max_offsets - self@.used,
    {
        if self.last_offset_index == -1 {
            self.max_offsets as usize
        } else {
            (self.max_offsets - (self.last_offset_index as u64 + 1)) as usize
        }
    }

    /// Whether a slot is still free.
    pub fn has_space(&self) -> (r: bool)
        requires
            self.wf(),
        ensures
            r == (self@.used < self@.max_offsets),
    {
        if self.last_offset_index == -1 {
            self.max_offsets > 0
        } else {
            self.max_offsets > (self.last_offset_index + 1) as u64
        }
    }

    /// The non-zero offset stored at byte position `offset` of the slot table;
    /// `None` for zero (an unused slot) or a position past the end of the file.
    pub fn get_offset_value_from_offset_header(&self, file: &Vec<u8>, offset: usize) -> (r:
        Option<u64>)
        ensures
            r == if offset + 8 <= file@.len() && u64_at(file@, offset as int) != 0 {
                Some(u64_at(file@, offset as int))
            } else {
                None::<u64>
            },
    {
        if offset > file.len() || file.len() - offset < 8 {
            return None;
        }
        let val = read_u64_at(file, offset);
        if offset > self.zero_offset && val == 0 {
            None
        } else {
            if val == 0 {
                None
            } else {
                Some(val)
            }
        }
    }

    /// Byte position of the slot-table entry of slot `index`, if the slot exists.
    pub fn get_offset_pos_by_index(&self, index: usize) -> (r: Option<usize>)
        requires
            self.wf(),
        ensures
            r is Some <==> index < self@.max_offsets,
            r matches Some(p) ==> p == offset_pos(index as int),
    {
        if index >= self.max_offsets as usize {
            return None;
        }
        let pos = Self::calculate_offset_pos(index);
        if self.max_offset_positions > pos {
            Some(pos)
        } else {
            None
        }
    }

    /// Highest used slot, `-1` when none is.
    pub fn get_last_offset_index(&self) -> (r: i64)
        requires
            self.wf(),
        ensures
            r == self@.used - 1,
    {
        self.last_offset_index
    }
}

/// Copies the identifier bytes out of an image.
fn read_id(file: &Vec<u8>) -> (r: Vec<u8>)
    requires
        32 <= file@.len(),
    ensures
        r@ == stored_id(file@),
{
    let mut id: Vec<u8> = Vec::new();
    let mut k: usize = 16;
    while k < 32
        invariant
            16 <= k <= 32,
            32 <= file@.len(),
            id@ =~= file@.subrange(16, k as int),
        decreases 32 - k,
    {
        id.push(file[k]);
        k = k + 1;
    }
    id
}

/// Relies on uuid::Uuid::new_v4 for a random identifier, handed over as the
/// 16 bytes of `Uuid::to_bytes_le`.
#[verifier::external_body]
pub(crate) fn fresh_uuid_bytes() -> (r: Vec<u8>)
    ensures
        r@.len() == 16,
{
    uuid::Uuid::new_v4().to_bytes_le().to_vec()
}

} // verus!
