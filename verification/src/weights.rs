//! Flat tensor files (`.fbin`).
//!
//! ```text
//! 0x00  4             magic "FBN1"
//! 0x04  2             version
//! 0x06  2             number of tensors
//! 0x08  8             metadata length
//! 0x10  metadata      one record per tensor, back to back
//! ...                 tensor data, page-aligned
//! ```
//!
//! A metadata record holds a name (16-bit length, UTF-8 bytes), a type byte, a
//! rank byte, `rank` 32-bit dimensions, and the 64-bit offset and length of the
//! data, both relative to the start of the file.
use vstd::prelude::*;
use vstd::utf8::*;
use crate::bytes::{le16, le16_bytes, le32, le64, le64_bytes, read_le16, read_le32, read_le64};
use crate::tokenizer::{lemma_word, words};
use crate::text::{cap_len, capped, str_eq, text_of};

verus! {

broadcast use vstd::seq_lib::group_seq_properties;

/// "FBN1", read as a little-endian integer.
pub const MAGIC: u32 = 0x314E_4246;

pub const VERSION: u16 = 1;

/// Alignment of the data section.
pub const PAGE: usize = 4096;

/// Length of the fixed header.
pub const HEADER_LEN: usize = 0x10;

/// Element type of a tensor.
#[derive(Debug, Clone, Copy, PartialEq, Eq, Structural)]
pub enum DType {
    F32,
    /// Quantized to 8 bits.
    Q8,
    /// Quantized to 4 bits, two elements per byte.
    Q4,
}

impl DType {
    /// The type that a type byte stands for.
    pub open spec fn of_byte(b: u8) -> Option<DType> {
        if b == 0 {
            Some(DType::F32)
        } else if b == 1 {
            Some(DType::Q8)
        } else if b == 2 {
            Some(DType::Q4)
        } else {
            None
        }
    }

    pub fn from_u8(b: u8) -> (r: Option<Self>)
        ensures
            r == Self::of_byte(b),
    {
        match b {
            0 => Some(DType::F32),
            1 => Some(DType::Q8),
            2 => Some(DType::Q4),
            _ => None,
        }
    }

    /// Bytes per unpacked element.
    pub fn elem_size(self) -> (r: usize)
        ensures
            r == (if self is F32 { 4int } else { 1int }),
    {
        match self {
            DType::F32 => 4,
            DType::Q8 => 1,
            DType::Q4 => 1,
        }
    }
}

/// Name, type, shape and place of one tensor.
#[derive(Debug)]
pub struct TensorMeta {
    pub name: String,
    pub dtype: DType,
    pub shape: Vec<u32>,
    /// Offset of the data, relative to the start of the file.
    pub data_offset: u64,
    pub data_len: u64,
}

/// A tensor record as the contracts see it.
#[verifier::ext_equal]
pub struct TensorRecord {
    pub name: Seq<char>,
    pub dtype: DType,
    pub shape: Seq<u32>,
    pub data_offset: u64,
    pub data_len: u64,
}

impl View for TensorMeta {
    type V = TensorRecord;

    open spec fn view(&self) -> TensorRecord {
        TensorRecord {
            name: self.name@,
            dtype: self.dtype,
            shape: self.shape@,
            data_offset: self.data_offset,
            data_len: self.data_len,
        }
    }
}

#[derive(Debug)]
pub enum LoadError {
    BadMagic,
    BadVersion(u16),
    Truncated { needed: usize, got: usize },
    InvalidDType(u8),
    NameNotUtf8,
    DataOutOfRange { tensor: usize },
}

// ---------------------------------------------------------------------
// The file format
// ---------------------------------------------------------------------

/// The dimensions of a record whose shape starts at `at`.
pub open spec fn shape_at(s: Seq<u8>, at: int, rank: nat) -> Seq<u32> {
    Seq::new(rank, |k: int| le32(s, at + 4 * k) as u32)
}

/// The record that begins at `cur`, and where the next one begins. The
/// metadata section ends at `end`; `ti` is the index of the record.
pub open spec fn record_at(s: Seq<u8>, end: int, cur: int, ti: nat) -> Result<
    (TensorRecord, int),
    LoadError,
> {
    if cur + 2 > end {
        Err(LoadError::Truncated { needed: capped(cur + 2), got: capped(end) })
    } else {
        let name_at = cur + 2;
        let name_len = le16(s, cur);
        let kind_at = name_at + name_len;
        if kind_at + 2 > end {
            Err(LoadError::Truncated { needed: capped(kind_at + 2), got: capped(end) })
        } else if !valid_utf8(s.subrange(name_at, kind_at)) {
            Err(LoadError::NameNotUtf8)
        } else {
            let rank = s[kind_at + 1] as nat;
            let shape_start = kind_at + 2;
            let tail = shape_start + 4 * rank;
            if tail + 16 > end {
                Err(LoadError::Truncated { needed: capped(tail + 16), got: capped(end) })
            } else {
                let offset = le64(s, tail);
                let len = le64(s, tail + 8);
                if offset + len > s.len() {
                    Err(LoadError::DataOutOfRange { tensor: ti as usize })
                } else {
                    match DType::of_byte(s[kind_at]) {
                        None => Err(LoadError::InvalidDType(s[kind_at])),
                        Some(dtype) => Ok(
                            (
                                TensorRecord {
                                    name: decode_utf8(s.subrange(name_at, kind_at)),
                                    dtype,
                                    shape: shape_at(s, shape_start, rank),
                                    data_offset: offset as u64,
                                    data_len: len as u64,
                                },
                                tail + 16,
                            ),
                        ),
                    }
                }
            }
        }
    }
}

/// Records `ti .. n`, the first of which begins at `cur`; the first one that is
/// malformed decides the error.
pub open spec fn records_from(s: Seq<u8>, end: int, cur: int, ti: nat, n: nat) -> Result<
    Seq<TensorRecord>,
    LoadError,
>
    decreases n - ti,
{
    if ti >= n {
        Ok(Seq::empty())
    } else {
        match record_at(s, end, cur, ti) {
            Err(e) => Err(e),
            Ok((rec, next)) => match records_from(s, end, next, ti + 1, n) {
                Err(e) => Err(e),
                Ok(rest) => Ok(seq![rec] + rest),
            },
        }
    }
}

/// The tensors of a file, or what is wrong with it.
pub open spec fn file_records(s: Seq<u8>) -> Result<Seq<TensorRecord>, LoadError> {
    if s.len() < HEADER_LEN {
        Err(LoadError::Truncated { needed: HEADER_LEN, got: s.len() as usize })
    } else if le32(s, 0) != MAGIC {
        Err(LoadError::BadMagic)
    } else if le16(s, 4) != VERSION {
        Err(LoadError::BadVersion(le16(s, 4) as u16))
    } else {
        let end = HEADER_LEN + le64(s, 8);
        if s.len() < end {
            Err(LoadError::Truncated { needed: capped(end), got: s.len() as usize })
        } else {
            records_from(s, end, HEADER_LEN as int, 0, le16(s, 6) as nat)
        }
    }
}

/// The elements of a tensor of this shape.
pub open spec fn shape_product(shape: Seq<u32>) -> nat
    decreases shape.len(),
{
    if shape.len() == 0 {
        1
    } else {
        shape_product(shape.drop_last()) * (shape.last() as nat)
    }
}

// ---------------------------------------------------------------------
// The parser
// ---------------------------------------------------------------------

fn read_shape(s: &[u8], at: usize, rank: usize) -> (r: Vec<u32>)
    requires
        at + 4 * rank <= s.len(),
    ensures
        r@ == shape_at(s@, at as int, rank as nat),
{
    let mut shape: Vec<u32> = Vec::new();
    let mut k: usize = 0;
    while k < rank
        invariant
            k <= rank,
            at + 4 * rank <= s.len(),
            shape@.len() == k,
            forall|j: int| 0 <= j < k ==> shape@[j] == le32(s@, at + 4 * j),
        decreases rank - k,
    {
        shape.push(read_le32(s, at + 4 * k));
        k = k + 1;
    }
    assert(shape@ =~= shape_at(s@, at as int, rank as nat));
    shape
}

fn parse_record(s: &[u8], end: usize, cur: usize, ti: usize) -> (r: Result<
    (TensorMeta, usize),
    LoadError,
>)
    requires
        HEADER_LEN <= cur <= end <= s@.len(),
    ensures
        match r {
            Ok((t, next)) => record_at(s@, end as int, cur as int, ti as nat) == Ok::<
                (TensorRecord, int),
                LoadError,
            >((t@, next as int)) && cur < next <= end,
            Err(e) => record_at(s@, end as int, cur as int, ti as nat) == Err::<
                (TensorRecord, int),
                LoadError,
            >(e),
        },
{
    if end - cur < 2 {
        return Err(LoadError::Truncated { needed: cap_len((cur as u64).saturating_add(2)), got: end });
    }
    let name_len: usize = read_le16(s, cur) as usize;
    let name_at: usize = cur + 2;
    if end - name_at < name_len + 2 {
        return Err(
            LoadError::Truncated {
                needed: cap_len((name_at as u64).saturating_add(name_len as u64 + 2)),
                got: end,
            },
        );
    }
    let kind_at: usize = name_at + name_len;
    let name = match text_of(s, name_at, kind_at) {
        Some(t) => t,
        None => return Err(LoadError::NameNotUtf8),
    };
    let kind: u8 = s[kind_at];
    let rank: usize = s[kind_at + 1] as usize;
    let shape_start: usize = kind_at + 2;
    if end - shape_start < 4 * rank + 16 {
        return Err(
            LoadError::Truncated {
                needed: cap_len((shape_start as u64).saturating_add(4 * (rank as u64) + 16)),
                got: end,
            },
        );
    }
    let shape = read_shape(s, shape_start, rank);
    let tail: usize = shape_start + 4 * rank;
    let data_offset: u64 = read_le64(s, tail);
    let data_len: u64 = read_le64(s, tail + 8);
    if data_offset.saturating_add(data_len) > s.len() as u64 || data_offset > u64::MAX - data_len {
        return Err(LoadError::DataOutOfRange { tensor: ti });
    }
    match DType::from_u8(kind) {
        None => Err(LoadError::InvalidDType(kind)),
        Some(dtype) => Ok((TensorMeta { name, dtype, shape, data_offset, data_len }, tail + 16)),
    }
}

/// A parsed file: the tensors, and the bytes that they point into.
pub struct FbinView<'a> {
    pub bytes: &'a [u8],
    pub tensors: Vec<TensorMeta>,
}

/// The records of a vector of tensors.
pub open spec fn records_of(tensors: Seq<TensorMeta>) -> Seq<TensorRecord> {
    tensors.map_values(|t: TensorMeta| t@)
}

/// The first tensor at or behind `i` with that name.
pub open spec fn named(tensors: Seq<TensorMeta>, name: Seq<char>, i: int) -> Option<int>
    decreases tensors.len() - i,
{
    if i >= tensors.len() {
        None
    } else if tensors[i]@.name == name {
        Some(i)
    } else {
        named(tensors, name, i + 1)
    }
}

/// What is found has the name, and nothing before it has.
pub proof fn named_is_first(tensors: Seq<TensorMeta>, name: Seq<char>, i: int)
    requires
        0 <= i,
    ensures
        match named(tensors, name, i) {
            Some(k) => i <= k < tensors.len() && tensors[k]@.name == name && forall|j: int|
                i <= j < k ==> (#[trigger] tensors[j])@.name != name,
            None => forall|j: int| i <= j < tensors.len() ==> (#[trigger] tensors[j])@.name != name,
        },
    decreases tensors.len() - i,
{
    if i < tensors.len() && tensors[i]@.name != name {
        named_is_first(tensors, name, i + 1);
    }
}

impl<'a> FbinView<'a> {
    /// The bytes of the file.
    pub open spec fn file(&self) -> Seq<u8> {
        self.bytes@
    }

    /// Whether the data of `t` lies inside the file.
    pub open spec fn holds(&self, t: TensorRecord) -> bool {
        t.data_offset + t.data_len <= self.bytes.len()
    }

    /// The data of every tensor lies inside the file.
    pub open spec fn wf(&self) -> bool {
        forall|i: int| 0 <= i < self.tensors@.len() ==> self.holds(#[trigger] self.tensors@[i]@)
    }

    /// The elements of the tensor with that name as bit patterns, where it is
    /// an `F32` tensor of the right size.
    pub open spec fn f32_of(&self, name: Seq<char>) -> Option<Seq<u32>> {
        match named(self.tensors@, name, 0) {
            Some(i) => {
                let t = self.tensors@[i];
                if t.dtype is F32 && t.data_len == 4 * shape_product(t.shape@) {
                    Some(
                        Seq::new(
                            shape_product(t.shape@),
                            |k: int| le32(self.file(), t.data_offset + 4 * k) as u32,
                        ),
                    )
                } else {
                    None
                }
            },
            None => None,
        }
    }

    /// The elements of the tensor with that name as bit patterns.
    pub fn read_named(&self, name: &str) -> (r: Option<Vec<u32>>)
        requires
            self.wf(),
        ensures
            match r {
                Some(v) => self.f32_of(name@) == Some(v@),
                None => self.f32_of(name@) is None,
            },
    {
        match self.find(name) {
            Some(t) => self.read_f32(t),
            None => None,
        }
    }

    /// Parses a whole file. A metadata length that does not fit the address
    /// space counts as a truncated file.
    pub fn parse(bytes: &'a [u8]) -> (r: Result<Self, LoadError>)
        ensures
            match r {
                Ok(view) => {
                    &&& file_records(bytes@) == Ok::<Seq<TensorRecord>, LoadError>(
                        records_of(view.tensors@),
                    )
                    &&& view.file() == bytes@
                    &&& view.wf()
                },
                Err(e) => file_records(bytes@) == Err::<Seq<TensorRecord>, LoadError>(e),
            },
    {
        if bytes.len() < HEADER_LEN {
            return Err(LoadError::Truncated { needed: HEADER_LEN, got: bytes.len() });
        }
        if read_le32(bytes, 0) != MAGIC {
            return Err(LoadError::BadMagic);
        }
        let version: u16 = read_le16(bytes, 4);
        if version != VERSION {
            return Err(LoadError::BadVersion(version));
        }
        let n: usize = read_le16(bytes, 6) as usize;
        let metadata_len: u64 = read_le64(bytes, 8);
        if metadata_len > (bytes.len() - HEADER_LEN) as u64 {
            return Err(
                LoadError::Truncated {
                    needed: cap_len(metadata_len.saturating_add(HEADER_LEN as u64)),
                    got: bytes.len(),
                },
            );
        }
        let end: usize = HEADER_LEN + metadata_len as usize;
        let mut cur: usize = HEADER_LEN;
        let mut tensors: Vec<TensorMeta> = Vec::new();
        let mut ti: usize = 0;
        let ghost whole = records_from(bytes@, end as int, HEADER_LEN as int, 0, n as nat);
        while ti < n
            invariant
                ti <= n,
                HEADER_LEN <= cur <= end <= bytes@.len(),
                tensors@.len() == ti,
                whole == records_from(bytes@, end as int, HEADER_LEN as int, 0, n as nat),
                file_records(bytes@) == whole,
                whole == (match records_from(bytes@, end as int, cur as int, ti as nat, n as nat) {
                    Err(e) => Err(e),
                    Ok(rest) => Ok::<Seq<TensorRecord>, LoadError>(records_of(tensors@) + rest),
                }),
                forall|i: int|
                    0 <= i < tensors@.len() ==> (#[trigger] tensors@[i]@).data_offset
                        + tensors@[i]@.data_len <= bytes@.len(),
            decreases n - ti,
        {
            let ghost before = tensors@;
            match parse_record(bytes, end, cur, ti) {
                Err(e) => {
                    return Err(e);
                },
                Ok((t, next)) => {
                    let ghost rec = t@;
                    tensors.push(t);
                    proof {
                        match records_from(
                            bytes@,
                            end as int,
                            next as int,
                            (ti + 1) as nat,
                            n as nat,
                        ) {
                            Ok(rest) => {
                                assert(records_of(before) + (seq![rec] + rest) =~= records_of(
                                    tensors@,
                                ) + rest);
                            },
                            Err(_) => {},
                        }
                    }
                    cur = next;
                },
            }
            ti = ti + 1;
        }
        assert(records_of(tensors@) + Seq::<TensorRecord>::empty() =~= records_of(tensors@));
        Ok(FbinView { bytes, tensors })
    }

    /// The first tensor of that name.
    pub fn find(&self, name: &str) -> (r: Option<&TensorMeta>)
        ensures
            match named(self.tensors@, name@, 0) {
                Some(i) => 0 <= i < self.tensors@.len() && (r matches Some(t) && *t
                    == self.tensors@[i] && t@.name == name@),
                None => r is None,
            },
    {
        let mut i: usize = 0;
        while i < self.tensors.len()
            invariant
                i <= self.tensors@.len(),
                named(self.tensors@, name@, 0) == named(self.tensors@, name@, i as int),
            decreases self.tensors@.len() - i,
        {
            if str_eq(self.tensors[i].name.as_str(), name) {
                return Some(&self.tensors[i]);
            }
            i = i + 1;
        }
        None
    }

    /// The raw bytes of a tensor.
    pub fn data_for(&self, t: &TensorMeta) -> (r: &[u8])
        requires
            self.holds(t@),
        ensures
            r@ == self.file().subrange(t.data_offset as int, t.data_offset + t.data_len),
    {
        let start: usize = t.data_offset as usize;
        let end: usize = start + t.data_len as usize;
        &self.bytes[start..end]
    }

    /// The elements of an `F32` tensor as IEEE 754 bit patterns. `None` where
    /// the tensor has another type, or its data is not four bytes per element.
    pub fn read_f32(&self, t: &TensorMeta) -> (r: Option<Vec<u32>>)
        requires
            self.holds(t@),
        ensures
            r is Some <==> t.dtype is F32 && t.data_len == 4 * shape_product(t.shape@),
            r matches Some(v) ==> v@ == Seq::new(
                shape_product(t.shape@),
                |k: int| le32(self.file(), t.data_offset + 4 * k) as u32,
            ),
    {
        if t.dtype != DType::F32 {
            return None;
        }
        let data = self.data_for(t);
        if data.len() % 4 != 0 {
            return None;
        }
        let n: usize = data.len() / 4;
        match product_within(&t.shape, n as u64) {
            Some(p) => {
                if p != n as u64 {
                    return None;
                }
            },
            None => {
                return None;
            },
        }
        let out = read_shape(data, 0, n);
        proof {
            assert forall|k: int| 0 <= k < n implies #[trigger] out@[k] == le32(
                self.file(),
                t.data_offset + 4 * k,
            ) as u32 by {
                assert(out@[k] == le32(data@, 0 + 4 * k) as u32);
                assert(data@[4 * k] == self.file()[t.data_offset + 4 * k]);
                assert(data@[4 * k + 1] == self.file()[t.data_offset + 4 * k + 1]);
                assert(data@[4 * k + 2] == self.file()[t.data_offset + 4 * k + 2]);
                assert(data@[4 * k + 3] == self.file()[t.data_offset + 4 * k + 3]);
            }
            assert(out@ =~= Seq::new(
                shape_product(t.shape@),
                |k: int| le32(self.file(), t.data_offset + 4 * k) as u32,
            ));
        }
        Some(out)
    }
}

proof fn lemma_product_zero(shape: Seq<u32>, i: int)
    requires
        0 <= i < shape.len(),
        shape[i] == 0,
    ensures
        shape_product(shape) == 0,
    decreases shape.len(),
{
    if i < shape.len() - 1 {
        lemma_product_zero(shape.drop_last(), i);
    }
    assert(shape_product(shape.drop_last()) * (shape.last() as nat) == 0) by (nonlinear_arith)
        requires
            shape_product(shape.drop_last()) == 0 || shape.last() == 0,
    ;
}

proof fn lemma_product_grows(shape: Seq<u32>, k: int)
    requires
        0 <= k <= shape.len(),
        forall|i: int| 0 <= i < shape.len() ==> #[trigger] shape[i] > 0,
    ensures
        shape_product(shape.subrange(0, k)) <= shape_product(shape),
        shape_product(shape) > 0,
    decreases shape.len(),
{
    if k == shape.len() {
        assert(shape.subrange(0, k) =~= shape);
        if shape.len() > 0 {
            lemma_product_grows(shape.drop_last(), 0);
            assert(shape_product(shape.drop_last()) * (shape.last() as nat) > 0)
                by (nonlinear_arith)
                requires
                    shape_product(shape.drop_last()) > 0,
                    shape.last() > 0,
            ;
        }
    } else {
        lemma_product_grows(shape.drop_last(), k);
        assert(shape.drop_last().subrange(0, k) =~= shape.subrange(0, k));
        let a = shape_product(shape.drop_last());
        assert(a * (shape.last() as nat) >= a) by (nonlinear_arith)
            requires
                shape.last() > 0,
        ;
    }
}

/// The element count of a shape, or `None` where it is larger than `limit`.
fn product_within(shape: &Vec<u32>, limit: u64) -> (r: Option<u64>)
    ensures
        match r {
            Some(p) => p == shape_product(shape@),
            None => shape_product(shape@) > limit,
        },
{
    let mut z: usize = 0;
    while z < shape.len()
        invariant
            z <= shape@.len(),
            forall|i: int| 0 <= i < z ==> #[trigger] shape@[i] > 0,
        decreases shape@.len() - z,
    {
        if shape[z] == 0 {
            proof {
                lemma_product_zero(shape@, z as int);
            }
            return Some(0);
        }
        z = z + 1;
    }
    let mut p: u64 = 1;
    let mut i: usize = 0;
    while i < shape.len()
        invariant
            i <= shape@.len(),
            p == shape_product(shape@.subrange(0, i as int)),
            forall|k: int| 0 <= k < shape@.len() ==> #[trigger] shape@[k] > 0,
        decreases shape@.len() - i,
    {
        assert(shape@.subrange(0, i + 1).drop_last() =~= shape@.subrange(0, i as int));
        match p.checked_mul(shape[i] as u64) {
            Some(q) => {
                p = q;
            },
            None => {
                proof {
                    lemma_product_grows(shape@, i + 1);
                }
                return None;
            },
        }
        i = i + 1;
    }
    assert(shape@.subrange(0, i as int) =~= shape@);
    Some(p)
}

/// The running FNV-1a hash `h` continued over `s`.
pub open spec fn fnv_from(h: u64, s: Seq<u8>) -> u64
    decreases s.len(),
{
    if s.len() == 0 {
        h
    } else {
        fnv_from(((h ^ (s[0] as u64)) as u64).wrapping_mul(0x100_0000_01B3), s.drop_first())
    }
}

/// 64-bit FNV-1a hash, used as an integrity check of loaded tensors.
pub fn fnv1a_64(bytes: &[u8]) -> (h: u64)
    ensures
        h == fnv_from(0xCBF2_9CE4_8422_2325, bytes@),
{
    let mut h: u64 = 0xCBF2_9CE4_8422_2325;
    let mut i: usize = 0;
    assert(bytes@.subrange(0, bytes@.len() as int) =~= bytes@);
    while i < bytes.len()
        invariant
            i <= bytes@.len(),
            fnv_from(0xCBF2_9CE4_8422_2325, bytes@) == fnv_from(
                h,
                bytes@.subrange(i as int, bytes@.len() as int),
            ),
        decreases bytes@.len() - i,
    {
        h = h ^ (bytes[i] as u64);
        h = h.wrapping_mul(0x100_0000_01B3);
        assert(bytes@.subrange(i as int, bytes@.len() as int).drop_first() =~= bytes@.subrange(
            i + 1,
            bytes@.len() as int,
        ));
        i = i + 1;
    }
    h
}

// ---------------------------------------------------------------------
// Files read back
// ---------------------------------------------------------------------

/// The byte of an element type.
pub open spec fn dtype_byte(d: DType) -> u8 {
    match d {
        DType::F32 => 0,
        DType::Q8 => 1,
        DType::Q4 => 2,
    }
}

/// The bytes of a record: the length of the name in two bytes, the name, the
/// type, the rank, four bytes for each dimension, and eight each for offset and
/// length of the data.
pub open spec fn record_bytes(t: TensorRecord) -> Seq<u8> {
    le16_bytes(encode_utf8(t.name).len() as u16) + encode_utf8(t.name) + seq![
        dtype_byte(t.dtype),
        t.shape.len() as u8,
    ] + words(t.shape) + (le64_bytes(t.data_offset) + le64_bytes(t.data_len))
}

/// Records one behind the other.
pub open spec fn records_bytes(ts: Seq<TensorRecord>) -> Seq<u8>
    decreases ts.len(),
{
    if ts.len() == 0 {
        Seq::empty()
    } else {
        record_bytes(ts[0]) + records_bytes(ts.drop_first())
    }
}

/// Whether a record can be written, for a file of `size` bytes.
pub open spec fn writable(t: TensorRecord, size: nat) -> bool {
    encode_utf8(t.name).len() < 0x1_0000 && t.shape.len() < 256 && t.data_offset + t.data_len
        <= size
}

/// A file: `FBN1`, the version 1, the number of tensors, the length of the
/// records, the records, and the data.
pub open spec fn fbin_bytes(ts: Seq<TensorRecord>, data: Seq<u8>) -> Seq<u8> {
    seq![70u8, 66, 78, 49, 1, 0] + le16_bytes(ts.len() as u16) + le64_bytes(
        records_bytes(ts).len() as u64,
    ) + records_bytes(ts) + data
}

proof fn lemma_parts(s: Seq<u8>, at: int, a: Seq<u8>, b: Seq<u8>)
    requires
        0 <= at,
        at + a.len() + b.len() <= s.len(),
        s.subrange(at, at + a.len() + b.len()) == a + b,
    ensures
        s.subrange(at, at + a.len()) == a,
        s.subrange(at + a.len(), at + a.len() + b.len()) == b,
{
    let w = s.subrange(at, at + a.len() + b.len());
    assert(s.subrange(at, at + a.len()) =~= w.subrange(0, a.len() as int));
    assert(w.subrange(0, a.len() as int) =~= a);
    assert(s.subrange(at + a.len(), at + a.len() + b.len()) =~= w.subrange(
        a.len() as int,
        w.len() as int,
    ));
    assert(w.subrange(a.len() as int, w.len() as int) =~= b);
}

#[verifier::rlimit(40)]
proof fn lemma_record_reads_back(s: Seq<u8>, end: int, cur: int, ti: nat, t: TensorRecord)
    requires
        0 <= cur,
        cur + record_bytes(t).len() <= end <= s.len(),
        s.subrange(cur, cur + record_bytes(t).len()) == record_bytes(t),
        writable(t, s.len()),
    ensures
        record_at(s, end, cur, ti) == Ok::<(TensorRecord, int), LoadError>(
            (t, cur + record_bytes(t).len()),
        ),
{
    let n = encode_utf8(t.name).len() as int;
    let rank = t.shape.len() as int;
    let tail = cur + 4 + n + 4 * rank;
    lemma_record_parts(s, cur, t);
    crate::bytes::le16_round_trip(s, cur, n as u16);
    crate::bytes::le64_round_trip(s, tail, t.data_offset);
    crate::bytes::le64_round_trip(s, tail + 8, t.data_len);
    encode_utf8_valid_utf8(t.name);
    encode_utf8_decode_utf8(t.name);
    let shape = shape_at(s, cur + 4 + n, rank as nat);
    assert forall|i: int| 0 <= i < rank implies #[trigger] shape[i] == t.shape[i] by {
        lemma_word(s, cur + 4 + n, t.shape, i);
    }
    assert(shape =~= t.shape);
    assert(DType::of_byte(dtype_byte(t.dtype)) == Some(t.dtype));
}

/// Where the parts of a record stand.
#[verifier::rlimit(40)]
proof fn lemma_record_parts(s: Seq<u8>, cur: int, t: TensorRecord)
    requires
        0 <= cur,
        cur + record_bytes(t).len() <= s.len(),
        s.subrange(cur, cur + record_bytes(t).len()) == record_bytes(t),
        t.shape.len() < 256,
    ensures
        ({
            let n = encode_utf8(t.name).len() as int;
            let tail = cur + 4 + n + 4 * t.shape.len();
            &&& record_bytes(t).len() == 20 + n + 4 * t.shape.len()
            &&& s.subrange(cur, cur + 2) == le16_bytes(n as u16)
            &&& s.subrange(cur + 2, cur + 2 + n) == encode_utf8(t.name)
            &&& s[cur + 2 + n] == dtype_byte(t.dtype)
            &&& s[cur + 3 + n] == t.shape.len()
            &&& s.subrange(cur + 4 + n, tail) == words(t.shape)
            &&& s.subrange(tail, tail + 8) == le64_bytes(t.data_offset)
            &&& s.subrange(tail + 8, tail + 16) == le64_bytes(t.data_len)
        }),
{
    let k = seq![dtype_byte(t.dtype), t.shape.len() as u8];
    let n = encode_utf8(t.name).len() as int;
    lemma_six_parts(
        s,
        cur,
        le16_bytes(n as u16),
        encode_utf8(t.name),
        k,
        words(t.shape),
        le64_bytes(t.data_offset),
        le64_bytes(t.data_len),
    );
    let kk = s.subrange(cur + 2 + n, cur + 4 + n);
    assert(kk == k);
    assert(kk[0] == s[cur + 2 + n] && kk[1] == s[cur + 3 + n]);
}

#[verifier::rlimit(40)]
proof fn lemma_six_parts(
    s: Seq<u8>,
    cur: int,
    a: Seq<u8>,
    b: Seq<u8>,
    c: Seq<u8>,
    d: Seq<u8>,
    e: Seq<u8>,
    f: Seq<u8>,
)
    requires
        0 <= cur,
        cur + (a + b + c + d + (e + f)).len() <= s.len(),
        s.subrange(cur, cur + (a + b + c + d + (e + f)).len()) == a + b + c + d + (e + f),
    ensures
        ({
            let i = cur + a.len();
            let j = i + b.len();
            let k = j + c.len();
            let l = k + d.len();
            let m = l + e.len();
            &&& s.subrange(cur, i) == a
            &&& s.subrange(i, j) == b
            &&& s.subrange(j, k) == c
            &&& s.subrange(k, l) == d
            &&& s.subrange(l, m) == e
            &&& s.subrange(m, m + f.len()) == f
        }),
{
    lemma_parts(s, cur, a + b + c + d, e + f);
    lemma_parts(s, cur, a + b + c, d);
    lemma_parts(s, cur, a + b, c);
    lemma_parts(s, cur, a, b);
    lemma_parts(s, cur + (a + b + c + d).len(), e, f);
}

proof fn lemma_records_read_back(
    s: Seq<u8>,
    end: int,
    cur: int,
    ti: nat,
    n: nat,
    ts: Seq<TensorRecord>,
)
    requires
        0 <= cur,
        cur + records_bytes(ts).len() <= end <= s.len(),
        s.subrange(cur, cur + records_bytes(ts).len()) == records_bytes(ts),
        n == ti + ts.len(),
        forall|i: int| 0 <= i < ts.len() ==> writable(#[trigger] ts[i], s.len()),
    ensures
        records_from(s, end, cur, ti, n) == Ok::<Seq<TensorRecord>, LoadError>(ts),
    decreases ts.len(),
{
    if ts.len() == 0 {
        assert(ts =~= Seq::<TensorRecord>::empty());
    } else {
        let t = ts[0];
        let less = ts.drop_first();
        lemma_parts(s, cur, record_bytes(t), records_bytes(less));
        assert(writable(ts[0], s.len()));
        lemma_record_reads_back(s, end, cur, ti, t);
        assert forall|i: int| 0 <= i < less.len() implies writable(#[trigger] less[i], s.len()) by {
            assert(less[i] == ts[i + 1]);
        }
        lemma_records_read_back(s, end, cur + record_bytes(t).len(), ti + 1, n, less);
        assert(seq![t] + less =~= ts);
    }
}

/// A written file reads back: every tensor with its name, type, shape and
/// place, in order.
#[verifier::rlimit(40)]
pub proof fn tensor_files_read_back(ts: Seq<TensorRecord>, data: Seq<u8>)
    requires
        ts.len() < 0x1_0000,
        records_bytes(ts).len() <= u64::MAX,
        forall|i: int|
            0 <= i < ts.len() ==> writable(#[trigger] ts[i], fbin_bytes(ts, data).len()),
    ensures
        file_records(fbin_bytes(ts, data)) == Ok::<Seq<TensorRecord>, LoadError>(ts),
{
    let s = fbin_bytes(ts, data);
    let n = ts.len() as u16;
    let r = records_bytes(ts);
    lemma_file_parts(n, r, data);
    lemma_file_header(s, n, r.len() as u64);
    lemma_records_read_back(s, 16 + r.len() as int, 16, 0, ts.len(), ts);
}

#[verifier::rlimit(40)]
proof fn lemma_file_parts(n: u16, r: Seq<u8>, data: Seq<u8>)
    ensures
        ({
            let s = seq![70u8, 66, 78, 49, 1, 0] + le16_bytes(n) + le64_bytes(r.len() as u64) + r
                + data;
            &&& s.len() == 16 + r.len() + data.len()
            &&& s.subrange(0, 6) == seq![70u8, 66, 78, 49, 1, 0]
            &&& s.subrange(6, 8) == le16_bytes(n)
            &&& s.subrange(8, 16) == le64_bytes(r.len() as u64)
            &&& s.subrange(16, 16 + r.len() as int) == r
        }),
{
    let lead = seq![70u8, 66, 78, 49, 1, 0];
    let c = le16_bytes(n);
    let m = le64_bytes(r.len() as u64);
    lemma_five_parts(lead, c, m, r, data);
    assert(lead.len() == 6 && c.len() == 2 && m.len() == 8);
}

#[verifier::rlimit(40)]
proof fn lemma_five_parts(a: Seq<u8>, b: Seq<u8>, c: Seq<u8>, d: Seq<u8>, e: Seq<u8>)
    ensures
        ({
            let s = a + b + c + d + e;
            let i = a.len() as int;
            let j = i + b.len();
            let k = j + c.len();
            &&& s.len() == k + d.len() + e.len()
            &&& s.subrange(0, i) == a
            &&& s.subrange(i, j) == b
            &&& s.subrange(j, k) == c
            &&& s.subrange(k, k + d.len()) == d
        }),
{
    let s = a + b + c + d + e;
    let i = a.len() as int;
    let j = i + b.len();
    let k = j + c.len();
    assert(s.subrange(0, i) =~= a);
    assert(s.subrange(i, j) =~= b);
    assert(s.subrange(j, k) =~= c);
    assert(s.subrange(k, k + d.len()) =~= d);
}

proof fn lemma_file_header(s: Seq<u8>, n: u16, m: u64)
    requires
        s.len() >= 16 + m,
        s.subrange(0, 6) == seq![70u8, 66, 78, 49, 1, 0],
        s.subrange(6, 8) == le16_bytes(n),
        s.subrange(8, 16) == le64_bytes(m),
    ensures
        file_records(s) == records_from(s, 16 + m, 16, 0, n as nat),
{
    let lead = s.subrange(0, 6);
    assert(s[0] == lead[0] && s[1] == lead[1] && s[2] == lead[2] && s[3] == lead[3]);
    assert(s[4] == lead[4] && s[5] == lead[5]);
    crate::bytes::le16_round_trip(s, 6, n);
    crate::bytes::le64_round_trip(s, 8, m);
}

/// What is refused: a file without its sixteen bytes of header, with another
/// magic or version, or shorter than its records.
pub proof fn foreign_files_are_refused(s: Seq<u8>)
    ensures
        s.len() < 16 ==> file_records(s) is Err,
        s.len() >= 16 && !(s[0] == 70 && s[1] == 66 && s[2] == 78 && s[3] == 49) ==> file_records(s)
            == Err::<Seq<TensorRecord>, LoadError>(LoadError::BadMagic),
        s.len() >= 16 && s[0] == 70 && s[1] == 66 && s[2] == 78 && s[3] == 49 && le16(s, 4) != 1
            ==> file_records(s) == Err::<Seq<TensorRecord>, LoadError>(
            LoadError::BadVersion(le16(s, 4) as u16),
        ),
        s.len() >= 16 && s.len() < 16 + le64(s, 8) ==> file_records(s) is Err,
{
}

/// The number of elements of a shape is the product of its dimensions.
pub proof fn shapes_multiply(shape: Seq<u32>, n: u32)
    ensures
        shape_product(Seq::empty()) == 1,
        shape_product(shape.push(n)) == shape_product(shape) * n,
{
    assert(shape.push(n).drop_last() =~= shape);
}

/// The hash takes in one byte at a time, from the front.
pub proof fn hash_takes_bytes(h: u64, b: u8, s: Seq<u8>)
    ensures
        fnv_from(h, Seq::empty()) == h,
        fnv_from(h, seq![b] + s) == fnv_from(
            ((h ^ (b as u64)) as u64).wrapping_mul(1_099_511_628_211),
            s,
        ),
{
    assert((seq![b] + s).drop_first() =~= s);
}

/// An `F32` tensor whose data are numbers of four bytes each gives these
/// numbers back; a tensor of another type, or with data of another size than
/// its shape, gives nothing.
pub proof fn numbers_of_tensors_read_back(view: &FbinView, name: Seq<char>, i: int, w: Seq<u32>)
    requires
        view.wf(),
        0 <= i < view.tensors@.len(),
        view.tensors@[i]@.name == name,
        forall|j: int| 0 <= j < i ==> (#[trigger] view.tensors@[j])@.name != name,
    ensures
        ({
            let t = view.tensors@[i];
            &&& t.dtype != DType::F32 ==> view.f32_of(name) is None
            &&& t.data_len != 4 * shape_product(t.shape@) ==> view.f32_of(name) is None
            &&& t.dtype == DType::F32 && shape_product(t.shape@) == w.len() && t.data_len == 4
                * w.len() && view.file().subrange(t.data_offset as int, t.data_offset + t.data_len)
                == words(w) ==> view.f32_of(name) == Some(w)
        }),
{
    named_is_first(view.tensors@, name, 0);
    let k = named(view.tensors@, name, 0)->0;
    assert(named(view.tensors@, name, 0) is Some);
    assert(k == i) by {
        if k > i {
            assert(view.tensors@[i]@.name != name);
        }
    }
    let t = view.tensors@[i];
    assert(view.holds(view.tensors@[i]@));
    if t.dtype == DType::F32 && shape_product(t.shape@) == w.len() && t.data_len == 4 * w.len()
        && view.file().subrange(t.data_offset as int, t.data_offset + t.data_len) == words(w) {
        let got = view.f32_of(name)->0;
        assert forall|j: int| 0 <= j < w.len() implies #[trigger] got[j] == w[j] by {
            lemma_word(view.file(), t.data_offset as int, w, j);
        }
        assert(got =~= w);
    }
}

} // verus!
