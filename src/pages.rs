//! The on-page record format (items) and the slotted page.
use vstd::prelude::*;
use vstd::utf8::encode_utf8;
use bit_vec::BitVec;

use crate::asl::{values_view, Record, Table};
use crate::errors::{validation_error, QueryError};
use crate::utils::{
    be_u32, be_u64, copy_bytes_into, lemma_u32_round_trip, lemma_u64_round_trip, push_u32, push_u64,
    read_u32, read_u64, u32_at, u64_at,
};
use crate::value::{fixed_width, lemma_value_round_trip, type_of, value_bytes, value_from_bytes, Type, Value, ValueView};

verus! {

broadcast use {vstd::utf8::encode_utf8_valid_utf8, vstd::utf8::encode_utf8_decode_utf8};

/// The size of a page, on disk and in memory.
pub const PAGE_SIZE: usize = 8192;

/// The width of the page offsets, the slot entries, the field count and the
/// string lengths, all stored big-endian.
pub const WORD_SIZE: usize = 8;

/// The size of a page body: the page less its id and its two offsets.
pub const PAGE_DATA_SIZE: usize = PAGE_SIZE - 4 - 2 * WORD_SIZE;

/// The size of a slot: an item's offset and its size.
pub const SLOT_SIZE: usize = 2 * WORD_SIZE;

#[verifier::external_type_specification]
#[verifier::external_body]
#[verifier::reject_recursive_types(B)]
pub struct ExBitVec<B>(BitVec<B>);

/// The bits that a bit vector holds, first to last.
pub uninterp spec fn bits_of(b: BitVec) -> Seq<bool>;

/// Bit `i` of `bits`, false past the end.
pub open spec fn bit_at(bits: Seq<bool>, i: int) -> bool {
    0 <= i < bits.len() && bits[i]
}

/// Byte `j` of a bitmap: bits `8j .. 8j + 8`, the first in the high-order bit.
pub open spec fn pack_byte(bits: Seq<bool>, j: int) -> u8 {
    (if bit_at(bits, 8 * j) { 0x80u8 } else { 0u8 }) | (if bit_at(bits, 8 * j + 1) { 0x40u8 } else { 0u8 })
        | (if bit_at(bits, 8 * j + 2) { 0x20u8 } else { 0u8 }) | (if bit_at(bits, 8 * j + 3) { 0x10u8 } else { 0u8 })
        | (if bit_at(bits, 8 * j + 4) { 0x08u8 } else { 0u8 }) | (if bit_at(bits, 8 * j + 5) { 0x04u8 } else { 0u8 })
        | (if bit_at(bits, 8 * j + 6) { 0x02u8 } else { 0u8 }) | (if bit_at(bits, 8 * j + 7) { 0x01u8 } else { 0u8 })
}

/// The number of bytes of a bitmap of `n` bits.
pub open spec fn null_map_len(n: nat) -> nat {
    n / 8 + if n % 8 == 0 { 0nat } else { 1nat }
}

/// The bytes of a bitmap, padded with false bits.
pub open spec fn bitmap_bytes(bits: Seq<bool>) -> Seq<u8> {
    Seq::new(null_map_len(bits.len()), |j: int| pack_byte(bits, j))
}

/// Bit `k` of a byte, counted from the high-order bit.
pub open spec fn byte_bit(b: u8, k: int) -> bool {
    (b >> ((7 - k) as u8)) & 1u8 == 1u8
}

/// The bits of `bytes`, eight per byte, high-order bit first.
pub open spec fn unpack_bits(bytes: Seq<u8>) -> Seq<bool> {
    Seq::new(bytes.len() * 8, |i: int| byte_bit(bytes[i / 8], i % 8))
}

/// Relies on BitVec::from_elem: `nbits` bits, each equal to `bit`.
#[verifier::external_body]
fn bitvec_from_elem(nbits: usize, bit: bool) -> (r: BitVec)
    ensures
        bits_of(r) == Seq::new(nbits as nat, |i: int| bit),
{
    BitVec::from_elem(nbits, bit)
}

/// Relies on BitVec::set: bit `i` becomes `x`; it panics past the end.
#[verifier::external_body]
fn bitvec_set(b: &mut BitVec, i: usize, x: bool)
    requires
        i < bits_of(*old(b)).len(),
    ensures
        bits_of(*final(b)) == bits_of(*old(b)).update(i as int, x),
{
    b.set(i, x)
}

/// Relies on BitVec::get: bit `i`, or `None` past the end.
#[verifier::external_body]
fn bitvec_get(b: &BitVec, i: usize) -> (r: Option<bool>)
    ensures
        r == if i < bits_of(*b).len() {
            Some(bits_of(*b)[i as int])
        } else {
            None::<bool>
        },
{
    b.get(i)
}

/// Relies on BitVec::to_bytes: the first bit becomes the high-order bit of the
/// first byte, and the last byte is padded with false bits.
#[verifier::external_body]
fn bitvec_to_bytes(b: &BitVec) -> (r: Vec<u8>)
    ensures
        r@ == bitmap_bytes(bits_of(*b)),
{
    b.to_bytes()
}

/// Relies on BitVec::from_bytes: eight bits per byte, high-order bit first; it
/// panics when the bit count overflows.
#[verifier::external_body]
fn bitvec_from_bytes(bytes: &[u8]) -> (r: BitVec)
    requires
        bytes@.len() * 8 <= usize::MAX,
    ensures
        bits_of(r) == unpack_bits(bytes@),
{
    BitVec::from_bytes(bytes)
}

/// The bytes that an item stores for one field: strings carry an eight-byte
/// big-endian length before their UTF-8 bytes; nulls store nothing.
pub open spec fn field_bytes(v: ValueView) -> Seq<u8> {
    match v {
        ValueView::Str(s) => be_u64(encode_utf8(s).len() as u64) + encode_utf8(s),
        _ => value_bytes(v),
    }
}

/// The packed bytes of all fields, in order.
pub open spec fn fields_bytes(vals: Seq<ValueView>) -> Seq<u8>
    decreases vals.len(),
{
    if vals.len() == 0 {
        Seq::empty()
    } else {
        fields_bytes(vals.drop_last()) + field_bytes(vals.last())
    }
}

/// The null bitmap of a record: bit `i` is set exactly when field `i` is null.
pub open spec fn null_bits(vals: Seq<ValueView>) -> Seq<bool> {
    Seq::new(vals.len(), |i: int| vals[i] is Null)
}

/// Decodes the fields `i ..` of a record of column types `types` from `data`,
/// starting at byte `off`; `None` when the data is too short or a string is not
/// UTF-8. A field whose bit is set, or that the bitmap does not reach, is null.
pub open spec fn decode_fields(bits: Seq<bool>, data: Seq<u8>, types: Seq<Type>, i: int, off: int) -> Option<Seq<ValueView>>
    decreases types.len() - i, 
{
    if i < 0 || i >= types.len() || off < 0 {
        Some(Seq::empty())
    } else if bit_at(bits, i) {
        match decode_fields(bits, data, types, i + 1, off) {
            Some(rest) => Some(seq![ValueView::Null] + rest),
            None => None,
        }
    } else {
        let t = types[i];
        let start = if t == Type::Str { off + 8 } else { off };
        if start > data.len() {
            None
        } else {
            let len = if t == Type::Str { u64_at(data, off) as int } else { fixed_width(t) as int };
            if start + len > data.len() {
                None
            } else {
                match value_from_bytes(data.subrange(start, start + len), t) {
                    None => None,
                    Some(v) => match decode_fields(bits, data, types, i + 1, start + len) {
                        Some(rest) => Some(seq![v] + rest),
                        None => None,
                    },
                }
            }
        }
    }
}

pub open spec fn column_types(table: Table) -> Seq<Type> {
    table.columns@.map_values(|c: crate::asl::Column| c.column_type)
}

/// A record's values fit a schema: one per column, each null or of the column's type.
pub open spec fn matches_schema(vals: Seq<ValueView>, types: Seq<Type>) -> bool {
    &&& vals.len() == types.len()
    &&& forall|i: int| 0 <= i < vals.len() ==> (#[trigger] vals[i] is Null || type_of(vals[i]) == Some(types[i]))
}

/// The record encoding within a page: field count, null bitmap, packed fields.
#[derive(Debug)]
pub struct Item {
    number_of_fields: usize,
    null_map: BitVec,
    field_data: Vec<u8>,
}

/// The page bytes of a record: an eight-byte field count, the null bitmap and
/// the packed fields.
pub open spec fn encode_item(vals: Seq<ValueView>) -> Seq<u8> {
    be_u64(vals.len() as u64) + bitmap_bytes(null_bits(vals)) + fields_bytes(vals)
}

impl Item {
    pub closed spec fn fields(self) -> nat {
        self.number_of_fields as nat
    }

    pub closed spec fn nulls(self) -> Seq<bool> {
        bits_of(self.null_map)
    }

    pub closed spec fn data(self) -> Seq<u8> {
        self.field_data@
    }

    /// The null map length in bytes.
    pub fn get_null_map_length(number_of_fields: &usize) -> (r: usize)
        ensures
            r == null_map_len(*number_of_fields as nat),
    {
        number_of_fields / 8 + if number_of_fields % 8 == 0 {
            0
        } else {
            1
        }
    }

    /// Build an item from its page bytes; an error when they are too short to
    /// hold the field count and the null bitmap.
    #[verifier::rlimit(40)]
    pub fn from_page_data(page_data: &[u8]) -> (r: Result<Item, QueryError>)
        ensures
            match r {
                Ok(item) => {
                    let n = u64_at(page_data@, 0);
                    let m = null_map_len(n as nat) as int;
                    &&& page_data@.len() >= 8 + m
                    &&& item.fields() == n
                    &&& item.nulls() == unpack_bits(page_data@.subrange(8, 8 + m))
                    &&& item.data() == page_data@.subrange(8 + m, page_data@.len() as int)
                },
                Err(e) => e is ValidationError && (page_data@.len() < 8 || page_data@.len() < 8
                    + null_map_len(u64_at(page_data@, 0) as nat) || null_map_len(
                    u64_at(page_data@, 0) as nat,
                ) * 8 > usize::MAX),
            },
    {
        if page_data.len() < 8 {
            return Err(validation_error("Item data too short"));
        }
        let n = read_u64(page_data, 0);
        let m = n / 8 + if n % 8 == 0 {
            0
        } else {
            1
        };
        if m > (page_data.len() - 8) as u64 {
            return Err(validation_error("Item data too short"));
        }
        if m > (usize::MAX / 8) as u64 {
            return Err(validation_error("Item null map too large"));
        }
        let m = m as usize;
        assert(n <= m * 8) by (nonlinear_arith)
            requires
                m == n / 8 + if n % 8 == 0 { 0u64 } else { 1u64 },
        ;
        let number_of_fields = n as usize;
        let null_bytes = vstd::slice::slice_subrange(page_data, 8, 8 + m);
        let null_map = bitvec_from_bytes(null_bytes);
        let field_data = vstd::slice::slice_to_vec(
            vstd::slice::slice_subrange(page_data, 8 + m, page_data.len()),
        );
        Ok(Item { number_of_fields, null_map, field_data })
    }
}

impl Item {
    /// Build an item from a record: nulls are marked in the bitmap and store no bytes.
    #[verifier::rlimit(40)]
    pub fn from_record(record: &Record) -> (r: Item)
        ensures
            r.fields() == record.values@.len(),
            r.nulls() == null_bits(record.view_values()),
            r.data() == fields_bytes(record.view_values()),
    {
        let ghost vals = record.view_values();
        let number_of_fields = record.values.len();
        let mut null_map = bitvec_from_elem(number_of_fields, false);
        let mut field_data: Vec<u8> = Vec::new();
        let mut idx: usize = 0;
        assert(vals.subrange(0, 0) =~= Seq::<ValueView>::empty());
        while idx < number_of_fields
            invariant
                number_of_fields == record.values@.len() == vals.len(),
                vals == record.view_values(),
                idx <= number_of_fields,
                bits_of(null_map) == Seq::new(
                    number_of_fields as nat,
                    |i: int| i < idx && vals[i] is Null,
                ),
                field_data@ == fields_bytes(vals.subrange(0, idx as int)),
            decreases number_of_fields - idx,
        {
            let value = &record.values[idx];
            let ghost before = field_data@;
            match value {
                Value::Str(s) => {
                    let bytes = s.as_str().as_bytes();
                    push_u64(&mut field_data, bytes.len() as u64);
                    field_data.extend_from_slice(bytes);
                },
                Value::Null => {
                    bitvec_set(&mut null_map, idx, true);
                },
                _ => {
                    let bytes = value.clone().to_be_bytes();
                    field_data.extend_from_slice(bytes.as_slice());
                },
            }
            proof {
                assert(vals.subrange(0, idx + 1).drop_last() =~= vals.subrange(0, idx as int));
                assert(vals[idx as int] == record.values@[idx as int]@);
                assert(field_data@ =~= before + field_bytes(vals[idx as int]));
            }
            idx += 1;
            assert(bits_of(null_map) =~= Seq::new(
                number_of_fields as nat,
                |i: int| i < idx && vals[i] is Null,
            ));
        }
        assert(vals.subrange(0, idx as int) =~= vals);
        assert(bits_of(null_map) =~= null_bits(vals));
        Item { number_of_fields, null_map, field_data }
    }

    /// The page bytes of this item: field count, null bitmap, packed fields.
    pub fn to_page_data(&self) -> (r: Vec<u8>)
        ensures
            r@ == be_u64(self.fields() as u64) + bitmap_bytes(self.nulls()) + self.data(),
    {
        let mut page_data: Vec<u8> = Vec::new();
        push_u64(&mut page_data, self.number_of_fields as u64);
        let null_bytes = bitvec_to_bytes(&self.null_map);
        page_data.extend_from_slice(null_bytes.as_slice());
        page_data.extend_from_slice(self.field_data.as_slice());
        assert(page_data@ =~= be_u64(self.fields() as u64) + bitmap_bytes(self.nulls()) + self.data());
        page_data
    }

    /// Build the record of `table` that this item holds; an error when the
    /// data is too short for the schema or a string is not UTF-8.
    #[verifier::rlimit(40)]
    pub fn to_record(&self, table: &Table) -> (r: Result<Record, QueryError>)
        ensures
            match decode_fields(self.nulls(), self.data(), column_types(*table), 0, 0) {
                Some(vs) => r matches Ok(rec) && rec.view_values() == vs,
                None => r matches Err(e) && e is ValidationError,
            },
    {
        let ghost types = column_types(*table);
        let ghost bits = self.nulls();
        let ghost data = self.data();
        let mut values: Vec<Value> = Vec::new();
        let mut offset: usize = 0;
        let mut idx: usize = 0;
        let n = table.columns.len();
        assert(values_view(values@) =~= Seq::<ValueView>::empty());
        while idx < n
            invariant
                n == table.columns@.len() == types.len(),
                types == column_types(*table),
                bits == self.nulls(),
                data == self.data(),
                data == self.field_data@,
                idx <= n,
                offset <= data.len(),
                values@.len() == idx,
                decode_fields(bits, data, types, 0, 0) == match decode_fields(bits, data, types, idx as int, offset as int) {
                    Some(rest) => Some(values_view(values@) + rest),
                    None => None,
                },
            decreases n - idx,
        {
            let column_type = table.columns[idx].column_type;
            assert(column_type == types[idx as int]);
            let is_null_value = match bitvec_get(&self.null_map, idx) {
                Some(is_null) => is_null,
                None => false,
            };
            let ghost vv = values_view(values@);
            if is_null_value {
                values.push(Value::Null);
                proof {
                    assert(values_view(values@) =~= vv + seq![ValueView::Null]);
                    match decode_fields(bits, data, types, idx + 1, offset as int) {
                        Some(rest) => {
                            assert(vv + (seq![ValueView::Null] + rest) =~= values_view(values@) + rest);
                        },
                        None => {},
                    }
                }
            } else {
                let start = if column_type == Type::Str {
                    if self.field_data.len() - offset < 8 {
                        return Err(validation_error("Item data too short for its schema"));
                    }
                    offset + 8
                } else {
                    offset
                };
                let len: u64 = match column_type {
                    Type::Str => read_u64(self.field_data.as_slice(), offset),
                    Type::Int => 4,
                    Type::Float => 4,
                    Type::Bool => 1,
                };
                if len > (self.field_data.len() - start) as u64 {
                    return Err(validation_error("Item data too short for its schema"));
                }
                let next_offset = start + len as usize;
                let bytes = vstd::slice::slice_to_vec(
                    vstd::slice::slice_subrange(self.field_data.as_slice(), start, next_offset),
                );
                let value = Value::from_be_bytes(bytes, &column_type)?;
                values.push(value);
                proof {
                    assert(values_view(values@) =~= vv + seq![value@]);
                    match decode_fields(bits, data, types, idx + 1, next_offset as int) {
                        Some(rest) => {
                            assert(vv + (seq![value@] + rest) =~= values_view(values@) + rest);
                        },
                        None => {},
                    }
                }
                offset = next_offset;
            }
            idx += 1;
        }
        assert(values_view(values@) + Seq::<ValueView>::empty() =~= values_view(values@));
        Ok(Record { values })
    }
}

#[verifier::rlimit(40)]
proof fn lemma_byte_bit_pack(bits: Seq<bool>, j: int, k: int)
    requires
        0 <= k < 8,
    ensures
        byte_bit(pack_byte(bits, j), k) == bit_at(bits, 8 * j + k),
{
    let b0 = bit_at(bits, 8 * j);
    let b1 = bit_at(bits, 8 * j + 1);
    let b2 = bit_at(bits, 8 * j + 2);
    let b3 = bit_at(bits, 8 * j + 3);
    let b4 = bit_at(bits, 8 * j + 4);
    let b5 = bit_at(bits, 8 * j + 5);
    let b6 = bit_at(bits, 8 * j + 6);
    let b7 = bit_at(bits, 8 * j + 7);
    let x = pack_byte(bits, j);
    assert(x == (if b0 { 0x80u8 } else { 0u8 }) | (if b1 { 0x40u8 } else { 0u8 }) | (if b2 { 0x20u8 } else { 0u8 })
        | (if b3 { 0x10u8 } else { 0u8 }) | (if b4 { 0x08u8 } else { 0u8 }) | (if b5 { 0x04u8 } else { 0u8 })
        | (if b6 { 0x02u8 } else { 0u8 }) | (if b7 { 0x01u8 } else { 0u8 }));
    assert(x == (if b0 { 0x80u8 } else { 0u8 }) | (if b1 { 0x40u8 } else { 0u8 }) | (if b2 { 0x20u8 } else { 0u8 })
        | (if b3 { 0x10u8 } else { 0u8 }) | (if b4 { 0x08u8 } else { 0u8 }) | (if b5 { 0x04u8 } else { 0u8 })
        | (if b6 { 0x02u8 } else { 0u8 }) | (if b7 { 0x01u8 } else { 0u8 }) ==> ((x >> 7u8) & 1u8 == 1u8) == b0
        && ((x >> 6u8) & 1u8 == 1u8) == b1 && ((x >> 5u8) & 1u8 == 1u8) == b2 && ((x >> 4u8) & 1u8 == 1u8) == b3
        && ((x >> 3u8) & 1u8 == 1u8) == b4 && ((x >> 2u8) & 1u8 == 1u8) == b5 && ((x >> 1u8) & 1u8 == 1u8) == b6
        && ((x >> 0u8) & 1u8 == 1u8) == b7) by (bit_vector);
}

/// The bits read back from a bitmap's bytes are the bitmap's bits.
proof fn lemma_bitmap_round_trip(bits: Seq<bool>, i: int)
    requires
        0 <= i < bits.len(),
    ensures
        unpack_bits(bitmap_bytes(bits)).len() >= bits.len(),
        unpack_bits(bitmap_bytes(bits))[i] == bits[i],
{
    let m = null_map_len(bits.len());
    assert(m * 8 >= bits.len()) by (nonlinear_arith)
        requires
            m == bits.len() / 8 + if bits.len() % 8 == 0 { 0nat } else { 1nat },
    ;
    assert(i / 8 < m) by (nonlinear_arith)
        requires
            m * 8 >= bits.len(),
            0 <= i < bits.len(),
    ;
    lemma_byte_bit_pack(bits, i / 8, i % 8);
    assert(8 * (i / 8) + i % 8 == i);
}

/// The packed bytes of a prefix of the fields are a prefix of the packed bytes.
proof fn lemma_fields_prefix(vals: Seq<ValueView>, j: int)
    requires
        0 <= j <= vals.len(),
    ensures
        fields_bytes(vals.subrange(0, j)).len() <= fields_bytes(vals).len(),
        fields_bytes(vals).subrange(0, fields_bytes(vals.subrange(0, j)).len() as int)
            == fields_bytes(vals.subrange(0, j)),
    decreases vals.len(),
{
    if j == vals.len() {
        assert(vals.subrange(0, j) =~= vals);
        assert(fields_bytes(vals).subrange(0, fields_bytes(vals).len() as int) =~= fields_bytes(vals));
    } else {
        lemma_fields_prefix(vals.drop_last(), j);
        assert(vals.drop_last().subrange(0, j) =~= vals.subrange(0, j));
        let a = fields_bytes(vals.drop_last());
        let p = fields_bytes(vals.subrange(0, j));
        assert(fields_bytes(vals) == a + field_bytes(vals.last()));
        assert((a + field_bytes(vals.last())).subrange(0, p.len() as int) =~= a.subrange(0, p.len() as int));
    }
}

/// Every string of the record has a byte length that fits the length prefix.
pub open spec fn strings_fit(vals: Seq<ValueView>) -> bool {
    forall|i: int|
        0 <= i < vals.len() ==> (#[trigger] vals[i] matches ValueView::Str(s) ==> encode_utf8(s).len()
            <= u64::MAX)
}

#[verifier::rlimit(40)]
proof fn lemma_decode_fields_from(vals: Seq<ValueView>, types: Seq<Type>, bits: Seq<bool>, i: int)
    requires
        matches_schema(vals, types),
        strings_fit(vals),
        0 <= i <= vals.len(),
        bits.len() >= vals.len(),
        forall|k: int| 0 <= k < vals.len() ==> bits[k] == (#[trigger] vals[k] is Null),
    ensures
        decode_fields(bits, fields_bytes(vals), types, i, fields_bytes(vals.subrange(0, i)).len() as int)
            == Some(vals.subrange(i, vals.len() as int)),
    decreases vals.len() - i,
{
    let data = fields_bytes(vals);
    let off = fields_bytes(vals.subrange(0, i)).len() as int;
    if i == vals.len() {
        assert(vals.subrange(i, vals.len() as int) =~= Seq::<ValueView>::empty());
    } else {
        lemma_decode_fields_from(vals, types, bits, i + 1);
        lemma_fields_prefix(vals, i + 1);
        let pre = vals.subrange(0, i + 1);
        assert(pre.drop_last() =~= vals.subrange(0, i));
        let v = vals[i];
        let fb = field_bytes(v);
        assert(fields_bytes(pre) == fields_bytes(vals.subrange(0, i)) + fb);
        let next = off + fb.len();
        assert(data.subrange(off, next) =~= fb) by {
            assert(data.subrange(0, fields_bytes(pre).len() as int) == fields_bytes(pre));
            assert forall|k: int| 0 <= k < fb.len() implies data[off + k] == fb[k] by {
                assert(data.subrange(0, fields_bytes(pre).len() as int)[off + k] == fields_bytes(pre)[off + k]);
            }
        }
        let rest = vals.subrange(i + 1, vals.len() as int);
        assert(seq![v] + rest =~= vals.subrange(i, vals.len() as int));
        if v is Null {
            assert(bit_at(bits, i));
            assert(fb.len() == 0);
        } else {
            assert(!bit_at(bits, i));
            let t = types[i];
            match v {
                ValueView::Str(s) => {
                    let e = encode_utf8(s);
                    let lb = be_u64(e.len() as u64);
                    assert(fb == lb + e);
                    assert forall|k: int| 0 <= k < 8 implies data[off + k] == lb[k] by {
                        assert(data.subrange(off, next)[k] == fb[k]);
                    }
                    lemma_u64_round_trip(e.len() as u64);
                    assert(u64_at(data, off) == u64_at(lb, 0));
                    assert(data.subrange(off + 8, off + 8 + e.len()) =~= e) by {
                        assert forall|k: int| 0 <= k < e.len() implies data[off + 8 + k] == e[k] by {
                            assert(data.subrange(off, next)[8 + k] == fb[8 + k]);
                        }
                    }
                    assert(value_from_bytes(e, t) == Some(v));
                },
                _ => {
                    lemma_value_round_trip(v, t);
                    assert(fb.len() == fixed_width(t));
                },
            }
        }
    }
}

proof fn lemma_item_layout(vals: Seq<ValueView>)
    requires
        vals.len() <= u64::MAX,
    ensures
        ({
            let bytes = encode_item(vals);
            let m = null_map_len(vals.len()) as int;
            &&& u64_at(bytes, 0) == vals.len()
            &&& bytes.len() >= 8 + m
            &&& bytes.subrange(8, 8 + m) == bitmap_bytes(null_bits(vals))
            &&& bytes.subrange(8 + m, bytes.len() as int) == fields_bytes(vals)
        }),
{
    let bytes = encode_item(vals);
    let m = null_map_len(vals.len()) as int;
    let c = be_u64(vals.len() as u64);
    lemma_u64_round_trip(vals.len() as u64);
    assert(u64_at(bytes, 0) == u64_at(c, 0)) by {
        assert forall|k: int| 0 <= k < 8 implies bytes[k] == c[k] by {}
    }
    assert(bytes.subrange(8, 8 + m) =~= bitmap_bytes(null_bits(vals)));
    assert(bytes.subrange(8 + m, bytes.len() as int) =~= fields_bytes(vals));
}

proof fn lemma_item_fields_decode(vals: Seq<ValueView>, types: Seq<Type>)
    requires
        matches_schema(vals, types),
        strings_fit(vals),
    ensures
        decode_fields(unpack_bits(bitmap_bytes(null_bits(vals))), fields_bytes(vals), types, 0, 0) == Some(vals),
{
    let nb = null_bits(vals);
    let bits = unpack_bits(bitmap_bytes(nb));
    if vals.len() > 0 {
        lemma_bitmap_round_trip(nb, 0);
    } else {
        assert(bits.len() >= 0);
    }
    assert forall|k: int| 0 <= k < vals.len() implies bits[k] == (#[trigger] vals[k] is Null) by {
        lemma_bitmap_round_trip(nb, k);
    }
    lemma_decode_fields_from(vals, types, bits, 0);
    assert(vals.subrange(0, 0) =~= Seq::<ValueView>::empty());
    assert(vals.subrange(0, vals.len() as int) =~= vals);
}

/// Item round trip without page bytes: the item that `from_record` builds from
/// a record whose values fit a schema decodes, under that schema, to the record.
pub proof fn lemma_record_item_round_trip(vals: Seq<ValueView>, types: Seq<Type>)
    requires
        matches_schema(vals, types),
        strings_fit(vals),
    ensures
        decode_fields(null_bits(vals), fields_bytes(vals), types, 0, 0) == Some(vals),
{
    let bits = null_bits(vals);
    assert forall|k: int| 0 <= k < vals.len() implies bits[k] == (#[trigger] vals[k] is Null) by {}
    lemma_decode_fields_from(vals, types, bits, 0);
    assert(vals.subrange(0, 0) =~= Seq::<ValueView>::empty());
    assert(vals.subrange(0, vals.len() as int) =~= vals);
}

/// Item round trip: the page bytes of a record whose values fit a schema hold
/// its field count, its null bitmap and its packed fields, and the fields decode
/// under that schema to the record's values.
pub proof fn lemma_item_round_trip(vals: Seq<ValueView>, types: Seq<Type>)
    requires
        matches_schema(vals, types),
        strings_fit(vals),
        vals.len() <= u64::MAX,
    ensures
        ({
            let bytes = encode_item(vals);
            let m = null_map_len(vals.len()) as int;
            &&& u64_at(bytes, 0) == vals.len()
            &&& bytes.len() >= 8 + m
            &&& bytes.subrange(8, 8 + m) == bitmap_bytes(null_bits(vals))
            &&& bytes.subrange(8 + m, bytes.len() as int) == fields_bytes(vals)
            &&& decode_fields(unpack_bits(bitmap_bytes(null_bits(vals))), fields_bytes(vals), types, 0, 0)
                == Some(vals)
        }),
{
    lemma_item_layout(vals);
    lemma_item_fields_decode(vals, types);
}

/// Why an item could not be added to a page.
#[derive(Debug, Clone, Copy, PartialEq, Eq, Structural)]
pub enum PagingError {
    NotEnoughSpace,
}

/// A fixed-size slotted page: a directory of `(offset, size)` slots grows from
/// the front of the body, item bytes grow from the back, the gap is free.
#[derive(Debug)]
pub struct Page {
    pub id: u32,
    free_space_start: u64,
    free_space_end: u64,
    data: Vec<u8>,
}

/// What a page holds.
pub struct PageView {
    pub id: u32,
    pub free_space_start: u64,
    pub free_space_end: u64,
    pub data: Seq<u8>,
}

impl View for Page {
    type V = PageView;

    closed spec fn view(&self) -> PageView {
        PageView {
            id: self.id,
            free_space_start: self.free_space_start,
            free_space_end: self.free_space_end,
            data: self.data@,
        }
    }
}

/// Slot `k` of a page body: the offset and size of item `k`.
pub open spec fn slot(data: Seq<u8>, k: int) -> (u64, u64) {
    (u64_at(data, SLOT_SIZE * k), u64_at(data, SLOT_SIZE * k + WORD_SIZE))
}

impl PageView {
    pub open spec fn slot_count(self) -> int {
        self.free_space_start as int / SLOT_SIZE as int
    }

    pub open spec fn slot_ok(self, k: int) -> bool {
        let (off, size) = slot(self.data, k);
        self.free_space_end <= off && off + size <= PAGE_DATA_SIZE
    }

    /// The page's invariant: the directory and the item bytes do not overlap and
    /// every slot points inside the item region.
    pub open spec fn wf(self) -> bool {
        &&& self.data.len() == PAGE_DATA_SIZE
        &&& self.free_space_start <= self.free_space_end <= PAGE_DATA_SIZE
        &&& self.free_space_start % SLOT_SIZE as u64 == 0
        &&& forall|k: int| 0 <= k < self.slot_count() ==> #[trigger] self.slot_ok(k)
    }

    /// The bytes of item `k`.
    pub open spec fn item_bytes(self, k: int) -> Seq<u8> {
        let (off, size) = slot(self.data, k);
        self.data.subrange(off as int, off + size)
    }

    /// The page's bytes: id, the two offsets, the body.
    pub open spec fn to_bytes(self) -> Seq<u8> {
        be_u32(self.id) + be_u64(self.free_space_start) + be_u64(self.free_space_end) + self.data
    }
}

/// An empty page: no slot, all of the body free and zeroed.
pub open spec fn empty_page(id: u32) -> PageView {
    PageView {
        id,
        free_space_start: 0,
        free_space_end: PAGE_DATA_SIZE as u64,
        data: Seq::new(PAGE_DATA_SIZE as nat, |i: int| 0u8),
    }
}

/// The page that `bytes` hold.
pub open spec fn page_of_bytes(bytes: Seq<u8>) -> PageView {
    PageView {
        id: u32_at(bytes, 0),
        free_space_start: u64_at(bytes, 4),
        free_space_end: u64_at(bytes, 12),
        data: bytes.subrange(20, PAGE_SIZE as int),
    }
}

/// `s` with `x` written over it at `at`.
#[verifier::opaque]
pub open spec fn overwrite(s: Seq<u8>, at: int, x: Seq<u8>) -> Seq<u8> {
    s.subrange(0, at) + x + s.subrange(at + x.len(), s.len() as int)
}

/// Item parsing: the header of an item's bytes is complete.
pub open spec fn item_header_ok(bytes: Seq<u8>) -> bool {
    let m = null_map_len(u64_at(bytes, 0) as nat);
    bytes.len() >= 8 && bytes.len() >= 8 + m && m * 8 <= usize::MAX
}

impl Item {
    /// This item is what `from_page_data` builds from `bytes`.
    pub open spec fn parsed_from(self, bytes: Seq<u8>) -> bool {
        let n = u64_at(bytes, 0);
        let m = null_map_len(n as nat) as int;
        &&& self.fields() == n
        &&& self.nulls() == unpack_bits(bytes.subrange(8, 8 + m))
        &&& self.data() == bytes.subrange(8 + m, bytes.len() as int)
    }
}

impl Page {
    /// The id of this page.
    pub fn get_id(&self) -> (r: u32)
        ensures
            r == self@.id,
    {
        self.id
    }

    /// An empty page.
    pub fn new(id: u32) -> (r: Page)
        ensures
            r@ == empty_page(id),
            r@.id == id,
            r@.free_space_start == 0,
            r@.free_space_end == PAGE_DATA_SIZE,
            r@.data == Seq::new(PAGE_DATA_SIZE as nat, |i: int| 0u8),
            r@.wf(),
            r@.slot_count() == 0,
    {
        let data = vec![0u8; PAGE_DATA_SIZE];
        assert(data@ =~= Seq::new(PAGE_DATA_SIZE as nat, |i: int| 0u8));
        Page { id, data, free_space_start: 0, free_space_end: PAGE_DATA_SIZE as u64 }
    }

    /// Read a page from its bytes.
    pub fn from_bytes(bytes: &[u8]) -> (r: Page)
        requires
            bytes@.len() == PAGE_SIZE,
        ensures
            r@ == page_of_bytes(bytes@),
    {
        let id = read_u32(bytes, 0);
        let free_space_start = read_u64(bytes, 4);
        let free_space_end = read_u64(bytes, 12);
        let data = vstd::slice::slice_to_vec(vstd::slice::slice_subrange(bytes, 20, PAGE_SIZE));
        Page { id, free_space_start, free_space_end, data }
    }

    /// The bytes of this page.
    pub fn to_bytes(&self) -> (r: Vec<u8>)
        ensures
            r@ == self@.to_bytes(),
    {
        let mut bytes: Vec<u8> = Vec::new();
        push_u32(&mut bytes, self.id);
        push_u64(&mut bytes, self.free_space_start);
        push_u64(&mut bytes, self.free_space_end);
        bytes.extend_from_slice(self.data.as_slice());
        bytes
    }

    /// The slots of this page, or an error when the page breaks its invariant.
    #[verifier::rlimit(40)]
    pub fn get_item_offset_and_sizes(&self) -> (r: Result<Vec<(usize, usize)>, QueryError>)
        ensures
            r is Ok <==> self@.wf(),
            r matches Ok(v) ==> v@.len() == self@.slot_count() && forall|k: int|
                0 <= k < v@.len() ==> (#[trigger] v@[k]).0 == slot(self@.data, k).0 && v@[k].1
                    == slot(self@.data, k).1,
            r matches Err(e) ==> e is ValidationError,
    {
        let fss = self.free_space_start;
        let fse = self.free_space_end;
        if self.data.len() != PAGE_DATA_SIZE || fss > fse || fse > PAGE_DATA_SIZE as u64 || fss
            % SLOT_SIZE as u64 != 0 {
            return Err(validation_error("Corrupt page header"));
        }
        let fss = fss as usize;
        let mut item_offsets: Vec<(usize, usize)> = Vec::new();
        let mut current_offset: usize = 0;
        while current_offset < fss
            invariant
                self.data@.len() == PAGE_DATA_SIZE,
                fss == self@.free_space_start,
                fse == self@.free_space_end,
                fss <= fse <= PAGE_DATA_SIZE,
                fss % SLOT_SIZE == 0,
                current_offset % SLOT_SIZE == 0,
                current_offset <= fss,
                item_offsets@.len() == current_offset / SLOT_SIZE,
                forall|k: int| 0 <= k < item_offsets@.len() ==> #[trigger] self@.slot_ok(k),
                forall|k: int|
                    0 <= k < item_offsets@.len() ==> (#[trigger] item_offsets@[k]).0 == slot(self@.data, k).0
                        && item_offsets@[k].1 == slot(self@.data, k).1,
            decreases fss - current_offset,
        {
            assert(current_offset + SLOT_SIZE <= fss) by (nonlinear_arith)
                requires
                    current_offset % 16 == 0,
                    fss % 16 == 0,
                    current_offset < fss,
            ;
            let size_offset = current_offset + WORD_SIZE;
            let size_end = size_offset + WORD_SIZE;
            let offset = read_u64(self.data.as_slice(), current_offset);
            let size = read_u64(self.data.as_slice(), size_offset);
            if offset < fse || offset > PAGE_DATA_SIZE as u64 || size > PAGE_DATA_SIZE as u64 - offset {
                assert(!self@.slot_ok(item_offsets@.len() as int));
                return Err(validation_error("Corrupt page slot"));
            }
            item_offsets.push((offset as usize, size as usize));
            current_offset = size_end;
        }
        Ok(item_offsets)
    }

    /// The items of this page, in slot order.
    #[verifier::rlimit(40)]
    pub fn get_items(&self) -> (r: Result<Vec<Item>, QueryError>)
        ensures
            r is Ok <==> self@.wf() && forall|k: int|
                0 <= k < self@.slot_count() ==> item_header_ok(#[trigger] self@.item_bytes(k)),
            r matches Ok(items) ==> items@.len() == self@.slot_count() && forall|k: int|
                0 <= k < items@.len() ==> (#[trigger] items@[k]).parsed_from(self@.item_bytes(k)),
            r matches Err(e) ==> e is ValidationError,
    {
        let slots = self.get_item_offset_and_sizes()?;
        let mut items: Vec<Item> = Vec::new();
        let mut k: usize = 0;
        while k < slots.len()
            invariant
                self@.wf(),
                slots@.len() == self@.slot_count(),
                forall|j: int|
                    0 <= j < slots@.len() ==> (#[trigger] slots@[j]).0 == slot(self@.data, j).0
                        && slots@[j].1 == slot(self@.data, j).1,
                k <= slots@.len(),
                items@.len() == k,
                forall|j: int| 0 <= j < k ==> item_header_ok(#[trigger] self@.item_bytes(j)),
                forall|j: int| 0 <= j < k ==> (#[trigger] items@[j]).parsed_from(self@.item_bytes(j)),
            decreases slots@.len() - k,
        {
            let (offset, size) = slots[k];
            assert(self@.slot_ok(k as int));
            let bytes = vstd::slice::slice_subrange(self.data.as_slice(), offset, offset + size);
            assert(bytes@ == self@.item_bytes(k as int));
            match Item::from_page_data(bytes) {
                Ok(item) => items.push(item),
                Err(e) => {
                    return Err(e);
                },
            }
            k += 1;
        }
        Ok(items)
    }

    /// The bytes of item `k`.
    pub fn get_item_data(&self, k: usize) -> (r: Vec<u8>)
        requires
            self@.wf(),
            k < self@.slot_count(),
        ensures
            r@ == self@.item_bytes(k as int),
    {
        assert(SLOT_SIZE * k + SLOT_SIZE <= self@.free_space_start) by (nonlinear_arith)
            requires
                k < self@.free_space_start as int / 16,
                self@.free_space_start % 16 == 0,
        ;
        assert(self@.slot_ok(k as int));
        let offset = read_u64(self.data.as_slice(), SLOT_SIZE * k);
        let size = read_u64(self.data.as_slice(), SLOT_SIZE * k + WORD_SIZE);
        let start = offset as usize;
        let end = start + size as usize;
        vstd::slice::slice_to_vec(vstd::slice::slice_subrange(self.data.as_slice(), start, end))
    }

    /// The free bytes between the directory and the item bytes.
    pub fn get_free_space(&self) -> (r: u64)
        requires
            self@.free_space_start <= self@.free_space_end,
        ensures
            r == self@.free_space_end - self@.free_space_start,
    {
        self.free_space_end - self.free_space_start
    }

    /// Adds an item: its slot goes after the last slot, its bytes just below the
    /// lowest item; an error, with the page unchanged, when it does not fit.
    pub fn add_item(&mut self, item: &Item) -> (r: Result<(), PagingError>)
        requires
            old(self)@.wf(),
        ensures
            final(self)@.wf(),
            added(old(self)@, final(self)@, be_u64(item.fields() as u64) + bitmap_bytes(item.nulls()) + item.data(), r),
    {
        let item_data = item.to_page_data();
        self.add_bytes(item_data.as_slice())
    }

    /// Adds the bytes of an item, as `add_item` does.
    #[verifier::rlimit(40)]
    pub fn add_bytes(&mut self, item_data: &[u8]) -> (r: Result<(), PagingError>)
        requires
            old(self)@.wf(),
        ensures
            final(self)@.wf(),
            added(old(self)@, final(self)@, item_data@, r),
    {
        let item_size = item_data.len();
        let free = self.get_free_space();
        if item_size as u64 > free || free - (item_size as u64) < SLOT_SIZE as u64 {
            Err(PagingError::NotEnoughSpace)
        } else {
            let ghost p = self@;
            let fss = self.free_space_start as usize;
            let item_offset = self.free_space_end as usize - item_size;
            let mut word: Vec<u8> = Vec::new();
            push_u64(&mut word, item_offset as u64);
            assert(word@ =~= be_u64(item_offset as u64));
            copy_bytes_into(&mut self.data, word.as_slice(), fss);
            let mut word: Vec<u8> = Vec::new();
            push_u64(&mut word, item_size as u64);
            assert(word@ =~= be_u64(item_size as u64));
            copy_bytes_into(&mut self.data, word.as_slice(), fss + WORD_SIZE);
            self.free_space_start = self.free_space_start + SLOT_SIZE as u64;
            copy_bytes_into(&mut self.data, item_data, item_offset);
            self.free_space_end = item_offset as u64;
            proof {
                reveal(overwrite);
                lemma_add_item(p, self@, item_data@);
            }
            Ok(())
        }
    }
}

/// What adding the item bytes `bytes` to page `p` leaves as `q`, with result `r`:
/// the slot after the last one, the bytes just below the lowest item, or the
/// page unchanged when they do not fit.
pub open spec fn added(p: PageView, q: PageView, bytes: Seq<u8>, r: Result<(), PagingError>) -> bool {
    let off = p.free_space_end - bytes.len();
    &&& (r is Ok <==> bytes.len() + SLOT_SIZE <= p.free_space_end - p.free_space_start)
    &&& r is Err ==> q == p
    &&& r is Ok ==> {
        &&& q.id == p.id
        &&& q.free_space_start == p.free_space_start + SLOT_SIZE
        &&& q.free_space_end == off
        &&& q.data == overwrite(overwrite(overwrite(p.data, p.free_space_start as int, be_u64(off as u64)),
            p.free_space_start + WORD_SIZE, be_u64(bytes.len() as u64)), off, bytes)
        &&& q.slot_count() == p.slot_count() + 1
        &&& forall|k: int| 0 <= k < p.slot_count() ==> #[trigger] q.item_bytes(k) == p.item_bytes(k)
        &&& q.item_bytes(p.slot_count()) == bytes
    }
}

proof fn lemma_overwrite_index(s: Seq<u8>, at: int, x: Seq<u8>)
    requires
        0 <= at,
        at + x.len() <= s.len(),
    ensures
        overwrite(s, at, x).len() == s.len(),
        forall|i: int|
            0 <= i < s.len() ==> #[trigger] overwrite(s, at, x)[i] == if at <= i < at + x.len() {
                x[i - at]
            } else {
                s[i]
            },
{
    reveal(overwrite);
}

proof fn lemma_u64_at_same(s: Seq<u8>, t: Seq<u8>, so: int, to: int)
    requires
        0 <= so,
        so + 8 <= s.len(),
        0 <= to,
        to + 8 <= t.len(),
        s.subrange(so, so + 8) == t.subrange(to, to + 8),
    ensures
        u64_at(s, so) == u64_at(t, to),
{
    let a = s.subrange(so, so + 8);
    let b = t.subrange(to, to + 8);
    assert(a[0] == b[0] && a[1] == b[1] && a[2] == b[2] && a[3] == b[3]);
    assert(a[4] == b[4] && a[5] == b[5] && a[6] == b[6] && a[7] == b[7]);
    assert(s[so + 0] == t[to + 0]);
    assert(s[so + 1] == t[to + 1]);
    assert(s[so + 2] == t[to + 2]);
    assert(s[so + 3] == t[to + 3]);
    assert(s[so + 4] == t[to + 4]);
    assert(s[so + 5] == t[to + 5]);
    assert(s[so + 6] == t[to + 6]);
    assert(s[so + 7] == t[to + 7]);
}

/// Where `add_item` writes: the slot words and the item bytes, all in the gap.
#[verifier::rlimit(40)]
proof fn lemma_add_item_bytes(p: PageView, q: PageView, bytes: Seq<u8>)
    requires
        p.wf(),
        bytes.len() + SLOT_SIZE <= p.free_space_end - p.free_space_start,
        q.data == overwrite(overwrite(overwrite(p.data, p.free_space_start as int, be_u64((p.free_space_end - bytes.len()) as u64)),
                        p.free_space_start + WORD_SIZE, be_u64(bytes.len() as u64)), p.free_space_end - bytes.len(), bytes),
    ensures
        q.data.len() == p.data.len(),
        forall|i: int| 0 <= i < p.free_space_start ==> q.data[i] == p.data[i],
        forall|i: int| p.free_space_end <= i < PAGE_DATA_SIZE ==> q.data[i] == p.data[i],
        forall|j: int| 0 <= j < 8 ==> q.data[p.free_space_start + j] == #[trigger] be_u64((p.free_space_end - bytes.len()) as u64)[j],
        forall|j: int| 0 <= j < 8 ==> q.data[p.free_space_start + WORD_SIZE + j] == #[trigger] be_u64(bytes.len() as u64)[j],
        forall|j: int| 0 <= j < bytes.len() ==> q.data[p.free_space_end - bytes.len() + j] == #[trigger] bytes[j],
{
    let off = (p.free_space_end - bytes.len()) as u64;
    let w1 = be_u64(off);
    let w2 = be_u64(bytes.len() as u64);
    let fss = p.free_space_start as int;
    let d1 = overwrite(p.data, fss, w1);
    let d2 = overwrite(d1, fss + WORD_SIZE, w2);
    lemma_overwrite_index(p.data, fss, w1);
    lemma_overwrite_index(d1, fss + WORD_SIZE, w2);
    lemma_overwrite_index(d2, off as int, bytes);
}

/// What `add_item` leaves: the page invariant, the old items, and the new one last.
#[verifier::rlimit(40)]
proof fn lemma_add_item(p: PageView, q: PageView, bytes: Seq<u8>)
    requires
        p.wf(),
        bytes.len() + SLOT_SIZE <= p.free_space_end - p.free_space_start,
        q.id == p.id,
        q.free_space_start == p.free_space_start + SLOT_SIZE,
        q.free_space_end == p.free_space_end - bytes.len(),
        q.data == overwrite(overwrite(overwrite(p.data, p.free_space_start as int, be_u64((p.free_space_end - bytes.len()) as u64)),
                        p.free_space_start + WORD_SIZE, be_u64(bytes.len() as u64)), p.free_space_end - bytes.len(), bytes),
    ensures
        q.wf(),
        q.slot_count() == p.slot_count() + 1,
        forall|k: int| 0 <= k < p.slot_count() ==> #[trigger] q.item_bytes(k) == p.item_bytes(k),
        q.item_bytes(p.slot_count()) == bytes,
{
    lemma_add_item_bytes(p, q, bytes);
    let off = (p.free_space_end - bytes.len()) as u64;
    let w1 = be_u64(off);
    let w2 = be_u64(bytes.len() as u64);
    let fss = p.free_space_start as int;
    let n = p.slot_count();
    assert(q.slot_count() == n + 1 && SLOT_SIZE * n == fss) by (nonlinear_arith)
        requires
            n == fss / 16,
            fss % 16 == 0,
            q.slot_count() == (fss + 16) / 16,
            fss >= 0,
    ;
    assert forall|k: int| 0 <= k < n implies slot(q.data, k) == #[trigger] slot(p.data, k) by {
        assert(SLOT_SIZE * k + 16 <= fss) by (nonlinear_arith)
            requires
                0 <= k < n,
                n == fss / 16,
                fss % 16 == 0,
        ;
        assert(SLOT_SIZE * k >= 0) by (nonlinear_arith)
            requires
                0 <= k,
        ;
        assert(q.data.subrange(SLOT_SIZE * k, SLOT_SIZE * k + 8) =~= p.data.subrange(SLOT_SIZE * k, SLOT_SIZE * k + 8));
        assert(q.data.subrange(SLOT_SIZE * k + 8, SLOT_SIZE * k + 16) =~= p.data.subrange(SLOT_SIZE * k + 8, SLOT_SIZE * k + 16));
        lemma_u64_at_same(q.data, p.data, SLOT_SIZE * k, SLOT_SIZE * k);
        lemma_u64_at_same(q.data, p.data, SLOT_SIZE * k + WORD_SIZE, SLOT_SIZE * k + WORD_SIZE);
    }
    lemma_u64_round_trip(off);
    lemma_u64_round_trip(bytes.len() as u64);
    assert(q.data.subrange(fss, fss + 8) =~= w1.subrange(0, 8));
    assert(q.data.subrange(fss + 8, fss + 16) =~= w2.subrange(0, 8));
    lemma_u64_at_same(q.data, w1, fss, 0);
    lemma_u64_at_same(q.data, w2, fss + WORD_SIZE, 0);
    assert(slot(q.data, n) == (off, bytes.len() as u64));
    assert(q.slot_ok(n));
    assert forall|k: int| 0 <= k < q.slot_count() implies #[trigger] q.slot_ok(k) by {
        if k < n {
            assert(p.slot_ok(k));
            assert(slot(q.data, k) == slot(p.data, k));
        }
    }
    assert forall|k: int| 0 <= k < n implies #[trigger] q.item_bytes(k) == p.item_bytes(k) by {
        assert(p.slot_ok(k));
        assert(slot(q.data, k) == slot(p.data, k));
        assert(q.item_bytes(k) =~= p.item_bytes(k));
    }
    assert(q.item_bytes(n) =~= bytes);
}

/// Page round trip: the bytes of a page whose body has the page body size read
/// back as the same page.
#[verifier::rlimit(40)]
pub proof fn lemma_page_round_trip(p: PageView)
    requires
        p.data.len() == PAGE_DATA_SIZE,
    ensures
        p.to_bytes().len() == PAGE_SIZE,
        page_of_bytes(p.to_bytes()) == p,
{
    let b = p.to_bytes();
    let i = be_u32(p.id);
    let s = be_u64(p.free_space_start);
    let e = be_u64(p.free_space_end);
    lemma_u32_round_trip(p.id);
    lemma_u64_round_trip(p.free_space_start);
    lemma_u64_round_trip(p.free_space_end);
    assert(u32_at(b, 0) == u32_at(i, 0)) by {
        assert forall|j: int| 0 <= j < 4 implies b[j] == i[j] by {}
    }
    assert(u64_at(b, 4) == u64_at(s, 0)) by {
        assert forall|j: int| 0 <= j < 8 implies b[4 + j] == s[j] by {}
    }
    assert(u64_at(b, 12) == u64_at(e, 0)) by {
        assert forall|j: int| 0 <= j < 8 implies b[12 + j] == e[j] by {}
    }
    assert(b.subrange(20, PAGE_SIZE as int) =~= p.data);
}

/// A decoded record has one value per remaining column.
pub proof fn lemma_decode_fields_len(bits: Seq<bool>, data: Seq<u8>, types: Seq<Type>, i: int, off: int)
    requires
        0 <= i <= types.len(),
        0 <= off,
    ensures
        decode_fields(bits, data, types, i, off) matches Some(vs) ==> vs.len() == types.len() - i,
    decreases types.len() - i,
{
    if i < types.len() {
        let t = types[i];
        let start = if t == Type::Str { off + 8 } else { off };
        let len = if t == Type::Str { u64_at(data, off) as int } else { fixed_width(t) as int };
        lemma_decode_fields_len(bits, data, types, i + 1, off);
        if start <= data.len() {
            lemma_decode_fields_len(bits, data, types, i + 1, start + len);
        }
    }
}

/// The values that the bytes of an item hold under column types `types`.
pub open spec fn decode_item(bytes: Seq<u8>, types: Seq<Type>) -> Option<Seq<ValueView>> {
    if item_header_ok(bytes) {
        let m = null_map_len(u64_at(bytes, 0) as nat) as int;
        decode_fields(unpack_bits(bytes.subrange(8, 8 + m)), bytes.subrange(8 + m, bytes.len() as int), types, 0, 0)
    } else {
        None
    }
}

/// A page is sound and each of its items decodes under `types`.
pub open spec fn page_ok(p: PageView, types: Seq<Type>) -> bool {
    &&& p.wf()
    &&& forall|k: int| 0 <= k < p.slot_count() ==> #[trigger] decode_item(p.item_bytes(k), types) is Some
}

/// The records of a page, in slot order.
pub open spec fn page_rows(p: PageView, types: Seq<Type>) -> Seq<Seq<ValueView>> {
    Seq::new(p.slot_count() as nat, |k: int| decode_item(p.item_bytes(k), types)->Some_0)
}

} // verus!
