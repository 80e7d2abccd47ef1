//! The wire format as spec functions: what a byte sequence decodes to, and
//! what bytes a value encodes to.
use vstd::prelude::*;
use vstd::utf8::*;
use crate::num::{
    i16_bits, i16_from, i32_bits, i32_from, i64_bits, i64_from, i8_bits, i8_from, uint_bytes, uint_of,
};
use crate::text::text_of;
use crate::types::{is_tag_code, tag_of, Endian, NbtError, NbtTree};

verus! {

/// The largest count that the 32-bit signed count fields carry.
pub open spec fn max_count() -> nat {
    0x7fff_ffff
}

/// The largest byte length that the 16-bit length of a string carries.
pub open spec fn max_text_len() -> nat {
    0xffff
}

/// Why a byte sequence does not decode.
pub enum ReadFault {
    /// The bytes end before the value does.
    Truncated,
    /// A tag code outside the table.
    UnknownTag(u8),
    /// A negative count, as its raw 32-bit field, for the variant with the given tag code.
    NegativeCount(u8, u32),
}

/// Whether an error of the library reports the read fault `f`.
pub open spec fn reports_read_fault(err: NbtError, f: ReadFault) -> bool {
    match f {
        ReadFault::Truncated => err is IoError,
        ReadFault::UnknownTag(t) => err == NbtError::InvalidTagType(t),
        ReadFault::NegativeCount(t, c) => if t == 7 {
            err == NbtError::InvalidByteArrayLength(c as usize)
        } else if t == 9 {
            err == NbtError::InvalidListLength(c as usize)
        } else if t == 11 {
            err == NbtError::InvalidIntArrayLength(c as usize)
        } else {
            err == NbtError::InvalidLongArrayLength(c as usize)
        },
    }
}

/// The number of `n` bytes at `d[p]`.
pub open spec fn num_at(d: Seq<u8>, p: int, n: int, e: Endian) -> nat {
    uint_of(d.subrange(p, p + n), e)
}

/// A length-prefixed string at `d[p]`: its text and where it ends.
pub open spec fn parse_text(d: Seq<u8>, p: int, e: Endian) -> Result<(Seq<char>, int), ReadFault> {
    if p < 0 || p + 2 > d.len() {
        Err(ReadFault::Truncated)
    } else {
        let n = num_at(d, p, 2, e);
        if p + 2 + n > d.len() {
            Err(ReadFault::Truncated)
        } else {
            Ok((text_of(d.subrange(p + 2, p + 2 + n)), p + 2 + n))
        }
    }
}

/// The payload of a fixed-width number of `n` bytes at `d[p]`.
pub open spec fn parse_fixed(d: Seq<u8>, p: int, tag: u8, e: Endian) -> Result<(NbtTree, int), ReadFault> {
    let n: int = if tag == 1 { 1 } else if tag == 2 { 2 } else if tag == 3 || tag == 5 { 4 } else { 8 };
    if p < 0 || p + n > d.len() {
        Err(ReadFault::Truncated)
    } else {
        let u = num_at(d, p, n, e);
        let t = if tag == 1 {
            NbtTree::Byte(i8_from(u))
        } else if tag == 2 {
            NbtTree::Short(i16_from(u))
        } else if tag == 3 {
            NbtTree::Int(i32_from(u))
        } else if tag == 4 {
            NbtTree::Long(i64_from(u))
        } else if tag == 5 {
            NbtTree::Float(u as u32)
        } else {
            NbtTree::Double(u as u64)
        };
        Ok((t, p + n))
    }
}

/// The payload of a numeric array (tag code 7, 11 or 12) at `d[p]`.
pub open spec fn parse_array(d: Seq<u8>, p: int, tag: u8, e: Endian) -> Result<(NbtTree, int), ReadFault> {
    let w: int = if tag == 7 { 1 } else if tag == 11 { 4 } else { 8 };
    if p < 0 || p + 4 > d.len() {
        Err(ReadFault::Truncated)
    } else {
        let c = num_at(d, p, 4, e);
        if c > max_count() {
            Err(ReadFault::NegativeCount(tag, c as u32))
        } else if p + 4 + w * c > d.len() {
            Err(ReadFault::Truncated)
        } else {
            let q = p + 4;
            let t = if tag == 7 {
                NbtTree::ByteArray(Seq::new(c, |i: int| i8_from(d[q + i] as nat)))
            } else if tag == 11 {
                NbtTree::IntArray(Seq::new(c, |i: int| i32_from(num_at(d, q + 4 * i, 4, e))))
            } else {
                NbtTree::LongArray(Seq::new(c, |i: int| i64_from(num_at(d, q + 8 * i, 8, e))))
            };
            Ok((t, q + w * c))
        }
    }
}

/// The payload of the variant with tag code `tag` at `d[p]`: the value and
/// where it ends.
pub open spec fn parse_value(d: Seq<u8>, p: int, tag: u8, e: Endian) -> Result<(NbtTree, int), ReadFault>
    decreases d.len() - p, 2int,
{
    if p < 0 || p > d.len() {
        Err(ReadFault::Truncated)
    } else if tag == 0 {
        Ok((NbtTree::End, p))
    } else if 1 <= tag <= 6 {
        parse_fixed(d, p, tag, e)
    } else if tag == 7 || tag == 11 || tag == 12 {
        parse_array(d, p, tag, e)
    } else if tag == 8 {
        match parse_text(d, p, e) {
            Ok((s, q)) => Ok((NbtTree::Str(s), q)),
            Err(f) => Err(f),
        }
    } else if tag == 9 {
        if p + 5 > d.len() {
            Err(ReadFault::Truncated)
        } else {
            let et = d[p];
            let c = num_at(d, p + 1, 4, e);
            if c == 0 {
                Ok((NbtTree::List(Seq::empty()), p + 5))
            } else if !is_tag_code(et) {
                Err(ReadFault::UnknownTag(et))
            } else if c > max_count() {
                Err(ReadFault::NegativeCount(9, c as u32))
            } else {
                match parse_items(d, p + 5, et, c, e) {
                    Ok((items, q)) => Ok((NbtTree::List(items), q)),
                    Err(f) => Err(f),
                }
            }
        }
    } else if tag == 10 {
        match parse_members(d, p, e) {
            Ok((raw, q)) => Ok((NbtTree::Compound(merge_members(raw)), q)),
            Err(f) => Err(f),
        }
    } else {
        Err(ReadFault::UnknownTag(tag))
    }
}

/// `n` payloads of tag code `et` in a row from `d[p]`.
pub open spec fn parse_items(d: Seq<u8>, p: int, et: u8, n: nat, e: Endian) -> Result<(Seq<NbtTree>, int), ReadFault>
    decreases d.len() - p, n + 3,
{
    if n == 0 {
        Ok((Seq::empty(), p))
    } else if p < 0 || p > d.len() {
        Err(ReadFault::Truncated)
    } else {
        match parse_value(d, p, et, e) {
            Err(f) => Err(f),
            Ok((v, q)) => if q < p || q > d.len() {
                Err(ReadFault::Truncated)
            } else {
                match parse_items(d, q, et, (n - 1) as nat, e) {
                    Err(f) => Err(f),
                    Ok((rest, r)) => Ok((seq![v] + rest, r)),
                }
            },
        }
    }
}

/// A named tag at `d[p]`: a tag code, then, unless the code is End, a name
/// and a payload. End gives an empty name and the End value.
pub open spec fn parse_named(d: Seq<u8>, p: int, e: Endian) -> Result<(Seq<char>, NbtTree, int), ReadFault>
    decreases d.len() - p, 0int,
{
    if p < 0 || p >= d.len() {
        Err(ReadFault::Truncated)
    } else {
        let tag = d[p];
        if tag == 0 {
            Ok((Seq::empty(), NbtTree::End, p + 1))
        } else if !is_tag_code(tag) {
            Err(ReadFault::UnknownTag(tag))
        } else {
            match parse_text(d, p + 1, e) {
                Err(f) => Err(f),
                Ok((name, q)) => match parse_value(d, q, tag, e) {
                    Err(f) => Err(f),
                    Ok((v, r)) => Ok((name, v, r)),
                },
            }
        }
    }
}

/// The named tags of a compound body from `d[p]`, up to and including its End
/// marker, in the order read.
pub open spec fn parse_members(d: Seq<u8>, p: int, e: Endian) -> Result<(Seq<(Seq<char>, NbtTree)>, int), ReadFault>
    decreases d.len() - p, 1int,
{
    if p < 0 || p > d.len() {
        Err(ReadFault::Truncated)
    } else {
        match parse_named(d, p, e) {
            Err(f) => Err(f),
            Ok((name, v, q)) => if v is End {
                Ok((Seq::empty(), q))
            } else if q <= p || q > d.len() {
                Err(ReadFault::Truncated)
            } else {
                match parse_members(d, q, e) {
                    Err(f) => Err(f),
                    Ok((rest, r)) => Ok((seq![(name, v)] + rest, r)),
                }
            },
        }
    }
}

/// Whether `k` names a member of `m`.
pub open spec fn has_key(m: Seq<(Seq<char>, NbtTree)>, k: Seq<char>) -> bool {
    exists|i: int| 0 <= i < m.len() && m[i].0 == k
}

/// Whether the names of `m` are distinct.
pub open spec fn distinct_keys(m: Seq<(Seq<char>, NbtTree)>) -> bool {
    forall|i: int, j: int| 0 <= i < m.len() && 0 <= j < m.len() && i != j ==> m[i].0 != m[j].0
}

/// `m` with the member `k` set to `v`: replaced where `k` is a name of `m`,
/// else appended.
pub open spec fn insert_member(m: Seq<(Seq<char>, NbtTree)>, k: Seq<char>, v: NbtTree) -> Seq<(Seq<char>, NbtTree)> {
    if has_key(m, k) {
        m.map_values(|x: (Seq<char>, NbtTree)| if x.0 == k { (k, v) } else { x })
    } else {
        m.push((k, v))
    }
}

/// `m` without the member `k`.
pub open spec fn remove_member(m: Seq<(Seq<char>, NbtTree)>, k: Seq<char>) -> Seq<(Seq<char>, NbtTree)> {
    m.filter(|x: (Seq<char>, NbtTree)| x.0 != k)
}

/// The compound that inserting the members of `raw` in order builds: a later
/// member of an existing name replaces the earlier value.
pub open spec fn merge_members(raw: Seq<(Seq<char>, NbtTree)>) -> Seq<(Seq<char>, NbtTree)>
    decreases raw.len(),
{
    if raw.len() == 0 {
        Seq::empty()
    } else {
        insert_member(merge_members(raw.drop_last()), raw.last().0, raw.last().1)
    }
}

/// The root of a document from `d[p]`, after any file header: its name, its
/// value and where it ends.
pub open spec fn parse_root(d: Seq<u8>, p: int, e: Endian) -> Result<(Seq<char>, NbtTree, int), ReadFault> {
    parse_named(d, p, e)
}

/// A whole document from `d[p]`: in the little-endian edition an eight-byte
/// header (format tag, payload length; neither is read further) comes first.
pub open spec fn parse_document(d: Seq<u8>, p: int, e: Endian) -> Result<(Seq<char>, NbtTree), ReadFault> {
    let q: int = if e == Endian::Little { p + 8 } else { p };
    if q > d.len() {
        Err(ReadFault::Truncated)
    } else {
        match parse_root(d, q, e) {
            Ok((name, v, _)) => Ok((name, v)),
            Err(f) => Err(f),
        }
    }
}

// ---------------------------------------------------------------- encoding

/// A string: its UTF-8 byte length in two bytes, then those bytes.
pub open spec fn text_bytes(s: Seq<char>, e: Endian) -> Seq<u8> {
    uint_bytes(encode_utf8(s).len(), 2, e) + encode_utf8(s)
}

/// The element tag code that a list is written with: its first element's, or
/// End for an empty list.
pub open spec fn list_tag(items: Seq<NbtTree>) -> u8 {
    if items.len() == 0 {
        0
    } else {
        tag_of(items[0])
    }
}

/// The payload bytes of `t`.
pub open spec fn encode_value(t: NbtTree, e: Endian) -> Seq<u8>
    decreases t, 0int,
{
    match t {
        NbtTree::End => Seq::empty(),
        NbtTree::Byte(x) => seq![i8_bits(x) as u8],
        NbtTree::Short(x) => uint_bytes(i16_bits(x), 2, e),
        NbtTree::Int(x) => uint_bytes(i32_bits(x), 4, e),
        NbtTree::Long(x) => uint_bytes(i64_bits(x), 8, e),
        NbtTree::Float(x) => uint_bytes(x as nat, 4, e),
        NbtTree::Double(x) => uint_bytes(x as nat, 8, e),
        NbtTree::ByteArray(a) => uint_bytes(a.len(), 4, e) + encode_bytes(a, 0),
        NbtTree::Str(s) => text_bytes(s, e),
        NbtTree::List(items) => seq![list_tag(items)] + uint_bytes(items.len(), 4, e)
            + encode_items(items, 0, e),
        NbtTree::Compound(m) => encode_members(m, 0, e) + seq![0u8],
        NbtTree::IntArray(a) => uint_bytes(a.len(), 4, e) + encode_ints(a, 0, e),
        NbtTree::LongArray(a) => uint_bytes(a.len(), 4, e) + encode_longs(a, 0, e),
    }
}

/// The bytes of `a[i..]`.
pub open spec fn encode_bytes(a: Seq<i8>, i: int) -> Seq<u8>
    decreases a.len() - i,
{
    if i < 0 || i >= a.len() {
        Seq::empty()
    } else {
        seq![i8_bits(a[i]) as u8] + encode_bytes(a, i + 1)
    }
}

/// The four-byte numbers of `a[i..]`.
pub open spec fn encode_ints(a: Seq<i32>, i: int, e: Endian) -> Seq<u8>
    decreases a.len() - i,
{
    if i < 0 || i >= a.len() {
        Seq::empty()
    } else {
        uint_bytes(i32_bits(a[i]), 4, e) + encode_ints(a, i + 1, e)
    }
}

/// The eight-byte numbers of `a[i..]`.
pub open spec fn encode_longs(a: Seq<i64>, i: int, e: Endian) -> Seq<u8>
    decreases a.len() - i,
{
    if i < 0 || i >= a.len() {
        Seq::empty()
    } else {
        uint_bytes(i64_bits(a[i]), 8, e) + encode_longs(a, i + 1, e)
    }
}

/// The payloads of `items[i..]`, one after another.
pub open spec fn encode_items(items: Seq<NbtTree>, i: int, e: Endian) -> Seq<u8>
    decreases items, items.len() - i,
{
    if i < 0 || i >= items.len() {
        Seq::empty()
    } else {
        encode_value(items[i], e) + encode_items(items, i + 1, e)
    }
}

/// A named tag: tag code, name, payload.
pub open spec fn encode_named(k: Seq<char>, v: NbtTree, e: Endian) -> Seq<u8>
    decreases v, 1int,
{
    seq![tag_of(v)] + text_bytes(k, e) + encode_value(v, e)
}

/// The named tags of `m[i..]`, one after another.
pub open spec fn encode_members(m: Seq<(Seq<char>, NbtTree)>, i: int, e: Endian) -> Seq<u8>
    decreases m, m.len() - i,
{
    if i < 0 || i >= m.len() {
        Seq::empty()
    } else {
        encode_named(m[i].0, m[i].1, e) + encode_members(m, i + 1, e)
    }
}

/// The root of a document: the End code alone for the End value, else a named tag.
pub open spec fn encode_root(name: Seq<char>, v: NbtTree, e: Endian) -> Seq<u8> {
    if v is End {
        seq![0u8]
    } else {
        encode_named(name, v, e)
    }
}

/// The format tag that the little-endian file header starts with.
pub open spec fn format_tag() -> nat {
    3
}

/// A whole document: in the little-endian edition, the format tag and the
/// byte length of the root come first.
pub open spec fn encode_document(name: Seq<char>, v: NbtTree, e: Endian) -> Seq<u8> {
    let root = encode_root(name, v, e);
    if e == Endian::Little {
        uint_bytes(format_tag(), 4, e) + uint_bytes(root.len(), 4, e) + root
    } else {
        root
    }
}

// ---------------------------------------------------------- encoding faults

/// Why a value cannot be encoded.
pub enum WriteFault {
    /// A list element whose tag code differs from the first element's.
    MixedList(u8),
    /// A compound member that is End.
    EndMember,
    /// A numeric array (by tag code) longer than a count can carry.
    ArrayTooLong(u8, nat),
    /// A list longer than a count can carry.
    ListTooLong(nat),
    /// A string whose UTF-8 form is longer than its length field can carry.
    TextTooLong(nat),
    /// A document whose root is longer than the header's length field can carry.
    DocumentTooLong(nat),
}

/// Whether an error of the library reports the write fault `f`.
pub open spec fn reports_write_fault(err: NbtError, f: WriteFault) -> bool {
    match f {
        WriteFault::MixedList(t) => err == NbtError::InvalidListType(t),
        WriteFault::EndMember => err == NbtError::InvalidCompoundType(0),
        WriteFault::ArrayTooLong(t, n) => if t == 7 {
            err == NbtError::InvalidByteArrayLength(n as usize)
        } else if t == 11 {
            err == NbtError::InvalidIntArrayLength(n as usize)
        } else {
            err == NbtError::InvalidLongArrayLength(n as usize)
        },
        WriteFault::ListTooLong(n) => err == NbtError::InvalidListLength(n as usize),
        WriteFault::TextTooLong(n) => err == NbtError::InvalidStringLength(n as usize),
        WriteFault::DocumentTooLong(n) => err == NbtError::InvalidDocumentLength(n as usize),
    }
}

pub open spec fn text_fault(s: Seq<char>) -> Option<WriteFault> {
    if encode_utf8(s).len() > max_text_len() {
        Some(WriteFault::TextTooLong(encode_utf8(s).len()))
    } else {
        None
    }
}

/// The first fault met when `t` is written depth first, if any.
pub open spec fn value_fault(t: NbtTree) -> Option<WriteFault>
    decreases t, 0int,
{
    match t {
        NbtTree::ByteArray(a) => if a.len() > max_count() {
            Some(WriteFault::ArrayTooLong(7, a.len()))
        } else {
            None
        },
        NbtTree::IntArray(a) => if a.len() > max_count() {
            Some(WriteFault::ArrayTooLong(11, a.len()))
        } else {
            None
        },
        NbtTree::LongArray(a) => if a.len() > max_count() {
            Some(WriteFault::ArrayTooLong(12, a.len()))
        } else {
            None
        },
        NbtTree::Str(s) => text_fault(s),
        NbtTree::List(items) => if items.len() > max_count() {
            Some(WriteFault::ListTooLong(items.len()))
        } else {
            items_fault(items, 0)
        },
        NbtTree::Compound(m) => members_fault(m, 0),
        _ => None,
    }
}

/// The first fault among `items[i..]`: an element of another tag code than the
/// first, or a fault inside an element.
pub open spec fn items_fault(items: Seq<NbtTree>, i: int) -> Option<WriteFault>
    decreases items, items.len() - i,
{
    if i < 0 || i >= items.len() {
        None
    } else if tag_of(items[i]) != tag_of(items[0]) {
        Some(WriteFault::MixedList(tag_of(items[i])))
    } else if value_fault(items[i]) is Some {
        value_fault(items[i])
    } else {
        items_fault(items, i + 1)
    }
}

/// The first fault among the members `m[i..]`: a name too long, an End
/// member, or a fault inside a member.
pub open spec fn members_fault(m: Seq<(Seq<char>, NbtTree)>, i: int) -> Option<WriteFault>
    decreases m, m.len() - i,
{
    if i < 0 || i >= m.len() {
        None
    } else if text_fault(m[i].0) is Some {
        text_fault(m[i].0)
    } else if m[i].1 is End {
        Some(WriteFault::EndMember)
    } else if value_fault(m[i].1) is Some {
        value_fault(m[i].1)
    } else {
        members_fault(m, i + 1)
    }
}

/// The first fault met when the root `(name, v)` is written.
pub open spec fn root_fault(name: Seq<char>, v: NbtTree) -> Option<WriteFault> {
    if v is End {
        None
    } else if text_fault(name) is Some {
        text_fault(name)
    } else {
        value_fault(v)
    }
}

/// The first fault met when a whole document is written.
pub open spec fn document_fault(name: Seq<char>, v: NbtTree, e: Endian) -> Option<WriteFault> {
    if root_fault(name, v) is Some {
        root_fault(name, v)
    } else if e == Endian::Little && encode_root(name, v, e).len() > max_count() {
        Some(WriteFault::DocumentTooLong(encode_root(name, v, e).len()))
    } else {
        None
    }
}

/// Whether every compound in `t` has distinct member names.
pub open spec fn well_formed(t: NbtTree) -> bool
    decreases t, 0int,
{
    match t {
        NbtTree::List(items) => items_well_formed(items, 0),
        NbtTree::Compound(m) => distinct_keys(m) && members_well_formed(m, 0),
        _ => true,
    }
}

/// Whether `items[i..]` are well formed.
pub open spec fn items_well_formed(items: Seq<NbtTree>, i: int) -> bool
    decreases items, items.len() - i,
{
    if i < 0 || i >= items.len() {
        true
    } else {
        well_formed(items[i]) && items_well_formed(items, i + 1)
    }
}

/// Whether the values of the members `m[i..]` are well formed.
pub open spec fn members_well_formed(m: Seq<(Seq<char>, NbtTree)>, i: int) -> bool
    decreases m, m.len() - i,
{
    if i < 0 || i >= m.len() {
        true
    } else {
        well_formed(m[i].1) && members_well_formed(m, i + 1)
    }
}

} // verus!
