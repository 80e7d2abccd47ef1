//! The decoder: recursive descent over a byte buffer, keyed by tag codes.
use vstd::prelude::*;
use crate::format::{
    distinct_keys, merge_members, num_at, parse_document, parse_items,
    parse_members, parse_named, parse_text, parse_value, reports_read_fault, ReadFault,
};
use crate::num::{i16_from, i32_from, i64_from, i8_from, read_uint};
use crate::text::decode_text;
use crate::types::{
    insert_member_exec, is_tag_code, items_view, lemma_items_view, lemma_members_view, members_view,
    Endian, NbtError, NbtTree, NbtValue,
};

verus! {

broadcast use {lemma_items_view, lemma_members_view};

/// Relies on std::io::Error::from(ErrorKind::UnexpectedEof) to build the error
/// of input that ends early; nothing is assumed of the value.
#[verifier::external_body]
fn unexpected_eof() -> std::io::Error {
    std::io::Error::from(std::io::ErrorKind::UnexpectedEof)
}

fn truncated() -> (r: NbtError)
    ensures
        r is IoError,
{
    NbtError::IoError(unexpected_eof())
}

fn to_i8(u: u8) -> (r: i8)
    ensures
        r == i8_from(u as nat),
{
    if u >= 0x80 {
        (u as i16 - 0x100) as i8
    } else {
        u as i8
    }
}

fn to_i16(u: u64) -> (r: i16)
    requires
        u < 0x1_0000,
    ensures
        r == i16_from(u as nat),
{
    if u >= 0x8000 {
        (u as i32 - 0x1_0000) as i16
    } else {
        u as i16
    }
}

fn to_i32(u: u64) -> (r: i32)
    requires
        u < 0x1_0000_0000,
    ensures
        r == i32_from(u as nat),
{
    if u >= 0x8000_0000 {
        (u as i64 - 0x1_0000_0000) as i32
    } else {
        u as i32
    }
}

fn to_i64(u: u64) -> (r: i64)
    ensures
        r == i64_from(u as nat),
{
    if u >= 0x8000_0000_0000_0000 {
        ((u - 0x8000_0000_0000_0000) as i64) - 0x7fff_ffff_ffff_ffff - 1
    } else {
        u as i64
    }
}

/// Reads NBT data from a byte buffer, interpreting numbers in the given byte order.
pub struct NbtReader {
    data: Vec<u8>,
    pos: usize,
    endian: Endian,
}

/// `r` with `pre` put before the elements it decoded.
pub open spec fn prepend_items(pre: Seq<NbtTree>, r: Result<(Seq<NbtTree>, int), ReadFault>) -> Result<
    (Seq<NbtTree>, int),
    ReadFault,
> {
    match r {
        Ok((s, q)) => Ok((pre + s, q)),
        Err(f) => Err(f),
    }
}

/// `r` with `pre` put before the members it decoded.
pub open spec fn prepend_members(
    pre: Seq<(Seq<char>, NbtTree)>,
    r: Result<(Seq<(Seq<char>, NbtTree)>, int), ReadFault>,
) -> Result<(Seq<(Seq<char>, NbtTree)>, int), ReadFault> {
    match r {
        Ok((s, q)) => Ok((pre + s, q)),
        Err(f) => Err(f),
    }
}

impl NbtReader {
    /// The bytes being read.
    pub closed spec fn input(&self) -> Seq<u8> {
        self.data@
    }

    /// The index of the next byte to read.
    pub closed spec fn position(&self) -> int {
        self.pos as int
    }

    /// The byte order of the numbers read.
    pub closed spec fn byte_order(&self) -> Endian {
        self.endian
    }

    pub closed spec fn wf(&self) -> bool {
        self.pos <= self.data.len()
    }

    /// A reader at the start of `data`.
    pub fn new(data: &[u8], endian: Endian) -> (r: Self)
        ensures
            r.wf(),
            r.input() == data@,
            r.position() == 0,
            r.byte_order() == endian,
    {
        NbtReader { data: vstd::slice::slice_to_vec(data), pos: 0, endian }
    }

    fn read_u8(&mut self) -> (r: Result<u8, NbtError>)
        requires
            old(self).wf(),
        ensures
            final(self).wf(),
            final(self).data@ == old(self).data@,
            final(self).endian == old(self).endian,
            final(self).pos >= old(self).pos,
            old(self).pos < old(self).data.len() ==> r == Ok::<u8, NbtError>(
                old(self).data@[old(self).pos as int],
            ) && final(self).pos == old(self).pos + 1,
            old(self).pos >= old(self).data.len() ==> (r matches Err(e) && e is IoError),
    {
        if self.pos < self.data.len() {
            let b = self.data[self.pos];
            self.pos = self.pos + 1;
            Ok(b)
        } else {
            Err(truncated())
        }
    }

    fn read_uint(&mut self, n: usize) -> (r: Result<u64, NbtError>)
        requires
            old(self).wf(),
            n <= 8,
        ensures
            final(self).wf(),
            final(self).data@ == old(self).data@,
            final(self).endian == old(self).endian,
            final(self).pos >= old(self).pos,
            old(self).pos + n <= old(self).data.len() ==> (r matches Ok(v) && v == num_at(
                old(self).data@,
                old(self).pos as int,
                n as int,
                old(self).endian,
            ) && final(self).pos == old(self).pos + n),
            old(self).pos + n > old(self).data.len() ==> (r matches Err(e) && e is IoError),
    {
        if n <= self.data.len() - self.pos {
            let v = read_uint(&self.data, self.pos, n, self.endian);
            self.pos = self.pos + n;
            Ok(v)
        } else {
            Err(truncated())
        }
    }

    fn parse_byte(&mut self) -> (r: Result<i8, NbtError>)
        requires
            old(self).wf(),
        ensures
            final(self).wf(),
            final(self).data@ == old(self).data@,
            final(self).endian == old(self).endian,
            final(self).pos >= old(self).pos,
            old(self).pos < old(self).data.len() ==> r == Ok::<i8, NbtError>(
                i8_from(old(self).data@[old(self).pos as int] as nat),
            ) && final(self).pos == old(self).pos + 1,
            old(self).pos >= old(self).data.len() ==> (r matches Err(e) && e is IoError),
    {
        let b = self.read_u8()?;
        Ok(to_i8(b))
    }

    fn parse_string(&mut self) -> (r: Result<String, NbtError>)
        requires
            old(self).wf(),
        ensures
            final(self).wf(),
            final(self).data@ == old(self).data@,
            final(self).endian == old(self).endian,
            final(self).pos >= old(self).pos,
            match parse_text(old(self).data@, old(self).pos as int, old(self).endian) {
                Ok((s, q)) => r matches Ok(v) && v@ == s && final(self).pos == q,
                Err(f) => r matches Err(e) && reports_read_fault(e, f),
            },
    {
        let n = self.read_uint(2)?;
        proof {
            crate::num::lemma_uint_of_bound(
                old(self).data@.subrange(old(self).pos as int, old(self).pos + 2),
                self.endian,
            );
            crate::num::lemma_pow256_values();
        }
        if n as usize > self.data.len() - self.pos {
            return Err(truncated());
        }
        let start = self.pos;
        let end = self.pos + n as usize;
        let s = decode_text(&self.data, start, end);
        self.pos = end;
        Ok(s)
    }

    /// Reads a count field as its raw unsigned 32-bit value.
    fn parse_count(&mut self) -> (r: Result<u64, NbtError>)
        requires
            old(self).wf(),
        ensures
            final(self).wf(),
            final(self).data@ == old(self).data@,
            final(self).endian == old(self).endian,
            final(self).pos >= old(self).pos,
            old(self).pos + 4 <= old(self).data.len() ==> (r matches Ok(v) && v == num_at(
                old(self).data@,
                old(self).pos as int,
                4,
                old(self).endian,
            ) && final(self).pos == old(self).pos + 4 && v < 0x1_0000_0000),
            old(self).pos + 4 > old(self).data.len() ==> (r matches Err(e) && e is IoError),
    {
        let c = self.read_uint(4)?;
        proof {
            crate::num::lemma_uint_of_bound(
                old(self).data@.subrange(old(self).pos as int, old(self).pos + 4),
                self.endian,
            );
            crate::num::lemma_pow256_values();
        }
        Ok(c)
    }

    fn parse_byte_array(&mut self) -> (r: Result<Vec<i8>, NbtError>)
        requires
            old(self).wf(),
        ensures
            final(self).wf(),
            final(self).data@ == old(self).data@,
            final(self).endian == old(self).endian,
            final(self).pos >= old(self).pos,
            match parse_value(old(self).data@, old(self).pos as int, 7, old(self).endian) {
                Ok((t, q)) => r matches Ok(v) && NbtTree::ByteArray(v@) == t && final(self).pos == q,
                Err(f) => r matches Err(e) && reports_read_fault(e, f),
            },
    {
        let ghost d = self.data@;
        let ghost p0 = self.pos as int;
        let c = self.parse_count()?;
        if c > 0x7fff_ffff {
            return Err(NbtError::InvalidByteArrayLength(c as usize));
        }
        if c as usize > self.data.len() - self.pos {
            return Err(truncated());
        }
        let q = self.pos;
        let mut out: Vec<i8> = Vec::new();
        let mut i: usize = 0;
        while i < c as usize
            invariant
                self.wf(),
                self.data@ == old(self).data@,
                self.endian == old(self).endian,
                d == old(self).data@,
                q == p0 + 4,
                self.pos == q + i,
                i <= c,
                q + c <= d.len(),
                out@.len() == i,
                forall|k: int| 0 <= k < i ==> out@[k] == i8_from(d[q + k] as nat),
            decreases c - i,
        {
            let b = self.parse_byte()?;
            out.push(b);
            i = i + 1;
        }
        assert(out@ =~= Seq::new(c as nat, |k: int| i8_from(d[q + k] as nat)));
        Ok(out)
    }

    fn parse_int_array(&mut self) -> (r: Result<Vec<i32>, NbtError>)
        requires
            old(self).wf(),
        ensures
            final(self).wf(),
            final(self).data@ == old(self).data@,
            final(self).endian == old(self).endian,
            final(self).pos >= old(self).pos,
            match parse_value(old(self).data@, old(self).pos as int, 11, old(self).endian) {
                Ok((t, q)) => r matches Ok(v) && NbtTree::IntArray(v@) == t && final(self).pos == q,
                Err(f) => r matches Err(e) && reports_read_fault(e, f),
            },
    {
        let ghost d = self.data@;
        let ghost p0 = self.pos as int;
        let e = self.endian;
        let c = self.parse_count()?;
        if c > 0x7fff_ffff {
            return Err(NbtError::InvalidIntArrayLength(c as usize));
        }
        if c * 4 > (self.data.len() - self.pos) as u64 {
            return Err(truncated());
        }
        let q = self.pos;
        let mut out: Vec<i32> = Vec::new();
        let mut i: usize = 0;
        while i < c as usize
            invariant
                self.wf(),
                self.data@ == old(self).data@,
                self.endian == old(self).endian,
                d == old(self).data@,
                self.endian == e,
                q == p0 + 4,
                self.pos == q + 4 * i,
                i <= c,
                q + 4 * c <= d.len(),
                out@.len() == i,
                forall|k: int| 0 <= k < i ==> out@[k] == i32_from(num_at(d, q + 4 * k, 4, e)),
            decreases c - i,
        {
            let u = self.read_uint(4)?;
            proof {
                crate::num::lemma_uint_of_bound(d.subrange(q + 4 * i, q + 4 * i + 4), e);
                crate::num::lemma_pow256_values();
            }
            out.push(to_i32(u));
            i = i + 1;
        }
        assert(out@ =~= Seq::new(c as nat, |k: int| i32_from(num_at(d, q + 4 * k, 4, e))));
        Ok(out)
    }

    fn parse_long_array(&mut self) -> (r: Result<Vec<i64>, NbtError>)
        requires
            old(self).wf(),
        ensures
            final(self).wf(),
            final(self).data@ == old(self).data@,
            final(self).endian == old(self).endian,
            final(self).pos >= old(self).pos,
            match parse_value(old(self).data@, old(self).pos as int, 12, old(self).endian) {
                Ok((t, q)) => r matches Ok(v) && NbtTree::LongArray(v@) == t && final(self).pos == q,
                Err(f) => r matches Err(e) && reports_read_fault(e, f),
            },
    {
        let ghost d = self.data@;
        let ghost p0 = self.pos as int;
        let e = self.endian;
        let c = self.parse_count()?;
        if c > 0x7fff_ffff {
            return Err(NbtError::InvalidLongArrayLength(c as usize));
        }
        if c * 8 > (self.data.len() - self.pos) as u64 {
            return Err(truncated());
        }
        let q = self.pos;
        let mut out: Vec<i64> = Vec::new();
        let mut i: usize = 0;
        while i < c as usize
            invariant
                self.wf(),
                self.data@ == old(self).data@,
                self.endian == old(self).endian,
                d == old(self).data@,
                self.endian == e,
                q == p0 + 4,
                self.pos == q + 8 * i,
                i <= c,
                q + 8 * c <= d.len(),
                out@.len() == i,
                forall|k: int| 0 <= k < i ==> out@[k] == i64_from(num_at(d, q + 8 * k, 8, e)),
            decreases c - i,
        {
            let u = self.read_uint(8)?;
            out.push(to_i64(u));
            i = i + 1;
        }
        assert(out@ =~= Seq::new(c as nat, |k: int| i64_from(num_at(d, q + 8 * k, 8, e))));
        Ok(out)
    }

    /// Parses the payload of the variant with tag code `tag_type`.
    pub fn parse_nbt_value(&mut self, tag_type: u8) -> (r: Result<NbtValue, NbtError>)
        requires
            old(self).wf(),
        ensures
            final(self).wf(),
            final(self).input() == old(self).input(),
            final(self).byte_order() == old(self).byte_order(),
            final(self).position() >= old(self).position(),
            !is_tag_code(tag_type) ==> final(self).position() == old(self).position(),
            match parse_value(old(self).input(), old(self).position(), tag_type, old(self).byte_order()) {
                Ok((t, q)) => r matches Ok(v) && v@ == t && final(self).position() == q,
                Err(f) => r matches Err(e) && reports_read_fault(e, f),
            },
        decreases old(self).input().len() - old(self).position(), 2int,
    {
        let ghost d = self.data@;
        let ghost p0 = self.pos as int;
        proof {
            crate::num::lemma_pow256_values();
        }
        match tag_type {
            0x00 => Ok(NbtValue::End),
            0x01 => {
                let u = self.read_uint(1)?;
                proof {
                    crate::num::lemma_uint_of_bound(d.subrange(p0, p0 + 1), self.endian);
                }
                Ok(NbtValue::Byte(to_i8(u as u8)))
            },
            0x02 => {
                let u = self.read_uint(2)?;
                proof {
                    crate::num::lemma_uint_of_bound(d.subrange(p0, p0 + 2), self.endian);
                }
                Ok(NbtValue::Short(to_i16(u)))
            },
            0x03 => {
                let u = self.read_uint(4)?;
                proof {
                    crate::num::lemma_uint_of_bound(d.subrange(p0, p0 + 4), self.endian);
                }
                Ok(NbtValue::Int(to_i32(u)))
            },
            0x04 => {
                let u = self.read_uint(8)?;
                Ok(NbtValue::Long(to_i64(u)))
            },
            0x05 => {
                let u = self.read_uint(4)?;
                proof {
                    crate::num::lemma_uint_of_bound(d.subrange(p0, p0 + 4), self.endian);
                }
                Ok(NbtValue::Float(u as u32))
            },
            0x06 => {
                let u = self.read_uint(8)?;
                Ok(NbtValue::Double(u))
            },
            0x07 => {
                let value = self.parse_byte_array()?;
                Ok(NbtValue::ByteArray(value))
            },
            0x08 => {
                let value = self.parse_string()?;
                Ok(NbtValue::String(value))
            },
            0x09 => self.parse_list(),
            0x0A => self.parse_compound(),
            0x0B => {
                let value = self.parse_int_array()?;
                Ok(NbtValue::IntArray(value))
            },
            0x0C => {
                let value = self.parse_long_array()?;
                Ok(NbtValue::LongArray(value))
            },
            _ => Err(NbtError::InvalidTagType(tag_type)),
        }
    }

    fn parse_list(&mut self) -> (r: Result<NbtValue, NbtError>)
        requires
            old(self).wf(),
        ensures
            final(self).wf(),
            final(self).data@ == old(self).data@,
            final(self).endian == old(self).endian,
            final(self).pos >= old(self).pos,
            match parse_value(old(self).data@, old(self).pos as int, 9, old(self).endian) {
                Ok((t, q)) => r matches Ok(v) && v@ == t && final(self).pos == q,
                Err(f) => r matches Err(e) && reports_read_fault(e, f),
            },
        decreases old(self).data.len() - old(self).pos, 1int,
    {
        let ghost d = self.data@;
        let ghost p0 = self.pos as int;
        let e = self.endian;
        let et = self.read_u8()?;
        let c = self.parse_count()?;
        if c == 0 {
            let items: Vec<NbtValue> = Vec::new();
            assert(items_view(items@) =~= Seq::<NbtTree>::empty());
            return Ok(NbtValue::List(items));
        }
        if et > 12 {
            return Err(NbtError::InvalidTagType(et));
        }
        if c > 0x7fff_ffff {
            return Err(NbtError::InvalidListLength(c as usize));
        }
        let mut items: Vec<NbtValue> = Vec::new();
        assert(items_view(items@) =~= Seq::<NbtTree>::empty());
        let mut i: u64 = 0;
        while i < c
            invariant
                self.wf(),
                self.data@ == old(self).data@,
                self.endian == e,
                e == old(self).endian,
                d == old(self).data@,
                p0 == old(self).pos,
                p0 + 5 <= self.pos,
                i <= c,
                c <= 0x7fff_ffff,
                is_tag_code(et),
                et == d[p0],
                c == num_at(d, p0 + 1, 4, e),
                parse_items(d, p0 + 5, et, c as nat, e) == prepend_items(
                    items_view(items@),
                    parse_items(d, self.pos as int, et, (c - i) as nat, e),
                ),
            decreases c - i,
        {
            let ghost before = items@;
            let value = self.parse_nbt_value(et)?;
            let ghost v = value@;
            items.push(value);
            proof {
                assert(items@.drop_last() =~= before);
                lemma_prepend_items(items_view(before), v, parse_items(d, self.pos as int, et, (c - i - 1) as nat, e));
            }
            i = i + 1;
        }
        proof {
            match parse_items(d, p0 + 5, et, c as nat, e) {
                Ok((s, q)) => {
                    assert(s =~= items_view(items@));
                },
                Err(_) => {},
            }
        }
        Ok(NbtValue::List(items))
    }

    fn parse_compound(&mut self) -> (r: Result<NbtValue, NbtError>)
        requires
            old(self).wf(),
        ensures
            final(self).wf(),
            final(self).data@ == old(self).data@,
            final(self).endian == old(self).endian,
            final(self).pos >= old(self).pos,
            match parse_value(old(self).data@, old(self).pos as int, 10, old(self).endian) {
                Ok((t, q)) => r matches Ok(v) && v@ == t && final(self).pos == q,
                Err(f) => r matches Err(e) && reports_read_fault(e, f),
            },
        decreases old(self).data.len() - old(self).pos, 1int,
    {
        let ghost d = self.data@;
        let ghost p0 = self.pos as int;
        let e = self.endian;
        let mut entries: Vec<(String, NbtValue)> = Vec::new();
        let ghost mut raw: Seq<(Seq<char>, NbtTree)> = Seq::empty();
        assert(members_view(entries@) =~= merge_members(raw));
        assert(prepend_members(raw, parse_members(d, p0, e)) =~= parse_members(d, p0, e)) by {
            match parse_members(d, p0, e) {
                Ok((s, q)) => {
                    assert(raw + s =~= s);
                },
                Err(_) => {},
            }
        }
        loop
            invariant
                self.wf(),
                self.data@ == old(self).data@,
                self.endian == e,
                e == old(self).endian,
                d == old(self).data@,
                p0 == old(self).pos,
                p0 <= self.pos,
                members_view(entries@) == merge_members(raw),
                distinct_keys(members_view(entries@)),
                parse_members(d, p0, e) == prepend_members(raw, parse_members(d, self.pos as int, e)),
            decreases d.len() - self.pos,
        {
            let ghost before = self.pos as int;
            let (name, value) = self.parse_nbt_tag()?;
            if let NbtValue::End = value {
                proof {
                    match parse_members(d, p0, e) {
                        Ok((s, q)) => {
                            assert(s =~= raw);
                        },
                        Err(_) => {},
                    }
                }
                return Ok(NbtValue::Compound(entries));
            }
            let ghost kv = (name@, value@);
            proof {
                lemma_named_not_end(d, before, e);
            }
            insert_member_exec(&mut entries, name, value);
            proof {
                let old_raw = raw;
                raw = raw.push(kv);
                assert(raw.drop_last() =~= old_raw);
                lemma_prepend_members(old_raw, kv, parse_members(d, self.pos as int, e));
            }
        }
    }

    /// Parses a named tag: a tag code, then, unless it is End, a name and a
    /// payload. The End code gives an empty name and the End value.
    pub fn parse_nbt_tag(&mut self) -> (r: Result<(String, NbtValue), NbtError>)
        requires
            old(self).wf(),
        ensures
            final(self).wf(),
            final(self).input() == old(self).input(),
            final(self).byte_order() == old(self).byte_order(),
            final(self).position() >= old(self).position(),
            match parse_named(old(self).input(), old(self).position(), old(self).byte_order()) {
                Ok((name, t, q)) => r matches Ok((s, v)) && s@ == name && v@ == t
                    && final(self).position() == q && q > old(self).position(),
                Err(f) => r matches Err(e) && reports_read_fault(e, f),
            },
        decreases old(self).input().len() - old(self).position(), 0int,
    {
        let tag = self.read_u8()?;
        if tag == 0 {
            return Ok((String::new(), NbtValue::End));
        }
        if tag > 12 {
            return Err(NbtError::InvalidTagType(tag));
        }
        let name = self.parse_string()?;
        let value = self.parse_nbt_value(tag)?;
        Ok((name, value))
    }

    /// Parses a whole document: in the little-endian edition the eight-byte
    /// file header first, then the root's named tag.
    pub fn parse_data(&mut self) -> (r: Result<(String, NbtValue), NbtError>)
        requires
            old(self).wf(),
        ensures
            final(self).wf(),
            final(self).input() == old(self).input(),
            match parse_document(old(self).input(), old(self).position(), old(self).byte_order()) {
                Ok((name, t)) => r matches Ok((s, v)) && s@ == name && v@ == t,
                Err(f) => r matches Err(e) && reports_read_fault(e, f),
            },
    {
        match self.endian {
            Endian::Big => {},
            Endian::Little => {
                let _file_type = self.read_uint(4)?;
                let _file_length = self.read_uint(4)?;
            },
        }
        self.parse_nbt_tag()
    }
}

proof fn lemma_prepend_items(
    a: Seq<NbtTree>,
    x: NbtTree,
    r: Result<(Seq<NbtTree>, int), ReadFault>,
)
    ensures
        prepend_items(a, prepend_items(seq![x], r)) == prepend_items(a.push(x), r),
{
    if let Ok((s, q)) = r {
        assert(a + (seq![x] + s) =~= a.push(x) + s);
    }
}

proof fn lemma_prepend_members(
    a: Seq<(Seq<char>, NbtTree)>,
    x: (Seq<char>, NbtTree),
    r: Result<(Seq<(Seq<char>, NbtTree)>, int), ReadFault>,
)
    ensures
        prepend_members(a, prepend_members(seq![x], r)) == prepend_members(a.push(x), r),
{
    if let Ok((s, q)) = r {
        assert(a + (seq![x] + s) =~= a.push(x) + s);
    }
}

/// A named tag whose code is not End decodes to a value other than End, and
/// ends past its start.
proof fn lemma_named_not_end(d: Seq<u8>, p: int, e: Endian)
    ensures
        parse_named(d, p, e) matches Ok((_, v, q)) ==> (v is End <==> d[p] == 0),
{
    if 0 <= p < d.len() && d[p] != 0 {
        if let Ok((_, q)) = parse_text(d, p + 1, e) {
            lemma_value_not_end(d, q, d[p], e);
        }
    }
}

proof fn lemma_value_not_end(d: Seq<u8>, p: int, tag: u8, e: Endian)
    ensures
        parse_value(d, p, tag, e) matches Ok((v, q)) ==> (v is End <==> tag == 0),
{
}

} // verus!
