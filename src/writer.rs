//! The encoder: the mirror of the decoder, writing into a byte buffer.
use vstd::prelude::*;
use vstd::utf8::encode_utf8;
use crate::format::{
    document_fault, encode_bytes, encode_document, encode_ints, encode_items, encode_longs,
    encode_members, encode_named, encode_root, encode_value, items_fault, max_count,
    members_fault, reports_write_fault, root_fault, text_bytes, text_fault, value_fault, WriteFault,
};
use crate::num::{i16_bits, i32_bits, i64_bits, i8_bits, push_uint};
use crate::text::utf8_bytes;
use crate::types::{
    items_view, lemma_items_view, lemma_members_view, members_view, Endian, NbtError, NbtTree,
    NbtValue,
};

verus! {

broadcast use {lemma_items_view, lemma_members_view};

fn i8_to_bits(x: i8) -> (r: u8)
    ensures
        r as nat == i8_bits(x),
{
    if x < 0 {
        (x as i16 + 0x100) as u8
    } else {
        x as u8
    }
}

fn i16_to_bits(x: i16) -> (r: u64)
    ensures
        r as nat == i16_bits(x),
{
    if x < 0 {
        (x as i32 + 0x1_0000) as u64
    } else {
        x as u64
    }
}

fn i32_to_bits(x: i32) -> (r: u64)
    ensures
        r as nat == i32_bits(x),
{
    if x < 0 {
        (x as i64 + 0x1_0000_0000) as u64
    } else {
        x as u64
    }
}

fn i64_to_bits(x: i64) -> (r: u64)
    ensures
        r as nat == i64_bits(x),
{
    if x < 0 {
        ((x + 0x7fff_ffff_ffff_ffff + 1) as u64) + 0x8000_0000_0000_0000
    } else {
        x as u64
    }
}

/// The first fault of a string, as an error.
fn text_error(s: &str) -> (r: Option<NbtError>)
    ensures
        match text_fault(s@) {
            None => r is None,
            Some(f) => r matches Some(e) && reports_write_fault(e, f),
        },
{
    let n = utf8_bytes(s).len();
    if n > 0xffff {
        Some(NbtError::InvalidStringLength(n))
    } else {
        None
    }
}

/// The first fault met when `v` is written, as an error.
pub fn value_error(v: &NbtValue) -> (r: Option<NbtError>)
    ensures
        match value_fault(v@) {
            None => r is None,
            Some(f) => r matches Some(e) && reports_write_fault(e, f),
        },
    decreases v,
{
    match v {
        NbtValue::ByteArray(a) => if a.len() > 0x7fff_ffff {
            Some(NbtError::InvalidByteArrayLength(a.len()))
        } else {
            None
        },
        NbtValue::IntArray(a) => if a.len() > 0x7fff_ffff {
            Some(NbtError::InvalidIntArrayLength(a.len()))
        } else {
            None
        },
        NbtValue::LongArray(a) => if a.len() > 0x7fff_ffff {
            Some(NbtError::InvalidLongArrayLength(a.len()))
        } else {
            None
        },
        NbtValue::String(s) => text_error(s.as_str()),
        NbtValue::List(items) => {
            let ghost view = items_view(items@);
            assert(v@ == NbtTree::List(view));
            if items.len() > 0x7fff_ffff {
                assert(value_fault(v@) == Some(WriteFault::ListTooLong(items.len() as nat)));
                return Some(NbtError::InvalidListLength(items.len()));
            }
            let mut i: usize = 0;
            while i < items.len()
                invariant
                    i <= items.len(),
                    view == items_view(items@),
                    view.len() == items.len(),
                    view.len() <= max_count(),
                    v@ == NbtTree::List(view),
                    *v == NbtValue::List(*items),
                    items_fault(view, 0) == items_fault(view, i as int),
                decreases items.len() - i,
            {
                let t = items[i].to_binary();
                if t != items[0].to_binary() {
                    return Some(NbtError::InvalidListType(t));
                }
                proof {
                    assert(decreases_to!(*v => items@[i as int]));
                }
                let inner = value_error(&items[i]);
                if inner.is_some() {
                    return inner;
                }
                i = i + 1;
            }
            None
        },
        NbtValue::Compound(m) => {
            let ghost view = members_view(m@);
            assert(v@ == NbtTree::Compound(view));
            let mut i: usize = 0;
            while i < m.len()
                invariant
                    i <= m.len(),
                    view == members_view(m@),
                    view.len() == m.len(),
                    v@ == NbtTree::Compound(view),
                    *v == NbtValue::Compound(*m),
                    members_fault(view, 0) == members_fault(view, i as int),
                decreases m.len() - i,
            {
                let name_fault = text_error(m[i].0.as_str());
                if name_fault.is_some() {
                    return name_fault;
                }
                if let NbtValue::End = m[i].1 {
                    return Some(NbtError::InvalidCompoundType(0));
                }
                proof {
                    assert(decreases_to!(*m => m[i as int]));
                }
                let inner = value_error(&m[i].1);
                if inner.is_some() {
                    return inner;
                }
                i = i + 1;
            }
            None
        },
        _ => None,
    }
}

/// The root name that `write_data` uses: the given one, else "Data" in the
/// big-endian edition and "" in the little-endian one.
pub open spec fn root_name(data_name: Option<&str>, e: Endian) -> Seq<char> {
    match data_name {
        Some(s) => s@,
        None => if e == Endian::Big {
            seq!['D', 'a', 't', 'a']
        } else {
            Seq::empty()
        },
    }
}

/// Writes NBT data into a byte buffer, encoding numbers in the given byte order.
pub struct NbtWriter {
    out: Vec<u8>,
    endian: Endian,
}

impl NbtWriter {
    /// The bytes written so far.
    pub closed spec fn output(&self) -> Seq<u8> {
        self.out@
    }

    /// The byte order of the numbers written.
    pub closed spec fn byte_order(&self) -> Endian {
        self.endian
    }

    /// A writer with nothing written yet.
    pub fn new(endian: Endian) -> (r: Self)
        ensures
            r.output() == Seq::<u8>::empty(),
            r.byte_order() == endian,
    {
        NbtWriter { out: Vec::new(), endian }
    }

    /// The bytes written.
    pub fn into_bytes(self) -> (r: Vec<u8>)
        ensures
            r@ == self.output(),
    {
        self.out
    }

    fn write_byte(&mut self, value: i8)
        ensures
            final(self).out@ == old(self).out@.push(i8_bits(value) as u8),
            final(self).endian == old(self).endian,
    {
        self.out.push(i8_to_bits(value));
    }

    fn write_string(&mut self, value: &str)
        requires
            text_fault(value@) is None,
        ensures
            final(self).out@ == old(self).out@ + text_bytes(value@, old(self).endian),
            final(self).endian == old(self).endian,
    {
        let b = utf8_bytes(value);
        push_uint(&mut self.out, b.len() as u64, 2, self.endian);
        let mut i: usize = 0;
        let ghost mid = self.out@;
        while i < b.len()
            invariant
                i <= b.len(),
                self.endian == old(self).endian,
                b@ == encode_utf8(value@),
                self.out@ == mid + b@.subrange(0, i as int),
            decreases b.len() - i,
        {
            self.out.push(b[i]);
            i = i + 1;
            assert(self.out@ =~= mid + b@.subrange(0, i as int));
        }
        assert(b@.subrange(0, b.len() as int) =~= b@);
        assert(self.out@ =~= old(self).out@ + text_bytes(value@, old(self).endian));
    }

    fn write_byte_array(&mut self, value: &Vec<i8>)
        requires
            value.len() <= max_count(),
        ensures
            final(self).out@ == old(self).out@ + encode_value(NbtTree::ByteArray(value@), old(self).endian),
            final(self).endian == old(self).endian,
    {
        push_uint(&mut self.out, value.len() as u64, 4, self.endian);
        let ghost mid = self.out@;
        let mut i: usize = 0;
        while i < value.len()
            invariant
                i <= value.len(),
                self.endian == old(self).endian,
                self.out@ + encode_bytes(value@, i as int) == mid + encode_bytes(value@, 0),
            decreases value.len() - i,
        {
            let ghost before = self.out@;
            self.write_byte(value[i]);
            assert(before + encode_bytes(value@, i as int) =~= self.out@ + encode_bytes(value@, i + 1));
            i = i + 1;
        }
        assert(self.out@ =~= mid + encode_bytes(value@, 0));
    }

    fn write_int_array(&mut self, value: &Vec<i32>)
        requires
            value.len() <= max_count(),
        ensures
            final(self).out@ == old(self).out@ + encode_value(NbtTree::IntArray(value@), old(self).endian),
            final(self).endian == old(self).endian,
    {
        let e = self.endian;
        push_uint(&mut self.out, value.len() as u64, 4, e);
        let ghost mid = self.out@;
        let mut i: usize = 0;
        while i < value.len()
            invariant
                i <= value.len(),
                self.endian == e,
                self.out@ + encode_ints(value@, i as int, e) == mid + encode_ints(value@, 0, e),
            decreases value.len() - i,
        {
            let ghost before = self.out@;
            push_uint(&mut self.out, i32_to_bits(value[i]), 4, e);
            assert(before + encode_ints(value@, i as int, e) =~= self.out@ + encode_ints(value@, i + 1, e));
            i = i + 1;
        }
        assert(self.out@ =~= mid + encode_ints(value@, 0, e));
    }

    fn write_long_array(&mut self, value: &Vec<i64>)
        requires
            value.len() <= max_count(),
        ensures
            final(self).out@ == old(self).out@ + encode_value(NbtTree::LongArray(value@), old(self).endian),
            final(self).endian == old(self).endian,
    {
        let e = self.endian;
        push_uint(&mut self.out, value.len() as u64, 4, e);
        let ghost mid = self.out@;
        let mut i: usize = 0;
        while i < value.len()
            invariant
                i <= value.len(),
                self.endian == e,
                self.out@ + encode_longs(value@, i as int, e) == mid + encode_longs(value@, 0, e),
            decreases value.len() - i,
        {
            let ghost before = self.out@;
            push_uint(&mut self.out, i64_to_bits(value[i]), 8, e);
            assert(before + encode_longs(value@, i as int, e) =~= self.out@ + encode_longs(value@, i + 1, e));
            i = i + 1;
        }
        assert(self.out@ =~= mid + encode_longs(value@, 0, e));
    }

    /// Writes the payload of `value`; `value_fault(value@)` must be `None`.
    fn emit_value(&mut self, value: &NbtValue)
        requires
            value_fault(value@) is None,
        ensures
            final(self).out@ == old(self).out@ + encode_value(value@, old(self).endian),
            final(self).endian == old(self).endian,
        decreases value,
    {
        let e = self.endian;
        match value {
            NbtValue::End => {
                assert(self.out@ =~= old(self).out@ + encode_value(value@, e));
            },
            NbtValue::Byte(x) => {
                self.write_byte(*x);
                assert(self.out@ =~= old(self).out@ + encode_value(value@, e));
            },
            NbtValue::Short(x) => push_uint(&mut self.out, i16_to_bits(*x), 2, e),
            NbtValue::Int(x) => push_uint(&mut self.out, i32_to_bits(*x), 4, e),
            NbtValue::Long(x) => push_uint(&mut self.out, i64_to_bits(*x), 8, e),
            NbtValue::Float(x) => push_uint(&mut self.out, *x as u64, 4, e),
            NbtValue::Double(x) => push_uint(&mut self.out, *x, 8, e),
            NbtValue::ByteArray(a) => self.write_byte_array(a),
            NbtValue::String(s) => self.write_string(s.as_str()),
            NbtValue::List(items) => {
                assert forall|j: int| 0 <= j < items.len() implies decreases_to!(*value => items@[j]) by {
                    assert(decreases_to!(*value => *items));
                }
                let ghost view = items_view(items@);
                let t: u8 = if items.len() == 0 {
                    0
                } else {
                    items[0].to_binary()
                };
                self.out.push(t);
                push_uint(&mut self.out, items.len() as u64, 4, e);
                let ghost mid = self.out@;
                let mut i: usize = 0;
                while i < items.len()
                    invariant
                        i <= items.len(),
                        self.endian == e,
                        view == items_view(items@),
                        view.len() == items.len(),
                        *value == NbtValue::List(*items),
                        forall|j: int| 0 <= j < items.len() ==> decreases_to!(*value => items@[j]),
                        items_fault(view, i as int) is None,
                        self.out@ + encode_items(view, i as int, e) == mid + encode_items(view, 0, e),
                    decreases items.len() - i,
                {
                    let ghost before = self.out@;
                    proof {
                        assert(decreases_to!(*value => items@[i as int]));
                    }
                    self.emit_value(&items[i]);
                    assert(before + encode_items(view, i as int, e) =~= self.out@ + encode_items(
                        view,
                        i + 1,
                        e,
                    ));
                    i = i + 1;
                }
                assert(self.out@ =~= old(self).out@ + encode_value(value@, e));
            },
            NbtValue::Compound(m) => {
                assert forall|j: int| 0 <= j < m.len() implies decreases_to!(*value => m@[j].1) by {
                    assert(decreases_to!(*value => *m));
                }
                let ghost view = members_view(m@);
                let ghost mid = self.out@;
                let mut i: usize = 0;
                while i < m.len()
                    invariant
                        i <= m.len(),
                        self.endian == e,
                        view == members_view(m@),
                        view.len() == m.len(),
                        *value == NbtValue::Compound(*m),
                        forall|j: int| 0 <= j < m.len() ==> decreases_to!(*value => m@[j].1),
                        members_fault(view, i as int) is None,
                        self.out@ + encode_members(view, i as int, e) == mid + encode_members(view, 0, e),
                    decreases m.len() - i,
                {
                    let ghost before = self.out@;
                    let t = m[i].1.to_binary();
                    self.out.push(t);
                    self.write_string(m[i].0.as_str());
                    proof {
                        assert(decreases_to!(*value => m@[i as int].1));
                    }
                    self.emit_value(&m[i].1);
                    assert(view[i as int] == (m@[i as int].0@, m@[i as int].1@));
                    assert(encode_members(view, i as int, e) == encode_named(view[i as int].0, view[i as int].1, e)
                        + encode_members(view, i + 1, e));
                    assert(before + encode_members(view, i as int, e) =~= self.out@ + encode_members(
                        view,
                        i + 1,
                        e,
                    ));
                    i = i + 1;
                }
                self.out.push(0);
                assert(self.out@ =~= old(self).out@ + encode_value(value@, e));
            },
            NbtValue::IntArray(a) => self.write_int_array(a),
            NbtValue::LongArray(a) => self.write_long_array(a),
        }
    }

    /// Writes the payload of `value`. A value that the format cannot carry (a
    /// list of mixed tag codes, an End member, a count or length too large)
    /// writes nothing and gives the error of the first such fault.
    pub fn write_nbt_value(&mut self, value: NbtValue) -> (r: Result<(), NbtError>)
        ensures
            final(self).byte_order() == old(self).byte_order(),
            match value_fault(value@) {
                None => r is Ok && final(self).output() == old(self).output() + encode_value(
                    value@,
                    old(self).byte_order(),
                ),
                Some(f) => r matches Err(e) && reports_write_fault(e, f) && final(self).output()
                    == old(self).output(),
            },
    {
        match value_error(&value) {
            Some(e) => Err(e),
            None => {
                self.emit_value(&value);
                Ok(())
            },
        }
    }

    fn emit_root(&mut self, name: &str, value: &NbtValue)
        requires
            root_fault(name@, value@) is None,
        ensures
            final(self).out@ == old(self).out@ + encode_root(name@, value@, old(self).endian),
            final(self).endian == old(self).endian,
    {
        if let NbtValue::End = value {
            self.out.push(0);
            assert(self.out@ =~= old(self).out@ + encode_root(name@, value@, old(self).endian));
        } else {
            let t = value.to_binary();
            self.out.push(t);
            self.write_string(name);
            self.emit_value(value);
            assert(self.out@ =~= old(self).out@ + encode_root(name@, value@, old(self).endian));
        }
    }

    /// Writes a whole document: in the little-endian edition the file header
    /// (the format tag, then the byte length of the root), then the root as a
    /// named tag. Without a name the root is named "Data" in the big-endian
    /// edition and "" in the little-endian one. A document that the format
    /// cannot carry writes nothing and gives the error of its first fault.
    pub fn write_data(&mut self, data_name: Option<&str>, value: NbtValue) -> (r: Result<(), NbtError>)
        ensures
            final(self).byte_order() == old(self).byte_order(),
            match document_fault(root_name(data_name, old(self).byte_order()), value@, old(self).byte_order()) {
                None => r is Ok && final(self).output() == old(self).output() + encode_document(
                    root_name(data_name, old(self).byte_order()),
                    value@,
                    old(self).byte_order(),
                ),
                Some(f) => r matches Err(e) && reports_write_fault(e, f) && final(self).output()
                    == old(self).output(),
            },
    {
        let e = self.endian;
        let name: &str = match data_name {
            Some(s) => s,
            None => match e {
                Endian::Big => "Data",
                Endian::Little => "",
            },
        };
        proof {
            reveal_strlit("Data");
            reveal_strlit("");
            assert(name@ =~= root_name(data_name, e));
        }
        let fault = if let NbtValue::End = value {
            None
        } else {
            match text_error(name) {
                Some(err) => Some(err),
                None => value_error(&value),
            }
        };
        if let Some(err) = fault {
            return Err(err);
        }
        match e {
            Endian::Big => {
                self.emit_root(name, &value);
                Ok(())
            },
            Endian::Little => {
                let mut body = NbtWriter::new(Endian::Little);
                body.emit_root(name, &value);
                let len = body.out.len();
                if len > 0x7fff_ffff {
                    return Err(NbtError::InvalidDocumentLength(len));
                }
                push_uint(&mut self.out, 3, 4, e);
                push_uint(&mut self.out, len as u64, 4, e);
                let ghost root = body.out@;
                self.out.append(&mut body.out);
                assert(self.out@ =~= old(self).out@ + encode_document(name@, value@, e));
                Ok(())
            },
        }
    }
}

} // verus!
