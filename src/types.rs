//! The value model: tagged values, their mathematical view, and the tag-code table.
use vstd::prelude::*;
use crate::format::{distinct_keys, has_key, insert_member};

verus! {

/// Relies on std::io::Error only as an opaque value carried in `NbtError::IoError`.
#[verifier::external_type_specification]
#[verifier::external_body]
pub struct ExIoError(std::io::Error);

/// Relies on std::string::FromUtf8Error only as an opaque value carried in
/// `NbtError::InvalidString`.
#[verifier::external_type_specification]
#[verifier::external_body]
pub struct ExFromUtf8Error(std::string::FromUtf8Error);

/// The compression wrapped around a document's bytes.
#[derive(Debug, Clone, Copy, PartialEq, Eq, Structural)]
pub enum Compression {
    /// No compression is used.
    Uncompressed,
    /// A gzip stream.
    Gzip,
    /// A zlib stream.
    Zlib,
}

/// The byte order of every multi-byte number in a document.
///
/// Big is the edition without file framing; Little is the edition whose
/// documents start with a format tag and a payload length.
#[derive(Debug, Clone, Copy, PartialEq, Eq, Structural)]
pub enum Endian {
    Big,
    Little,
}

/// The errors of decoding and encoding.
#[derive(Debug)]
pub enum NbtError {
    /// An empty list where one is not allowed.
    EmptyList,
    /// The input ended early, or the compression layer failed.
    IoError(std::io::Error),
    /// An unknown tag code.
    InvalidTagType(u8),
    /// An unknown compression kind.
    InvalidCompression(u8),
    /// Text that is not UTF-8.
    InvalidString(std::string::FromUtf8Error),
    /// A list whose elements carry different tag codes; holds the code that differs.
    InvalidListType(u8),
    /// A compound that holds a member it cannot carry (an End member); holds its code.
    InvalidCompoundType(u8),
    /// A byte array whose length the 32-bit signed count cannot carry.
    InvalidByteArrayLength(usize),
    /// An int array whose length the 32-bit signed count cannot carry.
    InvalidIntArrayLength(usize),
    /// A long array whose length the 32-bit signed count cannot carry.
    InvalidLongArrayLength(usize),
    /// A list whose length the 32-bit signed count cannot carry.
    InvalidListLength(usize),
    /// A name or string whose UTF-8 length the 16-bit count cannot carry.
    InvalidStringLength(usize),
    /// A root whose byte length the little-endian file header cannot carry.
    InvalidDocumentLength(usize),
}

impl From<std::io::Error> for NbtError {
    fn from(e: std::io::Error) -> NbtError {
        NbtError::IoError(e)
    }
}

impl vstd::std_specs::convert::FromSpecImpl<std::io::Error> for NbtError {
    open spec fn obeys_from_spec() -> bool {
        true
    }

    open spec fn from_spec(e: std::io::Error) -> NbtError {
        NbtError::IoError(e)
    }
}

/// A tagged value.
///
/// `Float` and `Double` hold the IEEE-754 bit patterns of their numbers.
/// A `Compound` holds its members as (name, value) pairs whose names are
/// distinct; their order is the order in which they are written.
#[derive(Debug, PartialEq)]
pub enum NbtValue {
    End,
    Byte(i8),
    Short(i16),
    Int(i32),
    Long(i64),
    Float(u32),
    Double(u64),
    ByteArray(Vec<i8>),
    String(String),
    List(Vec<NbtValue>),
    Compound(Vec<(String, NbtValue)>),
    IntArray(Vec<i32>),
    LongArray(Vec<i64>),
}

/// The mathematical value of an `NbtValue`.
pub enum NbtTree {
    End,
    Byte(i8),
    Short(i16),
    Int(i32),
    Long(i64),
    Float(u32),
    Double(u64),
    ByteArray(Seq<i8>),
    Str(Seq<char>),
    List(Seq<NbtTree>),
    Compound(Seq<(Seq<char>, NbtTree)>),
    IntArray(Seq<i32>),
    LongArray(Seq<i64>),
}

impl View for NbtValue {
    type V = NbtTree;

    open spec fn view(&self) -> NbtTree {
        tree_of(*self)
    }
}

/// The mathematical value of `v`.
pub open spec fn tree_of(v: NbtValue) -> NbtTree
    decreases v,
{
        match v {
            NbtValue::End => NbtTree::End,
            NbtValue::Byte(x) => NbtTree::Byte(x),
            NbtValue::Short(x) => NbtTree::Short(x),
            NbtValue::Int(x) => NbtTree::Int(x),
            NbtValue::Long(x) => NbtTree::Long(x),
            NbtValue::Float(x) => NbtTree::Float(x),
            NbtValue::Double(x) => NbtTree::Double(x),
            NbtValue::ByteArray(a) => NbtTree::ByteArray(a@),
            NbtValue::String(s) => NbtTree::Str(s@),
            NbtValue::List(items) => NbtTree::List(items_view(items@)),
            NbtValue::Compound(entries) => NbtTree::Compound(members_view(entries@)),
            NbtValue::IntArray(a) => NbtTree::IntArray(a@),
            NbtValue::LongArray(a) => NbtTree::LongArray(a@),
        }
}

/// The values of `v`, element by element.
pub open spec fn items_view(v: Seq<NbtValue>) -> Seq<NbtTree>
    decreases v,
{
    if v.len() == 0 {
        Seq::empty()
    } else {
        items_view(v.drop_last()).push(tree_of(v.last()))
    }
}

/// The (name, value) members of `m`, as text and values.
pub open spec fn members_view(m: Seq<(String, NbtValue)>) -> Seq<(Seq<char>, NbtTree)>
    decreases m,
{
    if m.len() == 0 {
        Seq::empty()
    } else {
        members_view(m.drop_last()).push((m.last().0@, tree_of(m.last().1)))
    }
}

pub broadcast proof fn lemma_items_view(v: Seq<NbtValue>)
    ensures
        (#[trigger] items_view(v)).len() == v.len(),
        forall|i: int| 0 <= i < v.len() ==> items_view(v)[i] == (#[trigger] v[i])@,
    decreases v.len(),
{
    if v.len() > 0 {
        let w = v.drop_last();
        lemma_items_view(w);
        assert forall|i: int| 0 <= i < v.len() implies items_view(v)[i] == (#[trigger] v[i])@ by {
            if i < w.len() {
                assert(w[i] == v[i]);
            }
        }
    }
}

pub broadcast proof fn lemma_members_view(m: Seq<(String, NbtValue)>)
    ensures
        (#[trigger] members_view(m)).len() == m.len(),
        forall|i: int|
            0 <= i < m.len() ==> members_view(m)[i] == ((#[trigger] m[i]).0@, m[i].1@),
    decreases m.len(),
{
    if m.len() > 0 {
        let w = m.drop_last();
        lemma_members_view(w);
        assert forall|i: int| 0 <= i < m.len() implies members_view(m)[i] == (
        (#[trigger] m[i]).0@,
            m[i].1@,
        ) by {
            if i < w.len() {
                assert(w[i] == m[i]);
            }
        }
    }
}

/// Sets the member `key` of `m` to `value`: replaced where `key` is a name
/// of `m`, else appended.
pub fn insert_member_exec(m: &mut Vec<(String, NbtValue)>, key: String, value: NbtValue)
    requires
        distinct_keys(members_view(old(m)@)),
    ensures
        members_view(final(m)@) == insert_member(members_view(old(m)@), key@, value@),
        distinct_keys(members_view(final(m)@)),
{
    broadcast use {lemma_members_view};

    let ghost old_view = members_view(m@);
    proof {
        lemma_members_view(m@);
    }
    let mut i: usize = 0;
    while i < m.len()
        invariant
            i <= m.len(),
            m@ == old(m)@,
            old_view == members_view(m@),
            old_view.len() == m.len(),
            distinct_keys(old_view),
            forall|k: int| 0 <= k < i ==> old_view[k].0 != key@,
        decreases m.len() - i,
    {
        proof {
            lemma_members_view(m@);
        }
        if m[i].0 == key {
            let ghost kv = (key@, value@);
            assert(has_key(old_view, key@));
            m[i] = (key, value);
            proof {
                lemma_members_view(m@);
                lemma_members_view(old(m)@);
            }
            assert(members_view(m@) =~= insert_member(old_view, kv.0, kv.1)) by {
                let ins = insert_member(old_view, kv.0, kv.1);
                assert(ins.len() == old_view.len());
                assert forall|j: int| 0 <= j < old_view.len() implies members_view(m@)[j] == ins[j] by {
                    if j != i {
                        assert(old_view[j].0 != kv.0);
                        assert(m@[j] == old(m)@[j]);
                    }
                }
            }
            return;
        }
        i = i + 1;
    }
    let ghost kv = (key@, value@);
    m.push((key, value));
    assert(m@.drop_last() =~= old(m)@);
    assert(!has_key(old_view, kv.0));
    assert(members_view(m@) =~= insert_member(old_view, kv.0, kv.1));
}

/// The tag code that identifies the variant of `t` on the wire.
pub open spec fn tag_of(t: NbtTree) -> u8 {
    match t {
        NbtTree::End => 0,
        NbtTree::Byte(_) => 1,
        NbtTree::Short(_) => 2,
        NbtTree::Int(_) => 3,
        NbtTree::Long(_) => 4,
        NbtTree::Float(_) => 5,
        NbtTree::Double(_) => 6,
        NbtTree::ByteArray(_) => 7,
        NbtTree::Str(_) => 8,
        NbtTree::List(_) => 9,
        NbtTree::Compound(_) => 10,
        NbtTree::IntArray(_) => 11,
        NbtTree::LongArray(_) => 12,
    }
}

/// Whether `code` names a variant.
pub open spec fn is_tag_code(code: u8) -> bool {
    code <= 12
}

/// The empty value of the variant with tag code `code`.
pub open spec fn empty_of(code: u8) -> NbtTree
    recommends
        is_tag_code(code),
{
    if code == 0 {
        NbtTree::End
    } else if code == 1 {
        NbtTree::Byte(0)
    } else if code == 2 {
        NbtTree::Short(0)
    } else if code == 3 {
        NbtTree::Int(0)
    } else if code == 4 {
        NbtTree::Long(0)
    } else if code == 5 {
        NbtTree::Float(0)
    } else if code == 6 {
        NbtTree::Double(0)
    } else if code == 7 {
        NbtTree::ByteArray(Seq::empty())
    } else if code == 8 {
        NbtTree::Str(Seq::empty())
    } else if code == 9 {
        NbtTree::List(Seq::empty())
    } else if code == 10 {
        NbtTree::Compound(Seq::empty())
    } else if code == 11 {
        NbtTree::IntArray(Seq::empty())
    } else {
        NbtTree::LongArray(Seq::empty())
    }
}

impl NbtValue {
    /// The empty value of the variant with tag code `value`, or `None` for an
    /// unknown code.
    pub fn from_binary(value: u8) -> (r: Option<NbtValue>)
        ensures
            is_tag_code(value) <==> r is Some,
            r matches Some(v) ==> v@ == empty_of(value),
    {
        match value {
            0x0 => Some(NbtValue::End),
            0x1 => Some(NbtValue::Byte(0)),
            0x2 => Some(NbtValue::Short(0)),
            0x3 => Some(NbtValue::Int(0)),
            0x4 => Some(NbtValue::Long(0)),
            0x5 => Some(NbtValue::Float(0)),
            0x6 => Some(NbtValue::Double(0)),
            0x7 => Some(NbtValue::ByteArray(Vec::new())),
            0x8 => Some(NbtValue::String(String::new())),
            0x9 => {
                let v = NbtValue::List(Vec::new());
                Some(v)
            },
            0xA => {
                let v = NbtValue::Compound(Vec::new());
                Some(v)
            },
            0xB => Some(NbtValue::IntArray(Vec::new())),
            0xC => Some(NbtValue::LongArray(Vec::new())),
            _ => None,
        }
    }

    /// The tag code of this value's variant.
    pub fn to_binary(&self) -> (r: u8)
        ensures
            r == tag_of(self@),
    {
        match self {
            NbtValue::End => 0x0,
            NbtValue::Byte(_) => 0x1,
            NbtValue::Short(_) => 0x2,
            NbtValue::Int(_) => 0x3,
            NbtValue::Long(_) => 0x4,
            NbtValue::Float(_) => 0x5,
            NbtValue::Double(_) => 0x6,
            NbtValue::ByteArray(_) => 0x7,
            NbtValue::String(_) => 0x8,
            NbtValue::List(_) => 0x9,
            NbtValue::Compound(_) => 0xA,
            NbtValue::IntArray(_) => 0xB,
            NbtValue::LongArray(_) => 0xC,
        }
    }
}

} // verus!
