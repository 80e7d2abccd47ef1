//! Compound accessors and conversions of `NbtValue`.
use vstd::prelude::*;
use crate::format::{distinct_keys, insert_member};
use crate::text::same_text;
use crate::types::{
    insert_member_exec, items_view, lemma_items_view, lemma_members_view, members_view, NbtTree,
    NbtValue,
};

verus! {

broadcast use lemma_members_view;

/// The index of the first member of `m[i..]` named `k`, or -1.
pub open spec fn key_index(m: Seq<(Seq<char>, NbtTree)>, k: Seq<char>, i: int) -> int
    decreases m.len() - i,
{
    if i < 0 || i >= m.len() {
        -1
    } else if m[i].0 == k {
        i
    } else {
        key_index(m, k, i + 1)
    }
}

proof fn lemma_key_index(m: Seq<(Seq<char>, NbtTree)>, k: Seq<char>, i: int)
    requires
        0 <= i,
    ensures
        key_index(m, k, i) == -1 || (i <= key_index(m, k, i) < m.len() && m[key_index(m, k, i)].0 == k),
    decreases m.len() - i,
{
    if i < m.len() && m[i].0 != k {
        lemma_key_index(m, k, i + 1);
    }
}

/// The members of a compound value.
pub open spec fn members_of(v: NbtValue) -> Seq<(Seq<char>, NbtTree)> {
    match v {
        NbtValue::Compound(m) => members_view(m@),
        _ => Seq::empty(),
    }
}

impl NbtValue {
    /// A copy of this value.
    pub fn deep_copy(&self) -> (r: NbtValue)
        ensures
            r@ == self@,
        decreases self,
    {
        match self {
            NbtValue::End => NbtValue::End,
            NbtValue::Byte(x) => NbtValue::Byte(*x),
            NbtValue::Short(x) => NbtValue::Short(*x),
            NbtValue::Int(x) => NbtValue::Int(*x),
            NbtValue::Long(x) => NbtValue::Long(*x),
            NbtValue::Float(x) => NbtValue::Float(*x),
            NbtValue::Double(x) => NbtValue::Double(*x),
            NbtValue::ByteArray(a) => NbtValue::ByteArray(a.clone()),
            NbtValue::String(s) => NbtValue::String(s.clone()),
            NbtValue::List(items) => {
                let mut out: Vec<NbtValue> = Vec::new();
                let mut i: usize = 0;
                while i < items.len()
                    invariant
                        i <= items.len(),
                        *self == NbtValue::List(*items),
                        forall|j: int| 0 <= j < items.len() ==> decreases_to!(*self => items@[j]),
                        out@.len() == i,
                        forall|j: int| 0 <= j < i ==> out@[j]@ == items@[j]@,
                    decreases items.len() - i,
                {
                    out.push(items[i].deep_copy());
                    i = i + 1;
                }
                proof {
                    lemma_items_view(out@);
                    lemma_items_view(items@);
                    assert forall|j: int| 0 <= j < items.len() implies items_view(out@)[j]
                        == items_view(items@)[j] by {
                        assert(out@[j]@ == items@[j]@);
                    }
                    assert(items_view(out@) =~= items_view(items@));
                }
                NbtValue::List(out)
            },
            NbtValue::Compound(m) => {
                let mut out: Vec<(String, NbtValue)> = Vec::new();
                let mut i: usize = 0;
                while i < m.len()
                    invariant
                        i <= m.len(),
                        *self == NbtValue::Compound(*m),
                        forall|j: int| 0 <= j < m.len() ==> decreases_to!(*self => m@[j].1),
                        out@.len() == i,
                        forall|j: int| 0 <= j < i ==> out@[j].0@ == m@[j].0@ && out@[j].1@ == m@[j].1@,
                    decreases m.len() - i,
                {
                    out.push((m[i].0.clone(), m[i].1.deep_copy()));
                    i = i + 1;
                }
                proof {
                    lemma_members_view(out@);
                    lemma_members_view(m@);
                    assert forall|j: int| 0 <= j < m.len() implies members_view(out@)[j]
                        == members_view(m@)[j] by {
                        assert(out@[j].0@ == m@[j].0@ && out@[j].1@ == m@[j].1@);
                    }
                    assert(members_view(out@) =~= members_view(m@));
                }
                NbtValue::Compound(out)
            },
            NbtValue::IntArray(a) => NbtValue::IntArray(a.clone()),
            NbtValue::LongArray(a) => NbtValue::LongArray(a.clone()),
        }
    }

    /// An empty compound.
    pub fn new() -> (r: NbtValue)
        ensures
            r is Compound,
            members_of(r) == Seq::<(Seq<char>, NbtTree)>::empty(),
    {
        let m: Vec<(String, NbtValue)> = Vec::new();
        assert(members_view(m@) =~= Seq::<(Seq<char>, NbtTree)>::empty());
        NbtValue::Compound(m)
    }

    /// Sets the member `key` of this compound to `value`: an existing member
    /// of that name is replaced, else the member is added.
    pub fn insert(&mut self, key: String, value: NbtValue)
        requires
            *old(self) is Compound,
            distinct_keys(members_of(*old(self))),
        ensures
            *final(self) is Compound,
            members_of(*final(self)) == insert_member(members_of(*old(self)), key@, value@),
            distinct_keys(members_of(*final(self))),
    {
        match self {
            NbtValue::Compound(m) => insert_member_exec(m, key, value),
            _ => {},
        }
    }

    fn find(m: &Vec<(String, NbtValue)>, key: &str) -> (r: Option<usize>)
        ensures
            key_index(members_view(m@), key@, 0) < 0 ==> r is None,
            key_index(members_view(m@), key@, 0) >= 0 ==> r == Some(
                key_index(members_view(m@), key@, 0) as usize,
            ),
            r matches Some(j) ==> j < m.len(),
    {
        proof {
            lemma_key_index(members_view(m@), key@, 0);
        }
        let ghost view = members_view(m@);
        let mut i: usize = 0;
        while i < m.len()
            invariant
                i <= m.len(),
                view == members_view(m@),
                view.len() == m.len(),
                key_index(view, key@, 0) == key_index(view, key@, i as int),
            decreases m.len() - i,
        {
            if same_text(m[i].0.as_str(), key) {
                return Some(i);
            }
            i = i + 1;
        }
        None
    }

    /// The value of the member `key` of this compound, if there is one.
    pub fn get(&self, key: &str) -> (r: Option<&NbtValue>)
        requires
            self is Compound,
        ensures
            key_index(members_of(*self), key@, 0) < 0 ==> r is None,
            key_index(members_of(*self), key@, 0) >= 0 ==> (r matches Some(v) && v@ == members_of(
                *self,
            )[key_index(members_of(*self), key@, 0)].1),
    {
        proof {
            lemma_key_index(members_of(*self), key@, 0);
        }
        match self {
            NbtValue::Compound(m) => match Self::find(m, key) {
                Some(i) => Some(&m[i].1),
                None => None,
            },
            _ => None,
        }
    }

    /// Removes the member `key` of this compound and returns its value, if
    /// there is one.
    pub fn remove(&mut self, key: &str) -> (r: Option<NbtValue>)
        requires
            *old(self) is Compound,
        ensures
            *final(self) is Compound,
            key_index(members_of(*old(self)), key@, 0) < 0 ==> r is None && members_of(*final(self))
                == members_of(*old(self)),
            key_index(members_of(*old(self)), key@, 0) >= 0 ==> (r matches Some(v) && v@ == members_of(
                *old(self),
            )[key_index(members_of(*old(self)), key@, 0)].1 && members_of(*final(self)) == members_of(
                *old(self),
            ).remove(key_index(members_of(*old(self)), key@, 0))),
    {
        proof {
            lemma_key_index(members_of(*old(self)), key@, 0);
        }
        match self {
            NbtValue::Compound(m) => match Self::find(m, key) {
                Some(i) => {
                    let ghost before = members_view(m@);
                    let ghost old_m = m@;
                    let (_, v) = m.remove(i);
                    assert forall|j: int| 0 <= j < before.len() - 1 implies members_view(m@)[j]
                        == before.remove(i as int)[j] by {
                        if j >= i {
                            assert(m@[j] == old_m[j + 1]);
                        } else {
                            assert(m@[j] == old_m[j]);
                        }
                    }
                    assert(members_view(m@) =~= before.remove(i as int));
                    Some(v)
                },
                None => None,
            },
            _ => None,
        }
    }

    /// The number of members of this compound.
    pub fn len(&self) -> (r: usize)
        requires
            self is Compound,
        ensures
            r == members_of(*self).len(),
    {
        match self {
            NbtValue::Compound(m) => m.len(),
            _ => 0,
        }
    }

    /// Whether this compound has no members.
    pub fn is_empty(&self) -> (r: bool)
        requires
            self is Compound,
        ensures
            r == (members_of(*self).len() == 0),
    {
        match self {
            NbtValue::Compound(m) => m.len() == 0,
            _ => true,
        }
    }

    /// The names of the members of this compound, in order.
    pub fn keys(&self) -> (r: Vec<&String>)
        requires
            self is Compound,
        ensures
            r@.len() == members_of(*self).len(),
            forall|i: int| 0 <= i < r@.len() ==> r@[i]@ == members_of(*self)[i].0,
    {
        let mut out: Vec<&String> = Vec::new();
        match self {
            NbtValue::Compound(m) => {
                let mut i: usize = 0;
                while i < m.len()
                    invariant
                        i <= m.len(),
                        *self == NbtValue::Compound(*m),
                        out@.len() == i,
                        forall|k: int| 0 <= k < i ==> out@[k]@ == members_view(m@)[k].0,
                    decreases m.len() - i,
                {
                    out.push(&m[i].0);
                    i = i + 1;
                }
            },
            _ => {},
        }
        out
    }

    /// The (name, value) members of this compound, in order.
    pub fn iter(&self) -> (r: Vec<(&String, &NbtValue)>)
        requires
            self is Compound,
        ensures
            r@.len() == members_of(*self).len(),
            forall|i: int|
                0 <= i < r@.len() ==> (r@[i].0)@ == members_of(*self)[i].0 && (r@[i].1)@
                    == members_of(*self)[i].1,
    {
        let mut out: Vec<(&String, &NbtValue)> = Vec::new();
        match self {
            NbtValue::Compound(m) => {
                let mut i: usize = 0;
                while i < m.len()
                    invariant
                        i <= m.len(),
                        *self == NbtValue::Compound(*m),
                        out@.len() == i,
                        forall|k: int|
                            0 <= k < i ==> (out@[k].0)@ == members_view(m@)[k].0 && (out@[k].1)@
                                == members_view(m@)[k].1,
                    decreases m.len() - i,
                {
                    out.push((&m[i].0, &m[i].1));
                    i = i + 1;
                }
            },
            _ => {},
        }
        out
    }

    /// A string value holding `s`.
    pub fn text(s: &str) -> (r: NbtValue)
        ensures
            r@ == NbtTree::Str(s@),
    {
        NbtValue::String(s.to_owned())
    }

    /// The values of the members of this compound, in order.
    pub fn values(&self) -> (r: Vec<&NbtValue>)
        requires
            self is Compound,
        ensures
            r@.len() == members_of(*self).len(),
            forall|i: int| 0 <= i < r@.len() ==> r@[i]@ == members_of(*self)[i].1,
    {
        let mut out: Vec<&NbtValue> = Vec::new();
        match self {
            NbtValue::Compound(m) => {
                let mut i: usize = 0;
                while i < m.len()
                    invariant
                        i <= m.len(),
                        *self == NbtValue::Compound(*m),
                        out@.len() == i,
                        forall|k: int| 0 <= k < i ==> out@[k]@ == members_view(m@)[k].1,
                    decreases m.len() - i,
                {
                    out.push(&m[i].1);
                    i = i + 1;
                }
            },
            _ => {},
        }
        out
    }
}

impl Clone for NbtValue {
    fn clone(&self) -> Self {
        self.deep_copy()
    }
}

impl From<bool> for NbtValue {
    fn from(value: bool) -> Self {
        NbtValue::Byte(if value { 1 } else { 0 })
    }
}

impl vstd::std_specs::convert::FromSpecImpl<bool> for NbtValue {
    open spec fn obeys_from_spec() -> bool {
        true
    }

    open spec fn from_spec(value: bool) -> Self {
        NbtValue::Byte(if value { 1 } else { 0 })
    }
}

impl From<i8> for NbtValue {
    fn from(value: i8) -> Self {
        NbtValue::Byte(value)
    }
}

impl vstd::std_specs::convert::FromSpecImpl<i8> for NbtValue {
    open spec fn obeys_from_spec() -> bool {
        true
    }

    open spec fn from_spec(value: i8) -> Self {
        NbtValue::Byte(value)
    }
}

impl From<i16> for NbtValue {
    fn from(value: i16) -> Self {
        NbtValue::Short(value)
    }
}

impl vstd::std_specs::convert::FromSpecImpl<i16> for NbtValue {
    open spec fn obeys_from_spec() -> bool {
        true
    }

    open spec fn from_spec(value: i16) -> Self {
        NbtValue::Short(value)
    }
}

impl From<i32> for NbtValue {
    fn from(value: i32) -> Self {
        NbtValue::Int(value)
    }
}

impl vstd::std_specs::convert::FromSpecImpl<i32> for NbtValue {
    open spec fn obeys_from_spec() -> bool {
        true
    }

    open spec fn from_spec(value: i32) -> Self {
        NbtValue::Int(value)
    }
}

impl From<i64> for NbtValue {
    fn from(value: i64) -> Self {
        NbtValue::Long(value)
    }
}

impl vstd::std_specs::convert::FromSpecImpl<i64> for NbtValue {
    open spec fn obeys_from_spec() -> bool {
        true
    }

    open spec fn from_spec(value: i64) -> Self {
        NbtValue::Long(value)
    }
}

impl From<String> for NbtValue {
    fn from(value: String) -> Self {
        NbtValue::String(value)
    }
}

impl vstd::std_specs::convert::FromSpecImpl<String> for NbtValue {
    open spec fn obeys_from_spec() -> bool {
        true
    }

    open spec fn from_spec(value: String) -> Self {
        NbtValue::String(value)
    }
}

impl From<Vec<i8>> for NbtValue {
    fn from(value: Vec<i8>) -> Self {
        NbtValue::ByteArray(value)
    }
}

impl vstd::std_specs::convert::FromSpecImpl<Vec<i8>> for NbtValue {
    open spec fn obeys_from_spec() -> bool {
        true
    }

    open spec fn from_spec(value: Vec<i8>) -> Self {
        NbtValue::ByteArray(value)
    }
}

impl From<Vec<i32>> for NbtValue {
    fn from(value: Vec<i32>) -> Self {
        NbtValue::IntArray(value)
    }
}

impl vstd::std_specs::convert::FromSpecImpl<Vec<i32>> for NbtValue {
    open spec fn obeys_from_spec() -> bool {
        true
    }

    open spec fn from_spec(value: Vec<i32>) -> Self {
        NbtValue::IntArray(value)
    }
}

impl From<Vec<i64>> for NbtValue {
    fn from(value: Vec<i64>) -> Self {
        NbtValue::LongArray(value)
    }
}

impl vstd::std_specs::convert::FromSpecImpl<Vec<i64>> for NbtValue {
    open spec fn obeys_from_spec() -> bool {
        true
    }

    open spec fn from_spec(value: Vec<i64>) -> Self {
        NbtValue::LongArray(value)
    }
}

impl From<Vec<NbtValue>> for NbtValue {
    fn from(value: Vec<NbtValue>) -> Self {
        NbtValue::List(value)
    }
}

impl vstd::std_specs::convert::FromSpecImpl<Vec<NbtValue>> for NbtValue {
    open spec fn obeys_from_spec() -> bool {
        true
    }

    open spec fn from_spec(value: Vec<NbtValue>) -> Self {
        NbtValue::List(value)
    }
}

impl From<Vec<(String, NbtValue)>> for NbtValue {
    fn from(value: Vec<(String, NbtValue)>) -> Self {
        NbtValue::Compound(value)
    }
}

impl vstd::std_specs::convert::FromSpecImpl<Vec<(String, NbtValue)>> for NbtValue {
    open spec fn obeys_from_spec() -> bool {
        true
    }

    open spec fn from_spec(value: Vec<(String, NbtValue)>) -> Self {
        NbtValue::Compound(value)
    }
}

// A spec function cannot build a `String`, so the conversions from text state
// nothing through `from_spec`; `NbtValue::text`, which they call, states the
// result.
impl From<&str> for NbtValue {
    fn from(value: &str) -> Self {
        NbtValue::text(value)
    }
}

impl vstd::std_specs::convert::FromSpecImpl<&str> for NbtValue {
    open spec fn obeys_from_spec() -> bool {
        false
    }

    closed spec fn from_spec(value: &str) -> Self {
        NbtValue::End
    }
}

impl From<&String> for NbtValue {
    fn from(value: &String) -> Self {
        NbtValue::text(value.as_str())
    }
}

impl vstd::std_specs::convert::FromSpecImpl<&String> for NbtValue {
    open spec fn obeys_from_spec() -> bool {
        false
    }

    closed spec fn from_spec(value: &String) -> Self {
        NbtValue::End
    }
}

} // verus!
