//! What holds of the codec as a whole: decoding what was encoded gives the
//! value back, in either edition.
use vstd::prelude::*;
use vstd::utf8::{encode_utf8, encode_utf8_decode_utf8, encode_utf8_valid_utf8};
use crate::format::{
    ReadFault,
    distinct_keys, encode_bytes, encode_document, encode_ints, encode_items, encode_longs,
    encode_members, encode_named, encode_root, encode_value, has_key, items_fault,
    list_tag, max_count, items_well_formed, members_well_formed, members_fault, merge_members, num_at, parse_document,
    parse_items, parse_members, parse_named, parse_text, parse_value, text_bytes,
    text_fault, value_fault, well_formed, document_fault, WriteFault,
};
use crate::num::{
    i16_bits, i32_bits, i32_from, i64_bits, i64_from, i8_bits, i8_from, lemma_pow256_values,
    lemma_uint_round_trip, pow256, uint_bytes, uint_of,
};
use crate::text::text_of;
use crate::types::{empty_of, is_tag_code, tag_of, Endian, NbtTree};

verus! {

broadcast use {encode_utf8_decode_utf8, encode_utf8_valid_utf8};

/// Every tag code of the table names a variant whose code it is.
pub proof fn lemma_tag_code_bijection(code: u8)
    requires
        is_tag_code(code),
    ensures
        tag_of(empty_of(code)) == code,
{
}

/// `d[p..]` starts with `a + b`, so `d[p..]` starts with `a` and `d[p + |a|..]` with `b`.
proof fn lemma_split(d: Seq<u8>, p: int, a: Seq<u8>, b: Seq<u8>)
    requires
        0 <= p,
        p + a.len() + b.len() <= d.len(),
        d.subrange(p, p + a.len() + b.len()) == a + b,
    ensures
        d.subrange(p, p + a.len()) == a,
        d.subrange(p + a.len(), p + a.len() + b.len()) == b,
{
    assert(d.subrange(p, p + a.len()) =~= (a + b).subrange(0, a.len() as int));
    assert(d.subrange(p + a.len(), p + a.len() + b.len()) =~= (a + b).subrange(
        a.len() as int,
        (a.len() + b.len()) as int,
    ));
    assert((a + b).subrange(0, a.len() as int) =~= a);
    assert((a + b).subrange(a.len() as int, (a.len() + b.len()) as int) =~= b);
}

proof fn lemma_num_round_trip(d: Seq<u8>, p: int, x: nat, n: nat, e: Endian)
    requires
        x < pow256(n),
        0 <= p,
        p + uint_bytes(x, n, e).len() <= d.len(),
        d.subrange(p, p + uint_bytes(x, n, e).len()) == uint_bytes(x, n, e),
    ensures
        uint_bytes(x, n, e).len() == n,
        num_at(d, p, n as int, e) == x,
{
    lemma_uint_round_trip(x, n, e);
}

proof fn lemma_text_round_trip(s: Seq<char>, d: Seq<u8>, p: int, e: Endian)
    requires
        text_fault(s) is None,
        0 <= p,
        p + text_bytes(s, e).len() <= d.len(),
        d.subrange(p, p + text_bytes(s, e).len()) == text_bytes(s, e),
    ensures
        parse_text(d, p, e) == Ok::<(Seq<char>, int), crate::format::ReadFault>(
            (s, p + text_bytes(s, e).len()),
        ),
{
    let b = encode_utf8(s);
    let h = uint_bytes(b.len(), 2, e);
    lemma_pow256_values();
    lemma_uint_round_trip(b.len(), 2, e);
    lemma_split(d, p, h, b);
    lemma_num_round_trip(d, p, b.len(), 2, e);
    assert(text_of(b) == s);
}

proof fn lemma_bytes_shape(a: Seq<i8>, i: int)
    requires
        0 <= i <= a.len(),
    ensures
        encode_bytes(a, i).len() == a.len() - i,
        forall|k: int| 0 <= k < a.len() - i ==> encode_bytes(a, i)[k] == i8_bits(a[i + k]) as u8,
    decreases a.len() - i,
{
    if i < a.len() {
        lemma_bytes_shape(a, i + 1);
        assert forall|k: int| 0 <= k < a.len() - i implies encode_bytes(a, i)[k] == i8_bits(a[i + k]) as u8 by {
            if k > 0 {
                assert(encode_bytes(a, i)[k] == encode_bytes(a, i + 1)[k - 1]);
            }
        }
    }
}

proof fn lemma_ints_shape(a: Seq<i32>, i: int, e: Endian)
    requires
        0 <= i <= a.len(),
    ensures
        encode_ints(a, i, e).len() == 4 * (a.len() - i),
        forall|k: int|
            0 <= k < a.len() - i ==> #[trigger] encode_ints(a, i, e).subrange(4 * k, 4 * k + 4)
                == uint_bytes(i32_bits(a[i + k]), 4, e),
    decreases a.len() - i,
{
    lemma_pow256_values();
    if i < a.len() {
        lemma_ints_shape(a, i + 1, e);
        let h = uint_bytes(i32_bits(a[i]), 4, e);
        let r = encode_ints(a, i + 1, e);
        lemma_uint_round_trip(i32_bits(a[i]), 4, e);
        assert forall|k: int| 0 <= k < a.len() - i implies #[trigger] encode_ints(a, i, e).subrange(
            4 * k,
            4 * k + 4,
        ) == uint_bytes(i32_bits(a[i + k]), 4, e) by {
            if k == 0 {
                assert((h + r).subrange(0, 4) =~= h);
            } else {
                assert((h + r).subrange(4 * k, 4 * k + 4) =~= r.subrange(4 * (k - 1), 4 * (k - 1) + 4));
                assert(a[i + k] == a[(i + 1) + (k - 1)]);
            }
        }
    }
}

proof fn lemma_longs_shape(a: Seq<i64>, i: int, e: Endian)
    requires
        0 <= i <= a.len(),
    ensures
        encode_longs(a, i, e).len() == 8 * (a.len() - i),
        forall|k: int|
            0 <= k < a.len() - i ==> #[trigger] encode_longs(a, i, e).subrange(8 * k, 8 * k + 8)
                == uint_bytes(i64_bits(a[i + k]), 8, e),
    decreases a.len() - i,
{
    lemma_pow256_values();
    if i < a.len() {
        lemma_longs_shape(a, i + 1, e);
        let h = uint_bytes(i64_bits(a[i]), 8, e);
        let r = encode_longs(a, i + 1, e);
        lemma_uint_round_trip(i64_bits(a[i]), 8, e);
        assert forall|k: int| 0 <= k < a.len() - i implies #[trigger] encode_longs(a, i, e).subrange(
            8 * k,
            8 * k + 8,
        ) == uint_bytes(i64_bits(a[i + k]), 8, e) by {
            if k == 0 {
                assert((h + r).subrange(0, 8) =~= h);
            } else {
                assert((h + r).subrange(8 * k, 8 * k + 8) =~= r.subrange(8 * (k - 1), 8 * (k - 1) + 8));
                assert(a[i + k] == a[(i + 1) + (k - 1)]);
            }
        }
    }
}

/// Inserting the members of a compound with distinct names, in order, builds
/// that compound.
proof fn lemma_merge_distinct(m: Seq<(Seq<char>, NbtTree)>)
    requires
        distinct_keys(m),
    ensures
        merge_members(m) == m,
    decreases m.len(),
{
    if m.len() > 0 {
        let w = m.drop_last();
        assert(distinct_keys(w));
        lemma_merge_distinct(w);
        assert(!has_key(w, m.last().0)) by {
            if has_key(w, m.last().0) {
                let i = choose|i: int| 0 <= i < w.len() && w[i].0 == m.last().0;
                assert(m[i].0 == m[m.len() - 1].0);
            }
        }
        assert(w.push(m.last()) =~= m);
    }
}


proof fn lemma_single_byte(b: u8, e: Endian)
    ensures
        uint_of(seq![b], e) == b,
{
    reveal_with_fuel(crate::num::be_nat, 2);
    reveal_with_fuel(crate::num::le_nat, 2);
    assert(seq![b].drop_last() =~= Seq::<u8>::empty());
    assert(seq![b].subrange(1, 1) =~= Seq::<u8>::empty());
}

/// The payload written for a value decodes, under the same byte order and its
/// own tag code, to that value, ending where the payload ends.
proof fn lemma_value_round_trip(t: NbtTree, d: Seq<u8>, p: int, e: Endian)
    requires
        well_formed(t),
        value_fault(t) is None,
        0 <= p,
        p + encode_value(t, e).len() <= d.len(),
        d.subrange(p, p + encode_value(t, e).len()) == encode_value(t, e),
    ensures
        parse_value(d, p, tag_of(t), e) == Ok::<(NbtTree, int), ReadFault>(
            (t, p + encode_value(t, e).len()),
        ),
    decreases t, 0int,
{
    lemma_pow256_values();
    let enc = encode_value(t, e);
    match t {
        NbtTree::End => {},
        NbtTree::Byte(x) => {
            lemma_single_byte(i8_bits(x) as u8, e);
        },
        NbtTree::Short(x) => {
            lemma_num_round_trip(d, p, i16_bits(x), 2, e);
        },
        NbtTree::Int(x) => {
            lemma_num_round_trip(d, p, i32_bits(x), 4, e);
        },
        NbtTree::Long(x) => {
            lemma_num_round_trip(d, p, i64_bits(x), 8, e);
        },
        NbtTree::Float(x) => {
            lemma_num_round_trip(d, p, x as nat, 4, e);
        },
        NbtTree::Double(x) => {
            lemma_num_round_trip(d, p, x as nat, 8, e);
        },
        NbtTree::ByteArray(a) => {
            let h = uint_bytes(a.len(), 4, e);
            let body = encode_bytes(a, 0);
            lemma_uint_round_trip(a.len(), 4, e);
            lemma_split(d, p, h, body);
            lemma_num_round_trip(d, p, a.len(), 4, e);
            lemma_bytes_shape(a, 0);
            let q = p + 4;
            assert forall|k: int| 0 <= k < a.len() implies i8_from(d[q + k] as nat) == a[k] by {
                assert(d.subrange(q, q + a.len())[k] == body[k]);
            }
            assert(Seq::new(a.len(), |k: int| i8_from(d[q + k] as nat)) =~= a);
        },
        NbtTree::IntArray(a) => {
            let h = uint_bytes(a.len(), 4, e);
            let body = encode_ints(a, 0, e);
            lemma_uint_round_trip(a.len(), 4, e);
            lemma_split(d, p, h, body);
            lemma_num_round_trip(d, p, a.len(), 4, e);
            lemma_ints_shape(a, 0, e);
            let q = p + 4;
            assert forall|k: int| 0 <= k < a.len() implies i32_from(num_at(d, q + 4 * k, 4, e)) == a[k] by {
                assert(d.subrange(q + 4 * k, q + 4 * k + 4) =~= d.subrange(q, q + 4 * a.len()).subrange(
                    4 * k,
                    4 * k + 4,
                ));
                assert(body.subrange(4 * k, 4 * k + 4) == uint_bytes(i32_bits(a[0 + k]), 4, e));
                lemma_num_round_trip(d, q + 4 * k, i32_bits(a[k]), 4, e);
            }
            assert(Seq::new(a.len(), |k: int| i32_from(num_at(d, q + 4 * k, 4, e))) =~= a);
        },
        NbtTree::LongArray(a) => {
            let h = uint_bytes(a.len(), 4, e);
            let body = encode_longs(a, 0, e);
            lemma_uint_round_trip(a.len(), 4, e);
            lemma_split(d, p, h, body);
            lemma_num_round_trip(d, p, a.len(), 4, e);
            lemma_longs_shape(a, 0, e);
            let q = p + 4;
            assert forall|k: int| 0 <= k < a.len() implies i64_from(num_at(d, q + 8 * k, 8, e)) == a[k] by {
                assert(d.subrange(q + 8 * k, q + 8 * k + 8) =~= d.subrange(q, q + 8 * a.len()).subrange(
                    8 * k,
                    8 * k + 8,
                ));
                assert(body.subrange(8 * k, 8 * k + 8) == uint_bytes(i64_bits(a[0 + k]), 8, e));
                lemma_num_round_trip(d, q + 8 * k, i64_bits(a[k]), 8, e);
            }
            assert(Seq::new(a.len(), |k: int| i64_from(num_at(d, q + 8 * k, 8, e))) =~= a);
        },
        NbtTree::Str(s) => {
            lemma_text_round_trip(s, d, p, e);
        },
        NbtTree::List(items) => {
            let h0 = seq![list_tag(items)];
            let h1 = uint_bytes(items.len(), 4, e);
            let body = encode_items(items, 0, e);
            lemma_uint_round_trip(items.len(), 4, e);
            assert(enc == h0 + h1 + body);
            lemma_split(d, p, h0 + h1, body);
            lemma_split(d, p, h0, h1);
            assert(d[p] == list_tag(items)) by {
                assert(d.subrange(p, p + 1)[0] == h0[0]);
            }
            lemma_num_round_trip(d, p + 1, items.len(), 4, e);
            if items.len() == 0 {
                assert(items =~= Seq::<NbtTree>::empty());
            } else {
                lemma_items_round_trip(items, 0, d, p + 5, e);
                assert(items.subrange(0, items.len() as int) =~= items);
            }
        },
        NbtTree::Compound(m) => {
            lemma_members_round_trip(m, 0, d, p, e);
            assert(m.subrange(0, m.len() as int) =~= m);
            lemma_merge_distinct(m);
        },
    }
}

/// The payloads written for `items[i..]` decode, one after another, to those
/// elements.
proof fn lemma_items_round_trip(items: Seq<NbtTree>, i: int, d: Seq<u8>, q: int, e: Endian)
    requires
        0 <= i <= items.len(),
        items.len() > 0,
        items_well_formed(items, i),
        items_fault(items, i) is None,
        0 <= q,
        q + encode_items(items, i, e).len() <= d.len(),
        d.subrange(q, q + encode_items(items, i, e).len()) == encode_items(items, i, e),
    ensures
        parse_items(d, q, tag_of(items[0]), (items.len() - i) as nat, e) == Ok::<
            (Seq<NbtTree>, int),
            ReadFault,
        >((items.subrange(i, items.len() as int), q + encode_items(items, i, e).len())),
    decreases items, items.len() - i,
{
    if i < items.len() {
        let v = items[i];
        let ev = encode_value(v, e);
        let rest = encode_items(items, i + 1, e);
        lemma_split(d, q, ev, rest);
        lemma_value_round_trip(v, d, q, e);
        lemma_items_round_trip(items, i + 1, d, q + ev.len(), e);
        assert(seq![v] + items.subrange(i + 1, items.len() as int) =~= items.subrange(
            i,
            items.len() as int,
        ));
    } else {
        assert(items.subrange(i, items.len() as int) =~= Seq::<NbtTree>::empty());
    }
}

/// A named tag decodes to its name and value.
proof fn lemma_named_round_trip(k: Seq<char>, v: NbtTree, d: Seq<u8>, q: int, e: Endian)
    requires
        !(v is End),
        well_formed(v),
        text_fault(k) is None,
        value_fault(v) is None,
        0 <= q,
        q + encode_named(k, v, e).len() <= d.len(),
        d.subrange(q, q + encode_named(k, v, e).len()) == encode_named(k, v, e),
    ensures
        parse_named(d, q, e) == Ok::<(Seq<char>, NbtTree, int), ReadFault>(
            (k, v, q + encode_named(k, v, e).len()),
        ),
    decreases v, 1int,
{
    let h = seq![tag_of(v)];
    let tb = text_bytes(k, e);
    let ev = encode_value(v, e);
    assert(encode_named(k, v, e) == h + tb + ev);
    lemma_split(d, q, h + tb, ev);
    lemma_split(d, q, h, tb);
    assert(d[q] == tag_of(v)) by {
        assert(d.subrange(q, q + 1)[0] == h[0]);
    }
    lemma_text_round_trip(k, d, q + 1, e);
    lemma_value_round_trip(v, d, q + 1 + tb.len(), e);
}

/// The named tags written for `m[i..]`, then the End marker, decode to those
/// members.
proof fn lemma_members_round_trip(m: Seq<(Seq<char>, NbtTree)>, i: int, d: Seq<u8>, q: int, e: Endian)
    requires
        0 <= i <= m.len(),
        members_well_formed(m, i),
        members_fault(m, i) is None,
        0 <= q,
        q + encode_members(m, i, e).len() + 1 <= d.len(),
        d.subrange(q, q + encode_members(m, i, e).len() + 1) == encode_members(m, i, e) + seq![0u8],
    ensures
        parse_members(d, q, e) == Ok::<(Seq<(Seq<char>, NbtTree)>, int), ReadFault>(
            (m.subrange(i, m.len() as int), q + encode_members(m, i, e).len() + 1),
        ),
    decreases m, m.len() - i,
{
    if i < m.len() {
        let k = m[i].0;
        let v = m[i].1;
        let en = encode_named(k, v, e);
        let rest = encode_members(m, i + 1, e);
        assert(en + rest + seq![0u8] =~= en + (rest + seq![0u8]));
        lemma_split(d, q, en, rest + seq![0u8]);
        lemma_named_round_trip(k, v, d, q, e);
        assert(!(v is End));
        assert(en.len() > 0);
        lemma_members_round_trip(m, i + 1, d, q + en.len(), e);
        assert(parse_named(d, q, e) == Ok::<(Seq<char>, NbtTree, int), ReadFault>((k, v, q + en.len())));
        assert(seq![(k, v)] + m.subrange(i + 1, m.len() as int) =~= m.subrange(i, m.len() as int));
    } else {
        assert(d[q] == 0) by {
            assert(d.subrange(q, q + 1)[0] == (encode_members(m, i, e) + seq![0u8])[0]);
        }
        assert(m.subrange(i, m.len() as int) =~= Seq::<(Seq<char>, NbtTree)>::empty());
    }
}

/// Decoding the payload written for a value, under the same byte order and
/// the value's own tag code, gives the value back and ends where the payload
/// ends.
pub proof fn lemma_payload_round_trip(t: NbtTree, e: Endian)
    requires
        well_formed(t),
        value_fault(t) is None,
    ensures
        parse_value(encode_value(t, e), 0, tag_of(t), e) == Ok::<(NbtTree, int), ReadFault>(
            (t, encode_value(t, e).len() as int),
        ),
{
    let d = encode_value(t, e);
    assert(d.subrange(0, d.len() as int) =~= d);
    lemma_value_round_trip(t, d, 0, e);
}

/// The name that a document's root decodes with: End, which is written
/// without a name, decodes with the empty one.
pub open spec fn decoded_name(name: Seq<char>, t: NbtTree) -> Seq<char> {
    if t is End {
        Seq::empty()
    } else {
        name
    }
}

/// Decoding a document that was encoded, under the same byte order, gives
/// back its root value (and its name, which End does not carry).
pub proof fn lemma_document_round_trip(name: Seq<char>, t: NbtTree, e: Endian)
    requires
        well_formed(t),
        document_fault(name, t, e) is None,
    ensures
        parse_document(encode_document(name, t, e), 0, e) == Ok::<(Seq<char>, NbtTree), ReadFault>(
            (decoded_name(name, t), t),
        ),
{
    lemma_pow256_values();
    let root = encode_root(name, t, e);
    let doc = encode_document(name, t, e);
    let q: int = if e == Endian::Little { 8 } else { 0 };
    lemma_uint_round_trip(3, 4, e);
    if e == Endian::Little {
        lemma_uint_round_trip(root.len(), 4, e);
    }
    assert(doc.len() == q + root.len());
    assert(doc.subrange(q, q + root.len()) == root) by {
        if e == Endian::Little {
            let h = uint_bytes(3, 4, e) + uint_bytes(root.len(), 4, e);
            assert(doc =~= h + root);
            assert(doc.subrange(0, doc.len() as int) =~= doc);
            lemma_split(doc, 0, h, root);
        } else {
            assert(doc.subrange(0, root.len() as int) =~= root);
        }
    }
    if t is End {
        assert(doc[q] == 0) by {
            assert(doc.subrange(q, q + 1)[0] == root[0]);
        }
    } else {
        lemma_named_round_trip(name, t, doc, q, e);
    }
}


proof fn lemma_uint_bytes_len(x: nat, n: nat, e: Endian)
    ensures
        uint_bytes(x, n, e).len() == n,
    decreases n,
{
    if n > 0 {
        lemma_uint_bytes_len(x / 256, (n - 1) as nat, e);
    }
}

/// Writing a value takes as many bytes in either byte order.
proof fn lemma_value_len(t: NbtTree)
    ensures
        encode_value(t, Endian::Big).len() == encode_value(t, Endian::Little).len(),
    decreases t, 0int,
{
    match t {
        NbtTree::Short(x) => {
            lemma_uint_bytes_len(i16_bits(x), 2, Endian::Big);
            lemma_uint_bytes_len(i16_bits(x), 2, Endian::Little);
        },
        NbtTree::Int(x) => {
            lemma_uint_bytes_len(i32_bits(x), 4, Endian::Big);
            lemma_uint_bytes_len(i32_bits(x), 4, Endian::Little);
        },
        NbtTree::Long(x) => {
            lemma_uint_bytes_len(i64_bits(x), 8, Endian::Big);
            lemma_uint_bytes_len(i64_bits(x), 8, Endian::Little);
        },
        NbtTree::Float(x) => {
            lemma_uint_bytes_len(x as nat, 4, Endian::Big);
            lemma_uint_bytes_len(x as nat, 4, Endian::Little);
        },
        NbtTree::Double(x) => {
            lemma_uint_bytes_len(x as nat, 8, Endian::Big);
            lemma_uint_bytes_len(x as nat, 8, Endian::Little);
        },
        NbtTree::ByteArray(a) => {
            lemma_uint_bytes_len(a.len(), 4, Endian::Big);
            lemma_uint_bytes_len(a.len(), 4, Endian::Little);
        },
        NbtTree::Str(s) => {
            lemma_uint_bytes_len(encode_utf8(s).len(), 2, Endian::Big);
            lemma_uint_bytes_len(encode_utf8(s).len(), 2, Endian::Little);
        },
        NbtTree::IntArray(a) => {
            lemma_uint_bytes_len(a.len(), 4, Endian::Big);
            lemma_uint_bytes_len(a.len(), 4, Endian::Little);
            lemma_ints_shape(a, 0, Endian::Big);
            lemma_ints_shape(a, 0, Endian::Little);
        },
        NbtTree::LongArray(a) => {
            lemma_uint_bytes_len(a.len(), 4, Endian::Big);
            lemma_uint_bytes_len(a.len(), 4, Endian::Little);
            lemma_longs_shape(a, 0, Endian::Big);
            lemma_longs_shape(a, 0, Endian::Little);
        },
        NbtTree::List(items) => {
            lemma_uint_bytes_len(items.len(), 4, Endian::Big);
            lemma_uint_bytes_len(items.len(), 4, Endian::Little);
            lemma_items_len(items, 0);
        },
        NbtTree::Compound(m) => {
            lemma_members_len(m, 0);
        },
        _ => {},
    }
}

proof fn lemma_items_len(items: Seq<NbtTree>, i: int)
    ensures
        encode_items(items, i, Endian::Big).len() == encode_items(items, i, Endian::Little).len(),
    decreases items, items.len() - i,
{
    if 0 <= i < items.len() {
        lemma_value_len(items[i]);
        lemma_items_len(items, i + 1);
    }
}

proof fn lemma_named_len(k: Seq<char>, v: NbtTree)
    ensures
        encode_named(k, v, Endian::Big).len() == encode_named(k, v, Endian::Little).len(),
    decreases v, 1int,
{
    lemma_uint_bytes_len(encode_utf8(k).len(), 2, Endian::Big);
    lemma_uint_bytes_len(encode_utf8(k).len(), 2, Endian::Little);
    lemma_value_len(v);
}

proof fn lemma_members_len(m: Seq<(Seq<char>, NbtTree)>, i: int)
    ensures
        encode_members(m, i, Endian::Big).len() == encode_members(m, i, Endian::Little).len(),
    decreases m, m.len() - i,
{
    if 0 <= i < m.len() {
        lemma_named_len(m[i].0, m[i].1);
        lemma_members_len(m, i + 1);
    }
}

/// The two editions write the same document differently, and decoding each
/// under its own byte order gives the same root back.
pub proof fn lemma_endian_symmetry(name: Seq<char>, t: NbtTree)
    requires
        well_formed(t),
        document_fault(name, t, Endian::Big) is None,
        document_fault(name, t, Endian::Little) is None,
    ensures
        encode_document(name, t, Endian::Big) != encode_document(name, t, Endian::Little),
        parse_document(encode_document(name, t, Endian::Big), 0, Endian::Big) == parse_document(
            encode_document(name, t, Endian::Little),
            0,
            Endian::Little,
        ),
        parse_document(encode_document(name, t, Endian::Big), 0, Endian::Big) == Ok::<
            (Seq<char>, NbtTree),
            ReadFault,
        >((decoded_name(name, t), t)),
        encode_document(name, t, Endian::Little).len() == encode_document(name, t, Endian::Big).len()
            + 8,
{
    lemma_document_round_trip(name, t, Endian::Big);
    lemma_document_round_trip(name, t, Endian::Little);
    if !(t is End) {
        lemma_named_len(name, t);
    }
    let root = encode_root(name, t, Endian::Little);
    lemma_uint_bytes_len(3, 4, Endian::Little);
    lemma_uint_bytes_len(root.len(), 4, Endian::Little);
    assert(encode_document(name, t, Endian::Little).len() == encode_document(name, t, Endian::Big).len() + 8);
}

/// An empty list is written with the End element code and a count of zero,
/// whatever element type it was meant to have; and a count of zero decodes to
/// the empty list whatever element code precedes it.
pub proof fn lemma_empty_list(et: u8, e: Endian)
    ensures
        encode_value(NbtTree::List(Seq::empty()), e) == seq![0u8, 0u8, 0u8, 0u8, 0u8],
        parse_value(seq![et, 0u8, 0u8, 0u8, 0u8], 0, 9, e) == Ok::<(NbtTree, int), ReadFault>(
            (NbtTree::List(Seq::empty()), 5),
        ),
{
    reveal_with_fuel(crate::num::be_bytes, 5);
    reveal_with_fuel(crate::num::le_bytes, 5);
    reveal_with_fuel(crate::num::be_nat, 5);
    reveal_with_fuel(crate::num::le_nat, 5);
    let z = seq![0u8, 0u8, 0u8, 0u8];
    assert(uint_bytes(0, 4, e) =~= z);
    assert(encode_value(NbtTree::List(Seq::empty()), e) =~= seq![0u8, 0u8, 0u8, 0u8, 0u8]);
    let d = seq![et, 0u8, 0u8, 0u8, 0u8];
    assert(d.subrange(1, 5) =~= z);
    lemma_pow256_values();
    lemma_uint_round_trip(0, 4, e);
}

proof fn lemma_items_fault_mixed(items: Seq<NbtTree>, k: int, w: int)
    requires
        0 <= k <= w < items.len(),
        tag_of(items[w]) != tag_of(items[0]),
        forall|j: int| 0 <= j < items.len() ==> #[trigger] value_fault(items[j]) is None,
    ensures
        items_fault(items, k) matches Some(WriteFault::MixedList(c)) && c != tag_of(items[0]),
    decreases w - k,
{
    if tag_of(items[k]) == tag_of(items[0]) {
        assert(value_fault(items[k]) is None);
        lemma_items_fault_mixed(items, k + 1, w);
    }
}

/// A list holding elements of two different tag codes, each of which could
/// be written on its own, cannot be written: the fault is a mixed list,
/// reported with the first code that differs from the first element's (see
/// `NbtWriter::write_nbt_value`, which then writes nothing).
pub proof fn lemma_mixed_list_rejected(items: Seq<NbtTree>, i: int, j: int)
    requires
        items.len() <= max_count(),
        0 <= i < items.len(),
        0 <= j < items.len(),
        tag_of(items[i]) != tag_of(items[j]),
        forall|k: int| 0 <= k < items.len() ==> #[trigger] value_fault(items[k]) is None,
    ensures
        value_fault(NbtTree::List(items)) matches Some(WriteFault::MixedList(c)) && c != tag_of(
            items[0],
        ),
{
    if tag_of(items[i]) != tag_of(items[0]) {
        lemma_items_fault_mixed(items, 0, i);
    } else {
        lemma_items_fault_mixed(items, 0, j);
    }
}

/// A little-endian document that was read and is written again starts with
/// the same four-byte format tag (`03 00 00 00`) as the one read, and its
/// length field holds the exact byte length of the root that follows it.
pub proof fn lemma_little_header_rewritten(d: Seq<u8>, name: Seq<char>, t: NbtTree)
    requires
        d.len() >= 4,
        d.subrange(0, 4) == seq![3u8, 0u8, 0u8, 0u8],
        parse_document(d, 0, Endian::Little) == Ok::<(Seq<char>, NbtTree), ReadFault>((name, t)),
        well_formed(t),
        document_fault(name, t, Endian::Little) is None,
    ensures
        encode_document(name, t, Endian::Little).len() >= 8,
        encode_document(name, t, Endian::Little).subrange(0, 4) == d.subrange(0, 4),
        encode_document(name, t, Endian::Little).subrange(4, 8) == uint_bytes(
            (encode_document(name, t, Endian::Little).len() - 8) as nat,
            4,
            Endian::Little,
        ),
        uint_of(encode_document(name, t, Endian::Little).subrange(4, 8), Endian::Little)
            == encode_document(name, t, Endian::Little).len() - 8,
        encode_document(name, t, Endian::Little).len() - 8 == encode_root(name, t, Endian::Little).len(),
{
    let e = Endian::Little;
    let root = encode_root(name, t, e);
    let doc = encode_document(name, t, e);
    let h0 = uint_bytes(3, 4, e);
    let h1 = uint_bytes(root.len(), 4, e);
    lemma_pow256_values();
    lemma_uint_round_trip(3, 4, e);
    lemma_uint_round_trip(root.len(), 4, e);
    reveal_with_fuel(crate::num::le_bytes, 5);
    assert(h0 =~= seq![3u8, 0u8, 0u8, 0u8]);
    assert(doc == h0 + h1 + root);
    assert(doc.subrange(0, 4) =~= h0);
    assert(doc.subrange(4, 8) =~= h1);
}

} // verus!
