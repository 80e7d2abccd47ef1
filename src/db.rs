//! Player records of a world's key-value store: which keys hold them, how a
//! record decodes, and the block compressors the store is opened with.
use vstd::prelude::*;
use crate::format::parse_root;
use crate::reader::NbtReader;
use crate::types::{lemma_members_view, Endian, NbtTree, NbtValue};
use crate::value::members_of;

verus! {

broadcast use lemma_members_view;

/// Relies on miniz_oxide::inflate::DecompressError only as an opaque error value.
#[verifier::external_type_specification]
#[verifier::external_body]
pub struct ExDecompressError(miniz_oxide::inflate::DecompressError);

/// What miniz_oxide's `compress_to_vec_zlib` makes of a block at a level.
pub uninterp spec fn zlib_block(b: Seq<u8>, level: u8) -> Seq<u8>;

/// What miniz_oxide's `compress_to_vec` makes of a block at a level.
pub uninterp spec fn deflate_block(b: Seq<u8>, level: u8) -> Seq<u8>;

/// What miniz_oxide's `decompress_to_vec_zlib` decodes from a block, or
/// `None` where it reports an error.
pub uninterp spec fn zlib_unblock(b: Seq<u8>) -> Option<Seq<u8>>;

/// What miniz_oxide's `decompress_to_vec` decodes from a block, or `None`
/// where it reports an error.
pub uninterp spec fn deflate_unblock(b: Seq<u8>) -> Option<Seq<u8>>;

/// Relies on miniz_oxide::deflate::compress_to_vec_zlib: its output depends on
/// the block and the level alone.
#[verifier::external_body]
fn compress_zlib(b: &[u8], level: u8) -> (r: Vec<u8>)
    ensures
        r@ == zlib_block(b@, level),
{
    miniz_oxide::deflate::compress_to_vec_zlib(b, level)
}

/// Relies on miniz_oxide::deflate::compress_to_vec: its output depends on the
/// block and the level alone.
#[verifier::external_body]
fn compress_raw(b: &[u8], level: u8) -> (r: Vec<u8>)
    ensures
        r@ == deflate_block(b@, level),
{
    miniz_oxide::deflate::compress_to_vec(b, level)
}

/// Relies on miniz_oxide::inflate::decompress_to_vec_zlib: whether it fails
/// and what it decodes depend on the block alone.
#[verifier::external_body]
fn decompress_zlib(b: &[u8]) -> (r: Result<Vec<u8>, miniz_oxide::inflate::DecompressError>)
    ensures
        match zlib_unblock(b@) {
            Some(s) => r matches Ok(v) && v@ == s,
            None => r is Err,
        },
{
    miniz_oxide::inflate::decompress_to_vec_zlib(b)
}

/// Relies on miniz_oxide::inflate::decompress_to_vec: whether it fails and
/// what it decodes depend on the block alone.
#[verifier::external_body]
fn decompress_raw(b: &[u8]) -> (r: Result<Vec<u8>, miniz_oxide::inflate::DecompressError>)
    ensures
        match deflate_unblock(b@) {
            Some(s) => r matches Ok(v) && v@ == s,
            None => r is Err,
        },
{
    miniz_oxide::inflate::decompress_to_vec(b)
}

/// Block compression with a zlib wrapper, at a level from 0 to 10.
pub struct ZlibCompressor(u8);

impl ZlibCompressor {
    pub closed spec fn level(&self) -> u8 {
        self.0
    }

    /// A compressor at `level` (0 to 10).
    pub fn new(level: u8) -> (r: Self)
        requires
            level <= 10,
        ensures
            r.level() == level,
    {
        ZlibCompressor(level)
    }

    pub fn encode(&self, block: Vec<u8>) -> (r: Vec<u8>)
        ensures
            r@ == zlib_block(block@, self.level()),
    {
        compress_zlib(block.as_slice(), self.0)
    }

    pub fn decode(&self, block: Vec<u8>) -> (r: Result<Vec<u8>, miniz_oxide::inflate::DecompressError>)
        ensures
            match zlib_unblock(block@) {
                Some(s) => r matches Ok(v) && v@ == s,
                None => r is Err,
            },
    {
        decompress_zlib(block.as_slice())
    }
}

/// Raw deflate block compression, at a level from 0 to 10.
pub struct RawZlibCompressor(u8);

impl RawZlibCompressor {
    pub closed spec fn level(&self) -> u8 {
        self.0
    }

    /// A compressor at `level` (0 to 10).
    pub fn new(level: u8) -> (r: Self)
        requires
            level <= 10,
        ensures
            r.level() == level,
    {
        RawZlibCompressor(level)
    }

    pub fn encode(&self, block: Vec<u8>) -> (r: Vec<u8>)
        ensures
            r@ == deflate_block(block@, self.level()),
    {
        compress_raw(block.as_slice(), self.0)
    }

    pub fn decode(&self, block: Vec<u8>) -> (r: Result<Vec<u8>, miniz_oxide::inflate::DecompressError>)
        ensures
            match deflate_unblock(block@) {
                Some(s) => r matches Ok(v) && v@ == s,
                None => r is Err,
            },
    {
        decompress_raw(block.as_slice())
    }
}

/// Whether `b` starts with `prefix`.
pub open spec fn has_prefix(b: Seq<u8>, prefix: Seq<u8>) -> bool {
    prefix.len() <= b.len() && b.subrange(0, prefix.len() as int) == prefix
}

/// The key prefix of the local player's record: "~local_player".
pub open spec fn local_player_prefix() -> Seq<u8> {
    seq![0x7e, 0x6c, 0x6f, 0x63, 0x61, 0x6c, 0x5f, 0x70, 0x6c, 0x61, 0x79, 0x65, 0x72]
}

/// The key prefix of other players' records: "player_".
pub open spec fn player_prefix() -> Seq<u8> {
    seq![0x70, 0x6c, 0x61, 0x79, 0x65, 0x72, 0x5f]
}

fn starts_with(b: &[u8], prefix: &[u8]) -> (r: bool)
    ensures
        r == has_prefix(b@, prefix@),
{
    if prefix.len() > b.len() {
        return false;
    }
    let mut i: usize = 0;
    while i < prefix.len()
        invariant
            prefix.len() <= b.len(),
            i <= prefix.len(),
            forall|k: int| 0 <= k < i ==> b@[k] == prefix@[k],
        decreases prefix.len() - i,
    {
        if b[i] != prefix[i] {
            assert(b@.subrange(0, prefix.len() as int)[i as int] != prefix@[i as int]);
            return false;
        }
        i = i + 1;
    }
    assert(b@.subrange(0, prefix.len() as int) =~= prefix@);
    true
}

/// Whether `key` names the local player's record. The key's text starts with
/// "~local_player" exactly when its bytes do, as those are ASCII.
pub fn is_local_player_key(key: &[u8]) -> (r: bool)
    ensures
        r == has_prefix(key@, local_player_prefix()),
{
    let prefix: [u8; 13] = [0x7e, 0x6c, 0x6f, 0x63, 0x61, 0x6c, 0x5f, 0x70, 0x6c, 0x61, 0x79, 0x65, 0x72];
    assert(prefix@ =~= local_player_prefix());
    starts_with(key, prefix.as_slice())
}

/// Whether `key` names another player's record: its bytes start with "player_".
pub fn is_player_key(key: &[u8]) -> (r: bool)
    ensures
        r == has_prefix(key@, player_prefix()),
{
    let prefix: [u8; 7] = [0x70, 0x6c, 0x61, 0x79, 0x65, 0x72, 0x5f];
    assert(prefix@ =~= player_prefix());
    starts_with(key, prefix.as_slice())
}

/// Whether `key` names a player record of either kind.
pub fn is_player_record_key(key: &[u8]) -> (r: bool)
    ensures
        r == (has_prefix(key@, local_player_prefix()) || has_prefix(key@, player_prefix())),
{
    is_local_player_key(key) || is_player_key(key)
}

/// What a stored record decodes to: a little-endian root without file header.
pub open spec fn record_tree(data: Seq<u8>) -> Option<NbtTree> {
    match parse_root(data, 0, Endian::Little) {
        Ok((_, t, _)) => Some(t),
        Err(_) => None,
    }
}

/// Decodes a stored player record; `None` where it does not decode.
pub fn parse_player_record(data: &[u8]) -> (r: Option<NbtValue>)
    ensures
        match record_tree(data@) {
            Some(t) => r matches Some(v) && v@ == t,
            None => r is None,
        },
{
    let mut reader = NbtReader::new(data, Endian::Little);
    match reader.parse_nbt_tag() {
        Ok((_, value)) => Some(value),
        Err(_) => None,
    }
}

/// The (key, record) pairs of a store, as byte sequences.
pub open spec fn entries_view(entries: Seq<(Vec<u8>, Vec<u8>)>) -> Seq<(Seq<u8>, Seq<u8>)> {
    entries.map_values(|x: (Vec<u8>, Vec<u8>)| (x.0@, x.1@))
}

/// The decoded records of the entries whose keys are other players', in order;
/// `None` when one of them does not decode.
pub open spec fn player_trees(entries: Seq<(Seq<u8>, Seq<u8>)>) -> Option<Seq<NbtTree>>
    decreases entries.len(),
{
    if entries.len() == 0 {
        Some(Seq::empty())
    } else {
        match player_trees(entries.drop_last()) {
            None => None,
            Some(ts) => if has_prefix(entries.last().0, player_prefix()) {
                match record_tree(entries.last().1) {
                    Some(t) => Some(ts.push(t)),
                    None => None,
                }
            } else {
                Some(ts)
            },
        }
    }
}

proof fn lemma_player_trees_none(s: Seq<(Seq<u8>, Seq<u8>)>, k: int)
    requires
        0 <= k <= s.len(),
        player_trees(s.subrange(0, k)) is None,
    ensures
        player_trees(s) is None,
    decreases s.len(),
{
    if k == s.len() {
        assert(s.subrange(0, k) =~= s);
    } else {
        assert(s.drop_last().subrange(0, k) =~= s.subrange(0, k));
        lemma_player_trees_none(s.drop_last(), k);
    }
}

/// The compound that gathering the records `ts` under the empty name builds:
/// each record replaces the one before, so the last one remains.
pub open spec fn gathered(ts: Seq<NbtTree>) -> Seq<(Seq<char>, NbtTree)> {
    if ts.len() == 0 {
        Seq::empty()
    } else {
        seq![(Seq::<char>::empty(), ts.last())]
    }
}

/// Gathers the records of the other players among `entries` into a compound,
/// each inserted under the empty name; `None` when one does not decode.
pub fn parse_remote_players(entries: &Vec<(Vec<u8>, Vec<u8>)>) -> (r: Option<NbtValue>)
    ensures
        match player_trees(entries_view(entries@)) {
            Some(ts) => r matches Some(v) && v is Compound && members_of(v) == gathered(ts),
            None => r is None,
        },
{
    let ghost all = entries_view(entries@);
    let mut parent = NbtValue::new();
    let ghost mut ts: Seq<NbtTree> = Seq::empty();
    let mut i: usize = 0;
    while i < entries.len()
        invariant
            i <= entries.len(),
            all == entries_view(entries@),
            all.len() == entries.len(),
            parent is Compound,
            player_trees(all.subrange(0, i as int)) == Some(ts),
            members_of(parent) == gathered(ts),
        decreases entries.len() - i,
    {
        let ghost prefix = all.subrange(0, i + 1);
        assert(prefix.drop_last() =~= all.subrange(0, i as int));
        assert(prefix.last() == (entries@[i as int].0@, entries@[i as int].1@));
        if is_player_key(entries[i].0.as_slice()) {
            match parse_player_record(entries[i].1.as_slice()) {
                Some(value) => {
                    let ghost t = value@;
                    let ghost before = members_of(parent);
                    parent.insert(String::new(), value);
                    proof {
                        ts = ts.push(t);
                        assert(members_of(parent) =~= gathered(ts));
                    }
                },
                None => {
                    proof {
                        lemma_player_trees_none(all, i + 1);
                    }
                    return None;
                },
            }
        }
        i = i + 1;
    }
    assert(all.subrange(0, entries.len() as int) =~= all);
    Some(parent)
}

} // verus!
