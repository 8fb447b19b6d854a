//! The directory of a table: one record per block.
//!
//! On the wire a record is `offset:u32 | first_key_len:u16 | first_key |
//! last_key_len:u16 | last_key`, all integers big-endian; the directory is
//! its records back to back.

use vstd::prelude::*;
use vstd::slice::{slice_subrange, slice_to_vec};
use crate::codec::{
    be_u16, be_u32, bytes_from_vec, get_u16, get_u32, lemma_u16_bytes_round_trip,
    lemma_u32_bytes_round_trip, lemma_u32_round_trip, put_slice, put_u16, put_u32, read_u16,
    read_u32,
};
use crate::key::KeyBytes;

verus! {

/// What the directory of a table says of one block.
pub struct BlockMetaView {
    pub offset: nat,
    pub first_key: Seq<u8>,
    pub last_key: Seq<u8>,
}

/// The bytes of one record of the directory.
pub open spec fn encode_meta(m: BlockMetaView) -> Seq<u8> {
    be_u32(m.offset as u32) + be_u16(m.first_key.len() as u16) + m.first_key + be_u16(
        m.last_key.len() as u16,
    ) + m.last_key
}

/// The bytes of a directory: its records in order.
pub open spec fn encode_metas(ms: Seq<BlockMetaView>) -> Seq<u8>
    decreases ms.len(),
{
    if ms.len() == 0 {
        Seq::empty()
    } else {
        encode_metas(ms.drop_last()) + encode_meta(ms.last())
    }
}

/// The length of the first key of the record at the front of `buf`.
pub open spec fn front_first_key_len(buf: Seq<u8>) -> int {
    read_u16(buf, 4) as int
}

/// The length of the last key of the record at the front of `buf`.
pub open spec fn front_last_key_len(buf: Seq<u8>) -> int {
    read_u16(buf, 6 + front_first_key_len(buf)) as int
}

/// The number of bytes that the record at the front of `buf` takes.
pub open spec fn front_meta_len(buf: Seq<u8>) -> int {
    8 + front_first_key_len(buf) + front_last_key_len(buf)
}

/// `buf` starts with a whole record.
pub open spec fn front_meta_fits(buf: Seq<u8>) -> bool {
    &&& 8 + front_first_key_len(buf) <= buf.len()
    &&& front_meta_len(buf) <= buf.len()
}

/// The record at the front of `buf`.
pub open spec fn front_meta(buf: Seq<u8>) -> BlockMetaView {
    BlockMetaView {
        offset: read_u32(buf, 0) as nat,
        first_key: buf.subrange(6, 6 + front_first_key_len(buf)),
        last_key: buf.subrange(8 + front_first_key_len(buf), front_meta_len(buf)),
    }
}

/// The directory that `buf` holds, if `buf` is made of whole records.
pub open spec fn decode_metas(buf: Seq<u8>) -> Option<Seq<BlockMetaView>>
    decreases buf.len(),
{
    if buf.len() == 0 {
        Some(Seq::empty())
    } else if !front_meta_fits(buf) {
        None
    } else {
        match decode_metas(buf.skip(front_meta_len(buf))) {
            Some(rest) => Some(seq![front_meta(buf)] + rest),
            None => None,
        }
    }
}

/// The record fits the wire format: the offset in 32 bits, the length of
/// each key in 16.
pub open spec fn meta_fits(m: BlockMetaView) -> bool {
    m.offset <= u32::MAX && m.first_key.len() <= u16::MAX && m.last_key.len() <= u16::MAX
}

/// The bytes of a directory are those of its first record and then those
/// of the others.
pub proof fn lemma_encode_metas_front(m: BlockMetaView, rest: Seq<BlockMetaView>)
    ensures
        encode_metas(seq![m] + rest) == encode_meta(m) + encode_metas(rest),
    decreases rest.len(),
{
    let all = seq![m] + rest;
    if rest.len() == 0 {
        assert(all.drop_last() =~= Seq::<BlockMetaView>::empty());
        assert(all.last() == m);
        assert(encode_metas(all.drop_last()) =~= Seq::<u8>::empty());
        assert(encode_metas(rest) =~= Seq::<u8>::empty());
        assert(encode_metas(all) == encode_metas(all.drop_last()) + encode_meta(all.last()));
        assert(encode_metas(all) =~= encode_meta(m) + encode_metas(rest));
    } else {
        lemma_encode_metas_front(m, rest.drop_last());
        assert(all.drop_last() =~= seq![m] + rest.drop_last());
        assert(all.last() == rest.last());
        assert(encode_metas(all) =~= encode_meta(m) + encode_metas(rest));
    }
}

/// Bytes that start with the bytes of a record start with that record.
pub proof fn lemma_front_of_encoded(m: BlockMetaView, tail: Seq<u8>)
    requires
        meta_fits(m),
    ensures
        front_meta_fits(encode_meta(m) + tail),
        front_meta(encode_meta(m) + tail) == m,
        front_meta_len(encode_meta(m) + tail) == encode_meta(m).len(),
        (encode_meta(m) + tail).skip(encode_meta(m).len() as int) == tail,
{
    let rec = encode_meta(m);
    let buf = rec + tail;
    let fl = m.first_key.len() as int;
    let ll = m.last_key.len() as int;
    assert(rec.len() == 8 + fl + ll);
    let o = be_u32(m.offset as u32);
    assert(buf[0] == o[0] && buf[1] == o[1] && buf[2] == o[2] && buf[3] == o[3]);
    lemma_u32_round_trip(m.offset as u32);
    assert(read_u32(buf, 0) == m.offset);
    let f = be_u16(fl as u16);
    assert(buf[4] == f[0] && buf[5] == f[1]);
    assert(front_first_key_len(buf) == fl);
    let l = be_u16(ll as u16);
    assert(buf[6 + fl] == l[0] && buf[6 + fl + 1] == l[1]);
    assert(front_last_key_len(buf) == ll);
    assert(front_meta(buf).first_key =~= m.first_key);
    assert(front_meta(buf).last_key =~= m.last_key);
    assert(buf.skip(rec.len() as int) =~= tail);
}

/// Bytes that start with a whole record are the bytes of that record and
/// what follows it.
pub proof fn lemma_encoded_front(buf: Seq<u8>)
    requires
        front_meta_fits(buf),
    ensures
        meta_fits(front_meta(buf)),
        buf == encode_meta(front_meta(buf)) + buf.skip(front_meta_len(buf)),
{
    let m = front_meta(buf);
    lemma_u32_bytes_round_trip(buf[0], buf[1], buf[2], buf[3]);
    lemma_u16_bytes_round_trip(buf[4], buf[5]);
    let fl = front_first_key_len(buf);
    lemma_u16_bytes_round_trip(buf[6 + fl], buf[6 + fl + 1]);
    assert(buf =~= encode_meta(m) + buf.skip(front_meta_len(buf)));
}

/// A directory that was decoded from bytes has these bytes, and every one
/// of its records fits the wire format.
pub proof fn lemma_decode_metas_sound(buf: Seq<u8>)
    requires
        decode_metas(buf) is Some,
    ensures
        encode_metas(decode_metas(buf)->0) == buf,
        metas_fit(decode_metas(buf)->0),
    decreases buf.len(),
{
    if buf.len() == 0 {
        assert(encode_metas(Seq::<BlockMetaView>::empty()) =~= buf);
    } else {
        let tail = buf.skip(front_meta_len(buf));
        lemma_decode_metas_sound(tail);
        let rest = decode_metas(tail)->0;
        lemma_encoded_front(buf);
        lemma_encode_metas_front(front_meta(buf), rest);
        let ms = decode_metas(buf)->0;
        assert forall|i: int| 0 <= i < ms.len() implies (#[trigger] ms[i]).offset <= u32::MAX
            && ms[i].first_key.len() <= u16::MAX && ms[i].last_key.len() <= u16::MAX by {
            if i > 0 {
                assert(ms[i] == rest[i - 1]);
            }
        }
    }
}

/// Decoding the bytes of a directory gives the directory back.
pub proof fn lemma_decode_encode_metas(ms: Seq<BlockMetaView>)
    requires
        metas_fit(ms),
    ensures
        decode_metas(encode_metas(ms)) == Some(ms),
    decreases ms.len(),
{
    if ms.len() == 0 {
    } else {
        let m = ms[0];
        let rest = ms.skip(1);
        assert(ms =~= seq![m] + rest);
        lemma_encode_metas_front(m, rest);
        assert(meta_fits(m));
        assert forall|i: int| 0 <= i < rest.len() implies (#[trigger] rest[i]).offset <= u32::MAX
            && rest[i].first_key.len() <= u16::MAX && rest[i].last_key.len() <= u16::MAX by {
            assert(rest[i] == ms[i + 1]);
        }
        lemma_decode_encode_metas(rest);
        lemma_front_of_encoded(m, encode_metas(rest));
    }
}

/// The record of one block in the directory of a table.
pub struct BlockMeta {
    /// Offset of this data block.
    pub offset: usize,
    /// The first key of the data block.
    pub first_key: KeyBytes,
    /// The last key of the data block.
    pub last_key: KeyBytes,
}

impl View for BlockMeta {
    type V = BlockMetaView;

    open spec fn view(&self) -> BlockMetaView {
        BlockMetaView {
            offset: self.offset as nat,
            first_key: self.first_key@,
            last_key: self.last_key@,
        }
    }
}

/// The records as the directory they make up.
pub open spec fn metas_view(metas: Seq<BlockMeta>) -> Seq<BlockMetaView> {
    Seq::new(metas.len(), |i: int| metas[i]@)
}

/// Every record fits the wire format: the offset in 32 bits, the length of
/// each key in 16.
pub open spec fn metas_fit(ms: Seq<BlockMetaView>) -> bool {
    forall|i: int|
        0 <= i < ms.len() ==> (#[trigger] ms[i]).offset <= u32::MAX && ms[i].first_key.len()
            <= u16::MAX && ms[i].last_key.len() <= u16::MAX
}

impl BlockMeta {
    /// Appends the records to `buf`, in order.
    pub fn encode_block_meta(block_meta: &[BlockMeta], buf: &mut Vec<u8>)
        requires
            metas_fit(metas_view(block_meta@)),
        ensures
            final(buf)@ == old(buf)@ + encode_metas(metas_view(block_meta@)),
    {
        let ghost ms = metas_view(block_meta@);
        let mut i: usize = 0;
        assert(ms.take(0) =~= Seq::<BlockMetaView>::empty());
        assert(buf@ =~= old(buf)@ + encode_metas(ms.take(0)));
        while i < block_meta.len()
            invariant
                i <= block_meta@.len(),
                ms == metas_view(block_meta@),
                metas_fit(ms),
                buf@ == old(buf)@ + encode_metas(ms.take(i as int)),
            decreases block_meta@.len() - i,
        {
            let meta = &block_meta[i];
            let ghost before = buf@;
            assert(ms[i as int] == meta@);
            let first_key = meta.first_key.raw_ref();
            let last_key = meta.last_key.raw_ref();
            put_u32(buf, meta.offset as u32);
            put_u16(buf, first_key.len() as u16);
            put_slice(buf, first_key);
            put_u16(buf, last_key.len() as u16);
            put_slice(buf, last_key);
            proof {
                let next = ms.take(i + 1);
                assert(next.drop_last() =~= ms.take(i as int));
                assert(next.last() == ms[i as int]);
                assert(buf@ =~= before + encode_meta(ms[i as int]));
                assert(buf@ =~= old(buf)@ + encode_metas(next));
            }
            i += 1;
        }
        assert(ms.take(i as int) =~= ms);
    }

    /// The records that `buf` holds, if `buf` is made of whole records.
    pub fn decode_block_meta(buf: &[u8]) -> (result: Option<Vec<BlockMeta>>)
        ensures
            match result {
                Some(metas) => decode_metas(buf@) == Some(metas_view(metas@)),
                None => decode_metas(buf@) is None,
            },
    {
        let len = buf.len();
        let mut metas: Vec<BlockMeta> = Vec::new();
        let mut pos: usize = 0;
        assert(buf@.skip(0) =~= buf@);
        assert(metas_view(metas@) + Seq::<BlockMetaView>::empty()
            =~= Seq::<BlockMetaView>::empty());
        while pos < len
            invariant
                pos <= len,
                len == buf@.len(),
                decode_metas(buf@) == match decode_metas(buf@.skip(pos as int)) {
                    Some(rest) => Some(metas_view(metas@) + rest),
                    None => None,
                },
            decreases len - pos,
        {
            let ghost here = buf@.skip(pos as int);
            let ghost done = metas_view(metas@);
            if len - pos < 8 {
                return None;
            }
            let offset = get_u32(slice_subrange(buf, pos, pos + 4)) as usize;
            let first_len = get_u16(slice_subrange(buf, pos + 4, pos + 6)) as usize;
            assert(first_len == front_first_key_len(here));
            if len - pos - 8 < first_len {
                return None;
            }
            let first_key = slice_to_vec(slice_subrange(buf, pos + 6, pos + 6 + first_len));
            let last_at = pos + 6 + first_len;
            let last_len = get_u16(slice_subrange(buf, last_at, last_at + 2)) as usize;
            assert(last_len == front_last_key_len(here));
            if len - pos - 8 - first_len < last_len {
                return None;
            }
            let last_key = slice_to_vec(slice_subrange(buf, last_at + 2, last_at + 2 + last_len));
            let meta = BlockMeta {
                offset,
                first_key: KeyBytes::from_bytes(bytes_from_vec(first_key)),
                last_key: KeyBytes::from_bytes(bytes_from_vec(last_key)),
            };
            proof {
                assert(front_meta_fits(here));
                assert(meta@.first_key =~= front_meta(here).first_key);
                assert(meta@.last_key =~= front_meta(here).last_key);
                assert(meta@ == front_meta(here));
                assert(here.skip(front_meta_len(here)) =~= buf@.skip(pos + front_meta_len(here)));
            }
            metas.push(meta);
            pos = last_at + 2 + last_len;
            proof {
                assert(metas_view(metas@) =~= done.push(front_meta(here)));
                match decode_metas(buf@.skip(pos as int)) {
                    Some(rest) => {
                        assert(done + (seq![front_meta(here)] + rest) =~= metas_view(metas@)
                            + rest);
                    },
                    None => {},
                }
            }
        }
        proof {
            assert(metas_view(metas@) + Seq::<BlockMetaView>::empty() =~= metas_view(metas@));
        }
        Some(metas)
    }
}

} // verus!
