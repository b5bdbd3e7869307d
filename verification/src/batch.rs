//! Packing encoded segments into datagrams.
use crate::message::append_bytes;
use vstd::prelude::*;

verus! {

/// The datagrams that `segs` are packed into when `cur` is the datagram being
/// filled: a segment goes into the current datagram unless that would take
/// it beyond `mtu` bytes, in which case it opens the next one. A segment is
/// never split, so one that is longer than `mtu` travels alone.
pub open spec fn pack_from(segs: Seq<Seq<u8>>, cur: Seq<u8>, mtu: int) -> Seq<Seq<u8>>
    decreases segs.len(),
{
    if segs.len() == 0 {
        if cur.len() == 0 {
            Seq::empty()
        } else {
            seq![cur]
        }
    } else if cur.len() > 0 && cur.len() + segs[0].len() > mtu {
        seq![cur] + pack_from(segs.skip(1), segs[0], mtu)
    } else {
        pack_from(segs.skip(1), cur + segs[0], mtu)
    }
}

/// The datagrams that `segs` are packed into, in order.
pub open spec fn pack(segs: Seq<Seq<u8>>, mtu: int) -> Seq<Seq<u8>> {
    pack_from(segs, Seq::empty(), mtu)
}

/// The contents of several byte vectors.
pub open spec fn byte_views(v: Seq<Vec<u8>>) -> Seq<Seq<u8>> {
    v.map_values(|b: Vec<u8>| b@)
}

/// Packing loses and adds nothing: the datagrams, read one after the other,
/// are the segments, read one after the other.
pub proof fn lemma_pack_whole(segs: Seq<Seq<u8>>, cur: Seq<u8>, mtu: int)
    ensures
        pack_from(segs, cur, mtu).flatten() == cur + segs.flatten(),
    decreases segs.len(),
{
    broadcast use vstd::seq_lib::group_seq_properties;

    if segs.len() == 0 {
        assert(segs.flatten() =~= Seq::<u8>::empty());
        if cur.len() == 0 {
            assert(pack_from(segs, cur, mtu).flatten() =~= Seq::<u8>::empty());
            assert(cur + segs.flatten() =~= Seq::<u8>::empty());
        } else {
            seq![cur].lemma_flatten_one_element();
            assert(seq![cur].first() == cur);
            assert(cur + segs.flatten() =~= cur);
        }
    } else {
        let rest = segs.skip(1);
        assert(segs.flatten() == segs[0] + rest.flatten()) by {
            assert(segs.drop_first() =~= rest);
            assert(segs.first() == segs[0]);
        }
        if cur.len() > 0 && cur.len() + segs[0].len() > mtu {
            lemma_pack_whole(rest, segs[0], mtu);
            vstd::seq_lib::lemma_flatten_concat(seq![cur], pack_from(rest, segs[0], mtu));
            seq![cur].lemma_flatten_one_element();
            assert(seq![cur].first() == cur);
            assert(cur + (segs[0] + rest.flatten()) =~= cur + segs.flatten());
        } else {
            lemma_pack_whole(rest, cur + segs[0], mtu);
            assert((cur + segs[0]) + rest.flatten() =~= cur + segs.flatten());
        }
    }
}

/// No datagram is empty, and where no segment is longer than `mtu`, no
/// datagram is.
pub proof fn lemma_pack_fits(segs: Seq<Seq<u8>>, cur: Seq<u8>, mtu: int, i: int)
    requires
        cur.len() <= mtu,
        forall|j: int| 0 <= j < segs.len() ==> 0 < (#[trigger] segs[j]).len() <= mtu,
        0 <= i < pack_from(segs, cur, mtu).len(),
    ensures
        0 < pack_from(segs, cur, mtu)[i].len() <= mtu,
    decreases segs.len(),
{
    if segs.len() == 0 {
    } else {
        let rest = segs.skip(1);
        assert forall|j: int| 0 <= j < rest.len() implies 0 < (#[trigger] rest[j]).len() <= mtu by {
            assert(rest[j] == segs[j + 1]);
        }
        if cur.len() > 0 && cur.len() + segs[0].len() > mtu {
            if i > 0 {
                lemma_pack_fits(rest, segs[0], mtu, i - 1);
            }
        } else {
            lemma_pack_fits(rest, cur + segs[0], mtu, i);
        }
    }
}

/// Packs encoded segments into datagrams of at most `mtu` bytes each.
pub fn pack_segments(segs: &Vec<Vec<u8>>, mtu: usize) -> (out: Vec<Vec<u8>>)
    ensures
        byte_views(out@) == pack(byte_views(segs@), mtu as int),
{
    let ghost all = byte_views(segs@);
    let mut out: Vec<Vec<u8>> = Vec::new();
    let mut cur: Vec<u8> = Vec::new();
    let mut i: usize = 0;
    assert(all.skip(0) =~= all);
    assert(byte_views(out@) =~= Seq::<Seq<u8>>::empty());
    assert(Seq::<Seq<u8>>::empty() + pack_from(all, cur@, mtu as int) =~= pack(all, mtu as int));
    while i < segs.len()
        invariant
            i <= segs.len(),
            all == byte_views(segs@),
            byte_views(out@) + pack_from(all.skip(i as int), cur@, mtu as int) == pack(
                all,
                mtu as int,
            ),
        decreases segs.len() - i,
    {
        let ghost done = byte_views(out@);
        let ghost rest = all.skip(i as int);
        assert(rest[0] == segs[i as int]@);
        assert(rest.skip(1) =~= all.skip(i + 1));
        if cur.len() > 0 && (cur.len() > mtu || segs[i].len() > mtu - cur.len()) {
            let mut next: Vec<u8> = Vec::new();
            append_bytes(&mut next, segs[i].as_slice());
            let ghost full = cur@;
            core::mem::swap(&mut cur, &mut next);
            out.push(next);
            proof {
                assert(cur@ =~= segs[i as int]@);
                assert(byte_views(out@) =~= done + seq![full]);
                assert((done + seq![full]) + pack_from(all.skip(i + 1), cur@, mtu as int) =~= done
                    + (seq![full] + pack_from(all.skip(i + 1), cur@, mtu as int)));
            }
        } else {
            append_bytes(&mut cur, segs[i].as_slice());
        }
        i += 1;
    }
    assert(all.skip(i as int).len() == 0);
    let ghost done = byte_views(out@);
    if cur.len() > 0 {
        let ghost last = cur@;
        out.push(cur);
        assert(byte_views(out@) =~= done + seq![last]);
    } else {
        assert(done + Seq::<Seq<u8>>::empty() =~= done);
    }
    out
}

} // verus!
