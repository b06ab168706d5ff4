//! Persisting the catalog between runs.
//!
//! Walking a large or networked tree is slow, so the catalog can be written
//! to persistent storage and read back on the next start. The storage layer
//! (a file at a well-known location) lives outside this crate; what is
//! verified here is the byte image itself: a length-prefixed record list
//! whose first record is the root path the catalog was built for — the cache
//! key — followed by the track paths in discovery order.
//!
//! Decoding pins down every failure mode: bytes that are not a valid image,
//! an image written for a different root (the decoder fails closed rather
//! than returning the wrong catalog), or a duplicated path all yield `None`,
//! and the caller falls back to a fresh walk. The cache is an optimization,
//! never a source of truth.

use crate::bytestr::{append_bytes, bytes_eq, clone_bytes, copy_range};
use crate::catalog::{lemma_no_dup_push, MusicCatalog};
use vstd::bytes::{
    lemma_auto_spec_u64_to_from_le_bytes, spec_u64_from_le_bytes, spec_u64_to_le_bytes,
    u64_from_le_bytes, u64_to_le_bytes,
};
use vstd::prelude::*;
use vstd::slice::slice_subrange;

verus! {

/// The deep view of a byte vector is its view.
proof fn lemma_bytes_deep_view(v: Vec<u8>)
    ensures
        v.deep_view() == v@,
{
    assert(v.deep_view() =~= v@);
}

/// One encoded record: its length as eight little-endian bytes, then its
/// bytes.
pub open spec fn record_enc(r: Seq<u8>) -> Seq<u8> {
    spec_u64_to_le_bytes(r.len() as u64) + r
}

/// The persisted image of a record sequence.
pub open spec fn encode_spec(recs: Seq<Seq<u8>>) -> Seq<u8>
    decreases recs.len(),
{
    if recs.len() == 0 {
        Seq::empty()
    } else {
        record_enc(recs[0]) + encode_spec(recs.skip(1))
    }
}

/// Encoding one more record appends its image.
pub proof fn lemma_encode_append(recs: Seq<Seq<u8>>, r: Seq<u8>)
    ensures
        encode_spec(recs.push(r)) == encode_spec(recs) + record_enc(r),
    decreases recs.len(),
{
    if recs.len() == 0 {
        assert(recs.push(r)[0] == r);
        assert(recs.push(r).skip(1) =~= Seq::<Seq<u8>>::empty());
        assert(encode_spec(Seq::<Seq<u8>>::empty()) == Seq::<u8>::empty());
        assert(encode_spec(recs.push(r)) == record_enc(r) + encode_spec(recs.push(r).skip(1)));
        assert(record_enc(r) + Seq::<u8>::empty() =~= record_enc(r));
        assert(Seq::<u8>::empty() + record_enc(r) =~= record_enc(r));
    } else {
        lemma_encode_append(recs.skip(1), r);
        assert(recs.push(r)[0] == recs[0]);
        assert(recs.push(r).skip(1) =~= recs.skip(1).push(r));
        assert((record_enc(recs[0]) + encode_spec(recs.skip(1))) + record_enc(r) =~= record_enc(
            recs[0],
        ) + (encode_spec(recs.skip(1)) + record_enc(r)));
    }
}

/// The mathematical parser for the persisted image: the unique record
/// sequence the bytes encode, or `None` when the bytes are not an image.
pub open spec fn decode_spec(b: Seq<u8>) -> Option<Seq<Seq<u8>>>
    decreases b.len(),
{
    if b.len() == 0 {
        Some(Seq::empty())
    } else if b.len() < 8 {
        None
    } else {
        let n = spec_u64_from_le_bytes(b.subrange(0, 8)) as int;
        if b.len() < 8 + n {
            None
        } else {
            match decode_spec(b.subrange(8 + n, b.len() as int)) {
                Some(rest) => Some(seq![b.subrange(8, 8 + n)] + rest),
                None => None,
            }
        }
    }
}

/// Law: the image round-trips exactly — decoding what was encoded yields
/// the encoded records, whatever they were.
pub proof fn lemma_decode_encode(recs: Seq<Seq<u8>>)
    requires
        forall|k: int| 0 <= k < recs.len() ==> (#[trigger] recs[k]).len() <= u64::MAX,
    ensures
        decode_spec(encode_spec(recs)) == Some(recs),
    decreases recs.len(),
{
    lemma_auto_spec_u64_to_from_le_bytes();
    if recs.len() == 0 {
        assert(encode_spec(recs).len() == 0);
        assert(Seq::<Seq<u8>>::empty() =~= recs);
    } else {
        let r0 = recs[0];
        let rest_enc = encode_spec(recs.skip(1));
        let lenb = spec_u64_to_le_bytes(r0.len() as u64);
        let b = encode_spec(recs);
        assert(b == (lenb + r0) + rest_enc);
        assert(lenb.len() == 8);
        assert(b.subrange(0, 8) =~= lenb);
        let n = spec_u64_from_le_bytes(b.subrange(0, 8)) as int;
        assert(spec_u64_from_le_bytes(lenb) == r0.len() as u64);
        assert(n == r0.len());
        assert(b.len() == 8 + r0.len() + rest_enc.len());
        assert(b.subrange(8, 8 + n) =~= r0);
        assert(b.subrange(8 + n, b.len() as int) =~= rest_enc);
        assert forall|k: int| 0 <= k < recs.skip(1).len() implies (#[trigger] recs.skip(1)[k]).len()
            <= u64::MAX by {
            assert(recs.skip(1)[k] == recs[k + 1]);
        }
        lemma_decode_encode(recs.skip(1));
        assert(seq![r0] + recs.skip(1) =~= recs);
    }
}

/// Append the image of one record.
fn append_record(out: &mut Vec<u8>, r: &Vec<u8>)
    ensures
        final(out)@ == old(out)@ + record_enc(r@),
{
    let ghost base: Seq<u8> = out@;
    let lenb = u64_to_le_bytes(r.len() as u64);
    append_bytes(out, &lenb);
    append_bytes(out, r);
    proof {
        assert((base + lenb@) + r@ =~= base + (lenb@ + r@));
    }
}

/// Build the persisted cache image for `root`: the root path first — the
/// cache key — then the catalog's paths in discovery order.
pub fn encode_cache(root: &Vec<u8>, cat: &MusicCatalog) -> (b: Vec<u8>)
    ensures
        b@ == encode_spec(seq![root@] + cat@),
{
    let ghost all: Seq<Seq<u8>> = seq![root@] + cat@;
    let mut out: Vec<u8> = Vec::new();
    append_record(&mut out, root);
    proof {
        lemma_encode_append(Seq::<Seq<u8>>::empty(), root@);
        assert(Seq::<Seq<u8>>::empty().push(root@) =~= all.take(1));
        assert(Seq::<u8>::empty() + record_enc(root@) =~= record_enc(root@));
    }
    let mut i: usize = 0;
    let n = cat.len();
    while i < n
        invariant
            i <= n,
            n == cat@.len(),
            all.len() == 1 + n,
            all == seq![root@] + cat@,
            out@ == encode_spec(all.take(1 + i as int)),
        decreases n - i,
    {
        append_record(&mut out, cat.path_at(i));
        proof {
            assert(all[1 + i as int] == cat@[i as int]);
            lemma_encode_append(all.take(1 + i as int), all[1 + i as int]);
            assert(all.take(1 + i as int).push(all[1 + i as int]) =~= all.take(2 + i as int));
        }
        i = i + 1;
    }
    proof {
        assert(all.take(all.len() as int) =~= all);
    }
    out
}

/// Parse a persisted image back into its records.
fn decode_records(b: &Vec<u8>) -> (r: Option<Vec<Vec<u8>>>)
    ensures
        match r {
            Some(v) => decode_spec(b@) == Some(v.deep_view()),
            None => decode_spec(b@) is None,
        },
{
    let mut acc: Vec<Vec<u8>> = Vec::new();
    let mut off: usize = 0;
    proof {
        assert(b@.subrange(0, b@.len() as int) =~= b@);
    }
    loop
        invariant
            off <= b@.len(),
            decode_spec(b@) == (match decode_spec(b@.subrange(off as int, b@.len() as int)) {
                Some(rest) => Some(acc.deep_view() + rest),
                None => None::<Seq<Seq<u8>>>,
            }),
        decreases b@.len() - off,
    {
        let ghost sub: Seq<u8> = b@.subrange(off as int, b@.len() as int);
        let remaining = b.len() - off;
        if remaining == 0 {
            proof {
                assert(sub.len() == 0);
                assert(acc.deep_view() + Seq::<Seq<u8>>::empty() =~= acc.deep_view());
            }
            return Some(acc);
        }
        if remaining < 8 {
            return None;
        }
        let lenb = slice_subrange(b.as_slice(), off, off + 8);
        let n64 = u64_from_le_bytes(lenb);
        proof {
            assert(lenb@ =~= sub.subrange(0, 8));
        }
        if n64 > (remaining - 8) as u64 {
            proof {
                assert(sub.len() < 8 + spec_u64_from_le_bytes(sub.subrange(0, 8)) as int);
            }
            return None;
        }
        let n = n64 as usize;
        let rec = copy_range(b, off + 8, off + 8 + n);
        let ghost acc_before: Seq<Seq<u8>> = acc.deep_view();
        acc.push(rec);
        proof {
            let m = spec_u64_from_le_bytes(sub.subrange(0, 8)) as int;
            assert(m == n64 as int);
            assert(sub.subrange(8, 8 + m) =~= b@.subrange(
                off as int + 8,
                off as int + 8 + m,
            ));
            assert(rec@ == sub.subrange(8, 8 + m));
            let tail = sub.subrange(8 + m, sub.len() as int);
            assert(tail =~= b@.subrange(off as int + 8 + m, b@.len() as int));
            assert(acc.deep_view() =~~= acc_before.push(rec@));
            if decode_spec(tail) is Some {
                let rest = decode_spec(tail).unwrap();
                assert(decode_spec(sub) == Some(seq![rec@] + rest));
                assert(acc_before + (seq![rec@] + rest) =~= acc_before.push(rec@) + rest);
            } else {
                assert(decode_spec(sub) is None);
            }
        }
        off = off + 8 + n;
    }
}

/// The catalog a persisted image yields for `root`, if it yields one: the
/// bytes must parse, the image's key record must equal `root`, and the
/// stored paths must be duplicate-free.
pub open spec fn decode_cache_spec(root: Seq<u8>, b: Seq<u8>) -> Option<Seq<Seq<u8>>> {
    match decode_spec(b) {
        Some(recs) => if recs.len() >= 1 && recs[0] == root && recs.skip(1).no_duplicates() {
            Some(recs.skip(1))
        } else {
            None
        },
        None => None,
    }
}

/// Read a persisted cache image back, failing closed: `None` for bytes that
/// are not an image, for an image keyed to a different root, and for an
/// image with a duplicated path.
pub fn decode_cache(root: &Vec<u8>, b: &Vec<u8>) -> (r: Option<MusicCatalog>)
    ensures
        match r {
            Some(c) => decode_cache_spec(root@, b@) == Some(c@) && c.wf(),
            None => decode_cache_spec(root@, b@) is None,
        },
{
    let recs = match decode_records(b) {
        Some(v) => v,
        None => {
            return None;
        },
    };
    let ghost dv: Seq<Seq<u8>> = recs.deep_view();
    if recs.len() == 0 {
        return None;
    }
    proof {
        lemma_bytes_deep_view(recs@[0]);
    }
    if !bytes_eq(&recs[0], root) {
        return None;
    }
    let mut cat = MusicCatalog::empty();
    let mut i: usize = 1;
    while i < recs.len()
        invariant
            1 <= i <= recs@.len(),
            dv == recs.deep_view(),
            dv.len() == recs@.len(),
            forall|k: int| 0 <= k < dv.len() ==> dv[k] == recs@[k]@,
            decode_spec(b@) == Some(dv),
            dv[0] == root@,
            cat@ == dv.subrange(1, i as int),
            cat@.no_duplicates(),
        decreases recs@.len() - i,
    {
        if cat.contains_path(&recs[i]) {
            proof {
                let k = choose|k: int| 0 <= k < cat@.len() && cat@[k] == recs@[i as int]@;
                assert(dv.skip(1)[k] == dv[1 + k]);
                assert(dv.skip(1)[i - 1] == dv[i as int]);
                assert(!dv.skip(1).no_duplicates());
            }
            return None;
        }
        cat.push_path(clone_bytes(&recs[i]));
        proof {
            assert(cat@ =~= dv.subrange(1, i as int + 1));
            lemma_no_dup_push(dv.subrange(1, i as int), dv[i as int]);
        }
        i = i + 1;
    }
    proof {
        assert(cat@ =~= dv.skip(1));
    }
    Some(cat)
}

/// Law: cache round-trip. The image written for `root` and a duplicate-free
/// catalog decodes back to exactly that catalog — a load served from the
/// cache returns the same paths the refresh that wrote it returned, however
/// the filesystem has changed in between.
pub proof fn lemma_cache_round_trip(root: Seq<u8>, cat: Seq<Seq<u8>>)
    requires
        cat.no_duplicates(),
        root.len() <= u64::MAX,
        forall|k: int| 0 <= k < cat.len() ==> (#[trigger] cat[k]).len() <= u64::MAX,
    ensures
        decode_cache_spec(root, encode_spec(seq![root] + cat)) == Some(cat),
{
    let all = seq![root] + cat;
    assert forall|k: int| 0 <= k < all.len() implies (#[trigger] all[k]).len() <= u64::MAX by {
        if k > 0 {
            assert(all[k] == cat[k - 1]);
        }
    }
    lemma_decode_encode(all);
    assert(all[0] == root);
    assert(all.skip(1) =~= cat);
}

} // verus!
