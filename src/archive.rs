//! Archive framing: the magic prefix, the big-endian header length, the
//! manifest bytes and the manifest's Blake2b self-checksum.
//!
//! ```text
//! offset 0  : "bita"
//! offset 4  : big-endian u64: length of manifest ‖ checksum
//! offset 12 : manifest bytes
//! then      : 64-byte Blake2b digest of the manifest bytes
//! then      : chunk payload
//! ```
use crate::error::Error;
use crate::hasher::{blake2b_of, blake2b_sum, BLAKE2_DIGEST_LEN};
use vstd::prelude::*;

verus! {

/// Bytes before the manifest: the magic and the header length.
pub const PREFIX_LEN: usize = 12;

/// `"bita"`.
pub open spec fn magic() -> Seq<u8> {
    seq![0x62u8, 0x69u8, 0x74u8, 0x61u8]
}

/// Big-endian bytes of `v`.
pub open spec fn be_u64_bytes(v: u64) -> Seq<u8> {
    seq![
        (v >> 56u64) as u8,
        (v >> 48u64) as u8,
        (v >> 40u64) as u8,
        (v >> 32u64) as u8,
        (v >> 24u64) as u8,
        (v >> 16u64) as u8,
        (v >> 8u64) as u8,
        v as u8,
    ]
}

/// Value of the eight big-endian bytes `b[0..8]`.
pub open spec fn be_u64_value(b: Seq<u8>) -> u64 {
    ((b[0] as u64) << 56u64) | ((b[1] as u64) << 48u64) | ((b[2] as u64) << 40u64) | ((
    b[3] as u64) << 32u64) | ((b[4] as u64) << 24u64) | ((b[5] as u64) << 16u64) | ((
    b[6] as u64) << 8u64) | (b[7] as u64)
}

pub proof fn lemma_be_u64_round_trip(v: u64)
    ensures
        be_u64_value(be_u64_bytes(v)) == v,
{
    let b = be_u64_bytes(v);
    assert(((((v >> 56u64) as u8) as u64) << 56u64) | ((((v >> 48u64) as u8) as u64) << 48u64)
        | ((((v >> 40u64) as u8) as u64) << 40u64) | ((((v >> 32u64) as u8) as u64) << 32u64)
        | ((((v >> 24u64) as u8) as u64) << 24u64) | ((((v >> 16u64) as u8) as u64) << 16u64)
        | ((((v >> 8u64) as u8) as u64) << 8u64) | ((v as u8) as u64) == v) by (bit_vector);
}

/// The archive header for manifest `m`.
pub open spec fn header_of(m: Seq<u8>) -> Seq<u8> {
    magic() + be_u64_bytes((m.len() + BLAKE2_DIGEST_LEN) as u64) + m + blake2b_sum(m)
}

/// Header length that the archive `b` declares.
pub open spec fn declared_len(b: Seq<u8>) -> int {
    be_u64_value(b.subrange(4, 12)) as int
}

/// `b` starts with the magic, declares a header long enough for a checksum,
/// and holds the whole header.
pub open spec fn header_well_formed(b: Seq<u8>) -> bool {
    &&& b.len() >= PREFIX_LEN
    &&& b.take(4) == magic()
    &&& declared_len(b) >= BLAKE2_DIGEST_LEN
    &&& b.len() >= PREFIX_LEN + declared_len(b)
}

/// The manifest bytes of a well-formed header.
pub open spec fn manifest_part(b: Seq<u8>) -> Seq<u8> {
    b.subrange(PREFIX_LEN as int, PREFIX_LEN + declared_len(b) - BLAKE2_DIGEST_LEN)
}

/// The stored manifest checksum of a well-formed header.
pub open spec fn stored_checksum(b: Seq<u8>) -> Seq<u8> {
    b.subrange(PREFIX_LEN + declared_len(b) - BLAKE2_DIGEST_LEN, PREFIX_LEN + declared_len(b))
}

/// Whether the header of `b` is intact: well formed, with a checksum that
/// matches its manifest.
pub open spec fn header_intact(b: Seq<u8>) -> bool {
    header_well_formed(b) && blake2b_sum(manifest_part(b)) == stored_checksum(b)
}

fn push_be_u64(out: &mut Vec<u8>, v: u64)
    ensures
        final(out)@ == old(out)@ + be_u64_bytes(v),
{
    out.push((v >> 56u64) as u8);
    out.push((v >> 48u64) as u8);
    out.push((v >> 40u64) as u8);
    out.push((v >> 32u64) as u8);
    out.push((v >> 24u64) as u8);
    out.push((v >> 16u64) as u8);
    out.push((v >> 8u64) as u8);
    out.push(v as u8);
    assert(final(out)@ =~= old(out)@ + be_u64_bytes(v));
}

fn read_be_u64(b: &[u8], at: usize) -> (r: u64)
    requires
        at + 8 <= b@.len(),
    ensures
        r == be_u64_value(b@.subrange(at as int, at + 8)),
{
    ((b[at] as u64) << 56u64) | ((b[at + 1] as u64) << 48u64) | ((b[at + 2] as u64) << 40u64) | ((
    b[at + 3] as u64) << 32u64) | ((b[at + 4] as u64) << 24u64) | ((b[at + 5] as u64) << 16u64)
        | ((b[at + 6] as u64) << 8u64) | (b[at + 7] as u64)
}

fn append_slice(out: &mut Vec<u8>, data: &[u8])
    ensures
        final(out)@ == old(out)@ + data@,
{
    let mut i: usize = 0;
    while i < data.len()
        invariant
            i <= data@.len(),
            out@ == old(out)@ + data@.take(i as int),
        decreases data@.len() - i,
    {
        out.push(data[i]);
        assert(data@.take(i + 1) =~= data@.take(i as int).push(data@[i as int]));
        i = i + 1;
    }
    assert(data@.take(data@.len() as int) =~= data@);
}

/// The archive header for `manifest`: magic, header length, manifest, and the
/// manifest's Blake2b digest.
pub fn build_header(manifest: &[u8]) -> (r: Vec<u8>)
    requires
        manifest@.len() + BLAKE2_DIGEST_LEN <= u64::MAX,
    ensures
        r@ == header_of(manifest@),
{
    let mut out: Vec<u8> = Vec::new();
    out.push(0x62u8);
    out.push(0x69u8);
    out.push(0x74u8);
    out.push(0x61u8);
    assert(out@ =~= magic());
    push_be_u64(&mut out, manifest.len() as u64 + BLAKE2_DIGEST_LEN as u64);
    append_slice(&mut out, manifest);
    let checksum = blake2b_of(manifest);
    append_slice(&mut out, checksum.as_slice());
    out
}

/// Reads the header length from the first bytes of an archive: the bytes of
/// the manifest and its checksum that follow the 12-byte prefix.
pub fn header_length(prefix: &[u8]) -> (r: Result<u64, Error>)
    ensures
        match r {
            Ok(h) => {
                &&& prefix@.len() >= PREFIX_LEN
                &&& prefix@.take(4) == magic()
                &&& h == declared_len(prefix@)
                &&& h >= BLAKE2_DIGEST_LEN
            },
            Err(e) => {
                &&& e is NotAnArchive
                &&& !(prefix@.len() >= PREFIX_LEN && prefix@.take(4) == magic() && declared_len(
                    prefix@,
                ) >= BLAKE2_DIGEST_LEN)
            },
        },
{
    if prefix.len() < PREFIX_LEN {
        return Err(Error::NotAnArchive("archive too short".to_owned()));
    }
    if !(prefix[0] == 0x62u8 && prefix[1] == 0x69u8 && prefix[2] == 0x74u8 && prefix[3] == 0x61u8) {
        assert(prefix@.take(4) != magic() ) by {
            if prefix@.take(4) == magic() {
                assert(prefix@.take(4)[0] == prefix@[0]);
                assert(prefix@.take(4)[1] == prefix@[1]);
                assert(prefix@.take(4)[2] == prefix@[2]);
                assert(prefix@.take(4)[3] == prefix@[3]);
            }
        }
        return Err(Error::NotAnArchive("missing archive magic".to_owned()));
    }
    assert(prefix@.take(4) =~= magic());
    let h = read_be_u64(prefix, 4);
    if h < BLAKE2_DIGEST_LEN as u64 {
        return Err(Error::NotAnArchive("header too short".to_owned()));
    }
    Ok(h)
}

/// Checks an archive's header and returns its manifest bytes. `archive` holds
/// the archive from its start, at least through the header.
pub fn open_header(archive: &[u8]) -> (r: Result<Vec<u8>, Error>)
    ensures
        match r {
            Ok(m) => header_intact(archive@) && m@ == manifest_part(archive@),
            Err(e) => {
                &&& !header_intact(archive@)
                &&& (e is NotAnArchive <==> !header_well_formed(archive@))
                &&& (e is ChecksumMismatch <==> header_well_formed(archive@))
            },
        },
{
    let h = match header_length(archive) {
        Ok(h) => h,
        Err(e) => {
            return Err(e);
        },
    };
    if h > (archive.len() - PREFIX_LEN) as u64 {
        return Err(Error::NotAnArchive("archive shorter than its header".to_owned()));
    }
    let ghost dl = declared_len(archive@);
    assert(h == dl);
    let h = h as usize;
    let manifest_end = PREFIX_LEN + h - BLAKE2_DIGEST_LEN;
    assert(header_well_formed(archive@));
    let mut manifest: Vec<u8> = Vec::new();
    append_slice(&mut manifest, vstd::slice::slice_subrange(archive, PREFIX_LEN, manifest_end));
    let computed = blake2b_of(manifest.as_slice());
    let mut i: usize = 0;
    while i < BLAKE2_DIGEST_LEN
        invariant
            i <= BLAKE2_DIGEST_LEN,
            computed@.len() == BLAKE2_DIGEST_LEN,
            manifest_end + BLAKE2_DIGEST_LEN <= archive@.len(),
            archive@.len() <= usize::MAX,
            manifest_end == PREFIX_LEN + declared_len(archive@) - BLAKE2_DIGEST_LEN,
            header_well_formed(archive@),
            manifest@ == manifest_part(archive@),
            computed@ == blake2b_sum(manifest@),
            forall|j: int| 0 <= j < i ==> computed@[j] == archive@[manifest_end + j],
        decreases BLAKE2_DIGEST_LEN - i,
    {
        if computed[i] != archive[manifest_end + i] {
            assert(computed@ != stored_checksum(archive@)) by {
                assert(stored_checksum(archive@)[i as int] == archive@[manifest_end + i]);
            }
            return Err(Error::ChecksumMismatch("manifest checksum mismatch".to_owned()));
        }
        i = i + 1;
    }
    assert(computed@ =~= stored_checksum(archive@));
    Ok(manifest)
}

/// Law: the header built for a manifest is intact and yields that manifest,
/// whatever payload follows it.
pub proof fn lemma_header_round_trip(m: Seq<u8>, payload: Seq<u8>)
    requires
        m.len() + BLAKE2_DIGEST_LEN <= u64::MAX,
        blake2b_sum(m).len() == BLAKE2_DIGEST_LEN,
    ensures
        header_intact(header_of(m) + payload),
        manifest_part(header_of(m) + payload) == m,
        declared_len(header_of(m) + payload) == m.len() + BLAKE2_DIGEST_LEN,
{
    let b = header_of(m) + payload;
    let v = (m.len() + BLAKE2_DIGEST_LEN) as u64;
    assert(b.subrange(4, 12) =~= be_u64_bytes(v));
    lemma_be_u64_round_trip(v);
    assert(declared_len(b) == m.len() + BLAKE2_DIGEST_LEN);
    assert(b.take(4) =~= magic());
    assert(manifest_part(b) =~= m);
    assert(stored_checksum(b) =~= blake2b_sum(m));
}

/// Law: changing one manifest byte of an intact header makes the checksum
/// disagree (unless the changed manifest has the same Blake2b digest), so the
/// archive is refused with `ChecksumMismatch`.
pub proof fn lemma_corrupted_manifest(m: Seq<u8>, payload: Seq<u8>, k: int, x: u8)
    requires
        m.len() + BLAKE2_DIGEST_LEN <= u64::MAX,
        blake2b_sum(m).len() == BLAKE2_DIGEST_LEN,
        0 <= k < m.len(),
        blake2b_sum(m.update(k, x)) != blake2b_sum(m),
    ensures
        header_well_formed((header_of(m) + payload).update(PREFIX_LEN + k, x)),
        !header_intact((header_of(m) + payload).update(PREFIX_LEN + k, x)),
{
    let b = header_of(m) + payload;
    lemma_header_round_trip(m, payload);
    lemma_update_manifest_byte(b, k, x);
}

proof fn lemma_update_manifest_byte(b: Seq<u8>, k: int, x: u8)
    requires
        header_well_formed(b),
        0 <= k < declared_len(b) - BLAKE2_DIGEST_LEN,
    ensures
        header_well_formed(b.update(PREFIX_LEN + k, x)),
        manifest_part(b.update(PREFIX_LEN + k, x)) == manifest_part(b).update(k, x),
        stored_checksum(b.update(PREFIX_LEN + k, x)) == stored_checksum(b),
{
    let c = b.update(PREFIX_LEN + k, x);
    assert(c.subrange(4, 12) =~= b.subrange(4, 12));
    assert(c.take(4) =~= b.take(4));
    assert(manifest_part(c) =~= manifest_part(b).update(k, x));
    assert(stored_checksum(c) =~= stored_checksum(b));
}

} // verus!
