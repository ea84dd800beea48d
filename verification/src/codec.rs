use vstd::prelude::*;
use vstd::bytes::lemma_auto_spec_u64_to_from_le_bytes;
use vstd::bytes::spec_u64_from_le_bytes;
use vstd::bytes::spec_u64_to_le_bytes;
use vstd::bytes::u64_from_le_bytes;
use vstd::bytes::u64_to_le_bytes;
use vstd::slice::slice_subrange;
use vstd::slice::slice_to_vec;
use vstd::string::StrSliceExecFns;
use vstd::utf8::decode_utf8;
use vstd::utf8::decode_utf8_encode_utf8;
use vstd::utf8::encode_utf8;
use vstd::utf8::encode_utf8_decode_utf8;
use vstd::utf8::encode_utf8_valid_utf8;
use vstd::utf8::valid_utf8;
use crate::stream::ReaderPos;
use crate::stream::WriterPos;

verus! {

/// One record of the command log.
pub enum Command {
    /// Binds a key to a value.
    Put { key: String, val: String },
    /// Marks a key as removed.
    Remove { key: String },
}

/// The mathematical form of a record: its strings as character sequences.
pub enum CmdView {
    Put { key: Seq<char>, val: Seq<char> },
    Remove { key: Seq<char> },
}

impl View for Command {
    type V = CmdView;

    open spec fn view(&self) -> CmdView {
        match self {
            Command::Put { key, val } => CmdView::Put { key: key@, val: val@ },
            Command::Remove { key } => CmdView::Remove { key: key@ },
        }
    }
}

impl Command {
    /// The key the record is about.
    pub open spec fn key_view(&self) -> Seq<char> {
        match self@ {
            CmdView::Put { key, .. } => key,
            CmdView::Remove { key } => key,
        }
    }
}

/// Whether a record can be framed: the length header is 8 bytes, so each
/// string's UTF-8 form must have a length that fits in it.
pub open spec fn encodable(c: CmdView) -> bool {
    match c {
        CmdView::Put { key, val } => encode_utf8(key).len() <= u64::MAX && encode_utf8(val).len()
            <= u64::MAX,
        CmdView::Remove { key } => encode_utf8(key).len() <= u64::MAX,
    }
}

/// The on-disk form of one record. Each record is self-delimiting through
/// explicit length prefixes: a tag byte (0 for `Put`, 1 for `Remove`), then
/// for each string an 8-byte little-endian byte count followed by the
/// string's UTF-8 bytes.
pub open spec fn spec_encode(c: CmdView) -> Seq<u8> {
    match c {
        CmdView::Put { key, val } => {
            let kb = encode_utf8(key);
            let vb = encode_utf8(val);
            seq![0u8] + spec_u64_to_le_bytes(kb.len() as u64) + kb + spec_u64_to_le_bytes(
                vb.len() as u64,
            ) + vb
        },
        CmdView::Remove { key } => {
            let kb = encode_utf8(key);
            seq![1u8] + spec_u64_to_le_bytes(kb.len() as u64) + kb
        },
    }
}

/// The outcome of decoding at an offset: a record and the exact number of
/// bytes it occupies; `Incomplete` when the bytes run out before the record
/// does (a truncated trailing record); `Malformed` when enough bytes are
/// there but they are not a record (unknown tag or invalid UTF-8).
pub enum SpecDecoded {
    Rec { cmd: CmdView, len: int },
    Incomplete,
    Malformed,
}

/// Decodes the record starting at offset `i` of `b`.
pub open spec fn spec_decode(b: Seq<u8>, i: int) -> SpecDecoded {
    if i < 0 || i + 9 > b.len() {
        SpecDecoded::Incomplete
    } else {
        let tag = b[i];
        let klen = spec_u64_from_le_bytes(b.subrange(i + 1, i + 9)) as int;
        if tag == 0u8 {
            if i + 9 + klen + 8 > b.len() {
                SpecDecoded::Incomplete
            } else {
                let kb = b.subrange(i + 9, i + 9 + klen);
                let vlen = spec_u64_from_le_bytes(
                    b.subrange(i + 9 + klen, i + 17 + klen),
                ) as int;
                if i + 17 + klen + vlen > b.len() {
                    SpecDecoded::Incomplete
                } else {
                    let vb = b.subrange(i + 17 + klen, i + 17 + klen + vlen);
                    if valid_utf8(kb) && valid_utf8(vb) {
                        SpecDecoded::Rec {
                            cmd: CmdView::Put { key: decode_utf8(kb), val: decode_utf8(vb) },
                            len: 17 + klen + vlen,
                        }
                    } else {
                        SpecDecoded::Malformed
                    }
                }
            }
        } else if tag == 1u8 {
            if i + 9 + klen > b.len() {
                SpecDecoded::Incomplete
            } else {
                let kb = b.subrange(i + 9, i + 9 + klen);
                if valid_utf8(kb) {
                    SpecDecoded::Rec {
                        cmd: CmdView::Remove { key: decode_utf8(kb) },
                        len: 9 + klen,
                    }
                } else {
                    SpecDecoded::Malformed
                }
            }
        } else {
            SpecDecoded::Malformed
        }
    }
}

/// An encoded record decodes back to itself, wherever it stands in a larger
/// byte sequence: the length prefixes make the format self-delimiting.
pub proof fn lemma_encode_decode(b: Seq<u8>, i: int, c: CmdView)
    requires
        encodable(c),
        0 <= i,
        i + spec_encode(c).len() <= b.len(),
        b.subrange(i, i + spec_encode(c).len()) == spec_encode(c),
    ensures
        spec_decode(b, i) == (SpecDecoded::Rec { cmd: c, len: spec_encode(c).len() as int }),
{
    lemma_auto_spec_u64_to_from_le_bytes();
    let e = spec_encode(c);
    assert forall|m: int| 0 <= m < e.len() implies b[i + m] == e[m] by {
        assert(b.subrange(i, i + e.len() as int)[m] == e[m]);
    }
    match c {
        CmdView::Put { key, val } => {
            let kb = encode_utf8(key);
            let vb = encode_utf8(val);
            let k = kb.len() as int;
            let v = vb.len() as int;
            let l1 = spec_u64_to_le_bytes(kb.len() as u64);
            let l2 = spec_u64_to_le_bytes(vb.len() as u64);
            let p1 = seq![0u8] + l1;
            let p2 = p1 + kb;
            let p3 = p2 + l2;
            assert(e == p3 + vb);
            assert(e.len() == 17 + k + v);
            assert(b[i] == e[0]);
            assert(e[0] == 0u8);
            assert forall|j: int| 0 <= j < 8 implies b.subrange(i + 1, i + 9)[j] == l1[j] by {
                assert(e[1 + j] == p3[1 + j]);
                assert(p3[1 + j] == p2[1 + j]);
                assert(p2[1 + j] == p1[1 + j]);
                assert(p1[1 + j] == l1[j]);
            }
            assert(b.subrange(i + 1, i + 9) =~= l1);
            assert(spec_u64_from_le_bytes(b.subrange(i + 1, i + 9)) == kb.len() as u64);
            assert forall|j: int| 0 <= j < k implies b.subrange(i + 9, i + 9 + k)[j] == kb[j] by {
                assert(e[9 + j] == p3[9 + j]);
                assert(p3[9 + j] == p2[9 + j]);
                assert(p2[9 + j] == kb[j]);
            }
            assert(b.subrange(i + 9, i + 9 + k) =~= kb);
            assert forall|j: int| 0 <= j < 8 implies b.subrange(i + 9 + k, i + 17 + k)[j] == l2[j]
            by {
                assert(e[9 + k + j] == p3[9 + k + j]);
                assert(p3[9 + k + j] == l2[j]);
            }
            assert(b.subrange(i + 9 + k, i + 17 + k) =~= l2);
            assert(spec_u64_from_le_bytes(b.subrange(i + 9 + k, i + 17 + k)) == vb.len() as u64);
            assert forall|j: int| 0 <= j < v implies b.subrange(i + 17 + k, i + 17 + k + v)[j]
                == vb[j] by {
                assert(e[17 + k + j] == vb[j]);
            }
            assert(b.subrange(i + 17 + k, i + 17 + k + v) =~= vb);
            encode_utf8_valid_utf8(key);
            encode_utf8_valid_utf8(val);
            encode_utf8_decode_utf8(key);
            encode_utf8_decode_utf8(val);
        },
        CmdView::Remove { key } => {
            let kb = encode_utf8(key);
            let k = kb.len() as int;
            let l1 = spec_u64_to_le_bytes(kb.len() as u64);
            let p1 = seq![1u8] + l1;
            assert(e == p1 + kb);
            assert(e.len() == 9 + k);
            assert(b[i] == e[0]);
            assert(e[0] == 1u8);
            assert forall|j: int| 0 <= j < 8 implies b.subrange(i + 1, i + 9)[j] == l1[j] by {
                assert(e[1 + j] == p1[1 + j]);
                assert(p1[1 + j] == l1[j]);
            }
            assert(b.subrange(i + 1, i + 9) =~= l1);
            assert(spec_u64_from_le_bytes(b.subrange(i + 1, i + 9)) == kb.len() as u64);
            assert forall|j: int| 0 <= j < k implies b.subrange(i + 9, i + 9 + k)[j] == kb[j] by {
                assert(e[9 + j] == kb[j]);
            }
            assert(b.subrange(i + 9, i + 9 + k) =~= kb);
            encode_utf8_valid_utf8(key);
            encode_utf8_decode_utf8(key);
        },
    }
}

/// A decoded record re-encodes to exactly the bytes it was decoded from:
/// the format is canonical, so a record's byte range can be copied verbatim.
pub proof fn lemma_decode_encode(b: Seq<u8>, i: int)
    requires
        spec_decode(b, i) is Rec,
    ensures
        ({
            let (c, n) = (spec_decode(b, i)->Rec_cmd, spec_decode(b, i)->Rec_len);
            &&& encodable(c)
            &&& 9 <= n
            &&& 0 <= i
            &&& i + n <= b.len()
            &&& b.subrange(i, i + n) == spec_encode(c)
        }),
{
    lemma_auto_spec_u64_to_from_le_bytes();
    let c = spec_decode(b, i)->Rec_cmd;
    let n = spec_decode(b, i)->Rec_len;
    let tag = b[i];
    let klen = spec_u64_from_le_bytes(b.subrange(i + 1, i + 9)) as int;
    if tag == 0u8 {
        let kb = b.subrange(i + 9, i + 9 + klen);
        let vlen = spec_u64_from_le_bytes(b.subrange(i + 9 + klen, i + 17 + klen)) as int;
        let vb = b.subrange(i + 17 + klen, i + 17 + klen + vlen);
        decode_utf8_encode_utf8(kb);
        decode_utf8_encode_utf8(vb);
        assert(encode_utf8(decode_utf8(kb)) == kb);
        assert(encode_utf8(decode_utf8(vb)) == vb);
        assert(b.subrange(i, i + n) =~= spec_encode(c));
    } else {
        let kb = b.subrange(i + 9, i + 9 + klen);
        decode_utf8_encode_utf8(kb);
        assert(encode_utf8(decode_utf8(kb)) == kb);
        assert(b.subrange(i, i + n) =~= spec_encode(c));
    }
}

/// Decoding looks only at the record's own bytes, so appending bytes after a
/// decodable record does not change what is decoded.
pub proof fn lemma_decode_extend(b: Seq<u8>, ext: Seq<u8>, i: int)
    requires
        spec_decode(b, i) is Rec,
    ensures
        spec_decode(b + ext, i) == spec_decode(b, i),
{
    lemma_decode_encode(b, i);
    let c = spec_decode(b, i)->Rec_cmd;
    let n = spec_decode(b, i)->Rec_len;
    assert((b + ext).subrange(i, i + n) =~= b.subrange(i, i + n));
    lemma_encode_decode(b + ext, i, c);
}

/// A decodable record also decodes, at offset zero, from exactly its own
/// byte range: point lookups may decode from a bounded slice.
pub proof fn lemma_decode_subrange(b: Seq<u8>, i: int)
    requires
        spec_decode(b, i) is Rec,
    ensures
        ({
            let (c, n) = (spec_decode(b, i)->Rec_cmd, spec_decode(b, i)->Rec_len);
            spec_decode(b.subrange(i, i + n), 0) == spec_decode(b, i)
        }),
{
    lemma_decode_encode(b, i);
    let c = spec_decode(b, i)->Rec_cmd;
    let n = spec_decode(b, i)->Rec_len;
    let s = b.subrange(i, i + n);
    assert(s.subrange(0, spec_encode(c).len() as int) =~= spec_encode(c));
    lemma_encode_decode(s, 0, c);
}

/// Relies on String::from_utf8: when the bytes are valid UTF-8 it returns
/// the string spelling exactly those bytes, and otherwise it reports an
/// error.
#[verifier::external_body]
pub(crate) fn string_from_utf8(bytes: Vec<u8>) -> (r: Option<String>)
    ensures
        r is Some <==> valid_utf8(bytes@),
        r matches Some(s) ==> s@ == decode_utf8(bytes@),
{
    match String::from_utf8(bytes) {
        Ok(s) => Some(s),
        Err(_) => None,
    }
}

/// The outcome of decoding one record, in executable form.
pub enum Decoded {
    /// A record and the exact number of bytes it occupies.
    Rec { cmd: Command, len: usize },
    /// The bytes run out before the record does.
    Incomplete,
    /// The bytes cannot be a record.
    Malformed,
}

/// How an executable decode outcome corresponds to the specification's.
pub open spec fn decoded_matches(b: Seq<u8>, i: int, r: Decoded) -> bool {
    match r {
        Decoded::Rec { cmd, len } => spec_decode(b, i) == (SpecDecoded::Rec {
            cmd: cmd@,
            len: len as int,
        }),
        Decoded::Incomplete => spec_decode(b, i) is Incomplete,
        Decoded::Malformed => spec_decode(b, i) is Malformed,
    }
}

/// Encodes one record to its on-disk byte form.
pub fn encode_cmd(c: &Command) -> (r: Vec<u8>)
    ensures
        r@ == spec_encode(c@),
        encodable(c@),
        r@.len() >= 9,
{
    match c {
        Command::Put { key, val } => {
            let mut out: Vec<u8> = Vec::new();
            out.push(0u8);
            let mut kb = key.as_str().as_bytes_vec();
            let ghost kbs = kb@;
            let mut klen8 = u64_to_le_bytes(kb.len() as u64);
            out.append(&mut klen8);
            out.append(&mut kb);
            let mut vb = val.as_str().as_bytes_vec();
            let ghost vbs = vb@;
            let mut vlen8 = u64_to_le_bytes(vb.len() as u64);
            out.append(&mut vlen8);
            out.append(&mut vb);
            proof {
                assert(out@ =~= seq![0u8] + spec_u64_to_le_bytes(kbs.len() as u64) + kbs
                    + spec_u64_to_le_bytes(vbs.len() as u64) + vbs);
            }
            out
        },
        Command::Remove { key } => {
            let mut out: Vec<u8> = Vec::new();
            out.push(1u8);
            let mut kb = key.as_str().as_bytes_vec();
            let ghost kbs = kb@;
            let mut klen8 = u64_to_le_bytes(kb.len() as u64);
            out.append(&mut klen8);
            out.append(&mut kb);
            proof {
                assert(out@ =~= seq![1u8] + spec_u64_to_le_bytes(kbs.len() as u64) + kbs);
            }
            out
        },
    }
}

/// Decodes the record starting at offset `i` of `data`, reporting how many
/// bytes it occupies, or that the bytes are truncated or malformed.
pub fn decode_cmd(data: &Vec<u8>, i: usize) -> (r: Decoded)
    ensures
        decoded_matches(data@, i as int, r),
{
    let n = data.len();
    if n < 9 || i > n - 9 {
        return Decoded::Incomplete;
    }
    let tag = data[i];
    let klen64 = u64_from_le_bytes(slice_subrange(data.as_slice(), i + 1, i + 9));
    if tag == 0u8 {
        let avail: usize = n - (i + 9);
        if (avail as u64) < 8 || klen64 > (avail as u64) - 8 {
            return Decoded::Incomplete;
        }
        let klen = klen64 as usize;
        let kend = i + 9 + klen;
        let vlen64 = u64_from_le_bytes(slice_subrange(data.as_slice(), kend, kend + 8));
        let avail2: usize = n - (kend + 8);
        if vlen64 > avail2 as u64 {
            return Decoded::Incomplete;
        }
        let vlen = vlen64 as usize;
        let kb = slice_to_vec(slice_subrange(data.as_slice(), i + 9, kend));
        let vb = slice_to_vec(slice_subrange(data.as_slice(), kend + 8, kend + 8 + vlen));
        match (string_from_utf8(kb), string_from_utf8(vb)) {
            (Some(key), Some(val)) => Decoded::Rec {
                cmd: Command::Put { key, val },
                len: 17 + klen + vlen,
            },
            _ => Decoded::Malformed,
        }
    } else if tag == 1u8 {
        let avail: usize = n - (i + 9);
        if klen64 > avail as u64 {
            return Decoded::Incomplete;
        }
        let klen = klen64 as usize;
        let kb = slice_to_vec(slice_subrange(data.as_slice(), i + 9, i + 9 + klen));
        match string_from_utf8(kb) {
            Some(key) => Decoded::Rec { cmd: Command::Remove { key }, len: 9 + klen },
            None => Decoded::Malformed,
        }
    } else {
        Decoded::Malformed
    }
}

/// Encodes a record and appends it at the writer's cursor; the record's byte
/// range is the cursor before and after the call.
pub fn append_cmd(w: &mut WriterPos, c: &Command) -> (r: usize)
    requires
        old(w).pos_spec() == old(w).data_spec().len(),
        old(w).pos_spec() + spec_encode(c@).len() <= usize::MAX,
    ensures
        final(w).data_spec() == old(w).data_spec() + spec_encode(c@),
        final(w).pos_spec() == old(w).pos_spec() + spec_encode(c@).len(),
        r == spec_encode(c@).len(),
{
    let enc = encode_cmd(c);
    let r = w.write(&enc);
    proof {
        assert(final(w).data_spec() =~= old(w).data_spec() + spec_encode(c@));
    }
    r
}

/// Decodes the record at the reader's cursor and, on success, advances the
/// cursor past it, so sequential calls replay a segment record by record.
pub fn read_cmd(reader: &mut ReaderPos) -> (r: Decoded)
    ensures
        final(reader).data_spec() == old(reader).data_spec(),
        decoded_matches(old(reader).data_spec(), old(reader).pos_spec() as int, r),
        match r {
            Decoded::Rec { cmd, len } => final(reader).pos_spec() == old(reader).pos_spec() + len,
            _ => final(reader).pos_spec() == old(reader).pos_spec(),
        },
{
    let pos = reader.pos();
    let len = reader.len();
    if pos > len as u64 {
        return Decoded::Incomplete;
    }
    let i = pos as usize;
    let r = decode_cmd(reader.data(), i);
    match &r {
        Decoded::Rec { cmd, len } => {
            let n = *len;
            reader.seek(pos + n as u64);
        },
        _ => {},
    }
    r
}

} // verus!
