//! The evidentiary record and its canonical bytes.
//!
//! The canonical form is a version tag followed by the fields in a fixed order.
//! Integers are big-endian and of fixed width; every text field, as UTF-8, and the list
//! of activated components are preceded by their length as a 32-bit integer. Two
//! records have the same canonical bytes only if they are the same record.

use vstd::prelude::*;
use vstd::utf8::{decode_utf8, encode_utf8, encode_utf8_decode_utf8};
use crate::error::LedgerError;

verus! {

/// One forensic record: what was judged, how, and when.
#[derive(Clone, Debug)]
pub struct Evidence {
    /// Perceptual hash of the image, as text.
    pub image_phash: String,
    /// SHA-256 of the image file: 64 lower-case hexadecimal digits.
    pub image_sha256: String,
    /// Whether the image was judged to be authentic.
    pub verdict: bool,
    /// The confidence of the verdict, a decimal number from 0 to 1 written as text.
    pub confidence: String,
    /// The indices of the components that were activated, in order.
    pub activated_prompts: Vec<u32>,
    /// Digest of the pool of policies that the verdict was reached under.
    pub prompt_pool_hash: String,
    /// Digest of the outside knowledge that the verdict refers to.
    pub external_knowledge_hash: String,
    /// When the record was made, in seconds since the Unix epoch.
    pub timestamp: i64,
}

/// A record, to the contracts.
pub struct EvidenceModel {
    pub image_phash: Seq<char>,
    pub image_sha256: Seq<char>,
    pub verdict: bool,
    pub confidence: Seq<char>,
    pub activated_prompts: Seq<u32>,
    pub prompt_pool_hash: Seq<char>,
    pub external_knowledge_hash: Seq<char>,
    pub timestamp: i64,
}

impl View for Evidence {
    type V = EvidenceModel;

    open spec fn view(&self) -> EvidenceModel {
        EvidenceModel {
            image_phash: self.image_phash@,
            image_sha256: self.image_sha256@,
            verdict: self.verdict,
            confidence: self.confidence@,
            activated_prompts: self.activated_prompts@,
            prompt_pool_hash: self.prompt_pool_hash@,
            external_knowledge_hash: self.external_knowledge_hash@,
            timestamp: self.timestamp,
        }
    }
}

/// The tag that opens the canonical bytes of this version of the layout.
pub const ENCODING_VERSION: u8 = 1;

/// The four bytes of `x`, most significant first.
pub open spec fn be32(x: nat) -> Seq<u8> {
    seq![
        (x / 256 / 256 / 256 % 256) as u8,
        (x / 256 / 256 % 256) as u8,
        (x / 256 % 256) as u8,
        (x % 256) as u8,
    ]
}

/// The eight bytes of `x`, most significant first.
pub open spec fn be64(x: nat) -> Seq<u8> {
    be32(x / 0x1_0000_0000) + be32(x % 0x1_0000_0000)
}

/// A signed 64-bit integer as the unsigned integer with the same bits.
pub open spec fn twos_complement(t: int) -> nat {
    if t >= 0 {
        t as nat
    } else {
        (t + 0x1_0000_0000_0000_0000) as nat
    }
}

/// A run of bytes preceded by its length.
pub open spec fn framed(bytes: Seq<u8>) -> Seq<u8> {
    be32(bytes.len()) + bytes
}

/// The component indices, four bytes each.
pub open spec fn prompt_bytes(prompts: Seq<u32>) -> Seq<u8>
    decreases prompts.len(),
{
    if prompts.len() == 0 {
        Seq::empty()
    } else {
        prompt_bytes(prompts.drop_last()) + be32(prompts.last() as nat)
    }
}

/// One byte for the verdict.
pub open spec fn verdict_byte(verdict: bool) -> u8 {
    if verdict {
        1
    } else {
        0
    }
}

/// A lower-case hexadecimal digit.
pub open spec fn is_lower_hex(b: u8) -> bool {
    (0x30 <= b <= 0x39) || (0x61 <= b <= 0x66)
}

/// A decimal digit.
pub open spec fn is_digit(b: u8) -> bool {
    0x30 <= b <= 0x39
}

/// The text of a SHA-256 digest: 64 lower-case hexadecimal digits.
pub open spec fn is_sha256_text(text: Seq<u8>) -> bool {
    text.len() == 64 && forall|i: int| 0 <= i < 64 ==> is_lower_hex(#[trigger] text[i])
}

/// A fraction digit of a confidence is a digit, and a `0` after a leading `1`.
pub open spec fn fraction_digit_ok(first: u8, b: u8) -> bool {
    is_digit(b) && (first == 0x31 ==> b == 0x30)
}

/// The text of a confidence: `0` or `1`, either alone or followed by a point and one
/// or more digits, and no more than 1 in value.
pub open spec fn is_confidence_text(text: Seq<u8>) -> bool {
    &&& text.len() >= 1
    &&& (text[0] == 0x30 || text[0] == 0x31)
    &&& text.len() != 2
    &&& text.len() >= 3 ==> text[1] == 0x2e
    &&& forall|i: int| 2 <= i < text.len() ==> fraction_digit_ok(text[0], #[trigger] text[i])
}

/// A record can be encoded when its digest and its confidence are well-formed and
/// every length fits the 32 bits it is written in.
pub open spec fn encodable(r: EvidenceModel) -> bool {
    &&& is_sha256_text(encode_utf8(r.image_sha256))
    &&& is_confidence_text(encode_utf8(r.confidence))
    &&& encode_utf8(r.image_phash).len() <= u32::MAX
    &&& encode_utf8(r.confidence).len() <= u32::MAX
    &&& encode_utf8(r.prompt_pool_hash).len() <= u32::MAX
    &&& encode_utf8(r.external_knowledge_hash).len() <= u32::MAX
    &&& r.activated_prompts.len() <= u32::MAX
}

/// The bytes that follow the confidence: the count of component indices, the indices,
/// the two digests and the timestamp.
pub open spec fn tail_layout(prompts: Seq<u32>, pool: Seq<u8>, knowledge: Seq<u8>, stamp: int) -> Seq<
    u8,
> {
    be32(prompts.len()) + (prompt_bytes(prompts) + (framed(pool) + (framed(knowledge) + be64(
        twos_complement(stamp),
    ))))
}

/// The bytes up to and with the confidence, followed by `tail`.
pub open spec fn head_layout(
    sha: Seq<u8>,
    phash: Seq<u8>,
    verdict: bool,
    confidence: Seq<u8>,
    tail: Seq<u8>,
) -> Seq<u8> {
    seq![ENCODING_VERSION] + (framed(sha) + (framed(phash) + (seq![verdict_byte(verdict)] + (
    framed(confidence) + tail))))
}

/// The canonical bytes of a record.
pub open spec fn canonical_bytes(r: EvidenceModel) -> Seq<u8> {
    head_layout(
        encode_utf8(r.image_sha256),
        encode_utf8(r.image_phash),
        r.verdict,
        encode_utf8(r.confidence),
        tail_layout(
            r.activated_prompts,
            encode_utf8(r.prompt_pool_hash),
            encode_utf8(r.external_knowledge_hash),
            r.timestamp as int,
        ),
    )
}

/// Joining three runs of bytes gives the same whichever two are joined first.
pub proof fn lemma_join_assoc(a: Seq<u8>, b: Seq<u8>, c: Seq<u8>)
    ensures
        (a + b) + c == a + (b + c),
{
    assert((a + b) + c =~= a + (b + c));
}

/// Appends the four bytes of `x`, most significant first.
pub fn push_be32(out: &mut Vec<u8>, x: u32)
    ensures
        final(out)@ == old(out)@ + be32(x as nat),
{
    out.push((x / 256 / 256 / 256 % 256) as u8);
    out.push((x / 256 / 256 % 256) as u8);
    out.push((x / 256 % 256) as u8);
    out.push((x % 256) as u8);
    assert(out@ =~= old(out)@ + be32(x as nat));
}

/// Appends a run of bytes.
pub fn push_bytes(out: &mut Vec<u8>, data: &[u8])
    ensures
        final(out)@ == old(out)@ + data@,
{
    let mut i: usize = 0;
    while i < data.len()
        invariant
            i <= data@.len(),
            out@ == old(out)@ + data@.take(i as int),
        decreases data@.len() - i,
    {
        out.push(data[i]);
        i = i + 1;
        assert(out@ =~= old(out)@ + data@.take(i as int));
    }
    assert(data@.take(data@.len() as int) =~= data@);
}

/// Appends a run of bytes, preceded by its length.
pub fn push_framed(out: &mut Vec<u8>, data: &[u8])
    requires
        data@.len() <= u32::MAX,
    ensures
        final(out)@ == old(out)@ + framed(data@),
{
    push_be32(out, data.len() as u32);
    push_bytes(out, data);
    assert(out@ =~= old(out)@ + framed(data@));
}

/// Whether `text` is 64 lower-case hexadecimal digits.
pub fn check_sha256_text(text: &[u8]) -> (ok: bool)
    ensures
        ok == is_sha256_text(text@),
{
    if text.len() != 64 {
        return false;
    }
    let mut i: usize = 0;
    while i < 64
        invariant
            i <= 64,
            text@.len() == 64,
            forall|j: int| 0 <= j < i ==> is_lower_hex(#[trigger] text@[j]),
        decreases 64 - i,
    {
        let b: u8 = text[i];
        if !((0x30 <= b && b <= 0x39) || (0x61 <= b && b <= 0x66)) {
            return false;
        }
        i = i + 1;
    }
    true
}

/// Whether `text` is a decimal number from 0 to 1 in the form that `is_confidence_text`
/// describes.
pub fn check_confidence_text(text: &[u8]) -> (ok: bool)
    ensures
        ok == is_confidence_text(text@),
{
    let n: usize = text.len();
    if n < 1 || n == 2 {
        return false;
    }
    let first: u8 = text[0];
    if first != 0x30 && first != 0x31 {
        return false;
    }
    if n >= 3 && text[1] != 0x2e {
        return false;
    }
    let mut i: usize = 2;
    while i < n
        invariant
            2 <= i,
            n == text@.len(),
            first == text@[0],
            n >= 3 ==> i <= n,
            forall|j: int| 2 <= j < i ==> fraction_digit_ok(first, #[trigger] text@[j]),
        decreases n - i,
    {
        let b: u8 = text[i];
        if !(0x30 <= b && b <= 0x39) || (first == 0x31 && b != 0x30) {
            return false;
        }
        i = i + 1;
    }
    true
}

/// The bits of a signed 64-bit integer, as an unsigned one.
pub fn bits_of(stamp: i64) -> (bits: u64)
    ensures
        bits == twos_complement(stamp as int),
{
    if stamp >= 0 {
        stamp as u64
    } else {
        ((stamp - i64::MIN) as u64) + 0x8000_0000_0000_0000
    }
}

/// Writes the bytes that follow the confidence.
pub fn encode_tail(prompts: &Vec<u32>, pool: &[u8], knowledge: &[u8], stamp: i64) -> (out: Vec<u8>)
    requires
        prompts@.len() <= u32::MAX,
        pool@.len() <= u32::MAX,
        knowledge@.len() <= u32::MAX,
    ensures
        out@ == tail_layout(prompts@, pool@, knowledge@, stamp as int),
{
    let mut out: Vec<u8> = Vec::new();
    push_be32(&mut out, prompts.len() as u32);
    let ghost counted = out@;
    assert(counted =~= be32(prompts@.len()));
    let mut i: usize = 0;
    assert(out@ =~= counted + prompt_bytes(prompts@.take(0)));
    while i < prompts.len()
        invariant
            i <= prompts@.len(),
            out@ == counted + prompt_bytes(prompts@.take(i as int)),
        decreases prompts@.len() - i,
    {
        proof {
            let upto = prompts@.take(i + 1);
            assert(upto.drop_last() =~= prompts@.take(i as int));
            assert(upto.last() == prompts@[i as int]);
            lemma_join_assoc(
                counted,
                prompt_bytes(prompts@.take(i as int)),
                be32(prompts@[i as int] as nat),
            );
        }
        push_be32(&mut out, prompts[i]);
        i = i + 1;
    }
    proof {
        assert(prompts@.take(i as int) =~= prompts@);
    }
    let ghost listed = out@;
    push_framed(&mut out, pool);
    push_framed(&mut out, knowledge);
    let bits: u64 = bits_of(stamp);
    let ghost dated = out@;
    push_be32(&mut out, (bits / 0x1_0000_0000) as u32);
    push_be32(&mut out, (bits % 0x1_0000_0000) as u32);
    proof {
        let a = counted;
        let b = prompt_bytes(prompts@);
        let c = framed(pool@);
        let d = framed(knowledge@);
        let e = be64(bits as nat);
        lemma_join_assoc(dated, be32((bits / 0x1_0000_0000) as nat), be32((bits % 0x1_0000_0000) as nat));
        assert(out@ == (((a + b) + c) + d) + e);
        lemma_join_assoc((a + b) + c, d, e);
        lemma_join_assoc(a + b, c, d + e);
        lemma_join_assoc(a, b, c + (d + e));
    }
    out
}

/// Writes the canonical bytes from the UTF-8 text of the fields.
pub fn encode_fields(
    sha: &[u8],
    phash: &[u8],
    verdict: bool,
    confidence: &[u8],
    tail: &[u8],
) -> (out: Vec<u8>)
    requires
        sha@.len() <= u32::MAX,
        phash@.len() <= u32::MAX,
        confidence@.len() <= u32::MAX,
    ensures
        out@ == head_layout(sha@, phash@, verdict, confidence@, tail@),
{
    let mut out: Vec<u8> = Vec::new();
    out.push(ENCODING_VERSION);
    assert(out@ =~= seq![ENCODING_VERSION]);
    push_framed(&mut out, sha);
    push_framed(&mut out, phash);
    let ghost before = out@;
    out.push(if verdict {
        1u8
    } else {
        0u8
    });
    assert(out@ =~= before + seq![verdict_byte(verdict)]);
    push_framed(&mut out, confidence);
    push_bytes(&mut out, tail);
    proof {
        let v = seq![ENCODING_VERSION];
        let a = framed(sha@);
        let b = framed(phash@);
        let c = seq![verdict_byte(verdict)];
        let d = framed(confidence@);
        let e = tail@;
        assert(out@ == ((((v + a) + b) + c) + d) + e);
        lemma_join_assoc(((v + a) + b) + c, d, e);
        lemma_join_assoc((v + a) + b, c, d + e);
        lemma_join_assoc(v + a, b, c + (d + e));
        lemma_join_assoc(v, a, b + (c + (d + e)));
    }
    out
}

/// Encodes a record into its canonical bytes. Fails with `EncodingError`, before
/// anything is hashed or stored, exactly when the record is not encodable.
pub fn encode(record: &Evidence) -> (r: Result<Vec<u8>, LedgerError>)
    ensures
        match r {
            Ok(bytes) => encodable(record@) && bytes@ == canonical_bytes(record@),
            Err(e) => e == LedgerError::EncodingError && !encodable(record@),
        },
{
    let sha = record.image_sha256.as_str().as_bytes();
    let phash = record.image_phash.as_str().as_bytes();
    let confidence = record.confidence.as_str().as_bytes();
    let pool = record.prompt_pool_hash.as_str().as_bytes();
    let knowledge = record.external_knowledge_hash.as_str().as_bytes();
    if !check_sha256_text(sha) || !check_confidence_text(confidence) {
        return Err(LedgerError::EncodingError);
    }
    if phash.len() as u64 > 0xffff_ffff || confidence.len() as u64 > 0xffff_ffff || pool.len() as u64
        > 0xffff_ffff || knowledge.len() as u64 > 0xffff_ffff || record.activated_prompts.len() as u64
        > 0xffff_ffff {
        return Err(LedgerError::EncodingError);
    }
    let tail = encode_tail(&record.activated_prompts, pool, knowledge, record.timestamp);
    Ok(encode_fields(sha, phash, record.verdict, confidence, tail.as_slice()))
}


/// Two numbers below 2^32 with the same four bytes are the same number.
pub proof fn lemma_be32_injective(x: nat, y: nat)
    requires
        x <= u32::MAX,
        y <= u32::MAX,
        be32(x) == be32(y),
    ensures
        x == y,
{
    assert(be32(x)[0] == be32(y)[0]);
    assert(be32(x)[1] == be32(y)[1]);
    assert(be32(x)[2] == be32(y)[2]);
    assert(be32(x)[3] == be32(y)[3]);
}

/// Two numbers below 2^64 with the same eight bytes are the same number.
pub proof fn lemma_be64_injective(x: nat, y: nat)
    requires
        x <= u64::MAX,
        y <= u64::MAX,
        be64(x) == be64(y),
    ensures
        x == y,
{
    lemma_cut(
        be32(x / 0x1_0000_0000),
        be32(x % 0x1_0000_0000),
        be32(y / 0x1_0000_0000),
        be32(y % 0x1_0000_0000),
    );
    lemma_be32_injective(x / 0x1_0000_0000, y / 0x1_0000_0000);
    lemma_be32_injective(x % 0x1_0000_0000, y % 0x1_0000_0000);
}

/// Where two joined runs are equal and their first parts are equally long, the first
/// parts are equal and so are the second.
pub proof fn lemma_cut(a: Seq<u8>, ra: Seq<u8>, b: Seq<u8>, rb: Seq<u8>)
    requires
        a.len() == b.len(),
        a + ra == b + rb,
    ensures
        a == b,
        ra == rb,
{
    let n = a.len() as int;
    assert((a + ra).subrange(0, n) =~= a);
    assert((b + rb).subrange(0, n) =~= b);
    assert((a + ra).subrange(n, (a + ra).len() as int) =~= ra);
    assert((b + rb).subrange(n, (b + rb).len() as int) =~= rb);
}

/// Where two runs that each start with a framed part are equal, the framed parts are
/// equal and so is what follows them.
pub proof fn lemma_framed_cut(x: Seq<u8>, rx: Seq<u8>, y: Seq<u8>, ry: Seq<u8>)
    requires
        x.len() <= u32::MAX,
        y.len() <= u32::MAX,
        framed(x) + rx == framed(y) + ry,
    ensures
        x == y,
        rx == ry,
{
    lemma_join_assoc(be32(x.len()), x, rx);
    lemma_join_assoc(be32(y.len()), y, ry);
    lemma_cut(be32(x.len()), x + rx, be32(y.len()), y + ry);
    lemma_be32_injective(x.len(), y.len());
    lemma_cut(x, rx, y, ry);
}

/// A list of component indices takes four bytes for each index.
pub proof fn lemma_prompt_bytes_len(p: Seq<u32>)
    ensures
        prompt_bytes(p).len() == 4 * p.len(),
    decreases p.len(),
{
    if p.len() > 0 {
        lemma_prompt_bytes_len(p.drop_last());
    }
}

/// Two lists of component indices with the same bytes are the same list.
pub proof fn lemma_prompt_bytes_injective(p: Seq<u32>, q: Seq<u32>)
    requires
        p.len() == q.len(),
        prompt_bytes(p) == prompt_bytes(q),
    ensures
        p == q,
    decreases p.len(),
{
    if p.len() > 0 {
        lemma_prompt_bytes_len(p.drop_last());
        lemma_prompt_bytes_len(q.drop_last());
        lemma_cut(
            prompt_bytes(p.drop_last()),
            be32(p.last() as nat),
            prompt_bytes(q.drop_last()),
            be32(q.last() as nat),
        );
        lemma_be32_injective(p.last() as nat, q.last() as nat);
        lemma_prompt_bytes_injective(p.drop_last(), q.drop_last());
        assert(p =~= p.drop_last().push(p.last()));
        assert(q =~= q.drop_last().push(q.last()));
    } else {
        assert(p =~= q);
    }
}

/// Two texts with the same UTF-8 bytes are the same text.
pub proof fn lemma_utf8_injective(a: Seq<char>, b: Seq<char>)
    requires
        encode_utf8(a) == encode_utf8(b),
    ensures
        a == b,
{
    encode_utf8_decode_utf8(a);
    encode_utf8_decode_utf8(b);
    assert(decode_utf8(encode_utf8(a)) == decode_utf8(encode_utf8(b)));
}

/// Where the bytes after the confidence are equal, so are the fields they hold.
pub proof fn lemma_tail_injective(
    p: Seq<u32>,
    pool: Seq<u8>,
    knowledge: Seq<u8>,
    stamp: i64,
    q: Seq<u32>,
    other_pool: Seq<u8>,
    other_knowledge: Seq<u8>,
    other_stamp: i64,
)
    requires
        p.len() <= u32::MAX,
        q.len() <= u32::MAX,
        pool.len() <= u32::MAX,
        other_pool.len() <= u32::MAX,
        knowledge.len() <= u32::MAX,
        other_knowledge.len() <= u32::MAX,
        tail_layout(p, pool, knowledge, stamp as int) == tail_layout(
            q,
            other_pool,
            other_knowledge,
            other_stamp as int,
        ),
    ensures
        p == q,
        pool == other_pool,
        knowledge == other_knowledge,
        stamp == other_stamp,
{
    let dated = be64(twos_complement(stamp as int));
    let other_dated = be64(twos_complement(other_stamp as int));
    let known = framed(knowledge) + dated;
    let other_known = framed(other_knowledge) + other_dated;
    let pooled = framed(pool) + known;
    let other_pooled = framed(other_pool) + other_known;
    let listed = prompt_bytes(p) + pooled;
    let other_listed = prompt_bytes(q) + other_pooled;
    lemma_cut(be32(p.len()), listed, be32(q.len()), other_listed);
    lemma_be32_injective(p.len(), q.len());
    lemma_prompt_bytes_len(p);
    lemma_prompt_bytes_len(q);
    lemma_cut(prompt_bytes(p), pooled, prompt_bytes(q), other_pooled);
    lemma_prompt_bytes_injective(p, q);
    lemma_framed_cut(pool, known, other_pool, other_known);
    lemma_framed_cut(knowledge, dated, other_knowledge, other_dated);
    lemma_be64_injective(twos_complement(stamp as int), twos_complement(other_stamp as int));
}

/// The canonical encoding tells records apart: two encodable records have the same
/// canonical bytes exactly when they are the same record, field by field.
pub proof fn law_encoding_is_injective(a: EvidenceModel, b: EvidenceModel)
    requires
        encodable(a),
        encodable(b),
    ensures
        canonical_bytes(a) == canonical_bytes(b) <==> a == b,
{
    if canonical_bytes(a) == canonical_bytes(b) {
        let ta = tail_layout(
            a.activated_prompts,
            encode_utf8(a.prompt_pool_hash),
            encode_utf8(a.external_knowledge_hash),
            a.timestamp as int,
        );
        let tb = tail_layout(
            b.activated_prompts,
            encode_utf8(b.prompt_pool_hash),
            encode_utf8(b.external_knowledge_hash),
            b.timestamp as int,
        );
        let a4 = framed(encode_utf8(a.confidence)) + ta;
        let b4 = framed(encode_utf8(b.confidence)) + tb;
        let a3 = seq![verdict_byte(a.verdict)] + a4;
        let b3 = seq![verdict_byte(b.verdict)] + b4;
        let a2 = framed(encode_utf8(a.image_phash)) + a3;
        let b2 = framed(encode_utf8(b.image_phash)) + b3;
        let a1 = framed(encode_utf8(a.image_sha256)) + a2;
        let b1 = framed(encode_utf8(b.image_sha256)) + b2;
        lemma_cut(seq![ENCODING_VERSION], a1, seq![ENCODING_VERSION], b1);
        lemma_framed_cut(encode_utf8(a.image_sha256), a2, encode_utf8(b.image_sha256), b2);
        lemma_framed_cut(encode_utf8(a.image_phash), a3, encode_utf8(b.image_phash), b3);
        lemma_cut(seq![verdict_byte(a.verdict)], a4, seq![verdict_byte(b.verdict)], b4);
        assert(seq![verdict_byte(a.verdict)][0] == seq![verdict_byte(b.verdict)][0]);
        lemma_framed_cut(encode_utf8(a.confidence), ta, encode_utf8(b.confidence), tb);
        lemma_tail_injective(
            a.activated_prompts,
            encode_utf8(a.prompt_pool_hash),
            encode_utf8(a.external_knowledge_hash),
            a.timestamp,
            b.activated_prompts,
            encode_utf8(b.prompt_pool_hash),
            encode_utf8(b.external_knowledge_hash),
            b.timestamp,
        );
        lemma_utf8_injective(a.image_sha256, b.image_sha256);
        lemma_utf8_injective(a.image_phash, b.image_phash);
        lemma_utf8_injective(a.confidence, b.confidence);
        lemma_utf8_injective(a.prompt_pool_hash, b.prompt_pool_hash);
        lemma_utf8_injective(a.external_knowledge_hash, b.external_knowledge_hash);
    }
}

} // verus!
