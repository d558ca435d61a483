use vstd::prelude::*;

use sha2::Digest;

use crate::text::{chars_of, push_char, slice_vec, string_of};

verus! {

/// What SHA-256 gives for `data`, as the `sha2` crate computes it.
pub uninterp spec fn sha256_of(data: Seq<u8>) -> Seq<u8>;

/// `sha2::Sha256::digest`: the 32-byte digest of `data`, named `sha256_of`.
#[verifier::external_body]
fn sha256(data: &[u8]) -> (d: Vec<u8>)
    ensures
        d@ == sha256_of(data@),
        d@.len() == 32,
{
    sha2::Sha256::digest(data).to_vec()
}

/// The lowercase hexadecimal digit for `v`, which is below 16.
pub open spec fn digit(v: int) -> char {
    if v < 10 {
        (('0' as int) + v) as char
    } else {
        (('a' as int) + v - 10) as char
    }
}

/// Two lowercase hex digits per byte, the high half first.
pub open spec fn hex_of(bytes: Seq<u8>) -> Seq<char>
    decreases bytes.len(),
{
    if bytes.len() == 0 {
        Seq::empty()
    } else {
        let b = bytes.last();
        hex_of(bytes.drop_last()) + seq![digit(b as int / 16), digit(b as int % 16)]
    }
}

fn nibble(value: u8) -> (c: char)
    requires
        value < 16,
    ensures
        c == digit(value as int),
{
    if value < 10 {
        ((48u8 + value) as char)
    } else {
        ((87u8 + value) as char)
    }
}

/// Lowercase hex of `bytes`.
pub fn hex(bytes: &[u8]) -> (s: String)
    ensures
        s@ == hex_of(bytes@),
        s@.len() == 2 * bytes@.len(),
{
    let mut out = String::new();
    let mut i: usize = 0;
    while i < bytes.len()
        invariant
            i <= bytes.len(),
            out@ == hex_of(bytes@.take(i as int)),
            out@.len() == 2 * i,
        decreases bytes.len() - i,
    {
        let byte = bytes[i];
        assert(byte >> 4 == byte / 16 && byte & 0x0f == byte % 16) by (bit_vector);
        push_char(&mut out, nibble(byte >> 4));
        push_char(&mut out, nibble(byte & 0x0f));
        assert(bytes@.take(i + 1).drop_last() =~= bytes@.take(i as int));
        i += 1;
    }
    assert(bytes@.take(bytes.len() as int) =~= bytes@);
    out
}

/// Lowercase hex of the SHA-256 digest of `bytes`.
pub fn of_bytes(bytes: &[u8]) -> (s: String)
    ensures
        s@ == hex_of(sha256_of(bytes@)),
        s@.len() == 64,
{
    hex(&sha256(bytes))
}

/// The `sha2` crate's SHA-256 hasher, held whole. Verus does not take a
/// declaration of `sha2::Sha256` itself: the types it is built from carry
/// bounds of outside traits.
#[verifier::external_body]
pub struct Sha256State {
    inner: sha2::Sha256,
}

/// A SHA-256 digest under way, fed a chunk at a time; its view is every byte fed
/// so far, in order.
pub struct Digesting {
    hasher: Sha256State,
    fed: Ghost<Seq<u8>>,
}

impl View for Digesting {
    type V = Seq<u8>;

    closed spec fn view(&self) -> Seq<u8> {
        self.fed@
    }
}

/// `Sha256::new`: a hasher fed nothing yet.
#[verifier::external_body]
fn digest_start() -> (d: Digesting)
    ensures
        d@ == Seq::<u8>::empty(),
{
    Digesting { hasher: Sha256State { inner: sha2::Sha256::new() }, fed: Ghost(Seq::empty()) }
}

/// `Digest::update`: `chunk` is fed after what was fed before.
#[verifier::external_body]
fn digest_feed(d: &mut Digesting, chunk: &[u8])
    ensures
        final(d)@ == old(d)@ + chunk@,
{
    d.hasher.inner.update(chunk);
    d.fed = Ghost(d.fed@ + chunk@);
}

/// `Digest::finalize`: the 32-byte digest of everything fed, which the `sha2`
/// crate computes as it computes the digest of those bytes taken at once.
#[verifier::external_body]
fn digest_end(d: Digesting) -> (r: Vec<u8>)
    ensures
        r@ == sha256_of(d@),
        r@.len() == 32,
{
    d.hasher.inner.finalize().to_vec()
}

impl Digesting {
    /// A digest with nothing fed yet.
    pub fn new() -> (d: Digesting)
        ensures
            d@ == Seq::<u8>::empty(),
    {
        digest_start()
    }

    /// Feeds `chunk` after the bytes fed so far.
    pub fn feed(&mut self, chunk: &[u8])
        ensures
            final(self)@ == old(self)@ + chunk@,
    {
        digest_feed(self, chunk)
    }

    /// Lowercase hex of the SHA-256 digest of every byte fed, in order: the same
    /// as `of_bytes` of those bytes, however they were cut into chunks.
    pub fn finish(self) -> (s: String)
        ensures
            s@ == hex_of(sha256_of(self@)),
            s@.len() == 64,
    {
        hex(&digest_end(self))
    }
}

/// Feeding chunks one after another digests what they make together: the hex
/// `finish` gives after feeding `a` then `b` is what `of_bytes` gives for `a + b`.
pub proof fn chunks_digest_as_their_whole(a: Seq<u8>, b: Seq<u8>)
    ensures
        hex_of(sha256_of(Seq::<u8>::empty() + a + b)) == hex_of(sha256_of(a + b)),
{
    assert(Seq::<u8>::empty() + a + b =~= a + b);
}


pub proof fn lemma_hex_ascii(bytes: Seq<u8>)
    ensures
        forall|i: int| 0 <= i < hex_of(bytes).len() ==> (#[trigger] hex_of(bytes)[i] as u32) < 128,
        hex_of(bytes).len() == 2 * bytes.len(),
    decreases bytes.len(),
{
    if bytes.len() > 0 {
        lemma_hex_ascii(bytes.drop_last());
        let h = hex_of(bytes);
        let front = hex_of(bytes.drop_last());
        assert forall|i: int| 0 <= i < h.len() implies (#[trigger] h[i] as u32) < 128 by {
            if i < front.len() {
                assert(h[i] == front[i]);
            }
        }
    }
}

/// The first `2 * keep` hex digits of the SHA-256 digest of `bytes`.
pub fn short(bytes: &[u8], keep: usize) -> (s: String)
    requires
        keep <= usize::MAX / 2,
    ensures
        s@ == hex_of(sha256_of(bytes@)).take(if 2 * keep < 64 { 2 * keep } else { 64 }),
{
    let digest = chars_of(of_bytes(bytes).as_str());
    let k = if keep < 32 { keep * 2 } else { 64 };
    let kept = slice_vec(&digest, 0, k);
    assert(kept@ =~= hex_of(sha256_of(bytes@)).take(k as int));
    string_of(&kept)
}

/// Hex is one-to-one: two byte strings with the same hex are the same bytes.
pub proof fn hex_is_one_to_one(a: Seq<u8>, b: Seq<u8>)
    requires
        hex_of(a) == hex_of(b),
    ensures
        a == b,
    decreases a.len(),
{
    lemma_hex_ascii(a);
    lemma_hex_ascii(b);
    if a.len() > 0 {
        let ha = hex_of(a);
        let hb = hex_of(b);
        let n = ha.len();
        assert(ha[n - 2] == digit(a.last() as int / 16) && ha[n - 1] == digit(a.last() as int % 16));
        assert(hb[n - 2] == digit(b.last() as int / 16) && hb[n - 1] == digit(b.last() as int % 16));
        assert(a.last() == b.last());
        assert(hex_of(a.drop_last()) =~= ha.take(n - 2));
        assert(hex_of(b.drop_last()) =~= hb.take(n - 2));
        hex_is_one_to_one(a.drop_last(), b.drop_last());
        assert(a =~= a.drop_last().push(a.last()));
        assert(b =~= b.drop_last().push(b.last()));
    } else {
        assert(b.len() == 0);
        assert(a =~= b);
    }
}

} // verus!
