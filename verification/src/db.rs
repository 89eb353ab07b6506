//! The pseudonymizer: derives a stable, secret-keyed, UUID-shaped token
//! from each identifier with HMAC-SHA-256, and composes the output line.

use vstd::prelude::*;
use vstd::string::*;

use hmac::{Hmac, Mac};
use sha2::Sha256;

use crate::model::{
    format_bytes, format_chars, hex_char, lemma_format_chars_ascii,
};
use crate::myna::{hex_str, Myna};

verus! {

broadcast use vstd::string::group_string_axioms;

/// The HMAC-SHA-256 digest of `msg` under `key`: a fixed 32-byte function
/// of the two byte sequences, left uninterpreted here.
pub uninterp spec fn hmac_sha256_of(key: Seq<u8>, msg: Seq<u8>) -> Seq<u8>;

/// Relies on the hmac crate's `Hmac<Sha256>`: `new_from_slice` accepts a
/// key of any length (it never returns an error), and the finalized
/// digest is a 32-byte function of the key and the message alone.
#[verifier::external_body]
fn hmac_sha256(key: &[u8], msg: &[u8]) -> (r: Vec<u8>)
    ensures
        r@ == hmac_sha256_of(key@, msg@),
        r@.len() == 32,
{
    let mut mac = <Hmac<Sha256> as Mac>::new_from_slice(key).unwrap();
    mac.update(msg);
    mac.finalize().into_bytes().to_vec()
}

/// The 16 candidate UUID bytes: the first 16 digest bytes, with byte 6's
/// upper nibble forced to 4 (the version field) and byte 8's top two bits
/// forced to `10` (the DCE 1.1 variant field).
pub open spec fn uuid_bytes(h: Seq<u8>) -> Seq<u8> {
    Seq::new(
        16,
        |i: int|
            if i == 6 {
                (h[6] & 0x0F) | 0x40
            } else if i == 8 {
                (h[8] & 0x3F) | 0x80
            } else {
                h[i]
            },
    )
}

/// Lowercase hex of a byte sequence, two characters per byte, high nibble
/// first.
pub open spec fn hex_of(s: Seq<u8>) -> Seq<char> {
    Seq::new(
        2 * s.len(),
        |i: int|
            if i % 2 == 0 {
                hex_char((s[i / 2] / 16) as int)
            } else {
                hex_char((s[i / 2] % 16) as int)
            },
    )
}

/// The 36-character token derived from a digest: hex of the UUID bytes in
/// the canonical 8-4-4-4-12 grouping.
pub open spec fn uuid_chars(h: Seq<u8>) -> Seq<char> {
    let x = hex_of(uuid_bytes(h));
    x.subrange(0, 8) + seq!['-'] + x.subrange(8, 12) + seq!['-'] + x.subrange(12, 16) + seq!['-']
        + x.subrange(16, 20) + seq!['-'] + x.subrange(20, 32)
}

/// The output line for one identifier: its formatted text, one space, the
/// derived token, and a newline.
pub open spec fn line_chars(key: Seq<u8>, d: Seq<u8>) -> Seq<char> {
    format_chars(d) + seq![' '] + uuid_chars(hmac_sha256_of(key, format_bytes(d))) + seq!['\n']
}

/// Derives stable UUID-shaped tokens from identifiers under a fixed
/// secret key.
pub struct MynaDb {
    secret: Vec<u8>,
}

impl MynaDb {
    /// The stored secret key bytes.
    pub closed spec fn key(&self) -> Seq<u8> {
        self.secret@
    }

    /// Stores the UTF-8 bytes of `secret` verbatim as the key.
    pub fn new(secret: &str) -> (r: MynaDb)
        ensures
            r.key() == secret.spec_bytes(),
    {
        MynaDb { secret: secret.as_bytes_vec() }
    }

    /// The 32-byte HMAC-SHA-256 digest of the identifier's canonical
    /// 12-character text under the stored key.
    pub fn hash(&self, myna: &Myna) -> (r: Vec<u8>)
        requires
            myna.wf(),
        ensures
            r@ == hmac_sha256_of(self.key(), format_bytes(myna@)),
            r@.len() == 32,
    {
        let text = myna.format();
        let b: &[u8] = text.as_str().as_bytes();
        proof {
            lemma_format_chars_ascii(myna@);
            vstd::utf8::is_ascii_chars_encode_utf8(text@);
            assert(b@ =~= format_bytes(myna@));
        }
        hmac_sha256(self.secret.as_slice(), b)
    }

    /// The derived token: a pure, deterministic function of the stored
    /// secret and the identifier, dressed in UUID version-4 syntax. It
    /// cannot fail for any well-formed identifier.
    pub fn uuid(&self, myna: &Myna) -> (r: String)
        requires
            myna.wf(),
        ensures
            r@ == uuid_chars(hmac_sha256_of(self.key(), format_bytes(myna@))),
    {
        let h = self.hash(myna);
        let mut u: [u8; 16] = [0; 16];
        let mut i: usize = 0;
        while i < 16
            invariant
                i <= 16,
                h@.len() == 32,
                forall|j: int| 0 <= j < i ==> u@[j] == h@[j],
            decreases 16 - i,
        {
            u[i] = h[i];
            i = i + 1;
        }
        u[6] = (u[6] & 0x0F) | 0x40;
        u[8] = (u[8] & 0x3F) | 0x80;
        proof {
            assert(u@ =~= uuid_bytes(h@));
        }
        let mut x = String::new();
        let mut i: usize = 0;
        while i < 16
            invariant
                i <= 16,
                u@ == uuid_bytes(h@),
                x@ =~= hex_of(u@).take(2 * i),
            decreases 16 - i,
        {
            let b = u[i];
            x.append(hex_str(b / 16));
            x.append(hex_str(b % 16));
            proof {
                assert(hex_of(u@)[2 * i] == hex_char((u@[i as int] / 16) as int));
                assert(hex_of(u@)[2 * i + 1] == hex_char((u@[i as int] % 16) as int));
                assert(x@ =~= hex_of(u@).take(2 * (i + 1)));
            }
            i = i + 1;
        }
        proof {
            assert(x@ =~= hex_of(u@));
            lemma_hex_of_ascii(u@);
        }
        let xs = x.as_str();
        let mut out = String::new();
        out.append(xs.substring_ascii(0, 8));
        out.append("-");
        out.append(xs.substring_ascii(8, 12));
        out.append("-");
        out.append(xs.substring_ascii(12, 16));
        out.append("-");
        out.append(xs.substring_ascii(16, 20));
        out.append("-");
        out.append(xs.substring_ascii(20, 32));
        proof {
            reveal_strlit("-");
            assert(out@ =~= uuid_chars(h@));
        }
        out
    }

    /// The output line for one identifier: formatted text, one space, the
    /// derived token, and a trailing newline.
    pub fn get_line(&self, myna: &Myna) -> (r: String)
        requires
            myna.wf(),
        ensures
            r@ == line_chars(self.key(), myna@),
    {
        let mut out = myna.format();
        out.append(" ");
        let u = self.uuid(myna);
        out.append(u.as_str());
        out.append("\n");
        proof {
            reveal_strlit(" ");
            reveal_strlit("\n");
            assert(out@ =~= line_chars(self.key(), myna@));
        }
        out
    }
}

/// A lowercase hexadecimal character.
pub open spec fn is_hex_lower(c: char) -> bool {
    ('0' <= c && c <= '9') || ('a' <= c && c <= 'f')
}

/// The character of any value in 0..=15 is lowercase hex, and ASCII.
proof fn lemma_hex_char(n: int)
    requires
        0 <= n < 16,
    ensures
        is_hex_lower(hex_char(n)),
        '\0' <= hex_char(n) <= '\u{7f}',
{
}

/// Hex encodings are ASCII character sequences.
proof fn lemma_hex_of_ascii(s: Seq<u8>)
    ensures
        vstd::utf8::is_ascii_chars(hex_of(s)),
{
    assert forall|i: int| 0 <= i < hex_of(s).len() implies '\0' <= #[trigger] hex_of(s)[i]
        <= '\u{7f}' by {
        if i % 2 == 0 {
            lemma_hex_char((s[i / 2] / 16) as int);
        } else {
            lemma_hex_char((s[i / 2] % 16) as int);
        }
    }
}

/// Token syntax: every derived token is 36 characters in 8-4-4-4-12
/// lowercase-hex groups separated by hyphens; the version character
/// (index 14) is always '4' and the variant character (index 19) is one
/// of '8', '9', 'a', 'b'.
pub proof fn lemma_uuid_syntax(h: Seq<u8>)
    requires
        h.len() >= 16,
    ensures
        uuid_chars(h).len() == 36,
        uuid_chars(h)[8] == '-',
        uuid_chars(h)[13] == '-',
        uuid_chars(h)[18] == '-',
        uuid_chars(h)[23] == '-',
        forall|i: int|
            0 <= i < 36 && i != 8 && i != 13 && i != 18 && i != 23 ==> is_hex_lower(
                #[trigger] uuid_chars(h)[i],
            ),
        uuid_chars(h)[14] == '4',
        uuid_chars(h)[19] == '8' || uuid_chars(h)[19] == '9' || uuid_chars(h)[19] == 'a'
            || uuid_chars(h)[19] == 'b',
{
    let u = uuid_bytes(h);
    let x = hex_of(u);
    assert(x.len() == 32);
    assert forall|j: int| 0 <= j < 32 implies is_hex_lower(#[trigger] x[j]) by {
        if j % 2 == 0 {
            lemma_hex_char((u[j / 2] / 16) as int);
        } else {
            lemma_hex_char((u[j / 2] % 16) as int);
        }
    }
    let b6 = h[6];
    let b8 = h[8];
    assert((b6 & 0x0F) < 16 && ((b6 & 0x0F) | 0x40) == 64 + (b6 & 0x0F)) by (bit_vector);
    assert((b8 & 0x3F) < 64 && ((b8 & 0x3F) | 0x80) == 128 + (b8 & 0x3F)) by (bit_vector);
    assert(uuid_chars(h)[14] == x[12]);
    assert(x[12] == hex_char((u[6] / 16) as int));
    assert(u[6] / 16 == 4);
    assert(uuid_chars(h)[19] == x[16]);
    assert(x[16] == hex_char((u[8] / 16) as int));
    assert(8 <= u[8] / 16 < 12);
    assert forall|i: int|
        0 <= i < 36 && i != 8 && i != 13 && i != 18 && i != 23 implies is_hex_lower(
        #[trigger] uuid_chars(h)[i],
    ) by {
        if i < 8 {
            assert(uuid_chars(h)[i] == x[i]);
        } else if i < 13 {
            assert(uuid_chars(h)[i] == x[i - 1]);
        } else if i < 18 {
            assert(uuid_chars(h)[i] == x[i - 2]);
        } else if i < 23 {
            assert(uuid_chars(h)[i] == x[i - 3]);
        } else {
            assert(uuid_chars(h)[i] == x[i - 4]);
        }
    }
}

/// Two distinct values in 0..=15 have distinct hex characters.
proof fn lemma_hex_char_injective(a: int, b: int)
    requires
        0 <= a < 16,
        0 <= b < 16,
        hex_char(a) == hex_char(b),
    ensures
        a == b,
{
}

/// The hex grouping loses nothing: two digests yield the same token only
/// if their candidate UUID bytes agree, so tokens differ whenever the
/// digests differ in any bit that the version/variant overwrite leaves
/// in place.
pub proof fn lemma_uuid_chars_injective(h1: Seq<u8>, h2: Seq<u8>)
    requires
        h1.len() >= 16,
        h2.len() >= 16,
        uuid_chars(h1) == uuid_chars(h2),
    ensures
        uuid_bytes(h1) =~= uuid_bytes(h2),
{
    let u1 = uuid_bytes(h1);
    let u2 = uuid_bytes(h2);
    let x1 = hex_of(u1);
    let x2 = hex_of(u2);
    assert forall|j: int| 0 <= j < 32 implies x1[j] == x2[j] by {
        if j < 8 {
            assert(uuid_chars(h1)[j] == x1[j]);
            assert(uuid_chars(h2)[j] == x2[j]);
        } else if j < 12 {
            assert(uuid_chars(h1)[j + 1] == x1[j]);
            assert(uuid_chars(h2)[j + 1] == x2[j]);
        } else if j < 16 {
            assert(uuid_chars(h1)[j + 2] == x1[j]);
            assert(uuid_chars(h2)[j + 2] == x2[j]);
        } else if j < 20 {
            assert(uuid_chars(h1)[j + 3] == x1[j]);
            assert(uuid_chars(h2)[j + 3] == x2[j]);
        } else {
            assert(uuid_chars(h1)[j + 4] == x1[j]);
            assert(uuid_chars(h2)[j + 4] == x2[j]);
        }
    }
    assert forall|i: int| 0 <= i < 16 implies u1[i] == u2[i] by {
        assert(x1[2 * i] == x2[2 * i]);
        assert(x1[2 * i + 1] == x2[2 * i + 1]);
        assert(x1[2 * i] == hex_char((u1[i] / 16) as int));
        assert(x2[2 * i] == hex_char((u2[i] / 16) as int));
        assert(x1[2 * i + 1] == hex_char((u1[i] % 16) as int));
        assert(x2[2 * i + 1] == hex_char((u2[i] % 16) as int));
        lemma_hex_char_injective((u1[i] / 16) as int, (u2[i] / 16) as int);
        lemma_hex_char_injective((u1[i] % 16) as int, (u2[i] % 16) as int);
        assert(u1[i] == (u1[i] / 16) * 16 + u1[i] % 16);
        assert(u2[i] == (u2[i] / 16) * 16 + u2[i] % 16);
    }
}

/// Determinism: the derived token is a function of the secret key and the
/// identifier's payload alone, so identical inputs always yield the
/// byte-identical token.
pub proof fn lemma_derive_deterministic(key1: Seq<u8>, d1: Seq<u8>, key2: Seq<u8>, d2: Seq<u8>)
    requires
        key1 == key2,
        d1 == d2,
    ensures
        uuid_chars(hmac_sha256_of(key1, format_bytes(d1))) == uuid_chars(
            hmac_sha256_of(key2, format_bytes(d2)),
        ),
{
}

} // verus!
