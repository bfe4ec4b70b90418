//! Read-once configuration values: the expected Trojan password hash, the
//! tunnel path prefix, the read-buffer size, and the DoH host. Callers read
//! the raw environment values once and hand them here as plain options.

use sha2::Digest;
use vstd::prelude::*;
use vstd::string::StrSliceExecFns;
use vstd::string::StringExecFns;

verus! {

/// What SHA-224 returns for the given bytes; the digest is a function of
/// its input alone.
pub uninterp spec fn sha224_of(data: Seq<u8>) -> Seq<u8>;

/// Relies on sha2's `Sha224::digest`: the SHA-224 digest, 28 bytes,
/// depending on the input bytes alone.
#[verifier::external_body]
fn sha224(data: &[u8]) -> (r: Vec<u8>)
    ensures
        r@ == sha224_of(data@),
        r@.len() == 28,
{
    sha2::Sha224::digest(data).as_slice().to_vec()
}

/// The ASCII code of the lowercase hex digit for `n < 16`.
pub open spec fn hex_digit(n: u8) -> u8 {
    if n < 10 {
        (48 + n) as u8
    } else {
        (87 + n) as u8
    }
}

/// `b` is the ASCII code of a lowercase hex digit.
pub open spec fn is_lower_hex(b: u8) -> bool {
    (48 <= b <= 57) || (97 <= b <= 102)
}

/// Lowercase hex encoding of a byte sequence, two digits per byte.
pub open spec fn spec_hex(data: Seq<u8>) -> Seq<u8>
    decreases data.len(),
{
    if data.len() == 0 {
        Seq::empty()
    } else {
        seq![hex_digit(data.first() / 16), hex_digit(data.first() % 16)] + spec_hex(
            data.drop_first(),
        )
    }
}

/// The hex encoding is twice as long as its input and holds only
/// lowercase hex digits.
pub proof fn lemma_hex_shape(data: Seq<u8>)
    ensures
        spec_hex(data).len() == 2 * data.len(),
        forall|i: int| 0 <= i < spec_hex(data).len() ==> is_lower_hex(#[trigger] spec_hex(data)[i]),
    decreases data.len(),
{
    if data.len() > 0 {
        lemma_hex_shape(data.drop_first());
    }
}

/// Lowercase hex encoding of a byte slice.
pub fn hex_bytes(data: &[u8]) -> (r: Vec<u8>)
    ensures
        r@ == spec_hex(data@),
{
    let mut r: Vec<u8> = Vec::new();
    let mut i: usize = 0;
    proof {
        assert(data@.skip(0) =~= data@);
    }
    while i < data.len()
        invariant
            i <= data@.len(),
            spec_hex(data@) =~= r@ + spec_hex(data@.skip(i as int)),
        decreases data@.len() - i,
    {
        let b = data[i];
        let hi = b / 16;
        let lo = b % 16;
        r.push(if hi < 10 { 48 + hi } else { 87 + hi });
        r.push(if lo < 10 { 48 + lo } else { 87 + lo });
        proof {
            assert(data@.skip(i as int).first() == b);
            assert(data@.skip(i as int).drop_first() =~= data@.skip(i + 1));
        }
        i = i + 1;
    }
    proof {
        assert(data@.skip(i as int) =~= Seq::<u8>::empty());
        assert(r@ + Seq::<u8>::empty() =~= r@);
    }
    r
}

/// The expected Trojan credential: the lowercase hex encoding of the
/// SHA-224 of the password, kept as its 56-byte ASCII representation.
pub fn get_expected_hash(password: &[u8]) -> (r: Vec<u8>)
    ensures
        r@ == spec_hex(sha224_of(password@)),
        r@.len() == 56,
        forall|i: int| 0 <= i < r@.len() ==> is_lower_hex(#[trigger] r@[i]),
{
    let digest = sha224(password);
    let r = hex_bytes(digest.as_slice());
    proof {
        lemma_hex_shape(digest@);
    }
    r
}

/// The DoH host to forward resolutions to: the configured value, or
/// `1.1.1.1` when none is set.
pub fn get_doh_host(var: Option<String>) -> (r: String)
    ensures
        match var {
            Some(v) => r@ == v@,
            None => r@ == "1.1.1.1"@,
        },
{
    match var {
        Some(v) => v,
        None => "1.1.1.1".to_owned(),
    }
}

/// The tunnel path prefix: the configured secret, or `/tj` when none is
/// set, with a leading slash enforced.
pub fn get_prefix_trojan(secret: Option<String>) -> (r: String)
    ensures
        match secret {
            Some(p) => if p@.len() > 0 && p@[0] == '/' {
                r@ == p@
            } else {
                r@ == seq!['/'] + p@
            },
            None => r@ == "/tj"@,
        },
{
    match secret {
        Some(p) => {
            if p.as_str().unicode_len() > 0 && p.as_str().get_char(0) == '/' {
                p
            } else {
                let r = "/".to_owned().concat(p.as_str());
                proof {
                    reveal_strlit("/");
                    assert("/"@ =~= seq!['/']);
                }
                r
            }
        },
        None => "/tj".to_owned(),
    }
}

/// `s` is a non-empty run of ASCII decimal digits.
pub open spec fn all_dec_digits(s: Seq<char>) -> bool {
    forall|i: int| 0 <= i < s.len() ==> '0' <= #[trigger] s[i] <= '9'
}

/// The numeric value of a digit run, most significant first.
pub open spec fn dec_val(s: Seq<char>) -> nat
    decreases s.len(),
{
    if s.len() == 0 {
        0
    } else {
        (dec_val(s.drop_last()) * 10 + (s.last() as u32 - 48)) as nat
    }
}

/// A digit run's value only grows as digits are appended.
proof fn lemma_dec_val_prefix(s: Seq<char>, i: int)
    requires
        0 <= i <= s.len(),
        all_dec_digits(s),
    ensures
        dec_val(s.take(i)) <= dec_val(s),
    decreases s.len() - i,
{
    if i < s.len() {
        lemma_dec_val_prefix(s, i + 1);
        assert(s.take(i + 1).drop_last() =~= s.take(i));
        assert(s.take(i + 1).last() == s[i]);
        assert('0' <= s[i] <= '9');
        assert(dec_val(s.take(i + 1)) == dec_val(s.take(i)) * 10 + (s[i] as u32 - 48));
        assert(dec_val(s.take(i)) <= dec_val(s.take(i)) * 10 + (s[i] as u32 - 48));
    } else {
        assert(s.take(i) =~= s);
    }
}

/// The configured read-buffer size, parsed as a decimal `usize`; a missing
/// or malformed value (non-digits, empty, or out of range) yields 2048.
pub fn get_bufsize(var: Option<String>) -> (r: usize)
    ensures
        match var {
            Some(v) => if v@.len() > 0 && all_dec_digits(v@) && dec_val(v@) <= usize::MAX {
                r == dec_val(v@)
            } else {
                r == 2048
            },
            None => r == 2048,
        },
{
    match var {
        Some(v) => parse_usize_dec(v.as_str()),
        None => 2048,
    }
}

/// Decimal parse of a digit run; empty, non-digit or out-of-range input
/// yields the default buffer size of 2048.
fn parse_usize_dec(s: &str) -> (r: usize)
    ensures
        if s@.len() > 0 && all_dec_digits(s@) && dec_val(s@) <= usize::MAX {
            r == dec_val(s@)
        } else {
            r == 2048
        },
{
    let n = s.unicode_len();
    if n == 0 {
        return 2048;
    }
    let mut acc: usize = 0;
    let mut i: usize = 0;
    proof {
        assert(s@.take(0) =~= Seq::<char>::empty());
    }
    while i < n
        invariant
            i <= n,
            n == s@.len(),
            acc == dec_val(s@.take(i as int)),
            all_dec_digits(s@.take(i as int)),
        decreases n - i,
    {
        let c = s.get_char(i);
        if !('0' <= c && c <= '9') {
            assert(!all_dec_digits(s@));
            return 2048;
        }
        let d: usize = ((c as u8) - 48) as usize;
        if acc > usize::MAX / 10 || (acc == usize::MAX / 10 && d > usize::MAX % 10) {
            proof {
                assert(s@.take(i + 1).drop_last() =~= s@.take(i as int));
                assert(s@.take(i + 1).last() == c);
                assert(dec_val(s@.take(i + 1)) == acc * 10 + d);
                assert(acc * 10 + d > usize::MAX);
                if all_dec_digits(s@) {
                    lemma_dec_val_prefix(s@, i + 1);
                }
            }
            return 2048;
        }
        acc = acc * 10 + d;
        proof {
            assert(s@.take(i + 1).drop_last() =~= s@.take(i as int));
            assert(s@.take(i + 1).last() == c);
            assert forall|j: int| 0 <= j < i + 1 implies '0' <= #[trigger] s@.take(i + 1)[j]
                <= '9' by {
                if j < i {
                    assert(s@.take(i as int)[j] == s@.take(i + 1)[j]);
                }
            }
        }
        i = i + 1;
    }
    proof {
        assert(s@.take(n as int) =~= s@);
    }
    acc
}

} // verus!
