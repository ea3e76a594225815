//! SHA-256 digests, their hexadecimal form and their reading as integers.

use vstd::prelude::*;
use vstd::arithmetic::power2::{lemma2_to64, lemma_pow2_adds, lemma_pow2_pos, pow2};
use vstd::bits::lemma_u8_shr_is_div;
use vstd::string::*;
use vstd::utf8::{encode_utf8, is_ascii_chars_encode_utf8};
use crypto::digest::Digest;
use crypto::sha2::Sha256;

verus! {

/// The SHA-256 digest of a byte string.
pub uninterp spec fn sha256(data: Seq<u8>) -> Seq<u8>;

/// Calls `Sha256::new`, `Digest::input` and `Digest::result` of the crate
/// `crypto`. The result is the SHA-256 digest of `data`: it depends on
/// `data` alone and has 32 bytes.
#[verifier::external_body]
pub(crate) fn sha256_of(data: &[u8]) -> (out: Vec<u8>)
    ensures
        out@ == sha256(data@),
        out@.len() == 32,
{
    let mut hasher = Sha256::new();
    hasher.input(data);
    let mut out = vec![0u8; hasher.output_bytes()];
    hasher.result(&mut out);
    out
}

/// The lower-case hexadecimal digit for a value below 16.
pub open spec fn hex_digit(n: int) -> char {
    if n == 0 {
        '0'
    } else if n == 1 {
        '1'
    } else if n == 2 {
        '2'
    } else if n == 3 {
        '3'
    } else if n == 4 {
        '4'
    } else if n == 5 {
        '5'
    } else if n == 6 {
        '6'
    } else if n == 7 {
        '7'
    } else if n == 8 {
        '8'
    } else if n == 9 {
        '9'
    } else if n == 10 {
        'a'
    } else if n == 11 {
        'b'
    } else if n == 12 {
        'c'
    } else if n == 13 {
        'd'
    } else if n == 14 {
        'e'
    } else {
        'f'
    }
}

/// The lower-case hexadecimal form of a byte string, two digits a byte.
pub open spec fn hex_of(d: Seq<u8>) -> Seq<char> {
    Seq::new(
        2 * d.len(),
        |i: int|
            if i % 2 == 0 {
                hex_digit(d[i / 2] as int / 16)
            } else {
                hex_digit(d[i / 2] as int % 16)
            },
    )
}

/// A byte string read as an unsigned integer, most significant byte first.
pub open spec fn be_value(d: Seq<u8>) -> nat
    decreases d.len(),
{
    if d.len() == 0 {
        0
    } else {
        be_value(d.drop_last()) * 256 + d.last() as nat
    }
}

/// Whether a 32-byte digest, read as an integer, lies below `1 << (256 - bits)`.
pub open spec fn meets_target(d: Seq<u8>, bits: nat) -> bool {
    be_value(d) < pow2((256 - bits) as nat)
}

/// The test on bytes that `meets_target` comes to: the first `bits / 8`
/// bytes are zero, and so are the first `bits % 8` bits of the byte behind
/// them.
pub open spec fn leading_zero_bits(d: Seq<u8>, bits: nat) -> bool {
    &&& forall|j: int| 0 <= j < bits / 8 ==> d[j] == 0
    &&& bits % 8 != 0 ==> (d[(bits / 8) as int] as nat) < pow2((8 - bits % 8) as nat)
}

proof fn lemma_be_bound(s: Seq<u8>)
    ensures
        be_value(s) < pow2(8 * s.len()),
    decreases s.len(),
{
    lemma2_to64();
    if s.len() > 0 {
        let init = s.drop_last();
        lemma_be_bound(init);
        lemma_pow2_adds(8 * init.len(), 8);
        let p = pow2(8 * init.len());
        assert(8 * init.len() + 8 == 8 * s.len());
        assert(be_value(init) * 256 + 255 < p * 256) by (nonlinear_arith)
            requires
                be_value(init) < p,
        ;
    }
}

proof fn lemma_be_zero(s: Seq<u8>)
    ensures
        be_value(s) == 0 <==> forall|j: int| 0 <= j < s.len() ==> s[j] == 0,
    decreases s.len(),
{
    if s.len() > 0 {
        let init = s.drop_last();
        lemma_be_zero(init);
        if be_value(s) == 0 {
            assert(be_value(init) == 0 && s.last() == 0);
            assert forall|j: int| 0 <= j < s.len() implies s[j] == 0 by {
                if j < init.len() {
                    assert(init[j] == s[j]);
                }
            }
        }
        if forall|j: int| 0 <= j < s.len() ==> s[j] == 0 {
            assert forall|j: int| 0 <= j < init.len() implies init[j] == 0 by {
                assert(init[j] == s[j]);
            }
            assert(s.last() == s[s.len() - 1]);
        }
    }
}

proof fn lemma_be_split(d: Seq<u8>, k: int)
    requires
        0 <= k <= d.len(),
    ensures
        be_value(d) == be_value(d.take(k)) * pow2((8 * (d.len() - k)) as nat) + be_value(
            d.skip(k),
        ),
    decreases d.len(),
{
    lemma2_to64();
    if k == d.len() {
        assert(d.take(k) =~= d);
        assert(d.skip(k) =~= Seq::<u8>::empty());
        assert(be_value(d) * 1 == be_value(d)) by (nonlinear_arith);
    } else {
        let init = d.drop_last();
        lemma_be_split(init, k);
        assert(init.take(k) =~= d.take(k));
        assert(d.skip(k).drop_last() =~= init.skip(k));
        assert(d.skip(k).last() == d.last());
        let a = be_value(d.take(k));
        let e = (8 * (init.len() - k)) as nat;
        lemma_pow2_adds(e, 8);
        assert(e + 8 == 8 * (d.len() - k));
        let p = pow2(e);
        let b = be_value(init.skip(k));
        assert((a * p + b) * 256 == a * (p * 256) + b * 256) by (nonlinear_arith);
    }
}

/// A digest lies below the threshold exactly when its leading bits are zero.
pub proof fn lemma_target_by_leading_bits(d: Seq<u8>, bits: nat)
    requires
        d.len() == 32,
        bits <= 256,
    ensures
        meets_target(d, bits) <==> leading_zero_bits(d, bits),
{
    lemma2_to64();
    let k = (bits / 8) as int;
    let r = bits % 8;
    let head = d.take(k);
    lemma_be_zero(head);
    assert forall|j: int| 0 <= j < k implies head[j] == d[j] by {}
    assert((forall|j: int| 0 <= j < head.len() ==> head[j] == 0) <==> (forall|j: int|
        0 <= j < bits / 8 ==> d[j] == 0));
    let a = be_value(head);
    if r == 0 {
        let p = pow2((8 * (32 - k)) as nat);
        lemma_be_split(d, k);
        lemma_be_bound(d.skip(k));
        let b = be_value(d.skip(k));
        assert(256 - bits == 8 * (32 - k));
        assert(b < p);
        if a >= 1 {
            assert(a * p >= p) by (nonlinear_arith)
                requires
                    a >= 1,
                    p >= 0,
            ;
        } else {
            assert(a * p == 0) by (nonlinear_arith)
                requires
                    a == 0,
            ;
        }
    } else {
        let e = (8 * (31 - k)) as nat;
        let p = pow2(e);
        let t = pow2((8 - r) as nat);
        lemma_be_split(d, k + 1);
        lemma_be_bound(d.skip(k + 1));
        lemma_pow2_adds((8 - r) as nat, e);
        lemma_pow2_pos(e);
        assert((8 - r) + e == 256 - bits);
        let b = be_value(d.skip(k + 1));
        let wide = d.take(k + 1);
        assert(wide.drop_last() =~= head);
        assert(wide.last() == d[k]);
        let a1 = be_value(wide);
        assert(a1 == a * 256 + d[k] as nat);
        assert(1 <= t <= 128);
        assert(be_value(d) == a1 * p + b);
        if a1 < t {
            assert(a1 * p + b < t * p) by (nonlinear_arith)
                requires
                    a1 + 1 <= t,
                    b < p,
            ;
        } else {
            assert(a1 * p + b >= t * p) by (nonlinear_arith)
                requires
                    a1 >= t,
                    b >= 0,
                    p >= 0,
            ;
        }
        assert(pow2((256 - bits) as nat) == t * p);
    }
}

/// Whether a digest meets the difficulty `bits`.
pub fn digest_meets_target(d: &[u8], bits: u32) -> (ok: bool)
    requires
        d@.len() == 32,
        bits <= 256,
    ensures
        ok == meets_target(d@, bits as nat),
{
    proof {
        lemma_target_by_leading_bits(d@, bits as nat);
    }
    let full: usize = (bits / 8) as usize;
    let part: u8 = (bits % 8) as u8;
    let mut i: usize = 0;
    while i < full
        invariant
            i <= full <= 32,
            d@.len() == 32,
            full == bits as nat / 8,
            meets_target(d@, bits as nat) <==> leading_zero_bits(d@, bits as nat),
            forall|j: int| 0 <= j < i ==> d@[j] == 0,
        decreases full - i,
    {
        if d[i] != 0 {
            return false;
        }
        i += 1;
    }
    if part == 0 {
        return true;
    }
    let shift: u8 = 8 - part;
    proof {
        lemma_u8_shr_is_div(d@[full as int], shift);
        lemma_pow2_pos(shift as nat);
        let x = d@[full as int] as nat;
        let t = pow2(shift as nat);
        assert((x / t == 0) <==> x < t) by (nonlinear_arith)
            requires
                t > 0,
        ;
    }
    (d[full] >> shift) == 0
}

/// The text of one hexadecimal digit.
fn hex_text(n: u8) -> (t: &'static str)
    requires
        n < 16,
    ensures
        t@ == seq![hex_digit(n as int)],
{
    proof {
        reveal_strlit("0");
        reveal_strlit("1");
        reveal_strlit("2");
        reveal_strlit("3");
        reveal_strlit("4");
        reveal_strlit("5");
        reveal_strlit("6");
        reveal_strlit("7");
        reveal_strlit("8");
        reveal_strlit("9");
        reveal_strlit("a");
        reveal_strlit("b");
        reveal_strlit("c");
        reveal_strlit("d");
        reveal_strlit("e");
        reveal_strlit("f");
    }
    let t = match n {
        0 => "0",
        1 => "1",
        2 => "2",
        3 => "3",
        4 => "4",
        5 => "5",
        6 => "6",
        7 => "7",
        8 => "8",
        9 => "9",
        10 => "a",
        11 => "b",
        12 => "c",
        13 => "d",
        14 => "e",
        _ => "f",
    };
    assert(t@ =~= seq![hex_digit(n as int)]);
    t
}

/// The lower-case hexadecimal form of `d`.
pub fn to_hex(d: &[u8]) -> (t: String)
    ensures
        t@ == hex_of(d@),
{
    let mut t = String::new();
    let mut i: usize = 0;
    assert(t@ =~= hex_of(d@).take(0));
    while i < d.len()
        invariant
            i <= d@.len(),
            t@ == hex_of(d@).take(2 * i),
        decreases d@.len() - i,
    {
        let b = d[i];
        t.append(hex_text(b / 16));
        t.append(hex_text(b % 16));
        i += 1;
        assert(t@ =~= hex_of(d@).take(2 * i));
    }
    assert(t@ =~= hex_of(d@));
    t
}

/// The hexadecimal form of a byte string is ASCII: a byte a digit.
pub proof fn lemma_hex_fits(d: Seq<u8>)
    ensures
        encode_utf8(hex_of(d)).len() == 2 * d.len(),
{
    let h = hex_of(d);
    assert forall|i: int| 0 <= i < h.len() implies (h[i] as u32) < 128 by {
        let n = if i % 2 == 0 {
            d[i / 2] as int / 16
        } else {
            d[i / 2] as int % 16
        };
        assert(h[i] == hex_digit(n));
    }
    is_ascii_chars_encode_utf8(h);
}

/// The hexadecimal SHA-256 digest of `data`.
pub fn sha256_hex(data: &[u8]) -> (t: String)
    ensures
        t@ == hex_of(sha256(data@)),
        t@.len() == 64,
{
    let d = sha256_of(data);
    to_hex(d.as_slice())
}

} // verus!
