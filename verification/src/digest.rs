//! Content digests and their hexadecimal form.

use sha2::Digest;
use vstd::prelude::*;
use vstd::string::*;

verus! {

/// The SHA-256 digest of a sequence of bytes.
pub uninterp spec fn sha256_of(bytes: Seq<u8>) -> Seq<u8>;

/// Calls `sha2::Sha256::digest`. Trusted: the result is the SHA-256 digest of the bytes, which
/// depends on them alone and has 32 bytes. The hasher counts bits in 64 bits, so longer inputs are
/// left out.
#[verifier::external_body]
pub(crate) fn sha256(bytes: &[u8]) -> (res: Vec<u8>)
    requires
        bytes@.len() < 0x2000_0000_0000_0000,
    ensures
        res@ == sha256_of(bytes@),
        res@.len() == 32,
{
    sha2::Sha256::digest(bytes).to_vec()
}

/// The hexadecimal digit of a number below 16.
pub open spec fn hex_digit(d: int) -> char {
    if d < 10 {
        (48 + d) as char
    } else {
        (87 + d) as char
    }
}

/// The bytes in lower-case hexadecimal, two digits for each.
pub open spec fn hex_of(bytes: Seq<u8>) -> Seq<char>
    decreases bytes.len(),
{
    if bytes.len() == 0 {
        Seq::empty()
    } else {
        hex_of(bytes.drop_last()) + seq![
            hex_digit(bytes.last() as int / 16),
            hex_digit(bytes.last() as int % 16),
        ]
    }
}

/// Whether a text is made of lower-case hexadecimal digits.
pub open spec fn is_hex_text(text: Seq<char>) -> bool {
    forall|i: int|
        0 <= i < text.len() ==> ('0' <= #[trigger] text[i] <= '9' || 'a' <= text[i] <= 'f')
}

fn digit_text(d: u8) -> (res: &'static str)
    requires
        d < 16,
    ensures
        res@ == seq![hex_digit(d as int)],
{
    proof {
        reveal_strlit("0");
        reveal_strlit("1");
        reveal_strlit("2");
        reveal_strlit("3");
        reveal_strlit("4");
        reveal_strlit("5");
        reveal_strlit("6");
        reveal_strlit("7");
        reveal_strlit("8");
        reveal_strlit("9");
        reveal_strlit("a");
        reveal_strlit("b");
        reveal_strlit("c");
        reveal_strlit("d");
        reveal_strlit("e");
        reveal_strlit("f");
    }
    match d {
        0 => "0",
        1 => "1",
        2 => "2",
        3 => "3",
        4 => "4",
        5 => "5",
        6 => "6",
        7 => "7",
        8 => "8",
        9 => "9",
        10 => "a",
        11 => "b",
        12 => "c",
        13 => "d",
        14 => "e",
        _ => "f",
    }
}

/// Writes bytes in lower-case hexadecimal.
pub fn hex(bytes: &[u8]) -> (res: String)
    ensures
        res@ == hex_of(bytes@),
{
    let mut out = String::new();
    let mut i: usize = 0;
    while i < bytes.len()
        invariant
            i <= bytes@.len(),
            out@ == hex_of(bytes@.take(i as int)),
        decreases bytes@.len() - i,
    {
        let b: u8 = bytes[i];
        let ghost before = out@;
        out.append(digit_text(b / 16));
        out.append(digit_text(b % 16));
        proof {
            let t = bytes@.take(i + 1);
            assert(t.drop_last() =~= bytes@.take(i as int));
            assert(t.last() == b);
            assert(out@ =~= before + seq![
                hex_digit(b as int / 16),
                hex_digit(b as int % 16),
            ]);
        }
        i += 1;
    }
    assert(bytes@.take(i as int) =~= bytes@);
    out
}

/// The SHA-256 digest of bytes in hexadecimal, cut to its first `n` bytes.
pub fn digest_hex(bytes: &[u8], n: usize) -> (res: String)
    requires
        n <= 32,
        bytes@.len() < 0x2000_0000_0000_0000,
    ensures
        res@ == hex_of(sha256_of(bytes@).take(n as int)),
        res@.len() == 2 * n,
        is_hex_text(res@),
{
    let digest = sha256(bytes);
    head_hex(&digest, n)
}

/// The first `n` bytes of a digest in hexadecimal.
pub fn head_hex(digest: &Vec<u8>, n: usize) -> (res: String)
    requires
        n <= digest@.len(),
    ensures
        res@ == hex_of(digest@.take(n as int)),
        res@.len() == 2 * n,
        is_hex_text(res@),
{
    let mut head: Vec<u8> = Vec::new();
    let mut i: usize = 0;
    while i < n
        invariant
            i <= n <= digest@.len(),
            head@ == digest@.take(i as int),
        decreases n - i,
    {
        head.push(digest[i]);
        i += 1;
        assert(head@ =~= digest@.take(i as int));
    }
    proof {
        lemma_hex_text(head@);
    }
    hex(&head)
}

/// Different bytes are written differently.
pub proof fn law_hex_is_one_to_one(a: Seq<u8>, b: Seq<u8>)
    ensures
        hex_of(a) == hex_of(b) <==> a == b,
    decreases a.len(),
{
    lemma_hex_len(a);
    lemma_hex_len(b);
    if hex_of(a) == hex_of(b) {
        if a.len() > 0 {
            let x = hex_of(a);
            let y = hex_of(b);
            let n = x.len() as int;
            assert(x.take(n - 2) =~= hex_of(a.drop_last()));
            assert(y.take(n - 2) =~= hex_of(b.drop_last()));
            assert(x[n - 2] == hex_digit(a.last() as int / 16));
            assert(x[n - 1] == hex_digit(a.last() as int % 16));
            assert(y[n - 2] == hex_digit(b.last() as int / 16));
            assert(y[n - 1] == hex_digit(b.last() as int % 16));
            assert(a.last() == b.last());
            law_hex_is_one_to_one(a.drop_last(), b.drop_last());
            assert(a =~= a.drop_last().push(a.last()));
            assert(b =~= b.drop_last().push(b.last()));
        }
        assert(a =~= b);
    }
}

proof fn lemma_hex_len(a: Seq<u8>)
    ensures
        hex_of(a).len() == 2 * a.len(),
    decreases a.len(),
{
    if a.len() > 0 {
        lemma_hex_len(a.drop_last());
    }
}

/// Bytes in hexadecimal are made of digits, two for each.
pub proof fn lemma_hex_text(a: Seq<u8>)
    ensures
        is_hex_text(hex_of(a)),
        hex_of(a).len() == 2 * a.len(),
{
    lemma_hex_digits(a);
    lemma_hex_len(a);
}

proof fn lemma_hex_digits(a: Seq<u8>)
    ensures
        is_hex_text(hex_of(a)),
    decreases a.len(),
{
    if a.len() > 0 {
        lemma_hex_digits(a.drop_last());
    }
}

} // verus!
