use vstd::prelude::*;
use crate::manifest::ContentHash;

verus! {

pub open spec fn hex_digit(n: u8) -> char {
    seq!['0', '1', '2', '3', '4', '5', '6', '7', '8', '9', 'a', 'b', 'c', 'd', 'e', 'f'][n as int]
}

/// Lowercase hexadecimal, two digits per byte, high nibble first.
pub open spec fn hex_of(b: Seq<u8>) -> Seq<char>
    decreases b.len(),
{
    if b.len() == 0 {
        seq![]
    } else {
        hex_of(b.drop_last()) + seq![hex_digit(b.last() / 16), hex_digit(b.last() % 16)]
    }
}

pub open spec fn send_prefix() -> Seq<char> {
    seq!['.', 's', 'e', 'n', 'd', 'm', 'e', '-', 's', 'e', 'n', 'd', '-']
}

pub open spec fn receive_prefix() -> Seq<char> {
    seq!['.', 's', 'e', 'n', 'd', 'm', 'e', '-', 'g', 'e', 't', '-']
}

/// Relies on data_encoding's HEXLOWER.encode: the digits "0123456789abcdef",
/// two per byte, high nibble first. Its length computation (`encode_len`)
/// asserts that the input is at most usize::MAX / 512 bytes long.
#[verifier::external_body]
fn hex_lower(bytes: &[u8]) -> (r: String)
    requires
        bytes@.len() <= usize::MAX / 512,
    ensures
        r@ == hex_of(bytes@),
{
    data_encoding::HEXLOWER.encode(bytes)
}

/// The name of the working directory of a send session, from the random
/// bytes drawn for it.
pub fn send_dir_name(suffix: &[u8; 16]) -> (r: String)
    ensures
        r@ == send_prefix() + hex_of(suffix@),
{
    let mut name = String::from_str(".sendme-send-");
    let digits = hex_lower(suffix.as_slice());
    proof {
        reveal_strlit(".sendme-send-");
        assert(".sendme-send-"@ =~= send_prefix());
    }
    name.append(digits.as_str());
    name
}

/// The name of the working directory of a receive session: derived from the
/// root hash, so that another attempt for the same ticket reuses it.
pub fn receive_dir_name(root: &ContentHash) -> (r: String)
    ensures
        r@ == receive_prefix() + hex_of(root.bytes@),
{
    let mut name = String::from_str(".sendme-get-");
    let digits = hex_lower(root.bytes.as_slice());
    proof {
        reveal_strlit(".sendme-get-");
        assert(".sendme-get-"@ =~= receive_prefix());
    }
    name.append(digits.as_str());
    name
}

proof fn lemma_hex_len(b: Seq<u8>)
    ensures
        hex_of(b).len() == 2 * b.len(),
    decreases b.len(),
{
    if b.len() > 0 {
        lemma_hex_len(b.drop_last());
    }
}

proof fn lemma_hex_digit_injective(x: u8, y: u8)
    requires
        x < 16,
        y < 16,
        hex_digit(x) == hex_digit(y),
    ensures
        x == y,
{
}

/// Equal encodings come only from equal bytes.
pub proof fn lemma_hex_injective(a: Seq<u8>, b: Seq<u8>)
    requires
        hex_of(a) == hex_of(b),
    ensures
        a == b,
    decreases a.len(),
{
    lemma_hex_len(a);
    lemma_hex_len(b);
    if a.len() > 0 {
        let ha = hex_of(a.drop_last());
        let hb = hex_of(b.drop_last());
        lemma_hex_len(a.drop_last());
        lemma_hex_len(b.drop_last());
        let n = ha.len() as int;
        assert(hex_of(a) == ha + seq![hex_digit(a.last() / 16), hex_digit(a.last() % 16)]);
        assert(hex_of(b) == hb + seq![hex_digit(b.last() / 16), hex_digit(b.last() % 16)]);
        assert(hb.len() == n);
        assert(hex_of(a)[n] == hex_digit(a.last() / 16));
        assert(hex_of(b)[n] == hex_digit(b.last() / 16));
        assert(hex_of(a)[n + 1] == hex_digit(a.last() % 16));
        assert(hex_of(b)[n + 1] == hex_digit(b.last() % 16));
        lemma_hex_digit_injective(a.last() / 16, b.last() / 16);
        lemma_hex_digit_injective(a.last() % 16, b.last() % 16);
        assert(ha =~= hex_of(a).subrange(0, n));
        assert(hb =~= hex_of(b).subrange(0, n));
        lemma_hex_injective(a.drop_last(), b.drop_last());
        assert(a =~= a.drop_last().push(a.last()));
        assert(b =~= b.drop_last().push(b.last()));
    }
}

/// Two receive attempts share a working directory exactly when their root
/// hashes are equal: another attempt for the same ticket finds the store of
/// the first, and no other ticket ever does.
pub proof fn lemma_receive_dir_identifies_root(a: ContentHash, b: ContentHash)
    ensures
        (receive_prefix() + hex_of(a.bytes@) == receive_prefix() + hex_of(b.bytes@)) <==> a.bytes@
            == b.bytes@,
{
    if receive_prefix() + hex_of(a.bytes@) == receive_prefix() + hex_of(b.bytes@) {
        let k = receive_prefix().len() as int;
        assert(hex_of(a.bytes@) =~= (receive_prefix() + hex_of(a.bytes@)).skip(k));
        assert(hex_of(b.bytes@) =~= (receive_prefix() + hex_of(b.bytes@)).skip(k));
        lemma_hex_injective(a.bytes@, b.bytes@);
    }
}

} // verus!
