//! File identifiers: UUIDs, held as their sixteen bytes.

use crate::text::digit;
use crate::wire::{be_range, be_value, lemma_be_bytes_of_value, lemma_be_value_bound};
use vstd::prelude::*;

verus! {

/// The sixteen bytes of a UUID, in the order in which they are sent.
pub type FileId = [u8; 16];

/// The lower-case digit that writes `d` down in hexadecimal.
pub open spec fn hex_digit(d: nat) -> char
    recommends
        d < 16,
{
    if d < 10 {
        digit(d)
    } else {
        (87 + d) as char
    }
}

/// The `k`th half of a byte in `id`, the high half of each byte first.
pub open spec fn half_byte(id: Seq<u8>, k: int) -> nat {
    if k % 2 == 0 {
        (id[k / 2] / 16) as nat
    } else {
        (id[k / 2] % 16) as nat
    }
}

/// Whether position `i` of a UUID's text holds a hyphen.
pub open spec fn is_hyphen(i: int) -> bool {
    i == 8 || i == 13 || i == 18 || i == 23
}

/// How many hyphens stand before position `i` of a UUID's text.
pub open spec fn hyphens_before(i: int) -> int {
    if i <= 8 {
        0
    } else if i <= 13 {
        1
    } else if i <= 18 {
        2
    } else if i <= 23 {
        3
    } else {
        4
    }
}

/// The text of a UUID: its bytes in hexadecimal, in groups of 8, 4, 4, 4 and
/// 12 digits with hyphens between them.
pub open spec fn hyphenated(id: Seq<u8>) -> Seq<char> {
    Seq::new(
        36,
        |i: int|
            if is_hyphen(i) {
                '-'
            } else {
                hex_digit(half_byte(id, i - hyphens_before(i)))
            },
    )
}

/// What every random UUID has in common: version 4, and the variant that the
/// standard gives out.
pub open spec fn is_version_4(id: Seq<u8>) -> bool {
    id.len() == 16 && id[6] / 16 == 4 && id[8] / 64 == 2
}

/// Trusted: `Uuid::new_v4` gives a random UUID, of which the version and the
/// variant are fixed. It panics where the system has no randomness to give.
#[verifier::external_body]
pub(crate) fn random_file_id() -> (id: FileId)
    ensures
        is_version_4(id@),
{
    uuid::Uuid::new_v4().into_bytes()
}

/// Trusted: the text of a `Uuid` made of `id` with `Uuid::from_bytes`, as its
/// `Display` writes it.
#[verifier::external_body]
pub(crate) fn file_id_text(id: &FileId) -> (text: String)
    ensures
        text@ == hyphenated(id@),
{
    uuid::Uuid::from_bytes(*id).to_string()
}

/// A new identifier, drawn at random.
pub fn new_file_id() -> (id: FileId)
    ensures
        is_version_4(id@),
{
    random_file_id()
}

/// The text of an identifier.
pub fn id_to_string(id: &FileId) -> (text: String)
    ensures
        text@ == hyphenated(id@),
{
    file_id_text(id)
}

/// The number under which a file is registered: its identifier, read as one
/// big-endian number.
pub open spec fn id_key(id: Seq<u8>) -> u128 {
    be_value(id) as u128
}

proof fn lemma_be_range_of_ids()
    ensures
        be_range(16) == 0x1_0000_0000_0000_0000_0000_0000_0000_0000nat,
        forall|k: nat| k <= 16 ==> #[trigger] be_range(k) <= be_range(16),
{
    reveal_with_fuel(be_range, 17);
    assert forall|k: nat| k <= 16 implies #[trigger] be_range(k) <= be_range(16) by {
        lemma_be_range_grows(k, 16);
    }
}

proof fn lemma_be_range_grows(j: nat, k: nat)
    requires
        j <= k,
    ensures
        be_range(j) <= be_range(k),
    decreases k,
{
    if j < k {
        lemma_be_range_grows(j, (k - 1) as nat);
    }
}

/// Different identifiers are registered under different numbers.
pub proof fn lemma_id_key_injective(a: Seq<u8>, b: Seq<u8>)
    requires
        a.len() == 16,
        b.len() == 16,
        id_key(a) == id_key(b),
    ensures
        a == b,
{
    lemma_be_range_of_ids();
    lemma_be_value_bound(a);
    lemma_be_value_bound(b);
    lemma_be_bytes_of_value(a);
    lemma_be_bytes_of_value(b);
}

/// The number under which a file is registered.
pub fn file_key(id: &FileId) -> (key: u128)
    ensures
        key == id_key(id@),
{
    let mut key: u128 = 0;
    let mut i: usize = 0;
    proof {
        lemma_be_range_of_ids();
    }
    while i < 16
        invariant
            i <= 16,
            id@.len() == 16,
            key as nat == be_value(id@.take(i as int)),
            be_range(16) == 0x1_0000_0000_0000_0000_0000_0000_0000_0000nat,
            forall|k: nat| k <= 16 ==> #[trigger] be_range(k) <= be_range(16),
        decreases 16 - i,
    {
        proof {
            lemma_be_value_bound(id@.take(i + 1));
            assert(id@.take(i + 1).drop_last() =~= id@.take(i as int));
            assert(be_range((i + 1) as nat) <= be_range(16));
        }
        key = key * 256 + id[i] as u128;
        i = i + 1;
    }
    assert(id@.take(16) =~= id@);
    key
}

proof fn lemma_hex_digit_injective(x: nat, y: nat)
    requires
        x < 16,
        y < 16,
        hex_digit(x) == hex_digit(y),
    ensures
        x == y,
{
    assert(hex_digit(x) as nat == if x < 10 { 48 + x } else { 87 + x });
    assert(hex_digit(y) as nat == if y < 10 { 48 + y } else { 87 + y });
}

/// The text of an identifier determines it.
pub proof fn lemma_hyphenated_injective(a: Seq<u8>, b: Seq<u8>)
    requires
        a.len() == 16,
        b.len() == 16,
        hyphenated(a) == hyphenated(b),
    ensures
        a == b,
{
    assert forall|k: int| 0 <= k < 32 implies half_byte(a, k) == half_byte(b, k) by {
        let i = if k < 8 {
            k
        } else if k < 12 {
            k + 1
        } else if k < 16 {
            k + 2
        } else if k < 20 {
            k + 3
        } else {
            k + 4
        };
        assert(!is_hyphen(i) && i - hyphens_before(i) == k);
        assert(hyphenated(a)[i] == hex_digit(half_byte(a, k)));
        assert(hyphenated(b)[i] == hex_digit(half_byte(b, k)));
        lemma_hex_digit_injective(half_byte(a, k), half_byte(b, k));
    }
    assert forall|j: int| 0 <= j < 16 implies a[j] == b[j] by {
        assert(half_byte(a, 2 * j) == half_byte(b, 2 * j));
        assert(half_byte(a, 2 * j + 1) == half_byte(b, 2 * j + 1));
    }
    assert(a =~= b);
}

/// The number that a hexadecimal digit writes down, in lower case.
pub open spec fn hex_value(c: char) -> int {
    if '0' <= c <= '9' {
        c as int - '0' as int
    } else {
        c as int - 'a' as int + 10
    }
}

/// Where the two digits of byte `j` start in the text of an identifier.
pub open spec fn digits_at(j: int) -> int {
    if j < 4 {
        2 * j
    } else if j < 6 {
        2 * j + 1
    } else if j < 8 {
        2 * j + 2
    } else if j < 10 {
        2 * j + 3
    } else {
        2 * j + 4
    }
}

proof fn lemma_hex_digit_value(d: nat)
    requires
        d < 16,
    ensures
        hex_value(hex_digit(d)) == d,
        '0' <= hex_digit(d) <= '9' || 'a' <= hex_digit(d) <= 'f',
{
    assert(hex_digit(d) as nat == if d < 10 { 48 + d } else { 87 + d });
}

/// The text of an identifier has 36 characters: hyphens behind 8, 4, 4 and 4
/// digits, and otherwise two lower-case hexadecimal digits for each byte, that
/// read back as the byte.
pub proof fn lemma_id_text_layout(id: Seq<u8>)
    requires
        id.len() == 16,
    ensures
        hyphenated(id).len() == 36,
        hyphenated(id)[8] == '-',
        hyphenated(id)[13] == '-',
        hyphenated(id)[18] == '-',
        hyphenated(id)[23] == '-',
        forall|j: int|
            0 <= j < 16 ==> #[trigger] id[j] == hex_value(hyphenated(id)[digits_at(j)]) * 16
                + hex_value(hyphenated(id)[digits_at(j) + 1]),
        forall|i: int|
            0 <= i < 36 && i != 8 && i != 13 && i != 18 && i != 23 ==> '0' <= #[trigger] hyphenated(
                id,
            )[i] <= '9' || 'a' <= hyphenated(id)[i] <= 'f',
{
    let text = hyphenated(id);
    assert forall|j: int| 0 <= j < 16 implies #[trigger] id[j] == hex_value(text[digits_at(j)]) * 16
        + hex_value(text[digits_at(j) + 1]) by {
        let i = digits_at(j);
        assert(!is_hyphen(i) && !is_hyphen(i + 1));
        assert(i - hyphens_before(i) == 2 * j);
        assert(i + 1 - hyphens_before(i + 1) == 2 * j + 1);
        assert(text[i] == hex_digit(half_byte(id, 2 * j)));
        assert(text[i + 1] == hex_digit(half_byte(id, 2 * j + 1)));
        assert(half_byte(id, 2 * j) == id[j] / 16);
        assert(half_byte(id, 2 * j + 1) == id[j] % 16);
        lemma_hex_digit_value(half_byte(id, 2 * j));
        lemma_hex_digit_value(half_byte(id, 2 * j + 1));
    }
    assert forall|i: int| 0 <= i < 36 && i != 8 && i != 13 && i != 18 && i != 23 implies '0'
        <= #[trigger] text[i] <= '9' || 'a' <= text[i] <= 'f' by {
        let k = i - hyphens_before(i);
        assert(text[i] == hex_digit(half_byte(id, k)));
        lemma_hex_digit_value(half_byte(id, k));
    }
}

/// A random identifier has its version in the high half of its seventh byte and
/// its variant in the two high bits of its ninth.
pub proof fn lemma_version_4_bits(id: Seq<u8>)
    ensures
        is_version_4(id) <==> id.len() == 16 && 0x40 <= id[6] <= 0x4f && 0x80 <= id[8] <= 0xbf,
{
}

} // verus!
