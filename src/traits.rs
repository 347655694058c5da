//! Keys of cached items.
use vstd::prelude::*;

verus! {

#[verifier::external_type_specification]
#[verifier::external_body]
pub struct ExUuid(uuid::Uuid);

/// A character that a file name may hold on every common file system.
pub open spec fn is_name_char(c: char) -> bool {
    c != '/' && c != '\\' && c != '\0' && c != ':'
}

/// A name that cannot be taken for anything but one file in a directory:
/// not empty, no separator, not `.` or `..`.
pub open spec fn is_safe_filename(s: Seq<char>) -> bool {
    &&& s.len() > 0
    &&& forall|i: int| 0 <= i < s.len() ==> is_name_char(#[trigger] s[i])
    &&& s != seq!['.']
    &&& s != seq!['.', '.']
}

/// The 128 bits of a UUID, most significant first (what `Uuid::as_u128` returns).
pub uninterp spec fn uuid_bits(u: uuid::Uuid) -> u128;

/// The bits of a random (version 4) UUID of the RFC 4122 variant: version
/// nibble 4, and the two top bits of the variant nibble `10`.
pub open spec fn is_v4_rfc4122(bits: u128) -> bool {
    bits & 0xF000C000000000000000u128 == 0x40008000000000000000u128
}

/// The lower-case hex digit of `d` (below 16).
pub open spec fn hex_char(d: nat) -> char {
    if d == 0 { '0' } else if d == 1 { '1' } else if d == 2 { '2' } else if d == 3 { '3' }
    else if d == 4 { '4' } else if d == 5 { '5' } else if d == 6 { '6' } else if d == 7 { '7' }
    else if d == 8 { '8' } else if d == 9 { '9' } else if d == 10 { 'a' } else if d == 11 { 'b' }
    else if d == 12 { 'c' } else if d == 13 { 'd' } else if d == 14 { 'e' } else { 'f' }
}

/// The last `n` hex digits of `x`, most significant first.
pub open spec fn hex_digits(x: nat, n: nat) -> Seq<char>
    decreases n,
{
    if n == 0 {
        seq![]
    } else {
        hex_digits(x / 16, (n - 1) as nat).push(hex_char(x % 16))
    }
}

/// The hyphenated form of a UUID's bits: 32 lower-case hex digits in groups
/// of 8, 4, 4, 4 and 12, with `-` between the groups.
pub open spec fn hyphenated(x: u128) -> Seq<char> {
    let d = hex_digits(x as nat, 32);
    d.subrange(0, 8) + seq!['-'] + d.subrange(8, 12) + seq!['-'] + d.subrange(12, 16) + seq!['-']
        + d.subrange(16, 20) + seq!['-'] + d.subrange(20, 32)
}

pub open spec fn pow16(n: nat) -> nat
    decreases n,
{
    if n == 0 {
        1
    } else {
        16 * pow16((n - 1) as nat)
    }
}

proof fn lemma_hex_digits_shape(x: nat, n: nat)
    ensures
        hex_digits(x, n).len() == n,
        forall|i: int| 0 <= i < n ==> #[trigger] hex_digits(x, n)[i] != '-' && is_name_char(
            hex_digits(x, n)[i],
        ),
    decreases n,
{
    if n > 0 {
        lemma_hex_digits_shape(x / 16, (n - 1) as nat);
    }
}

proof fn lemma_hex_digits_injective(x: nat, y: nat, n: nat)
    requires
        hex_digits(x, n) == hex_digits(y, n),
        x < pow16(n),
        y < pow16(n),
    ensures
        x == y,
    decreases n,
{
    if n > 0 {
        let m = (n - 1) as nat;
        assert(hex_digits(x / 16, m) == hex_digits(x, n).drop_last());
        assert(hex_digits(y / 16, m) == hex_digits(y, n).drop_last());
        assert(hex_char(x % 16) == hex_digits(x, n).last());
        lemma_hex_digits_injective(x / 16, y / 16, m);
    }
}

/// A name in hyphenated form is a safe file name.
pub proof fn lemma_hyphenated_safe(x: u128)
    ensures
        hyphenated(x).len() == 36,
        is_safe_filename(hyphenated(x)),
{
    let h = hyphenated(x);
    lemma_hex_digits_shape(x as nat, 32);
    assert(h[8] == '-');
    assert(h != seq!['.']) by {
        assert(h.len() != seq!['.'].len());
    }
    assert(h != seq!['.', '.']) by {
        assert(h.len() != seq!['.', '.'].len());
    }
}

/// Distinct UUID bits give distinct names: the hyphenated form is injective.
pub proof fn lemma_hyphenated_injective(a: u128, b: u128)
    requires
        hyphenated(a) == hyphenated(b),
    ensures
        a == b,
{
    let da = hex_digits(a as nat, 32);
    let db = hex_digits(b as nat, 32);
    lemma_hex_digits_shape(a as nat, 32);
    lemma_hex_digits_shape(b as nat, 32);
    assert forall|i: int| 0 <= i < 32 implies da[i] == db[i] by {
        let j = if i < 8 { i } else if i < 12 { i + 1 } else if i < 16 { i + 2 } else if i < 20 {
            i + 3
        } else {
            i + 4
        };
        assert(hyphenated(a)[j] == da[i]);
        assert(hyphenated(b)[j] == db[i]);
    }
    assert(da =~= db);
    assert(pow16(32) == 0x1_0000_0000_0000_0000_0000_0000_0000_0000) by {
        reveal_with_fuel(pow16, 33);
    }
    lemma_hex_digits_injective(a as nat, b as nat, 32);
}

/// A datatype that can be used as the access key for cached items.
///
/// Its file name must not hold anything that the OS can misread (such as a
/// path separator). UUIDv4 suits most uses.
pub trait Key: core::fmt::Debug + Send + Sync + Sized + 'static {
    /// Generate a new, unique key.
    fn new() -> Self;

    /// Convert this key to a filename used for flushing to disk.
    fn as_filename(&self) -> (r: String)
        ensures
            is_safe_filename(r@),
    ;
}

/// Relies on uuid::Uuid::new_v4: random bits, with the version and variant
/// bits masked in.
#[verifier::external_body]
fn fresh_uuid() -> (r: uuid::Uuid)
    ensures
        is_v4_rfc4122(uuid_bits(r)),
{
    uuid::Uuid::new_v4()
}

/// Relies on uuid's `Display` for `Uuid`: through `LowerHex` and
/// `format_hyphenated`, the lower-case hyphenated form of its bits.
#[verifier::external_body]
fn uuid_text(u: &uuid::Uuid) -> (r: String)
    ensures
        r@ == hyphenated(uuid_bits(*u)),
{
    u.to_string()
}

impl Key for uuid::Uuid {
    fn new() -> (r: Self)
        ensures
            is_v4_rfc4122(uuid_bits(r)),
    {
        fresh_uuid()
    }

    fn as_filename(&self) -> (r: String)
        ensures
            r@ == hyphenated(uuid_bits(*self)),
    {
        let r = uuid_text(self);
        proof {
            lemma_hyphenated_safe(uuid_bits(*self));
        }
        r
    }
}

} // verus!
