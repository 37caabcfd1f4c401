//! Stable identifiers for a component's CSS scope.
use vstd::prelude::*;
use vstd::string::{StringExecFns, StringSliceAdditionalSpecFns};
use crate::text::{push_char, push_str};
use vstd::std_specs::cmp::PartialEqSpec;

verus! {

/// The djb2 hash of a byte sequence: start at 5381 and, for every byte,
/// multiply by 33 and add the byte, wrapping at 2^32.
pub open spec fn djb2_hash(bytes: Seq<u8>) -> u32
    decreases bytes.len(),
{
    if bytes.len() == 0 {
        5381
    } else {
        djb2_hash(bytes.drop_last()).wrapping_mul(33).wrapping_add(bytes.last() as u32)
    }
}

/// djb2 folds every byte of its input: the hash of no bytes is 5381, and
/// one more byte `x` turns hash `h` into `h * 33 + x`, wrapping at 2^32.
pub proof fn lemma_djb2_folds_every_byte(b: Seq<u8>, x: u8)
    ensures
        djb2_hash(Seq::<u8>::empty()) == 5381,
        djb2_hash(b.push(x)) as int == (djb2_hash(b) as int * 33 + x as int) % 0x1_0000_0000,
{
    assert(b.push(x).drop_last() =~= b);
    let h = djb2_hash(b) as int;
    let m: int = 0x1_0000_0000;
    let w = (h * 33) % m;
    vstd::arithmetic::div_mod::lemma_add_mod_noop_right(x as int, h * 33, m);
    assert(0 <= w < m) by {
        vstd::arithmetic::div_mod::lemma_mod_pos_bound(h * 33, m);
    }
    if w + x < m {
        vstd::arithmetic::div_mod::lemma_small_mod((w + x) as nat, m as nat);
    } else {
        vstd::arithmetic::div_mod::lemma_mod_sub_multiples_vanish(w + x, m);
        vstd::arithmetic::div_mod::lemma_small_mod((w + x - m) as nat, m as nat);
    }
    assert((x as int + w) % m == (x as int + h * 33) % m);
}

/// 16 to the power `e`.
pub open spec fn pow16(e: int) -> int
    decreases e,
{
    if e <= 0 {
        1
    } else {
        16 * pow16(e - 1)
    }
}

/// The lowercase hexadecimal digit for a value below 16.
pub open spec fn hex_digit(d: int) -> char {
    if d < 10 {
        (d + 48) as char
    } else {
        (d + 87) as char
    }
}

/// `h` as exactly eight lowercase hexadecimal digits, most significant first.
pub open spec fn hex8(h: u32) -> Seq<char> {
    Seq::new(8, |k: int| hex_digit((h as int / pow16(7 - k)) % 16))
}

/// The scope identifier derived from a component name: the djb2 hash of the
/// name's UTF-8 bytes, as eight lowercase hexadecimal digits.
pub open spec fn scope_name(name: Seq<char>) -> Seq<char> {
    hex8(djb2_hash(vstd::utf8::encode_utf8(name)))
}

/// `_leptoshost-{id}`
pub open spec fn host_attr_name(id: Seq<char>) -> Seq<char> {
    "_leptoshost-"@ + id
}

/// `_leptoscontent-{id}`
pub open spec fn content_attr_name(id: Seq<char>) -> Seq<char> {
    "_leptoscontent-"@ + id
}

/// A lowercase hexadecimal digit.
pub open spec fn is_lower_hex_digit(c: char) -> bool {
    ('0' <= c && c <= '9') || ('a' <= c && c <= 'f')
}

/// Powers of 16 are positive.
proof fn lemma_pow16_pos(e: int)
    ensures
        pow16(e) >= 1,
    decreases e,
{
    if e > 0 {
        lemma_pow16_pos(e - 1);
    }
}

/// A scope identifier is exactly eight lowercase hexadecimal digits.
pub proof fn lemma_scope_id_is_lower_hex8(h: u32)
    ensures
        hex8(h).len() == 8,
        forall|k: int| 0 <= k < 8 ==> is_lower_hex_digit(#[trigger] hex8(h)[k]),
{
    assert forall|k: int| 0 <= k < 8 implies is_lower_hex_digit(#[trigger] hex8(h)[k]) by {
        lemma_pow16_pos(7 - k);
        let d = (h as int / pow16(7 - k)) % 16;
        assert(0 <= d < 16);
    }
}

/// `h` without its last `7 - k` hexadecimal digits.
spec fn hex_prefix_value(h: u32, k: int) -> int {
    h as int / pow16(7 - k)
}

/// Distinct digit values give distinct digit characters.
proof fn lemma_hex_digit_injective(x: int, y: int)
    requires
        0 <= x < 16,
        0 <= y < 16,
        hex_digit(x) == hex_digit(y),
    ensures
        x == y,
{
    let cx = hex_digit(x) as int;
    let cy = hex_digit(y) as int;
    assert(cx == if x < 10 { x + 48 } else { x + 87 });
    assert(cy == if y < 10 { y + 48 } else { y + 87 });
}

/// Each hexadecimal prefix is sixteen times the previous one plus the next
/// digit.
proof fn lemma_hex_prefix_step(h: u32, k: int)
    requires
        0 <= k < 7,
    ensures
        hex_prefix_value(h, k + 1) == 16 * hex_prefix_value(h, k) + hex_prefix_value(h, k + 1)
            % 16,
{
    let p = pow16(6 - k);
    lemma_pow16_pos(6 - k);
    assert(pow16(7 - k) == 16 * p);
    vstd::arithmetic::div_mod::lemma_div_denominator(h as int, p, 16);
    vstd::arithmetic::div_mod::lemma_fundamental_div_mod(h as int / p, 16);
    assert(p * 16 == pow16(7 - k));
}

/// The two hashes agree on every hexadecimal prefix up to `k`.
proof fn lemma_hex_prefixes_agree(a: u32, b: u32, k: int)
    requires
        hex8(a) == hex8(b),
        0 <= k <= 7,
    ensures
        hex_prefix_value(a, k) == hex_prefix_value(b, k),
    decreases k,
{
    lemma_pow16_pos(7 - k);
    let da = hex_prefix_value(a, k) % 16;
    let db = hex_prefix_value(b, k) % 16;
    assert(hex8(a)[k] == hex8(b)[k]);
    assert(hex8(a)[k] == hex_digit(da));
    assert(hex8(b)[k] == hex_digit(db));
    lemma_hex_digit_injective(da, db);
    if k == 0 {
        assert(pow16(7) == 0x1000_0000) by {
            reveal_with_fuel(pow16, 8);
        }
        assert(hex_prefix_value(a, 0) < 16);
        assert(hex_prefix_value(b, 0) < 16);
    } else {
        lemma_hex_prefixes_agree(a, b, k - 1);
        lemma_hex_prefix_step(a, k - 1);
        lemma_hex_prefix_step(b, k - 1);
    }
}

/// The value of a hexadecimal digit character (`0`-`9`, `a`-`f`).
pub open spec fn hex_digit_value(c: char) -> int {
    if c <= '9' {
        c as int - '0' as int
    } else {
        c as int - 'a' as int + 10
    }
}

/// The number that a sequence of hexadecimal digits spells, most
/// significant digit first.
pub open spec fn hex_number(digits: Seq<char>) -> int
    decreases digits.len(),
{
    if digits.len() == 0 {
        0
    } else {
        hex_number(digits.drop_last()) * 16 + hex_digit_value(digits.last())
    }
}

/// The first `k + 1` digits spell the hash without its last `7 - k` digits.
proof fn lemma_hex_number_prefix(h: u32, k: int)
    requires
        0 <= k <= 7,
    ensures
        hex_number(hex8(h).subrange(0, k + 1)) == hex_prefix_value(h, k),
    decreases k,
{
    lemma_pow16_pos(7 - k);
    let d = hex_prefix_value(h, k) % 16;
    assert(0 <= d < 16);
    assert(hex8(h)[k] == hex_digit(d));
    assert(hex_digit_value(hex_digit(d)) == d);
    let digits = hex8(h).subrange(0, k + 1);
    assert(digits.last() == hex8(h)[k]);
    assert(hex_number(digits) == hex_number(digits.drop_last()) * 16 + d);
    if k == 0 {
        assert(pow16(7) == 0x1000_0000) by {
            reveal_with_fuel(pow16, 8);
        }
        assert(hex_prefix_value(h, 0) < 16);
        assert(digits.drop_last() =~= Seq::<char>::empty());
        assert(hex_number(digits.drop_last()) == 0);
        assert(hex_prefix_value(h, 0) % 16 == hex_prefix_value(h, 0));
    } else {
        lemma_hex_number_prefix(h, k - 1);
        lemma_hex_prefix_step(h, k - 1);
        assert(digits.drop_last() =~= hex8(h).subrange(0, k));
        assert(hex_number(digits.drop_last()) == hex_prefix_value(h, k - 1));
    }
}

/// A scope identifier spells its hash: read as a hexadecimal number, most
/// significant digit first, the eight digits give back the hash.
pub proof fn lemma_scope_id_spells_hash(h: u32)
    ensures
        hex_number(hex8(h)) == h as int,
{
    lemma_hex_number_prefix(h, 7);
    assert(hex8(h).subrange(0, 8) =~= hex8(h));
    assert(pow16(0) == 1);
}

/// Distinct hashes give distinct scope identifiers: the eight digits
/// determine the hash.
pub proof fn lemma_hex8_injective(a: u32, b: u32)
    requires
        hex8(a) == hex8(b),
    ensures
        a == b,
{
    lemma_hex_prefixes_agree(a, b, 7);
    assert(pow16(0) == 1);
}

/// A stable, unique identifier for a component's CSS scope.
///
/// Derived from the component name via a djb2 hash. Two components with
/// the same name will always produce the same `ScopeId`, so names must be
/// unique within an application.
#[derive(Debug, Hash)]
pub struct ScopeId {
    hash: u32,
    hex: String,
}

impl ScopeId {
    /// The djb2 hash this identifier was derived from.
    pub closed spec fn hash_value(&self) -> u32 {
        self.hash
    }

    #[verifier::type_invariant]
    spec fn wf(&self) -> bool {
        self.hex@ == hex8(self.hash)
    }

    /// Derive a `ScopeId` from a component name.
    ///
    /// Uses the djb2 hash algorithm to produce a short, stable hex string.
    pub fn from_name(name: &str) -> (id: Self)
        ensures
            id.hash_value() == djb2_hash(name.spec_bytes()),
            id@ == scope_name(name@),
    {
        let hash = djb2(name);
        let hex = lower_hex8(hash);
        ScopeId { hash, hex }
    }

    /// The HTML attribute name applied to the component's host element.
    ///
    /// Format: `_leptoshost-{hash}`
    pub fn host_attr(&self) -> (attr: String)
        ensures
            attr@ == host_attr_name(self@),
    {
        proof {
            use_type_invariant(self);
        }
        let mut attr = String::from_str("_leptoshost-");
        push_str(&mut attr, self.hex.as_str());
        attr
    }

    /// The HTML attribute name applied to every element inside the component.
    ///
    /// Format: `_leptoscontent-{hash}`
    pub fn content_attr(&self) -> (attr: String)
        ensures
            attr@ == content_attr_name(self@),
    {
        proof {
            use_type_invariant(self);
        }
        let mut attr = String::from_str("_leptoscontent-");
        push_str(&mut attr, self.hex.as_str());
        attr
    }

    /// The djb2 hash this identifier was derived from.
    pub fn digest(&self) -> (h: u32)
        ensures
            h == self.hash_value(),
    {
        self.hash
    }

    /// The raw hex hash string, e.g. `"c1a2b3c4"`.
    pub fn as_str(&self) -> (s: &str)
        ensures
            s@ == self@,
    {
        proof {
            use_type_invariant(self);
        }
        self.hex.as_str()
    }
}

impl View for ScopeId {
    type V = Seq<char>;

    /// The eight hexadecimal digits of the hash.
    open spec fn view(&self) -> Seq<char> {
        hex8(self.hash_value())
    }
}

impl Clone for ScopeId {
    fn clone(&self) -> (r: Self)
        ensures
            r == *self,
    {
        proof {
            use_type_invariant(self);
        }
        ScopeId { hash: self.hash, hex: self.hex.clone() }
    }
}

impl PartialEq for ScopeId {
    fn eq(&self, other: &Self) -> (r: bool) {
        self.hash == other.hash
    }
}

impl Eq for ScopeId {

}

impl vstd::std_specs::cmp::PartialEqSpecImpl for ScopeId {
    open spec fn obeys_eq_spec() -> bool {
        true
    }

    open spec fn eq_spec(&self, other: &Self) -> bool {
        self.hash_value() == other.hash_value()
    }
}

/// Two components with the same name get the same scope: the identifier
/// and the hash are functions of the name alone.
pub proof fn lemma_same_name_same_scope(a: &str, b: &str)
    requires
        a@ == b@,
    ensures
        djb2_hash(a.spec_bytes()) == djb2_hash(b.spec_bytes()),
        scope_name(a@) == scope_name(b@),
{
}

/// Two scope identifiers are equal exactly when their hexadecimal texts are.
pub proof fn lemma_scope_id_eq_iff_same_text(a: ScopeId, b: ScopeId)
    ensures
        a.eq_spec(&b) <==> a@ == b@,
{
    if a@ == b@ {
        lemma_hex8_injective(a.hash_value(), b.hash_value());
    }
}

/// djb2 hash of the UTF-8 bytes of `s`: fast, deterministic, and suitable
/// for short strings like component names.
fn djb2(s: &str) -> (h: u32)
    ensures
        h == djb2_hash(s.spec_bytes()),
{
    let bytes = s.as_bytes();
    let len = bytes.len();
    let mut h: u32 = 5381;
    let mut i: usize = 0;
    while i < len
        invariant
            i <= len,
            len == bytes@.len(),
            bytes@ == s.spec_bytes(),
            h == djb2_hash(bytes@.subrange(0, i as int)),
        decreases len - i,
    {
        let b = bytes[i];
        assert(bytes@.subrange(0, i + 1).drop_last() =~= bytes@.subrange(0, i as int));
        h = h.wrapping_mul(33).wrapping_add(b as u32);
        i = i + 1;
    }
    assert(bytes@.subrange(0, len as int) =~= bytes@);
    h
}

/// The lowercase hexadecimal digit for `d < 16`.
fn hex_digit_char(d: u32) -> (c: char)
    requires
        d < 16,
    ensures
        c == hex_digit(d as int),
{
    let b = d as u8;
    if b < 10 {
        (b + 48) as char
    } else {
        (b + 87) as char
    }
}

/// `h` as eight lowercase hexadecimal digits, zero-padded.
fn lower_hex8(h: u32) -> (s: String)
    ensures
        s@ == hex8(h),
{
    let mut out = String::new();
    let mut div: u32 = 0x1000_0000;
    let mut k: usize = 0;
    assert(pow16(7) == 0x1000_0000) by {
        reveal_with_fuel(pow16, 8);
    }
    while k < 8
        invariant
            k <= 8,
            k < 8 ==> div as int == pow16(7 - k),
            k < 8 ==> div >= 1,
            out@ == hex8(h).subrange(0, k as int),
        decreases 8 - k,
    {
        let d = (h / div) % 16;
        push_char(&mut out, hex_digit_char(d));
        assert(out@ =~= hex8(h).subrange(0, k + 1));
        if k < 7 {
            assert(pow16(7 - k) == 16 * pow16(7 - k - 1));
            div = div / 16;
        }
        k = k + 1;
    }
    assert(hex8(h).subrange(0, 8) =~= hex8(h));
    out
}

} // verus!
