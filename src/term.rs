use vstd::prelude::*;
use byteorder::{BigEndian, ByteOrder};
use crate::common::{i64_to_u64, i64_to_u64_spec};
use vstd::arithmetic::div_mod::{lemma_div_is_ordered, lemma_fundamental_div_mod};
use vstd::slice::{slice_subrange, slice_to_vec};
use vstd::utf8::valid_utf8;
use vstd::string::StringSliceAdditionalSpecFns;

verus! {

/// Size (in bytes) of the buffer of an integer term: the field id and a u64.
pub const INT_TERM_LEN: usize = 12;

/// Identifier of a field of the schema.
#[derive(Clone, Copy, Debug, PartialEq, Eq, Structural, PartialOrd, Ord, Hash)]
pub struct Field(pub u32);

/// `256` to the power `n`.
pub open spec fn pow256(n: nat) -> nat
    decreases n,
{
    if n == 0 {
        1
    } else {
        256 * pow256((n - 1) as nat)
    }
}

/// The `n` low bytes of `v`, most significant first.
pub open spec fn be_bytes(v: nat, n: nat) -> Seq<u8>
    decreases n,
{
    if n == 0 {
        Seq::empty()
    } else {
        be_bytes(v / 256, (n - 1) as nat).push((v % 256) as u8)
    }
}

/// The number that the bytes `b` denote, most significant first.
pub open spec fn be_value(b: Seq<u8>) -> nat
    decreases b.len(),
{
    if b.len() == 0 {
        0
    } else {
        be_value(b.drop_last()) * 256 + b.last() as nat
    }
}

/// Lexicographic order on byte strings, as slices of `u8` compare.
pub open spec fn lex_lt(a: Seq<u8>, b: Seq<u8>) -> bool
    decreases a.len(),
{
    if a.len() == 0 {
        b.len() > 0
    } else if b.len() == 0 {
        false
    } else if a[0] != b[0] {
        a[0] < b[0]
    } else {
        lex_lt(a.drop_first(), b.drop_first())
    }
}

/// `s` cut or padded with zeros to the length `n`, as `Vec::resize(n, 0)` leaves it.
pub open spec fn resized(s: Seq<u8>, n: nat) -> Seq<u8> {
    if s.len() >= n {
        s.subrange(0, n as int)
    } else {
        s + Seq::new((n - s.len()) as nat, |i: int| 0u8)
    }
}

/// The bytes of the term for `field` and the unsigned value `val`.
pub open spec fn u64_term_bytes(field: Field, val: u64) -> Seq<u8> {
    be_bytes(field.0 as nat, 4) + be_bytes(val as nat, 8)
}

/// `be_bytes` gives exactly `n` bytes.
pub proof fn lemma_be_bytes_len(v: nat, n: nat)
    ensures
        be_bytes(v, n).len() == n,
    decreases n,
{
    if n > 0 {
        lemma_be_bytes_len(v / 256, (n - 1) as nat);
    }
}

/// `pow256(8)` is `2^64`: every u64 fits in eight bytes.
pub proof fn lemma_pow256_8()
    ensures
        pow256(8) == 0x1_0000_0000_0000_0000,
{
    reveal_with_fuel(pow256, 9);
}

/// Decoding the big-endian bytes of a value that fits in `n` bytes gives the value back.
pub proof fn lemma_be_round_trip(v: nat, n: nat)
    requires
        v < pow256(n),
    ensures
        be_value(be_bytes(v, n)) == v,
    decreases n,
{
    if n > 0 {
        let n1 = (n - 1) as nat;
        let p = pow256(n1);
        assert(v / 256 < p) by (nonlinear_arith)
            requires
                v < 256 * p,
        ;
        lemma_be_round_trip(v / 256, n1);
        let b = be_bytes(v, n);
        assert(b.drop_last() =~= be_bytes(v / 256, n1));
        lemma_fundamental_div_mod(v as int, 256);
    }
}

proof fn lemma_lex_lt_push(a: Seq<u8>, b: Seq<u8>, p: u8, q: u8)
    requires
        a.len() == b.len(),
        lex_lt(a, b) || (a == b && p < q),
    ensures
        lex_lt(a.push(p), b.push(q)),
    decreases a.len(),
{
    if a.len() > 0 && a[0] == b[0] {
        lemma_lex_lt_push(a.drop_first(), b.drop_first(), p, q);
        assert(a.push(p).drop_first() =~= a.drop_first().push(p));
        assert(b.push(q).drop_first() =~= b.drop_first().push(q));
    }
}

proof fn lemma_lex_lt_prefix(pre: Seq<u8>, a: Seq<u8>, b: Seq<u8>)
    requires
        lex_lt(a, b),
    ensures
        lex_lt(pre + a, pre + b),
    decreases pre.len(),
{
    if pre.len() > 0 {
        lemma_lex_lt_prefix(pre.drop_first(), a, b);
        assert((pre + a).drop_first() =~= pre.drop_first() + a);
        assert((pre + b).drop_first() =~= pre.drop_first() + b);
    } else {
        assert(pre + a =~= a);
        assert(pre + b =~= b);
    }
}

/// Big-endian bytes keep the order of the values: for two values that fit
/// in `n` bytes, the smaller one has the lexicographically smaller bytes.
pub proof fn lemma_be_bytes_order(x: nat, y: nat, n: nat)
    requires
        x < y,
        y < pow256(n),
    ensures
        lex_lt(be_bytes(x, n), be_bytes(y, n)),
    decreases n,
{
    let n1 = (n - 1) as nat;
    let p = pow256(n1);
    assert(y / 256 < p) by (nonlinear_arith)
        requires
            y < 256 * p,
    ;
    lemma_div_is_ordered(x as int, y as int, 256);
    lemma_be_bytes_len(x / 256, n1);
    lemma_be_bytes_len(y / 256, n1);
    if x / 256 < y / 256 {
        lemma_be_bytes_order(x / 256, y / 256, n1);
    } else {
        lemma_fundamental_div_mod(x as int, 256);
        lemma_fundamental_div_mod(y as int, 256);
    }
    lemma_lex_lt_push(be_bytes(x / 256, n1), be_bytes(y / 256, n1), (x % 256) as u8, (y % 256) as u8);
}

/// An unsigned value written into a term is read back unchanged from the
/// bytes after the field id.
pub proof fn lemma_u64_term_round_trip(field: Field, val: u64)
    ensures
        u64_term_bytes(field, val).len() == INT_TERM_LEN,
        be_value(u64_term_bytes(field, val).subrange(4, 12)) == val,
{
    lemma_be_bytes_len(field.0 as nat, 4);
    lemma_be_bytes_len(val as nat, 8);
    lemma_pow256_8();
    lemma_be_round_trip(val as nat, 8);
    assert(u64_term_bytes(field, val).subrange(4, 12) =~= be_bytes(val as nat, 8));
}

/// Terms of one field order as their unsigned values do.
pub proof fn lemma_u64_term_order(field: Field, x: u64, y: u64)
    requires
        x < y,
    ensures
        lex_lt(u64_term_bytes(field, x), u64_term_bytes(field, y)),
{
    lemma_pow256_8();
    lemma_be_bytes_order(x as nat, y as nat, 8);
    lemma_lex_lt_prefix(be_bytes(field.0 as nat, 4), be_bytes(x as nat, 8), be_bytes(y as nat, 8));
}

/// Relies on byteorder's `BigEndian::read_u32`: the first four bytes, most significant first.
#[verifier::external_body]
fn read_be_u32(buf: &[u8]) -> (r: u32)
    requires
        buf@.len() >= 4,
    ensures
        r as nat == be_value(buf@.subrange(0, 4)),
{
    BigEndian::read_u32(buf)
}

/// Relies on byteorder's `BigEndian::read_u64`: the first eight bytes, most significant first.
#[verifier::external_body]
fn read_be_u64(buf: &[u8]) -> (r: u64)
    requires
        buf@.len() >= 8,
    ensures
        r as nat == be_value(buf@.subrange(0, 8)),
{
    BigEndian::read_u64(buf)
}

/// Relies on byteorder's `BigEndian::write_u32`: the four bytes of `n`, most significant first.
#[verifier::external_body]
fn be_u32_bytes(n: u32) -> (r: [u8; 4])
    ensures
        r@ == be_bytes(n as nat, 4),
{
    let mut buf = [0u8; 4];
    BigEndian::write_u32(&mut buf, n);
    buf
}

/// Relies on byteorder's `BigEndian::write_u64`: the eight bytes of `n`, most significant first.
#[verifier::external_body]
fn be_u64_bytes(n: u64) -> (r: [u8; 8])
    ensures
        r@ == be_bytes(n as nat, 8),
{
    let mut buf = [0u8; 8];
    BigEndian::write_u64(&mut buf, n);
    buf
}

/// Relies on `std::str::from_utf8`: the bytes as a string exactly when they are valid UTF-8.
#[verifier::external_body]
fn str_from_utf8(b: &[u8]) -> (r: Option<&str>)
    ensures
        r is Some <==> valid_utf8(b@),
        r is Some ==> r->0.spec_bytes() == b@,
{
    std::str::from_utf8(b).ok()
}

/// Term represents the value that a token can take: a four-byte big-endian
/// field id, followed by the value's bytes.
#[derive(Clone, Debug, PartialEq, Eq, PartialOrd, Ord, Hash)]
pub struct Term(Vec<u8>);

impl View for Term {
    type V = Seq<u8>;

    closed spec fn view(&self) -> Seq<u8> {
        self.0@
    }
}

/// Extract the field from the bytes of a term.
pub(crate) fn extract_field_from_term_bytes(term_bytes: &[u8]) -> (r: Field)
    requires
        term_bytes@.len() >= 4,
    ensures
        r.0 as nat == be_value(term_bytes@.subrange(0, 4)),
{
    Field(read_be_u32(term_bytes))
}

impl Term {
    /// Returns the field.
    pub fn field(&self) -> (r: Field)
        requires
            self@.len() >= 4,
        ensures
            r.0 as nat == be_value(self@.subrange(0, 4)),
    {
        extract_field_from_term_bytes(self.0.as_slice())
    }

    /// Writes the field id over the first four bytes, first padding the
    /// term with zeros to four bytes if it is shorter.
    pub fn set_field(&mut self, field: Field)
        ensures
            final(self)@ == be_bytes(field.0 as nat, 4) + (if old(self)@.len() >= 4 {
                old(self)@.subrange(4, old(self)@.len() as int)
            } else {
                Seq::empty()
            }),
    {
        if self.0.len() < 4 {
            self.0.resize(4, 0u8);
        }
        let bytes = be_u32_bytes(field.0);
        let ghost tail = self.0@.subrange(4, self.0@.len() as int);
        let mut i: usize = 0;
        while i < 4
            invariant
                i <= 4,
                self.0@.len() >= 4,
                self.0@.subrange(4, self.0@.len() as int) == tail,
                bytes@ == be_bytes(field.0 as nat, 4),
                forall|j: int| 0 <= j < i ==> self.0@[j] == bytes@[j],
            decreases 4 - i,
        {
            self.0.set(i, bytes[i]);
            i = i + 1;
        }
        proof {
            let expected = be_bytes(field.0 as nat, 4) + (if old(self)@.len() >= 4 {
                old(self)@.subrange(4, old(self)@.len() as int)
            } else {
                Seq::empty()
            });
            if old(self)@.len() < 4 {
                assert(tail =~= Seq::empty());
            }
            assert(self.0@ =~= expected);
        }
    }

    /// Builds a term from a field and a u64 value: four bytes of field id,
    /// then the eight bytes of the value, both big-endian.
    pub fn from_field_u64(field: Field, val: u64) -> (r: Term)
        ensures
            r@ == u64_term_bytes(field, val),
    {
        let mut term = Term(Vec::new());
        term.0.resize(INT_TERM_LEN, 0u8);
        term.set_field(field);
        proof {
            lemma_be_bytes_len(field.0 as nat, 4);
            assert(resized(term.0@, 4) =~= be_bytes(field.0 as nat, 4));
        }
        term.set_u64(val);
        term
    }

    /// Sets a u64 value in the term, as eight big-endian bytes after the
    /// field id; the term is cut or padded with zeros to twelve bytes first.
    pub fn set_u64(&mut self, val: u64)
        ensures
            final(self)@ == resized(old(self)@, 4) + be_bytes(val as nat, 8),
    {
        self.0.resize(INT_TERM_LEN, 0u8);
        let bytes = be_u64_bytes(val);
        let ghost head = self.0@.subrange(0, 4);
        let mut i: usize = 0;
        while i < 8
            invariant
                i <= 8,
                self.0@.len() == 12,
                self.0@.subrange(0, 4) == head,
                bytes@ == be_bytes(val as nat, 8),
                forall|j: int| 0 <= j < i ==> self.0@[4 + j] == bytes@[j],
            decreases 8 - i,
        {
            self.0.set(4 + i, bytes[i]);
            i = i + 1;
        }
        proof {
            assert(head =~= resized(old(self)@, 4));
            assert(self.0@ =~= resized(old(self)@, 4) + be_bytes(val as nat, 8));
        }
    }

    /// Builds a term from a field and an i64 value, stored through its
    /// order-preserving u64 form.
    pub fn from_field_i64(field: Field, val: i64) -> (r: Term)
        ensures
            r@ == u64_term_bytes(field, i64_to_u64_spec(val)),
    {
        Term::from_field_u64(field, i64_to_u64(val))
    }

    /// Builds a term from a field and a text: four bytes of field id, then
    /// the UTF-8 bytes of the text.
    pub fn from_field_text(field: Field, text: &str) -> (r: Term)
        ensures
            r@ == be_bytes(field.0 as nat, 4) + text.spec_bytes(),
    {
        let mut term = Term(Vec::new());
        term.set_field(field);
        proof {
            lemma_be_bytes_len(field.0 as nat, 4);
            assert(resized(term.0@, 4) =~= be_bytes(field.0 as nat, 4));
        }
        term.set_text(text);
        term
    }

    /// Reads the u64 value stored after the field id.
    pub fn get_u64(&self) -> (r: u64)
        requires
            self@.len() >= INT_TERM_LEN,
        ensures
            r as nat == be_value(self@.subrange(4, 12)),
    {
        let v = slice_subrange(self.0.as_slice(), 4, self.0.len());
        proof {
            assert(v@.subrange(0, 8) =~= self@.subrange(4, 12));
        }
        read_be_u64(v)
    }

    /// Builds a term from its byte representation.
    pub fn from_bytes(data: &[u8]) -> (r: Term)
        ensures
            r@ == data@,
    {
        Term(slice_to_vec(data))
    }

    /// Returns the bytes of the value, that is the term without its field id.
    pub fn value(&self) -> (r: &[u8])
        requires
            self@.len() >= 4,
        ensures
            r@ == self@.subrange(4, self@.len() as int),
    {
        slice_subrange(self.0.as_slice(), 4, self.0.len())
    }

    /// Returns the text held in the term's value.
    pub fn text(&self) -> (r: &str)
        requires
            self@.len() >= 4,
            valid_utf8(self@.subrange(4, self@.len() as int)),
        ensures
            r.spec_bytes() == self@.subrange(4, self@.len() as int),
    {
        let s = str_from_utf8(self.value());
        s.unwrap()
    }

    /// Sets the text, keeping the field id: the term is cut or padded with
    /// zeros to four bytes, then the UTF-8 bytes of the text are appended.
    pub fn set_text(&mut self, text: &str)
        ensures
            final(self)@ == resized(old(self)@, 4) + text.spec_bytes(),
    {
        self.0.resize(4, 0u8);
        proof {
            assert(self.0@ =~= resized(old(self)@, 4));
        }
        self.0.extend_from_slice(text.as_bytes());
    }

    /// Returns the underlying bytes.
    pub fn as_slice(&self) -> (r: &[u8])
        ensures
            r@ == self@,
    {
        self.0.as_slice()
    }
}

impl AsRef<[u8]> for Term {
    /// The bytes of the term.
    fn as_ref(&self) -> (r: &[u8])
        ensures
            r@ == self@,
    {
        self.0.as_slice()
    }
}

} // verus!
